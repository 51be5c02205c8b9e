//! The listing of an archive: every entry, and the directory tree their paths imply.
use vstd::prelude::*;
use vstd::hash_map::StringHashMap;
use vstd::utf8::*;
use crate::archive::entry::{implied_directory, EntryView, ZipEntry};
use crate::archive::names::{normalise_path, normalised};
use crate::error::{fails_protocol, protocol_of, Result};
use crate::paths::{has_prefix, last_place, lemma_last_place, name_of, parent_of, path_parent};
use crate::sorting::{byte_strings, has_place, lemma_sorted_distinct, sort_places, sorts_before};
use crate::text::{bytes_before, is_before, lemma_before_irreflexive, lemma_before_total, lemma_before_transitive, same_text, utf8_bytes};

verus! {

/// The entries of an archive by path.
pub type Tree = Map<Seq<char>, EntryView>;

/// The contents of a list of entries.
pub open spec fn entry_views(v: Seq<ZipEntry>) -> Seq<EntryView> {
    Seq::new(v.len(), |i: int| v[i]@)
}

/// `m` with one more record: a later duplicate wins, unless it would hide a directory.
pub open spec fn with_record(m: Tree, e: EntryView) -> Tree {
    if m.contains_key(e.path) && m[e.path].is_directory {
        m
    } else {
        m.insert(e.path, e)
    }
}

/// The entries that the records describe.
pub open spec fn recorded(parsed: Seq<EntryView>) -> Tree
    decreases parsed.len(),
{
    if parsed.len() == 0 {
        Map::empty()
    } else {
        with_record(recorded(parsed.drop_last()), parsed.last())
    }
}

/// The paths of the records, in the order of their first mention.
pub open spec fn recorded_order(parsed: Seq<EntryView>) -> Seq<Seq<char>>
    decreases parsed.len(),
{
    if parsed.len() == 0 {
        Seq::empty()
    } else {
        let o = recorded_order(parsed.drop_last());
        if recorded(parsed.drop_last()).contains_key(parsed.last().path) {
            o
        } else {
            o.push(parsed.last().path)
        }
    }
}

/// `m` has a directory at `path`.
pub open spec fn has_directory(m: Tree, path: Seq<char>) -> bool {
    m.contains_key(path) && m[path].is_directory
}

/// `m` with the directories from `parent` up that it lacks.
pub open spec fn with_parents(m: Tree, parent: Seq<char>, millis: int) -> Tree
    decreases parent.len(),
    via with_parents_ends
{
    if parent.len() == 0 || has_directory(m, parent) {
        m
    } else {
        with_parents(m.insert(parent, implied_directory(parent, millis)), parent_of(parent), millis)
    }
}

#[via_fn]
proof fn with_parents_ends(m: Tree, parent: Seq<char>, millis: int) {
    if parent.len() > 0 {
        lemma_parent_shorter(parent);
    }
}

/// `m` with the directories that the paths of `order` imply, in turn.
pub open spec fn with_directories(m: Tree, order: Seq<Seq<char>>) -> Tree
    decreases order.len(),
{
    if order.len() == 0 {
        m
    } else {
        let t = with_directories(m, order.drop_last());
        with_parents(t, parent_of(order.last()), t[order.last()].modified_millis)
    }
}

/// The entries of an archive with these records.
pub open spec fn archive_tree(parsed: Seq<EntryView>) -> Tree {
    with_directories(recorded(parsed), recorded_order(parsed))
}

/// `list` is the entries of `m`, each once, in the order of their paths.
pub open spec fn lists(list: Seq<ZipEntry>, m: Tree) -> bool {
    &&& forall|i: int|
        0 <= i < list.len() ==> m.contains_key((#[trigger] list[i])@.path) && m[list[i]@.path] == list[i]@
    &&& forall|p: Seq<char>| #[trigger] m.contains_key(p) ==> has_path(list, p)
    &&& forall|i: int, j: int|
        0 <= i < j < list.len() ==> bytes_before(
            encode_utf8((#[trigger] list[i])@.path),
            encode_utf8((#[trigger] list[j])@.path),
        )
}

/// One of `list` has this path.
pub open spec fn has_path(list: Seq<ZipEntry>, p: Seq<char>) -> bool {
    exists|i: int| 0 <= i < list.len() && (#[trigger] list[i])@.path == p
}

/// The parent of a path is shorter.
pub proof fn lemma_parent_shorter(p: Seq<char>)
    requires
        p.len() > 0,
    ensures
        parent_of(p).len() < p.len(),
{
    lemma_last_place(p, '/');
}

/// The place of every entry, while the index is built.
spec fn represents(list: Seq<ZipEntry>, place: Map<Seq<char>, usize>, m: Tree) -> bool {
    &&& place.dom() == m.dom()
    &&& forall|p: Seq<char>|
        #[trigger] place.contains_key(p) ==> place[p] < list.len() && list[place[p] as int]@ == m[p] && m[p].path == p
    &&& forall|i: int|
        0 <= i < list.len() ==> place.contains_key((#[trigger] list[i])@.path) && place[list[i]@.path] == i
}

/// Puts `e` under its path.
fn put(list: &mut Vec<ZipEntry>, place: &mut StringHashMap<usize>, e: ZipEntry, Ghost(m): Ghost<Tree>)
    requires
        represents(old(list)@, old(place)@, m),
    ensures
        represents(final(list)@, final(place)@, m.insert(e@.path, e@)),
{
    let ghost m2 = m.insert(e@.path, e@);
    let at: Option<usize> = match place.get(e.path.as_str()) {
        Some(i) => Some(*i),
        None => None,
    };
    match at {
        Some(i) => {
            let ghost l0 = list@;
            list[i] = e;
            proof {
                assert(list@ == l0.update(i as int, e));
                assert(place@.dom() =~= m2.dom());
                assert forall|p: Seq<char>| #[trigger] place@.contains_key(p) implies place@[p] < list.len()
                    && list@[place@[p] as int]@ == m2[p] && m2[p].path == p by {
                    if p != e@.path && place@[p] == i {
                        assert(l0[i as int]@.path == e@.path);
                        assert(l0[i as int]@.path == p);
                    }
                }
                assert forall|k: int| 0 <= k < list.len() implies place@.contains_key((#[trigger] list@[k])@.path)
                    && place@[list@[k]@.path] == k by {
                    if k != i {
                        assert(list@[k] == l0[k]);
                    }
                }
            }
        },
        None => {
            let ghost l0 = list@;
            let ghost p0 = place@;
            place.insert(e.path.clone(), list.len());
            list.push(e);
            proof {
                assert(list@ == l0.push(e));
                assert(place@.dom() =~= m2.dom());
                assert forall|p: Seq<char>| #[trigger] place@.contains_key(p) implies place@[p] < list.len()
                    && list@[place@[p] as int]@ == m2[p] && m2[p].path == p by {
                    if p != e@.path {
                        assert(p0.contains_key(p));
                        assert(list@[p0[p] as int] == l0[p0[p] as int]);
                    }
                }
                assert forall|k: int| 0 <= k < list.len() implies place@.contains_key((#[trigger] list@[k])@.path)
                    && place@[list@[k]@.path] == k by {
                    if k < l0.len() {
                        assert(list@[k] == l0[k]);
                        assert(p0.contains_key(l0[k]@.path));
                    }
                }
            }
        },
    }
}

/// Takes in one record.
fn put_record(list: &mut Vec<ZipEntry>, place: &mut StringHashMap<usize>, e: ZipEntry, Ghost(m): Ghost<Tree>)
    requires
        represents(old(list)@, old(place)@, m),
    ensures
        represents(final(list)@, final(place)@, with_record(m, e@)),
{
    let is_directory: bool = match place.get(e.path.as_str()) {
        Some(i) => list[*i].is_directory,
        None => false,
    };
    if !is_directory {
        put(list, place, e, Ghost(m));
    }
}

/// Adds the directories from `parent` up that are missing.
fn put_parents(
    list: &mut Vec<ZipEntry>,
    place: &mut StringHashMap<usize>,
    parent: String,
    millis: i64,
    Ghost(m): Ghost<Tree>,
)
    requires
        represents(old(list)@, old(place)@, m),
    ensures
        represents(final(list)@, final(place)@, with_parents(m, parent@, millis as int)),
    decreases parent@.len(),
{
    if parent.as_str().is_empty() {
        return;
    }
    let is_directory: bool = match place.get(parent.as_str()) {
        Some(i) => list[*i].is_directory,
        None => false,
    };
    if is_directory {
        return;
    }
    let up = path_parent(parent.as_str());
    proof {
        lemma_parent_shorter(parent@);
    }
    let e = ZipEntry::implicit_directory(parent, millis);
    let ghost m2 = m.insert(e@.path, e@);
    put(list, place, e, Ghost(m));
    put_parents(list, place, up, millis, Ghost(m2));
}

/// The paths of `order` are keys of `m`.
pub open spec fn all_keys(m: Tree, order: Seq<Seq<char>>) -> bool {
    forall|i: int| 0 <= i < order.len() ==> m.contains_key(#[trigger] order[i])
}

proof fn lemma_with_parents_keys(m: Tree, parent: Seq<char>, millis: int)
    ensures
        forall|p: Seq<char>| #[trigger] m.contains_key(p) ==> with_parents(m, parent, millis).contains_key(p),
        forall|p: Seq<char>| #[trigger] has_directory(m, p) ==> has_directory(with_parents(m, parent, millis), p),
        parent.len() > 0 ==> has_directory(with_parents(m, parent, millis), parent),
        forall|p: Seq<char>| #[trigger]
            with_parents(m, parent, millis).contains_key(p) && !m.contains_key(p) ==> is_closed_at(
                with_parents(m, parent, millis),
                p,
            ),
    decreases parent.len(),
{
    if parent.len() > 0 && !has_directory(m, parent) {
        lemma_parent_shorter(parent);
        let m2 = m.insert(parent, implied_directory(parent, millis));
        let t = with_parents(m2, parent_of(parent), millis);
        lemma_with_parents_keys(m2, parent_of(parent), millis);
        assert(with_parents(m, parent, millis) == t);
        assert forall|p: Seq<char>| #[trigger] m.contains_key(p) implies t.contains_key(p) by {
            assert(m2.contains_key(p));
        }
        assert forall|p: Seq<char>| #[trigger] has_directory(m, p) implies has_directory(t, p) by {
            assert(has_directory(m2, p));
        }
        assert(has_directory(m2, parent));
        assert(is_closed_at(t, parent));
        assert forall|p: Seq<char>| #[trigger] t.contains_key(p) && !m.contains_key(p) implies is_closed_at(t, p) by {
            if p != parent {
                assert(!m2.contains_key(p));
            }
        }
    }
}

/// The directory that holds `p` is in `m`.
pub open spec fn is_closed_at(m: Tree, p: Seq<char>) -> bool {
    parent_of(p).len() > 0 ==> has_directory(m, parent_of(p))
}

/// Every path below the root has its directory.
pub open spec fn is_closed(m: Tree) -> bool {
    forall|p: Seq<char>| #[trigger] m.contains_key(p) ==> is_closed_at(m, p)
}

pub proof fn lemma_recorded_keys(parsed: Seq<EntryView>)
    ensures
        all_keys(recorded(parsed), recorded_order(parsed)),
        forall|p: Seq<char>| #[trigger]
            recorded(parsed).contains_key(p) ==> recorded_order(parsed).contains(p) && recorded(parsed)[p].path == p,
    decreases parsed.len(),
{
    if parsed.len() > 0 {
        let init = parsed.drop_last();
        lemma_recorded_keys(init);
        let m = recorded(parsed);
        let o = recorded_order(parsed);
        let m0 = recorded(init);
        let o0 = recorded_order(init);
        assert forall|i: int| 0 <= i < o.len() implies m.contains_key(#[trigger] o[i]) by {
            if i < o0.len() {
                assert(o[i] == o0[i]);
            }
        }
        assert forall|p: Seq<char>| #[trigger] m.contains_key(p) implies o.contains(p) && m[p].path == p by {
            if m0.contains_key(p) {
                let k = choose|k: int| 0 <= k < o0.len() && o0[k] == p;
                assert(o[k] == p);
            } else {
                assert(o[o.len() - 1] == p);
            }
        }
    }
}

proof fn lemma_with_directories_keys(m: Tree, order: Seq<Seq<char>>)
    ensures
        forall|p: Seq<char>| #[trigger] m.contains_key(p) ==> with_directories(m, order).contains_key(p),
    decreases order.len(),
{
    if order.len() > 0 {
        lemma_with_directories_keys(m, order.drop_last());
        let t = with_directories(m, order.drop_last());
        lemma_with_parents_keys(t, parent_of(order.last()), t[order.last()].modified_millis);
    }
}

/// After the paths of `order`, only records that are not among them can lack a parent.
proof fn lemma_closing(m: Tree, order: Seq<Seq<char>>)
    ensures
        forall|p: Seq<char>| #[trigger]
            with_directories(m, order).contains_key(p) && (order.contains(p) || !m.contains_key(p)) ==> is_closed_at(
                with_directories(m, order),
                p,
            ),
    decreases order.len(),
{
    if order.len() > 0 {
        let init = order.drop_last();
        lemma_closing(m, init);
        lemma_with_directories_keys(m, init);
        let t = with_directories(m, init);
        let u = with_directories(m, order);
        lemma_with_parents_keys(t, parent_of(order.last()), t[order.last()].modified_millis);
        assert forall|p: Seq<char>| #[trigger] u.contains_key(p) && (order.contains(p) || !m.contains_key(p)) implies is_closed_at(
            u,
            p,
        ) by {
            if p != order.last() {
                if order.contains(p) {
                    let k = choose|k: int| 0 <= k < order.len() && order[k] == p;
                    assert(init[k] == p);
                    assert(init.contains(p));
                }
                if t.contains_key(p) {
                    assert(is_closed_at(t, p));
                }
            }
        }
    }
}

/// The tree of an archive holds every directory that its paths imply, and what it
/// holds under a path is the entry of that path.
pub proof fn law_tree_is_closed(parsed: Seq<EntryView>)
    ensures
        is_closed(archive_tree(parsed)),
{
    let m = recorded(parsed);
    let o = recorded_order(parsed);
    lemma_recorded_keys(parsed);
    lemma_closing(m, o);
    let t = archive_tree(parsed);
    assert forall|p: Seq<char>| #[trigger] t.contains_key(p) implies is_closed_at(t, p) by {
        if m.contains_key(p) {
            assert(o.contains(p));
        }
    }
}

/// Every record has an entry under its path, unless a directory took its place.
pub proof fn law_records_are_listed(parsed: Seq<EntryView>, i: int)
    requires
        0 <= i < parsed.len(),
    ensures
        archive_tree(parsed).contains_key(parsed[i].path),
    decreases parsed.len(),
{
    lemma_recorded_contains(parsed, i);
    lemma_with_directories_keys(recorded(parsed), recorded_order(parsed));
}

proof fn lemma_recorded_contains(parsed: Seq<EntryView>, i: int)
    requires
        0 <= i < parsed.len(),
    ensures
        recorded(parsed).contains_key(parsed[i].path),
    decreases parsed.len(),
{
    if i < parsed.len() - 1 {
        lemma_recorded_contains(parsed.drop_last(), i);
    }
}

/// `p` is the path `q`, or a directory above it.
pub open spec fn leads_to(p: Seq<char>, q: Seq<char>) -> bool {
    p == q || has_prefix(q, p + "/"@)
}

/// What is above a directory is above everything in it.
pub proof fn lemma_leads_on(a: Seq<char>, b: Seq<char>, c: Seq<char>)
    requires
        leads_to(a, b),
        leads_to(b, c),
    ensures
        leads_to(a, c),
{
    if a != b && b != c {
        let x = a + "/"@;
        let y = b + "/"@;
        assert(c.take(y.len() as int) == y);
        assert(b.take(x.len() as int) == x);
        assert(c.take(x.len() as int) =~= y.take(x.len() as int));
        assert(y.take(x.len() as int) =~= b.take(x.len() as int));
    }
}

pub proof fn lemma_parent_leads(p: Seq<char>)
    requires
        parent_of(p).len() > 0,
    ensures
        leads_to(parent_of(p), p),
{
    lemma_last_place(p, '/');
    reveal_strlit("/");
    let at = last_place(p, '/');
    assert(p.take(at + 1) =~= parent_of(p) + "/"@);
}

proof fn lemma_parents_lead(m: Tree, parent: Seq<char>, millis: int, p: Seq<char>)
    requires
        with_parents(m, parent, millis).contains_key(p),
    ensures
        m.contains_key(p) || leads_to(p, parent),
    decreases parent.len(),
{
    if parent.len() > 0 && !has_directory(m, parent) {
        lemma_parent_shorter(parent);
        let m2 = m.insert(parent, implied_directory(parent, millis));
        let up = parent_of(parent);
        lemma_parents_lead(m2, up, millis, p);
        if !m.contains_key(p) && p != parent {
            if up.len() > 0 {
                lemma_parent_leads(parent);
                lemma_leads_on(p, up, parent);
            }
        }
    }
}

proof fn lemma_recorded_are_records(parsed: Seq<EntryView>, p: Seq<char>)
    ensures
        recorded(parsed).contains_key(p) ==> exists|i: int| 0 <= i < parsed.len() && (#[trigger] parsed[i]).path == p,
        recorded_order(parsed).contains(p) ==> exists|i: int| 0 <= i < parsed.len() && (#[trigger] parsed[i]).path == p,
    decreases parsed.len(),
{
    if parsed.len() > 0 {
        let init = parsed.drop_last();
        lemma_recorded_are_records(init, p);
        assert(parsed[parsed.len() - 1] == parsed.last());
        if p != parsed.last().path {
            if recorded_order(parsed).contains(p) {
                let o = recorded_order(parsed);
                let k = choose|k: int| 0 <= k < o.len() && o[k] == p;
                assert(recorded_order(init)[k] == p);
                assert(recorded_order(init).contains(p));
            }
            if exists|i: int| 0 <= i < init.len() && (#[trigger] init[i]).path == p {
                let i = choose|i: int| 0 <= i < init.len() && (#[trigger] init[i]).path == p;
                assert(parsed[i].path == p);
            }
        }
    }
}

proof fn lemma_directories_lead(m: Tree, order: Seq<Seq<char>>, p: Seq<char>)
    requires
        with_directories(m, order).contains_key(p),
    ensures
        m.contains_key(p) || exists|i: int| 0 <= i < order.len() && leads_to(p, #[trigger] order[i]),
    decreases order.len(),
{
    if order.len() > 0 {
        let init = order.drop_last();
        let t = with_directories(m, init);
        let parent = parent_of(order.last());
        lemma_parents_lead(t, parent, t[order.last()].modified_millis, p);
        if t.contains_key(p) {
            lemma_directories_lead(m, init, p);
            if !m.contains_key(p) {
                let i = choose|i: int| 0 <= i < init.len() && leads_to(p, #[trigger] init[i]);
                assert(order[i] == init[i]);
            }
        } else {
            if parent.len() > 0 {
                lemma_parent_leads(order.last());
                lemma_leads_on(p, parent, order.last());
            }
            assert(leads_to(p, order[order.len() - 1]));
        }
    }
}

/// Nothing is listed but the records and the directories above them.
pub proof fn law_only_records_are_listed(parsed: Seq<EntryView>, p: Seq<char>)
    requires
        archive_tree(parsed).contains_key(p),
    ensures
        exists|i: int| 0 <= i < parsed.len() && leads_to(p, (#[trigger] parsed[i]).path),
{
    let o = recorded_order(parsed);
    lemma_directories_lead(recorded(parsed), o, p);
    if recorded(parsed).contains_key(p) {
        lemma_recorded_are_records(parsed, p);
    } else {
        let k = choose|k: int| 0 <= k < o.len() && leads_to(p, #[trigger] o[k]);
        lemma_recorded_are_records(parsed, o[k]);
        assert(o.contains(o[k]));
        let i = choose|i: int| 0 <= i < parsed.len() && (#[trigger] parsed[i]).path == o[k];
        assert(leads_to(p, parsed[i].path));
    }
}

/// An archive without a record at or under a path lists nothing there.
pub proof fn law_nothing_is_left(parsed: Seq<EntryView>, dir: Seq<char>, p: Seq<char>)
    requires
        forall|i: int| 0 <= i < parsed.len() ==> !leads_to(dir, (#[trigger] parsed[i]).path),
        leads_to(dir, p),
    ensures
        !archive_tree(parsed).contains_key(p),
{
    if archive_tree(parsed).contains_key(p) {
        law_only_records_are_listed(parsed, p);
        let i = choose|i: int| 0 <= i < parsed.len() && leads_to(p, (#[trigger] parsed[i]).path);
        lemma_leads_on(dir, p, parsed[i].path);
    }
}

/// The entries of an archive, sorted by path.
pub struct Listing {
    entries: Vec<ZipEntry>,
}

impl View for Listing {
    type V = Tree;

    closed spec fn view(&self) -> Tree {
        Map::new(
            |p: Seq<char>| has_path(self.entries@, p),
            |p: Seq<char>| self.entries@[choose|i: int| 0 <= i < self.entries@.len() && (#[trigger] self.entries@[i])@.path == p]@,
        )
    }
}

impl Listing {
    #[verifier::type_invariant]
    spec fn wf(self) -> bool {
        forall|i: int, j: int|
            0 <= i < j < self.entries@.len() ==> bytes_before(
                encode_utf8((#[trigger] self.entries@[i])@.path),
                encode_utf8((#[trigger] self.entries@[j])@.path),
            )
    }

    /// The entries in the order of their paths.
    pub closed spec fn list(self) -> Seq<ZipEntry> {
        self.entries@
    }

    proof fn lemma_lists(self)
        requires
            self.wf(),
        ensures
            lists(self.entries@, self@),
    {
        let e = self.entries@;
        assert forall|i: int| 0 <= i < e.len() implies self@.contains_key((#[trigger] e[i])@.path)
            && self@[e[i]@.path] == e[i]@ by {
            let p = e[i]@.path;
            assert(has_path(e, p));
            let k = choose|k: int| 0 <= k < e.len() && (#[trigger] e[k])@.path == p;
            lemma_before_irreflexive(encode_utf8(p));
            if k < i {
                assert(bytes_before(encode_utf8(e[k]@.path), encode_utf8(e[i]@.path)));
            } else if i < k {
                assert(bytes_before(encode_utf8(e[i]@.path), encode_utf8(e[k]@.path)));
            }
        }
    }
}

/// The listing of an archive: every entry, and the directory tree their paths imply.
/// Archives often omit directory entries, so the tree comes from the paths.
pub struct ZipIndex {
    pub listing: Listing,
    /// Entries dropped because their name escaped the archive root.
    pub rejected: usize,
}

impl View for ZipIndex {
    type V = Tree;

    open spec fn view(&self) -> Tree {
        self.listing@
    }
}

impl ZipIndex {
    /// The entries in the order of their paths.
    pub open spec fn list(self) -> Seq<ZipEntry> {
        self.listing.list()
    }

    /// The number of entries that were dropped.
    pub open spec fn dropped(self) -> nat {
        self.rejected as nat
    }
}

/// The lower case form of a text, as `str::to_lowercase` gives it.
pub uninterp spec fn lowercase(s: Seq<char>) -> Seq<char>;

/// `str::to_lowercase`: the lower case equivalent of the text, a function of the text
/// alone.
#[verifier::external_body]
fn to_lowercase(s: &str) -> (r: String)
    ensures
        r@ == lowercase(s@),
{
    s.to_lowercase()
}

/// What the entries of a directory are ordered by: directories first, then by name
/// without regard to case.
pub open spec fn sibling_key(e: EntryView) -> Seq<u8> {
    seq![if e.is_directory { 0u8 } else { 1u8 }] + encode_utf8(lowercase(name_of(e.path)))
}

/// `list` is the entries of `m` directly in `dir`, each once, in the order of
/// [`sibling_key`].
pub open spec fn lists_directory(list: Seq<ZipEntry>, m: Tree, dir: Seq<char>) -> bool {
    &&& forall|i: int|
        0 <= i < list.len() ==> m.contains_key((#[trigger] list[i])@.path) && m[list[i]@.path] == list[i]@ && parent_of(
            list[i]@.path,
        ) == dir
    &&& forall|p: Seq<char>| #[trigger] m.contains_key(p) && parent_of(p) == dir ==> has_path(list, p)
    &&& forall|i: int, j: int|
        0 <= i < j < list.len() ==> (#[trigger] list[i])@.path != (#[trigger] list[j])@.path && !bytes_before(
            sibling_key(list[j]@),
            sibling_key(list[i]@),
        )
}

/// The sizes of the entries added up.
pub open spec fn sizes(v: Seq<ZipEntry>) -> nat
    decreases v.len(),
{
    if v.len() == 0 {
        0
    } else {
        sizes(v.drop_last()) + v.last().size as nat
    }
}

/// UTF-8 tells texts apart.
proof fn lemma_utf8_injective(a: Seq<char>, b: Seq<char>)
    requires
        encode_utf8(a) == encode_utf8(b),
    ensures
        a == b,
{
    encode_utf8_decode_utf8(a);
    encode_utf8_decode_utf8(b);
}

/// The entries at `places`, in that order.
fn pick(list: &Vec<ZipEntry>, places: &Vec<usize>) -> (r: Vec<ZipEntry>)
    requires
        forall|i: int| 0 <= i < places.len() ==> #[trigger] places[i] < list.len(),
    ensures
        r.len() == places.len(),
        forall|i: int| 0 <= i < r.len() ==> (#[trigger] r[i])@ == list[places[i] as int]@,
{
    let mut out: Vec<ZipEntry> = Vec::new();
    for i in 0..places.len()
        invariant
            forall|k: int| 0 <= k < places.len() ==> #[trigger] places[k] < list.len(),
            out.len() == i,
            forall|k: int| 0 <= k < i ==> (#[trigger] out[k])@ == list[places[k] as int]@,
    {
        out.push(list[places[i]].dup());
    }
    out
}

impl ZipIndex {
    /// The listing of an archive with these records.
    pub fn build(parsed: Vec<ZipEntry>, rejected: usize) -> (r: ZipIndex)
        ensures
            r@ == archive_tree(entry_views(parsed@)),
            r.dropped() == rejected,
    {
        let ghost views = entry_views(parsed@);
        let mut list: Vec<ZipEntry> = Vec::new();
        let mut place: StringHashMap<usize> = StringHashMap::new();
        let mut order: Vec<String> = Vec::new();
        proof {
            assert(place@.dom() =~= Map::<Seq<char>, EntryView>::empty().dom());
        }
        for i in 0..parsed.len()
            invariant
                views == entry_views(parsed@),
                represents(list@, place@, recorded(views.take(i as int))),
                crate::paths::texts(order@) == recorded_order(views.take(i as int)),
        {
            let ghost m = recorded(views.take(i as int));
            proof {
                assert(views.take(i as int + 1).drop_last() =~= views.take(i as int));
                assert(views.take(i as int + 1).last() == parsed[i as int]@);
            }
            let e = parsed[i].dup();
            if !place.contains_key(e.path.as_str()) {
                let ghost before = crate::paths::texts(order@);
                order.push(e.path.clone());
                proof {
                    assert(crate::paths::texts(order@) =~= before.push(e@.path));
                }
            }
            put_record(&mut list, &mut place, e, Ghost(m));
        }
        proof {
            assert(views.take(parsed.len() as int) =~= views);
            lemma_recorded_keys(views);
        }
        let ghost recs = recorded(views);
        let ghost paths = crate::paths::texts(order@);
        proof {
            assert(paths.take(0) =~= Seq::empty());
        }
        for i in 0..order.len()
            invariant
                paths == crate::paths::texts(order@),
                all_keys(recs, paths),
                represents(list@, place@, with_directories(recs, paths.take(i as int))),
        {
            let ghost m = with_directories(recs, paths.take(i as int));
            proof {
                assert(paths.take(i as int + 1).drop_last() =~= paths.take(i as int));
                assert(paths.take(i as int + 1).last() == order[i as int]@);
                lemma_with_directories_keys(recs, paths.take(i as int));
                assert(m.contains_key(paths[i as int]));
                assert(place@.contains_key(paths[i as int]));
            }
            match place.get(order[i].as_str()) {
                Some(at) => {
                    let millis: i64 = list[*at].modified_millis;
                    let parent = path_parent(order[i].as_str());
                    put_parents(&mut list, &mut place, parent, millis, Ghost(m));
                },
                None => {},
            }
        }
        let ghost tree = archive_tree(views);
        proof {
            assert(paths.take(order.len() as int) =~= paths);
            assert(represents(list@, place@, tree));
        }
        let mut keys: Vec<Vec<u8>> = Vec::new();
        for i in 0..list.len()
            invariant
                keys.len() == i,
                forall|k: int| 0 <= k < i ==> (#[trigger] keys[k])@ == encode_utf8(list[k]@.path),
        {
            keys.push(utf8_bytes(list[i].path.as_str()));
        }
        let places = sort_places(&keys);
        let entries = pick(&list, &places);
        proof {
            let ks = byte_strings(keys@);
            assert forall|i: int, j: int| 0 <= i < j < entries@.len() implies bytes_before(
                encode_utf8((#[trigger] entries@[i])@.path),
                encode_utf8((#[trigger] entries@[j])@.path),
            ) by {
                assert(sorts_before(ks, places[i] as int, places[j] as int));
                let a = list[places[i] as int];
                let b = list[places[j] as int];
                if encode_utf8(a@.path) == encode_utf8(b@.path) {
                    lemma_utf8_injective(a@.path, b@.path);
                    assert(place@[a@.path] == places[i]);
                    assert(place@[b@.path] == places[j]);
                }
            }
        }
        let r = ZipIndex { listing: Listing { entries }, rejected };
        proof {
            r.listing.lemma_lists();
            assert forall|p: Seq<char>| tree.contains_key(p) implies #[trigger] r@.contains_key(p) by {
                assert(place@.contains_key(p));
                let at = place@[p] as int;
                assert(has_place(places@, at));
                let k = choose|k: int| 0 <= k < places@.len() && places@[k] == at;
                assert(entries@[k]@.path == p);
            }
            assert forall|p: Seq<char>| #[trigger] r@.contains_key(p) implies tree.contains_key(p) && r@[p] == tree[p] by {
                let k = choose|k: int| 0 <= k < entries@.len() && (#[trigger] entries@[k])@.path == p;
                assert(entries@[k]@ == list[places[k] as int]@);
                assert(place@.contains_key(list[places[k] as int]@.path));
            }
            assert(r@ =~= tree);
        }
        r
    }

    /// Every entry, in the order of their paths.
    pub fn entries(&self) -> (r: &Vec<ZipEntry>)
        ensures
            r@ == self.list(),
            lists(r@, self@),
    {
        proof {
            use_type_invariant(&self.listing);
            self.listing.lemma_lists();
        }
        &self.listing.entries
    }

    /// The number of entries that were dropped because their name escaped the archive root.
    pub fn rejected(&self) -> (r: usize)
        ensures
            r == self.dropped(),
    {
        self.rejected
    }

    /// The number of entries.
    pub fn len(&self) -> (r: usize)
        ensures
            r == self@.dom().len(),
    {
        proof {
            use_type_invariant(&self.listing);
            self.listing.lemma_lists();
            lemma_count(self.listing.entries@, self@);
        }
        self.listing.entries.len()
    }

    /// Whether the archive is empty.
    pub fn is_empty(&self) -> (r: bool)
        ensures
            r == (self@.dom().len() == 0),
    {
        self.len() == 0
    }

    /// The entry whose path has these UTF-8 bytes.
    fn find(&self, path: &str) -> (r: Option<&ZipEntry>)
        ensures
            r is Some <==> self@.contains_key(path@),
            r is Some ==> r->Some_0@ == self@[path@],
    {
        proof {
            use_type_invariant(&self.listing);
            self.listing.lemma_lists();
        }
        let key = path.as_bytes();
        let ghost e = self.listing.entries@;
        let mut lo: usize = 0;
        let mut hi: usize = self.listing.entries.len();
        while lo < hi
            invariant
                lo <= hi <= self.listing.entries.len(),
                e == self.listing.entries@,
                key@ == encode_utf8(path@),
                lists(e, self@),
                forall|i: int| 0 <= i < lo ==> bytes_before(encode_utf8((#[trigger] e[i])@.path), key@),
                forall|i: int| hi <= i < e.len() ==> bytes_before(key@, encode_utf8((#[trigger] e[i])@.path)),
            decreases hi - lo,
        {
            let mid: usize = lo + (hi - lo) / 2;
            let here = self.listing.entries[mid].path.as_str().as_bytes();
            if is_before(here, key) {
                proof {
                    assert forall|i: int| 0 <= i < mid + 1 implies bytes_before(encode_utf8((#[trigger] e[i])@.path), key@) by {
                        if i < mid {
                            lemma_before_transitive(encode_utf8(e[i]@.path), encode_utf8(e[mid as int]@.path), key@);
                        }
                    }
                }
                lo = mid + 1;
            } else if is_before(key, here) {
                proof {
                    assert forall|i: int| mid <= i < e.len() implies bytes_before(key@, encode_utf8((#[trigger] e[i])@.path)) by {
                        if i > mid {
                            lemma_before_transitive(key@, encode_utf8(e[mid as int]@.path), encode_utf8(e[i]@.path));
                        }
                    }
                }
                hi = mid;
            } else {
                proof {
                    lemma_before_total(here@, key@);
                    lemma_utf8_injective(e[mid as int]@.path, path@);
                }
                return Some(&self.listing.entries[mid]);
            }
        }
        proof {
            if self@.contains_key(path@) {
                let k = choose|k: int| 0 <= k < e.len() && (#[trigger] e[k])@.path == path@;
                lemma_before_irreflexive(key@);
                if k < lo {
                    assert(bytes_before(encode_utf8(e[k]@.path), key@));
                } else {
                    assert(bytes_before(key@, encode_utf8(e[k]@.path)));
                }
            }
        }
        None
    }

    /// The entry at exactly this path.
    pub fn at(&self, path: &str) -> (r: Option<&ZipEntry>)
        ensures
            r is Some <==> self@.contains_key(path@),
            r is Some ==> r->Some_0@ == self@[path@],
    {
        self.find(path)
    }

    /// The entry that `path` names.
    pub fn get(&self, path: &str) -> (r: Option<&ZipEntry>)
        ensures
            r is Some <==> (normalised(path@) is Some && self@.contains_key(normalised(path@)->Some_0)),
            r is Some ==> r->Some_0@ == self@[normalised(path@)->Some_0],
    {
        match normalise_path(path) {
            Some(p) => self.find(p.as_str()),
            None => None,
        }
    }

    /// Whether `path` names a directory of the archive.
    pub fn is_directory(&self, path: &str) -> (r: bool)
        ensures
            r == names_directory(self@, path@),
    {
        match self.get(path) {
            Some(e) => e.is_directory,
            None => false,
        }
    }

    /// The contents of a directory within the archive, "" being its root.
    pub fn list_directory(&self, path: &str) -> (r: Result<Vec<ZipEntry>>)
        ensures
            normalised(path@) is None ==> fails_protocol(r, "Invalid path: "@ + path@),
            normalised(path@) matches Some(dir) ==> {
                if dir.len() > 0 && !names_directory(self@, dir) {
                    fails_protocol(r, "Not a directory in this archive: "@ + path@)
                } else {
                    r is Ok && lists_directory(r->Ok_0@, self@, dir)
                }
            },
    {
        let dir = match normalise_path(path) {
            Some(d) => d,
            None => {
                return Err(protocol_of("Invalid path: ", path));
            },
        };
        if !dir.as_str().is_empty() && !self.is_directory(dir.as_str()) {
            return Err(protocol_of("Not a directory in this archive: ", path));
        }
        Ok(self.children(dir.as_str()))
    }

    /// The entries directly in `dir`.
    fn children(&self, dir: &str) -> (r: Vec<ZipEntry>)
        ensures
            lists_directory(r@, self@, dir@),
    {
        proof {
            use_type_invariant(&self.listing);
            self.listing.lemma_lists();
        }
        let ghost e = self.listing.entries@;
        let mut found: Vec<ZipEntry> = Vec::new();
        let mut keys: Vec<Vec<u8>> = Vec::new();
        for i in 0..self.listing.entries.len()
            invariant
                e == self.listing.entries@,
                lists(e, self@),
                keys.len() == found.len(),
                forall|k: int| 0 <= k < found.len() ==> (#[trigger] keys[k])@ == sibling_key(found[k]@),
                forall|k: int|
                    0 <= k < found.len() ==> parent_of((#[trigger] found[k])@.path) == dir@ && comes_from(e, i as int, found[k]@),
                forall|k: int|
                    0 <= k < i && parent_of((#[trigger] e[k])@.path) == dir@ ==> has_path(found@, e[k]@.path),
                forall|k: int, l: int|
                    0 <= k < l < found.len() ==> (#[trigger] found[k])@.path != (#[trigger] found[l])@.path,
        {
            let ghost f0 = found@;
            let parent = self.listing.entries[i].parent_path();
            if same_text(parent.as_str(), dir) {
                proof {
                    assert forall|k: int| 0 <= k < f0.len() implies (#[trigger] f0[k])@.path != e[i as int]@.path by {
                        let x = choose|x: int| 0 <= x < i && (#[trigger] e[x])@ == f0[k]@;
                        lemma_before_irreflexive(encode_utf8(e[i as int]@.path));
                        assert(bytes_before(encode_utf8(e[x]@.path), encode_utf8(e[i as int]@.path)));
                    }
                }
                let name = self.listing.entries[i].name();
                let mut key: Vec<u8> = Vec::new();
                key.push(if self.listing.entries[i].is_directory { 0 } else { 1 });
                let lower = to_lowercase(name.as_str());
                crate::text::append_bytes(&mut key, lower.as_str().as_bytes());
                proof {
                    assert(key@ =~= sibling_key(e[i as int]@));
                }
                keys.push(key);
                found.push(self.listing.entries[i].dup());
            }
            proof {
                assert forall|k: int| 0 <= k < found.len() implies parent_of((#[trigger] found[k])@.path) == dir@
                    && comes_from(e, i + 1, found[k]@) by {
                    if k < f0.len() {
                        assert(found[k] == f0[k]);
                        let x = choose|x: int| 0 <= x < i && (#[trigger] e[x])@ == f0[k]@;
                        assert(e[x]@ == found[k]@);
                    } else {
                        assert(e[i as int]@ == found[k]@);
                    }
                }
                assert forall|k: int| 0 <= k < i + 1 && parent_of((#[trigger] e[k])@.path) == dir@ implies has_path(
                    found@,
                    e[k]@.path,
                ) by {
                    if k < i {
                        let x = choose|x: int| 0 <= x < f0.len() && (#[trigger] f0[x])@.path == e[k]@.path;
                        assert(found@[x] == f0[x]);
                    } else {
                        assert(found@[found@.len() - 1]@.path == e[k]@.path);
                    }
                }
            }
        }
        let places = sort_places(&keys);
        let r = pick(&found, &places);
        proof {
            let ks = byte_strings(keys@);
            assert forall|i: int| 0 <= i < r.len() implies self@.contains_key((#[trigger] r[i])@.path) && self@[r[i]@.path]
                == r[i]@ && parent_of(r[i]@.path) == dir@ by {
                let f = found[places[i] as int];
                let x = choose|x: int| 0 <= x < e.len() && (#[trigger] e[x])@ == f@;
                assert(r[i]@ == e[x]@);
            }
            assert forall|p: Seq<char>| #[trigger] self@.contains_key(p) && parent_of(p) == dir@ implies has_path(r@, p) by {
                let x = choose|x: int| 0 <= x < e.len() && (#[trigger] e[x])@.path == p;
                assert(has_path(found@, e[x]@.path));
                let f = choose|f: int| 0 <= f < found@.len() && (#[trigger] found@[f])@.path == p;
                assert(has_place(places@, f));
                let k = choose|k: int| 0 <= k < places@.len() && places@[k] == f;
                assert(r@[k]@.path == p);
            }
            assert forall|i: int, j: int| 0 <= i < j < r.len() implies (#[trigger] r[i])@.path != (#[trigger] r[j])@.path
                && !bytes_before(sibling_key(r[j]@), sibling_key(r[i]@)) by {
                let a = places[i] as int;
                let b = places[j] as int;
                assert(sorts_before(ks, a, b));
                if a == b {
                    lemma_sorted_distinct(ks, places@, i, j);
                }
                if a < b {
                    assert(found[a]@.path != found[b]@.path);
                } else {
                    assert(found[b]@.path != found[a]@.path);
                }
                lemma_before_irreflexive(ks[a]);
                if bytes_before(ks[a], ks[b]) && bytes_before(ks[b], ks[a]) {
                    lemma_before_transitive(ks[a], ks[b], ks[a]);
                }
            }
        }
        r
    }

    /// The total decompressed size of the archive's files: what extracting it costs.
    pub fn total_size(&self) -> (r: u64)
        requires
            sizes(self.list()) <= u64::MAX,
        ensures
            r == sizes(self.list()),
    {
        let ghost e = self.listing.entries@;
        let mut total: u64 = 0;
        for i in 0..self.listing.entries.len()
            invariant
                e == self.listing.entries@,
                sizes(e) <= u64::MAX,
                total == sizes(e.take(i as int)),
        {
            proof {
                assert(e.take(i as int + 1).drop_last() =~= e.take(i as int));
                lemma_sizes_grow(e, i as int + 1);
            }
            total += self.listing.entries[i].size;
        }
        proof {
            assert(e.take(e.len() as int) =~= e);
        }
        total
    }
}

/// `v` is one of the first `n` entries.
spec fn comes_from(e: Seq<ZipEntry>, n: int, v: EntryView) -> bool {
    exists|x: int| 0 <= x < n && (#[trigger] e[x])@ == v
}

/// Whether `path` names a directory of `m`.
pub open spec fn names_directory(m: Tree, path: Seq<char>) -> bool {
    normalised(path) is Some && has_directory(m, normalised(path)->Some_0)
}

proof fn lemma_sizes_grow(e: Seq<ZipEntry>, n: int)
    requires
        0 <= n <= e.len(),
    ensures
        sizes(e.take(n)) <= sizes(e),
    decreases e.len(),
{
    if n < e.len() {
        lemma_sizes_grow(e.drop_last(), n);
        assert(e.drop_last().take(n) =~= e.take(n));
    } else {
        assert(e.take(n) =~= e);
    }
}

/// A listing has one entry for each path.
proof fn lemma_count(list: Seq<ZipEntry>, m: Tree)
    requires
        lists(list, m),
    ensures
        m.dom().finite(),
        m.dom().len() == list.len(),
{
    let paths = Seq::new(list.len(), |i: int| list[i]@.path);
    assert forall|i: int, j: int| 0 <= i < paths.len() && 0 <= j < paths.len() && i != j implies paths[i] != paths[j] by {
        lemma_before_irreflexive(encode_utf8(list[i]@.path));
        if i < j {
            assert(bytes_before(encode_utf8(list[i]@.path), encode_utf8(list[j]@.path)));
        } else {
            assert(bytes_before(encode_utf8(list[j]@.path), encode_utf8(list[i]@.path)));
        }
    }
    assert(paths.no_duplicates());
    paths.unique_seq_to_set();
    assert(paths.to_set() =~= m.dom()) by {
        assert forall|p: Seq<char>| m.dom().contains(p) implies paths.to_set().contains(p) by {
            assert(m.contains_key(p));
            let k = choose|k: int| 0 <= k < list.len() && (#[trigger] list[k])@.path == p;
            assert(paths[k] == p);
        }
        assert forall|p: Seq<char>| paths.to_set().contains(p) implies m.dom().contains(p) by {
            let k = choose|k: int| 0 <= k < paths.len() && paths[k] == p;
            assert(m.contains_key(list[k]@.path));
        }
    }
}

} // verus!
