//! Directories: their chunks of child links, and how children are added and removed.
use vstd::prelude::*;
use crate::capability::{AbsoluteCapability, CapView};
use crate::cbor::CborValue;
use crate::cryptree::{
    absolute, dup_text, named_views, rel_views, ChildrenLinks, LinksView, NamedRelativeCapability, NamedView,
    RelCapView,
};
use crate::error::{error_is, fails_protocol, opt, protocol, protocol_of, Error, Fault, Result};
use crate::opaque::{dup_opt, Bat, SymmetricKey};
use crate::paths::{is_listed, texts};
use crate::sorting::byte_strings;
use crate::text::{copy_bytes, same_bytes};

verus! {

/// How many child links one chunk of a directory holds, unless it is told otherwise.
pub const DEFAULT_MAX_CHILD_LINKS: usize = 500;

/// A child entry within a directory listing.
#[derive(Debug, PartialEq, Eq)]
pub struct DirEntry {
    pub name: String,
    /// `Some` when the parent recorded the child's type; otherwise unknown without
    /// fetching the child's metadata.
    pub is_dir: Option<bool>,
    pub mime_type: Option<String>,
    /// The absolute capability for this child.
    pub cap: AbsoluteCapability,
}

/// The content of a [`DirEntry`].
pub ghost struct DirEntryView {
    pub name: Seq<char>,
    pub is_dir: Option<bool>,
    pub mime_type: Option<Seq<char>>,
    pub cap: CapView,
}

impl View for DirEntry {
    type V = DirEntryView;

    open spec fn view(&self) -> DirEntryView {
        DirEntryView { name: self.name@, is_dir: self.is_dir, mime_type: opt(self.mime_type), cap: self.cap@ }
    }
}

impl DirEntry {
    /// A copy of this entry.
    pub fn dup(&self) -> (r: DirEntry)
        ensures
            r@ == self@,
    {
        DirEntry {
            name: self.name.clone(),
            is_dir: self.is_dir,
            mime_type: crate::cryptree::dup_text(&self.mime_type),
            cap: self.cap.dup(),
        }
    }
}

/// The contents of a list of entries.
pub open spec fn dir_entries(v: Seq<DirEntry>) -> Seq<DirEntryView> {
    Seq::new(v.len(), |i: int| v[i]@)
}

/// The write keys that the links of a directory decrypt to.
pub open spec fn opened_keys(v: Seq<Option<SymmetricKey>>) -> Seq<Option<CborValue>> {
    Seq::new(v.len(), |i: int| opt(v[i]))
}

/// The capability of link `i`.
pub open spec fn link_cap(links: LinksView, i: int) -> RelCapView {
    match links {
        LinksView::Named(v) => v[i].cap,
        LinksView::Legacy(v) => v[i],
    }
}

/// The number of links.
pub open spec fn link_count(links: LinksView) -> nat {
    match links {
        LinksView::Named(v) => v.len(),
        LinksView::Legacy(v) => v.len(),
    }
}

/// The entry for link `i` of a directory: legacy links carry no name.
pub open spec fn link_entry(links: LinksView, i: int, cap: CapView) -> DirEntryView {
    match links {
        LinksView::Named(v) => DirEntryView { name: v[i].name, is_dir: v[i].is_dir, mime_type: v[i].mime_type, cap },
        LinksView::Legacy(v) => DirEntryView { name: Seq::empty(), is_dir: None, mime_type: None, cap },
    }
}

/// The entries for the first `n` links of a directory, up to the first that has no
/// capability.
pub open spec fn listed(links: LinksView, source: CapView, opened: Seq<Option<CborValue>>, n: nat) -> core::result::Result<
    Seq<DirEntryView>,
    Fault,
>
    decreases n,
{
    if n == 0 {
        Ok(Seq::empty())
    } else {
        match (
            listed(links, source, opened, (n - 1) as nat),
            absolute(link_cap(links, n - 1), source, opened[n - 1]),
        ) {
            (Err(f), _) => Err(f),
            (_, Err(f)) => Err(f),
            (Ok(v), Ok(cap)) => Ok(v.push(link_entry(links, n - 1, cap))),
        }
    }
}

proof fn lemma_listed_fails(links: LinksView, source: CapView, opened: Seq<Option<CborValue>>, k: nat, n: nat)
    requires
        k <= n,
        listed(links, source, opened, k) is Err,
    ensures
        listed(links, source, opened, n) == listed(links, source, opened, k),
    decreases n,
{
    if k < n {
        lemma_listed_fails(links, source, opened, k, (n - 1) as nat);
    }
}

/// The entries for the links of one chunk of the directory `source`. `opened` holds
/// for each link the key that its write link decrypts to.
pub fn list_links(links: ChildrenLinks, source: &AbsoluteCapability, opened: Vec<Option<SymmetricKey>>) -> (r: Result<
    Vec<DirEntry>,
>)
    requires
        opened@.len() == link_count(links@),
        forall|i: int|
            0 <= i < opened@.len() && source@.w_base_key is Some && link_cap(links@, i).w_base_key_link is Some
                ==> #[trigger] opened@[i] is Some,
    ensures
        match listed(links@, source@, opened_keys(opened@), link_count(links@)) {
            Ok(v) => r is Ok && dir_entries(r->Ok_0@) == v,
            Err(f) => r is Err && error_is(r->Err_0, f),
        },
{
    let ghost lv = links@;
    let ghost ov = opened_keys(opened@);
    let mut out: Vec<DirEntry> = Vec::new();
    proof {
        assert(dir_entries(out@) =~= Seq::empty());
    }
    match &links {
        ChildrenLinks::Named(v) => {
            for i in 0..v.len()
                invariant
                    lv == links@,
                    lv == LinksView::Named(named_views(v@)),
                    ov == opened_keys(opened@),
                    opened@.len() == v@.len(),
                    forall|k: int|
                        0 <= k < opened@.len() && source@.w_base_key is Some && link_cap(lv, k).w_base_key_link is Some
                            ==> #[trigger] opened@[k] is Some,
                    listed(lv, source@, ov, i as nat) == Ok::<Seq<DirEntryView>, Fault>(dir_entries(out@)),
            {
                let ghost before = dir_entries(out@);
                proof {
                    assert(ov[i as int] == opt(opened@[i as int]));
                    assert(lv->Named_0[i as int] == v@[i as int]@);
                    assert(opened@.len() == opened.len());
                }
                match v[i].cap.to_absolute(source, dup_opt(&opened[i])) {
                    Ok(cap) => {
                        let e = DirEntry {
                            name: v[i].name.clone(),
                            is_dir: v[i].is_dir,
                            mime_type: dup_text(&v[i].mime_type),
                            cap,
                        };
                        let ghost ev = e@;
                        out.push(e);
                        proof {
                            assert(dir_entries(out@) =~= before.push(ev));
                        }
                    },
                    Err(e) => {
                        proof {
                            lemma_listed_fails(lv, source@, ov, (i + 1) as nat, v@.len());
                        }
                        return Err(e);
                    },
                }
            }
        },
        ChildrenLinks::Legacy(v) => {
            for i in 0..v.len()
                invariant
                    lv == links@,
                    lv == LinksView::Legacy(rel_views(v@)),
                    ov == opened_keys(opened@),
                    opened@.len() == v@.len(),
                    forall|k: int|
                        0 <= k < opened@.len() && source@.w_base_key is Some && link_cap(lv, k).w_base_key_link is Some
                            ==> #[trigger] opened@[k] is Some,
                    listed(lv, source@, ov, i as nat) == Ok::<Seq<DirEntryView>, Fault>(dir_entries(out@)),
            {
                let ghost before = dir_entries(out@);
                proof {
                    assert(ov[i as int] == opt(opened@[i as int]));
                    assert(lv->Legacy_0[i as int] == v@[i as int]@);
                    assert(opened@.len() == opened.len());
                }
                match v[i].to_absolute(source, dup_opt(&opened[i])) {
                    Ok(cap) => {
                        let e = DirEntry { name: String::new(), is_dir: None, mime_type: None, cap };
                        let ghost ev = e@;
                        out.push(e);
                        proof {
                            assert(dir_entries(out@) =~= before.push(ev));
                        }
                    },
                    Err(e) => {
                        proof {
                            lemma_listed_fails(lv, source@, ov, (i + 1) as nat, v@.len());
                        }
                        return Err(e);
                    },
                }
            }
        },
    }
    Ok(out)
}

/// A walk along the chunks of a directory, which follows no chunk twice.
#[derive(Debug, PartialEq, Eq)]
pub struct DirWalk {
    /// The map keys of the chunks that were followed.
    pub seen: Vec<Vec<u8>>,
}

impl DirWalk {
    /// No map key was followed twice.
    pub open spec fn wf(self) -> bool {
        byte_strings(self.seen@).no_duplicates()
    }

    /// A walk from the chunk at `map_key`, which has to be a directory.
    pub fn start(is_directory: bool, map_key: &[u8]) -> (r: Result<DirWalk>)
        ensures
            !is_directory ==> fails_protocol(r, "capability points to a file, not a directory"@),
            is_directory ==> r is Ok && r->Ok_0.wf() && byte_strings(r->Ok_0.seen@) == seq![map_key@],
    {
        if !is_directory {
            return Err(protocol("capability points to a file, not a directory"));
        }
        let mut seen: Vec<Vec<u8>> = Vec::new();
        seen.push(copy_bytes(map_key));
        proof {
            assert(byte_strings(seen@) =~= seq![map_key@]);
        }
        Ok(DirWalk { seen })
    }

    /// Whether to follow the chunk at `map_key`: not if it was followed before.
    pub fn follow(&mut self, map_key: &[u8]) -> (r: bool)
        requires
            old(self).wf(),
        ensures
            final(self).wf(),
            r == !byte_strings(old(self).seen@).contains(map_key@),
            r ==> byte_strings(final(self).seen@) == byte_strings(old(self).seen@).push(map_key@),
            !r ==> final(self).seen == old(self).seen,
    {
        let ghost b = byte_strings(self.seen@);
        for i in 0..self.seen.len()
            invariant
                *self == *old(self),
                self.wf(),
                b == byte_strings(self.seen@),
                forall|k: int| 0 <= k < i ==> b[k] != map_key@,
        {
            if same_bytes(&self.seen[i], map_key) {
                proof {
                    assert(b[i as int] == map_key@);
                }
                return false;
            }
        }
        self.seen.push(copy_bytes(map_key));
        proof {
            assert(byte_strings(self.seen@) =~= b.push(map_key@));
        }
        true
    }
}

/// One chunk of a directory, with the links of some of its children.
#[derive(Debug, PartialEq, Eq)]
pub struct DirChunk {
    pub map_key: Vec<u8>,
    pub bat: Option<Bat>,
    pub children: Vec<NamedRelativeCapability>,
    /// Where the chunk after this one is, or would be.
    pub next_map_key: Vec<u8>,
    pub next_bat: Option<Bat>,
    /// An overflow chunk that is not in the tree yet.
    pub is_new: bool,
    pub modified: bool,
}

/// The content of a [`DirChunk`].
pub ghost struct ChunkView {
    pub map_key: Seq<u8>,
    pub bat: Option<CborValue>,
    pub children: Seq<NamedView>,
    pub next: (Seq<u8>, Option<CborValue>),
    pub is_new: bool,
    pub modified: bool,
}

impl View for DirChunk {
    type V = ChunkView;

    open spec fn view(&self) -> ChunkView {
        ChunkView {
            map_key: self.map_key@,
            bat: opt(self.bat),
            children: named_views(self.children@),
            next: (self.next_map_key@, opt(self.next_bat)),
            is_new: self.is_new,
            modified: self.modified,
        }
    }
}

/// The contents of a list of chunks.
pub open spec fn chunk_views(v: Seq<DirChunk>) -> Seq<ChunkView> {
    Seq::new(v.len(), |i: int| v[i]@)
}

/// The links of a chunk that was read from the tree: a write works on named links only.
pub fn writable_links(links: ChildrenLinks, what: &str) -> (r: Result<Vec<NamedRelativeCapability>>)
    ensures
        links matches ChildrenLinks::Named(v) ==> r == Ok::<Vec<NamedRelativeCapability>, Error>(v),
        links is Legacy ==> fails_protocol(r, "legacy directory format not supported"@ + what@),
{
    match links {
        ChildrenLinks::Named(v) => Ok(v),
        ChildrenLinks::Legacy(_) => Err(protocol_of("legacy directory format not supported", what)),
    }
}

/// The children whose name is not one of `names`, in order.
pub open spec fn without_names(v: Seq<NamedView>, names: Seq<Seq<char>>) -> Seq<NamedView>
    decreases v.len(),
{
    if v.len() == 0 {
        Seq::empty()
    } else if names.contains(v.last().name) {
        without_names(v.drop_last(), names)
    } else {
        without_names(v.drop_last(), names).push(v.last())
    }
}

/// A chunk without the children of these names: it is modified if there were any.
pub open spec fn cleared(c: ChunkView, names: Seq<Seq<char>>) -> ChunkView {
    let kept = without_names(c.children, names);
    ChunkView { children: kept, modified: c.modified || kept.len() != c.children.len(), ..c }
}

/// The names of a list of links.
pub open spec fn names_of(v: Seq<NamedView>) -> Seq<Seq<char>> {
    Seq::new(v.len(), |i: int| v[i].name)
}

/// The first chunk with room for a link: the number of chunks if there is none.
pub open spec fn first_room(v: Seq<ChunkView>, max: nat) -> nat
    decreases v.len(),
{
    if v.len() == 0 {
        0
    } else if v[0].children.len() < max {
        0
    } else {
        1 + first_room(v.skip(1), max)
    }
}

/// The chunks with one more link: in the first chunk with room, or else in a new one
/// where the last chunk says that the next one is.
pub open spec fn with_link(v: Seq<ChunkView>, link: NamedView, max: nat, fresh: (Seq<u8>, Option<CborValue>)) -> Seq<
    ChunkView,
> {
    let i = first_room(v, max) as int;
    if i < v.len() {
        v.update(i, ChunkView { children: v[i].children.push(link), modified: true, ..v[i] })
    } else {
        v.push(
            ChunkView {
                map_key: v.last().next.0,
                bat: v.last().next.1,
                children: seq![link],
                next: fresh,
                is_new: true,
                modified: true,
            },
        )
    }
}

/// The chunks with these links, one after the other. A new chunk takes the next of the
/// `fresh` locations for the chunk after it.
pub open spec fn with_links(
    v: Seq<ChunkView>,
    links: Seq<NamedView>,
    max: nat,
    fresh: Seq<(Seq<u8>, Option<CborValue>)>,
) -> Seq<ChunkView>
    decreases links.len(),
{
    if links.len() == 0 {
        v
    } else {
        let w = with_links(v, links.drop_last(), max, fresh);
        with_link(w, links.last(), max, fresh[w.len() - v.len()])
    }
}

/// The chunks after these links were added: children of the same names make way.
pub open spec fn added(
    v: Seq<ChunkView>,
    links: Seq<NamedView>,
    max: nat,
    fresh: Seq<(Seq<u8>, Option<CborValue>)>,
) -> Seq<ChunkView> {
    with_links(Seq::new(v.len(), |i: int| cleared(v[i], names_of(links))), links, max, fresh)
}

/// Locations for new chunks.
pub open spec fn locations(v: Seq<(Vec<u8>, Option<Bat>)>) -> Seq<(Seq<u8>, Option<CborValue>)> {
    Seq::new(v.len(), |i: int| (v[i].0@, opt(v[i].1)))
}

/// The children of a chunk whose name is not one of `names`.
fn clear_names(children: &Vec<NamedRelativeCapability>, names: &Vec<String>) -> (r: Vec<NamedRelativeCapability>)
    ensures
        named_views(r@) == without_names(named_views(children@), texts(names@)),
{
    let ghost all = named_views(children@);
    let mut out: Vec<NamedRelativeCapability> = Vec::new();
    proof {
        assert(named_views(out@) =~= without_names(all.take(0), texts(names@)));
    }
    for i in 0..children.len()
        invariant
            all == named_views(children@),
            named_views(out@) == without_names(all.take(i as int), texts(names@)),
    {
        let ghost before = named_views(out@);
        proof {
            assert(all.take(i as int + 1).drop_last() =~= all.take(i as int));
            assert(all.take(i as int + 1).last() == children[i as int]@);
        }
        if !is_listed(names, children[i].name.as_str()) {
            out.push(children[i].dup());
            proof {
                assert(named_views(out@) =~= before.push(children[i as int]@));
            }
        }
    }
    proof {
        assert(all.take(all.len() as int) =~= all);
    }
    out
}

/// The first chunk with room for a link.
fn find_room(chunks: &Vec<DirChunk>, max: usize) -> (r: usize)
    ensures
        r == first_room(chunk_views(chunks@), max as nat),
        r <= chunks.len(),
{
    let ghost v = chunk_views(chunks@);
    proof {
        assert(v.skip(0) =~= v);
    }
    let mut i: usize = 0;
    while i < chunks.len()
        invariant
            v == chunk_views(chunks@),
            i <= chunks.len(),
            first_room(v, max as nat) == i + first_room(v.skip(i as int), max as nat),
        decreases chunks.len() - i,
    {
        proof {
            assert(v.skip(i as int)[0] == chunks[i as int]@);
            assert(v.skip(i as int).skip(1) =~= v.skip(i as int + 1));
            assert(chunks[i as int]@.children.len() == chunks[i as int].children.len());
        }
        if chunks[i].children.len() < max {
            return i;
        }
        i += 1;
    }
    proof {
        assert(v.skip(i as int) =~= Seq::empty());
    }
    i
}

/// The chunk with other children.
fn chunk_with(c: DirChunk, children: Vec<NamedRelativeCapability>, modified: bool) -> (r: DirChunk)
    ensures
        r@ == (ChunkView { children: named_views(children@), modified, ..c@ }),
{
    DirChunk {
        map_key: c.map_key,
        bat: c.bat,
        children,
        next_map_key: c.next_map_key,
        next_bat: c.next_bat,
        is_new: c.is_new,
        modified,
    }
}

/// Adds links to a directory. Existing children of the same names make way, each link
/// goes to the first chunk with room, and when there is none into a new chunk, where
/// the last chunk says that the next one is. A new chunk takes the next of the `fresh`
/// locations for the chunk after it.
pub fn add_links(
    chunks: Vec<DirChunk>,
    links: Vec<NamedRelativeCapability>,
    max_links: usize,
    fresh: Vec<(Vec<u8>, Option<Bat>)>,
) -> (r: Vec<DirChunk>)
    requires
        chunks@.len() >= 1,
        fresh@.len() >= links@.len(),
        chunks@.len() + links@.len() <= usize::MAX,
    ensures
        chunk_views(r@) == added(
            chunk_views(chunks@),
            named_views(links@),
            max_links as nat,
            locations(fresh@),
        ),
{
    let ghost cv = chunk_views(chunks@);
    let ghost lv = named_views(links@);
    let ghost fv = locations(fresh@);
    let ghost start = Seq::new(cv.len(), |i: int| cleared(cv[i], names_of(lv)));
    let mut names: Vec<String> = Vec::new();
    for i in 0..links.len()
        invariant
            lv == named_views(links@),
            texts(names@) == names_of(lv).take(i as int),
    {
        let ghost before = texts(names@);
        names.push(links[i].name.clone());
        proof {
            assert(texts(names@) =~= before.push(links[i as int]@.name));
            assert(names_of(lv).take(i as int + 1) =~= before.push(names_of(lv)[i as int]));
        }
    }
    proof {
        assert(names_of(lv).take(links.len() as int) =~= names_of(lv));
    }
    let mut out: Vec<DirChunk> = Vec::new();
    let mut rest = chunks;
    let n: usize = rest.len();
    let ghost all = rest@;
    while rest.len() > 0
        invariant
            cv == chunk_views(all),
            n == all.len(),
            rest@.len() <= n,
            rest@ == all.skip(n - rest@.len()),
            texts(names@) == names_of(lv),
            start == Seq::new(cv.len(), |i: int| cleared(cv[i], names_of(lv))),
            chunk_views(out@) == start.take(n - rest@.len()),
        decreases rest.len(),
    {
        let ghost i = n - rest@.len();
        let ghost before = chunk_views(out@);
        let c = rest.remove(0);
        proof {
            assert(c == all[i]);
            assert(rest@ =~= all.skip(i + 1));
            assert(cv[i] == c@);
        }
        let kept = clear_names(&c.children, &names);
        let modified: bool = c.modified || kept.len() != c.children.len();
        proof {
            assert(named_views(kept@).len() == kept.len());
            assert(c@.children.len() == c.children.len());
        }
        let d = chunk_with(c, kept, modified);
        let ghost dv = d@;
        out.push(d);
        proof {
            assert(chunk_views(out@) =~= before.push(dv));
            assert(start.take(i + 1) =~= start.take(i).push(start[i]));
        }
    }
    proof {
        assert(start.take(n as int) =~= start);
        assert(lv.take(0) =~= Seq::empty());
        assert(with_links(start, lv.take(0), max_links as nat, fv) == start);
    }
    for i in 0..links.len()
        invariant
            lv == named_views(links@),
            fv == locations(fresh@),
            start.len() == n,
            n >= 1,
            start.len() + links@.len() <= usize::MAX,
            fresh@.len() >= links@.len(),
            chunk_views(out@) == with_links(start, lv.take(i as int), max_links as nat, fv),
            start.len() <= out@.len() <= start.len() + i,
    {
        let ghost w = chunk_views(out@);
        proof {
            assert(lv.take(i as int + 1).drop_last() =~= lv.take(i as int));
            assert(lv.take(i as int + 1).last() == links[i as int]@);
        }
        let at: usize = find_room(&out, max_links);
        let ghost made = out@.len() - start.len();
        if at < out.len() {
            let c = out.remove(at);
            let DirChunk { map_key, bat, children, next_map_key, next_bat, is_new, modified } = c;
            let ghost before = named_views(children@);
            let mut more = children;
            more.push(links[i].dup());
            proof {
                assert(named_views(more@) =~= before.push(links[i as int]@));
            }
            let d = DirChunk { map_key, bat, children: more, next_map_key, next_bat, is_new, modified: true };
            let ghost dv = d@;
            out.insert(at, d);
            proof {
                assert(chunk_views(out@) =~= w.update(at as int, dv));
            }
        } else {
            let k: usize = out.len() - n;
            let last: usize = out.len() - 1;
            proof {
                assert(w.last() == out@[last as int]@);
                assert(fresh@.len() == fresh.len());
            }
            let mut children: Vec<NamedRelativeCapability> = Vec::new();
            children.push(links[i].dup());
            proof {
                assert(named_views(children@) =~= seq![links[i as int]@]);
                assert(fv[k as int] == (fresh@[k as int].0@, opt(fresh@[k as int].1)));
            }
            let d = DirChunk {
                map_key: copy_bytes(&out[last].next_map_key),
                bat: dup_opt(&out[last].next_bat),
                children,
                next_map_key: copy_bytes(&fresh[k].0),
                next_bat: dup_opt(&fresh[k].1),
                is_new: true,
                modified: true,
            };
            let ghost dv = d@;
            out.push(d);
            proof {
                assert(chunk_views(out@) =~= w.push(dv));
            }
        }
    }
    proof {
        assert(lv.take(lv.len() as int) =~= lv);
    }
    out
}

proof fn lemma_first_room(v: Seq<ChunkView>, max: nat)
    ensures
        first_room(v, max) <= v.len(),
        first_room(v, max) < v.len() ==> v[first_room(v, max) as int].children.len() < max,
        first_room(v, max) == v.len() ==> forall|i: int| 0 <= i < v.len() ==> (#[trigger] v[i]).children.len() >= max,
    decreases v.len(),
{
    if v.len() > 0 && v[0].children.len() >= max {
        lemma_first_room(v.skip(1), max);
        assert forall|i: int| first_room(v, max) == v.len() && 0 <= i < v.len() implies (#[trigger] v[i]).children.len()
            >= max by {
            if i > 0 {
                assert(v.skip(1)[i - 1] == v[i]);
            }
        }
    }
}

/// Chunk `i` of `v` has the child `c`.
pub open spec fn has_child(v: Seq<ChunkView>, c: NamedView) -> bool {
    exists|i: int| 0 <= i < v.len() && (#[trigger] v[i]).children.contains(c)
}

proof fn lemma_with_link(v: Seq<ChunkView>, link: NamedView, max: nat, fresh: (Seq<u8>, Option<CborValue>))
    ensures
        forall|c: NamedView| #[trigger] has_child(with_link(v, link, max, fresh), c) <==> has_child(v, c) || c == link,
        (forall|i: int| 0 <= i < v.len() ==> (#[trigger] v[i]).children.len() <= max) && max >= 1 ==> (forall|i: int|
            0 <= i < with_link(v, link, max, fresh).len() ==> (#[trigger] with_link(v, link, max, fresh)[i]).children.len()
                <= max),
        with_link(v, link, max, fresh).len() >= v.len(),
{
    let w = with_link(v, link, max, fresh);
    let i = first_room(v, max) as int;
    lemma_first_room(v, max);
    assert forall|c: NamedView| #[trigger] has_child(w, c) <==> has_child(v, c) || c == link by {
        if has_child(w, c) {
            let k = choose|k: int| 0 <= k < w.len() && (#[trigger] w[k]).children.contains(c);
            let j = choose|j: int| 0 <= j < w[k].children.len() && w[k].children[j] == c;
            if k < v.len() && !(k == i && j == v[i].children.len()) {
                assert(v[k].children[j] == c);
                assert(v[k].children.contains(c));
            }
        }
        if has_child(v, c) {
            let k = choose|k: int| 0 <= k < v.len() && (#[trigger] v[k]).children.contains(c);
            let j = choose|j: int| 0 <= j < v[k].children.len() && v[k].children[j] == c;
            assert(w[k].children[j] == c);
            assert(w[k].children.contains(c));
        }
        if c == link {
            if i < v.len() {
                assert(w[i].children[v[i].children.len() as int] == link);
                assert(w[i].children.contains(link));
            } else {
                assert(w[v.len() as int].children[0] == link);
                assert(w[v.len() as int].children.contains(link));
            }
        }
    }
}

proof fn lemma_with_links(v: Seq<ChunkView>, links: Seq<NamedView>, max: nat, fresh: Seq<(Seq<u8>, Option<CborValue>)>)
    ensures
        forall|c: NamedView| #[trigger]
            has_child(with_links(v, links, max, fresh), c) <==> has_child(v, c) || links.contains(c),
        (forall|i: int| 0 <= i < v.len() ==> (#[trigger] v[i]).children.len() <= max) && max >= 1 ==> (forall|i: int|
            0 <= i < with_links(v, links, max, fresh).len() ==> (#[trigger] with_links(
                v,
                links,
                max,
                fresh,
            )[i]).children.len() <= max),
    decreases links.len(),
{
    if links.len() > 0 {
        let init = links.drop_last();
        lemma_with_links(v, init, max, fresh);
        let w = with_links(v, init, max, fresh);
        lemma_with_link(w, links.last(), max, fresh[w.len() - v.len()]);
        assert forall|c: NamedView| #[trigger]
            has_child(with_links(v, links, max, fresh), c) <==> has_child(v, c) || links.contains(c) by {
            assert(links.contains(c) == (init.contains(c) || c == links.last())) by {
                if links.contains(c) {
                    let k = choose|k: int| 0 <= k < links.len() && links[k] == c;
                    if k < init.len() {
                        assert(init[k] == c);
                    }
                }
                if init.contains(c) {
                    let k = choose|k: int| 0 <= k < init.len() && init[k] == c;
                    assert(links[k] == c);
                }
                if c == links.last() {
                    assert(links[links.len() - 1] == c);
                }
            }
            assert(has_child(w, c) == (has_child(v, c) || init.contains(c)));
        }
    }
}

proof fn lemma_without_names(v: Seq<NamedView>, names: Seq<Seq<char>>)
    ensures
        forall|c: NamedView| #[trigger] without_names(v, names).contains(c) <==> v.contains(c) && !names.contains(c.name),
        without_names(v, names).len() <= v.len(),
    decreases v.len(),
{
    if v.len() > 0 {
        let init = v.drop_last();
        lemma_without_names(init, names);
        let w = without_names(v, names);
        let w0 = without_names(init, names);
        assert forall|c: NamedView| #[trigger] w.contains(c) <==> v.contains(c) && !names.contains(c.name) by {
            assert(v.contains(c) == (init.contains(c) || c == v.last())) by {
                if v.contains(c) {
                    let k = choose|k: int| 0 <= k < v.len() && v[k] == c;
                    if k < init.len() {
                        assert(init[k] == c);
                    }
                }
                if init.contains(c) {
                    let k = choose|k: int| 0 <= k < init.len() && init[k] == c;
                    assert(v[k] == c);
                }
                if c == v.last() {
                    assert(v[v.len() - 1] == c);
                }
            }
            if !names.contains(v.last().name) {
                assert(w.contains(c) == (w0.contains(c) || c == v.last())) by {
                    if w.contains(c) {
                        let k = choose|k: int| 0 <= k < w.len() && w[k] == c;
                        if k < w0.len() {
                            assert(w0[k] == c);
                        }
                    }
                    if w0.contains(c) {
                        let k = choose|k: int| 0 <= k < w0.len() && w0[k] == c;
                        assert(w[k] == c);
                    }
                    if c == v.last() {
                        assert(w[w.len() - 1] == c);
                    }
                }
            }
            assert(w0.contains(c) == (init.contains(c) && !names.contains(c.name)));
        }
    }
}

/// After links were added the directory has exactly those links, and the children
/// that it had under other names. No chunk holds more than it may.
pub proof fn law_added_children(
    v: Seq<ChunkView>,
    links: Seq<NamedView>,
    max: nat,
    fresh: Seq<(Seq<u8>, Option<CborValue>)>,
    c: NamedView,
)
    requires
        max >= 1,
        forall|i: int| 0 <= i < v.len() ==> (#[trigger] v[i]).children.len() <= max,
    ensures
        has_child(added(v, links, max, fresh), c) <==> links.contains(c) || (has_child(v, c) && !names_of(
            links,
        ).contains(c.name)),
        forall|i: int|
            0 <= i < added(v, links, max, fresh).len() ==> (#[trigger] added(v, links, max, fresh)[i]).children.len()
                <= max,
{
    let names = names_of(links);
    let start = Seq::new(v.len(), |i: int| cleared(v[i], names));
    lemma_with_links(start, links, max, fresh);
    assert forall|i: int| 0 <= i < start.len() implies (#[trigger] start[i]).children.len() <= max by {
        lemma_without_names(v[i].children, names);
    }
    assert(has_child(start, c) == (has_child(v, c) && !names.contains(c.name))) by {
        if has_child(start, c) {
            let k = choose|k: int| 0 <= k < start.len() && (#[trigger] start[k]).children.contains(c);
            lemma_without_names(v[k].children, names);
            assert(without_names(v[k].children, names).contains(c));
            assert(v[k].children.contains(c));
        }
        if has_child(v, c) && !names.contains(c.name) {
            let k = choose|k: int| 0 <= k < v.len() && (#[trigger] v[k]).children.contains(c);
            lemma_without_names(v[k].children, names);
            assert(without_names(v[k].children, names).contains(c));
            assert(start[k].children.contains(c));
        }
    }
    assert(has_child(with_links(start, links, max, fresh), c) == (has_child(start, c) || links.contains(c)));
}

/// A listing has an entry for each link, in their order: with the name, the kind and the type that
/// the link records, and with the place and the read key that it leads to. Links without names
/// give entries of unknown kind.
pub proof fn law_listed_entries(links: LinksView, source: CapView, opened: Seq<Option<CborValue>>, n: nat, i: int)
    requires
        listed(links, source, opened, n) is Ok,
        n <= link_count(links),
        0 <= i < n,
    ensures
        ({
            let e = listed(links, source, opened, n)->Ok_0[i];
            &&& listed(links, source, opened, n)->Ok_0.len() == n
            &&& links matches LinksView::Named(v) ==> e.name == v[i].name && e.is_dir == v[i].is_dir && e.mime_type
                == v[i].mime_type && e.cap.map_key == v[i].cap.map_key && e.cap.bat == v[i].cap.bat && e.cap.r_base_key
                == v[i].cap.r_base_key
            &&& links matches LinksView::Legacy(v) ==> e.name.len() == 0 && e.is_dir is None && e.mime_type is None
                && e.cap.map_key == v[i].map_key && e.cap.bat == v[i].bat && e.cap.r_base_key == v[i].r_base_key
            &&& e.cap.owner == source.owner
        }),
    decreases n,
{
    if i < n - 1 {
        law_listed_entries(links, source, opened, (n - 1) as nat, i);
    } else if n > 1 {
        law_listed_entries(links, source, opened, (n - 1) as nat, 0);
    }
}

/// The links that stay are those with none of the names, in their order, and a chunk is marked if
/// and only if it was before or one of its links goes.
pub proof fn law_cleared(c: ChunkView, names: Seq<Seq<char>>)
    ensures
        cleared(c, names).children == c.children.filter(|x: NamedView| !names.contains(x.name)),
        cleared(c, names).modified <==> c.modified || exists|i: int|
            0 <= i < c.children.len() && names.contains((#[trigger] c.children[i]).name),
        cleared(c, names).map_key == c.map_key,
        cleared(c, names).bat == c.bat,
        cleared(c, names).next == c.next,
        cleared(c, names).is_new == c.is_new,
{
    lemma_kept_names(c.children, names);
}

proof fn lemma_kept_names(v: Seq<NamedView>, names: Seq<Seq<char>>)
    ensures
        without_names(v, names) == v.filter(|x: NamedView| !names.contains(x.name)),
        without_names(v, names).len() <= v.len(),
        without_names(v, names).len() < v.len() <==> exists|i: int| 0 <= i < v.len() && names.contains((#[trigger] v[i]).name),
    decreases v.len(),
{
    reveal(Seq::filter);
    if v.len() > 0 {
        let init = v.drop_last();
        lemma_kept_names(init, names);
        if exists|i: int| 0 <= i < init.len() && names.contains((#[trigger] init[i]).name) {
            let i = choose|i: int| 0 <= i < init.len() && names.contains((#[trigger] init[i]).name);
            assert(names.contains(v[i].name));
        }
        if exists|i: int| 0 <= i < v.len() && names.contains((#[trigger] v[i]).name) {
            let i = choose|i: int| 0 <= i < v.len() && names.contains((#[trigger] v[i]).name);
            if i < init.len() {
                assert(names.contains(init[i].name));
            }
        }
        if names.contains(v.last().name) {
            assert(names.contains(v[v.len() - 1].name));
        }
    }
}

/// Where a new link goes: behind the others of the first chunk that has room, and where all are
/// full into a new chunk, at the place that the last one already names as its next.
pub proof fn law_place_of_a_new_link(
    v: Seq<ChunkView>,
    i: int,
    link: NamedView,
    max: nat,
    fresh: (Seq<u8>, Option<CborValue>),
)
    requires
        v.len() > 0,
    ensures
        0 <= i < v.len() && v[i].children.len() < max && (forall|k: int|
            0 <= k < i ==> (#[trigger] v[k]).children.len() >= max) ==> with_link(v, link, max, fresh) == v.update(
            i,
            ChunkView { children: v[i].children.push(link), modified: true, ..v[i] },
        ),
        (forall|k: int| 0 <= k < v.len() ==> (#[trigger] v[k]).children.len() >= max) ==> ({
            let w = with_link(v, link, max, fresh);
            &&& w.len() == v.len() + 1
            &&& w.drop_last() == v
            &&& w.last().map_key == v.last().next.0
            &&& w.last().bat == v.last().next.1
            &&& w.last().children == seq![link]
            &&& w.last().next == fresh
            &&& w.last().is_new
            &&& w.last().modified
        }),
{
    if 0 <= i < v.len() && v[i].children.len() < max && (forall|k: int|
        0 <= k < i ==> (#[trigger] v[k]).children.len() >= max) {
        lemma_room_at(v, max, i);
    }
    if forall|k: int| 0 <= k < v.len() ==> (#[trigger] v[k]).children.len() >= max {
        lemma_no_room(v, max);
        assert(with_link(v, link, max, fresh).drop_last() =~= v);
    }
}

proof fn lemma_room_at(v: Seq<ChunkView>, max: nat, i: int)
    requires
        0 <= i < v.len(),
        v[i].children.len() < max,
        forall|k: int| 0 <= k < i ==> (#[trigger] v[k]).children.len() >= max,
    ensures
        first_room(v, max) == i,
    decreases v.len(),
{
    if i > 0 {
        let rest = v.skip(1);
        assert(v[0].children.len() >= max);
        assert(rest[i - 1] == v[i]);
        assert forall|k: int| 0 <= k < i - 1 implies (#[trigger] rest[k]).children.len() >= max by {
            assert(rest[k] == v[k + 1]);
        }
        lemma_room_at(rest, max, i - 1);
    }
}

proof fn lemma_no_room(v: Seq<ChunkView>, max: nat)
    requires
        forall|k: int| 0 <= k < v.len() ==> (#[trigger] v[k]).children.len() >= max,
    ensures
        first_room(v, max) == v.len(),
    decreases v.len(),
{
    if v.len() > 0 {
        let rest = v.skip(1);
        assert(v[0].children.len() >= max);
        assert forall|k: int| 0 <= k < rest.len() implies (#[trigger] rest[k]).children.len() >= max by {
            assert(rest[k] == v[k + 1]);
        }
        lemma_no_room(rest, max);
    }
}

/// How many links a chunk of a directory holds where nothing else is asked for.
pub proof fn law_default_room()
    ensures
        DEFAULT_MAX_CHILD_LINKS == 500,
{
}

} // verus!
