//! Removing, renaming and moving entries.
use vstd::prelude::*;
use vstd::utf8::*;
use crate::archive::directory::{has_record, record_len, records_from};
use crate::archive::entry::{
    record_entry, record_fits, EntryView, ZipEntry, CENTRAL_HEADER_SIZE, LOCAL_HEADER_SIG, LOCAL_HEADER_SIZE,
};
use crate::archive::fields::{field16, field32, patch, u16_at, u32_at};
use crate::archive::index::{entry_views, has_path, Tree, ZipIndex};
use crate::archive::laws::law_record_moves;
use crate::archive::names::{normalise_path, normalised};
use crate::archive::tail::{
    lemma_named, lemma_named_from, named_record, record_views, CentralDirectory, DirectoryRecord, RecordView, TAIL_BUFFER,
};
use crate::archive::writer::NewEntry;
use crate::error::{fails_protocol, protocol_of, Error, Result};
use crate::paths::{has_prefix, holds_char, is_listed, last_place, lemma_last_place, name_of, parent_of, path_parent, starts_with, texts};
use crate::text::{chars_of, join2, join3, same_text, slice_bytes, text_of};

verus! {

/// The entries of `v` below the directory `dir`, in order.
pub open spec fn entries_below(v: Seq<EntryView>, dir: Seq<char>) -> Seq<EntryView>
    decreases v.len(),
{
    if v.len() == 0 {
        Seq::empty()
    } else if has_prefix(v.last().path, dir + "/"@) {
        entries_below(v.drop_last(), dir).push(v.last())
    } else {
        entries_below(v.drop_last(), dir)
    }
}

/// The entries of the archive below the directory `dir`.
fn collect_below(entries: &Vec<ZipEntry>, dir: &str) -> (r: Vec<ZipEntry>)
    ensures
        entry_views(r@) == entries_below(entry_views(entries@), dir@),
{
    let prefix = join2(dir, "/");
    let ghost all = entry_views(entries@);
    let mut out: Vec<ZipEntry> = Vec::new();
    proof {
        assert(entry_views(out@) =~= entries_below(all.take(0), dir@));
    }
    for i in 0..entries.len()
        invariant
            all == entry_views(entries@),
            prefix@ == dir@ + "/"@,
            entry_views(out@) == entries_below(all.take(i as int), dir@),
    {
        let ghost before = entry_views(out@);
        proof {
            assert(all.take(i as int + 1).drop_last() =~= all.take(i as int));
            assert(all.take(i as int + 1).last() == entries[i as int]@);
        }
        if starts_with(entries[i].path.as_str(), prefix.as_str()) {
            out.push(entries[i].dup());
            proof {
                assert(entry_views(out@) =~= before.push(entries[i as int]@));
            }
        }
    }
    proof {
        assert(all.take(all.len() as int) =~= all);
    }
    out
}

/// What is below a directory is an entry with the directory's path in front, and every such
/// entry is below it.
pub proof fn lemma_below(v: Seq<EntryView>, dir: Seq<char>)
    ensures
        forall|i: int|
            0 <= i < entries_below(v, dir).len() ==> has_prefix((#[trigger] entries_below(v, dir)[i]).path, dir + "/"@)
                && v.contains(entries_below(v, dir)[i]),
        forall|i: int| 0 <= i < v.len() && has_prefix((#[trigger] v[i]).path, dir + "/"@) ==> entries_below(v, dir).contains(v[i]),
    decreases v.len(),
{
    if v.len() > 0 {
        let init = v.drop_last();
        let f = entries_below(v, dir);
        let g = entries_below(init, dir);
        lemma_below(init, dir);
        assert forall|i: int| 0 <= i < f.len() implies has_prefix((#[trigger] f[i]).path, dir + "/"@) && v.contains(f[i]) by {
            if i < g.len() {
                assert(f[i] == g[i]);
                let k = choose|k: int| 0 <= k < init.len() && init[k] == g[i];
                assert(v[k] == f[i]);
            } else {
                assert(v[v.len() - 1] == f[i]);
            }
        }
        assert forall|i: int| 0 <= i < v.len() && has_prefix((#[trigger] v[i]).path, dir + "/"@) implies f.contains(v[i]) by {
            if i < init.len() {
                assert(init[i] == v[i]);
                let k = choose|k: int| 0 <= k < g.len() && g[k] == v[i];
                assert(f[k] == v[i]);
            } else {
                assert(f[f.len() - 1] == v[i]);
            }
        }
    }
}

/// The entries that one path covers: a directory covers what is under it, and itself.
pub open spec fn covered_by(all: Seq<EntryView>, m: Tree, path: Seq<char>) -> Seq<EntryView> {
    match normalised(path) {
        None => Seq::empty(),
        Some(p) => if !m.contains_key(p) {
            Seq::empty()
        } else if m[p].is_directory {
            entries_below(all, m[p].path).push(m[p])
        } else {
            seq![m[p]]
        },
    }
}

/// The entries that the paths cover, in turn.
pub open spec fn covered(all: Seq<EntryView>, m: Tree, paths: Seq<Seq<char>>) -> Seq<EntryView>
    decreases paths.len(),
{
    if paths.len() == 0 {
        Seq::empty()
    } else {
        covered(all, m, paths.drop_last()) + covered_by(all, m, paths.last())
    }
}

/// Removing a path removes the entry of that path, and if that is a directory also
/// everything under it, be it a file or a directory.
pub proof fn law_removal_covers(all: Seq<EntryView>, m: Tree, paths: Seq<Seq<char>>, k: int, i: int)
    requires
        0 <= k < paths.len(),
        normalised(paths[k]) is Some,
        m.contains_key(normalised(paths[k])->Some_0),
        0 <= i < all.len(),
    ensures
        ({
            let e = m[normalised(paths[k])->Some_0];
            &&& covered(all, m, paths).contains(e)
            &&& e.is_directory && has_prefix(all[i].path, e.path + "/"@) ==> covered(all, m, paths).contains(all[i])
        }),
    decreases paths.len(),
{
    let e = m[normalised(paths[k])->Some_0];
    let c = covered(all, m, paths);
    let a = covered(all, m, paths.drop_last());
    let b = covered_by(all, m, paths.last());
    let under = e.is_directory && has_prefix(all[i].path, e.path + "/"@);
    if k < paths.len() - 1 {
        law_removal_covers(all, m, paths.drop_last(), k, i);
        let j = choose|j: int| 0 <= j < a.len() && a[j] == e;
        assert(c[j] == e);
        if under {
            let j = choose|j: int| 0 <= j < a.len() && a[j] == all[i];
            assert(c[j] == all[i]);
        }
    } else {
        assert(b[b.len() - 1] == e);
        assert(c[a.len() + b.len() - 1] == e);
        if under {
            lemma_below(all, e.path);
            let f = entries_below(all, e.path);
            let j = choose|j: int| 0 <= j < f.len() && f[j] == all[i];
            assert(b[j] == all[i]);
            assert(c[a.len() + j] == all[i]);
        }
    }
}

/// Nothing is removed but what one of the paths names, and what is under it.
pub proof fn law_removal_spares(all: Seq<EntryView>, m: Tree, paths: Seq<Seq<char>>, e: EntryView)
    requires
        covered(all, m, paths).contains(e),
    ensures
        exists|k: int|
            0 <= k < paths.len() && normalised(#[trigger] paths[k]) is Some && m.contains_key(normalised(paths[k])->Some_0) && {
                let named = m[normalised(paths[k])->Some_0];
                e == named || named.is_directory && has_prefix(e.path, named.path + "/"@)
            },
    decreases paths.len(),
{
    let c = covered(all, m, paths);
    let a = covered(all, m, paths.drop_last());
    let b = covered_by(all, m, paths.last());
    let j = choose|j: int| 0 <= j < c.len() && c[j] == e;
    if j < a.len() {
        assert(a[j] == e);
        law_removal_spares(all, m, paths.drop_last(), e);
        let init = paths.drop_last();
        let k = choose|k: int|
            0 <= k < init.len() && normalised(#[trigger] init[k]) is Some && m.contains_key(normalised(init[k])->Some_0) && {
                let named = m[normalised(init[k])->Some_0];
                e == named || named.is_directory && has_prefix(e.path, named.path + "/"@)
            };
        assert(paths[k] == init[k]);
    } else {
        assert(b[j - a.len()] == e);
        let last = paths[paths.len() - 1];
        let named = m[normalised(last)->Some_0];
        if named.is_directory {
            lemma_below(all, named.path);
        }
    }
}

/// The entries `paths` cover, so removing a directory removes what is under it.
pub fn expand(index: &ZipIndex, paths: &Vec<String>) -> (r: Vec<ZipEntry>)
    ensures
        entry_views(r@) == covered(entry_views(index.list()), index@, texts(paths@)),
{
    let entries = index.entries();
    let ghost all = entry_views(index.list());
    let ghost ps = texts(paths@);
    let mut out: Vec<ZipEntry> = Vec::new();
    proof {
        assert(entry_views(out@) =~= covered(all, index@, ps.take(0)));
    }
    for i in 0..paths.len()
        invariant
            entries@ == index.list(),
            all == entry_views(index.list()),
            ps == texts(paths@),
            entry_views(out@) == covered(all, index@, ps.take(i as int)),
    {
        let ghost before = entry_views(out@);
        proof {
            assert(ps.take(i as int + 1).drop_last() =~= ps.take(i as int));
            assert(ps.take(i as int + 1).last() == paths[i as int]@);
        }
        match index.get(paths[i].as_str()) {
            None => {
                proof {
                    assert(before + Seq::<EntryView>::empty() =~= before);
                }
            },
            Some(e) => {
                let entry = e.dup();
                let ghost ev = entry@;
                if entry.is_directory {
                    let mut below = collect_below(entries, entry.path.as_str());
                    let ghost bv = entry_views(below@);
                    out.append(&mut below);
                    proof {
                        assert(entry_views(out@) =~= before + bv);
                    }
                    out.push(entry);
                    proof {
                        assert(entry_views(out@) =~= before + bv.push(ev));
                    }
                } else {
                    out.push(entry);
                    proof {
                        assert(entry_views(out@) =~= before + seq![ev]);
                    }
                }
            },
        }
    }
    proof {
        assert(ps.take(ps.len() as int) =~= ps);
    }
    out
}

/// A list of texts as `{:?}` shows it.
pub uninterp spec fn debug_texts(v: Seq<Seq<char>>) -> Seq<char>;

/// `format!` with `{:?}` on a slice of strings: the texts in quotes, a function of the
/// texts alone.
#[verifier::external_body]
fn show_texts(v: &[String]) -> (r: String)
    ensures
        r@ == debug_texts(texts(v@)),
{
    format!("{v:?}")
}

/// The entries to remove for `paths`: an error if they name nothing.
pub fn removal(index: &ZipIndex, paths: &Vec<String>) -> (r: Result<Vec<ZipEntry>>)
    ensures
        ({
            let gone = covered(entry_views(index.list()), index@, texts(paths@));
            if gone.len() == 0 {
                fails_protocol(r, "No such entry in the archive: "@ + debug_texts(texts(paths@)))
            } else {
                r is Ok && entry_views(r->Ok_0@) == gone
            }
        }),
{
    let gone = expand(index, paths);
    proof {
        assert(entry_views(gone@).len() == gone.len());
    }
    if gone.len() == 0 {
        return Err(protocol_of("No such entry in the archive: ", show_texts(paths).as_str()));
    }
    Ok(gone)
}

/// The bytes that removing an entry overwrites with zeros, from its local header at
/// the start of `header`: (start, end). None where there is no such header.
pub open spec fn erased_range(e: EntryView, header: Seq<u8>) -> Option<(int, int)> {
    if field32(header, 0) != LOCAL_HEADER_SIG {
        None
    } else {
        Some(
            (
                e.local_header_offset,
                e.local_header_offset + LOCAL_HEADER_SIZE + field16(header, 26) + field16(header, 28)
                    + e.compressed_size,
            ),
        )
    }
}

/// The bytes that removing an entry overwrites: (start, end).
pub fn erase_range(entry: &ZipEntry, header: &[u8]) -> (r: Option<(u64, u64)>)
    requires
        header.len() == LOCAL_HEADER_SIZE,
        entry.local_header_offset >= 0,
        entry.local_header_offset + LOCAL_HEADER_SIZE + 0x1_fffe + entry.compressed_size <= u64::MAX,
    ensures
        r is Some <==> erased_range(entry@, header@) is Some,
        r matches Some((a, b)) ==> erased_range(entry@, header@) == Some((a as int, b as int)),
{
    if u32_at(header, 0) != LOCAL_HEADER_SIG as u64 {
        return None;
    }
    let start: u64 = entry.local_header_offset as u64;
    let end: u64 = start + LOCAL_HEADER_SIZE as u64 + u16_at(header, 26) + u16_at(header, 28) + entry.compressed_size;
    Some((start, end))
}

/// How many zeros the next request writes when `at..end` is left to erase.
pub fn erase_step(at: u64, end: u64) -> (n: u64)
    requires
        at < end,
    ensures
        n == if end - at < TAIL_BUFFER { (end - at) as int } else { TAIL_BUFFER as int },
        0 < n <= end - at,
{
    if end - at < TAIL_BUFFER as u64 {
        end - at
    } else {
        TAIL_BUFFER as u64
    }
}

/// Whether a name can stand in a directory.
pub open spec fn is_entry_name(name: Seq<char>) -> bool {
    name.len() > 0 && !name.contains('/') && name != "."@ && name != ".."@
}

/// The path of an entry under a new name in the directory `parent`.
pub open spec fn sibling_path(parent: Seq<char>, name: Seq<char>) -> Seq<char> {
    if parent.len() == 0 {
        name
    } else {
        parent + "/"@ + name
    }
}

/// An entry that is moved to `target` stays in the directory `parent`: what the path stands for
/// is in it.
pub open spec fn stays_in(target: Seq<char>, parent: Seq<char>) -> bool {
    match normalised(target) {
        Some(p) => p.len() == 0 || parent_of(p) == parent,
        None => true,
    }
}

fn check_stays(target: &str, parent: &str) -> (r: bool)
    ensures
        r == stays_in(target@, parent@),
{
    match normalise_path(target) {
        Some(p) => p.as_str().is_empty() || same_text(path_parent(p.as_str()).as_str(), parent),
        None => true,
    }
}

proof fn lemma_sibling(parent: Seq<char>, name: Seq<char>)
    requires
        !name.contains('/'),
    ensures
        parent_of(sibling_path(parent, name)) == parent,
        name_of(sibling_path(parent, name)) == name,
{
    let t = sibling_path(parent, name);
    let at = last_place(t, '/');
    reveal_strlit("/");
    lemma_last_place(t, '/');
    if parent.len() == 0 {
        assert(parent =~= Seq::empty());
        if at >= 0 {
            assert(name.contains(t[at]));
        }
        assert(t.skip(0) =~= name);
    } else {
        assert(t[parent.len() as int] == '/');
        if at > parent.len() {
            assert(name[at - parent.len() - 1] == t[at]);
            assert(name.contains(t[at]));
        }
        assert(at == parent.len());
        assert(t.take(at) =~= parent);
        assert(t.skip(at + 1) =~= name);
    }
}

/// Checks the name that an entry is to have.
pub fn check_entry_name(new_name: &str) -> (r: Result<()>)
    ensures
        is_entry_name(new_name@) ==> r is Ok,
        !is_entry_name(new_name@) ==> fails_protocol(r, "Invalid name: "@ + new_name@),
{
    if new_name.is_empty() || holds_char(new_name, '/') || same_text(new_name, ".") || same_text(new_name, "..") {
        return Err(protocol_of("Invalid name: ", new_name));
    }
    Ok(())
}

/// The path that an entry is to move to, as an archive records it.
pub fn check_new_path(new_path: &str) -> (r: Result<String>)
    ensures
        match normalised(new_path@) {
            Some(p) if p.len() > 0 => r is Ok && r->Ok_0@ == p,
            _ => fails_protocol(r, "Invalid path in an archive: "@ + new_path@),
        },
{
    match normalise_path(new_path) {
        Some(p) => {
            if p.as_str().is_empty() {
                return Err(protocol_of("Invalid path in an archive: ", new_path));
            }
            Ok(p)
        },
        None => Err(protocol_of("Invalid path in an archive: ", new_path)),
    }
}

/// The path of an entry under a new name in the same directory. A name that a reader would
/// take for a path is refused: the entry would not stay there.
pub fn rename_target(index: &ZipIndex, path: &str, new_name: &str) -> (r: Result<String>)
    ensures
        !is_entry_name(new_name@) ==> fails_protocol(r, "Invalid name: "@ + new_name@),
        is_entry_name(new_name@) && !(normalised(path@) is Some && index@.contains_key(normalised(path@)->Some_0))
            ==> fails_protocol(r, "No such entry in the archive: "@ + path@),
        is_entry_name(new_name@) && normalised(path@) is Some && index@.contains_key(normalised(path@)->Some_0) ==> {
            let target = sibling_path(parent_of(index@[normalised(path@)->Some_0].path), new_name@);
            if stays_in(target, parent_of(index@[normalised(path@)->Some_0].path)) {
                r is Ok && r->Ok_0@ == target
            } else {
                fails_protocol(r, "Invalid name: "@ + new_name@)
            }
        },
        r is Ok ==> {
            &&& parent_of(r->Ok_0@) == parent_of(index@[normalised(path@)->Some_0].path)
            &&& name_of(r->Ok_0@) == new_name@
            &&& stays_in(r->Ok_0@, parent_of(index@[normalised(path@)->Some_0].path))
        },
{
    match check_entry_name(new_name) {
        Ok(()) => {},
        Err(e) => {
            return Err(e);
        },
    }
    match index.get(path) {
        None => Err(protocol_of("No such entry in the archive: ", path)),
        Some(e) => {
            let parent = e.parent_path();
            let target = if parent.as_str().is_empty() {
                new_name.to_owned()
            } else {
                join3(parent.as_str(), "/", new_name)
            };
            proof {
                lemma_sibling(parent@, new_name@);
            }
            if check_stays(target.as_str(), parent.as_str()) {
                Ok(target)
            } else {
                Err(protocol_of("Invalid name: ", new_name))
            }
        },
    }
}

/// How an entry gets to another path.
#[derive(Debug, PartialEq, Eq)]
pub enum MovePlan {
    /// Its name is patched where it stands, to one of the same length.
    InPlace(ZipEntry, String),
    /// The entries are written again under new paths, and the old ones removed: each
    /// source with its new entry, and the paths to remove.
    Rewrite(Vec<(ZipEntry, NewEntry)>, Vec<String>),
}

/// The path of `child`, which is below `dir`, when `dir` becomes `renamed`.
pub open spec fn moved_path(child: Seq<char>, dir: Seq<char>, renamed: Seq<char>) -> Seq<char> {
    renamed + "/"@ + child.skip((dir + "/"@).len() as int)
}

/// The sources of a rewrite and where they go.
pub open spec fn moves(v: Seq<(ZipEntry, NewEntry)>) -> Seq<(EntryView, Seq<char>)> {
    Seq::new(v.len(), |i: int| (v[i].0@, v[i].1.path@))
}

/// `n` is `e` at another path.
pub open spec fn carries(e: EntryView, n: NewEntry) -> bool {
    n.size == (if e.is_directory { 0 } else { e.size }) && n.modified_millis == e.modified_millis && n.is_directory
        == e.is_directory
}

/// Those of `v` that stand in the archive: the files, and the directories that have a record
/// of their own and so may be empty.
pub open spec fn standing(v: Seq<EntryView>) -> Seq<EntryView>
    decreases v.len(),
{
    if v.len() == 0 {
        Seq::empty()
    } else if !v.last().is_directory || v.last().local_header_offset >= 0 {
        standing(v.drop_last()).push(v.last())
    } else {
        standing(v.drop_last())
    }
}

/// One of `v` is a file.
pub open spec fn has_file(v: Seq<EntryView>) -> bool {
    exists|i: int| 0 <= i < v.len() && !(#[trigger] v[i]).is_directory
}

fn holds_file(v: &Vec<ZipEntry>) -> (r: bool)
    ensures
        r == has_file(entry_views(v@)),
{
    for i in 0..v.len()
        invariant
            forall|k: int| 0 <= k < i ==> entry_views(v@)[k].is_directory,
    {
        if !v[i].is_directory {
            proof {
                assert(!entry_views(v@)[i as int].is_directory);
            }
            return true;
        }
        proof {
            assert(entry_views(v@)[i as int] == v[i as int]@);
        }
    }
    false
}

fn collect_standing(v: &Vec<ZipEntry>) -> (r: Vec<ZipEntry>)
    ensures
        entry_views(r@) == standing(entry_views(v@)),
{
    let ghost all = entry_views(v@);
    let mut out: Vec<ZipEntry> = Vec::new();
    proof {
        assert(entry_views(out@) =~= standing(all.take(0)));
    }
    for i in 0..v.len()
        invariant
            all == entry_views(v@),
            entry_views(out@) == standing(all.take(i as int)),
    {
        let ghost before = entry_views(out@);
        proof {
            assert(all.take(i as int + 1).drop_last() =~= all.take(i as int));
            assert(all.take(i as int + 1).last() == v[i as int]@);
        }
        if !v[i].is_directory || v[i].local_header_offset >= 0 {
            out.push(v[i].dup());
            proof {
                assert(entry_views(out@) =~= before.push(v[i as int]@));
            }
        }
    }
    proof {
        assert(all.take(all.len() as int) =~= all);
    }
    out
}

pub proof fn lemma_standing(v: Seq<EntryView>)
    ensures
        forall|i: int| 0 <= i < standing(v).len() ==> v.contains(#[trigger] standing(v)[i]),
        forall|i: int| 0 <= i < v.len() && !(#[trigger] v[i]).is_directory ==> standing(v).contains(v[i]),
    decreases v.len(),
{
    if v.len() > 0 {
        let init = v.drop_last();
        let f = standing(v);
        let g = standing(init);
        lemma_standing(init);
        assert forall|i: int| 0 <= i < f.len() implies v.contains(#[trigger] f[i]) by {
            if i < g.len() {
                assert(f[i] == g[i]);
                let k = choose|k: int| 0 <= k < init.len() && init[k] == g[i];
                assert(v[k] == f[i]);
            } else {
                assert(v[v.len() - 1] == f[i]);
            }
        }
        assert forall|i: int| 0 <= i < v.len() && !(#[trigger] v[i]).is_directory implies f.contains(v[i]) by {
            if i < init.len() {
                assert(init[i] == v[i]);
                let k = choose|k: int| 0 <= k < g.len() && g[k] == v[i];
                assert(f[k] == v[i]);
            } else {
                assert(f[f.len() - 1] == v[i]);
            }
        }
    }
}

/// Where the entries below `dir` go: the first whose new path is no path, or is one of the
/// `old` paths that are removed afterwards, is the error.
pub open spec fn moved_entries(old: Seq<Seq<char>>, v: Seq<EntryView>, dir: Seq<char>, renamed: Seq<char>) -> core::result::Result<
    Seq<(EntryView, Seq<char>)>,
    Seq<char>,
>
    decreases v.len(),
{
    if v.len() == 0 {
        Ok(Seq::empty())
    } else {
        match moved_entries(old, v.drop_last(), dir, renamed) {
            Err(msg) => Err(msg),
            Ok(l) => {
                let to = moved_path(v.last().path, dir, renamed);
                match normalised(to) {
                    None => Err("Invalid path in an archive: "@ + to),
                    Some(p) => if old.contains(p) {
                        Err("Already in the archive: "@ + p)
                    } else {
                        Ok(l.push((v.last(), p)))
                    },
                }
            },
        }
    }
}

proof fn lemma_moved_fails(old: Seq<Seq<char>>, v: Seq<EntryView>, dir: Seq<char>, renamed: Seq<char>, n: int)
    requires
        0 <= n <= v.len(),
        moved_entries(old, v.take(n), dir, renamed) is Err,
    ensures
        moved_entries(old, v, dir, renamed) == moved_entries(old, v.take(n), dir, renamed),
    decreases v.len(),
{
    if n < v.len() {
        assert(v.drop_last().take(n) =~= v.take(n));
        lemma_moved_fails(old, v.drop_last(), dir, renamed, n);
    } else {
        assert(v.take(n) =~= v);
    }
}

/// Moves the entries below `dir`.
fn move_entries(old: &Vec<String>, v: &Vec<ZipEntry>, dir: &str, renamed: &str) -> (r: Result<Vec<(ZipEntry, NewEntry)>>)
    requires
        forall|i: int| 0 <= i < v.len() ==> has_prefix((#[trigger] v[i])@.path, dir@ + "/"@),
    ensures
        r is Ok <==> moved_entries(texts(old@), entry_views(v@), dir@, renamed@) is Ok,
        r is Ok ==> moves(r->Ok_0@) == moved_entries(texts(old@), entry_views(v@), dir@, renamed@)->Ok_0,
        r is Ok ==> forall|i: int| 0 <= i < r->Ok_0@.len() ==> carries((#[trigger] r->Ok_0@[i]).0@, r->Ok_0@[i].1),
        r is Ok ==> forall|i: int| 0 <= i < r->Ok_0@.len() ==> !texts(old@).contains((#[trigger] r->Ok_0@[i]).1.path@),
        r is Err ==> fails_protocol(r, moved_entries(texts(old@), entry_views(v@), dir@, renamed@)->Err_0),
{
    let ghost all = entry_views(v@);
    let mut out: Vec<(ZipEntry, NewEntry)> = Vec::new();
    let prefix = chars_of(join2(dir, "/").as_str());
    let skip: usize = prefix.len();
    proof {
        assert(all.take(0) =~= Seq::empty());
        assert(moves(out@) =~= Seq::empty());
    }
    for i in 0..v.len()
        invariant
            all == entry_views(v@),
            skip == (dir@ + "/"@).len(),
            forall|k: int| 0 <= k < v.len() ==> has_prefix((#[trigger] v[k])@.path, dir@ + "/"@),
            moved_entries(texts(old@), all.take(i as int), dir@, renamed@) == Ok::<Seq<(EntryView, Seq<char>)>, Seq<char>>(
                moves(out@),
            ),
            forall|k: int| 0 <= k < out.len() ==> carries((#[trigger] out[k]).0@, out[k].1),
            forall|k: int| 0 <= k < out.len() ==> !texts(old@).contains((#[trigger] out[k]).1.path@),
    {
        let ghost before = moves(out@);
        proof {
            assert(all.take(i as int + 1).drop_last() =~= all.take(i as int));
            assert(all.take(i as int + 1).last() == v[i as int]@);
            assert(has_prefix(v[i as int]@.path, dir@ + "/"@));
        }
        let chars = chars_of(v[i].path.as_str());
        let rest = text_of(crate::paths::slice_chars(&chars, skip, chars.len()));
        proof {
            assert(rest@ =~= v[i as int]@.path.skip(skip as int));
        }
        let to = join3(renamed, "/", rest.as_str());
        match NewEntry::from_archive(to.as_str(), &v[i]) {
            Ok(n) => {
                if is_listed(old, n.path.as_str()) {
                    proof {
                        lemma_moved_fails(texts(old@), all, dir@, renamed@, i as int + 1);
                    }
                    return Err(protocol_of("Already in the archive: ", n.path.as_str()));
                }
                let ghost item = (v[i as int]@, n.path@);
                out.push((v[i].dup(), n));
                proof {
                    assert(moves(out@) =~= before.push(item));
                }
            },
            Err(e) => {
                proof {
                    lemma_moved_fails(texts(old@), all, dir@, renamed@, i as int + 1);
                }
                return Err(e);
            },
        }
    }
    proof {
        assert(all.take(all.len() as int) =~= all);
    }
    Ok(out)
}

/// The paths of a list of entries.
pub open spec fn paths_of(v: Seq<EntryView>) -> Seq<Seq<char>> {
    Seq::new(v.len(), |i: int| v[i].path)
}

/// None of the paths that the entries of a rewrite go to is among those that are removed
/// afterwards.
pub open spec fn is_apart(moved: Seq<(ZipEntry, NewEntry)>, old: Seq<Seq<char>>) -> bool {
    forall|i: int, j: int|
        0 <= i < moved.len() && 0 <= j < old.len() ==> (#[trigger] moved[i]).1.path@ != #[trigger] old[j]
}

/// What [`plan_move`] comes to.
pub open spec fn move_outcome(all: Seq<EntryView>, m: Tree, path: Seq<char>, new_path: Seq<char>, r: Result<MovePlan>)
    -> bool {
    let to = normalised(new_path);
    let from = normalised(path);
    if to is None || to->Some_0.len() == 0 {
        fails_protocol(r, "Invalid path in an archive: "@ + new_path)
    } else if from is None || !m.contains_key(from->Some_0) {
        fails_protocol(r, "No such entry in the archive: "@ + path)
    } else if normalised(to->Some_0) is Some && m.contains_key(normalised(to->Some_0)->Some_0) {
        fails_protocol(r, "Already in the archive: "@ + to->Some_0)
    } else {
        let e = m[from->Some_0];
        let renamed = to->Some_0;
        let below = entries_below(all, e.path);
        let old = paths_of(below).push(e.path);
        if e.is_directory && !has_file(below) {
            fails_protocol(r, "Nothing to rename in "@ + e.path)
        } else if e.is_directory {
            match moved_entries(old, standing(below), e.path, renamed) {
                Err(msg) => fails_protocol(r, msg),
                Ok(v) => r matches Ok(MovePlan::Rewrite(moved, gone)) && moves(moved@) == v && texts(gone@) == old
                    && is_apart(moved@, old) && forall|i: int|
                    0 <= i < moved@.len() ==> carries((#[trigger] moved@[i]).0@, moved@[i].1),
            }
        } else if normalised(renamed) is None || normalised(renamed)->Some_0.len() == 0 {
            fails_protocol(r, "Invalid path in an archive: "@ + renamed)
        } else if encode_utf8(e.path).len() == encode_utf8(renamed).len() && e.local_header_offset >= 0 {
            r matches Ok(MovePlan::InPlace(entry, name)) && entry@ == e && name@ == renamed
        } else {
            is_rewrite(r, e, normalised(renamed)->Some_0) && is_apart(
                r->Ok_0->Rewrite_0@,
                texts(r->Ok_0->Rewrite_1@),
            )
        }
    }
}

/// `r` is to write the file `e` again at `renamed`, and to remove it where it was.
pub open spec fn is_rewrite(r: Result<MovePlan>, e: EntryView, renamed: Seq<char>) -> bool {
    r matches Ok(MovePlan::Rewrite(moved, old)) && moves(moved@) == seq![(e, renamed)] && carries(e, moved@[0].1) && texts(
        old@,
    ) == seq![e.path]
}

/// Writes an entry again under a new path, where its name cannot be patched.
pub fn rewrite_entry(entry: &ZipEntry, renamed: &str) -> (r: Result<MovePlan>)
    ensures
        normalised(renamed@) is None ==> fails_protocol(r, "Invalid path in an archive: "@ + renamed@),
        normalised(renamed@) is Some ==> is_rewrite(r, entry@, normalised(renamed@)->Some_0),
{
    match NewEntry::from_archive(renamed, entry) {
        Ok(n) => {
            let mut old: Vec<String> = Vec::new();
            old.push(entry.path.clone());
            let mut moved: Vec<(ZipEntry, NewEntry)> = Vec::new();
            moved.push((entry.dup(), n));
            proof {
                assert(moves(moved@) =~= seq![(entry@, n.path@)]);
                assert(texts(old@) =~= seq![entry@.path]);
            }
            Ok(MovePlan::Rewrite(moved, old))
        },
        Err(e) => Err(e),
    }
}

/// Move an entry, or a directory of them, to another path within the same archive.
/// A name of the same length is patched where it stands, which is two small writes
/// whatever the entry weighs; otherwise the entry is written again under the new
/// name and the old one removed. A directory may go below itself: what is removed is what
/// was there, by its path, and none of what was just written. A path that starts like a drive
/// names what is left without the drive, as it does when the archive is read.
pub fn plan_move(index: &ZipIndex, path: &str, new_path: &str) -> (r: Result<MovePlan>)
    ensures
        move_outcome(entry_views(index.list()), index@, path@, new_path@, r),
{
    let renamed = match check_new_path(new_path) {
        Ok(p) => p,
        Err(e) => {
            return Err(e);
        },
    };
    let entry = match index.get(path) {
        Some(e) => e.dup(),
        None => {
            return Err(protocol_of("No such entry in the archive: ", path));
        },
    };
    if index.get(renamed.as_str()).is_some() {
        return Err(protocol_of("Already in the archive: ", renamed.as_str()));
    }
    let entries = index.entries();
    let ghost all = entry_views(index.list());
    let ghost m = index@;
    proof {
        let from = normalised(path@)->Some_0;
        let k = choose|k: int| 0 <= k < entries@.len() && (#[trigger] entries@[k])@.path == from;
        assert(has_path(entries@, from));
        assert(entry@ == entries@[k]@);
        assert(m.contains_key(entry@.path));
    }
    if entry.is_directory {
        let below = collect_below(entries, entry.path.as_str());
        let ghost bv = entry_views(below@);
        proof {
            lemma_below(all, entry@.path);
            lemma_standing(bv);
        }
        if !holds_file(&below) {
            return Err(protocol_of("Nothing to rename in ", entry.path.as_str()));
        }
        let standing_below = collect_standing(&below);
        proof {
            let sv = entry_views(standing_below@);
            assert forall|i: int| 0 <= i < standing_below.len() implies has_prefix(
                (#[trigger] standing_below[i])@.path,
                entry@.path + "/"@,
            ) by {
                assert(sv[i] == standing_below[i]@);
                let k = choose|k: int| 0 <= k < bv.len() && bv[k] == sv[i];
                assert(has_prefix(bv[k].path, entry@.path + "/"@));
            }
        }
        let mut old: Vec<String> = Vec::new();
        for i in 0..below.len()
            invariant
                bv == entry_views(below@),
                texts(old@) == paths_of(bv).take(i as int),
        {
            let ghost before = texts(old@);
            old.push(below[i].path.clone());
            proof {
                assert(bv[i as int] == below[i as int]@);
                assert(texts(old@) =~= before.push(below[i as int]@.path));
                assert(paths_of(bv).take(i as int + 1) =~= before.push(paths_of(bv)[i as int]));
            }
        }
        let ghost before = texts(old@);
        old.push(entry.path.clone());
        proof {
            assert(before =~= paths_of(bv));
            assert(texts(old@) =~= before.push(entry@.path));
        }
        let moved = match move_entries(&old, &standing_below, entry.path.as_str(), renamed.as_str()) {
            Ok(v) => v,
            Err(e) => {
                return Err(e);
            },
        };
        proof {
            let ov = texts(old@);
            assert forall|i: int, j: int| 0 <= i < moved@.len() && 0 <= j < ov.len() implies (#[trigger] moved@[i]).1.path@
                != #[trigger] ov[j] by {
                assert(ov.contains(ov[j]));
            }
        }
        return Ok(MovePlan::Rewrite(moved, old));
    }
    match normalise_path(renamed.as_str()) {
        Some(p) => {
            if p.as_str().is_empty() {
                return Err(protocol_of("Invalid path in an archive: ", renamed.as_str()));
            }
        },
        None => {
            return Err(protocol_of("Invalid path in an archive: ", renamed.as_str()));
        },
    }
    if entry.path.as_str().as_bytes().len() == renamed.as_str().as_bytes().len() && entry.local_header_offset >= 0 {
        return Ok(MovePlan::InPlace(entry, renamed));
    }
    let r = rewrite_entry(&entry, renamed.as_str());
    proof {
        let moved = r->Ok_0->Rewrite_0@;
        assert(moves(moved).len() == moved.len());
        assert forall|i: int, j: int|
            0 <= i < moved.len() && 0 <= j < texts(r->Ok_0->Rewrite_1@).len() implies (#[trigger] moved[i]).1.path@
            != #[trigger] texts(r->Ok_0->Rewrite_1@)[j] by {
            assert(moves(moved)[i].1 == normalised(renamed@)->Some_0);
        }
    }
    r
}

/// The entries of `m` at exactly these paths, in turn.
pub open spec fn entries_of(m: Tree, paths: Seq<Seq<char>>) -> Seq<EntryView>
    decreases paths.len(),
{
    if paths.len() == 0 {
        Seq::empty()
    } else if m.contains_key(paths.last()) {
        entries_of(m, paths.drop_last()).push(m[paths.last()])
    } else {
        entries_of(m, paths.drop_last())
    }
}

/// The entries at exactly these paths, and nothing under them: what a move leaves behind.
pub fn left_behind(index: &ZipIndex, paths: &Vec<String>) -> (r: Vec<ZipEntry>)
    ensures
        entry_views(r@) == entries_of(index@, texts(paths@)),
{
    let ghost ps = texts(paths@);
    let mut out: Vec<ZipEntry> = Vec::new();
    proof {
        assert(entry_views(out@) =~= entries_of(index@, ps.take(0)));
    }
    for i in 0..paths.len()
        invariant
            ps == texts(paths@),
            entry_views(out@) == entries_of(index@, ps.take(i as int)),
    {
        let ghost before = entry_views(out@);
        proof {
            assert(ps.take(i as int + 1).drop_last() =~= ps.take(i as int));
            assert(ps.take(i as int + 1).last() == paths[i as int]@);
        }
        match index.at(paths[i].as_str()) {
            Some(e) => {
                out.push(e.dup());
                proof {
                    assert(entry_views(out@) =~= before.push(index@[paths[i as int]@]));
                }
            },
            None => {},
        }
    }
    proof {
        assert(ps.take(ps.len() as int) =~= ps);
    }
    out
}

/// The first record for `path` is at `i`.
pub open spec fn first_record(v: Seq<RecordView>, path: Seq<char>, i: int) -> bool {
    0 <= i < v.len() && v[i].path == path && forall|k: int| 0 <= k < i ==> (#[trigger] v[k]).path != path
}

/// The name of the record at `o` can be patched to `renamed`, and the one behind the local
/// header with it: both are as long, and the record then describes the same entry under the
/// path that the new name stands for.
pub open spec fn can_patch(bytes: Seq<u8>, o: int, delta: int, local: Seq<u8>, renamed: Seq<char>) -> bool {
    let name = encode_utf8(renamed);
    &&& field32(local, 0) == LOCAL_HEADER_SIG
    &&& field16(local, 26) == name.len()
    &&& field16(bytes, o + 28) == name.len()
    &&& record_entry(bytes, o, delta) matches Ok(Some(e)) && record_entry(
        patch(bytes, o + CENTRAL_HEADER_SIZE, name),
        o,
        delta,
    ) == Ok::<Option<EntryView>, Seq<char>>(Some(EntryView { path: normalised(renamed)->Some_0, ..e }))
    &&& normalised(renamed) is Some
}

/// Where an entry is recorded does not depend on the shift of the offsets.
proof fn lemma_path_stays(d: Seq<u8>, o: int, delta: int)
    ensures
        record_entry(d, o, delta) is Ok <==> record_entry(d, o, 0) is Ok,
        record_entry(d, o, delta) matches Ok(x) ==> match x {
            Some(e) => record_entry(d, o, 0) matches Ok(Some(f)) && e.path == f.path,
            None => record_entry(d, o, 0) == Ok::<Option<EntryView>, Seq<char>>(None),
        },
{
    reveal(record_entry);
}

proof fn lemma_patched_field(d: Seq<u8>, at: int, b: Seq<u8>, i: int, n: int)
    requires
        0 <= i,
        0 <= n,
        i + n <= d.len(),
        i + n <= at || at + b.len() <= i,
    ensures
        patch(d, at, b).subrange(i, i + n) == d.subrange(i, i + n),
{
    assert(patch(d, at, b).subrange(i, i + n) =~= d.subrange(i, i + n));
}

/// A patch that is not in the header of the record at `pos` leaves its length alone.
proof fn lemma_patched_record(d: Seq<u8>, at: int, b: Seq<u8>, pos: int)
    requires
        0 <= pos,
        pos + CENTRAL_HEADER_SIZE <= at || at + b.len() <= pos,
    ensures
        has_record(patch(d, at, b), pos) == has_record(d, pos),
        has_record(d, pos) ==> record_len(patch(d, at, b), pos) == record_len(d, pos),
{
    if pos + CENTRAL_HEADER_SIZE <= d.len() {
        lemma_patched_field(d, at, b, pos, 4);
        lemma_patched_field(d, at, b, pos + 28, 2);
        lemma_patched_field(d, at, b, pos + 30, 2);
        lemma_patched_field(d, at, b, pos + 32, 2);
    }
}

/// A patch within the name of one record leaves the places of all records alone.
proof fn lemma_patched_places(d: Seq<u8>, o: int, b: Seq<u8>, pos: int, j: int)
    requires
        0 <= pos,
        0 <= o,
        0 <= j < records_from(d, pos).len() && records_from(d, pos)[j].0 == o || o + CENTRAL_HEADER_SIZE + b.len() <= pos,
        has_record(d, o),
        b.len() == field16(d, o + 28),
    ensures
        records_from(patch(d, o + CENTRAL_HEADER_SIZE, b), pos) == records_from(d, pos),
    decreases d.len() - pos,
{
    let e = patch(d, o + CENTRAL_HEADER_SIZE, b);
    let r = records_from(d, pos);
    let next = pos + record_len(d, pos);
    if o + CENTRAL_HEADER_SIZE + b.len() <= pos {
        lemma_patched_record(d, o + CENTRAL_HEADER_SIZE, b, pos);
        if has_record(d, pos) {
            lemma_patched_places(d, o, b, next, 0);
        }
    } else {
        assert(has_record(d, pos));
        let rest = records_from(d, next);
        if j > 0 {
            assert(r[j] == rest[j - 1]);
            lemma_places_grow(d, next, j - 1);
            lemma_patched_record(d, o + CENTRAL_HEADER_SIZE, b, pos);
            lemma_patched_places(d, o, b, next, j - 1);
        } else {
            assert(pos == o);
            lemma_patched_record(d, o + CENTRAL_HEADER_SIZE, b, pos);
            lemma_patched_places(d, o, b, next, 0);
        }
    }
}

/// The places of the records ascend, and a record starts at each.
proof fn lemma_places_grow(d: Seq<u8>, pos: int, j: int)
    requires
        0 <= pos,
        0 <= j < records_from(d, pos).len(),
    ensures
        records_from(d, pos)[j].0 >= pos,
        has_record(d, records_from(d, pos)[j].0),
        records_from(d, pos)[j].1 == record_len(d, records_from(d, pos)[j].0),
    decreases j,
{
    let next = pos + record_len(d, pos);
    assert(has_record(d, pos));
    if j > 0 {
        assert(records_from(d, pos)[j] == records_from(d, next)[j - 1]);
        lemma_places_grow(d, next, j - 1);
    }
}

/// The records of a directory do not overlap.
proof fn lemma_places_apart(d: Seq<u8>, pos: int, i: int, j: int)
    requires
        0 <= pos,
        0 <= i < j < records_from(d, pos).len(),
    ensures
        records_from(d, pos)[i].0 + records_from(d, pos)[i].1 <= records_from(d, pos)[j].0,
    decreases i,
{
    let next = pos + record_len(d, pos);
    let rest = records_from(d, next);
    assert(has_record(d, pos));
    assert(records_from(d, pos)[j] == rest[j - 1]);
    if i == 0 {
        lemma_places_grow(d, next, j - 1);
    } else {
        assert(records_from(d, pos)[i] == rest[i - 1]);
        lemma_places_apart(d, next, i - 1, j - 1);
    }
}

/// The name of one record changes and nothing else: every other record describes what it did.
pub proof fn law_rename_changes_one_record(d: Seq<u8>, i: int, name: Seq<u8>, k: int, delta: int)
    requires
        0 <= i < records_from(d, 0).len(),
        0 <= k < records_from(d, 0).len(),
        k != i,
        name.len() == field16(d, records_from(d, 0)[i].0 + 28),
    ensures
        ({
            let recs = records_from(d, 0);
            let e = patch(d, recs[i].0 + CENTRAL_HEADER_SIZE, name);
            &&& records_from(e, 0) == recs
            &&& e.subrange(recs[k].0, recs[k].0 + recs[k].1) == d.subrange(recs[k].0, recs[k].0 + recs[k].1)
            &&& record_entry(e, recs[k].0, delta) == record_entry(d, recs[k].0, delta)
        }),
{
    let recs = records_from(d, 0);
    let o = recs[i].0;
    let e = patch(d, o + CENTRAL_HEADER_SIZE, name);
    lemma_places_grow(d, 0, i);
    lemma_places_grow(d, 0, k);
    lemma_patched_places(d, o, name, 0, i);
    if k < i {
        lemma_places_apart(d, 0, k, i);
    } else {
        lemma_places_apart(d, 0, i, k);
    }
    lemma_patched_field(d, o + CENTRAL_HEADER_SIZE, name, recs[k].0, recs[k].1);
    law_record_moves(d, recs[k].0, e, recs[k].0, recs[k].1, delta);
}

/// Whether two entries differ in their path alone.
fn same_but_path(a: &ZipEntry, b: &ZipEntry) -> (r: bool)
    ensures
        r == (a@ == (EntryView { path: a@.path, ..b@ })),
{
    a.is_directory == b.is_directory && a.size == b.size && a.compressed_size == b.compressed_size
        && a.compression_method == b.compression_method && a.crc32 == b.crc32 && a.local_header_offset
        == b.local_header_offset && a.modified_millis == b.modified_millis && a.flags == b.flags
}

/// Patches the name in the first record for `path`, if it can be: `local` is the local header
/// of the entry. The name lives in two places: the caller writes it behind the local header
/// too. False, with nothing changed, if the entry has to be written again instead.
pub fn rename_record(directory: &mut CentralDirectory, path: &str, renamed: &str, local: &[u8], delta: i64) -> (r: Result<
    bool,
>)
    requires
        old(directory).reads(),
        local.len() == LOCAL_HEADER_SIZE,
    ensures
        final(directory).reads(),
        (forall|i: int| !#[trigger] first_record(record_views(old(directory).records@), path@, i)) ==> fails_protocol(
            r,
            "No such entry in the archive: "@ + path@,
        ),
        forall|i: int|
            #[trigger] first_record(record_views(old(directory).records@), path@, i) ==> r is Ok && r->Ok_0 == can_patch(
                old(directory).bytes@,
                old(directory).records@[i].offset as int,
                delta as int,
                local@,
                renamed@,
            ),
        forall|i: int|
            #[trigger] first_record(record_views(old(directory).records@), path@, i) && r == Ok::<bool, Error>(true) ==> {
                let rec = record_views(old(directory).records@)[i];
                &&& final(directory).bytes@ == patch(
                    old(directory).bytes@,
                    rec.offset + CENTRAL_HEADER_SIZE,
                    encode_utf8(renamed@),
                )
                &&& record_views(final(directory).records@) == record_views(old(directory).records@).update(
                    i,
                    (RecordView { path: normalised(renamed@)->Some_0, ..rec }),
                )
            },
        r != Ok::<bool, Error>(true) ==> *final(directory) == *old(directory),
{
    let ghost rv = record_views(directory.records@);
    let ghost d0 = *directory;
    let ghost recs = records_from(d0.bytes@, 0);
    proof {
        lemma_named(d0.bytes@, recs);
    }
    let mut i: usize = 0;
    while i < directory.records.len() && !same_text(directory.records[i].path.as_str(), path)
        invariant
            i <= directory.records.len(),
            *directory == d0,
            rv == record_views(d0.records@),
            forall|k: int| 0 <= k < i ==> (#[trigger] rv[k]).path != path@,
        decreases directory.records.len() - i,
    {
        proof {
            assert(rv[i as int] == directory.records@[i as int]@);
        }
        i += 1;
    }
    if i >= directory.records.len() {
        proof {
            assert forall|k: int| !#[trigger] first_record(rv, path@, k) by {}
        }
        return Err(protocol_of("No such entry in the archive: ", path));
    }
    proof {
        assert(rv[i as int] == directory.records@[i as int]@);
        assert(first_record(rv, path@, i as int));
        assert forall|k: int| #[trigger] first_record(rv, path@, k) implies k == i by {
            if i < k {
                assert(rv[i as int].path == path@);
            }
        }
        assert(named_record(d0.bytes@, recs[i as int].0, recs[i as int].1) == Ok::<RecordView, Seq<char>>(rv[i as int]));
        lemma_places_grow(d0.bytes@, 0, i as int);
    }
    let named = match normalise_path(renamed) {
        Some(p) => p,
        None => {
            return Ok(false);
        },
    };
    let at: usize = directory.records[i].offset;
    let ghost o = at as int;
    let name = renamed.as_bytes();
    proof {
        assert(has_record(d0.bytes@, o));
        assert(d0.bytes@.len() == directory.bytes.len());
        assert(record_fits(d0.bytes@, o));
    }
    if u32_at(local, 0) != LOCAL_HEADER_SIG as u64 || u16_at(local, 26) != name.len() as u64 || u16_at(
        &directory.bytes,
        at + 28,
    ) != name.len() as u64 {
        return Ok(false);
    }
    let before = match ZipEntry::from_central_directory(&directory.bytes, at, delta) {
        Ok(Some(e)) => e,
        _ => {
            return Ok(false);
        },
    };
    let mut bytes = slice_bytes(&directory.bytes, 0, directory.bytes.len());
    proof {
        assert(bytes@ =~= d0.bytes@);
        lemma_patched_record(d0.bytes@, o + CENTRAL_HEADER_SIZE, name@, o);
    }
    overwrite(&mut bytes, at + CENTRAL_HEADER_SIZE, name);
    let after = match ZipEntry::from_central_directory(&bytes, at, delta) {
        Ok(Some(e)) => e,
        _ => {
            return Ok(false);
        },
    };
    if !same_text(after.path.as_str(), named.as_str()) || !same_but_path(&after, &before) {
        return Ok(false);
    }
    directory.bytes = bytes;
    let offset: usize = directory.records[i].offset;
    let len: usize = directory.records[i].len;
    directory.records[i] = DirectoryRecord { offset, len, path: named };
    proof {
        let b2 = directory.bytes@;
        let v2 = record_views(directory.records@);
        let rec2 = RecordView { path: normalised(renamed@)->Some_0, ..rv[i as int] };
        assert(v2 =~= rv.update(i as int, rec2));
        lemma_patched_places(d0.bytes@, o, name@, 0, i as int);
        lemma_path_stays(b2, o, delta as int);
        assert forall|k: int| 0 <= k < recs.len() implies named_record(b2, (#[trigger] recs[k]).0, recs[k].1) == Ok::<
            RecordView,
            Seq<char>,
        >(v2[k]) by {
            if k != i {
                law_rename_changes_one_record(d0.bytes@, i as int, name@, k, 0);
            }
        }
        lemma_named_from(b2, recs, v2);
    }
    Ok(true)
}

/// Writes `b` over `d[at..]`.
pub fn overwrite(d: &mut Vec<u8>, at: usize, b: &[u8])
    requires
        at + b.len() <= old(d).len(),
    ensures
        final(d)@ == patch(old(d)@, at as int, b@),
{
    let ghost d0 = d@;
    proof {
        assert(patch(d0, at as int, b@.take(0)) =~= d0);
    }
    for i in 0..b.len()
        invariant
            at + b.len() <= d.len(),
            d@.len() == d0.len(),
            d@ == patch(d0, at as int, b@.take(i as int)),
    {
        d[at + i] = b[i];
        proof {
            assert(d@ =~= patch(d0, at as int, b@.take(i as int + 1)));
        }
    }
    proof {
        assert(b@.take(b@.len() as int) =~= b@);
    }
}

} // verus!
