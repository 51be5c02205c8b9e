//! Finding, removing and renaming the children of a directory.
use vstd::prelude::*;
use crate::cryptree::{named_views, NamedRelativeCapability, NamedView};
use crate::error::{fails_protocol, protocol_of, Error, Result};
use crate::files::directory::{chunk_views, dir_entries, has_child, ChunkView, DirChunk, DirEntry, DirEntryView};
use crate::paths::holds_char;
use crate::text::{join3, same_text};

verus! {

/// The place of the first child with this name: the number of children if none has it.
pub open spec fn position(v: Seq<NamedView>, name: Seq<char>) -> nat
    decreases v.len(),
{
    if v.len() == 0 {
        0
    } else if v[0].name == name {
        0
    } else {
        1 + position(v.skip(1), name)
    }
}

/// The first chunk that has a child with this name: the number of chunks if none has.
pub open spec fn chunk_position(v: Seq<ChunkView>, name: Seq<char>) -> nat
    decreases v.len(),
{
    if v.len() == 0 {
        0
    } else if position(v[0].children, name) < v[0].children.len() {
        0
    } else {
        1 + chunk_position(v.skip(1), name)
    }
}

/// A directory has a child with this name.
pub open spec fn has_name(v: Seq<ChunkView>, name: Seq<char>) -> bool {
    chunk_position(v, name) < v.len()
}

proof fn lemma_position(v: Seq<NamedView>, name: Seq<char>)
    ensures
        position(v, name) <= v.len(),
        position(v, name) < v.len() ==> v[position(v, name) as int].name == name,
        forall|i: int| 0 <= i < position(v, name) ==> (#[trigger] v[i]).name != name,
    decreases v.len(),
{
    if v.len() > 0 && v[0].name != name {
        lemma_position(v.skip(1), name);
        assert forall|i: int| 0 <= i < position(v, name) implies (#[trigger] v[i]).name != name by {
            if i > 0 {
                assert(v.skip(1)[i - 1] == v[i]);
            }
        }
    }
}

proof fn lemma_chunk_position(v: Seq<ChunkView>, name: Seq<char>)
    ensures
        chunk_position(v, name) <= v.len(),
        ({
            let k = chunk_position(v, name) as int;
            k < v.len() ==> position(v[k].children, name) < v[k].children.len()
        }),
        forall|i: int|
            0 <= i < chunk_position(v, name) ==> position((#[trigger] v[i]).children, name) == v[i].children.len(),
    decreases v.len(),
{
    if v.len() > 0 {
        lemma_position(v[0].children, name);
        if position(v[0].children, name) == v[0].children.len() {
            lemma_chunk_position(v.skip(1), name);
            assert forall|i: int| 0 <= i < chunk_position(v, name) implies position((#[trigger] v[i]).children, name)
                == v[i].children.len() by {
                if i > 0 {
                    assert(v.skip(1)[i - 1] == v[i]);
                }
            }
        }
    }
}

/// The place of the first child with this name.
fn find_position(v: &Vec<NamedRelativeCapability>, name: &str) -> (r: usize)
    ensures
        r == position(named_views(v@), name@),
        r <= v.len(),
{
    let ghost nv = named_views(v@);
    proof {
        assert(nv.skip(0) =~= nv);
    }
    let mut i: usize = 0;
    while i < v.len()
        invariant
            nv == named_views(v@),
            i <= v.len(),
            position(nv, name@) == i + position(nv.skip(i as int), name@),
        decreases v.len() - i,
    {
        proof {
            assert(nv.skip(i as int)[0] == v[i as int]@);
            assert(nv.skip(i as int).skip(1) =~= nv.skip(i as int + 1));
        }
        if same_text(v[i].name.as_str(), name) {
            return i;
        }
        i += 1;
    }
    proof {
        assert(nv.skip(i as int) =~= Seq::empty());
    }
    i
}

/// The first chunk that has a child with this name, and the place of the child.
fn find_chunk(v: &Vec<DirChunk>, name: &str) -> (r: (usize, usize))
    ensures
        r.0 == chunk_position(chunk_views(v@), name@),
        r.0 <= v.len(),
        r.0 < v.len() ==> r.1 == position(v[r.0 as int]@.children, name@) && r.1 < v[r.0 as int].children.len(),
{
    let ghost cv = chunk_views(v@);
    proof {
        assert(cv.skip(0) =~= cv);
    }
    let mut i: usize = 0;
    while i < v.len()
        invariant
            cv == chunk_views(v@),
            i <= v.len(),
            chunk_position(cv, name@) == i + chunk_position(cv.skip(i as int), name@),
        decreases v.len() - i,
    {
        proof {
            assert(cv.skip(i as int)[0] == v[i as int]@);
            assert(cv.skip(i as int).skip(1) =~= cv.skip(i as int + 1));
            assert(v[i as int]@.children.len() == v[i as int].children.len());
        }
        let at: usize = find_position(&v[i].children, name);
        if at < v[i].children.len() {
            return (i, at);
        }
        i += 1;
    }
    proof {
        assert(cv.skip(i as int) =~= Seq::empty());
    }
    (i, 0)
}

/// The chunks without the first child of this name.
pub open spec fn removed(v: Seq<ChunkView>, name: Seq<char>) -> Seq<ChunkView> {
    let k = chunk_position(v, name) as int;
    let p = position(v[k].children, name) as int;
    v.update(k, ChunkView { children: v[k].children.remove(p), modified: true, ..v[k] })
}

/// The first child of this name.
pub open spec fn child_named(v: Seq<ChunkView>, name: Seq<char>) -> NamedView {
    let k = chunk_position(v, name) as int;
    v[k].children[position(v[k].children, name) as int]
}

/// Takes the first child with this name out of a directory.
pub fn remove_child(chunks: Vec<DirChunk>, name: &str) -> (r: (Vec<DirChunk>, Option<NamedRelativeCapability>))
    ensures
        !has_name(chunk_views(chunks@), name@) ==> r.0 == chunks && r.1 is None,
        has_name(chunk_views(chunks@), name@) ==> chunk_views(r.0@) == removed(chunk_views(chunks@), name@)
            && r.1 is Some && r.1->Some_0@ == child_named(chunk_views(chunks@), name@),
{
    let ghost cv = chunk_views(chunks@);
    let (k, at) = find_chunk(&chunks, name);
    if k == chunks.len() {
        return (chunks, None);
    }
    let mut out = chunks;
    let c = out.remove(k);
    let DirChunk { map_key, bat, children, next_map_key, next_bat, is_new, modified } = c;
    let ghost before = named_views(children@);
    let mut rest = children;
    let gone = rest.remove(at);
    proof {
        assert(named_views(rest@) =~= before.remove(at as int));
        assert(cv[k as int].children == before);
        assert(before[at as int] == gone@);
    }
    let d = DirChunk { map_key, bat, children: rest, next_map_key, next_bat, is_new, modified: true };
    let ghost dv = d@;
    out.insert(k, d);
    proof {
        assert(chunk_views(out@) =~= cv.update(k as int, dv));
    }
    (out, Some(gone))
}

/// [`remove_child`], where the child has to be there.
pub fn delete_link(chunks: Vec<DirChunk>, name: &str) -> (r: Result<(Vec<DirChunk>, NamedRelativeCapability)>)
    ensures
        !has_name(chunk_views(chunks@), name@) ==> fails_protocol(r, "no such child: "@ + name@),
        has_name(chunk_views(chunks@), name@) ==> r is Ok && chunk_views(r->Ok_0.0@) == removed(
            chunk_views(chunks@),
            name@,
        ) && r->Ok_0.1@ == child_named(chunk_views(chunks@), name@),
{
    match remove_child(chunks, name) {
        (out, Some(c)) => Ok((out, c)),
        (_, None) => Err(protocol_of("no such child: ", name)),
    }
}

/// After a removal the directory has the same children, but for the one that was
/// taken out.
pub proof fn law_removed_children(v: Seq<ChunkView>, name: Seq<char>, c: NamedView)
    requires
        has_name(v, name),
    ensures
        has_child(v, c) && c.name != name ==> has_child(removed(v, name), c),
        has_child(removed(v, name), c) ==> has_child(v, c),
        child_named(v, name).name == name,
        has_child(v, child_named(v, name)),
{
    lemma_chunk_position(v, name);
    let k = chunk_position(v, name) as int;
    let p = position(v[k].children, name) as int;
    lemma_position(v[k].children, name);
    let w = removed(v, name);
    assert(v[k].children.contains(child_named(v, name)));
    if has_child(v, c) && c.name != name {
        let i = choose|i: int| 0 <= i < v.len() && (#[trigger] v[i]).children.contains(c);
        let j = choose|j: int| 0 <= j < v[i].children.len() && v[i].children[j] == c;
        if i == k {
            let a = if j < p { j } else { j - 1 };
            assert(w[i].children[a] == c);
        }
        assert(w[i].children.contains(c));
    }
    if has_child(w, c) {
        let i = choose|i: int| 0 <= i < w.len() && (#[trigger] w[i]).children.contains(c);
        let j = choose|j: int| 0 <= j < w[i].children.len() && w[i].children[j] == c;
        if i == k {
            let a = if j < p { j } else { j + 1 };
            assert(v[i].children[a] == c);
        }
        assert(v[i].children.contains(c));
    }
}

/// The chunks with the first child of this name under another name.
pub open spec fn renamed(v: Seq<ChunkView>, old: Seq<char>, new: Seq<char>) -> Seq<ChunkView> {
    let k = chunk_position(v, old) as int;
    let p = position(v[k].children, old) as int;
    let c = v[k].children[p];
    v.update(
        k,
        ChunkView { children: v[k].children.update(p, NamedView { name: new, ..c }), modified: true, ..v[k] },
    )
}

/// Why a child cannot be renamed, if it cannot.
pub open spec fn rename_refusal(v: Seq<ChunkView>, old: Seq<char>, new: Seq<char>) -> Option<Seq<char>> {
    if new.len() == 0 || new.contains('/') {
        Some("illegal file name: "@ + new)
    } else if has_name(v, new) {
        Some("cannot rename: '"@ + new + "' already exists"@)
    } else if !has_name(v, old) {
        Some("no such child: "@ + old)
    } else {
        None
    }
}

/// Refuses a name that no child can have.
pub fn check_name(name: &str) -> (r: Result<()>)
    ensures
        name@.len() == 0 || name@.contains('/') ==> fails_protocol(r, "illegal file name: "@ + name@),
        !(name@.len() == 0 || name@.contains('/')) ==> r is Ok,
{
    if name.is_empty() || holds_char(name, '/') {
        return Err(protocol_of("illegal file name: ", name));
    }
    Ok(())
}

/// Renames the link of a child. Gives back the chunks, and which one holds it.
pub fn rename_link(chunks: Vec<DirChunk>, old_name: &str, new_name: &str) -> (r: Result<(Vec<DirChunk>, usize)>)
    ensures
        rename_refusal(chunk_views(chunks@), old_name@, new_name@) matches Some(m) ==> fails_protocol(r, m),
        rename_refusal(chunk_views(chunks@), old_name@, new_name@) is None ==> r is Ok && chunk_views(r->Ok_0.0@)
            == renamed(chunk_views(chunks@), old_name@, new_name@) && r->Ok_0.1 == chunk_position(
            chunk_views(chunks@),
            old_name@,
        ),
{
    match check_name(new_name) {
        Ok(()) => {},
        Err(e) => {
            return Err(e);
        },
    }
    let ghost cv = chunk_views(chunks@);
    let (taken, _) = find_chunk(&chunks, new_name);
    if taken < chunks.len() {
        return Err(Error::Protocol(join3("cannot rename: '", new_name, "' already exists")));
    }
    let (k, at) = find_chunk(&chunks, old_name);
    if k == chunks.len() {
        return Err(protocol_of("no such child: ", old_name));
    }
    let mut out = chunks;
    let c = out.remove(k);
    let DirChunk { map_key, bat, children, next_map_key, next_bat, is_new, modified } = c;
    let ghost before = named_views(children@);
    let mut all = children;
    let child = all.remove(at);
    proof {
        assert(cv[k as int].children == before);
        assert(before[at as int] == child@);
    }
    let moved = NamedRelativeCapability {
        name: new_name.to_owned(),
        cap: child.cap,
        is_dir: child.is_dir,
        mime_type: child.mime_type,
        created_epoch: child.created_epoch,
    };
    let ghost mv = moved@;
    all.insert(at, moved);
    proof {
        assert(named_views(all@) =~= before.update(at as int, mv));
    }
    let d = DirChunk { map_key, bat, children: all, next_map_key, next_bat, is_new, modified: true };
    let ghost dv = d@;
    out.insert(k, d);
    proof {
        assert(chunk_views(out@) =~= cv.update(k as int, dv));
    }
    Ok((out, k))
}

/// A rename changes the name of one child and nothing else: no other child, and
/// neither the capability nor the type of that one.
pub proof fn law_renamed_children(v: Seq<ChunkView>, old: Seq<char>, new: Seq<char>, c: NamedView)
    requires
        rename_refusal(v, old, new) is None,
    ensures
        has_child(renamed(v, old, new), NamedView { name: new, ..child_named(v, old) }),
        has_child(v, c) && c.name != old ==> has_child(renamed(v, old, new), c),
        has_child(renamed(v, old, new), c) ==> has_child(v, c) || c == (NamedView { name: new, ..child_named(v, old) }),
{
    lemma_chunk_position(v, old);
    let k = chunk_position(v, old) as int;
    let p = position(v[k].children, old) as int;
    lemma_position(v[k].children, old);
    let w = renamed(v, old, new);
    let m = NamedView { name: new, ..child_named(v, old) };
    assert(w[k].children[p] == m);
    assert(w[k].children.contains(m));
    if has_child(v, c) && c.name != old {
        let i = choose|i: int| 0 <= i < v.len() && (#[trigger] v[i]).children.contains(c);
        let j = choose|j: int| 0 <= j < v[i].children.len() && v[i].children[j] == c;
        assert(w[i].children[j] == c);
        assert(w[i].children.contains(c));
    }
    if has_child(w, c) {
        let i = choose|i: int| 0 <= i < w.len() && (#[trigger] w[i]).children.contains(c);
        let j = choose|j: int| 0 <= j < w[i].children.len() && w[i].children[j] == c;
        if !(i == k && j == p) {
            assert(v[i].children[j] == c);
            assert(v[i].children.contains(c));
        }
    }
}

/// The first entry with this name: the number of entries if none has it.
pub open spec fn entry_position(v: Seq<DirEntryView>, name: Seq<char>) -> nat
    decreases v.len(),
{
    if v.len() == 0 {
        0
    } else if v[0].name == name {
        0
    } else {
        1 + entry_position(v.skip(1), name)
    }
}

/// The place of the first entry with this name.
pub fn find_entry(v: &Vec<DirEntry>, name: &str) -> (r: Option<usize>)
    ensures
        r is None <==> entry_position(dir_entries(v@), name@) == v@.len(),
        r is Some ==> r->Some_0 == entry_position(dir_entries(v@), name@) && r->Some_0 < v@.len()
            && v@[r->Some_0 as int]@.name == name@,
{
    let ghost ev = dir_entries(v@);
    proof {
        assert(ev.skip(0) =~= ev);
    }
    let mut i: usize = 0;
    while i < v.len()
        invariant
            ev == dir_entries(v@),
            i <= v.len(),
            entry_position(ev, name@) == i + entry_position(ev.skip(i as int), name@),
        decreases v.len() - i,
    {
        proof {
            assert(ev.skip(i as int)[0] == v[i as int]@);
            assert(ev.skip(i as int).skip(1) =~= ev.skip(i as int + 1));
        }
        if same_text(v[i].name.as_str(), name) {
            return Some(i);
        }
        i += 1;
    }
    proof {
        assert(ev.skip(i as int) =~= Seq::empty());
    }
    None
}

/// The first entry with this name, which has to be there.
pub fn take_entry(v: Vec<DirEntry>, name: &str) -> (r: Result<DirEntry>)
    ensures
        ({
            let p = entry_position(dir_entries(v@), name@) as int;
            if p == v@.len() {
                fails_protocol(r, "no such child: "@ + name@)
            } else {
                r == Ok::<DirEntry, Error>(v@[p])
            }
        }),
{
    match find_entry(&v, name) {
        None => Err(protocol_of("no such child: ", name)),
        Some(i) => {
            let mut all = v;
            Ok(all.remove(i))
        },
    }
}

/// The target of a link node: its only child.
pub fn link_target(v: Vec<DirEntry>) -> (r: Result<DirEntry>)
    ensures
        v@.len() == 0 ==> fails_protocol(r, "link node has no target"@),
        v@.len() > 0 ==> r == Ok::<DirEntry, Error>(v@[0]),
{
    if v.len() == 0 {
        return Err(crate::error::protocol("link node has no target"));
    }
    let mut all = v;
    Ok(all.remove(0))
}

/// Why a child is not renamed: its new name is empty or holds a slash, the new name is taken, or
/// there is no such child. In every other case it is.
pub proof fn law_rename_refusals(v: Seq<ChunkView>, old: Seq<char>, new: Seq<char>)
    ensures
        new.len() == 0 || new.contains('/') <==> rename_refusal(v, old, new) == Some("illegal file name: "@ + new),
        new.len() > 0 && !new.contains('/') && has_name(v, new) ==> rename_refusal(v, old, new) == Some(
            "cannot rename: '"@ + new + "' already exists"@,
        ),
        new.len() > 0 && !new.contains('/') && !has_name(v, new) && !has_name(v, old) ==> rename_refusal(v, old, new)
            == Some("no such child: "@ + old),
        new.len() > 0 && !new.contains('/') && !has_name(v, new) && has_name(v, old) ==> rename_refusal(v, old, new) is None,
{
    reveal_strlit("illegal file name: ");
    reveal_strlit("cannot rename: '");
    reveal_strlit("no such child: ");
    let text = "illegal file name: "@ + new;
    assert(text[0] == 'i');
    assert(("cannot rename: '"@ + new + "' already exists"@)[0] == 'c');
    assert(("no such child: "@ + old)[0] == 'n');
}

/// Where a child with a name is: the first of that name in the first chunk that has one.
pub proof fn law_positions(v: Seq<NamedView>, name: Seq<char>, k: int)
    ensures
        position(v, name) <= v.len(),
        0 <= k < position(v, name) ==> v[k].name != name,
        position(v, name) < v.len() ==> v[position(v, name) as int].name == name,
    decreases v.len(),
{
    if v.len() > 0 && v[0].name != name {
        law_positions(v.skip(1), name, k - 1);
        if 0 < k < position(v, name) {
            assert(v[k] == v.skip(1)[k - 1]);
        }
    }
}

/// The entry with a name is the first one that has it.
pub proof fn law_entry_positions(v: Seq<DirEntryView>, name: Seq<char>, k: int)
    ensures
        entry_position(v, name) <= v.len(),
        0 <= k < entry_position(v, name) ==> v[k].name != name,
        entry_position(v, name) < v.len() ==> v[entry_position(v, name) as int].name == name,
    decreases v.len(),
{
    if v.len() > 0 && v[0].name != name {
        law_entry_positions(v.skip(1), name, k - 1);
        if 0 < k < entry_position(v, name) {
            assert(v[k] == v.skip(1)[k - 1]);
        }
    }
}

/// A removal or a rename marks the one chunk that it changes, so that this one is written again and
/// no other is.
pub proof fn law_changed_chunk_is_marked(v: Seq<ChunkView>, name: Seq<char>, new: Seq<char>, i: int)
    requires
        has_name(v, name),
        0 <= i < v.len(),
    ensures
        removed(v, name).len() == v.len(),
        renamed(v, name, new).len() == v.len(),
        removed(v, name)[i] == v[i] || removed(v, name)[i].modified,
        renamed(v, name, new)[i] == v[i] || renamed(v, name, new)[i].modified,
        removed(v, name)[chunk_position(v, name) as int].children.len() + 1 == v[chunk_position(v, name) as int].children.len(),
        removed(v, name)[i] == (ChunkView {
            children: removed(v, name)[i].children,
            modified: removed(v, name)[i].modified,
            ..v[i]
        }),
        renamed(v, name, new)[i] == (ChunkView {
            children: renamed(v, name, new)[i].children,
            modified: renamed(v, name, new)[i].modified,
            ..v[i]
        }),
{
    lemma_chunk_position(v, name);
}

} // verus!
