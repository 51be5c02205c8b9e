//! What a change of an archive does, told by its entries.
use vstd::prelude::*;
use vstd::utf8::*;
use crate::archive::changes::{
    can_patch, covered, covered_by, entries_below, has_file, is_entry_name, move_outcome, moved_entries, moved_path, moves,
    sibling_path, standing, stays_in, MovePlan,
};
use crate::archive::entry::{record_entry, EntryView};
use crate::archive::fields::{field16, field32, patch};
use crate::archive::index::Tree;
use crate::archive::layout::packed;
use crate::archive::names::normalised;
use crate::archive::reader::{drained, inflate_reply, inflated, is_start, left, StreamStatus, INFLATE_ROOM};
use crate::archive::tail::{named_records, path_set, record_bytes, without, RecordView};
use crate::bytes::le_bytes;
use crate::error::Result;
use crate::paths::{has_prefix, law_name_and_parent, name_of, parent_of};

verus! {

/// What is below a directory are the entries whose path starts with its own and a slash, in their
/// order.
pub proof fn law_entries_below(v: Seq<EntryView>, dir: Seq<char>)
    ensures
        entries_below(v, dir) == v.filter(|e: EntryView| has_prefix(e.path, dir + "/"@)),
    decreases v.len(),
{
    reveal(Seq::filter);
    if v.len() > 0 {
        law_entries_below(v.drop_last(), dir);
    }
}

/// What a path covers: a file itself, a directory itself and all that is below it, and nothing where
/// the archive has no such entry.
pub proof fn law_what_a_path_covers(all: Seq<EntryView>, m: Tree, path: Seq<char>, e: EntryView)
    ensures
        normalised(path) is None ==> covered_by(all, m, path).len() == 0,
        normalised(path) matches Some(p) ==> !m.contains_key(p) ==> covered_by(all, m, path).len() == 0,
        normalised(path) matches Some(p) ==> m.contains_key(p) ==> !m[p].is_directory ==> covered_by(all, m, path)
            == seq![m[p]],
        normalised(path) matches Some(p) ==> m.contains_key(p) ==> m[p].is_directory ==> (covered_by(all, m, path).contains(
            e,
        ) <==> e == m[p] || (all.contains(e) && has_prefix(e.path, m[p].path + "/"@))),
{
    if let Some(p) = normalised(path) {
        if m.contains_key(p) && m[p].is_directory {
            let below = entries_below(all, m[p].path);
            let c = covered_by(all, m, path);
            lemma_is_below(all, m[p].path, e);
            assert(c == below.push(m[p]));
            assert(c[c.len() - 1] == m[p]);
            if below.contains(e) {
                let k = choose|k: int| 0 <= k < below.len() && below[k] == e;
                assert(c[k] == e);
            }
            if c.contains(e) && e != m[p] {
                let k = choose|k: int| 0 <= k < c.len() && c[k] == e;
                assert(below[k] == e);
            }
        }
    }
}

proof fn lemma_is_below(v: Seq<EntryView>, dir: Seq<char>, e: EntryView)
    ensures
        entries_below(v, dir).contains(e) <==> v.contains(e) && has_prefix(e.path, dir + "/"@),
    decreases v.len(),
{
    if v.len() > 0 {
        let init = v.drop_last();
        let a = entries_below(init, dir);
        let b = entries_below(v, dir);
        lemma_is_below(init, dir, e);
        if a.contains(e) {
            let k = choose|k: int| 0 <= k < a.len() && a[k] == e;
            assert(b[k] == e);
            let i = choose|i: int| 0 <= i < init.len() && init[i] == e;
            assert(v[i] == e);
        }
        if v.contains(e) {
            let i = choose|i: int| 0 <= i < v.len() && v[i] == e;
            if i < init.len() {
                assert(init[i] == e);
            } else if has_prefix(e.path, dir + "/"@) {
                assert(b[b.len() - 1] == e);
            }
        }
        if b.contains(e) && !a.contains(e) {
            let k = choose|k: int| 0 <= k < b.len() && b[k] == e;
            if k < a.len() {
                assert(a[k] == e);
            }
            assert(v[v.len() - 1] == e);
        }
    }
}

/// What paths cover together is what each of them covers.
pub proof fn law_what_paths_cover(all: Seq<EntryView>, m: Tree, paths: Seq<Seq<char>>, e: EntryView)
    ensures
        covered(all, m, paths).contains(e) <==> exists|i: int|
            0 <= i < paths.len() && covered_by(all, m, #[trigger] paths[i]).contains(e),
    decreases paths.len(),
{
    if paths.len() > 0 {
        let init = paths.drop_last();
        let a = covered(all, m, init);
        let b = covered_by(all, m, paths.last());
        law_what_paths_cover(all, m, init, e);
        assert((a + b).contains(e) <==> a.contains(e) || b.contains(e)) by {
            if a.contains(e) {
                let k = choose|k: int| 0 <= k < a.len() && a[k] == e;
                assert((a + b)[k] == e);
            }
            if b.contains(e) {
                let k = choose|k: int| 0 <= k < b.len() && b[k] == e;
                assert((a + b)[a.len() + k] == e);
            }
        }
        if exists|i: int| 0 <= i < paths.len() && covered_by(all, m, #[trigger] paths[i]).contains(e) {
            let i = choose|i: int| 0 <= i < paths.len() && covered_by(all, m, #[trigger] paths[i]).contains(e);
            if i < init.len() {
                assert(init[i] == paths[i]);
            }
        }
        if a.contains(e) {
            let i = choose|i: int| 0 <= i < init.len() && covered_by(all, m, #[trigger] init[i]).contains(e);
            assert(paths[i] == init[i]);
        }
        if b.contains(e) {
            assert(paths[paths.len() - 1] == paths.last());
        }
    }
}

/// An entry that is given another name stays in its directory and has that name.
pub proof fn law_sibling_path(parent: Seq<char>, name: Seq<char>)
    requires
        is_entry_name(name),
    ensures
        parent_of(sibling_path(parent, name)) == parent,
        name_of(sibling_path(parent, name)) == name,
{
    law_name_and_parent(parent, name);
    if parent.len() == 0 {
        assert(parent_of(name) =~= parent);
    }
}

/// Which names an entry can be given: any but an empty one, one with a slash, and one or two dots.
pub proof fn law_entry_names(name: Seq<char>)
    ensures
        is_entry_name(name) <==> name.len() > 0 && (forall|i: int| 0 <= i < name.len() ==> name[i] != '/') && name != seq!['.']
            && name != seq!['.', '.'],
{
    reveal_strlit(".");
    reveal_strlit("..");
    assert("."@ =~= seq!['.']);
    assert(".."@ =~= seq!['.', '.']);
    assert(name.contains('/') <==> exists|i: int| 0 <= i < name.len() && name[i] == '/');
}

/// Every entry of a directory that moves goes with it, to the same place below its new path, and to
/// none of the old places.
pub proof fn law_everything_moves(old: Seq<Seq<char>>, v: Seq<EntryView>, dir: Seq<char>, renamed: Seq<char>, i: int)
    requires
        0 <= i < v.len(),
    ensures
        moved_entries(old, v, dir, renamed) matches Ok(l) ==> l.len() == v.len() && l[i].0 == v[i] && normalised(
            moved_path(v[i].path, dir, renamed),
        ) == Some(l[i].1) && !old.contains(l[i].1),
        normalised(moved_path(v[i].path, dir, renamed)) is None ==> moved_entries(old, v, dir, renamed) is Err,
        normalised(moved_path(v[i].path, dir, renamed)) matches Some(p) ==> old.contains(p) ==> moved_entries(
            old,
            v,
            dir,
            renamed,
        ) is Err,
    decreases v.len(),
{
    let init = v.drop_last();
    if i < init.len() {
        law_everything_moves(old, init, dir, renamed, i);
        assert(init[i] == v[i]);
    }
    if moved_entries(old, init, dir, renamed) is Ok {
        lemma_moved_len(old, init, dir, renamed);
    }
}

proof fn lemma_moved_len(old: Seq<Seq<char>>, v: Seq<EntryView>, dir: Seq<char>, renamed: Seq<char>)
    ensures
        moved_entries(old, v, dir, renamed) matches Ok(l) ==> l.len() == v.len(),
    decreases v.len(),
{
    if v.len() > 0 {
        lemma_moved_len(old, v.drop_last(), dir, renamed);
    }
}

/// When an entry can be moved, and how: only what is there, only to where nothing is. A file whose
/// name keeps its length in bytes is renamed in place, any other is written again, and a directory
/// is written again with what is below it.
pub proof fn law_moves(all: Seq<EntryView>, m: Tree, path: Seq<char>, new_path: Seq<char>, r: Result<MovePlan>)
    requires
        move_outcome(all, m, path, new_path, r),
    ensures
        normalised(new_path) is None ==> r is Err,
        normalised(new_path) matches Some(to) ==> to.len() == 0 ==> r is Err,
        normalised(path) is None ==> r is Err,
        normalised(path) matches Some(from) ==> !m.contains_key(from) ==> r is Err,
        r is Ok ==> !(normalised(normalised(new_path)->Some_0) matches Some(p) && m.contains_key(p)),
        r is Ok ==> ({
            let e = m[normalised(path)->Some_0];
            let to = normalised(new_path)->Some_0;
            let keeps = !e.is_directory && encode_utf8(e.path).len() == encode_utf8(to).len() && e.local_header_offset >= 0;
            &&& keeps ==> (r matches Ok(MovePlan::InPlace(entry, name)) && entry@ == e && name@ == to)
            &&& !keeps ==> r->Ok_0 is Rewrite
            &&& !keeps && !e.is_directory ==> r->Ok_0->Rewrite_1@.len() == 1 && r->Ok_0->Rewrite_1@[0]@ == e.path && moves(
                r->Ok_0->Rewrite_0@,
            ) == seq![(e, normalised(to)->Some_0)]
            &&& e.is_directory ==> has_file(entries_below(all, e.path)) && r->Ok_0->Rewrite_0@.len() == standing(
                entries_below(all, e.path),
            ).len() && r->Ok_0->Rewrite_1@.len() == entries_below(all, e.path).len() + 1
        }),
{
    if r is Ok {
        let e = m[normalised(path)->Some_0];
        let to = normalised(new_path)->Some_0;
        let below = entries_below(all, e.path);
        if e.is_directory {
            let old = crate::archive::changes::paths_of(below).push(e.path);
            lemma_moved_len(old, standing(below), e.path, to);
            let plan = r->Ok_0;
            assert(moves(plan->Rewrite_0@).len() == plan->Rewrite_0@.len());
            assert(crate::paths::texts(plan->Rewrite_1@).len() == plan->Rewrite_1@.len());
        } else if r->Ok_0 is Rewrite {
            let plan = r->Ok_0;
            assert(crate::paths::texts(plan->Rewrite_1@).len() == plan->Rewrite_1@.len());
            assert(crate::paths::texts(plan->Rewrite_1@)[0] == plan->Rewrite_1@[0]@);
        }
    }
}

/// The records that stay are those whose path does not go, in their order.
pub proof fn law_records_that_stay(v: Seq<RecordView>, gone: Seq<Seq<char>>)
    ensures
        without(v, path_set(gone)) == v.filter(|r: RecordView| !gone.contains(r.path)),
    decreases v.len(),
{
    reveal(Seq::filter);
    if v.len() > 0 {
        law_records_that_stay(v.drop_last(), gone);
    }
}

/// Records are copied as they are, one behind the other.
pub proof fn law_copied_records(bytes: Seq<u8>, kept: Seq<RecordView>, r: RecordView)
    ensures
        record_bytes(bytes, Seq::empty()).len() == 0,
        record_bytes(bytes, kept.push(r)) == record_bytes(bytes, kept) + bytes.subrange(r.offset, r.offset + r.len),
{
    assert(kept.push(r).drop_last() =~= kept);
}

/// What is written over a place stands there, and all else stays.
pub proof fn law_patch(d: Seq<u8>, i: int, b: Seq<u8>, k: int)
    requires
        0 <= i,
        i + b.len() <= d.len(),
    ensures
        patch(d, i, b).len() == d.len(),
        patch(d, i, b).subrange(i, i + b.len()) == b,
        0 <= k < i || i + b.len() <= k < d.len() ==> patch(d, i, b)[k] == d[k],
{
    assert(patch(d, i, b).subrange(i, i + b.len()) =~= b);
}

/// Fields are written one behind the other, each in its own width and its lowest byte first.
pub proof fn law_packed(a: Seq<(nat, nat)>, b: Seq<(nat, nat)>, n: nat, w: nat)
    ensures
        packed(seq![(n, w)]) == le_bytes(n, w),
        packed(a + b) == packed(a) + packed(b),
    decreases b.len(),
{
    reveal_with_fuel(packed, 2);
    assert(seq![(n, w)].drop_last() =~= Seq::empty());
    assert(Seq::<u8>::empty() + le_bytes(n, w) =~= le_bytes(n, w));
    if b.len() == 0 {
        assert(a + b =~= a);
        assert(packed(a) + packed(b) =~= packed(a));
    } else {
        law_packed(a, b.drop_last(), n, w);
        assert((a + b).drop_last() =~= a + b.drop_last());
        assert(packed(a + b) =~= packed(a) + packed(b));
    }
}

/// Whether a path is in a directory.
pub proof fn law_stays_in(parent: Seq<char>, target: Seq<char>)
    ensures
        normalised(target) matches Some(p) ==> p.len() > 0 ==> (stays_in(target, parent) <==> parent_of(p) == parent),
{
}

/// The records of a directory are kept with where they stand, how long they are and the path of
/// their entry; one that has no entry is kept with no path.
pub proof fn law_named_records(cd: Seq<u8>, recs: Seq<(int, int)>, i: int)
    requires
        0 <= i < recs.len(),
    ensures
        named_records(cd, recs) matches Ok(v) ==> {
            &&& v.len() == recs.len()
            &&& v[i].offset == recs[i].0
            &&& v[i].len == recs[i].1
            &&& record_entry(cd, recs[i].0, 0) matches Ok(Some(e)) ==> v[i].path == e.path
            &&& record_entry(cd, recs[i].0, 0) == Ok::<Option<EntryView>, Seq<char>>(None) ==> v[i].path.len() == 0
        },
        record_entry(cd, recs[i].0, 0) is Err ==> named_records(cd, recs) is Err,
    decreases recs.len(),
{
    let init = recs.drop_last();
    lemma_named_len(cd, init);
    if i < init.len() {
        law_named_records(cd, init, i);
        assert(init[i] == recs[i]);
    }
}

proof fn lemma_named_len(cd: Seq<u8>, recs: Seq<(int, int)>)
    ensures
        named_records(cd, recs) matches Ok(v) ==> v.len() == recs.len(),
    decreases recs.len(),
{
    if recs.len() > 0 {
        lemma_named_len(cd, recs.drop_last());
    }
}

/// A name can be written over in place only where the old one is as long in bytes, both before the
/// data and in the directory, and nothing but the path of the entry changes by it.
pub proof fn law_patched_name(bytes: Seq<u8>, o: int, delta: int, local: Seq<u8>, renamed: Seq<char>)
    requires
        can_patch(bytes, o, delta, local, renamed),
    ensures
        field32(local, 0) == 0x0403_4b50,
        field16(local, 26) == encode_utf8(renamed).len(),
        field16(bytes, o + 28) == encode_utf8(renamed).len(),
        record_entry(bytes, o, delta) matches Ok(Some(e)) && record_entry(patch(bytes, o + 46, encode_utf8(renamed)), o, delta)
            == Ok::<Option<EntryView>, Seq<char>>(Some(EntryView { path: normalised(renamed)->Some_0, ..e })),
{
}

/// What is read of an entry never has more bytes than it is said to have.
pub proof fn law_reading_stops_at_the_size(
    calls: Seq<(Seq<u8>, nat, bool)>,
    input: Seq<u8>,
    taken: nat,
    passed: Seq<u8>,
    size: nat,
)
    requires
        passed.len() <= size,
    ensures
        inflated(calls, input, taken, passed, size).1.len() <= size,
        drained(calls, passed, size).1.len() <= size,
        is_start(passed, inflated(calls, input, taken, passed, size).1),
        is_start(passed, drained(calls, passed, size).1),
{
    lemma_inflated_stops(calls, input, taken, passed, size);
    lemma_drained_stops(calls, passed, size);
}

proof fn lemma_start_of_start(a: Seq<u8>, b: Seq<u8>, c: Seq<u8>)
    requires
        is_start(a + b, c),
    ensures
        is_start(a, c),
{
    assert((a + b).take(a.len() as int) =~= a);
    assert(c.take(a.len() as int) =~= c.take((a + b).len() as int).take(a.len() as int));
}

proof fn lemma_inflated_stops(
    calls: Seq<(Seq<u8>, nat, bool)>,
    input: Seq<u8>,
    taken: nat,
    passed: Seq<u8>,
    size: nat,
)
    requires
        passed.len() <= size,
    ensures
        inflated(calls, input, taken, passed, size).1.len() <= size,
        is_start(passed, inflated(calls, input, taken, passed, size).1),
    decreases left(input.len(), taken) + left(size, passed.len()),
{
    assert(passed.take(passed.len() as int) =~= passed);
    if taken < input.len() {
        let next = calls.push((input.skip(taken as int), INFLATE_ROOM as nat, false));
        let r = inflate_reply(next);
        assert((passed + r.made).take(passed.len() as int) =~= passed);
        if r.status is Some && passed.len() + r.made.len() <= size && r.status != Some(StreamStatus::StreamEnd) && !(
        r.made.len() == 0 && r.taken == 0) {
            lemma_inflated_stops(next, input, taken + r.taken, passed + r.made, size);
            lemma_start_of_start(
                passed,
                r.made,
                inflated(next, input, taken + r.taken, passed + r.made, size).1,
            );
        }
    }
}

proof fn lemma_drained_stops(calls: Seq<(Seq<u8>, nat, bool)>, passed: Seq<u8>, size: nat)
    requires
        passed.len() <= size,
    ensures
        drained(calls, passed, size).1.len() <= size,
        is_start(passed, drained(calls, passed, size).1),
    decreases left(size, passed.len()),
{
    assert(passed.take(passed.len() as int) =~= passed);
    let next = calls.push((Seq::empty(), INFLATE_ROOM as nat, true));
    let r = inflate_reply(next);
    assert((passed + r.made).take(passed.len() as int) =~= passed);
    if r.status is Some && passed.len() + r.made.len() <= size && !(r.made.len() == 0 || r.status == Some(
        StreamStatus::StreamEnd,
    )) {
        lemma_drained_stops(next, passed + r.made, size);
        lemma_start_of_start(passed, r.made, drained(next, passed + r.made, size).1);
    }
}

} // verus!
