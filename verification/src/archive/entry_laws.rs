//! What an archive lists, told from its bytes.
use vstd::prelude::*;
use vstd::utf8::*;
use crate::archive::changes::{carries, entries_of, erased_range, moved_path, standing};
use crate::archive::directory::{
    described, directory_before, directory_refusal, end_record_at, has_record, is_end_record, is_exact_end_record, located,
    record_len, records_from, tail_of, Directory, Located,
};
use crate::archive::dos_time::dos_millis;
use crate::archive::entry::{
    crc32, crc_bit, crc_remainder, encrypted_flags, extra_field, extra_fields, record_entry, utf8_flags, wrapped, EntryView,
    Extras, ZipEntry,
};
use crate::archive::fields::{field16, field32, field64};
use crate::archive::index::{
    archive_tree, has_directory, has_path, leads_to, lemma_leads_on, lemma_parent_leads, lemma_parent_shorter, lemma_recorded_keys,
    lists, lists_directory, lowercase, names_directory, recorded, recorded_order, sibling_key, sizes, with_directories, with_parents,
    with_record, Tree,
};
use crate::archive::names::{name_text, normalised};
use crate::archive::reader::unreadable;
use crate::archive::tail::stored_offset;
use crate::archive::writer::{recorded_name, NewEntry};
use crate::bytes::le_value;
use crate::paths::{has_prefix, law_name_and_parent, name_of, parent_of};
use crate::text::{bytes_before, decimal};

verus! {

/// Where the extra fields at `i..end` of a record start: each has a head of four bytes, the last
/// two of which say how long it is.
pub open spec fn extra_places(d: Seq<u8>, i: int, end: int) -> Seq<int>
    decreases end - i,
{
    if i + 4 > end || i + 4 + field16(d, i + 2) > end {
        Seq::empty()
    } else {
        seq![i] + extra_places(d, i + 4 + field16(d, i + 2), end)
    }
}

/// The extra field at `i` is an extended timestamp that holds the time of the last change.
pub open spec fn is_timestamp(d: Seq<u8>, i: int) -> bool {
    field16(d, i) == 0x5455 && field16(d, i + 2) >= 5 && d[i + 4] % 2 == 1
}

/// The signed number of 32 bits at `i`, byte by byte.
pub open spec fn seconds_at(d: Seq<u8>, i: int) -> int {
    let n = d[i] + 0x100 * d[i + 1] + 0x1_0000 * d[i + 2] + 0x100_0000 * d[i + 3];
    if d[i + 3] < 0x80 {
        n
    } else {
        n - 0x1_0000_0000
    }
}

proof fn lemma_field32(d: Seq<u8>, i: int)
    requires
        0 <= i,
        i + 4 <= d.len(),
    ensures
        field32(d, i) == d[i] + 0x100 * d[i + 1] + 0x1_0000 * d[i + 2] + 0x100_0000 * d[i + 3],
{
    reveal_with_fuel(le_value, 5);
    let s = d.subrange(i, i + 4);
    assert(s.skip(1) =~= d.subrange(i + 1, i + 4));
    assert(s.skip(1).skip(1) =~= d.subrange(i + 2, i + 4));
    assert(s.skip(1).skip(1).skip(1) =~= d.subrange(i + 3, i + 4));
    assert(s.skip(1).skip(1).skip(1).skip(1) =~= Seq::empty());
}

proof fn lemma_unstamped(d: Seq<u8>, i: int, end: int, raw: Seq<u8>, utf8: bool, x: Extras)
    requires
        extra_fields(d, i, end, raw, utf8, x) is Ok,
        forall|j: int|
            0 <= j < extra_places(d, i, end).len() ==> !is_timestamp(d, #[trigger] extra_places(d, i, end)[j]),
    ensures
        extra_fields(d, i, end, raw, utf8, x)->Ok_0.millis == x.millis,
    decreases end - i,
{
    if !(i + 4 > end || i + 4 + field16(d, i + 2) > end) {
        let next = i + 4 + field16(d, i + 2);
        let all = extra_places(d, i, end);
        let rest = extra_places(d, next, end);
        let y = extra_field(d, field16(d, i), i + 4, next, raw, utf8, x)->Ok_0;
        assert(!is_timestamp(d, all[0]));
        assert(y.millis == x.millis);
        assert forall|j: int| 0 <= j < rest.len() implies !is_timestamp(d, #[trigger] rest[j]) by {
            assert(all[j + 1] == rest[j]);
        }
        lemma_unstamped(d, next, end, raw, utf8, y);
    }
}

proof fn lemma_stamped(d: Seq<u8>, i: int, end: int, raw: Seq<u8>, utf8: bool, x: Extras, k: int)
    requires
        0 <= i,
        end <= d.len(),
        extra_fields(d, i, end, raw, utf8, x) is Ok,
        0 <= k < extra_places(d, i, end).len(),
        is_timestamp(d, extra_places(d, i, end)[k]),
        forall|j: int|
            k < j < extra_places(d, i, end).len() ==> !is_timestamp(d, #[trigger] extra_places(d, i, end)[j]),
    ensures
        extra_fields(d, i, end, raw, utf8, x)->Ok_0.millis == 1000 * seconds_at(d, extra_places(d, i, end)[k] + 5),
    decreases end - i,
{
    let next = i + 4 + field16(d, i + 2);
    let all = extra_places(d, i, end);
    let rest = extra_places(d, next, end);
    let y = extra_field(d, field16(d, i), i + 4, next, raw, utf8, x)->Ok_0;
    if k == 0 {
        lemma_field32(d, i + 5);
        assert forall|j: int| 0 <= j < rest.len() implies !is_timestamp(d, #[trigger] rest[j]) by {
            assert(all[j + 1] == rest[j]);
        }
        lemma_unstamped(d, next, end, raw, utf8, y);
    } else {
        assert(all[k] == rest[k - 1]);
        assert forall|j: int| k - 1 < j < rest.len() implies !is_timestamp(d, #[trigger] rest[j]) by {
            assert(all[j + 1] == rest[j]);
        }
        lemma_stamped(d, next, end, raw, utf8, y, k - 1);
    }
}

/// Where the extra fields of the record at `o` start.
pub open spec fn record_extras(d: Seq<u8>, o: int) -> Seq<int> {
    let from = o + 46 + field16(d, o + 28);
    extra_places(d, from, from + field16(d, o + 30))
}

/// An entry is listed with the moment that the last extended timestamp of its record gives in
/// seconds, in milliseconds: so on the same day, and at the same second of it.
pub proof fn law_timestamp_dates_the_entry(d: Seq<u8>, o: int, delta: int, k: int)
    requires
        0 <= o,
        o + 46 + field16(d, o + 28) + field16(d, o + 30) <= d.len(),
        record_entry(d, o, delta) matches Ok(Some(_)),
        0 <= k < record_extras(d, o).len(),
        is_timestamp(d, record_extras(d, o)[k]),
        forall|j: int| k < j < record_extras(d, o).len() ==> !is_timestamp(d, #[trigger] record_extras(d, o)[j]),
    ensures
        ({
            let s = seconds_at(d, record_extras(d, o)[k] + 5);
            let e = record_entry(d, o, delta)->Ok_0->Some_0;
            &&& e.modified_millis == 1000 * s
            &&& e.modified_millis / 86_400_000 == s / 86_400
        }),
{
    reveal(record_entry);
    let from = o + 46 + field16(d, o + 28);
    let end = from + field16(d, o + 30);
    let raw = d.subrange(o + 46, from);
    let utf8 = utf8_flags(field16(d, o + 8));
    let x = Extras {
        size: field32(d, o + 24),
        compressed_size: field32(d, o + 20),
        offset: field32(d, o + 42),
        name: name_text(raw, utf8)->Ok_0,
        millis: dos_millis(field16(d, o + 12), field16(d, o + 14)),
    };
    lemma_stamped(d, from, end, raw, utf8, x, k);
}

/// An entry without an extended timestamp is listed with the MS-DOS date and time of its record.
pub proof fn law_dos_date_of_the_entry(d: Seq<u8>, o: int, delta: int)
    requires
        record_entry(d, o, delta) matches Ok(Some(_)),
        forall|j: int| 0 <= j < record_extras(d, o).len() ==> !is_timestamp(d, #[trigger] record_extras(d, o)[j]),
    ensures
        record_entry(d, o, delta)->Ok_0->Some_0.modified_millis == dos_millis(field16(d, o + 12), field16(d, o + 14)),
{
    reveal(record_entry);
    let from = o + 46 + field16(d, o + 28);
    let end = from + field16(d, o + 30);
    let raw = d.subrange(o + 46, from);
    let utf8 = utf8_flags(field16(d, o + 8));
    let x = Extras {
        size: field32(d, o + 24),
        compressed_size: field32(d, o + 20),
        offset: field32(d, o + 42),
        name: name_text(raw, utf8)->Ok_0,
        millis: dos_millis(field16(d, o + 12), field16(d, o + 14)),
    };
    assert(record_extras(d, o) == extra_places(d, from, end));
    lemma_unstamped(d, from, end, raw, utf8, x);
}

/// What a record says of its entry stands at fixed places of it. A directory has no data.
pub proof fn law_record_fields(d: Seq<u8>, o: int, delta: int)
    requires
        record_entry(d, o, delta) matches Ok(Some(_)),
    ensures
        ({
            let e = record_entry(d, o, delta)->Ok_0->Some_0;
            &&& field32(d, o) == 0x0201_4b50
            &&& e.flags == field16(d, o + 8)
            &&& e.compression_method == field16(d, o + 10)
            &&& e.crc32 == field32(d, o + 16)
            &&& e.path.len() > 0
            &&& (field32(d, o + 38) / 16) % 2 == 1 ==> e.is_directory
            &&& e.is_directory ==> e.size == 0 && e.compressed_size == 0
            &&& field16(d, o + 30) == 0 && !e.is_directory ==> e.compressed_size == field32(d, o + 20) && e.size
                == field32(d, o + 24)
            &&& field16(d, o + 30) == 0 && i64::MIN <= field32(d, o + 42) + delta <= i64::MAX
                ==> e.local_header_offset == field32(d, o + 42) + delta
        }),
{
    reveal(record_entry);
}

/// The path of an entry is what its name stands for, and a name that ends in a slash is that of
/// a directory.
pub proof fn law_record_name(d: Seq<u8>, o: int, delta: int)
    requires
        field32(d, o) == 0x0201_4b50,
        field16(d, o + 30) == 0,
        name_text(d.subrange(o + 46, o + 46 + field16(d, o + 28)), (field16(d, o + 8) / 0x800) % 2 == 1) is Ok,
    ensures
        ({
            let name = name_text(
                d.subrange(o + 46, o + 46 + field16(d, o + 28)),
                (field16(d, o + 8) / 0x800) % 2 == 1,
            )->Ok_0;
            let r = record_entry(d, o, delta);
            &&& r is Ok
            &&& r->Ok_0 is None <==> normalised(name) is None || normalised(name)->Some_0.len() == 0
            &&& r->Ok_0 matches Some(e) ==> e.path == normalised(name)->Some_0
            &&& r->Ok_0 matches Some(e) ==> name.len() > 0 && name.last() == '/' ==> e.is_directory
            &&& r->Ok_0 matches Some(e) ==> (field32(d, o + 38) / 16) % 2 == 0 && name.last() != '/' ==> !e.is_directory
        }),
{
    reveal(record_entry);
}

/// An entry counts as encrypted by the lowest bit of its flags, or by the seventh; a name is
/// UTF-8 by the twelfth.
pub proof fn law_flag_bits(high: nat, middle: nat, low: nat)
    requires
        middle < 0x20,
        low < 0x20,
    ensures
        encrypted_flags(0x1000 * high + 0x80 * middle + 2 * low + 1),
        encrypted_flags(0x1000 * high + 0x80 * middle + 0x40 + 2 * low),
        !encrypted_flags(0x1000 * high + 0x80 * middle + 2 * low),
        utf8_flags(0x1000 * high + 0x80 * middle + 2 * low) == (middle >= 0x10),
{
}

/// A record takes the place of every earlier one for its path, unless that is a directory.
pub proof fn law_last_record_counts(parsed: Seq<EntryView>, i: int)
    requires
        0 <= i < parsed.len(),
        forall|j: int| i < j < parsed.len() ==> (#[trigger] parsed[j]).path != parsed[i].path,
        forall|j: int| 0 <= j < i && (#[trigger] parsed[j]).path == parsed[i].path ==> !parsed[j].is_directory,
    ensures
        recorded(parsed).contains_key(parsed[i].path),
        recorded(parsed)[parsed[i].path] == parsed[i],
    decreases parsed.len(),
{
    let init = parsed.drop_last();
    if i < parsed.len() - 1 {
        assert(init[i] == parsed[i]);
        assert forall|j: int| i < j < init.len() implies (#[trigger] init[j]).path != init[i].path by {
            assert(init[j] == parsed[j]);
        }
        assert forall|j: int| 0 <= j < i && (#[trigger] init[j]).path == init[i].path implies !init[j].is_directory by {
            assert(init[j] == parsed[j]);
        }
        law_last_record_counts(init, i);
        assert(parsed[parsed.len() - 1].path != parsed[i].path);
    } else {
        lemma_files_so_far(init, parsed[i].path);
    }
}

proof fn lemma_files_so_far(parsed: Seq<EntryView>, path: Seq<char>)
    requires
        forall|j: int| 0 <= j < parsed.len() && (#[trigger] parsed[j]).path == path ==> !parsed[j].is_directory,
    ensures
        recorded(parsed).contains_key(path) ==> !recorded(parsed)[path].is_directory,
    decreases parsed.len(),
{
    if parsed.len() > 0 {
        let init = parsed.drop_last();
        assert forall|j: int| 0 <= j < init.len() && (#[trigger] init[j]).path == path implies !init[j].is_directory by {
            assert(init[j] == parsed[j]);
        }
        lemma_files_so_far(init, path);
        let last = parsed[parsed.len() - 1];
        assert(last.path == path ==> !last.is_directory);
    }
}

proof fn lemma_parents_keep(m: Tree, parent: Seq<char>, millis: int, p: Seq<char>)
    requires
        m.contains_key(p),
        p.len() > 0,
        m[p].is_directory || !leads_to(p, parent),
    ensures
        with_parents(m, parent, millis).contains_key(p),
        with_parents(m, parent, millis)[p] == m[p],
    decreases parent.len(),
{
    if !(parent.len() == 0 || has_directory(m, parent)) {
        lemma_parent_shorter(parent);
        let up = parent_of(parent);
        assert(p != parent);
        if !m[p].is_directory && up.len() > 0 {
            lemma_parent_leads(parent);
            if leads_to(p, up) {
                lemma_leads_on(p, up, parent);
            }
        }
        if up.len() == 0 && leads_to(p, up) {
            reveal_strlit("/");
            assert(has_prefix(up, p + "/"@));
        }
        lemma_parents_keep(m.insert(parent, crate::archive::entry::implied_directory(parent, millis)), up, millis, p);
    }
}

proof fn lemma_directories_keep(m: Tree, order: Seq<Seq<char>>, p: Seq<char>)
    requires
        m.contains_key(p),
        p.len() > 0,
        m[p].is_directory || forall|i: int| 0 <= i < order.len() ==> !has_prefix(#[trigger] order[i], p + "/"@),
    ensures
        with_directories(m, order).contains_key(p),
        with_directories(m, order)[p] == m[p],
    decreases order.len(),
{
    if order.len() > 0 {
        let init = order.drop_last();
        assert forall|i: int| 0 <= i < init.len() && !m[p].is_directory implies !has_prefix(#[trigger] init[i], p + "/"@) by {
            assert(init[i] == order[i]);
        }
        lemma_directories_keep(m, init, p);
        let t = with_directories(m, init);
        let last = order[order.len() - 1];
        let up = parent_of(last);
        if !m[p].is_directory {
            reveal_strlit("/");
            if leads_to(p, up) {
                if up.len() == 0 {
                    assert(has_prefix(up, p + "/"@));
                } else {
                    lemma_parent_leads(last);
                    lemma_parent_above(last);
                    if p == up {
                        assert(has_prefix(last, p + "/"@));
                    } else {
                        lemma_leads_on(p, up, last);
                        if p == last {
                            assert(up.len() >= p.len());
                            lemma_parent_shorter(last);
                        }
                    }
                }
            }
        }
        lemma_parents_keep(t, up, t[last].modified_millis, p);
    }
}

proof fn lemma_parent_above(p: Seq<char>)
    requires
        parent_of(p).len() > 0,
    ensures
        has_prefix(p, parent_of(p) + "/"@),
{
    lemma_parent_leads(p);
    lemma_parent_shorter(p);
}

/// An archive lists the entry that a record describes, field by field as it is described: of a
/// file, the last record for its path, if nothing is recorded below that.
pub proof fn law_record_is_listed_as_described(parsed: Seq<EntryView>, i: int)
    requires
        0 <= i < parsed.len(),
        parsed[i].path.len() > 0,
        forall|j: int| i < j < parsed.len() ==> (#[trigger] parsed[j]).path != parsed[i].path,
        forall|j: int| 0 <= j < i && (#[trigger] parsed[j]).path == parsed[i].path ==> !parsed[j].is_directory,
        parsed[i].is_directory || forall|j: int|
            0 <= j < parsed.len() ==> !has_prefix((#[trigger] parsed[j]).path, parsed[i].path + "/"@),
    ensures
        archive_tree(parsed).contains_key(parsed[i].path),
        archive_tree(parsed)[parsed[i].path] == parsed[i],
{
    let p = parsed[i].path;
    law_last_record_counts(parsed, i);
    lemma_recorded_keys(parsed);
    let o = recorded_order(parsed);
    assert forall|k: int| 0 <= k < o.len() && !parsed[i].is_directory implies !has_prefix(#[trigger] o[k], p + "/"@) by {
        lemma_order_is_recorded(parsed, k);
    }
    lemma_directories_keep(recorded(parsed), o, p);
}

proof fn lemma_order_is_recorded(parsed: Seq<EntryView>, k: int)
    requires
        0 <= k < recorded_order(parsed).len(),
    ensures
        exists|j: int| 0 <= j < parsed.len() && (#[trigger] parsed[j]).path == recorded_order(parsed)[k],
    decreases parsed.len(),
{
    let init = parsed.drop_last();
    let o = recorded_order(init);
    if k < o.len() {
        lemma_order_is_recorded(init, k);
        let j = choose|j: int| 0 <= j < init.len() && (#[trigger] init[j]).path == o[k];
        assert(parsed[j] == init[j]);
    } else {
        assert(parsed[parsed.len() - 1].path == recorded_order(parsed)[k]);
    }
}

proof fn lemma_parents_are_directories(m: Tree, parent: Seq<char>, millis: int, p: Seq<char>)
    requires
        with_parents(m, parent, millis).contains_key(p),
        !m.contains_key(p) || with_parents(m, parent, millis)[p] != m[p],
    ensures
        ({
            let e = with_parents(m, parent, millis)[p];
            e.is_directory && e.path == p && e.size == 0 && e.compressed_size == 0 && e.local_header_offset == -1
                && e.modified_millis == millis
        }),
    decreases parent.len(),
{
    if !(parent.len() == 0 || has_directory(m, parent)) {
        lemma_parent_shorter(parent);
        let n = m.insert(parent, crate::archive::entry::implied_directory(parent, millis));
        let t = with_parents(n, parent_of(parent), millis);
        if !n.contains_key(p) || t[p] != n[p] {
            lemma_parents_are_directories(n, parent_of(parent), millis, p);
        }
    }
}

proof fn lemma_implied(m: Tree, order: Seq<Seq<char>>, p: Seq<char>)
    requires
        with_directories(m, order).contains_key(p),
        !m.contains_key(p),
    ensures
        ({
            let e = with_directories(m, order)[p];
            e.is_directory && e.path == p && e.size == 0 && e.compressed_size == 0 && e.local_header_offset == -1
        }),
    decreases order.len(),
{
    if order.len() > 0 {
        let t = with_directories(m, order.drop_last());
        let w = with_directories(m, order);
        if t.contains_key(p) && w[p] == t[p] {
            lemma_implied(m, order.drop_last(), p);
        } else {
            lemma_parents_are_directories(t, parent_of(order.last()), t[order.last()].modified_millis, p);
        }
    }
}

/// What an archive lists without a record is an empty directory entry that stands nowhere in the
/// file.
pub proof fn law_implied_directories(parsed: Seq<EntryView>, p: Seq<char>)
    requires
        archive_tree(parsed).contains_key(p),
        forall|i: int| 0 <= i < parsed.len() ==> (#[trigger] parsed[i]).path != p,
    ensures
        ({
            let e = archive_tree(parsed)[p];
            e.is_directory && e.path == p && e.size == 0 && e.compressed_size == 0 && e.local_header_offset == -1
        }),
{
    lemma_not_recorded(parsed, p);
    lemma_implied(recorded(parsed), recorded_order(parsed), p);
}

proof fn lemma_not_recorded(parsed: Seq<EntryView>, p: Seq<char>)
    requires
        forall|i: int| 0 <= i < parsed.len() ==> (#[trigger] parsed[i]).path != p,
    ensures
        !recorded(parsed).contains_key(p),
    decreases parsed.len(),
{
    if parsed.len() > 0 {
        let init = parsed.drop_last();
        assert forall|i: int| 0 <= i < init.len() implies (#[trigger] init[i]).path != p by {
            assert(init[i] == parsed[i]);
        }
        lemma_not_recorded(init, p);
        assert(parsed[parsed.len() - 1].path != p);
    }
}

/// In the listing of a directory the directories come before the files, and among either the
/// names stand in the order of their bytes in lower case.
pub proof fn law_siblings_are_ordered(list: Seq<ZipEntry>, m: Tree, dir: Seq<char>, i: int, j: int)
    requires
        lists_directory(list, m, dir),
        0 <= i < j < list.len(),
    ensures
        list[j]@.is_directory ==> list[i]@.is_directory,
        list[i]@.is_directory == list[j]@.is_directory ==> !bytes_before(
            encode_utf8(lowercase(name_of(list[j]@.path))),
            encode_utf8(lowercase(name_of(list[i]@.path))),
        ),
        parent_of(list[i]@.path) == dir,
        list[i]@.path != list[j]@.path,
{
    let a = sibling_key(list[i]@);
    let b = sibling_key(list[j]@);
    assert(a.skip(1) =~= encode_utf8(lowercase(name_of(list[i]@.path))));
    assert(b.skip(1) =~= encode_utf8(lowercase(name_of(list[j]@.path))));
    assert(!bytes_before(b, a));
}

/// The listing of a directory holds every entry right below it, and every one as it is in the
/// archive.
pub proof fn law_directory_listing_is_whole(list: Seq<ZipEntry>, m: Tree, dir: Seq<char>, p: Seq<char>)
    requires
        lists_directory(list, m, dir),
    ensures
        m.contains_key(p) && parent_of(p) == dir ==> exists|i: int|
            0 <= i < list.len() && (#[trigger] list[i])@.path == p && list[i]@ == m[p],
        forall|i: int| 0 <= i < list.len() ==> m.contains_key((#[trigger] list[i])@.path),
{
    if m.contains_key(p) && parent_of(p) == dir {
        let i = choose|i: int| 0 <= i < list.len() && (#[trigger] list[i])@.path == p;
        assert(list[i]@ == m[p]);
    }
}

/// The size of an archive's files is that of its parts together, and one file counts its size.
pub proof fn law_sizes_add_up(a: Seq<ZipEntry>, b: Seq<ZipEntry>)
    ensures
        sizes(a + b) == sizes(a) + sizes(b),
        b.len() == 1 ==> sizes(b) == b[0].size,
    decreases b.len(),
{
    if b.len() > 0 {
        assert((a + b).drop_last() =~= a + b.drop_last());
        law_sizes_add_up(a, b.drop_last());
        assert(b.len() == 1 ==> b.drop_last() =~= Seq::empty());
    } else {
        assert(a + b =~= a);
    }
}

/// What is below a directory keeps its place below it when the directory moves.
pub proof fn law_moved_path(dir: Seq<char>, rest: Seq<char>, renamed: Seq<char>)
    ensures
        moved_path(dir + "/"@ + rest, dir, renamed) == renamed + "/"@ + rest,
{
    assert((dir + "/"@ + rest).skip((dir + "/"@).len() as int) =~= rest);
}

/// An entry that is written again keeps its date, its kind and the size of its content.
pub proof fn law_carried_entry(e: EntryView, n: NewEntry)
    requires
        carries(e, n),
    ensures
        n.modified_millis == e.modified_millis,
        n.is_directory == e.is_directory,
        !e.is_directory ==> n.size == e.size,
        e.is_directory ==> n.size == 0,
{
}

/// Of what moves with a directory, every file is among those written again, and so is every
/// directory with a record of its own; one that only its paths imply is not.
pub proof fn law_what_is_written_again(v: Seq<EntryView>, e: EntryView)
    ensures
        standing(v).contains(e) <==> v.contains(e) && (!e.is_directory || e.local_header_offset >= 0),
    decreases v.len(),
{
    if v.len() > 0 {
        let init = v.drop_last();
        law_what_is_written_again(init, e);
        let last = v[v.len() - 1];
        let s = standing(v);
        let t = standing(init);
        if v.contains(e) && last != e {
            let k = choose|k: int| 0 <= k < v.len() && v[k] == e;
            assert(init[k] == e);
        }
        if init.contains(e) {
            let k = choose|k: int| 0 <= k < init.len() && init[k] == e;
            assert(v[k] == e);
        }
        if !last.is_directory || last.local_header_offset >= 0 {
            assert(s.last() == last);
            if t.contains(e) {
                let k = choose|k: int| 0 <= k < t.len() && t[k] == e;
                assert(s[k] == e);
            }
            if last == e {
                assert(s[s.len() - 1] == e);
            }
            if s.contains(e) && last != e {
                let k = choose|k: int| 0 <= k < s.len() && s[k] == e;
                assert(t[k] == e);
            }
        }
    }
}

/// Of the old paths, exactly those that are still listed are left behind.
pub proof fn law_left_behind(m: Tree, paths: Seq<Seq<char>>, p: Seq<char>)
    requires
        m.contains_key(p),
        forall|a: Seq<char>, b: Seq<char>| m.contains_key(a) && m.contains_key(b) && m[a] == m[b] ==> a == b,
    ensures
        entries_of(m, paths).contains(m[p]) <==> paths.contains(p),
    decreases paths.len(),
{
    if paths.len() > 0 {
        let init = paths.drop_last();
        law_left_behind(m, init, p);
        let last = paths[paths.len() - 1];
        let e = entries_of(m, paths);
        let f = entries_of(m, init);
        if paths.contains(p) && last != p {
            let k = choose|k: int| 0 <= k < paths.len() && paths[k] == p;
            assert(init[k] == p);
        }
        if init.contains(p) {
            let k = choose|k: int| 0 <= k < init.len() && init[k] == p;
            assert(paths[k] == p);
        }
        if m.contains_key(last) {
            if f.contains(m[p]) {
                let k = choose|k: int| 0 <= k < f.len() && f[k] == m[p];
                assert(e[k] == m[p]);
            }
            if last == p {
                assert(e[e.len() - 1] == m[p]);
            }
            if e.contains(m[p]) && last != p {
                let k = choose|k: int| 0 <= k < e.len() && e[k] == m[p];
                if k == e.len() - 1 {
                    assert(m[last] == m[p]);
                }
                assert(f[k] == m[p]);
            }
        }
    }
}

/// What is erased of an entry starts with its local header and ends with its data, and is
/// nothing where no local header stands.
pub proof fn law_erased_range(e: EntryView, header: Seq<u8>)
    ensures
        field32(header, 0) != 0x0403_4b50 ==> erased_range(e, header) is None,
        field32(header, 0) == 0x0403_4b50 ==> erased_range(e, header) == Some(
            (
                e.local_header_offset,
                e.local_header_offset + 30 + field16(header, 26) + field16(header, 28) + e.compressed_size,
            ),
        ),
{
}

/// A name is recorded as UTF-8, and that of a directory with a slash behind it, which no file
/// has.
pub proof fn law_recorded_name(path: Seq<char>)
    ensures
        recorded_name(path, false) == encode_utf8(path),
        recorded_name(path, true) == encode_utf8(path + "/"@),
{
}

/// The end records of an archive stand in its last 65,557 bytes: the fixed part of 22 bytes, and
/// a comment of up to 65,535.
pub proof fn law_tail_of(file_size: nat)
    ensures
        tail_of(file_size).0 + tail_of(file_size).1 == file_size,
        file_size <= 65_557 ==> tail_of(file_size).1 == file_size,
        file_size > 65_557 ==> tail_of(file_size).1 == 65_557,
{
}

/// A directory is taken in if and only if it lists no more than half a million entries, lies
/// within the file and takes no more than 64 MiB.
pub proof fn law_directory_limits(cd: Directory, file_size: nat)
    ensures
        directory_refusal(cd, file_size) is None <==> cd.entries <= 500_000 && cd.start + cd.size <= file_size && cd.size
            <= 0x400_0000,
{
}

/// Every record that describes an entry adds it to the listing, in the order of the records;
/// every other one is counted as rejected.
pub proof fn law_described_counts(cd: Seq<u8>, recs: Seq<(int, int)>, delta: int)
    requires
        described(cd, recs, delta) is Ok,
    ensures
        described(cd, recs, delta)->Ok_0.0.len() + described(cd, recs, delta)->Ok_0.1 == recs.len(),
        forall|i: int|
            0 <= i < recs.len() && (record_entry(cd, (#[trigger] recs[i]).0, delta) matches Ok(Some(e)))
                ==> described(cd, recs, delta)->Ok_0.0.contains(record_entry(cd, recs[i].0, delta)->Ok_0->Some_0),
    decreases recs.len(),
{
    if recs.len() > 0 {
        let init = recs.drop_last();
        law_described_counts(cd, init, delta);
        let v = described(cd, init, delta)->Ok_0.0;
        let w = described(cd, recs, delta)->Ok_0.0;
        assert forall|i: int|
            0 <= i < recs.len() && (record_entry(cd, (#[trigger] recs[i]).0, delta) matches Ok(Some(e))) implies w.contains(
            record_entry(cd, recs[i].0, delta)->Ok_0->Some_0,
        ) by {
            let e = record_entry(cd, recs[i].0, delta)->Ok_0->Some_0;
            if i < init.len() {
                assert(init[i] == recs[i]);
                assert(v.contains(e));
                let k = choose|k: int| 0 <= k < v.len() && v[k] == e;
                assert(w[k] == e);
            } else {
                assert(w[w.len() - 1] == e);
            }
        }
    }
}

/// Which entries can be read: files that are not encrypted, stored as they are or deflated.
pub proof fn law_readable(e: ZipEntry)
    ensures
        unreadable(e) is None <==> !e.is_directory && e.flags % 2 == 0 && (e.flags / 0x40) % 2 == 0 && (
        e.compression_method == 0 || e.compression_method == 8),
{
}

/// An offset is stored so that reading it back with the same shift gives it again.
pub proof fn law_stored_offset(at: int, delta: int)
    requires
        0 <= at <= i64::MAX,
        i64::MIN <= delta <= i64::MAX,
        0 <= at - delta <= i64::MAX,
    ensures
        stored_offset(at, delta) + delta == at,
        wrapped(stored_offset(at, delta) + delta) == at,
{
}

/// The numbers of an archive stand in it with their lowest byte first.
pub proof fn law_fields(d: Seq<u8>, i: int)
    requires
        0 <= i,
        i + 8 <= d.len(),
    ensures
        field16(d, i) == d[i] + 0x100 * d[i + 1],
        field32(d, i) == field16(d, i) + 0x1_0000 * field16(d, i + 2),
        field64(d, i) == field32(d, i) + 0x1_0000_0000 * field32(d, i + 4),
{
    lemma_field32(d, i);
    lemma_field32(d, i + 4);
    lemma_field16(d, i);
    lemma_field16(d, i + 2);
    let s = d.subrange(i, i + 8);
    let t = d.subrange(i + 4, i + 8);
    assert(s.skip(1).skip(1).skip(1).skip(1) =~= t);
    reveal_with_fuel(le_value, 5);
}

proof fn lemma_field16(d: Seq<u8>, i: int)
    requires
        0 <= i,
        i + 2 <= d.len(),
    ensures
        field16(d, i) == d[i] + 0x100 * d[i + 1],
{
    let s = d.subrange(i, i + 2);
    reveal_with_fuel(le_value, 3);
    assert(s.skip(1)[0] == d[i + 1]);
    assert(s.skip(1).skip(1).len() == 0);
}

/// A zip64 field gives what did not fit into the record: first the size, then the compressed size,
/// then the place, each only if the record says so.
pub proof fn law_zip64_field(d: Seq<u8>, body: int, end: int, raw: Seq<u8>, utf8: bool, x: Extras)
    requires
        end >= body + 24,
        field64(d, body) <= i64::MAX,
        field64(d, body + 8) <= i64::MAX,
        field64(d, body + 16) <= i64::MAX,
    ensures
        extra_field(d, 1, body, end, raw, utf8, x) matches Ok(y) && {
            &&& y.name == x.name
            &&& y.millis == x.millis
            &&& x.size != 0xFFFF_FFFF ==> y.size == x.size
            &&& x.compressed_size != 0xFFFF_FFFF ==> y.compressed_size == x.compressed_size
            &&& x.offset != 0xFFFF_FFFF ==> y.offset == x.offset
            &&& x.size == 0xFFFF_FFFF ==> y.size == field64(d, body)
            &&& x.size == 0xFFFF_FFFF && x.compressed_size == 0xFFFF_FFFF ==> y.compressed_size == field64(d, body + 8)
            &&& x.size != 0xFFFF_FFFF && x.compressed_size == 0xFFFF_FFFF ==> y.compressed_size == field64(d, body)
            &&& x.size == 0xFFFF_FFFF && x.compressed_size == 0xFFFF_FFFF && x.offset == 0xFFFF_FFFF ==> y.offset == field64(
                d,
                body + 16,
            )
            &&& x.size != 0xFFFF_FFFF && x.compressed_size != 0xFFFF_FFFF && x.offset == 0xFFFF_FFFF ==> y.offset == field64(
                d,
                body,
            )
        },
{
}

/// A Unicode name takes the place of the recorded one if the record does not say that this is
/// UTF-8 already and it was made from this very name, as its checksum tells.
pub proof fn law_unicode_name_field(d: Seq<u8>, body: int, end: int, raw: Seq<u8>, x: Extras)
    requires
        end > body + 5,
        d[body] == 1,
    ensures
        extra_field(d, 0x7075, body, end, raw, true, x) == Ok::<Extras, Seq<char>>(x),
        crc32(raw) != field32(d, body + 1) ==> extra_field(d, 0x7075, body, end, raw, false, x) == Ok::<Extras, Seq<char>>(x),
        crc32(raw) == field32(d, body + 1) && valid_utf8(d.subrange(body + 5, end)) ==> extra_field(
            d,
            0x7075,
            body,
            end,
            raw,
            false,
            x,
        ) == Ok::<Extras, Seq<char>>(Extras { name: decode_utf8(d.subrange(body + 5, end)), ..x }),
{
}

/// A timestamp changes the time alone, and a field of another number changes nothing.
pub proof fn law_other_extra_fields(d: Seq<u8>, id: nat, body: int, end: int, raw: Seq<u8>, utf8: bool, x: Extras)
    ensures
        id != 0x0001 && id != 0x7075 && id != 0x5455 ==> extra_field(d, id, body, end, raw, utf8, x) == Ok::<
            Extras,
            Seq<char>,
        >(x),
        id == 0x5455 ==> (extra_field(d, id, body, end, raw, utf8, x) matches Ok(y) && y == (Extras { millis: y.millis, ..x })),
        id == 0x5455 && (end - body < 5 || d[body] % 2 == 0) ==> extra_field(d, id, body, end, raw, utf8, x) == Ok::<
            Extras,
            Seq<char>,
        >(x),
{
}

/// Each bit of the checksum: an even remainder is halved, and an odd one also gets the polynomial.
pub proof fn law_crc_bit(c: u32)
    ensures
        c % 2 == 0 ==> crc_bit(c) == c / 2,
        c % 2 == 1 ==> crc_bit(c) == (c / 2) ^ 0xEDB8_8320u32,
{
    assert(c % 2 == 0 ==> c & 1 == 0) by (bit_vector);
    assert(c % 2 == 1 ==> c & 1 == 1) by (bit_vector);
    assert(c >> 1 == c / 2) by (bit_vector);
}

/// A record is 46 bytes long and as many more as its name, its extra fields and its comment have.
pub proof fn law_record_length(cd: Seq<u8>, pos: int)
    ensures
        record_len(cd, pos) == 46 + field16(cd, pos + 28) + field16(cd, pos + 30) + field16(cd, pos + 32),
        has_record(cd, pos) ==> records_from(cd, pos).len() > 0 && records_from(cd, pos)[0] == (pos, record_len(cd, pos))
            && records_from(cd, pos).skip(1) == records_from(cd, pos + record_len(cd, pos)),
        has_record(cd, pos) <==> 0 <= pos && pos + 46 <= cd.len() && field32(cd, pos) == 0x0201_4b50 && pos + record_len(
            cd,
            pos,
        ) <= cd.len(),
{
    if has_record(cd, pos) {
        assert(records_from(cd, pos).skip(1) =~= records_from(cd, pos + record_len(cd, pos)));
    }
}

/// The directory ends where the record behind it starts. Where it starts, held against where it
/// is said to start, tells by how much all places are off.
pub proof fn law_directory_place(position: nat, size: nat, offset: nat, entries: nat)
    requires
        position <= i64::MAX,
        offset <= i64::MAX,
        entries <= i64::MAX,
    ensures
        size > position <==> directory_before(position, size, offset, entries) is Err,
        directory_before(position, size, offset, entries) matches Ok(d) ==> d.start + d.size == position && d.size == size
            && d.start == offset + d.delta && d.entries == entries,
{
}

/// Where the end of an archive keeps what it says of the directory.
pub proof fn law_end_record_fields(tail: Seq<u8>, tail_start: nat, eocd: int)
    requires
        0 <= eocd,
        !(eocd >= 20 && field32(tail, eocd - 20) == 0x0706_4b50),
    ensures
        field32(tail, eocd + 12) == 0xFFFF_FFFF || field32(tail, eocd + 16) == 0xFFFF_FFFF ==> located(
            tail,
            tail_start,
            eocd,
        ) is Err,
        located(tail, tail_start, eocd) matches Ok(l) ==> (l matches Located::Found(d) && directory_before(
            (tail_start + eocd) as nat,
            field32(tail, eocd + 12),
            field32(tail, eocd + 16),
            field16(tail, eocd + 10),
        ) == Ok::<Directory, Seq<char>>(d)),
{
}

/// A record that a directory already has the path of does not count.
pub proof fn law_directory_record_stays(m: Tree, e: EntryView)
    ensures
        has_directory(m, e.path) ==> with_record(m, e) == m,
        !has_directory(m, e.path) ==> with_record(m, e) == m.insert(e.path, e),
{
}

/// A directory that no record speaks of has the time of what was found in it.
pub proof fn law_implied_directory_time(e: EntryView, dir: Seq<char>, name: Seq<char>)
    requires
        dir.len() > 0,
        !dir.contains('/'),
        !name.contains('/'),
        e.path == dir + "/"@ + name,
    ensures
        archive_tree(seq![e]).contains_key(dir),
        archive_tree(seq![e])[dir].modified_millis == e.modified_millis,
        archive_tree(seq![e])[dir].is_directory,
{
    let parsed = seq![e];
    law_name_and_parent(dir, name);
    law_name_and_parent(Seq::empty(), dir);
    assert(parsed.drop_last() =~= Seq::empty());
    reveal_with_fuel(recorded, 2);
    reveal_with_fuel(recorded_order, 2);
    reveal_with_fuel(with_directories, 2);
    let m = recorded(parsed);
    assert(m =~= Map::<Seq<char>, EntryView>::empty().insert(e.path, e));
    let order = recorded_order(parsed);
    assert(order =~= seq![e.path]);
    assert(order.drop_last() =~= Seq::empty());
    assert(e.path.len() > dir.len()) by {
        reveal_strlit("/");
    }
    assert(parent_of(dir).len() == 0);
    reveal_with_fuel(with_parents, 3);
}

/// The end of an archive is where its four signature bytes stand with room for 22, and an exact one
/// has a comment that fills the rest.
pub proof fn law_end_record(tail: Seq<u8>, i: int)
    ensures
        is_end_record(tail, i) <==> 0 <= i && i + 22 <= tail.len() && tail[i] == 0x50 && tail[i + 1] == 0x4b && tail[i + 2]
            == 0x05 && tail[i + 3] == 0x06,
        is_exact_end_record(tail, i) <==> is_end_record(tail, i) && i + 22 + field16(tail, i + 20) == tail.len(),
        end_record_at(tail, i) ==> is_end_record(tail, i),
{
    if 0 <= i && i + 22 <= tail.len() {
        lemma_field32(tail, i);
    }
}

/// The one that counts is the last exact one, and where there is none the last.
pub proof fn law_last_end_record(tail: Seq<u8>, i: int, k: int)
    requires
        end_record_at(tail, i),
        i < k,
    ensures
        !is_exact_end_record(tail, k),
        !is_exact_end_record(tail, i) ==> !is_end_record(tail, k),
{
}

/// What is said of an entry that cannot be read, and of a directory that is too big.
pub proof fn law_archive_refusals(e: ZipEntry, cd: Directory, file_size: nat)
    ensures
        e.is_directory ==> unreadable(e) == Some("Cannot read a directory in an archive: "@ + e.path@),
        !e.is_directory && e.flags % 2 == 1 ==> unreadable(e) == Some("Encrypted zip entries are not supported: "@ + e.path@),
        !e.is_directory && e.flags % 2 == 0 && (e.flags / 64) % 2 == 0 && e.compression_method != 0 && e.compression_method != 8
            ==> unreadable(e) == Some(
            "Unsupported zip compression method "@ + decimal(e.compression_method as nat) + " in "@ + e.path@,
        ),
        cd.entries > 500_000 ==> directory_refusal(cd, file_size) == Some(
            "Too many entries to browse this archive: "@ + decimal(cd.entries as nat),
        ),
        cd.entries <= 500_000 && cd.start + cd.size > file_size ==> directory_refusal(cd, file_size) == Some(
            "Corrupt zip archive: invalid central directory"@,
        ),
        cd.entries <= 500_000 && cd.start + cd.size <= file_size && cd.size > 64 * 1024 * 1024 ==> directory_refusal(
            cd,
            file_size,
        ) == Some("This archive's index is too big: "@ + decimal(cd.size as nat)),
{
}

/// The checksum of no bytes is 0, and each byte more is worked into the remainder bit by bit.
pub proof fn law_crc32(bytes: Seq<u8>, b: u8)
    ensures
        crc32(Seq::empty()) == 0,
        crc32(bytes) == crc_remainder(bytes) ^ 0xFFFF_FFFFu32,
        crc_remainder(bytes.push(b)) == {
            let c = crc_remainder(bytes) ^ (b as u32);
            crc_bit(crc_bit(crc_bit(crc_bit(crc_bit(crc_bit(crc_bit(crc_bit(c))))))))
        },
{
    assert(bytes.push(b).drop_last() =~= bytes);
    assert(0xFFFF_FFFFu32 ^ 0xFFFF_FFFFu32 == 0) by (bit_vector);
}

/// The listing of an archive has every entry of its tree once and no others, ordered by the bytes of
/// their paths.
pub proof fn law_listing_is_whole(list: Seq<ZipEntry>, m: Tree, p: Seq<char>, i: int, j: int)
    requires
        lists(list, m),
    ensures
        m.contains_key(p) ==> exists|k: int| 0 <= k < list.len() && (#[trigger] list[k])@.path == p && list[k]@ == m[p],
        0 <= i < list.len() ==> m.contains_key(list[i]@.path) && m[list[i]@.path] == list[i]@,
        0 <= i < j < list.len() ==> bytes_before(encode_utf8(list[i]@.path), encode_utf8(list[j]@.path)),
{
    if m.contains_key(p) {
        assert(has_path(list, p));
        let k = choose|k: int| 0 <= k < list.len() && (#[trigger] list[k])@.path == p;
        assert(m[list[k]@.path] == list[k]@);
    }
}

/// A path names a directory of an archive if what it comes to is one.
pub proof fn law_named_directories(m: Tree, path: Seq<char>)
    ensures
        normalised(path) is None ==> !names_directory(m, path),
        normalised(path) matches Some(p) ==> (names_directory(m, path) <==> m.contains_key(p) && m[p].is_directory),
{
}

} // verus!
