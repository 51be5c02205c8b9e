//! What is written to an archive is what is read from it.
use vstd::prelude::*;
use vstd::utf8::*;
use crate::archive::changes::{
    covered, entries_below, law_removal_covers, law_removal_spares, lemma_below, lemma_standing, moved_entries, moved_path,
    paths_of, standing,
};
use crate::archive::directory::{
    described, end_record_at, has_locator, is_exact_end_record, located, records_from, Directory, Located, EOCD_SIZE,
};
use crate::archive::dos_time::{dos_millis, dos_pair};
use crate::archive::entry::{
    extra_field, extra_fields, record_entry, utf8_flags, wrapped, EntryView, Extras, ZipEntry,
    CENTRAL_HEADER_SIZE, LOCAL_HEADER_SIG, LOCAL_HEADER_SIZE, U32_MAX, ZIP64_EXTRA_ID,
};
use crate::archive::fields::{field16, field32};
use crate::archive::index::{
    archive_tree, entry_views, has_path, is_closed, is_closed_at, law_records_are_listed, leads_to, lists, Tree,
};
use crate::archive::layout::{lemma_packed_len, lemma_packed_value, packed, width};
use crate::archive::names::{
    has_drive, is_kept, is_normal, kept_parts, lemma_normal_stays, name_text, normalised, with_slashes,
};
use crate::archive::tail::{
    law_kept_records, lemma_end_len, lemma_named, local_bytes, named_record, named_records, path_set, record_bytes, without,
    RecordView,
};
use crate::archive::writer::{
    central_bytes, central_extra, central_extra_len, central_fields, end_bytes, end_fields, has_big_sizes, local_extra,
    local_fields, needs_zip64, recorded_name, short, zip64_fields, Measured,
};
use crate::bytes::{lemma_pow256, pow256};
use crate::paths::{
    has_prefix, last_place, lemma_last_place, lemma_split_concat, lemma_split_pieces, parent_of, split,
};

verus! {

/// The end records that close an archive lead back to its directory, which ends where
/// they start. The bytes before them must not look like a zip64 locator, unless there
/// is one.
pub proof fn law_end_records_lead_to_the_directory(
    before: Seq<u8>,
    tail_start: nat,
    entries: nat,
    dir_size: nat,
    dir_offset: nat,
)
    requires
        tail_start + before.len() <= i64::MAX,
        dir_size <= tail_start + before.len(),
        entries <= i64::MAX,
        dir_offset <= i64::MAX,
        !needs_zip64(entries, dir_size, dir_offset) ==> !has_locator(before, before.len() as int),
        !needs_zip64(entries, dir_size, dir_offset) ==> dir_size < U32_MAX && dir_offset < U32_MAX,
    ensures
        ({
            let position = tail_start + before.len();
            let tail = before + end_bytes(entries, dir_size, dir_offset, position);
            let eocd = tail.len() - EOCD_SIZE;
            &&& end_record_at(tail, eocd)
            &&& located(tail, tail_start, eocd) == Ok::<Located, Seq<char>>(
                Located::Found(
                    Directory {
                        start: (position - dir_size) as u64,
                        size: dir_size as u64,
                        entries: entries as u64,
                        delta: (position - dir_size - dir_offset) as i64,
                    },
                ),
            )
        }),
{
    let position = tail_start + before.len();
    let wide = needs_zip64(entries, dir_size, dir_offset);
    let ends = end_bytes(entries, dir_size, dir_offset, position);
    let tail = before + ends;
    let eocd = tail.len() - EOCD_SIZE;
    let z = zip64_fields(entries, dir_size, dir_offset, position);
    let e = end_fields(entries, dir_size, dir_offset);
    lemma_end_len(entries, dir_size, dir_offset, position);
    lemma_packed_len(z);
    lemma_packed_len(e);
    lemma_pow256();
    reveal_with_fuel(width, 15);
    let none = Seq::<u8>::empty();
    assert(packed(e) + none =~= packed(e));
    // the fields of the end record
    lemma_packed_value(e, 0, none);
    lemma_packed_value(e, 4, none);
    lemma_packed_value(e, 5, none);
    lemma_packed_value(e, 6, none);
    lemma_packed_value(e, 7, none);
    assert(tail.subrange(eocd, eocd + 4) =~= packed(e).subrange(0, 4));
    assert(tail.subrange(eocd + 10, eocd + 12) =~= packed(e).subrange(10, 12));
    assert(tail.subrange(eocd + 12, eocd + 16) =~= packed(e).subrange(12, 16));
    assert(tail.subrange(eocd + 16, eocd + 20) =~= packed(e).subrange(16, 20));
    assert(tail.subrange(eocd + 20, eocd + 22) =~= packed(e).subrange(20, 22));
    assert(is_exact_end_record(tail, eocd));
    assert(end_record_at(tail, eocd));
    if wide {
        let p = packed(z);
        let at = eocd - 76;
        assert(p + none =~= p);
        lemma_packed_value(z, 0, none);
        lemma_packed_value(z, 7, none);
        lemma_packed_value(z, 8, none);
        lemma_packed_value(z, 9, none);
        lemma_packed_value(z, 10, none);
        assert(tail.subrange(at, at + 4) =~= p.subrange(0, 4));
        assert(tail.subrange(at + 32, at + 40) =~= p.subrange(32, 40));
        assert(tail.subrange(at + 40, at + 48) =~= p.subrange(40, 48));
        assert(tail.subrange(at + 48, at + 56) =~= p.subrange(48, 56));
        assert(tail.subrange(at + 56, at + 60) =~= p.subrange(56, 60));
        assert(at == before.len());
    } else {
        assert(eocd == before.len());
        if eocd >= 20 {
            assert(tail.subrange(eocd - 20, eocd - 16) =~= before.subrange(eocd - 20, eocd - 16));
        }
    }
}

/// A normal path that names an entry of an archive.
pub open spec fn is_entry_path(path: Seq<char>) -> bool {
    path.len() > 0 && is_normal(path) && !has_drive(path) && !path.contains('\\')
}

/// The name that a directory is recorded under stands for its path.
proof fn lemma_directory_name(path: Seq<char>)
    requires
        is_entry_path(path),
    ensures
        normalised(path + "/"@) == Some(path),
{
    reveal_strlit("/");
    reveal_strlit("");
    reveal_strlit("..");
    let name = path + "/"@;
    assert("/"@ =~= seq!['/']);
    assert(name =~= path.push('/') + Seq::<char>::empty());
    assert forall|i: int| 0 <= i < name.len() implies name[i] != '\\' by {
        if i < path.len() {
            assert(path.contains(path[i]));
        }
    }
    assert(with_slashes(name) =~= name);
    assert(!has_drive(name)) by {
        if has_drive(name) {
            if path.len() == 1 {
                assert(name[1] == '/');
            } else {
                assert(has_drive(path));
            }
        }
    }
    lemma_normal_stays(path);
    assert(with_slashes(path) =~= path) by {
        assert forall|i: int| 0 <= i < path.len() implies with_slashes(path)[i] == path[i] by {
            assert(path.contains(path[i]));
        }
    }
    let parts = split(path, '/');
    let last = Seq::<char>::empty();
    lemma_split_concat(path, last, '/');
    assert(split(last, '/') == seq![last]);
    let all = split(name, '/');
    assert(all =~= parts.push(last));
    assert(all.drop_last() =~= parts);
    assert(!is_kept(last)) by {
        assert(last =~= ""@);
    }
    assert(kept_parts(all) == kept_parts(parts));
    assert(!all.contains(".."@)) by {
        if all.contains(".."@) {
            let k = choose|k: int| 0 <= k < all.len() && all[k] == ".."@;
            if k < parts.len() {
                assert(parts[k] == ".."@);
                assert(parts.contains(".."@));
            } else {
                assert(last.len() == ".."@.len());
            }
        }
    }
}

/// A normal path does not end in a slash.
proof fn lemma_no_trailing_slash(path: Seq<char>)
    requires
        path.len() > 0,
        is_normal(path),
    ensures
        path.last() != '/',
{
    if path.last() == '/' {
        reveal_strlit("");
        lemma_split_pieces(path.drop_last(), '/');
        let parts = split(path, '/');
        assert(parts.last().len() == 0);
        assert(is_kept(parts[parts.len() - 1]));
        assert(parts.last() =~= ""@);
    }
}

/// The entry that the record of a new entry describes.
pub open spec fn entry_of(m: Measured, offset: nat, delta: int) -> EntryView {
    let (time, date) = dos_pair(m.entry.modified_millis as int);
    EntryView {
        path: m.entry.path@,
        is_directory: m.entry.is_directory,
        size: if m.entry.is_directory { 0 } else { m.entry.size as nat },
        compressed_size: if m.entry.is_directory { 0 } else { m.compressed_size as nat },
        compression_method: m.method as nat,
        crc32: m.crc as nat,
        local_header_offset: wrapped(offset + delta),
        modified_millis: dos_millis(time as nat, date as nat),
        flags: 0x800,
    }
}

/// The sizes and the offset of a record survive the 32 bit fields and the zip64 extra.
proof fn lemma_extra_read(m: Measured, offset: nat, d: Seq<u8>, at: int, raw: Seq<u8>, x: Extras)
    requires
        0 <= at,
        at + central_extra_len(m, offset) <= d.len(),
        d.subrange(at, at + central_extra_len(m, offset)) == packed(central_extra(m, offset)),
        m.entry.size <= i64::MAX,
        m.compressed_size <= i64::MAX,
        offset <= i64::MAX,
        !has_big_sizes(m) && offset > U32_MAX ==> m.entry.size != U32_MAX && m.compressed_size != U32_MAX,
        x.size == short(m.entry.size as nat, has_big_sizes(m)),
        x.compressed_size == short(m.compressed_size as nat, has_big_sizes(m)),
        x.offset == short(offset, offset > U32_MAX),
    ensures
        extra_fields(d, at, at + central_extra_len(m, offset), raw, true, x) == Ok::<Extras, Seq<char>>(
            Extras { size: m.entry.size as nat, compressed_size: m.compressed_size as nat, offset, ..x },
        ),
{
    let n = central_extra_len(m, offset) as int;
    let wide = has_big_sizes(m);
    let far = offset > U32_MAX;
    if n > 0 {
        let fs = central_extra(m, offset);
        let p = packed(fs);
        let none = Seq::<u8>::empty();
        lemma_pow256();
        lemma_packed_len(fs);
        reveal_with_fuel(width, 6);
        assert(p + none =~= p);
        lemma_packed_value(fs, 0, none);
        lemma_packed_value(fs, 1, none);
        lemma_packed_value(fs, 2, none);
        assert(d.subrange(at, at + 2) =~= p.subrange(0, 2));
        assert(d.subrange(at + 2, at + 4) =~= p.subrange(2, 4));
        assert(d.subrange(at + 4, at + 12) =~= p.subrange(4, 12));
        if wide {
            lemma_packed_value(fs, 3, none);
            assert(d.subrange(at + 12, at + 20) =~= p.subrange(12, 20));
            if far {
                lemma_packed_value(fs, 4, none);
                assert(d.subrange(at + 20, at + 28) =~= p.subrange(20, 28));
            }
        }
        assert(field16(d, at) == ZIP64_EXTRA_ID);
        assert(field16(d, at + 2) == n - 4);
        reveal_with_fuel(extra_fields, 3);
    }
}

/// The record of a new entry describes that entry, wherever it stands in a directory.
/// A path has to be the one that its name stands for, a name to fit its length field,
/// and a date its 16 bits.
#[verifier::rlimit(30)]
pub proof fn law_record_describes_entry(m: Measured, offset: nat, before: Seq<u8>, after: Seq<u8>, delta: int)
    requires
        is_entry_path(m.entry.path@),
        recorded_name(m.entry.path@, m.entry.is_directory).len() <= 0xFFFF,
        m.entry.size <= i64::MAX,
        m.compressed_size <= i64::MAX,
        offset <= i64::MAX,
        !has_big_sizes(m) && offset > U32_MAX ==> m.entry.size != U32_MAX && m.compressed_size != U32_MAX,
        0 <= dos_pair(m.entry.modified_millis as int).0 < 0x1_0000,
        0 <= dos_pair(m.entry.modified_millis as int).1 < 0x1_0000,
    ensures
        record_entry(before + central_bytes(m, offset) + after, before.len() as int, delta) == Ok::<
            Option<EntryView>,
            Seq<char>,
        >(Some(entry_of(m, offset, delta))),
{
    let d = before + central_bytes(m, offset) + after;
    let o = before.len() as int;
    let fs = central_fields(m, offset);
    let p = packed(fs);
    let raw = recorded_name(m.entry.path@, m.entry.is_directory);
    let xs = packed(central_extra(m, offset));
    let name = if m.entry.is_directory { m.entry.path@ + "/"@ } else { m.entry.path@ };
    lemma_packed_len(fs);
    lemma_central_widths(m, offset);
    lemma_extra_len(m, offset);
    assert(p.len() == 46);
    assert(d =~= before + p + (raw + xs + after));
    lemma_record_fields(m, offset, before, raw + xs + after, d);
    let extra_start = o + 46 + raw.len();
    lemma_rows(before, p, raw, xs, after);
    encode_utf8_valid_utf8(name);
    encode_utf8_decode_utf8(name);
    assert(name_text(raw, true) == Ok::<Seq<char>, Seq<char>>(name));
    let x = Extras {
        size: field32(d, o + 24),
        compressed_size: field32(d, o + 20),
        offset: field32(d, o + 42),
        name,
        millis: dos_millis(field16(d, o + 12), field16(d, o + 14)),
    };
    lemma_extra_read(m, offset, d, extra_start, raw, x);
    lemma_no_trailing_slash(m.entry.path@);
    if m.entry.is_directory {
        lemma_directory_name(m.entry.path@);
        reveal_strlit("/");
        assert(name.last() == '/');
    } else {
        lemma_normal_stays(m.entry.path@);
        assert((0x81A4_0000nat / 16) % 2 == 0);
    }
    assert(utf8_flags(0x800));
    reveal(record_entry);
}

/// The rows of a record stand one behind the other.
proof fn lemma_rows(before: Seq<u8>, p: Seq<u8>, raw: Seq<u8>, xs: Seq<u8>, after: Seq<u8>)
    ensures
        ({
            let d = before + (p + raw + xs) + after;
            let at = before.len() + p.len();
            &&& d.subrange(at as int, (at + raw.len()) as int) == raw
            &&& d.subrange((at + raw.len()) as int, (at + raw.len() + xs.len()) as int) == xs
        }),
{
    let d = before + (p + raw + xs) + after;
    let at = before.len() + p.len();
    assert(d.subrange(at as int, (at + raw.len()) as int) =~= raw);
    assert(d.subrange((at + raw.len()) as int, (at + raw.len() + xs.len()) as int) =~= xs);
}

/// The fixed fields of a record, read back.
proof fn lemma_record_fields(m: Measured, offset: nat, before: Seq<u8>, rest: Seq<u8>, d: Seq<u8>)
    requires
        d =~= before + packed(central_fields(m, offset)) + rest,
        recorded_name(m.entry.path@, m.entry.is_directory).len() <= 0xFFFF,
        0 <= dos_pair(m.entry.modified_millis as int).0 < 0x1_0000,
        0 <= dos_pair(m.entry.modified_millis as int).1 < 0x1_0000,
    ensures
        ({
            let o = before.len() as int;
            let (time, date) = dos_pair(m.entry.modified_millis as int);
            &&& field32(d, o) == crate::archive::entry::CENTRAL_HEADER_SIG
            &&& field16(d, o + 8) == 0x800
            &&& field16(d, o + 10) == m.method
            &&& field16(d, o + 12) == time
            &&& field16(d, o + 14) == date
            &&& field32(d, o + 16) == m.crc
            &&& field32(d, o + 20) == short(m.compressed_size as nat, has_big_sizes(m))
            &&& field32(d, o + 24) == short(m.entry.size as nat, has_big_sizes(m))
            &&& field16(d, o + 28) == recorded_name(m.entry.path@, m.entry.is_directory).len()
            &&& field16(d, o + 30) == central_extra_len(m, offset)
            &&& field32(d, o + 38) == if m.entry.is_directory { 0x41ED_0010nat } else { 0x81A4_0000nat }
            &&& field32(d, o + 42) == short(offset, offset > U32_MAX)
        }),
{
    let fs = central_fields(m, offset);
    lemma_pow256();
    lemma_central_widths(m, offset);
    lemma_field_at(fs, 0, before, rest, d);
    lemma_field_at(fs, 3, before, rest, d);
    lemma_field_at(fs, 4, before, rest, d);
    lemma_field_at(fs, 5, before, rest, d);
    lemma_field_at(fs, 6, before, rest, d);
    lemma_field_at(fs, 7, before, rest, d);
    lemma_field_at(fs, 8, before, rest, d);
    lemma_field_at(fs, 9, before, rest, d);
    lemma_field_at(fs, 10, before, rest, d);
    lemma_field_at(fs, 11, before, rest, d);
    lemma_field_at(fs, 15, before, rest, d);
    lemma_field_at(fs, 16, before, rest, d);
}

/// Where the fields of a record stand.
proof fn lemma_central_widths(m: Measured, offset: nat)
    ensures
        ({
            let fs = central_fields(m, offset);
            &&& width(fs, 0) == 0
            &&& width(fs, 3) == 8
            &&& width(fs, 4) == 10
            &&& width(fs, 5) == 12
            &&& width(fs, 6) == 14
            &&& width(fs, 7) == 16
            &&& width(fs, 8) == 20
            &&& width(fs, 9) == 24
            &&& width(fs, 10) == 28
            &&& width(fs, 11) == 30
            &&& width(fs, 15) == 38
            &&& width(fs, 16) == 42
            &&& width(fs, 17) == 46
        }),
{
    reveal_with_fuel(width, 18);
}

/// A field of a packed row, read back from where the row stands.
proof fn lemma_field_at(fs: Seq<(nat, nat)>, k: int, before: Seq<u8>, rest: Seq<u8>, d: Seq<u8>)
    requires
        0 <= k < fs.len(),
        fs[k].0 < pow256(fs[k].1),
        d =~= before + packed(fs) + rest,
    ensures
        ({
            let at = before.len() + width(fs, k);
            crate::bytes::le_value(d.subrange(at as int, (at + fs[k].1) as int)) == fs[k].0
        }),
{
    let none = Seq::<u8>::empty();
    lemma_packed_value(fs, k, none);
    let p = packed(fs);
    assert(p + none =~= p);
    let at = before.len() + width(fs, k);
    assert(d.subrange(at as int, (at + fs[k].1) as int) =~= p.subrange(
        width(fs, k) as int,
        (width(fs, k) + fs[k].1) as int,
    ));
}

/// The zip64 extra is as long as the record says.
proof fn lemma_extra_len(m: Measured, offset: nat)
    ensures
        packed(central_extra(m, offset)).len() == central_extra_len(m, offset),
{
    lemma_packed_len(central_extra(m, offset));
    reveal_with_fuel(width, 6);
}

/// Where record `i` of `kept` stands in the new directory.
pub open spec fn kept_place(kept: Seq<RecordView>, i: int) -> int
    decreases i,
{
    if i <= 0 {
        0
    } else {
        kept_place(kept, i - 1) + kept[i - 1].len
    }
}

proof fn lemma_kept_place_prefix(kept: Seq<RecordView>, i: int)
    requires
        0 <= i < kept.len(),
    ensures
        kept_place(kept.drop_last(), i) == kept_place(kept, i),
    decreases i,
{
    if i > 0 {
        lemma_kept_place_prefix(kept, i - 1);
    }
}

proof fn lemma_kept_len(bytes: Seq<u8>, kept: Seq<RecordView>)
    requires
        forall|i: int|
            0 <= i < kept.len() ==> 0 <= (#[trigger] kept[i]).offset && 0 <= kept[i].len && kept[i].offset + kept[i].len
                <= bytes.len(),
    ensures
        record_bytes(bytes, kept).len() == kept_place(kept, kept.len() as int),
    decreases kept.len(),
{
    if kept.len() > 0 {
        let init = kept.drop_last();
        assert forall|i: int| 0 <= i < init.len() implies 0 <= (#[trigger] init[i]).offset && 0 <= init[i].len
            && init[i].offset + init[i].len <= bytes.len() by {
            assert(init[i] == kept[i]);
        }
        lemma_kept_len(bytes, init);
        lemma_kept_place_prefix(kept, kept.len() - 1);
        assert(kept[kept.len() - 1] == kept.last());
    }
}

/// The local header of a new entry leads to the data that follows it, and says how that is
/// compressed. The name has to fit its length field.
pub proof fn law_local_header_leads_to_data(m: Measured, data: Seq<u8>)
    requires
        recorded_name(m.entry.path@, m.entry.is_directory).len() <= 0xFFFF,
    ensures
        ({
            let d = local_bytes(m) + data;
            &&& field32(d, 0) == LOCAL_HEADER_SIG
            &&& field16(d, 8) == m.method
            &&& LOCAL_HEADER_SIZE + field16(d, 26) + field16(d, 28) == local_bytes(m).len()
        }),
{
    let fs = local_fields(m);
    let p = packed(fs);
    let name = recorded_name(m.entry.path@, m.entry.is_directory);
    let xs = packed(local_extra(m));
    let d = local_bytes(m) + data;
    lemma_pow256();
    lemma_packed_len(fs);
    lemma_packed_len(local_extra(m));
    reveal_with_fuel(width, 12);
    assert(d =~= p + (name + xs + data));
    lemma_packed_value(fs, 0, name + xs + data);
    lemma_packed_value(fs, 3, name + xs + data);
    lemma_packed_value(fs, 9, name + xs + data);
    lemma_packed_value(fs, 10, name + xs + data);
}

/// A record that is kept survives byte for byte, behind the kept records before it.
pub proof fn law_kept_record_survives(bytes: Seq<u8>, kept: Seq<RecordView>, i: int, after: Seq<u8>)
    requires
        0 <= i < kept.len(),
        forall|k: int|
            0 <= k < kept.len() ==> 0 <= (#[trigger] kept[k]).offset && 0 <= kept[k].len && kept[k].offset + kept[k].len
                <= bytes.len(),
    ensures
        0 <= kept_place(kept, i),
        kept_place(kept, i) + kept[i].len <= record_bytes(bytes, kept).len(),
        (record_bytes(bytes, kept) + after).subrange(kept_place(kept, i), kept_place(kept, i) + kept[i].len)
            == bytes.subrange(kept[i].offset, kept[i].offset + kept[i].len),
    decreases kept.len(),
{
    let init = kept.drop_last();
    assert forall|k: int| 0 <= k < init.len() implies 0 <= (#[trigger] init[k]).offset && 0 <= init[k].len
        && init[k].offset + init[k].len <= bytes.len() by {
        assert(init[k] == kept[k]);
    }
    lemma_kept_len(bytes, init);
    lemma_kept_place_prefix(kept, i);
    let last = bytes.subrange(kept.last().offset, kept.last().offset + kept.last().len);
    if i < kept.len() - 1 {
        law_kept_record_survives(bytes, init, i, last + after);
        assert(record_bytes(bytes, kept) + after =~= record_bytes(bytes, init) + (last + after));
        assert(init[i] == kept[i]);
    } else {
        assert(kept[i] == kept.last());
        let at = kept_place(kept, i);
        assert((record_bytes(bytes, kept) + after).subrange(at, at + kept[i].len) =~= last);
    }
}

/// Two byte strings agree on a run of `n` bytes.
spec fn agree(d: Seq<u8>, o: int, e: Seq<u8>, p: int, n: int) -> bool {
    &&& 0 <= o && 0 <= p && 0 <= n
    &&& o + n <= d.len() && p + n <= e.len()
    &&& d.subrange(o, o + n) == e.subrange(p, p + n)
}

proof fn lemma_agree_part(d: Seq<u8>, o: int, e: Seq<u8>, p: int, n: int, from: int, to: int)
    requires
        agree(d, o, e, p, n),
        0 <= from <= to <= n,
    ensures
        d.subrange(o + from, o + to) == e.subrange(p + from, p + to),
{
    assert(d.subrange(o + from, o + to) =~= d.subrange(o, o + n).subrange(from, to));
    assert(e.subrange(p + from, p + to) =~= e.subrange(p, p + n).subrange(from, to));
}

proof fn lemma_agree_extras(
    d: Seq<u8>,
    o: int,
    e: Seq<u8>,
    p: int,
    n: int,
    i: int,
    end: int,
    raw: Seq<u8>,
    utf8: bool,
    x: Extras,
)
    requires
        agree(d, o, e, p, n),
        0 <= i <= end <= n,
    ensures
        extra_fields(d, o + i, o + end, raw, utf8, x) == extra_fields(e, p + i, p + end, raw, utf8, x),
    decreases end - i,
{
    if i + 4 <= end {
        lemma_agree_part(d, o, e, p, n, i, i + 2);
        lemma_agree_part(d, o, e, p, n, i + 2, i + 4);
        let len = field16(d, o + i + 2) as int;
        let body = i + 4;
        let next = body + len;
        if next <= end {
            assert(extra_field(d, field16(d, o + i), o + body, o + next, raw, utf8, x) == extra_field(
                e,
                field16(e, p + i),
                p + body,
                p + next,
                raw,
                utf8,
                x,
            )) by {
                if len >= 8 {
                    lemma_agree_part(d, o, e, p, n, body, body + 8);
                }
                if len >= 16 {
                    lemma_agree_part(d, o, e, p, n, body + 8, body + 16);
                }
                if len >= 24 {
                    lemma_agree_part(d, o, e, p, n, body + 16, body + 24);
                }
                if len >= 5 {
                    lemma_agree_part(d, o, e, p, n, body + 1, body + 5);
                    lemma_agree_part(d, o, e, p, n, body + 5, next);
                }
                if len >= 1 {
                    lemma_agree_part(d, o, e, p, n, body, body + 1);
                    assert(d.subrange(o + body, o + body + 1)[0] == d[o + body]);
                    assert(e.subrange(p + body, p + body + 1)[0] == e[p + body]);
                }
            }
            match extra_field(d, field16(d, o + i), o + body, o + next, raw, utf8, x) {
                Ok(y) => {
                    lemma_agree_extras(d, o, e, p, n, next, end, raw, utf8, y);
                },
                Err(m) => {},
            }
        }
    }
}

/// What a record describes depends on its bytes alone, not on where it stands: so a
/// record that is carried over describes the same entry as before.
pub proof fn law_record_moves(d: Seq<u8>, o: int, e: Seq<u8>, p: int, n: int, delta: int)
    requires
        0 <= o && 0 <= p,
        o + n <= d.len(),
        p + n <= e.len(),
        d.subrange(o, o + n) == e.subrange(p, p + n),
        n >= CENTRAL_HEADER_SIZE,
        n >= CENTRAL_HEADER_SIZE + field16(d, o + 28) + field16(d, o + 30),
    ensures
        record_entry(d, o, delta) == record_entry(e, p, delta),
{
    reveal(record_entry);
    assert(agree(d, o, e, p, n));
    lemma_agree_part(d, o, e, p, n, 0, 4);
    lemma_agree_part(d, o, e, p, n, 8, 10);
    lemma_agree_part(d, o, e, p, n, 10, 12);
    lemma_agree_part(d, o, e, p, n, 12, 14);
    lemma_agree_part(d, o, e, p, n, 14, 16);
    lemma_agree_part(d, o, e, p, n, 16, 20);
    lemma_agree_part(d, o, e, p, n, 20, 24);
    lemma_agree_part(d, o, e, p, n, 24, 28);
    lemma_agree_part(d, o, e, p, n, 28, 30);
    lemma_agree_part(d, o, e, p, n, 30, 32);
    lemma_agree_part(d, o, e, p, n, 38, 42);
    lemma_agree_part(d, o, e, p, n, 42, 46);
    let nl = field16(d, o + 28) as int;
    let xl = field16(d, o + 30) as int;
    lemma_agree_part(d, o, e, p, n, 46, 46 + nl);
    let raw = d.subrange(o + 46, o + 46 + nl);
    let utf8 = utf8_flags(field16(d, o + 8));
    match name_text(raw, utf8) {
        Ok(name) => {
            let x = Extras {
                size: field32(d, o + 24),
                compressed_size: field32(d, o + 20),
                offset: field32(d, o + 42),
                name,
                millis: dos_millis(field16(d, o + 12), field16(d, o + 14)),
            };
            lemma_agree_extras(d, o, e, p, n, 46 + nl, 46 + nl + xl, raw, utf8, x);
        },
        Err(m) => {},
    }
}

/// The records of a directory that can be listed, each with its path.
pub open spec fn listed_records(cd: Seq<u8>) -> Seq<RecordView> {
    named_records(cd, records_from(cd, 0))->Ok_0
}

/// The tree of an archive whose directory is `cd`.
pub open spec fn listed_tree(cd: Seq<u8>, delta: int) -> Tree {
    archive_tree(described(cd, records_from(cd, 0), delta)->Ok_0.0)
}

/// The records that are left after the entries that `paths` cover were removed.
pub open spec fn left_records(cd: Seq<u8>, delta: int, all: Seq<EntryView>, paths: Seq<Seq<char>>) -> Seq<RecordView> {
    without(listed_records(cd), path_set(paths_of(covered(all, listed_tree(cd, delta), paths))))
}

/// What each record of a directory describes is among its entries, under the path of the
/// record.
proof fn lemma_described_records(cd: Seq<u8>, recs: Seq<(int, int)>, delta: int)
    requires
        described(cd, recs, delta) is Ok,
    ensures
        named_records(cd, recs) is Ok,
        forall|i: int|
            0 <= i < recs.len() ==> match #[trigger] record_entry(cd, recs[i].0, delta) {
                Err(m) => false,
                Ok(None) => true,
                Ok(Some(e)) => described(cd, recs, delta)->Ok_0.0.contains(e),
            },
    decreases recs.len(),
{
    if recs.len() > 0 {
        let init = recs.drop_last();
        lemma_described_records(cd, init, delta);
        reveal(record_entry);
        let a = described(cd, init, delta)->Ok_0.0;
        let b = described(cd, recs, delta)->Ok_0.0;
        assert forall|i: int| 0 <= i < recs.len() implies match #[trigger] record_entry(cd, recs[i].0, delta) {
            Err(m) => false,
            Ok(None) => true,
            Ok(Some(e)) => b.contains(e),
        } by {
            if i < init.len() {
                assert(init[i] == recs[i]);
                match record_entry(cd, init[i].0, delta) {
                    Ok(Some(e)) => {
                        let k = choose|k: int| 0 <= k < a.len() && a[k] == e;
                        assert(b[k] == e);
                    },
                    _ => {},
                }
            } else {
                match record_entry(cd, recs.last().0, delta) {
                    Ok(Some(e)) => {
                        assert(b[b.len() - 1] == e);
                    },
                    _ => {},
                }
            }
        }
    }
}

/// After a removal no record is left at a path that was given, nor under it if it is that of
/// a directory. With [`law_nothing_is_left`](crate::archive::index::law_nothing_is_left) the
/// archive lists nothing there any more.
pub proof fn law_removed_is_gone(
    cd: Seq<u8>,
    delta: int,
    list: Seq<ZipEntry>,
    paths: Seq<Seq<char>>,
    k: int,
    j: int,
)
    requires
        described(cd, records_from(cd, 0), delta) is Ok,
        lists(list, listed_tree(cd, delta)),
        0 <= k < paths.len(),
        normalised(paths[k]) is Some,
        listed_tree(cd, delta).contains_key(normalised(paths[k])->Some_0),
        0 <= j < left_records(cd, delta, entry_views(list), paths).len(),
    ensures
        ({
            let p = normalised(paths[k])->Some_0;
            let left = left_records(cd, delta, entry_views(list), paths)[j].path;
            &&& left != p
            &&& listed_tree(cd, delta)[p].is_directory ==> !leads_to(p, left)
        }),
{
    let recs = records_from(cd, 0);
    let rv = listed_records(cd);
    let m = listed_tree(cd, delta);
    let all = entry_views(list);
    let c = covered(all, m, paths);
    let gone = path_set(paths_of(c));
    let p = normalised(paths[k])->Some_0;
    let left = without(rv, gone)[j];
    let parsed = described(cd, recs, delta)->Ok_0.0;
    lemma_described_records(cd, recs, delta);
    lemma_named(cd, recs);
    law_kept_records(rv, gone);
    assert(rv.contains(left) && !gone.contains(left.path));
    assert(has_path(list, p));
    let at = choose|at: int| 0 <= at < list.len() && (#[trigger] list[at])@.path == p;
    assert(m[p].path == p);
    law_removal_covers(all, m, paths, k, at);
    if left.path == p {
        let x = choose|x: int| 0 <= x < c.len() && c[x] == m[p];
        assert(paths_of(c)[x] == p);
        assert(paths_of(c).contains(p));
    } else if m[p].is_directory && leads_to(p, left.path) {
        let i = choose|i: int| 0 <= i < rv.len() && rv[i] == left;
        assert(named_record(cd, recs[i].0, recs[i].1) == Ok::<RecordView, Seq<char>>(rv[i]));
        reveal_strlit("/");
        assert(left.path.len() > 0);
        reveal(record_entry);
        let e = record_entry(cd, recs[i].0, delta)->Ok_0->Some_0;
        assert(e.path == left.path);
        assert(parsed.contains(e));
        let n = choose|n: int| 0 <= n < parsed.len() && parsed[n] == e;
        law_records_are_listed(parsed, n);
        assert(has_path(list, left.path));
        let y = choose|y: int| 0 <= y < list.len() && (#[trigger] list[y])@.path == left.path;
        assert(all[y] == list[y]@);
        law_removal_covers(all, m, paths, k, y);
        let x = choose|x: int| 0 <= x < c.len() && c[x] == all[y];
        assert(paths_of(c)[x] == left.path);
        assert(paths_of(c).contains(left.path));
    }
}

/// A record that is neither at nor under one of the paths stays when they are removed.
pub proof fn law_others_stay(cd: Seq<u8>, delta: int, list: Seq<ZipEntry>, paths: Seq<Seq<char>>, i: int)
    requires
        described(cd, records_from(cd, 0), delta) is Ok,
        lists(list, listed_tree(cd, delta)),
        0 <= i < listed_records(cd).len(),
        forall|k: int|
            0 <= k < paths.len() && normalised(#[trigger] paths[k]) is Some ==> !leads_to(
                normalised(paths[k])->Some_0,
                listed_records(cd)[i].path,
            ),
    ensures
        left_records(cd, delta, entry_views(list), paths).contains(listed_records(cd)[i]),
{
    let rv = listed_records(cd);
    let m = listed_tree(cd, delta);
    let all = entry_views(list);
    let c = covered(all, m, paths);
    let gone = path_set(paths_of(c));
    law_kept_records(rv, gone);
    if gone.contains(rv[i].path) {
        assert(paths_of(c).contains(rv[i].path));
        let x = choose|x: int| 0 <= x < paths_of(c).len() && paths_of(c)[x] == rv[i].path;
        assert(c.contains(c[x]));
        law_removal_spares(all, m, paths, c[x]);
        let k = choose|k: int|
            0 <= k < paths.len() && normalised(#[trigger] paths[k]) is Some && m.contains_key(normalised(paths[k])->Some_0) && {
                let named = m[normalised(paths[k])->Some_0];
                c[x] == named || named.is_directory && has_prefix(c[x].path, named.path + "/"@)
            };
        let p = normalised(paths[k])->Some_0;
        assert(has_path(list, p));
        let at = choose|at: int| 0 <= at < list.len() && (#[trigger] list[at])@.path == p;
        assert(m[p].path == p);
        assert(leads_to(p, rv[i].path));
    }
}

/// A directory above an entry is listed with it.
proof fn lemma_above_is_listed(m: Tree, above: Seq<char>, p: Seq<char>)
    requires
        is_closed(m),
        m.contains_key(p),
        above.len() > 0,
        leads_to(above, p),
    ensures
        m.contains_key(above),
    decreases p.len(),
{
    if above != p {
        reveal_strlit("/");
        lemma_last_place(p, '/');
        let at = last_place(p, '/');
        let parent = parent_of(p);
        assert(p.take(above.len() as int + 1) == above + "/"@);
        assert(p[above.len() as int] == (above + "/"@)[above.len() as int]);
        assert(at >= above.len());
        assert(is_closed_at(m, p));
        if at == above.len() {
            assert(parent =~= above) by {
                assert(p.take(above.len() as int + 1).take(at) =~= parent);
            }
        } else {
            assert(parent.take(above.len() as int + 1) =~= p.take(above.len() as int + 1));
            lemma_above_is_listed(m, above, parent);
        }
    }
}

/// A path below one directory, carried over to another, is a path of its own.
proof fn lemma_moved_path(path: Seq<char>, dir: Seq<char>, renamed: Seq<char>)
    requires
        has_prefix(path, dir + "/"@),
        is_normal(path),
        !path.contains('\\'),
        is_entry_path(renamed),
    ensures
        normalised(moved_path(path, dir, renamed)) == Some(moved_path(path, dir, renamed)),
        leads_to(renamed, moved_path(path, dir, renamed)),
{
    reveal_strlit("/");
    let n = (dir + "/"@).len() as int;
    let rest = path.skip(n);
    let to = moved_path(path, dir, renamed);
    assert("/"@ =~= seq!['/']);
    assert(path =~= dir.push('/') + rest) by {
        assert(path.take(n) == dir + "/"@);
        assert(path =~= path.take(n) + rest);
    }
    assert(to =~= renamed.push('/') + rest);
    assert(to.take(renamed.len() as int + 1) =~= renamed + "/"@);
    lemma_split_concat(dir, rest, '/');
    lemma_split_concat(renamed, rest, '/');
    let a = split(dir, '/');
    let b = split(renamed, '/');
    let r = split(rest, '/');
    let ps = split(path, '/');
    let ts = split(to, '/');
    assert forall|i: int| 0 <= i < ts.len() implies is_kept(#[trigger] ts[i]) && ts[i] != ".."@ by {
        if i < b.len() {
            assert(ts[i] == b[i]);
        } else {
            assert(ts[i] == r[i - b.len()]);
            assert(ps[a.len() + (i - b.len())] == r[i - b.len()]);
        }
    }
    assert forall|i: int| 0 <= i < to.len() implies to[i] != '\\' by {
        if i < renamed.len() {
            assert(renamed.contains(renamed[i]));
        } else if i > renamed.len() {
            assert(to[i] == path[n + (i - renamed.len() - 1)]);
            assert(path.contains(path[n + (i - renamed.len() - 1)]));
        }
    }
    assert(!has_drive(to)) by {
        if has_drive(to) && renamed.len() == 1 {
            assert(to[1] == '/');
        }
    }
    lemma_normal_stays(to);
}

proof fn lemma_all_move(m: Tree, old: Seq<Seq<char>>, v: Seq<EntryView>, dir: Seq<char>, renamed: Seq<char>)
    requires
        is_closed(m),
        is_entry_path(renamed),
        !m.contains_key(renamed),
        forall|i: int| 0 <= i < old.len() ==> m.contains_key(#[trigger] old[i]),
        forall|i: int|
            0 <= i < v.len() ==> has_prefix((#[trigger] v[i]).path, dir + "/"@) && is_normal(v[i].path) && !v[i].path.contains(
                '\\',
            ),
    ensures
        moved_entries(old, v, dir, renamed) == Ok::<Seq<(EntryView, Seq<char>)>, Seq<char>>(
            Seq::new(v.len(), |i: int| (v[i], moved_path(v[i].path, dir, renamed))),
        ),
    decreases v.len(),
{
    let want = Seq::new(v.len(), |i: int| (v[i], moved_path(v[i].path, dir, renamed)));
    if v.len() > 0 {
        let init = v.drop_last();
        assert forall|i: int| 0 <= i < init.len() implies has_prefix((#[trigger] init[i]).path, dir + "/"@) && is_normal(
            init[i].path,
        ) && !init[i].path.contains('\\') by {
            assert(init[i] == v[i]);
        }
        lemma_all_move(m, old, init, dir, renamed);
        let last = v[v.len() - 1];
        assert(has_prefix(last.path, dir + "/"@) && is_normal(last.path));
        lemma_moved_path(last.path, dir, renamed);
        let to = moved_path(last.path, dir, renamed);
        if old.contains(to) {
            let k = choose|k: int| 0 <= k < old.len() && old[k] == to;
            assert(m.contains_key(old[k]));
            lemma_above_is_listed(m, renamed, to);
        }
        assert(Seq::new(init.len(), |i: int| (init[i], moved_path(init[i].path, dir, renamed))).push((last, to)) =~= want);
    } else {
        assert(want =~= Seq::empty());
    }
}

/// Every entry of a directory moves with it: to the same place below the new path, which no
/// other entry has, also where the new path is below the directory itself.
pub proof fn law_directory_moves(all: Seq<EntryView>, m: Tree, dir: Seq<char>, renamed: Seq<char>)
    requires
        is_closed(m),
        is_entry_path(renamed),
        !m.contains_key(renamed),
        m.contains_key(dir),
        forall|i: int| 0 <= i < all.len() ==> m.contains_key((#[trigger] all[i]).path),
        forall|i: int| 0 <= i < all.len() ==> is_normal((#[trigger] all[i]).path) && !all[i].path.contains('\\'),
    ensures
        ({
            let below = entries_below(all, dir);
            let v = standing(below);
            let moved = moved_entries(paths_of(below).push(dir), v, dir, renamed);
            &&& moved is Ok
            &&& moved->Ok_0.len() == v.len()
            &&& forall|i: int|
                0 <= i < v.len() ==> (#[trigger] moved->Ok_0[i]) == (v[i], moved_path(v[i].path, dir, renamed))
                    && !m.contains_key(moved->Ok_0[i].1)
            &&& forall|i: int|
                0 <= i < all.len() && has_prefix((#[trigger] all[i]).path, dir + "/"@) && !all[i].is_directory
                    ==> v.contains(all[i])
        }),
{
    let below = entries_below(all, dir);
    let v = standing(below);
    lemma_below(all, dir);
    lemma_standing(below);
    assert forall|i: int| 0 <= i < v.len() implies has_prefix((#[trigger] v[i]).path, dir + "/"@) && is_normal(v[i].path)
        && !v[i].path.contains('\\') by {
        let k = choose|k: int| 0 <= k < below.len() && below[k] == v[i];
        assert(all.contains(below[k]));
        let n = choose|n: int| 0 <= n < all.len() && all[n] == below[k];
        assert(is_normal(all[n].path));
    }
    let old = paths_of(below).push(dir);
    assert forall|i: int| 0 <= i < old.len() implies m.contains_key(#[trigger] old[i]) by {
        if i < below.len() {
            assert(old[i] == below[i].path);
            assert(all.contains(below[i]));
            let n = choose|n: int| 0 <= n < all.len() && all[n] == below[i];
            assert(m.contains_key(all[n].path));
        }
    }
    lemma_all_move(m, old, v, dir, renamed);
    let moved = moved_entries(old, v, dir, renamed)->Ok_0;
    assert forall|i: int| 0 <= i < v.len() implies (#[trigger] moved[i]) == (v[i], moved_path(v[i].path, dir, renamed))
        && !m.contains_key(moved[i].1) by {
        lemma_moved_path(v[i].path, dir, renamed);
        if m.contains_key(moved[i].1) {
            lemma_above_is_listed(m, renamed, moved[i].1);
        }
    }
    assert forall|i: int|
        0 <= i < all.len() && has_prefix((#[trigger] all[i]).path, dir + "/"@) && !all[i].is_directory implies v.contains(
        all[i],
    ) by {
        assert(below.contains(all[i]));
        let k = choose|k: int| 0 <= k < below.len() && below[k] == all[i];
        assert(v.contains(below[k]));
    }
}

} // verus!
