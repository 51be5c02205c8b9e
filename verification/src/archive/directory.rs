//! Finding and reading the central directory of an archive.
use vstd::prelude::*;
use crate::archive::entry::{
    record_entry, record_fits, EntryView, ZipEntry, CENTRAL_HEADER_SIG, CENTRAL_HEADER_SIZE, U32_MAX,
};
use crate::archive::fields::{field16, field32, field64, too_large, u16_at, u32_at, u64_at};
use crate::archive::index::{archive_tree, entry_views, ZipIndex};
use crate::error::{fails_protocol, protocol, protocol_of, Result};
use crate::text::{decimal, decimal_text};

verus! {

pub const EOCD_SIG: u32 = 0x06054b50;
pub const ZIP64_EOCD_SIG: u32 = 0x06064b50;
pub const ZIP64_LOCATOR_SIG: u32 = 0x07064b50;

pub const EOCD_SIZE: usize = 22;
pub const ZIP64_EOCD_SIZE: usize = 56;
pub const ZIP64_LOCATOR_SIZE: usize = 20;
pub const MAX_COMMENT_SIZE: usize = 0xFFFF;

/// An index of this many entries already costs over 100 MB of RAM, which is where
/// browsing stops being a sensible thing to offer.
pub const MAX_ENTRIES: usize = 500_000;

/// Central directories bigger than this are refused rather than read into memory.
pub const MAX_CENTRAL_DIRECTORY: u64 = 67_108_864;

/// Where the central directory is and how big. The position is derived from where
/// the end records are rather than the offset they record, so an archive with data
/// prepended still resolves; every stored offset is then shifted by `delta`.
#[derive(Debug, Clone, Copy, PartialEq, Eq, Structural)]
pub struct Directory {
    pub start: u64,
    pub size: u64,
    pub entries: u64,
    pub delta: i64,
}

/// What the tail of an archive says of its central directory.
#[derive(Debug, Clone, Copy, PartialEq, Eq, Structural)]
pub enum Located {
    /// Where it is.
    Found(Directory),
    /// The zip64 end record, which has to be read first, is at this offset.
    AtRecord(u64),
}

/// The part of a file of this size that can hold the end records: (start, length).
pub open spec fn tail_of(file_size: nat) -> (nat, nat) {
    let most = (EOCD_SIZE + MAX_COMMENT_SIZE) as nat;
    let len = if file_size < most { file_size } else { most };
    ((file_size - len) as nat, len)
}

/// The part of the file to read first: (start, length).
pub fn tail_range(file_size: u64) -> (r: Result<(u64, usize)>)
    ensures
        file_size < EOCD_SIZE ==> fails_protocol(r, "File is too small to be a zip archive"@),
        file_size >= EOCD_SIZE ==> r is Ok && (r->Ok_0.0 as nat, r->Ok_0.1 as nat) == tail_of(file_size as nat),
{
    if file_size < EOCD_SIZE as u64 {
        return Err(protocol("File is too small to be a zip archive"));
    }
    let most: u64 = (EOCD_SIZE + MAX_COMMENT_SIZE) as u64;
    let len: u64 = if file_size < most { file_size } else { most };
    Ok((file_size - len, len as usize))
}

/// An end record starts at `tail[i]`.
pub open spec fn is_end_record(tail: Seq<u8>, i: int) -> bool {
    0 <= i && i + EOCD_SIZE <= tail.len() && field32(tail, i) == EOCD_SIG
}

/// An end record starts at `tail[i]`, and its comment reaches the end of the file.
pub open spec fn is_exact_end_record(tail: Seq<u8>, i: int) -> bool {
    is_end_record(tail, i) && i + EOCD_SIZE + field16(tail, i + 20) == tail.len()
}

/// Where the end record is: the last whose comment reaches the end, or else the last.
pub open spec fn end_record_at(tail: Seq<u8>, i: int) -> bool {
    if exists|k: int| is_exact_end_record(tail, k) {
        is_exact_end_record(tail, i) && forall|k: int| i < k ==> !is_exact_end_record(tail, k)
    } else {
        is_end_record(tail, i) && forall|k: int| i < k ==> !is_end_record(tail, k)
    }
}

/// Where the end of central directory record starts in the tail of an archive.
pub fn find_eocd(tail: &[u8]) -> (r: Option<usize>)
    ensures
        r is None <==> forall|k: int| !is_end_record(tail@, k),
        r is Some ==> end_record_at(tail@, r->Some_0 as int) && r->Some_0 + EOCD_SIZE <= tail.len(),
{
    if tail.len() < EOCD_SIZE {
        return None;
    }
    let last: usize = tail.len() - EOCD_SIZE;
    let mut i: usize = last + 1;
    while i > 0
        invariant
            i <= last + 1,
            last + EOCD_SIZE == tail.len(),
            forall|k: int| i <= k ==> !is_exact_end_record(tail@, k),
        decreases i,
    {
        i -= 1;
        if u32_at(tail, i) == EOCD_SIG as u64 && u16_at(tail, i + 20) as usize == tail.len() - i - EOCD_SIZE {
            proof {
                assert(is_exact_end_record(tail@, i as int));
            }
            return Some(i);
        }
    }
    // some writers record a comment length that does not reach the end of the file
    i = last + 1;
    while i > 0
        invariant
            i <= last + 1,
            last + EOCD_SIZE == tail.len(),
            forall|k: int| !is_exact_end_record(tail@, k),
            forall|k: int| i <= k ==> !is_end_record(tail@, k),
        decreases i,
    {
        i -= 1;
        if u32_at(tail, i) == EOCD_SIG as u64 {
            proof {
                assert(is_end_record(tail@, i as int));
            }
            return Some(i);
        }
    }
    None
}

/// The directory of `size` bytes that ends at `position`, its records counted from
/// `offset`.
pub open spec fn directory_before(position: nat, size: nat, offset: nat, entries: nat) -> core::result::Result<
    Directory,
    Seq<char>,
> {
    if size > position {
        Err("Corrupt zip archive: invalid central directory"@)
    } else {
        Ok(
            Directory {
                start: (position - size) as u64,
                size: size as u64,
                entries: entries as u64,
                delta: (position - size - offset) as i64,
            },
        )
    }
}

/// The directory of `size` bytes that ends at `position`.
fn directory_ending(position: u64, size: u64, offset: u64, entries: u64) -> (r: Result<Directory>)
    requires
        position <= i64::MAX,
        offset <= i64::MAX,
    ensures
        r is Ok <==> directory_before(position as nat, size as nat, offset as nat, entries as nat) is Ok,
        r is Ok ==> r->Ok_0 == directory_before(position as nat, size as nat, offset as nat, entries as nat)->Ok_0,
        r is Err ==> fails_protocol(
            r,
            directory_before(position as nat, size as nat, offset as nat, entries as nat)->Err_0,
        ),
{
    if size > position {
        return Err(protocol("Corrupt zip archive: invalid central directory"));
    }
    let start: u64 = position - size;
    Ok(Directory { start, size, entries, delta: start as i64 - offset as i64 })
}

/// What the zip64 end record at `d[at..]`, which is at `position` in the file, says.
pub open spec fn zip64_directory(d: Seq<u8>, at: int, position: nat) -> core::result::Result<Directory, Seq<char>> {
    let entries = field64(d, at + 32);
    let size = field64(d, at + 40);
    let offset = field64(d, at + 48);
    if entries > i64::MAX {
        Err(too_large(entries))
    } else if size > i64::MAX {
        Err(too_large(size))
    } else if offset > i64::MAX {
        Err(too_large(offset))
    } else {
        directory_before(position, size, offset, entries)
    }
}

/// The directory that the zip64 end record at `d[at..]` describes.
fn read_zip64_directory(d: &[u8], at: usize, position: u64) -> (r: Result<Directory>)
    requires
        at + ZIP64_EOCD_SIZE <= d.len(),
        position <= i64::MAX,
    ensures
        r is Ok <==> zip64_directory(d@, at as int, position as nat) is Ok,
        r is Ok ==> r->Ok_0 == zip64_directory(d@, at as int, position as nat)->Ok_0,
        r is Err ==> fails_protocol(r, zip64_directory(d@, at as int, position as nat)->Err_0),
{
    let entries: u64 = match u64_at(d, at + 32) {
        Ok(v) => v,
        Err(e) => {
            return Err(e);
        },
    };
    let size: u64 = match u64_at(d, at + 40) {
        Ok(v) => v,
        Err(e) => {
            return Err(e);
        },
    };
    let offset: u64 = match u64_at(d, at + 48) {
        Ok(v) => v,
        Err(e) => {
            return Err(e);
        },
    };
    directory_ending(position, size, offset, entries)
}

/// A zip64 locator stands right before the end record at `eocd`.
pub open spec fn has_locator(tail: Seq<u8>, eocd: int) -> bool {
    eocd >= ZIP64_LOCATOR_SIZE && field32(tail, eocd - ZIP64_LOCATOR_SIZE) == ZIP64_LOCATOR_SIG
}

/// A zip64 end record stands right before the locator that precedes `eocd`.
pub open spec fn has_zip64_record(tail: Seq<u8>, eocd: int) -> bool {
    let at = eocd - ZIP64_LOCATOR_SIZE - ZIP64_EOCD_SIZE;
    at >= 0 && field32(tail, at) == ZIP64_EOCD_SIG
}

/// What the end records in the tail say of the central directory.
pub open spec fn located(tail: Seq<u8>, tail_start: nat, eocd: int) -> core::result::Result<Located, Seq<char>> {
    let entries = field16(tail, eocd + 10);
    let size = field32(tail, eocd + 12);
    let offset = field32(tail, eocd + 16);
    let in_tail = eocd - ZIP64_LOCATOR_SIZE - ZIP64_EOCD_SIZE;
    if !has_locator(tail, eocd) {
        if size == U32_MAX || offset == U32_MAX {
            Err("Corrupt zip archive: zip64 fields without a zip64 locator"@)
        } else {
            match directory_before((tail_start + eocd) as nat, size, offset, entries) {
                Ok(d) => Ok(Located::Found(d)),
                Err(m) => Err(m),
            }
        }
    } else if has_zip64_record(tail, eocd) {
        match zip64_directory(tail, in_tail, (tail_start + in_tail) as nat) {
            Ok(d) => Ok(Located::Found(d)),
            Err(m) => Err(m),
        }
    } else {
        let recorded = field64(tail, eocd - ZIP64_LOCATOR_SIZE + 8);
        if recorded > i64::MAX {
            Err(too_large(recorded))
        } else {
            Ok(Located::AtRecord(recorded as u64))
        }
    }
}

/// What the end records say of the central directory. `tail` is the file from
/// `tail_start` on, and its end record starts at `eocd`.
pub fn locate_central_directory(tail: &[u8], tail_start: u64, eocd: usize) -> (r: Result<Located>)
    requires
        eocd + EOCD_SIZE <= tail.len(),
        tail_start + tail.len() <= i64::MAX,
    ensures
        r is Ok <==> located(tail@, tail_start as nat, eocd as int) is Ok,
        r is Ok ==> r->Ok_0 == located(tail@, tail_start as nat, eocd as int)->Ok_0,
        r is Err ==> fails_protocol(r, located(tail@, tail_start as nat, eocd as int)->Err_0),
{
    let entries: u64 = u16_at(tail, eocd + 10);
    let size: u64 = u32_at(tail, eocd + 12);
    let offset: u64 = u32_at(tail, eocd + 16);
    if eocd < ZIP64_LOCATOR_SIZE || u32_at(tail, eocd - ZIP64_LOCATOR_SIZE) != ZIP64_LOCATOR_SIG as u64 {
        if size == U32_MAX || offset == U32_MAX {
            return Err(protocol("Corrupt zip archive: zip64 fields without a zip64 locator"));
        }
        return match directory_ending(tail_start + eocd as u64, size, offset, entries) {
            Ok(d) => Ok(Located::Found(d)),
            Err(e) => Err(e),
        };
    }
    let locator: usize = eocd - ZIP64_LOCATOR_SIZE;
    // the zip64 end record normally sits right before its locator, so is already read
    if locator >= ZIP64_EOCD_SIZE {
        let in_tail: usize = locator - ZIP64_EOCD_SIZE;
        if u32_at(tail, in_tail) == ZIP64_EOCD_SIG as u64 {
            return match read_zip64_directory(tail, in_tail, tail_start + in_tail as u64) {
                Ok(d) => Ok(Located::Found(d)),
                Err(e) => Err(e),
            };
        }
    }
    match u64_at(tail, locator + 8) {
        Ok(recorded) => Ok(Located::AtRecord(recorded)),
        Err(e) => Err(e),
    }
}

/// What the zip64 end record that the locator led to, at `recorded` in the file, says.
pub fn locate_from_record(record: &[u8], recorded: u64) -> (r: Result<Directory>)
    requires
        record.len() == ZIP64_EOCD_SIZE,
        recorded <= i64::MAX,
    ensures
        field32(record@, 0) != ZIP64_EOCD_SIG ==> fails_protocol(
            r,
            "Corrupt zip archive: no zip64 end of central directory record"@,
        ),
        field32(record@, 0) == ZIP64_EOCD_SIG ==> {
            &&& r is Ok <==> zip64_directory(record@, 0, recorded as nat) is Ok
            &&& r is Ok ==> r->Ok_0 == zip64_directory(record@, 0, recorded as nat)->Ok_0
            &&& r is Err ==> fails_protocol(r, zip64_directory(record@, 0, recorded as nat)->Err_0)
        },
{
    if u32_at(record, 0) != ZIP64_EOCD_SIG as u64 {
        return Err(protocol("Corrupt zip archive: no zip64 end of central directory record"));
    }
    read_zip64_directory(record, 0, recorded)
}

/// Why a directory is refused before it is read, if it is.
pub open spec fn directory_refusal(cd: Directory, file_size: nat) -> Option<Seq<char>> {
    if cd.entries > MAX_ENTRIES {
        Some("Too many entries to browse this archive: "@ + decimal(cd.entries as nat))
    } else if cd.start + cd.size > file_size {
        Some("Corrupt zip archive: invalid central directory"@)
    } else if cd.size > MAX_CENTRAL_DIRECTORY {
        Some("This archive's index is too big: "@ + decimal(cd.size as nat))
    } else {
        None
    }
}

/// Refuses a directory that is too big, or does not lie within the file.
pub fn check_directory(cd: &Directory, file_size: u64) -> (r: Result<()>)
    requires
        cd.start + cd.size <= u64::MAX,
    ensures
        directory_refusal(*cd, file_size as nat) is None <==> r is Ok,
        directory_refusal(*cd, file_size as nat) matches Some(m) ==> fails_protocol(r, m),
{
    if cd.entries > MAX_ENTRIES as u64 {
        return Err(protocol_of("Too many entries to browse this archive: ", decimal_text(cd.entries).as_str()));
    }
    if cd.start + cd.size > file_size {
        return Err(protocol("Corrupt zip archive: invalid central directory"));
    }
    if cd.size > MAX_CENTRAL_DIRECTORY {
        return Err(protocol_of("This archive's index is too big: ", decimal_text(cd.size).as_str()));
    }
    Ok(())
}

/// The length of the record at `cd[pos..]`.
pub open spec fn record_len(cd: Seq<u8>, pos: int) -> int {
    CENTRAL_HEADER_SIZE + field16(cd, pos + 28) + field16(cd, pos + 30) + field16(cd, pos + 32)
}

/// A whole record starts at `cd[pos]`.
pub open spec fn has_record(cd: Seq<u8>, pos: int) -> bool {
    &&& 0 <= pos
    &&& pos + CENTRAL_HEADER_SIZE <= cd.len()
    &&& field32(cd, pos) == CENTRAL_HEADER_SIG
    &&& pos + record_len(cd, pos) <= cd.len()
}

/// The records of `cd` from `pos` on: (offset, length).
pub open spec fn records_from(cd: Seq<u8>, pos: int) -> Seq<(int, int)>
    decreases cd.len() - pos,
{
    if has_record(cd, pos) {
        seq![(pos, record_len(cd, pos))] + records_from(cd, pos + record_len(cd, pos))
    } else {
        Seq::empty()
    }
}

/// The places of a list of records.
pub open spec fn places(v: Seq<(usize, usize)>) -> Seq<(int, int)> {
    Seq::new(v.len(), |i: int| (v[i].0 as int, v[i].1 as int))
}

/// The (offset, length) of each central directory record in `cd`.
pub fn records(cd: &[u8]) -> (r: Vec<(usize, usize)>)
    ensures
        places(r@) == records_from(cd@, 0),
        forall|i: int| 0 <= i < r.len() ==> has_record(cd@, (#[trigger] r[i]).0 as int) && r[i].1 == record_len(
            cd@,
            r[i].0 as int,
        ),
{
    let mut res: Vec<(usize, usize)> = Vec::new();
    let mut pos: usize = 0;
    proof {
        assert(places(res@) + records_from(cd@, 0) =~= records_from(cd@, 0));
    }
    while cd.len() - pos >= CENTRAL_HEADER_SIZE && u32_at(cd, pos) == CENTRAL_HEADER_SIG as u64
        invariant
            pos <= cd.len(),
            places(res@) + records_from(cd@, pos as int) == records_from(cd@, 0),
            forall|i: int| 0 <= i < res.len() ==> has_record(cd@, (#[trigger] res[i]).0 as int) && res[i].1
                == record_len(cd@, res[i].0 as int),
        decreases cd.len() - pos,
    {
        let rest: usize = u16_at(cd, pos + 28) as usize + u16_at(cd, pos + 30) as usize + u16_at(cd, pos + 32) as usize;
        let len: usize = CENTRAL_HEADER_SIZE + rest;
        if cd.len() - pos < len {
            proof {
                assert(!has_record(cd@, pos as int));
                assert(places(res@) + Seq::<(int, int)>::empty() =~= places(res@));
            }
            return res;
        }
        let ghost before = places(res@);
        proof {
            assert(has_record(cd@, pos as int));
            assert(before + (seq![(pos as int, len as int)] + records_from(cd@, pos + len)) =~= before.push(
                (pos as int, len as int),
            ) + records_from(cd@, pos + len));
        }
        res.push((pos, len));
        proof {
            assert(places(res@) =~= before.push((pos as int, len as int)));
        }
        pos += len;
    }
    proof {
        assert(!has_record(cd@, pos as int));
        assert(places(res@) + Seq::<(int, int)>::empty() =~= places(res@));
    }
    res
}

/// The records of a directory stand one after the other from its start, and none
/// reaches beyond its end.
pub proof fn law_records_are_contiguous(cd: Seq<u8>, pos: int, i: int)
    requires
        0 <= pos,
        0 <= i < records_from(cd, pos).len(),
    ensures
        ({
            let r = records_from(cd, pos);
            &&& r[i].0 == if i == 0 { pos } else { r[i - 1].0 + r[i - 1].1 }
            &&& r[i].1 >= CENTRAL_HEADER_SIZE
            &&& r[i].0 + r[i].1 <= cd.len()
        }),
    decreases i,
{
    let r = records_from(cd, pos);
    let rest = records_from(cd, pos + record_len(cd, pos));
    assert(has_record(cd, pos));
    if i > 0 {
        law_records_are_contiguous(cd, pos + record_len(cd, pos), i - 1);
        assert(r[i] == rest[i - 1]);
        if i > 1 {
            assert(r[i - 1] == rest[i - 2]);
        }
    }
}

/// What the records describe: the entries, and how many names escaped the archive.
pub open spec fn described(cd: Seq<u8>, recs: Seq<(int, int)>, delta: int) -> core::result::Result<
    (Seq<EntryView>, nat),
    Seq<char>,
>
    decreases recs.len(),
{
    if recs.len() == 0 {
        Ok((Seq::empty(), 0))
    } else {
        match described(cd, recs.drop_last(), delta) {
            Err(m) => Err(m),
            Ok((entries, rejected)) => match record_entry(cd, recs.last().0, delta) {
                Err(m) => Err(m),
                Ok(None) => Ok((entries, rejected + 1)),
                Ok(Some(e)) => if entries.len() + 1 > MAX_ENTRIES {
                    Err("Too many entries to browse this archive"@)
                } else {
                    Ok((entries.push(e), rejected))
                },
            },
        }
    }
}

proof fn lemma_described_fails(cd: Seq<u8>, recs: Seq<(int, int)>, delta: int, n: int)
    requires
        0 <= n <= recs.len(),
        described(cd, recs.take(n), delta) is Err,
    ensures
        described(cd, recs, delta) == described(cd, recs.take(n), delta),
    decreases recs.len(),
{
    if n < recs.len() {
        assert(recs.drop_last().take(n) =~= recs.take(n));
        lemma_described_fails(cd, recs.drop_last(), delta, n);
    } else {
        assert(recs.take(n) =~= recs);
    }
}

/// The entries that the records of `cd` describe, and how many names were rejected.
pub fn parse_directory(cd: &[u8], delta: i64) -> (r: Result<(Vec<ZipEntry>, usize)>)
    ensures
        r is Ok <==> described(cd@, records_from(cd@, 0), delta as int) is Ok,
        r matches Ok((v, n)) ==> described(cd@, records_from(cd@, 0), delta as int)->Ok_0 == (
            entry_views(v@),
            n as nat,
        ),
        r is Err ==> fails_protocol(r, described(cd@, records_from(cd@, 0), delta as int)->Err_0),
{
    let recs = records(cd);
    let ghost rs = places(recs@);
    let mut entries: Vec<ZipEntry> = Vec::new();
    let mut rejected: usize = 0;
    proof {
        assert(entry_views(entries@) =~= Seq::empty());
        assert(rs.take(0) =~= Seq::empty());
    }
    for i in 0..recs.len()
        invariant
            rs == places(recs@),
            rs == records_from(cd@, 0),
            forall|k: int| 0 <= k < recs.len() ==> has_record(cd@, (#[trigger] recs[k]).0 as int),
            described(cd@, rs.take(i as int), delta as int) == Ok::<(Seq<EntryView>, nat), Seq<char>>(
                (entry_views(entries@), rejected as nat),
            ),
            entries.len() + rejected == i,
            entries.len() <= MAX_ENTRIES,
    {
        let ghost before = entry_views(entries@);
        proof {
            assert(rs.take(i as int + 1).drop_last() =~= rs.take(i as int));
            assert(rs.take(i as int + 1).last() == rs[i as int]);
            assert(record_fits(cd@, recs[i as int].0 as int));
        }
        match ZipEntry::from_central_directory(cd, recs[i].0, delta) {
            Ok(Some(e)) => {
                if entries.len() >= MAX_ENTRIES {
                    proof {
                        lemma_described_fails(cd@, rs, delta as int, i as int + 1);
                    }
                    return Err(protocol("Too many entries to browse this archive"));
                }
                let ghost ev = e@;
                entries.push(e);
                proof {
                    assert(entry_views(entries@) =~= before.push(ev));
                }
            },
            Ok(None) => {
                rejected += 1;
            },
            Err(e) => {
                proof {
                    lemma_described_fails(cd@, rs, delta as int, i as int + 1);
                }
                return Err(e);
            },
        }
    }
    proof {
        assert(rs.take(rs.len() as int) =~= rs);
    }
    Ok((entries, rejected))
}

/// An open archive: its listing, and where its central directory is.
pub struct ZipReader {
    pub file_size: u64,
    pub index: ZipIndex,
    pub cd: Directory,
}

impl ZipReader {
    /// Opens an archive of `file_size` bytes whose central directory, at `cd`, holds
    /// `bytes`.
    pub fn open(file_size: u64, cd: Directory, bytes: &[u8]) -> (r: Result<ZipReader>)
        requires
            cd.start + cd.size <= u64::MAX,
            directory_refusal(cd, file_size as nat) is None ==> bytes.len() == cd.size,
        ensures
            directory_refusal(cd, file_size as nat) matches Some(m) ==> fails_protocol(r, m),
            directory_refusal(cd, file_size as nat) is None ==> match described(
                bytes@,
                records_from(bytes@, 0),
                cd.delta as int,
            ) {
                Err(m) => fails_protocol(r, m),
                Ok((entries, rejected)) => {
                    &&& r is Ok
                    &&& r->Ok_0.file_size == file_size
                    &&& r->Ok_0.cd == cd
                    &&& r->Ok_0.index@ == archive_tree(entries)
                    &&& r->Ok_0.index.dropped() == rejected
                },
            },
    {
        match check_directory(&cd, file_size) {
            Ok(()) => {},
            Err(e) => {
                return Err(e);
            },
        }
        match parse_directory(bytes, cd.delta) {
            Ok((entries, rejected)) => Ok(ZipReader { file_size, index: ZipIndex::build(entries, rejected), cd }),
            Err(e) => Err(e),
        }
    }

    /// The listing of the archive.
    pub fn index(&self) -> (r: &ZipIndex)
        ensures
            *r == self.index,
    {
        &self.index
    }
}

} // verus!
