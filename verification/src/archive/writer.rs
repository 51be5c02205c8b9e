//! Changing an archive: the records of new entries, and the rewrite of the tail.
use vstd::prelude::*;
use vstd::utf8::*;
use crate::archive::directory::{EOCD_SIG, ZIP64_EOCD_SIG, ZIP64_EOCD_SIZE, ZIP64_LOCATOR_SIG};
use crate::archive::dos_time::{dos_pair, millis_to_dos_time};
use crate::archive::entry::{
    ZipEntry, CENTRAL_HEADER_SIG, DEFLATED, LOCAL_HEADER_SIG, STORED, U16_MAX, U32_MAX, ZIP64_EXTRA_ID,
};
use crate::archive::layout::{fields_of, packed, push_fields};
use crate::archive::names::{normalise_path, normalised};
use crate::error::{fails_protocol, protocol_of, Error, Result};
use crate::text::{append_bytes, decimal, decimal_text, join2, join4, utf8_bytes};

verus! {

/// A file to add to an archive, or a directory to record in it. Its bytes come from
/// the caller, twice: once to be measured and once to be written.
#[derive(Debug, PartialEq, Eq)]
pub struct NewEntry {
    pub path: String,
    pub size: u64,
    /// Milliseconds since the epoch, in the local time the archive should show.
    pub modified_millis: i64,
    pub is_directory: bool,
}

/// A new entry, and what compressing it came to.
#[derive(Debug, PartialEq, Eq)]
pub struct Measured {
    pub entry: NewEntry,
    pub crc: u32,
    pub compressed_size: u64,
    pub method: u16,
}

/// The name of an entry as it is recorded: a directory ends in a slash in an archive,
/// which is the only thing that says so.
pub open spec fn recorded_name(path: Seq<char>, is_directory: bool) -> Seq<u8> {
    encode_utf8(if is_directory { path + "/"@ } else { path })
}

impl NewEntry {
    /// A file of `size` bytes at `path`.
    pub fn file(path: &str, size: u64, modified_millis: i64) -> (r: Result<NewEntry>)
        ensures
            normalised(path@) is None ==> fails_protocol(r, "Invalid path in an archive: "@ + path@),
            normalised(path@) is Some ==> r is Ok && r->Ok_0.path@ == normalised(path@)->Some_0 && r->Ok_0.size == size
                && r->Ok_0.modified_millis == modified_millis && !r->Ok_0.is_directory,
    {
        match normalise_path(path) {
            Some(path) => Ok(NewEntry { path, size, modified_millis, is_directory: false }),
            None => Err(protocol_of("Invalid path in an archive: ", path)),
        }
    }

    /// A directory only needs a record of its own when nothing implies it, which
    /// means an empty one: every other directory is implied by the files under it.
    pub fn directory(path: &str, modified_millis: i64) -> (r: Result<NewEntry>)
        ensures
            normalised(path@) is None ==> fails_protocol(r, "Invalid path in an archive: "@ + path@),
            normalised(path@) is Some ==> r is Ok && r->Ok_0.path@ == normalised(path@)->Some_0 && r->Ok_0.size == 0
                && r->Ok_0.modified_millis == modified_millis && r->Ok_0.is_directory,
    {
        match normalise_path(path) {
            Some(path) => Ok(NewEntry { path, size: 0, modified_millis, is_directory: true }),
            None => Err(protocol_of("Invalid path in an archive: ", path)),
        }
    }

    /// An entry taken from an archive, this one or another. The bytes are inflated
    /// and compressed again, however this archive would compress them.
    pub fn from_archive(path: &str, entry: &ZipEntry) -> (r: Result<NewEntry>)
        ensures
            normalised(path@) is None ==> fails_protocol(r, "Invalid path in an archive: "@ + path@),
            normalised(path@) is Some ==> r is Ok && r->Ok_0.path@ == normalised(path@)->Some_0 && r->Ok_0.size == (
            if entry.is_directory { 0 } else { entry.size }) && r->Ok_0.modified_millis == entry.modified_millis
                && r->Ok_0.is_directory == entry.is_directory,
    {
        if entry.is_directory {
            return NewEntry::directory(path, entry.modified_millis);
        }
        NewEntry::file(path, entry.size, entry.modified_millis)
    }

    /// An entry taken from a file or directory with these properties.
    pub fn from_file(path: &str, is_directory: bool, size: u64, modified_epoch: i64) -> (r: Result<NewEntry>)
        requires
            i64::MIN <= modified_epoch * 1000 <= i64::MAX,
        ensures
            normalised(path@) is None ==> fails_protocol(r, "Invalid path in an archive: "@ + path@),
            normalised(path@) is Some ==> r is Ok && r->Ok_0.path@ == normalised(path@)->Some_0 && r->Ok_0.size == (
            if is_directory { 0 } else { size }) && r->Ok_0.modified_millis == modified_epoch * 1000
                && r->Ok_0.is_directory == is_directory,
    {
        let millis: i64 = modified_epoch * 1000;
        if is_directory {
            return NewEntry::directory(path, millis);
        }
        NewEntry::file(path, size, millis)
    }

    /// The name as it is recorded.
    pub fn name_bytes(&self) -> (r: Vec<u8>)
        ensures
            r@ == recorded_name(self.path@, self.is_directory),
    {
        if self.is_directory {
            utf8_bytes(join2(self.path.as_str(), "/").as_str())
        } else {
            utf8_bytes(self.path.as_str())
        }
    }
}

/// What to record for `entry`, whose `size` bytes have this CRC and compress to
/// `compressed` bytes: deflate makes some things bigger, and those are just stored.
pub fn measure(entry: NewEntry, crc: u32, size: u64, compressed: u64) -> (r: Result<Measured>)
    ensures
        entry.is_directory ==> r is Ok && r->Ok_0 == (Measured { entry, crc: 0, compressed_size: 0, method: STORED }),
        !entry.is_directory && size != entry.size ==> fails_protocol(
            r,
            entry.path@ + " is "@ + decimal(size as nat) + " bytes, not the "@ + decimal(entry.size as nat)
                + " expected"@,
        ),
        !entry.is_directory && size == entry.size ==> r is Ok && r->Ok_0.entry == entry && r->Ok_0.crc == crc && (
        if compressed < size {
            r->Ok_0.compressed_size == compressed && r->Ok_0.method == DEFLATED
        } else {
            r->Ok_0.compressed_size == size && r->Ok_0.method == STORED
        }),
{
    if entry.is_directory {
        return Ok(Measured { entry, crc: 0, compressed_size: 0, method: STORED });
    }
    if size != entry.size {
        let mut m = join4(entry.path.as_str(), " is ", decimal_text(size).as_str(), " bytes, not the ");
        m.append(decimal_text(entry.size).as_str());
        m.append(" expected");
        return Err(Error::Protocol(m));
    }
    if compressed < size {
        Ok(Measured { entry, crc, compressed_size: compressed, method: DEFLATED })
    } else {
        Ok(Measured { entry, crc, compressed_size: size, method: STORED })
    }
}

/// `v`, or the mark that says it is in the zip64 extra.
pub open spec fn short(v: nat, wide: bool) -> nat {
    if wide {
        U32_MAX as nat
    } else {
        v
    }
}

/// Whether a size does not fit 32 bits.
pub open spec fn has_big_sizes(m: Measured) -> bool {
    m.entry.size > U32_MAX || m.compressed_size > U32_MAX
}

/// The fields of the local header of an entry.
pub open spec fn local_fields(m: Measured) -> Seq<(nat, nat)> {
    let wide = has_big_sizes(m);
    let (time, date) = dos_pair(m.entry.modified_millis as int);
    seq![
        (LOCAL_HEADER_SIG as nat, 4nat),
        (if wide { 45nat } else { 20nat }, 2nat),
        (0x800nat, 2nat),
        (m.method as nat, 2nat),
        (time as nat, 2nat),
        (date as nat, 2nat),
        (m.crc as nat, 4nat),
        (short(m.compressed_size as nat, wide), 4nat),
        (short(m.entry.size as nat, wide), 4nat),
        (recorded_name(m.entry.path@, m.entry.is_directory).len(), 2nat),
        (if wide { 20nat } else { 0nat }, 2nat),
    ]
}

/// The zip64 extra of a local header.
pub open spec fn local_extra(m: Measured) -> Seq<(nat, nat)> {
    if has_big_sizes(m) {
        seq![
            (ZIP64_EXTRA_ID as nat, 2nat),
            (16nat, 2nat),
            (m.entry.size as nat, 8nat),
            (m.compressed_size as nat, 8nat),
        ]
    } else {
        Seq::empty()
    }
}

/// The local header that precedes the data of an entry.
pub fn local_header(m: &Measured) -> (r: Vec<u8>)
    ensures
        r@ == packed(local_fields(*m)) + recorded_name(m.entry.path@, m.entry.is_directory) + packed(local_extra(*m)),
{
    let name = m.entry.name_bytes();
    let wide: bool = m.entry.size > U32_MAX || m.compressed_size > U32_MAX;
    let (time, date) = millis_to_dos_time(m.entry.modified_millis);
    let fs: [(u64, usize); 11] = [
        (LOCAL_HEADER_SIG as u64, 4),
        (if wide { 45 } else { 20 }, 2),
        (0x800, 2),
        (m.method as u64, 2),
        (time, 2),
        (date, 2),
        (m.crc as u64, 4),
        (if wide { U32_MAX } else { m.compressed_size }, 4),
        (if wide { U32_MAX } else { m.entry.size }, 4),
        (name.len() as u64, 2),
        (if wide { 20 } else { 0 }, 2),
    ];
    let mut h: Vec<u8> = Vec::new();
    push_fields(&mut h, &fs);
    proof {
        assert(fields_of(fs@) =~= local_fields(*m));
    }
    append_bytes(&mut h, &name);
    if wide {
        let xs: [(u64, usize); 4] = [(ZIP64_EXTRA_ID as u64, 2), (16, 2), (m.entry.size, 8), (m.compressed_size, 8)];
        push_fields(&mut h, &xs);
        proof {
            assert(fields_of(xs@) =~= local_extra(*m));
        }
    }
    proof {
        assert(h@ =~= packed(local_fields(*m)) + recorded_name(m.entry.path@, m.entry.is_directory) + packed(
            local_extra(*m),
        ));
    }
    h
}

/// The zip64 extra of a central directory record.
pub open spec fn central_extra(m: Measured, offset: nat) -> Seq<(nat, nat)> {
    let sizes = seq![(m.entry.size as nat, 8nat), (m.compressed_size as nat, 8nat)];
    let place = seq![(offset, 8nat)];
    let values = if has_big_sizes(m) && offset > U32_MAX {
        sizes + place
    } else if has_big_sizes(m) {
        sizes
    } else {
        place
    };
    if has_big_sizes(m) || offset > U32_MAX {
        seq![(ZIP64_EXTRA_ID as nat, 2nat), (8 * values.len(), 2nat)] + values
    } else {
        Seq::empty()
    }
}

/// The length of the zip64 extra of a central directory record.
pub open spec fn central_extra_len(m: Measured, offset: nat) -> nat {
    if has_big_sizes(m) && offset > U32_MAX {
        28
    } else if has_big_sizes(m) {
        20
    } else if offset > U32_MAX {
        12
    } else {
        0
    }
}

/// The fields of the central directory record of an entry.
pub open spec fn central_fields(m: Measured, offset: nat) -> Seq<(nat, nat)> {
    let wide = has_big_sizes(m);
    let far = offset > U32_MAX;
    let (time, date) = dos_pair(m.entry.modified_millis as int);
    seq![
        (CENTRAL_HEADER_SIG as nat, 4nat),
        (0x031Enat, 2nat),
        (if wide || far { 45nat } else { 20nat }, 2nat),
        (0x800nat, 2nat),
        (m.method as nat, 2nat),
        (time as nat, 2nat),
        (date as nat, 2nat),
        (m.crc as nat, 4nat),
        (short(m.compressed_size as nat, wide), 4nat),
        (short(m.entry.size as nat, wide), 4nat),
        (recorded_name(m.entry.path@, m.entry.is_directory).len(), 2nat),
        (central_extra_len(m, offset), 2nat),
        (0nat, 2nat),
        (0nat, 2nat),
        (0nat, 2nat),
        (if m.entry.is_directory { 0x41ED_0010nat } else { 0x81A4_0000nat }, 4nat),
        (short(offset, far), 4nat),
    ]
}

/// The bytes of the central directory record of an entry.
pub open spec fn central_bytes(m: Measured, offset: nat) -> Seq<u8> {
    packed(central_fields(m, offset)) + recorded_name(m.entry.path@, m.entry.is_directory) + packed(
        central_extra(m, offset),
    )
}

/// The central directory record of an entry whose local header is at this offset.
pub fn central_record(m: &Measured, local_header_offset: u64) -> (r: Vec<u8>)
    ensures
        r@ == central_bytes(*m, local_header_offset as nat),
{
    let name = m.entry.name_bytes();
    let wide: bool = m.entry.size > U32_MAX || m.compressed_size > U32_MAX;
    let far: bool = local_header_offset > U32_MAX;
    let extra: u64 = if wide && far {
        28
    } else if wide {
        20
    } else if far {
        12
    } else {
        0
    };
    let (time, date) = millis_to_dos_time(m.entry.modified_millis);
    let fs: [(u64, usize); 17] = [
        (CENTRAL_HEADER_SIG as u64, 4),
        (0x031E, 2),  // unix, version 3.0
        (if wide || far { 45 } else { 20 }, 2),
        (0x800, 2),
        (m.method as u64, 2),
        (time, 2),
        (date, 2),
        (m.crc as u64, 4),
        (if wide { U32_MAX } else { m.compressed_size }, 4),
        (if wide { U32_MAX } else { m.entry.size }, 4),
        (name.len() as u64, 2),
        (extra, 2),
        (0, 2),
        (0, 2),
        (0, 2),
        // 0755 and the ms-dos directory bit, or 0644 for a regular file
        (if m.entry.is_directory { 0x41ED_0010 } else { 0x81A4_0000 }, 4),
        (if far { U32_MAX } else { local_header_offset }, 4),
    ];
    let mut r: Vec<u8> = Vec::new();
    push_fields(&mut r, &fs);
    proof {
        assert(fields_of(fs@) =~= central_fields(*m, local_header_offset as nat));
    }
    append_bytes(&mut r, &name);
    let ghost mid = r@;
    if wide && far {
        let xs: [(u64, usize); 5] = [
            (ZIP64_EXTRA_ID as u64, 2),
            (24, 2),
            (m.entry.size, 8),
            (m.compressed_size, 8),
            (local_header_offset, 8),
        ];
        push_fields(&mut r, &xs);
        proof {
            assert(fields_of(xs@) =~= central_extra(*m, local_header_offset as nat));
        }
    } else if wide {
        let xs: [(u64, usize); 4] = [(ZIP64_EXTRA_ID as u64, 2), (16, 2), (m.entry.size, 8), (m.compressed_size, 8)];
        push_fields(&mut r, &xs);
        proof {
            assert(fields_of(xs@) =~= central_extra(*m, local_header_offset as nat));
        }
    } else if far {
        let xs: [(u64, usize); 3] = [(ZIP64_EXTRA_ID as u64, 2), (8, 2), (local_header_offset, 8)];
        push_fields(&mut r, &xs);
        proof {
            assert(fields_of(xs@) =~= central_extra(*m, local_header_offset as nat));
        }
    }
    proof {
        assert(r@ =~= mid + packed(central_extra(*m, local_header_offset as nat)));
    }
    r
}

/// Whether the end of an archive needs the zip64 records.
pub open spec fn needs_zip64(entries: nat, dir_size: nat, dir_offset: nat) -> bool {
    entries > U16_MAX || dir_size > U32_MAX || dir_offset > U32_MAX
}

/// The fields of the zip64 end record and of its locator.
pub open spec fn zip64_fields(entries: nat, dir_size: nat, dir_offset: nat, end_position: nat) -> Seq<(nat, nat)> {
    seq![
        (ZIP64_EOCD_SIG as nat, 4nat),
        (44nat, 8nat),
        (0x031Enat, 2nat),
        (45nat, 2nat),
        (0nat, 4nat),
        (0nat, 4nat),
        (entries, 8nat),
        (entries, 8nat),
        (dir_size, 8nat),
        (dir_offset, 8nat),
        (ZIP64_LOCATOR_SIG as nat, 4nat),
        (0nat, 4nat),
        (end_position, 8nat),
        (1nat, 4nat),
    ]
}

/// The fields of the end record.
pub open spec fn end_fields(entries: nat, dir_size: nat, dir_offset: nat) -> Seq<(nat, nat)> {
    let wide = needs_zip64(entries, dir_size, dir_offset);
    let count = if wide { U16_MAX as nat } else { entries };
    seq![
        (EOCD_SIG as nat, 4nat),
        (0nat, 2nat),
        (0nat, 2nat),
        (count, 2nat),
        (count, 2nat),
        (short(dir_size, wide), 4nat),
        (short(dir_offset, wide), 4nat),
        (0nat, 2nat),
    ]
}

/// The bytes that end an archive.
pub open spec fn end_bytes(entries: nat, dir_size: nat, dir_offset: nat, end_position: nat) -> Seq<u8> {
    (if needs_zip64(entries, dir_size, dir_offset) {
        packed(zip64_fields(entries, dir_size, dir_offset, end_position))
    } else {
        Seq::empty()
    }) + packed(end_fields(entries, dir_size, dir_offset))
}

/// The end of central directory record, with the zip64 pair in front of it when the
/// archive has outgrown what the original fields can say.
pub fn end_records(entries: u64, dir_size: u64, dir_offset: u64, end_position: u64) -> (r: Vec<u8>)
    ensures
        r@ == end_bytes(entries as nat, dir_size as nat, dir_offset as nat, end_position as nat),
{
    let wide: bool = entries > U16_MAX || dir_size > U32_MAX || dir_offset > U32_MAX;
    let mut res: Vec<u8> = Vec::new();
    if wide {
        let zs: [(u64, usize); 14] = [
            (ZIP64_EOCD_SIG as u64, 4),
            ((ZIP64_EOCD_SIZE - 12) as u64, 8),
            (0x031E, 2),
            (45, 2),
            (0, 4),
            (0, 4),
            (entries, 8),
            (entries, 8),
            (dir_size, 8),
            (dir_offset, 8),
            (ZIP64_LOCATOR_SIG as u64, 4),
            (0, 4),
            (end_position, 8),
            (1, 4),
        ];
        push_fields(&mut res, &zs);
        proof {
            assert(fields_of(zs@) =~= zip64_fields(
                entries as nat,
                dir_size as nat,
                dir_offset as nat,
                end_position as nat,
            ));
        }
    }
    let ghost mid = res@;
    let count: u64 = if wide { U16_MAX } else { entries };
    let fs: [(u64, usize); 8] = [
        (EOCD_SIG as u64, 4),
        (0, 2),
        (0, 2),
        (count, 2),
        (count, 2),
        (if wide { U32_MAX } else { dir_size }, 4),
        (if wide { U32_MAX } else { dir_offset }, 4),
        (0, 2),
    ];
    push_fields(&mut res, &fs);
    proof {
        assert(fields_of(fs@) =~= end_fields(entries as nat, dir_size as nat, dir_offset as nat));
        assert(res@ =~= end_bytes(entries as nat, dir_size as nat, dir_offset as nat, end_position as nat));
    }
    res
}

/// The header before the data of an entry, field by field and with their widths. Its name is marked
/// as UTF-8, and sizes of 4 GiB and more go behind it.
pub proof fn law_local_header(m: Measured)
    ensures
        ({
            let f = local_fields(m);
            let wide = m.entry.size > 0xFFFF_FFFF || m.compressed_size > 0xFFFF_FFFF;
            let (time, date) = dos_pair(m.entry.modified_millis as int);
            &&& f.len() == 11
            &&& f[0] == (0x0403_4b50nat, 4nat)
            &&& f[1] == (if wide { 45nat } else { 20nat }, 2nat)
            &&& f[2] == (0x800nat, 2nat)
            &&& f[3] == (m.method as nat, 2nat)
            &&& f[4] == (time as nat, 2nat)
            &&& f[5] == (date as nat, 2nat)
            &&& f[6] == (m.crc as nat, 4nat)
            &&& f[7] == (if wide { 0xFFFF_FFFFnat } else { m.compressed_size as nat }, 4nat)
            &&& f[8] == (if wide { 0xFFFF_FFFFnat } else { m.entry.size as nat }, 4nat)
            &&& f[9] == (recorded_name(m.entry.path@, m.entry.is_directory).len(), 2nat)
            &&& f[10] == (if wide { 20nat } else { 0nat }, 2nat)
            &&& !wide ==> local_extra(m).len() == 0
            &&& wide ==> local_extra(m) == seq![
                (1nat, 2nat),
                (16nat, 2nat),
                (m.entry.size as nat, 8nat),
                (m.compressed_size as nat, 8nat),
            ]
        }),
{
}

/// The record of an entry in the directory, field by field and with their widths: as its header, and
/// with what the entry is and where its header starts.
pub proof fn law_central_record(m: Measured, offset: nat)
    ensures
        ({
            let f = central_fields(m, offset);
            let wide = m.entry.size > 0xFFFF_FFFF || m.compressed_size > 0xFFFF_FFFF;
            let far = offset > 0xFFFF_FFFF;
            let (time, date) = dos_pair(m.entry.modified_millis as int);
            &&& f.len() == 17
            &&& f[0] == (0x0201_4b50nat, 4nat)
            &&& f[1] == (0x031Enat, 2nat)
            &&& f[2] == (if wide || far { 45nat } else { 20nat }, 2nat)
            &&& f[3] == (0x800nat, 2nat)
            &&& f[4] == (m.method as nat, 2nat)
            &&& f[5] == (time as nat, 2nat)
            &&& f[6] == (date as nat, 2nat)
            &&& f[7] == (m.crc as nat, 4nat)
            &&& f[8] == (if wide { 0xFFFF_FFFFnat } else { m.compressed_size as nat }, 4nat)
            &&& f[9] == (if wide { 0xFFFF_FFFFnat } else { m.entry.size as nat }, 4nat)
            &&& f[10] == (recorded_name(m.entry.path@, m.entry.is_directory).len(), 2nat)
            &&& f[11].1 == 2
            &&& f[12] == (0nat, 2nat)
            &&& f[13] == (0nat, 2nat)
            &&& f[14] == (0nat, 2nat)
            &&& f[15] == (if m.entry.is_directory { 0x41ED_0010nat } else { 0x81A4_0000nat }, 4nat)
            &&& f[16] == (if far { 0xFFFF_FFFFnat } else { offset }, 4nat)
        }),
{
}

/// What does not fit into the record of an entry stands behind it, under its own number and length:
/// the two sizes, then the place.
pub proof fn law_central_extra(m: Measured, offset: nat)
    ensures
        ({
            let e = central_extra(m, offset);
            let wide = m.entry.size > 0xFFFF_FFFF || m.compressed_size > 0xFFFF_FFFF;
            let far = offset > 0xFFFF_FFFF;
            &&& !wide && !far ==> e.len() == 0 && central_extra_len(m, offset) == 0
            &&& wide || far ==> e.len() > 2 && e[0] == (1nat, 2nat) && e[1].1 == 2 && central_extra_len(m, offset) == e[1].0 + 4
            &&& wide ==> e[2] == (m.entry.size as nat, 8nat) && e[3] == (m.compressed_size as nat, 8nat)
            &&& far ==> e.last() == (offset, 8nat)
            &&& wide && far ==> e.len() == 5 && e[1].0 == 24
            &&& wide && !far ==> e.len() == 4 && e[1].0 == 16
            &&& !wide && far ==> e.len() == 3 && e[1].0 == 8
        }),
{
}

/// The end of an archive, field by field and with their widths. Counts and places that do not fit
/// stand before it.
pub proof fn law_end_records(entries: nat, dir_size: nat, dir_offset: nat, end_position: nat)
    ensures
        ({
            let f = end_fields(entries, dir_size, dir_offset);
            let z = zip64_fields(entries, dir_size, dir_offset, end_position);
            let wide = entries > 0xFFFF || dir_size > 0xFFFF_FFFF || dir_offset > 0xFFFF_FFFF;
            &&& needs_zip64(entries, dir_size, dir_offset) == wide
            &&& f.len() == 8
            &&& f[0] == (0x0605_4b50nat, 4nat)
            &&& f[1] == (0nat, 2nat)
            &&& f[2] == (0nat, 2nat)
            &&& f[3] == (if wide { 0xFFFFnat } else { entries }, 2nat)
            &&& f[4] == (if wide { 0xFFFFnat } else { entries }, 2nat)
            &&& f[5] == (if wide { 0xFFFF_FFFFnat } else { dir_size }, 4nat)
            &&& f[6] == (if wide { 0xFFFF_FFFFnat } else { dir_offset }, 4nat)
            &&& f[7] == (0nat, 2nat)
            &&& z.len() == 14
            &&& z[0] == (0x0606_4b50nat, 4nat)
            &&& z[1] == (44nat, 8nat)
            &&& z[2] == (0x031Enat, 2nat)
            &&& z[3] == (45nat, 2nat)
            &&& z[4] == (0nat, 4nat)
            &&& z[5] == (0nat, 4nat)
            &&& z[6] == (entries, 8nat)
            &&& z[7] == (entries, 8nat)
            &&& z[8] == (dir_size, 8nat)
            &&& z[9] == (dir_offset, 8nat)
            &&& z[10] == (0x0706_4b50nat, 4nat)
            &&& z[11] == (0nat, 4nat)
            &&& z[12] == (end_position, 8nat)
            &&& z[13] == (1nat, 4nat)
        }),
{
}

} // verus!
