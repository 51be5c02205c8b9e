//! One entry of a zip archive, and the central directory record that describes it.
use vstd::prelude::*;
use crate::archive::dos_time::{dos_millis, dos_time_to_millis};
use crate::archive::fields::{field16, field32, field64, too_large, u16_at, u32_at, u64_at};
use crate::archive::names::{decode_name, name_text, normalise_path, normalised};
use crate::error::{fails_protocol, protocol, Result};
use crate::paths::{name_of, parent_of, path_name, path_parent};
use crate::text::{chars_of, slice_bytes};

verus! {

pub const LOCAL_HEADER_SIG: u32 = 0x04034b50;
pub const CENTRAL_HEADER_SIG: u32 = 0x02014b50;

pub const LOCAL_HEADER_SIZE: usize = 30;
pub const CENTRAL_HEADER_SIZE: usize = 46;

pub const STORED: u16 = 0;
pub const DEFLATED: u16 = 8;

pub const ZIP64_EXTRA_ID: u16 = 0x0001;
pub const UNICODE_NAME_EXTRA_ID: u16 = 0x7075;
pub const EXTENDED_TIMESTAMP_EXTRA_ID: u16 = 0x5455;

pub const U32_MAX: u64 = 0xFFFF_FFFF;
pub const U16_MAX: u64 = 0xFFFF;

/// The remainder of a CRC-32 after one more bit: the polynomial is that of IEEE 802.3, with
/// its lowest power first.
pub open spec fn crc_bit(c: u32) -> u32 {
    if c & 1 == 1 {
        (c >> 1) ^ 0xEDB8_8320
    } else {
        c >> 1
    }
}

/// The remainder of a CRC-32 after all the bytes.
pub open spec fn crc_remainder(bytes: Seq<u8>) -> u32
    decreases bytes.len(),
{
    if bytes.len() == 0 {
        0xFFFF_FFFF
    } else {
        let c = crc_remainder(bytes.drop_last()) ^ (bytes.last() as u32);
        crc_bit(crc_bit(crc_bit(crc_bit(crc_bit(crc_bit(crc_bit(crc_bit(c))))))))
    }
}

/// The CRC-32 of a byte string: the one of IEEE 802.3, which zip archives use.
pub open spec fn crc32(bytes: Seq<u8>) -> u32 {
    crc_remainder(bytes) ^ 0xFFFF_FFFF
}

/// `crc32fast::hash`: the CRC-32 (IEEE) of the whole slice.
#[verifier::external_body]
pub(crate) fn crc32_hash(bytes: &[u8]) -> (r: u32)
    ensures
        r == crc32(bytes@),
{
    crc32fast::hash(bytes)
}

/// One entry in a zip archive, as its central directory record describes it.
#[derive(Debug, PartialEq, Eq)]
pub struct ZipEntry {
    /// Normalised: no leading or trailing slash, no "." or ".." components.
    pub path: String,
    pub is_directory: bool,
    pub size: u64,
    pub compressed_size: u64,
    pub compression_method: u16,
    pub crc32: u32,
    /// -1 for a directory no record describes, which the paths below it imply.
    pub local_header_offset: i64,
    /// Milliseconds since the epoch, in the writer's local time.
    pub modified_millis: i64,
    pub flags: u16,
}

/// The content of a [`ZipEntry`].
pub ghost struct EntryView {
    pub path: Seq<char>,
    pub is_directory: bool,
    pub size: nat,
    pub compressed_size: nat,
    pub compression_method: nat,
    pub crc32: nat,
    pub local_header_offset: int,
    pub modified_millis: int,
    pub flags: nat,
}

impl View for ZipEntry {
    type V = EntryView;

    open spec fn view(&self) -> EntryView {
        EntryView {
            path: self.path@,
            is_directory: self.is_directory,
            size: self.size as nat,
            compressed_size: self.compressed_size as nat,
            compression_method: self.compression_method as nat,
            crc32: self.crc32 as nat,
            local_header_offset: self.local_header_offset as int,
            modified_millis: self.modified_millis as int,
            flags: self.flags as nat,
        }
    }
}

/// Whether the flags of an entry say that it is encrypted: bit 0, or bit 6 for
/// strong encryption.
pub open spec fn encrypted_flags(flags: nat) -> bool {
    flags % 2 == 1 || (flags / 64) % 2 == 1
}

/// Whether the flags of an entry say that its name is UTF-8: bit 11.
pub open spec fn utf8_flags(flags: nat) -> bool {
    (flags / 2048) % 2 == 1
}

/// A directory that no record describes.
pub open spec fn implied_directory(path: Seq<char>, modified_millis: int) -> EntryView {
    EntryView {
        path,
        is_directory: true,
        size: 0,
        compressed_size: 0,
        compression_method: STORED as nat,
        crc32: 0,
        local_header_offset: -1,
        modified_millis,
        flags: 0,
    }
}

/// What the extra fields of a record can change of an entry.
pub ghost struct Extras {
    pub size: nat,
    pub compressed_size: nat,
    pub offset: nat,
    pub name: Seq<char>,
    pub millis: int,
}

/// A field of the zip64 extra at `at`, which is there only if the 32 bit field
/// `short` could not hold it: its value and where the next one is.
pub open spec fn wide_field(d: Seq<u8>, at: int, end: int, short: nat) -> core::result::Result<(nat, int), Seq<char>> {
    if short == U32_MAX && at + 8 <= end {
        if field64(d, at) > i64::MAX {
            Err(too_large(field64(d, at)))
        } else {
            Ok((field64(d, at), at + 8))
        }
    } else {
        Ok((short, at))
    }
}

/// What the zip64 extra at `body..end` says.
pub open spec fn wide_fields(d: Seq<u8>, body: int, end: int, x: Extras) -> core::result::Result<Extras, Seq<char>> {
    match wide_field(d, body, end, x.size) {
        Err(m) => Err(m),
        Ok((size, at)) => match wide_field(d, at, end, x.compressed_size) {
            Err(m) => Err(m),
            Ok((compressed_size, at2)) => match wide_field(d, at2, end, x.offset) {
                Err(m) => Err(m),
                Ok((offset, at3)) => Ok(Extras { size, compressed_size, offset, ..x }),
            },
        },
    }
}

/// A signed 32 bit number from its unsigned form.
pub open spec fn signed32(v: nat) -> int {
    if v >= 0x8000_0000 {
        v - 0x1_0000_0000
    } else {
        v as int
    }
}

/// What the extra field `id` at `body..end` says. `raw` is the name in the header.
pub open spec fn extra_field(d: Seq<u8>, id: nat, body: int, end: int, raw: Seq<u8>, utf8: bool, x: Extras)
    -> core::result::Result<Extras, Seq<char>> {
    if id == ZIP64_EXTRA_ID {
        wide_fields(d, body, end, x)
    } else if id == UNICODE_NAME_EXTRA_ID && !utf8 && end - body > 5 && d[body] == 1 {
        if crc32(raw) == field32(d, body + 1) {
            match name_text(d.subrange(body + 5, end), true) {
                Err(m) => Err(m),
                Ok(name) => Ok(Extras { name, ..x }),
            }
        } else {
            Ok(x)
        }
    } else if id == EXTENDED_TIMESTAMP_EXTRA_ID && end - body >= 5 && d[body] % 2 == 1 {
        Ok(Extras { millis: signed32(field32(d, body + 1)) * 1000, ..x })
    } else {
        Ok(x)
    }
}

/// What the extra fields at `i..end` say, in turn, up to one that does not fit.
pub open spec fn extra_fields(d: Seq<u8>, i: int, end: int, raw: Seq<u8>, utf8: bool, x: Extras)
    -> core::result::Result<Extras, Seq<char>>
    decreases end - i,
{
    if i + 4 > end {
        Ok(x)
    } else {
        let body = i + 4;
        let next = body + field16(d, i + 2);
        if next > end {
            Ok(x)
        } else {
            match extra_field(d, field16(d, i), body, next, raw, utf8, x) {
                Err(m) => Err(m),
                Ok(y) => extra_fields(d, next, end, raw, utf8, y),
            }
        }
    }
}

/// The sum as a signed 64 bit number that wraps around.
pub open spec fn wrapped(n: int) -> int {
    if n > i64::MAX {
        n - 0x1_0000_0000_0000_0000
    } else if n < i64::MIN {
        n + 0x1_0000_0000_0000_0000
    } else {
        n
    }
}

/// The entry that the record of `d` at `o` describes, every stored offset shifted by
/// `delta`: none if its name escapes the archive.
#[verifier::opaque]
pub open spec fn record_entry(d: Seq<u8>, o: int, delta: int) -> core::result::Result<Option<EntryView>, Seq<char>> {
    let flags = field16(d, o + 8);
    let utf8 = utf8_flags(flags);
    let extra_start = o + CENTRAL_HEADER_SIZE + field16(d, o + 28);
    let end = extra_start + field16(d, o + 30);
    let raw = d.subrange(o + CENTRAL_HEADER_SIZE, extra_start);
    if field32(d, o) != CENTRAL_HEADER_SIG {
        Err("Invalid zip central directory record"@)
    } else {
        match name_text(raw, utf8) {
            Err(m) => Err(m),
            Ok(name) => {
                let x = Extras {
                    size: field32(d, o + 24),
                    compressed_size: field32(d, o + 20),
                    offset: field32(d, o + 42),
                    name,
                    millis: dos_millis(field16(d, o + 12), field16(d, o + 14)),
                };
                match extra_fields(d, extra_start, end, raw, utf8, x) {
                    Err(m) => Err(m),
                    Ok(y) => {
                        let is_directory = (y.name.len() > 0 && y.name.last() == '/') || (field32(d, o + 38) / 16) % 2
                            == 1;
                        match normalised(y.name) {
                            None => Ok(None),
                            Some(path) => if path.len() == 0 {
                                Ok(None)
                            } else {
                                Ok(
                                    Some(
                                        EntryView {
                                            path,
                                            is_directory,
                                            size: if is_directory { 0 } else { y.size },
                                            compressed_size: if is_directory { 0 } else { y.compressed_size },
                                            compression_method: field16(d, o + 10),
                                            crc32: field32(d, o + 16),
                                            local_header_offset: wrapped(y.offset + delta),
                                            modified_millis: y.millis,
                                            flags,
                                        },
                                    ),
                                )
                            },
                        }
                    },
                }
            },
        }
    }
}

/// The record of `d` at `o`, if it is one, lies within `d`.
pub open spec fn record_fits(d: Seq<u8>, o: int) -> bool {
    &&& 0 <= o
    &&& o + 4 <= d.len()
    &&& field32(d, o) == CENTRAL_HEADER_SIG ==> o + CENTRAL_HEADER_SIZE <= d.len() && o + CENTRAL_HEADER_SIZE
        + field16(d, o + 28) + field16(d, o + 30) <= d.len()
}

/// The extra fields of a record in executable form.
struct ExtraValues {
    size: u64,
    compressed_size: u64,
    offset: u64,
    name: String,
    millis: i64,
}

impl View for ExtraValues {
    type V = Extras;

    closed spec fn view(&self) -> Extras {
        Extras {
            size: self.size as nat,
            compressed_size: self.compressed_size as nat,
            offset: self.offset as nat,
            name: self.name@,
            millis: self.millis as int,
        }
    }
}

/// A field of the zip64 extra at `d[at..end]`, and where the next one is.
fn wide_field_at(d: &[u8], at: usize, end: usize, short: u64) -> (r: Result<(u64, usize)>)
    requires
        at <= end <= d.len(),
        short <= i64::MAX,
    ensures
        r is Ok <==> wide_field(d@, at as int, end as int, short as nat) is Ok,
        r matches Ok((v, next)) ==> wide_field(d@, at as int, end as int, short as nat) == Ok::<(nat, int), Seq<char>>(
            (v as nat, next as int),
        ) && at <= next <= end && v <= i64::MAX,
        r is Err ==> fails_protocol(r, wide_field(d@, at as int, end as int, short as nat)->Err_0),
{
    if short == U32_MAX && end - at >= 8 {
        match u64_at(d, at) {
            Ok(v) => Ok((v, at + 8)),
            Err(e) => Err(e),
        }
    } else {
        Ok((short, at))
    }
}

/// Applies the zip64 extra at `d[body..end]`.
fn apply_wide(d: &[u8], body: usize, end: usize, x: ExtraValues) -> (r: Result<ExtraValues>)
    requires
        body <= end <= d.len(),
        x.size <= i64::MAX && x.compressed_size <= i64::MAX && x.offset <= i64::MAX,
    ensures
        r is Ok <==> wide_fields(d@, body as int, end as int, x@) is Ok,
        r matches Ok(y) ==> y@ == wide_fields(d@, body as int, end as int, x@)->Ok_0 && y.size <= i64::MAX
            && y.compressed_size <= i64::MAX && y.offset <= i64::MAX,
        r is Err ==> fails_protocol(r, wide_fields(d@, body as int, end as int, x@)->Err_0),
{
    let (size, at) = match wide_field_at(d, body, end, x.size) {
        Ok(v) => v,
        Err(e) => {
            return Err(e);
        },
    };
    let (compressed_size, at2) = match wide_field_at(d, at, end, x.compressed_size) {
        Ok(v) => v,
        Err(e) => {
            return Err(e);
        },
    };
    let (offset, _) = match wide_field_at(d, at2, end, x.offset) {
        Ok(v) => v,
        Err(e) => {
            return Err(e);
        },
    };
    Ok(ExtraValues { size, compressed_size, offset, name: x.name, millis: x.millis })
}

/// Applies the extra field `id` at `d[body..end]`.
fn apply_extra(d: &[u8], id: u64, body: usize, end: usize, raw: &[u8], utf8: bool, x: ExtraValues) -> (r: Result<
    ExtraValues,
>)
    requires
        body <= end <= d.len(),
        x.size <= i64::MAX && x.compressed_size <= i64::MAX && x.offset <= i64::MAX,
    ensures
        r is Ok <==> extra_field(d@, id as nat, body as int, end as int, raw@, utf8, x@) is Ok,
        r matches Ok(y) ==> y@ == extra_field(d@, id as nat, body as int, end as int, raw@, utf8, x@)->Ok_0 && y.size
            <= i64::MAX && y.compressed_size <= i64::MAX && y.offset <= i64::MAX,
        r is Err ==> fails_protocol(r, extra_field(d@, id as nat, body as int, end as int, raw@, utf8, x@)->Err_0),
{
    let len: usize = end - body;
    if id == ZIP64_EXTRA_ID as u64 {
        apply_wide(d, body, end, x)
    } else if id == UNICODE_NAME_EXTRA_ID as u64 && !utf8 && len > 5 && d[body] == 1 {
        if crc32_hash(raw) as u64 == u32_at(d, body + 1) {
            match decode_name(&slice_bytes(d, body + 5, end), true) {
                Ok(name) => Ok(
                    ExtraValues {
                        size: x.size,
                        compressed_size: x.compressed_size,
                        offset: x.offset,
                        name,
                        millis: x.millis,
                    },
                ),
                Err(e) => Err(e),
            }
        } else {
            Ok(x)
        }
    } else if id == EXTENDED_TIMESTAMP_EXTRA_ID as u64 && len >= 5 && d[body] % 2 == 1 {
        let v: u64 = u32_at(d, body + 1);
        let signed: i64 = if v >= 0x8000_0000 { v as i64 - 0x1_0000_0000 } else { v as i64 };
        Ok(
            ExtraValues {
                size: x.size,
                compressed_size: x.compressed_size,
                offset: x.offset,
                name: x.name,
                millis: signed * 1000,
            },
        )
    } else {
        Ok(x)
    }
}

/// Applies the extra fields at `d[from..end]`, in turn.
fn apply_extras(d: &[u8], from: usize, end: usize, raw: &[u8], utf8: bool, start: ExtraValues) -> (r: Result<
    ExtraValues,
>)
    requires
        from <= end <= d.len(),
        start.size <= i64::MAX && start.compressed_size <= i64::MAX && start.offset <= i64::MAX,
    ensures
        r is Ok <==> extra_fields(d@, from as int, end as int, raw@, utf8, start@) is Ok,
        r matches Ok(y) ==> y@ == extra_fields(d@, from as int, end as int, raw@, utf8, start@)->Ok_0 && y.size
            <= i64::MAX && y.compressed_size <= i64::MAX && y.offset <= i64::MAX,
        r is Err ==> fails_protocol(r, extra_fields(d@, from as int, end as int, raw@, utf8, start@)->Err_0),
{
    let ghost whole = extra_fields(d@, from as int, end as int, raw@, utf8, start@);
    let mut x = start;
    let mut i: usize = from;
    while end - i >= 4
        invariant
            i <= end <= d.len(),
            x.size <= i64::MAX && x.compressed_size <= i64::MAX && x.offset <= i64::MAX,
            whole == extra_fields(d@, from as int, end as int, raw@, utf8, start@),
            whole == extra_fields(d@, i as int, end as int, raw@, utf8, x@),
        decreases end - i,
    {
        let id: u64 = u16_at(d, i);
        let len: usize = u16_at(d, i + 2) as usize;
        let body: usize = i + 4;
        if len > end - body {
            return Ok(x);
        }
        match apply_extra(d, id, body, body + len, raw, utf8, x) {
            Ok(y) => {
                x = y;
            },
            Err(e) => {
                return Err(e);
            },
        }
        i = body + len;
    }
    Ok(x)
}

/// `a + b`, wrapping around.
fn add_wrapping(a: i64, b: i64) -> (r: i64)
    ensures
        r == wrapped(a + b),
{
    a.wrapping_add(b)
}

impl ZipEntry {
    /// A directory that no record describes.
    pub fn implicit_directory(path: String, modified_millis: i64) -> (r: ZipEntry)
        ensures
            r@ == implied_directory(path@, modified_millis as int),
    {
        ZipEntry {
            path,
            is_directory: true,
            size: 0,
            compressed_size: 0,
            compression_method: STORED,
            crc32: 0,
            local_header_offset: -1,
            modified_millis,
            flags: 0,
        }
    }

    /// A copy of this entry.
    pub fn dup(&self) -> (r: ZipEntry)
        ensures
            r@ == self@,
    {
        ZipEntry {
            path: self.path.clone(),
            is_directory: self.is_directory,
            size: self.size,
            compressed_size: self.compressed_size,
            compression_method: self.compression_method,
            crc32: self.crc32,
            local_header_offset: self.local_header_offset,
            modified_millis: self.modified_millis,
            flags: self.flags,
        }
    }

    /// The last component of the path.
    pub fn name(&self) -> (r: String)
        ensures
            r@ == name_of(self@.path),
    {
        path_name(self.path.as_str())
    }

    /// The path of the directory that holds the entry, "" being the root.
    pub fn parent_path(&self) -> (r: String)
        ensures
            r@ == parent_of(self@.path),
    {
        path_parent(self.path.as_str())
    }

    /// Whether the entry's data is encrypted.
    pub fn is_encrypted(&self) -> (r: bool)
        ensures
            r == encrypted_flags(self@.flags),
    {
        self.flags % 2 == 1 || (self.flags / 64) % 2 == 1
    }

    /// Whether the entry's data can be read.
    pub fn is_supported(&self) -> (r: bool)
        ensures
            r == (!encrypted_flags(self@.flags) && (self.compression_method == STORED || self.compression_method
                == DEFLATED)),
    {
        !self.is_encrypted() && (self.compression_method == STORED || self.compression_method == DEFLATED)
    }

    /// Parse a central directory record at `d[offset..]`. `None` for an entry whose
    /// name escapes the archive root.
    pub fn from_central_directory(d: &[u8], offset: usize, delta: i64) -> (r: Result<Option<ZipEntry>>)
        requires
            record_fits(d@, offset as int),
        ensures
            r is Ok <==> record_entry(d@, offset as int, delta as int) is Ok,
            r matches Ok(e) ==> match record_entry(d@, offset as int, delta as int)->Ok_0 {
                None => e is None,
                Some(v) => e is Some && e->Some_0@ == v,
            },
            r is Err ==> fails_protocol(r, record_entry(d@, offset as int, delta as int)->Err_0),
    {
        proof {
            reveal(record_entry);
            assert(d@.len() == d.len());
        }
        if u32_at(d, offset) != CENTRAL_HEADER_SIG as u64 {
            return Err(protocol("Invalid zip central directory record"));
        }
        let flags: u64 = u16_at(d, offset + 8);
        let method: u64 = u16_at(d, offset + 10);
        let dos_time: u64 = u16_at(d, offset + 12);
        let dos_date: u64 = u16_at(d, offset + 14);
        let crc: u64 = u32_at(d, offset + 16);
        let compressed_size: u64 = u32_at(d, offset + 20);
        let size: u64 = u32_at(d, offset + 24);
        let name_len: usize = u16_at(d, offset + 28) as usize;
        let extra_len: usize = u16_at(d, offset + 30) as usize;
        let external: u64 = u32_at(d, offset + 38);
        let local_header_offset: u64 = u32_at(d, offset + 42);

        let name_start: usize = offset + CENTRAL_HEADER_SIZE;
        let extra_start: usize = name_start + name_len;
        let end: usize = extra_start + extra_len;
        let utf8: bool = (flags / 2048) % 2 == 1;
        let raw = slice_bytes(d, name_start, extra_start);
        let name = match decode_name(&raw, utf8) {
            Ok(n) => n,
            Err(e) => {
                return Err(e);
            },
        };
        let start = ExtraValues {
            size,
            compressed_size,
            offset: local_header_offset,
            name,
            millis: dos_time_to_millis(dos_time, dos_date),
        };
        let x = match apply_extras(d, extra_start, end, &raw, utf8, start) {
            Ok(x) => x,
            Err(e) => {
                return Err(e);
            },
        };
        // a directory is signalled by a trailing slash, or by the MS-DOS directory attribute
        let chars = chars_of(x.name.as_str());
        let is_directory: bool = (chars.len() > 0 && chars[chars.len() - 1] == '/') || (external / 16) % 2 == 1;
        let path = match normalise_path(x.name.as_str()) {
            Some(p) => p,
            None => {
                return Ok(None);
            },
        };
        if path.as_str().is_empty() {
            return Ok(None);
        }
        Ok(
            Some(
                ZipEntry {
                    path,
                    is_directory,
                    size: if is_directory { 0 } else { x.size },
                    compressed_size: if is_directory { 0 } else { x.compressed_size },
                    compression_method: method as u16,
                    crc32: crc as u32,
                    local_header_offset: add_wrapping(x.offset as i64, delta),
                    modified_millis: x.millis,
                    flags: flags as u16,
                },
            ),
        )
    }
}

} // verus!
