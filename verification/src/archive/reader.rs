//! Reading the data of one entry, piece by piece.
use vstd::prelude::*;
use crate::archive::entry::{crc32, encrypted_flags, ZipEntry, DEFLATED, LOCAL_HEADER_SIG, LOCAL_HEADER_SIZE, STORED};
use crate::archive::fields::{field16, field32, u16_at, u32_at};
use crate::error::{fails_protocol, protocol_of, Error, Result};
use crate::text::{append_bytes, decimal, decimal_text, join3, join4, slice_bytes};

verus! {

/// How much of an entry is read or written per request.
pub const PIECE: usize = 1_048_576;

/// How much room the inflater gets per call.
pub const INFLATE_ROOM: usize = 65_536;

/// The CRC-32 computation of `crc32fast`.
#[verifier::external_type_specification]
#[verifier::external_body]
pub struct ExHasher(crc32fast::Hasher);

/// The bytes that a CRC-32 computation has taken in.
pub uninterp spec fn hashed(h: crc32fast::Hasher) -> Seq<u8>;

/// `crc32fast::Hasher::new`: nothing has been taken in.
pub assume_specification[ crc32fast::Hasher::new ]() -> (h: crc32fast::Hasher)
    ensures
        hashed(h) == Seq::<u8>::empty(),
;

/// `crc32fast::Hasher::update`: takes the bytes in behind those before. The hasher
/// counts them in 64 bits.
pub assume_specification[ crc32fast::Hasher::update ](h: &mut crc32fast::Hasher, buf: &[u8])
    requires
        hashed(*old(h)).len() + buf@.len() <= u64::MAX,
    ensures
        hashed(*final(h)) == hashed(*old(h)) + buf@,
;

/// `crc32fast::Hasher::finalize`: the CRC-32 of what was taken in, which for one
/// update is what `crc32fast::hash` gives.
pub assume_specification[ crc32fast::Hasher::finalize ](h: crc32fast::Hasher) -> (r: u32)
    ensures
        r == crc32(hashed(h)),
;

/// The decompressor of `flate2`.
#[verifier::external_type_specification]
#[verifier::external_body]
pub struct ExDecompress(flate2::Decompress);

/// How a call of a compressor or decompressor ended.
#[derive(Clone, Copy, PartialEq, Eq, Structural)]
pub enum StreamStatus {
    Going,
    /// Nothing could be done with the input and the room that were given.
    Stuck,
    StreamEnd,
}

/// The reply to a call: the bytes taken, the bytes made, how it ended, and the message
/// of a failure.
pub ghost struct Reply {
    pub taken: nat,
    pub made: Seq<u8>,
    pub status: Option<StreamStatus>,
    pub message: Seq<char>,
}

/// The calls made so far on a decompressor: the input, the room, and whether the
/// input ends with it.
pub uninterp spec fn inflate_calls(d: flate2::Decompress) -> Seq<(Seq<u8>, nat, bool)>;

/// Whether a decompressor expects a raw deflate stream.
pub uninterp spec fn is_raw_inflater(d: flate2::Decompress) -> bool;

/// What a decompressor for raw deflate replies to the last of these calls.
pub uninterp spec fn inflate_reply(calls: Seq<(Seq<u8>, nat, bool)>) -> Reply;

/// The bytes taken over all calls.
pub open spec fn inflate_taken(calls: Seq<(Seq<u8>, nat, bool)>) -> nat
    decreases calls.len(),
{
    if calls.len() == 0 {
        0
    } else {
        inflate_taken(calls.drop_last()) + inflate_reply(calls).taken
    }
}

/// The bytes made over all calls.
pub open spec fn inflate_made(calls: Seq<(Seq<u8>, nat, bool)>) -> nat
    decreases calls.len(),
{
    if calls.len() == 0 {
        0
    } else {
        inflate_made(calls.drop_last()) + inflate_reply(calls).made.len()
    }
}

/// The start of the input that was taken over all calls.
pub open spec fn inflate_input(calls: Seq<(Seq<u8>, nat, bool)>) -> Seq<u8>
    decreases calls.len(),
{
    if calls.len() == 0 {
        Seq::empty()
    } else {
        inflate_input(calls.drop_last()) + calls.last().0.take(inflate_reply(calls).taken as int)
    }
}

/// What was made over all calls.
pub open spec fn inflate_output(calls: Seq<(Seq<u8>, nat, bool)>) -> Seq<u8>
    decreases calls.len(),
{
    if calls.len() == 0 {
        Seq::empty()
    } else {
        inflate_output(calls.drop_last()) + inflate_reply(calls).made
    }
}

/// The content that a whole raw deflate stream stands for. None, if the bytes are no such
/// stream, or more or less than one.
pub uninterp spec fn deflate_content(stream: Seq<u8>) -> Option<Seq<u8>>;

/// `a` is a start of `b`.
pub open spec fn is_start(a: Seq<u8>, b: Seq<u8>) -> bool {
    a.len() <= b.len() && b.take(a.len() as int) == a
}

/// None of these calls ends the input.
pub open spec fn goes_on(calls: Seq<(Seq<u8>, nat, bool)>) -> bool
    decreases calls.len(),
{
    calls.len() == 0 || (!calls.last().2 && goes_on(calls.drop_last()))
}

/// The calls hand `stream` to a decompressor: each gets a part of what those before it have
/// left, and the input ends, in a call that is not the first, once all of it was handed over.
pub open spec fn follows(calls: Seq<(Seq<u8>, nat, bool)>, stream: Seq<u8>) -> bool
    decreases calls.len(),
{
    calls.len() == 0 || {
        let before = calls.drop_last();
        let (input, room, finish) = calls.last();
        &&& follows(before, stream)
        &&& is_start(inflate_input(before) + input, stream)
        &&& room > 0
        &&& if finish { before.len() > 0 && inflate_input(before) + input == stream } else { goes_on(before) }
    }
}

/// The last of these calls does not fail, makes the next part of `content`, and takes or
/// makes something if it gets any of the stream. It ends the stream only where all of it was
/// taken and all of the content made; and once the input has ended, nothing is made only
/// where all of the content was.
pub open spec fn inflates(calls: Seq<(Seq<u8>, nat, bool)>, stream: Seq<u8>, content: Seq<u8>) -> bool {
    let reply = inflate_reply(calls);
    let (input, room, finish) = calls.last();
    &&& reply.status is Some
    &&& is_start(inflate_output(calls), content)
    &&& reply.status == Some(StreamStatus::StreamEnd) ==> inflate_input(calls) == stream && inflate_output(calls)
        == content
    &&& input.len() > 0 ==> reply.taken > 0 || reply.made.len() > 0
    &&& finish && reply.made.len() == 0 ==> inflate_output(calls) == content
}

/// `flate2::Decompress::new` for raw deflate: no call has been made.
#[verifier::external_body]
fn raw_inflater() -> (d: flate2::Decompress)
    ensures
        is_raw_inflater(d),
        inflate_calls(d) == Seq::<(Seq<u8>, nat, bool)>::empty(),
{
    flate2::Decompress::new(false)
}

/// `flate2::Decompress::decompress`: what it does is a function of the calls made so
/// far, the input, the room and the flush mode. It takes a start of the input and
/// fills a start of the room. The totals before and after the call, as `total_in` and
/// `total_out` give them, tell how much; they are counted in 64 bits. A whole deflate stream
/// that is handed over piece by piece inflates to its content.
#[verifier::external_body]
fn inflate_call(d: &mut flate2::Decompress, input: &[u8], out: &mut Vec<u8>, finish: bool) -> (r:
    core::result::Result<(u64, u64, u64, u64, StreamStatus), String>)
    requires
        is_raw_inflater(*old(d)),
        inflate_taken(inflate_calls(*old(d))) + input@.len() <= u64::MAX,
        inflate_made(inflate_calls(*old(d))) + old(out)@.len() <= u64::MAX,
    ensures
        is_raw_inflater(*final(d)),
        inflate_calls(*final(d)) == inflate_calls(*old(d)).push((input@, old(out)@.len(), finish)),
        final(out)@.len() == old(out)@.len(),
        r is Err <==> inflate_reply(inflate_calls(*final(d))).status is None,
        r matches Err(m) ==> m@ == inflate_reply(inflate_calls(*final(d))).message,
        r matches Ok((in0, out0, in1, out1, status)) ==> {
            let reply = inflate_reply(inflate_calls(*final(d)));
            &&& in0 == inflate_taken(inflate_calls(*old(d)))
            &&& out0 == inflate_made(inflate_calls(*old(d)))
            &&& in1 == in0 + reply.taken
            &&& out1 == out0 + reply.made.len()
            &&& reply.taken <= input@.len()
            &&& reply.made.len() <= old(out)@.len()
            &&& final(out)@.take(reply.made.len() as int) == reply.made
            &&& reply.status == Some(status)
        },
        forall|stream: Seq<u8>|
            (#[trigger] deflate_content(stream)) is Some && follows(inflate_calls(*final(d)), stream) ==> inflates(
                inflate_calls(*final(d)),
                stream,
                deflate_content(stream)->Some_0,
            ),
{
    let (in0, out0) = (d.total_in(), d.total_out());
    let flush = if finish { flate2::FlushDecompress::Finish } else { flate2::FlushDecompress::None };
    let status = match d.decompress(input, out, flush) {
        Ok(flate2::Status::Ok) => StreamStatus::Going,
        Ok(flate2::Status::BufError) => StreamStatus::Stuck,
        Ok(flate2::Status::StreamEnd) => StreamStatus::StreamEnd,
        Err(e) => return Err(e.to_string()),
    };
    Ok((in0, out0, d.total_in(), d.total_out(), status))
}

/// How the reading of an entry goes.
pub ghost enum Flow {
    Going,
    Corrupt(Seq<char>),
    TooLarge,
}

/// What is left of `len` behind `at`.
pub open spec fn left(len: nat, at: nat) -> nat {
    if at >= len {
        0
    } else {
        (len - at) as nat
    }
}

/// Inflating a piece of input from `taken` on: the calls made, the bytes passed on
/// behind `passed`, and how it goes. No more than `size` bytes are passed on.
pub open spec fn inflated(
    calls: Seq<(Seq<u8>, nat, bool)>,
    input: Seq<u8>,
    taken: nat,
    passed: Seq<u8>,
    size: nat,
) -> (Seq<(Seq<u8>, nat, bool)>, Seq<u8>, Flow)
    decreases left(input.len(), taken) + left(size, passed.len()),
{
    if taken >= input.len() || passed.len() > size {
        (calls, passed, Flow::Going)
    } else {
        let next = calls.push((input.skip(taken as int), INFLATE_ROOM as nat, false));
        let r = inflate_reply(next);
        if r.status is None {
            (next, passed, Flow::Corrupt(r.message))
        } else if passed.len() + r.made.len() > size {
            (next, passed, Flow::TooLarge)
        } else if r.status == Some(StreamStatus::StreamEnd) || (r.made.len() == 0 && r.taken == 0) {
            (next, passed + r.made, Flow::Going)
        } else {
            inflated(next, input, taken + r.taken, passed + r.made, size)
        }
    }
}

/// Draining what is still buffered in the inflater once the input is over.
pub open spec fn drained(calls: Seq<(Seq<u8>, nat, bool)>, passed: Seq<u8>, size: nat) -> (
    Seq<(Seq<u8>, nat, bool)>,
    Seq<u8>,
    Flow,
)
    decreases left(size, passed.len()),
{
    let next = calls.push((Seq::empty(), INFLATE_ROOM as nat, true));
    let r = inflate_reply(next);
    if r.status is None {
        (next, passed, Flow::Corrupt(r.message))
    } else if passed.len() + r.made.len() > size {
        (next, passed, Flow::TooLarge)
    } else if r.made.len() == 0 || r.status == Some(StreamStatus::StreamEnd) {
        (next, passed + r.made, Flow::Going)
    } else {
        drained(next, passed + r.made, size)
    }
}

/// The error of an entry that inflates to more than its recorded size.
pub open spec fn larger_message(path: Seq<char>) -> Seq<char> {
    "Zip entry "@ + path + " is larger than its recorded size"@
}

/// The error of an entry whose data is no deflate stream.
pub open spec fn corrupt_message(path: Seq<char>, detail: Seq<char>) -> Seq<char> {
    "Corrupt zip entry "@ + path + ": "@ + detail
}

/// The result of a step that went this way.
pub open spec fn flow_result(path: Seq<char>, flow: Flow, r: Result<()>) -> bool {
    match flow {
        Flow::Going => r is Ok,
        Flow::Corrupt(m) => fails_protocol(r, corrupt_message(path, m)),
        Flow::TooLarge => fails_protocol(r, larger_message(path)),
    }
}

/// Why an entry cannot be read, if it cannot.
pub open spec fn unreadable(e: ZipEntry) -> Option<Seq<char>> {
    if e.is_directory {
        Some("Cannot read a directory in an archive: "@ + e.path@)
    } else if encrypted_flags(e.flags as nat) {
        Some("Encrypted zip entries are not supported: "@ + e.path@)
    } else if e.compression_method != STORED && e.compression_method != DEFLATED {
        Some("Unsupported zip compression method "@ + decimal(e.compression_method as nat) + " in "@ + e.path@)
    } else {
        None
    }
}

/// Refuses an entry that cannot be read.
pub fn check_readable(e: &ZipEntry) -> (r: Result<()>)
    ensures
        unreadable(*e) is None <==> r is Ok,
        unreadable(*e) matches Some(m) ==> fails_protocol(r, m),
{
    if e.is_directory {
        return Err(protocol_of("Cannot read a directory in an archive: ", e.path.as_str()));
    }
    if e.is_encrypted() {
        return Err(protocol_of("Encrypted zip entries are not supported: ", e.path.as_str()));
    }
    if !e.is_supported() {
        let method = decimal_text(e.compression_method as u64);
        let m = join4("Unsupported zip compression method ", method.as_str(), " in ", e.path.as_str());
        return Err(Error::Protocol(m));
    }
    Ok(())
}

/// A reader has taken `at` bytes of `stream`, and passed on what they stand for.
spec fn part_way(r: EntryReader, stream: Seq<u8>, at: int) -> bool {
    &&& deflate_content(stream) is Some
    &&& deflate_content(stream)->Some_0.len() == r.size
    &&& 0 <= at <= stream.len()
    &&& follows(r.calls(), stream)
    &&& goes_on(r.calls())
    &&& inflate_input(r.calls()) == stream.take(at)
    &&& inflate_output(r.calls()) == r.passed()
    &&& is_start(r.passed(), deflate_content(stream)->Some_0)
}

/// The part of `stream` behind the first `at` bytes is handed on.
proof fn lemma_handed_on(calls: Seq<(Seq<u8>, nat, bool)>, part: Seq<u8>, stream: Seq<u8>, at: int)
    requires
        0 <= at,
        at + part.len() <= stream.len(),
        part == stream.subrange(at, at + part.len()),
        follows(calls, stream),
        goes_on(calls),
        inflate_input(calls) == stream.take(at),
    ensures
        ({
            let next = calls.push((part, INFLATE_ROOM as nat, false));
            let reply = inflate_reply(next);
            &&& follows(next, stream)
            &&& goes_on(next)
            &&& inflate_output(next) == inflate_output(calls) + reply.made
            &&& reply.taken <= part.len() ==> inflate_input(next) == stream.take(at + reply.taken)
            &&& reply.taken <= part.len() && inflate_input(next) == stream ==> at + reply.taken == stream.len()
        }),
{
    let next = calls.push((part, INFLATE_ROOM as nat, false));
    let reply = inflate_reply(next);
    assert(next.drop_last() =~= calls);
    assert(stream.take(at) + part =~= stream.take(at + part.len()));
    if reply.taken <= part.len() {
        assert(stream.take(at) + part.take(reply.taken as int) =~= stream.take(at + reply.taken));
    }
}

/// A reader has taken all of `stream`.
spec fn all_read(r: EntryReader, stream: Seq<u8>) -> bool {
    &&& deflate_content(stream) is Some
    &&& deflate_content(stream)->Some_0.len() == r.size
    &&& follows(r.calls(), stream)
    &&& r.calls().len() > 0
    &&& inflate_input(r.calls()) == stream
    &&& inflate_output(r.calls()) == r.passed()
    &&& is_start(r.passed(), deflate_content(stream)->Some_0)
}

/// The input ends where all of `stream` was taken.
proof fn lemma_input_ends(calls: Seq<(Seq<u8>, nat, bool)>, stream: Seq<u8>)
    requires
        follows(calls, stream),
        calls.len() > 0,
        inflate_input(calls) == stream,
    ensures
        ({
            let next = calls.push((Seq::empty(), INFLATE_ROOM as nat, true));
            let reply = inflate_reply(next);
            &&& follows(next, stream)
            &&& inflate_output(next) == inflate_output(calls) + reply.made
            &&& reply.taken == 0 ==> inflate_input(next) == stream
        }),
{
    let next = calls.push((Seq::empty(), INFLATE_ROOM as nat, true));
    assert(next.drop_last() =~= calls);
    assert(stream + Seq::<u8>::empty() =~= stream);
    assert(stream.take(stream.len() as int) =~= stream);
    assert(Seq::<u8>::empty().take(0) =~= Seq::empty());
}

/// An entry being read. What it passes on is checked against the recorded size, so an
/// entry that inflates past it is refused rather than read forever.
pub struct EntryReader {
    pub path: String,
    pub size: u64,
    pub compressed_size: u64,
    pub crc32: u32,
    /// The local header, not the central directory, describes the bytes that follow it.
    pub method: u16,
    pub data_start: u64,
    /// How much of the data was asked for.
    pub read: u64,
    pub hasher: crc32fast::Hasher,
    pub inflater: flate2::Decompress,
    pub room: Vec<u8>,
    /// How much was passed on.
    pub produced: u64,
}

impl EntryReader {
    /// The bytes passed on so far.
    pub open spec fn passed(self) -> Seq<u8> {
        hashed(self.hasher)
    }

    /// The calls made on the inflater so far.
    pub open spec fn calls(self) -> Seq<(Seq<u8>, nat, bool)> {
        inflate_calls(self.inflater)
    }

    /// The state of a reader that has not failed.
    pub open spec fn wf(self) -> bool {
        &&& self.produced == self.passed().len()
        &&& self.produced <= self.size <= i64::MAX
        &&& self.read <= self.compressed_size
        &&& self.data_start + self.compressed_size <= u64::MAX
        &&& is_raw_inflater(self.inflater)
        &&& self.room@.len() == INFLATE_ROOM
        &&& inflate_taken(self.calls()) <= self.read
        &&& inflate_made(self.calls()) <= self.produced
    }

    /// The data read so far is the start of `stream`, a deflate stream whose content has the
    /// size of the entry, and what was passed on is what the inflater made of it.
    pub open spec fn inflating(self, stream: Seq<u8>) -> bool {
        &&& self.method != STORED
        &&& deflate_content(stream) is Some
        &&& deflate_content(stream)->Some_0.len() == self.size
        &&& stream.len() == self.compressed_size
        &&& self.read <= stream.len()
        &&& follows(self.calls(), stream)
        &&& goes_on(self.calls())
        &&& self.read > 0 ==> self.calls().len() > 0
        &&& inflate_input(self.calls()) == stream.take(self.read as int)
        &&& inflate_output(self.calls()) == self.passed()
        &&& is_start(self.passed(), deflate_content(stream)->Some_0)
    }

    /// `input` is the next part of `stream`.
    pub open spec fn gets(self, stream: Seq<u8>, input: Seq<u8>) -> bool {
        &&& self.inflating(stream)
        &&& self.read + input.len() <= stream.len()
        &&& input == stream.subrange(self.read as int, self.read + input.len())
    }

    /// What does not change while an entry is read.
    pub open spec fn same_entry(self, other: EntryReader) -> bool {
        &&& self.path == other.path
        &&& self.size == other.size
        &&& self.compressed_size == other.compressed_size
        &&& self.crc32 == other.crc32
        &&& self.method == other.method
        &&& self.data_start == other.data_start
    }

    /// Starts to read the entry `e`, whose local header is `header`, of an archive of
    /// `file_size` bytes.
    pub fn start(e: &ZipEntry, header: &[u8], file_size: u64) -> (r: Result<EntryReader>)
        requires
            header.len() == LOCAL_HEADER_SIZE,
            e.local_header_offset >= 0,
            e.size <= i64::MAX,
            e.local_header_offset + LOCAL_HEADER_SIZE + 0x1_fffe + e.compressed_size <= u64::MAX,
        ensures
            ({
                let data_start = e.local_header_offset + LOCAL_HEADER_SIZE + field16(header@, 26) + field16(header@, 28);
                if unreadable(*e) is Some {
                    fails_protocol(r, unreadable(*e)->Some_0)
                } else if field32(header@, 0) != LOCAL_HEADER_SIG {
                    fails_protocol(r, "Invalid local header for zip entry "@ + e.path@)
                } else if data_start + e.compressed_size > file_size {
                    fails_protocol(r, "Truncated zip entry "@ + e.path@)
                } else {
                    r matches Ok(s) && s.wf() && s.path@ == e.path@ && s.size == e.size && s.compressed_size
                        == e.compressed_size && s.crc32 == e.crc32 && s.method == field16(header@, 8) && s.data_start
                        == data_start && s.read == 0 && s.passed().len() == 0 && s.calls().len() == 0
                }
            }),
            r matches Ok(s) ==> s.method != STORED ==> forall|stream: Seq<u8>|
                (#[trigger] deflate_content(stream)) is Some && deflate_content(stream)->Some_0.len() == e.size
                    && stream.len() == e.compressed_size ==> s.inflating(stream),
    {
        match check_readable(e) {
            Ok(()) => {},
            Err(x) => {
                return Err(x);
            },
        }
        if u32_at(header, 0) != LOCAL_HEADER_SIG as u64 {
            return Err(protocol_of("Invalid local header for zip entry ", e.path.as_str()));
        }
        let method: u64 = u16_at(header, 8);
        let data_start: u64 = e.local_header_offset as u64 + LOCAL_HEADER_SIZE as u64 + u16_at(header, 26) + u16_at(
            header,
            28,
        );
        if data_start + e.compressed_size > file_size {
            return Err(protocol_of("Truncated zip entry ", e.path.as_str()));
        }
        let room: Vec<u8> = vec![0u8; INFLATE_ROOM];
        let reader = EntryReader {
                path: e.path.clone(),
                size: e.size,
                compressed_size: e.compressed_size,
                crc32: e.crc32,
                method: method as u16,
                data_start,
                read: 0,
                hasher: crc32fast::Hasher::new(),
                inflater: raw_inflater(),
                room,
                produced: 0,
            };
        proof {
            assert(reader.passed() =~= Seq::empty());
            assert forall|stream: Seq<u8>|
                (#[trigger] deflate_content(stream)) is Some && deflate_content(stream)->Some_0.len() == e.size
                    && stream.len() == e.compressed_size && reader.method != STORED implies reader.inflating(stream) by {
                assert(stream.take(0) =~= Seq::empty());
                assert(deflate_content(stream)->Some_0.take(0) =~= Seq::empty());
            }
        }
        Ok(reader)
    }

    /// The next part of the file to read: (offset, length). None when all was read.
    pub fn next_read(&self) -> (r: Option<(u64, usize)>)
        requires
            self.wf(),
        ensures
            r is None <==> self.read == self.compressed_size,
            r matches Some((at, n)) ==> at == self.data_start + self.read && n == (if self.compressed_size - self.read
                < PIECE { self.compressed_size - self.read } else { PIECE as int }),
    {
        if self.read >= self.compressed_size {
            return None;
        }
        let rest: u64 = self.compressed_size - self.read;
        let n: usize = if rest < PIECE as u64 { rest as usize } else { PIECE };
        Some((self.data_start + self.read, n))
    }

    /// Passes bytes on, unless there are too many of them.
    fn pass(&mut self, bytes: &[u8], out: &mut Vec<u8>) -> (r: Result<()>)
        requires
            old(self).produced == old(self).passed().len(),
            old(self).produced <= old(self).size <= i64::MAX,
        ensures
            final(self).same_entry(*old(self)),
            final(self).read == old(self).read,
            final(self).inflater == old(self).inflater,
            final(self).room == old(self).room,
            old(self).passed().len() + bytes@.len() > old(self).size ==> fails_protocol(
                r,
                larger_message(old(self).path@),
            ) && final(self).passed() == old(self).passed() && final(out)@ == old(out)@,
            old(self).passed().len() + bytes@.len() <= old(self).size ==> r is Ok && final(self).passed() == old(
                self,
            ).passed() + bytes@ && final(out)@ == old(out)@ + bytes@ && final(self).produced
                == final(self).passed().len(),
    {
        if bytes.len() as u64 > self.size - self.produced {
            return Err(
                Error::Protocol(join3("Zip entry ", self.path.as_str(), " is larger than its recorded size")),
            );
        }
        self.produced = self.produced + bytes.len() as u64;
        self.hasher.update(bytes);
        append_bytes(out, bytes);
        Ok(())
    }

    /// One call of the inflater, and what it made passed on.
    fn inflate_step(&mut self, input: &[u8], finish: bool, out: &mut Vec<u8>) -> (r: Result<(usize, usize, StreamStatus)>)
        requires
            old(self).wf(),
            inflate_taken(old(self).calls()) + input@.len() <= old(self).compressed_size,
        ensures
            final(self).same_entry(*old(self)),
            final(self).read == old(self).read,
            final(self).calls() == old(self).calls().push((input@, INFLATE_ROOM as nat, finish)),
            ({
                let reply = inflate_reply(final(self).calls());
                if reply.status is None {
                    fails_protocol(r, corrupt_message(old(self).path@, reply.message)) && final(self).passed()
                        == old(self).passed() && final(out)@ == old(out)@
                } else if old(self).passed().len() + reply.made.len() > old(self).size {
                    fails_protocol(r, larger_message(old(self).path@)) && final(self).passed() == old(self).passed()
                        && final(out)@ == old(out)@
                } else {
                    &&& r is Ok
                    &&& r->Ok_0.0 == reply.taken
                    &&& r->Ok_0.1 == reply.made.len()
                    &&& reply.status == Some(r->Ok_0.2)
                    &&& reply.taken <= input@.len()
                    &&& final(self).passed() == old(self).passed() + reply.made
                    &&& final(out)@ == old(out)@ + reply.made
                    &&& final(self).produced == final(self).passed().len()
                    &&& is_raw_inflater(final(self).inflater)
                    &&& final(self).room@.len() == INFLATE_ROOM
                    &&& inflate_taken(final(self).calls()) == inflate_taken(old(self).calls()) + reply.taken
                    &&& inflate_made(final(self).calls()) == inflate_made(old(self).calls()) + reply.made.len()
                }
            }),
            forall|stream: Seq<u8>|
                (#[trigger] deflate_content(stream)) is Some && follows(final(self).calls(), stream) ==> inflates(
                    final(self).calls(),
                    stream,
                    deflate_content(stream)->Some_0,
                ),
    {
        let ghost calls0 = self.calls();
        let reply = inflate_call(&mut self.inflater, input, &mut self.room, finish);
        proof {
            assert(self.calls().drop_last() =~= calls0);
            assert(input@.len() == input.len());
        }
        match reply {
            Ok((in0, out0, in1, out1, status)) => {
                let made: usize = (out1 - out0) as usize;
                let bytes = slice_bytes(&self.room, 0, made);
                proof {
                    assert(bytes@ =~= self.room@.take(made as int));
                }
                match self.pass(&bytes, out) {
                    Ok(()) => Ok(((in1 - in0) as usize, made, status)),
                    Err(e) => Err(e),
                }
            },
            Err(m) => Err(
                Error::Protocol(join4("Corrupt zip entry ", self.path.as_str(), ": ", m.as_str())),
            ),
        }
    }

    /// Takes in the part of the file that [`EntryReader::next_read`] asked for, and
    /// appends what it decompresses to.
    pub fn accept(&mut self, input: &[u8], out: &mut Vec<u8>) -> (r: Result<()>)
        requires
            old(self).wf(),
            old(self).read + input@.len() <= old(self).compressed_size,
        ensures
            final(self).same_entry(*old(self)),
            final(self).read == old(self).read + input@.len(),
            r is Ok ==> final(self).wf(),
            old(self).method == STORED ==> {
                let fits = old(self).passed().len() + input@.len() <= old(self).size;
                &&& fits ==> r is Ok && final(self).passed() == old(self).passed() + input@ && final(out)@ == old(
                    out,
                )@ + input@
                &&& !fits ==> fails_protocol(r, larger_message(old(self).path@)) && final(out)@ == old(out)@
                &&& final(self).calls() == old(self).calls()
            },
            old(self).method != STORED ==> {
                let x = inflated(old(self).calls(), input@, 0, old(self).passed(), old(self).size as nat);
                &&& final(self).calls() == x.0
                &&& final(self).passed() == x.1
                &&& flow_result(old(self).path@, x.2, r)
                &&& x.1.len() >= old(self).passed().len()
                &&& final(out)@ == old(out)@ + x.1.skip(old(self).passed().len() as int)
            },
            forall|stream: Seq<u8>|
                (#[trigger] deflate_content(stream)) is Some && old(self).gets(stream, input@) ==> r is Ok && final(self).inflating(stream),
    {
        let ghost before = *self;
        let ghost size = self.size as nat;
        self.read = self.read + input.len() as u64;
        if self.method == STORED {
            return self.pass(input, out);
        }
        let ghost whole = inflated(before.calls(), input@, 0, before.passed(), size);
        let ghost out0 = out@;
        let mut taken: usize = 0;
        proof {
            assert(out0 + before.passed().skip(before.passed().len() as int) =~= out0);
        }
        while taken < input.len()
            invariant
                taken <= input.len(),
                size == self.size,
                before == *old(self),
                before.method != STORED,
                out0 == old(out)@,
                self.wf(),
                self.same_entry(before),
                self.read == before.read + input@.len(),
                inflate_taken(self.calls()) + (input@.len() - taken) <= self.read,
                whole == inflated(before.calls(), input@, 0, before.passed(), size),
                whole == inflated(self.calls(), input@, taken as nat, self.passed(), size),
                before.passed().len() <= self.passed().len(),
                out@ == out0 + self.passed().skip(before.passed().len() as int),
                forall|stream: Seq<u8>|
                    (#[trigger] deflate_content(stream)) is Some && before.gets(stream, input@) ==> part_way(
                        *self,
                        stream,
                        before.read + taken,
                    ),
                taken > 0 ==> self.calls().len() > 0,
            decreases left(input@.len(), taken as nat) + left(size, self.passed().len()),
        {
            let ghost passed0 = self.passed();
            let ghost here = self.calls();
            let rest = slice_bytes(input, taken, input.len());
            proof {
                assert(rest@ =~= input@.skip(taken as int));
            }
            match self.inflate_step(&rest, false, out) {
                Ok((used, made, status)) => {
                    proof {
                        assert forall|stream: Seq<u8>|
                            (#[trigger] deflate_content(stream)) is Some && before.gets(stream, input@) implies part_way(
                            *self,
                            stream,
                            before.read + taken + used,
                        ) && (status == StreamStatus::StreamEnd || (made == 0 && used == 0) ==> taken + used
                            == input@.len()) by {
                            assert(rest@ =~= stream.subrange(before.read + taken, before.read + input@.len()));
                            lemma_handed_on(here, rest@, stream, before.read + taken);
                        }
                        let m = inflate_reply(self.calls()).made;
                        assert((passed0 + m).skip(before.passed().len() as int) =~= passed0.skip(
                            before.passed().len() as int,
                        ) + m);
                    }
                    taken = taken + used;
                    if status == StreamStatus::StreamEnd || (made == 0 && used == 0) {
                        return Ok(());
                    }
                },
                Err(e) => {
                    proof {
                        assert forall|stream: Seq<u8>|
                            (#[trigger] deflate_content(stream)) is Some && before.gets(stream, input@) implies false by {
                            assert(rest@ =~= stream.subrange(before.read + taken, before.read + input@.len()));
                            lemma_handed_on(here, rest@, stream, before.read + taken);
                        }
                    }
                    return Err(e);
                },
            }
        }
        Ok(())
    }

    /// Ends the entry: appends what is still buffered, and checks the size and the CRC
    /// of all that was passed on.
    pub fn finish(self, out: &mut Vec<u8>) -> (r: Result<()>)
        requires
            self.wf(),
        ensures
            ({
                let x = if self.method == STORED {
                    (self.calls(), self.passed(), Flow::Going)
                } else {
                    drained(self.calls(), self.passed(), self.size as nat)
                };
                &&& x.1.len() >= self.passed().len()
                &&& final(out)@ == old(out)@ + x.1.skip(self.passed().len() as int)
                &&& if x.2 != Flow::Going {
                    flow_result(self.path@, x.2, r)
                } else if x.1.len() != self.size {
                    fails_protocol(r, "Zip entry "@ + self.path@ + " is shorter than its recorded size"@)
                } else if crc32(x.1) != self.crc32 {
                    fails_protocol(r, "Zip entry "@ + self.path@ + " failed its CRC check"@)
                } else {
                    r is Ok
                }
            }),
            forall|stream: Seq<u8>|
                (#[trigger] deflate_content(stream)) is Some && self.inflating(stream) && self.read == stream.len()
                    && self.read > 0 && crc32(deflate_content(stream)->Some_0) == self.crc32 ==> r is Ok && final(out)@ == old(out)@ + deflate_content(stream)->Some_0.skip(self.passed().len() as int),
    {
        let ghost before = self;
        let ghost size = self.size as nat;
        let ghost out0 = out@;
        let mut this = self;
        proof {
            assert(out0 + before.passed().skip(before.passed().len() as int) =~= out0);
        }
        if this.method != STORED {
            let ghost whole = drained(before.calls(), before.passed(), size);
            let mut done: bool = false;
            proof {
                assert forall|stream: Seq<u8>|
                    (#[trigger] deflate_content(stream)) is Some && before.inflating(stream) && before.read
                        == stream.len() && before.read > 0 implies all_read(this, stream) by {
                    assert(stream.take(stream.len() as int) =~= stream);
                }
            }
            while !done
                invariant
                    size == this.size,
                    before == self,
                    out0 == old(out)@,
                    before.method != STORED,
                    this.wf(),
                    this.same_entry(before),
                    this.read == before.read,
                    whole == drained(before.calls(), before.passed(), size),
                    !done ==> whole == drained(this.calls(), this.passed(), size),
                    done ==> whole == (this.calls(), this.passed(), Flow::Going),
                    before.passed().len() <= this.passed().len(),
                    out@ == out0 + this.passed().skip(before.passed().len() as int),
                    forall|stream: Seq<u8>|
                        (#[trigger] deflate_content(stream)) is Some && before.inflating(stream) && before.read
                            == stream.len() && before.read > 0 ==> all_read(this, stream) && (done ==> this.passed()
                            == deflate_content(stream)->Some_0),
                decreases (if done { 0nat } else { 1 + left(size, this.passed().len()) }),
            {
                let ghost passed0 = this.passed();
                let ghost here = this.calls();
                let empty: Vec<u8> = Vec::new();
                proof {
                    assert(empty@ =~= Seq::empty());
                }
                match this.inflate_step(&empty, true, out) {
                    Ok((_, made, status)) => {
                        proof {
                            let m = inflate_reply(this.calls()).made;
                            assert((passed0 + m).skip(before.passed().len() as int) =~= passed0.skip(
                                before.passed().len() as int,
                            ) + m);
                            assert forall|stream: Seq<u8>|
                                (#[trigger] deflate_content(stream)) is Some && before.inflating(stream) && before.read
                                    == stream.len() && before.read > 0 implies all_read(this, stream) && (made == 0
                                || status == StreamStatus::StreamEnd ==> this.passed() == deflate_content(
                                stream,
                            )->Some_0) by {
                                lemma_input_ends(here, stream);
                            }
                        }
                        if made == 0 || status == StreamStatus::StreamEnd {
                            done = true;
                        }
                    },
                    Err(e) => {
                        proof {
                            assert forall|stream: Seq<u8>|
                                (#[trigger] deflate_content(stream)) is Some && before.inflating(stream) && before.read
                                    == stream.len() && before.read > 0 implies false by {
                                lemma_input_ends(here, stream);
                            }
                        }
                        return Err(e);
                    },
                }
            }
        }
        if this.produced != this.size {
            return Err(
                Error::Protocol(join3("Zip entry ", this.path.as_str(), " is shorter than its recorded size")),
            );
        }
        let crc: u32 = this.hasher.finalize();
        if crc != this.crc32 {
            return Err(Error::Protocol(join3("Zip entry ", this.path.as_str(), " failed its CRC check")));
        }
        Ok(())
    }
}

} // verus!
