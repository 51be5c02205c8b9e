//! Compressing the data of one entry, piece by piece.
use vstd::prelude::*;
use crate::archive::entry::crc32;
use crate::archive::reader::{deflate_content, goes_on, hashed, Reply, StreamStatus};
use crate::error::{fails_protocol, protocol, protocol_of, Result};
use crate::text::{append_bytes, slice_bytes};

verus! {

/// How much room the compressor gets per call.
pub const DEFLATE_ROOM: usize = 262_144;

/// The compressor of `flate2`.
#[verifier::external_type_specification]
#[verifier::external_body]
pub struct ExCompress(flate2::Compress);

/// The calls made so far on a compressor: the input, the room, and whether the input
/// ends with it.
pub uninterp spec fn deflate_calls(c: flate2::Compress) -> Seq<(Seq<u8>, nat, bool)>;

/// Whether a compressor makes a raw deflate stream at the default level.
pub uninterp spec fn is_raw_deflater(c: flate2::Compress) -> bool;

/// What a compressor to raw deflate at the default level replies to the last of these
/// calls.
pub uninterp spec fn deflate_reply(calls: Seq<(Seq<u8>, nat, bool)>) -> Reply;

/// The bytes taken over the calls from `from` on.
pub open spec fn deflate_taken(calls: Seq<(Seq<u8>, nat, bool)>, from: nat) -> nat
    decreases calls.len(),
{
    if calls.len() <= from {
        0
    } else {
        deflate_taken(calls.drop_last(), from) + deflate_reply(calls).taken
    }
}

/// The bytes made over the calls from `from` on.
pub open spec fn deflate_made(calls: Seq<(Seq<u8>, nat, bool)>, from: nat) -> Seq<u8>
    decreases calls.len(),
{
    if calls.len() <= from {
        Seq::empty()
    } else {
        deflate_made(calls.drop_last(), from) + deflate_reply(calls).made
    }
}

/// The start of the input that was taken over all calls.
pub open spec fn deflate_input(calls: Seq<(Seq<u8>, nat, bool)>) -> Seq<u8>
    decreases calls.len(),
{
    if calls.len() == 0 {
        Seq::empty()
    } else {
        deflate_input(calls.drop_last()) + calls.last().0.take(deflate_reply(calls).taken as int)
    }
}

/// The calls use a compressor as it is meant to be: there is room, and once the input has
/// ended it stays so.
pub open spec fn in_order(calls: Seq<(Seq<u8>, nat, bool)>) -> bool
    decreases calls.len(),
{
    calls.len() == 0 || {
        &&& in_order(calls.drop_last())
        &&& calls.last().1 > 0
        &&& calls.last().2 || goes_on(calls.drop_last())
    }
}

/// The last of these calls does not fail. It takes or makes something if it gets any input,
/// and once the input has ended it ends the stream or fills the room.
pub open spec fn deflates(calls: Seq<(Seq<u8>, nat, bool)>) -> bool {
    let reply = deflate_reply(calls);
    let (input, room, finish) = calls.last();
    &&& reply.status is Some
    &&& !finish && input.len() > 0 ==> reply.taken > 0 || reply.made.len() > 0
    &&& finish && input.len() == 0 ==> reply.status == Some(StreamStatus::StreamEnd) || reply.made.len() == room
}

/// The calls from `from` on feed `input` to the compressor: each gets what those
/// before it have left.
pub open spec fn feeds(calls: Seq<(Seq<u8>, nat, bool)>, from: nat, input: Seq<u8>) -> bool
    decreases calls.len(),
{
    calls.len() <= from || {
        let before = calls.drop_last();
        let taken = deflate_taken(before, from);
        &&& feeds(before, from, input)
        &&& taken < input.len()
        &&& calls.last() == (input.skip(taken as int), DEFLATE_ROOM as nat, false)
    }
}

/// The calls from `from` on flush the compressor: none but the last ends the stream.
pub open spec fn flushes(calls: Seq<(Seq<u8>, nat, bool)>, from: nat) -> bool
    decreases calls.len(),
{
    calls.len() <= from || {
        &&& flushes(calls.drop_last(), from)
        &&& calls.last() == (Seq::<u8>::empty(), DEFLATE_ROOM as nat, true)
        &&& calls.len() > from + 1 ==> deflate_reply(calls.drop_last()).status != Some(StreamStatus::StreamEnd)
    }
}

/// `flate2::Compress::new` for raw deflate at the default level: no call has been made.
#[verifier::external_body]
fn raw_deflater() -> (c: flate2::Compress)
    ensures
        is_raw_deflater(c),
        deflate_calls(c) == Seq::<(Seq<u8>, nat, bool)>::empty(),
{
    flate2::Compress::new(flate2::Compression::default(), false)
}

/// `flate2::Compress::compress`: what it does is a function of the calls made so far,
/// the input, the room and the flush mode. It takes a start of the input and fills a
/// start of the room. The totals before and after the call, as `total_in` and
/// `total_out` give them, tell how much; they are counted in 64 bits. Where it ends the
/// stream, all that was made is a deflate stream whose content is all that was taken.
#[verifier::external_body]
fn deflate_call(c: &mut flate2::Compress, input: &[u8], out: &mut Vec<u8>, finish: bool) -> (r:
    core::result::Result<(u64, u64, u64, u64, StreamStatus), String>)
    requires
        is_raw_deflater(*old(c)),
        deflate_taken(deflate_calls(*old(c)), 0) + input@.len() <= u64::MAX,
        deflate_made(deflate_calls(*old(c)), 0).len() + old(out)@.len() <= u64::MAX,
    ensures
        is_raw_deflater(*final(c)),
        deflate_calls(*final(c)) == deflate_calls(*old(c)).push((input@, old(out)@.len(), finish)),
        final(out)@.len() == old(out)@.len(),
        r is Err <==> deflate_reply(deflate_calls(*final(c))).status is None,
        r matches Err(m) ==> m@ == deflate_reply(deflate_calls(*final(c))).message,
        r matches Ok((in0, out0, in1, out1, status)) ==> {
            let reply = deflate_reply(deflate_calls(*final(c)));
            &&& in0 == deflate_taken(deflate_calls(*old(c)), 0)
            &&& out0 == deflate_made(deflate_calls(*old(c)), 0).len()
            &&& in1 == in0 + reply.taken
            &&& out1 == out0 + reply.made.len()
            &&& reply.taken <= input@.len()
            &&& reply.made.len() <= old(out)@.len()
            &&& final(out)@.take(reply.made.len() as int) == reply.made
            &&& reply.status == Some(status)
        },
        in_order(deflate_calls(*final(c))) ==> deflates(deflate_calls(*final(c))),
        in_order(deflate_calls(*final(c))) && deflate_reply(deflate_calls(*final(c))).status == Some(
            StreamStatus::StreamEnd,
        ) ==> deflate_content(deflate_made(deflate_calls(*final(c)), 0)) == Some(deflate_input(deflate_calls(*final(c)))),
{
    let (in0, out0) = (c.total_in(), c.total_out());
    let flush = if finish { flate2::FlushCompress::Finish } else { flate2::FlushCompress::None };
    let status = match c.compress(input, out, flush) {
        Ok(flate2::Status::Ok) => StreamStatus::Going,
        Ok(flate2::Status::BufError) => StreamStatus::Stuck,
        Ok(flate2::Status::StreamEnd) => StreamStatus::StreamEnd,
        Err(e) => return Err(e.to_string()),
    };
    Ok((in0, out0, c.total_in(), c.total_out(), status))
}

/// Raw deflate of a run of bytes, keeping the CRC and size of its input.
pub struct Deflater {
    pub compress: flate2::Compress,
    pub room: Vec<u8>,
    pub hasher: crc32fast::Hasher,
    /// The size of the input.
    pub total: u64,
    /// The size of the output.
    pub written: u64,
}

impl Deflater {
    /// The input so far.
    pub open spec fn input(self) -> Seq<u8> {
        hashed(self.hasher)
    }

    /// The calls made on the compressor so far.
    pub open spec fn calls(self) -> Seq<(Seq<u8>, nat, bool)> {
        deflate_calls(self.compress)
    }

    /// The state of a deflater whose input has not ended: the compressor has taken all of it.
    pub open spec fn wf(self) -> bool {
        &&& self.fits()
        &&& goes_on(self.calls())
        &&& deflate_input(self.calls()) == self.input()
    }

    /// What holds of a deflater at any time.
    pub open spec fn fits(self) -> bool {
        &&& is_raw_deflater(self.compress)
        &&& self.room@.len() == DEFLATE_ROOM
        &&& self.total == self.input().len()
        &&& self.written == deflate_made(self.calls(), 0).len()
        &&& deflate_taken(self.calls(), 0) == deflate_input(self.calls()).len()
        &&& deflate_input(self.calls()).len() <= self.total
        &&& in_order(self.calls())
    }

    /// A deflater that has taken nothing in.
    pub fn new() -> (r: Deflater)
        ensures
            r.wf(),
            r.input().len() == 0,
            r.calls().len() == 0,
    {
        Deflater {
            compress: raw_deflater(),
            room: vec![0u8; DEFLATE_ROOM],
            hasher: crc32fast::Hasher::new(),
            total: 0,
            written: 0,
        }
    }

    /// One call of the compressor, and what it made appended to `out`. It fails only where
    /// the output cannot be counted.
    fn step(&mut self, input: &[u8], finish: bool, out: &mut Vec<u8>) -> (r: Result<(usize, usize, StreamStatus)>)
        requires
            old(self).fits(),
            finish || goes_on(old(self).calls()),
            deflate_input(old(self).calls()).len() + input@.len() <= old(self).total,
        ensures
            final(self).hasher == old(self).hasher,
            final(self).total == old(self).total,
            old(self).written + DEFLATE_ROOM > u64::MAX ==> fails_protocol(r, "deflate: too much output"@) && final(self).compress == old(self).compress && final(out)@ == old(out)@,
            old(self).written + DEFLATE_ROOM <= u64::MAX ==> {
                let reply = deflate_reply(final(self).calls());
                &&& r is Ok
                &&& final(self).fits()
                &&& final(self).calls() == old(self).calls().push((input@, DEFLATE_ROOM as nat, finish))
                &&& deflates(final(self).calls())
                &&& r->Ok_0.0 == reply.taken && reply.taken <= input@.len()
                &&& r->Ok_0.1 == reply.made.len()
                &&& reply.status == Some(r->Ok_0.2)
                &&& deflate_input(final(self).calls()) == deflate_input(old(self).calls()) + input@.take(
                    reply.taken as int,
                )
                &&& deflate_made(final(self).calls(), 0) == deflate_made(old(self).calls(), 0) + reply.made
                &&& final(out)@ == old(out)@ + reply.made
                &&& r->Ok_0.2 == StreamStatus::StreamEnd ==> deflate_content(deflate_made(final(self).calls(), 0))
                    == Some(deflate_input(final(self).calls()))
            },
    {
        if self.written > u64::MAX - DEFLATE_ROOM as u64 {
            return Err(protocol("deflate: too much output"));
        }
        let ghost calls0 = self.calls();
        let reply = deflate_call(&mut self.compress, input, &mut self.room, finish);
        proof {
            assert(self.calls().drop_last() =~= calls0);
            assert(input@.len() == input.len());
        }
        match reply {
            Ok((in0, out0, in1, out1, status)) => {
                let made: usize = (out1 - out0) as usize;
                let bytes = slice_bytes(&self.room, 0, made);
                proof {
                    assert(bytes@ =~= self.room@.take(made as int));
                }
                append_bytes(out, &bytes);
                self.written = self.written + made as u64;
                Ok(((in1 - in0) as usize, made, status))
            },
            Err(m) => Err(protocol_of("deflate: ", m.as_str())),
        }
    }

    /// Takes bytes in, and appends what the compressor makes of them. It fails only where the
    /// output cannot be counted.
    pub fn accept(&mut self, input: &[u8], out: &mut Vec<u8>) -> (r: Result<()>)
        requires
            old(self).wf(),
            old(self).input().len() + input@.len() <= u64::MAX,
        ensures
            final(self).input() == old(self).input() + input@,
            r is Ok ==> {
                let from = old(self).calls().len();
                &&& final(self).wf()
                &&& final(self).calls().len() >= from
                &&& final(self).calls().take(from as int) == old(self).calls()
                &&& feeds(final(self).calls(), from, input@)
                &&& deflate_taken(final(self).calls(), from) == input@.len()
                &&& final(out)@ == old(out)@ + deflate_made(final(self).calls(), from)
                &&& deflate_made(final(self).calls(), 0) == deflate_made(old(self).calls(), 0) + deflate_made(
                    final(self).calls(),
                    from,
                )
            },
            r is Err ==> fails_protocol(r, "deflate: too much output"@) && exists|calls: Seq<(Seq<u8>, nat, bool)>|
                #[trigger] feeds_too_much(old(self).calls(), calls, input@),
    {
        let ghost calls0 = self.calls();
        let ghost from = calls0.len();
        let ghost out0 = out@;
        let ghost input0 = self.input();
        self.hasher.update(input);
        self.total = self.total + input.len() as u64;
        let mut consumed: usize = 0;
        proof {
            assert(out0 + Seq::<u8>::empty() =~= out0);
            assert(calls0.take(from as int) =~= calls0);
            assert(input0 + input@.take(0) =~= input0);
            assert(deflate_made(calls0, 0) + Seq::<u8>::empty() =~= deflate_made(calls0, 0));
        }
        while consumed < input.len()
            invariant
                consumed <= input.len(),
                self.fits(),
                goes_on(self.calls()),
                input0 == old(self).input(),
                self.input() == input0 + input@,
                deflate_input(self.calls()) == input0 + input@.take(consumed as int),
                calls0 == old(self).calls(),
                from == calls0.len(),
                out0 == old(out)@,
                self.calls().len() >= from,
                self.calls().take(from as int) == calls0,
                feeds(self.calls(), from, input@),
                deflate_taken(self.calls(), from) == consumed,
                out@ == out0 + deflate_made(self.calls(), from),
                deflate_made(self.calls(), 0) == deflate_made(calls0, 0) + deflate_made(self.calls(), from),
            decreases input.len() - consumed, u64::MAX - self.written,
        {
            let ghost here = self.calls();
            let rest = slice_bytes(input, consumed, input.len());
            proof {
                assert(rest@ =~= input@.skip(consumed as int));
                if self.written + DEFLATE_ROOM > u64::MAX {
                    assert(feeds_too_much(old(self).calls(), here, input@));
                }
            }
            match self.step(&rest, false, out) {
                Ok((taken, _, _)) => {
                    proof {
                        let now = self.calls();
                        assert(now.drop_last() =~= here);
                        assert(now.take(from as int) =~= here.take(from as int));
                        assert(out0 + deflate_made(here, from) + deflate_reply(now).made =~= out0 + deflate_made(
                            now,
                            from,
                        ));
                        assert(deflate_made(calls0, 0) + deflate_made(here, from) + deflate_reply(now).made
                            =~= deflate_made(calls0, 0) + deflate_made(now, from));
                        assert(input0 + input@.take(consumed as int) + rest@.take(taken as int) =~= input0 + input@.take(
                            consumed + taken,
                        ));
                    }
                    consumed = consumed + taken;
                },
                Err(e) => {
                    return Err(e);
                },
            }
        }
        proof {
            assert(input@.take(consumed as int) =~= input@);
        }
        Ok(())
    }

    /// Flush what the compressor still holds; returns the input's CRC and size. All that was
    /// made since the start is then a deflate stream whose content is the input. It fails only
    /// where the output cannot be counted.
    pub fn finish(self, out: &mut Vec<u8>) -> (r: Result<(u32, u64)>)
        requires
            self.wf(),
        ensures
            r matches Ok((crc, size)) ==> {
                &&& crc == crc32(self.input())
                &&& size == self.input().len()
                &&& exists|calls: Seq<(Seq<u8>, nat, bool)>| #[trigger]
                    ends(self.calls(), calls) && final(out)@ == old(out)@ + deflate_made(calls, self.calls().len())
                        && deflate_content(deflate_made(self.calls(), 0) + deflate_made(calls, self.calls().len()))
                        == Some(self.input())
            },
            r is Err ==> fails_protocol(r, "deflate: too much output"@) && exists|calls: Seq<(Seq<u8>, nat, bool)>|
                #[trigger] flushes_too_much(self.calls(), calls),
    {
        let ghost calls0 = self.calls();
        let ghost from = calls0.len();
        let ghost out0 = out@;
        let mut this = self;
        let mut done: bool = false;
        proof {
            assert(out0 + Seq::<u8>::empty() =~= out0);
            assert(calls0.take(from as int) =~= calls0);
            assert(deflate_made(calls0, 0) + Seq::<u8>::empty() =~= deflate_made(calls0, 0));
        }
        while !done
            invariant
                this.fits(),
                this.hasher == self.hasher,
                this.total == self.total,
                self.wf(),
                deflate_input(this.calls()) == self.input(),
                calls0 == self.calls(),
                from == calls0.len(),
                out0 == old(out)@,
                this.calls().len() >= from,
                this.calls().take(from as int) == calls0,
                flushes(this.calls(), from),
                done ==> this.calls().len() > from && deflate_reply(this.calls()).status == Some(StreamStatus::StreamEnd)
                    && deflate_content(deflate_made(this.calls(), 0)) == Some(self.input()),
                !done && this.calls().len() > from ==> deflate_reply(this.calls()).status != Some(
                    StreamStatus::StreamEnd,
                ),
                out@ == out0 + deflate_made(this.calls(), from),
                deflate_made(this.calls(), 0) == deflate_made(calls0, 0) + deflate_made(this.calls(), from),
            decreases (if done { 0nat } else { 1nat }), u64::MAX - this.written,
        {
            let ghost here = this.calls();
            let empty: Vec<u8> = Vec::new();
            proof {
                assert(empty@ =~= Seq::empty());
                if this.written + DEFLATE_ROOM > u64::MAX {
                    assert(flushes_too_much(self.calls(), here));
                }
            }
            match this.step(&empty, true, out) {
                Ok((_, _, status)) => {
                    proof {
                        let now = this.calls();
                        assert(now.drop_last() =~= here);
                        assert(now.take(from as int) =~= here.take(from as int));
                        assert(out0 + deflate_made(here, from) + deflate_reply(now).made =~= out0 + deflate_made(
                            now,
                            from,
                        ));
                        assert(deflate_made(calls0, 0) + deflate_made(here, from) + deflate_reply(now).made
                            =~= deflate_made(calls0, 0) + deflate_made(now, from));
                        assert(self.input() + empty@.take(0) =~= self.input());
                    }
                    if status == StreamStatus::StreamEnd {
                        done = true;
                    }
                },
                Err(e) => {
                    return Err(e);
                },
            }
        }
        proof {
            assert(ends(self.calls(), this.calls()));
        }
        Ok((this.hasher.finalize(), this.total))
    }
}

/// `calls` goes on from `before` and feeds `input` until there is no room left to count the
/// output.
pub open spec fn feeds_too_much(
    before: Seq<(Seq<u8>, nat, bool)>,
    calls: Seq<(Seq<u8>, nat, bool)>,
    input: Seq<u8>,
) -> bool {
    &&& calls.len() >= before.len()
    &&& calls.take(before.len() as int) == before
    &&& feeds(calls, before.len(), input)
    &&& deflate_taken(calls, before.len()) < input.len()
    &&& deflate_made(calls, 0).len() + DEFLATE_ROOM > u64::MAX
}

/// `calls` goes on from `before` and flushes until there is no room left to count the
/// output.
pub open spec fn flushes_too_much(before: Seq<(Seq<u8>, nat, bool)>, calls: Seq<(Seq<u8>, nat, bool)>) -> bool {
    &&& calls.len() >= before.len()
    &&& calls.take(before.len() as int) == before
    &&& flushes(calls, before.len())
    &&& deflate_made(calls, 0).len() + DEFLATE_ROOM > u64::MAX
}

/// `calls` goes on from `before` and flushes the compressor to the end of the stream.
pub open spec fn ends(before: Seq<(Seq<u8>, nat, bool)>, calls: Seq<(Seq<u8>, nat, bool)>) -> bool {
    &&& calls.len() > before.len()
    &&& calls.take(before.len() as int) == before
    &&& flushes(calls, before.len())
    &&& deflate_reply(calls).status == Some(StreamStatus::StreamEnd)
}

} // verus!
