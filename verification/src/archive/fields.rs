//! The little endian fields of zip records.
use vstd::prelude::*;
use crate::bytes::{le_bytes, le_value, lemma_le_len, lemma_pow256, read_le};
use crate::error::{fails_protocol, protocol_of, Result};
use crate::text::{decimal, decimal_text};

verus! {

/// The 16 bit field of `d` at `i`.
pub open spec fn field16(d: Seq<u8>, i: int) -> nat {
    le_value(d.subrange(i, i + 2))
}

/// The 32 bit field of `d` at `i`.
pub open spec fn field32(d: Seq<u8>, i: int) -> nat {
    le_value(d.subrange(i, i + 4))
}

/// The 64 bit field of `d` at `i`.
pub open spec fn field64(d: Seq<u8>, i: int) -> nat {
    le_value(d.subrange(i, i + 8))
}

/// `d` with the bytes `b` in place of what stood at `i`.
pub open spec fn patch(d: Seq<u8>, i: int, b: Seq<u8>) -> Seq<u8> {
    Seq::new(d.len(), |k: int| if i <= k < i + b.len() { b[k - i] } else { d[k] })
}

/// The 16 bit field at `d[i..]`.
pub fn u16_at(d: &[u8], i: usize) -> (r: u64)
    requires
        i + 2 <= d.len(),
    ensures
        r == field16(d@, i as int),
        r < 0x1_0000,
{
    proof {
        lemma_pow256();
    }
    read_le(d, i, 2)
}

/// The 32 bit field at `d[i..]`.
pub fn u32_at(d: &[u8], i: usize) -> (r: u64)
    requires
        i + 4 <= d.len(),
    ensures
        r == field32(d@, i as int),
        r < 0x1_0000_0000,
{
    proof {
        lemma_pow256();
    }
    read_le(d, i, 4)
}

/// The message for a 64 bit field that is no file offset.
pub open spec fn too_large(v: nat) -> Seq<char> {
    "Zip value too large: "@ + decimal(v)
}

/// The 64 bit field at `d[i..]`, which has to fit a signed number.
pub fn u64_at(d: &[u8], i: usize) -> (r: Result<u64>)
    requires
        i + 8 <= d.len(),
    ensures
        r is Ok <==> field64(d@, i as int) <= i64::MAX,
        r is Ok ==> r->Ok_0 == field64(d@, i as int),
        r is Err ==> fails_protocol(r, too_large(field64(d@, i as int))),
{
    let v = read_le(d, i, 8);
    if v > i64::MAX as u64 {
        return Err(protocol_of("Zip value too large: ", decimal_text(v).as_str()));
    }
    Ok(v)
}

/// Writes the `w` low bytes of `v` at `d[i..]`, least significant first.
fn put_le(d: &mut Vec<u8>, i: usize, v: u64, w: usize)
    requires
        i + w <= old(d).len(),
    ensures
        final(d)@ == patch(old(d)@, i as int, le_bytes(v as nat, w as nat)),
    decreases w,
{
    proof {
        lemma_le_len(v as nat, w as nat);
    }
    if w > 0 {
        d[i] = (v % 256) as u8;
        let ghost mid = d@;
        put_le(d, i + 1, v / 256, w - 1);
        proof {
            lemma_le_len((v / 256) as nat, (w - 1) as nat);
            assert(d@ =~= patch(old(d)@, i as int, le_bytes(v as nat, w as nat)));
        }
    } else {
        proof {
            assert(d@ =~= patch(old(d)@, i as int, le_bytes(v as nat, w as nat)));
        }
    }
}

/// Writes the low 16 bits of `v` at `d[i..]`.
pub fn put_u16(d: &mut Vec<u8>, i: usize, v: u64)
    requires
        i + 2 <= old(d).len(),
    ensures
        final(d)@ == patch(old(d)@, i as int, le_bytes(v as nat, 2)),
{
    put_le(d, i, v, 2);
}

/// Writes the low 32 bits of `v` at `d[i..]`.
pub fn put_u32(d: &mut Vec<u8>, i: usize, v: u64)
    requires
        i + 4 <= old(d).len(),
    ensures
        final(d)@ == patch(old(d)@, i as int, le_bytes(v as nat, 4)),
{
    put_le(d, i, v, 4);
}

/// Writes `v` at `d[i..]`.
pub fn put_u64(d: &mut Vec<u8>, i: usize, v: u64)
    requires
        i + 8 <= old(d).len(),
    ensures
        final(d)@ == patch(old(d)@, i as int, le_bytes(v as nat, 8)),
{
    put_le(d, i, v, 8);
}

} // verus!
