//! Numbers as bytes, in both byte orders.
use vstd::prelude::*;

verus! {

/// `256` to the power `w`.
pub open spec fn pow256(w: nat) -> nat
    decreases w,
{
    if w == 0 {
        1
    } else {
        256 * pow256((w - 1) as nat)
    }
}

/// The `w` low bytes of `n`, most significant first.
pub open spec fn be_bytes(n: nat, w: nat) -> Seq<u8>
    decreases w,
{
    if w == 0 {
        Seq::empty()
    } else {
        be_bytes(n / 256, (w - 1) as nat).push((n % 256) as u8)
    }
}

/// The number that `s` spells, most significant byte first.
pub open spec fn be_value(s: Seq<u8>) -> nat
    decreases s.len(),
{
    if s.len() == 0 {
        0
    } else {
        be_value(s.drop_last()) * 256 + s.last() as nat
    }
}

/// The `w` low bytes of `n`, least significant first.
pub open spec fn le_bytes(n: nat, w: nat) -> Seq<u8>
    decreases w,
{
    if w == 0 {
        Seq::empty()
    } else {
        seq![(n % 256) as u8] + le_bytes(n / 256, (w - 1) as nat)
    }
}

/// The number that `s` spells, least significant byte first.
pub open spec fn le_value(s: Seq<u8>) -> nat
    decreases s.len(),
{
    if s.len() == 0 {
        0
    } else {
        s[0] as nat + 256 * le_value(s.skip(1))
    }
}

/// The powers that the formats use.
pub proof fn lemma_pow256()
    ensures
        pow256(1) == 0x100,
        pow256(2) == 0x1_0000,
        pow256(4) == 0x1_0000_0000,
        pow256(8) == 0x1_0000_0000_0000_0000,
{
    reveal_with_fuel(pow256, 9);
}

/// A number of at most `w` bytes is what its big endian bytes spell.
pub proof fn lemma_be_round_trip(n: nat, w: nat)
    requires
        n < pow256(w),
    ensures
        be_bytes(n, w).len() == w,
        be_value(be_bytes(n, w)) == n,
    decreases w,
{
    if w > 0 {
        lemma_be_round_trip(n / 256, (w - 1) as nat);
        let s = be_bytes(n, w);
        assert(s.drop_last() =~= be_bytes(n / 256, (w - 1) as nat));
    }
}

/// A number of at most `w` bytes is what its little endian bytes spell.
pub proof fn lemma_le_round_trip(n: nat, w: nat)
    requires
        n < pow256(w),
    ensures
        le_bytes(n, w).len() == w,
        le_value(le_bytes(n, w)) == n,
    decreases w,
{
    if w > 0 {
        lemma_le_round_trip(n / 256, (w - 1) as nat);
        let s = le_bytes(n, w);
        assert(s.skip(1) =~= le_bytes(n / 256, (w - 1) as nat));
    }
}

/// The number of bytes is the width.
pub proof fn lemma_le_len(n: nat, w: nat)
    ensures
        le_bytes(n, w).len() == w,
    decreases w,
{
    if w > 0 {
        lemma_le_len(n / 256, (w - 1) as nat);
    }
}

/// The number of bytes is the width.
pub proof fn lemma_be_len(n: nat, w: nat)
    ensures
        be_bytes(n, w).len() == w,
    decreases w,
{
    if w > 0 {
        lemma_be_len(n / 256, (w - 1) as nat);
    }
}

/// What `w` bytes spell is below `256` to the power `w`.
pub proof fn lemma_be_bound(s: Seq<u8>)
    ensures
        be_value(s) < pow256(s.len()),
    decreases s.len(),
{
    if s.len() > 0 {
        lemma_be_bound(s.drop_last());
    }
}

/// What `w` bytes spell is below `256` to the power `w`.
pub proof fn lemma_le_bound(s: Seq<u8>)
    ensures
        le_value(s) < pow256(s.len()),
    decreases s.len(),
{
    if s.len() > 0 {
        lemma_le_bound(s.skip(1));
    }
}

/// Appends the `w` low bytes of `n`, most significant first.
pub fn push_be(out: &mut Vec<u8>, n: u64, w: u64)
    ensures
        final(out)@ == old(out)@ + be_bytes(n as nat, w as nat),
    decreases w,
{
    if w > 0 {
        push_be(out, n / 256, w - 1);
        out.push((n % 256) as u8);
    }
    proof {
        assert(out@ =~= old(out)@ + be_bytes(n as nat, w as nat));
    }
}

/// The number that `d[at..at + w]` spells, most significant byte first.
pub fn read_be(d: &[u8], at: usize, w: usize) -> (n: u64)
    requires
        w <= 8,
        at + w <= d.len(),
    ensures
        n == be_value(d@.subrange(at as int, at + w)),
    decreases w,
{
    proof {
        lemma_be_bound(d@.subrange(at as int, at + w));
        lemma_pow256_mono(w as nat, 8);
        lemma_pow256();
    }
    if w == 0 {
        0
    } else {
        let hi = read_be(d, at, w - 1);
        proof {
            assert(d@.subrange(at as int, at + w).drop_last() =~= d@.subrange(at as int, at + w - 1));
        }
        hi * 256 + d[at + w - 1] as u64
    }
}

/// The number that `d[at..at + w]` spells, least significant byte first.
pub fn read_le(d: &[u8], at: usize, w: usize) -> (n: u64)
    requires
        w <= 8,
        at + w <= d.len(),
    ensures
        n == le_value(d@.subrange(at as int, at + w)),
        n < pow256(w as nat),
    decreases w,
{
    proof {
        lemma_le_bound(d@.subrange(at as int, at + w));
        lemma_pow256_mono(w as nat, 8);
        lemma_pow256();
    }
    if w == 0 {
        0
    } else {
        let hi = read_le(d, at + 1, w - 1);
        proof {
            assert(d@.subrange(at as int, at + w).skip(1) =~= d@.subrange(at as int + 1, at + w));
        }
        d[at] as u64 + 256 * hi
    }
}

/// A wider number can be larger.
pub proof fn lemma_pow256_mono(a: nat, b: nat)
    requires
        a <= b,
    ensures
        0 < pow256(a) <= pow256(b),
    decreases b,
{
    if a < b {
        lemma_pow256_mono(a, (b - 1) as nat);
    } else if b > 0 {
        lemma_pow256_mono((a - 1) as nat, (b - 1) as nat);
    }
}

/// In big endian order the first byte counts most, in little endian order the last.
pub proof fn law_byte_orders(b: u8, s: Seq<u8>)
    ensures
        be_value(seq![b]) == b,
        le_value(seq![b]) == b,
        be_value(s.push(b)) == 256 * be_value(s) + b,
        le_value(seq![b] + s) == b + 256 * le_value(s),
{
    reveal_with_fuel(be_value, 2);
    reveal_with_fuel(le_value, 2);
    assert(s.push(b).drop_last() =~= s);
    assert((seq![b] + s).skip(1) =~= s);
    assert(seq![b].drop_last() =~= Seq::empty());
    assert(seq![b].skip(1) =~= Seq::empty());
}

/// The bytes of a number are as many as asked for, and spell it in either order.
pub proof fn law_numbers_are_spelled(n: nat, w: nat)
    requires
        n < pow256(w),
    ensures
        be_bytes(n, w).len() == w,
        le_bytes(n, w).len() == w,
        be_value(be_bytes(n, w)) == n,
        le_value(le_bytes(n, w)) == n,
{
    lemma_be_round_trip(n, w);
    lemma_le_round_trip(n, w);
}

} // verus!
