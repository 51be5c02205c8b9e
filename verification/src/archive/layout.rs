//! Fixed width records, field by field.
use vstd::prelude::*;
use crate::bytes::{le_bytes, le_value, lemma_le_len, lemma_le_round_trip, pow256};

verus! {

/// The bytes of a row of (value, width) fields, each little endian.
pub open spec fn packed(fs: Seq<(nat, nat)>) -> Seq<u8>
    decreases fs.len(),
{
    if fs.len() == 0 {
        Seq::empty()
    } else {
        packed(fs.drop_last()) + le_bytes(fs.last().0, fs.last().1)
    }
}

/// The total width of the first `k` fields.
pub open spec fn width(fs: Seq<(nat, nat)>, k: int) -> nat
    decreases k,
{
    if k <= 0 {
        0
    } else {
        width(fs, k - 1) + fs[k - 1].1
    }
}

/// Fields in executable form.
pub open spec fn fields_of(v: Seq<(u64, usize)>) -> Seq<(nat, nat)> {
    Seq::new(v.len(), |i: int| (v[i].0 as nat, v[i].1 as nat))
}

/// The bytes are as many as the widths say.
pub proof fn lemma_packed_len(fs: Seq<(nat, nat)>)
    ensures
        packed(fs).len() == width(fs, fs.len() as int),
    decreases fs.len(),
{
    if fs.len() > 0 {
        lemma_packed_len(fs.drop_last());
        lemma_le_len(fs.last().0, fs.last().1);
        lemma_width_prefix(fs, fs.len() - 1);
    }
}

proof fn lemma_width_prefix(fs: Seq<(nat, nat)>, k: int)
    requires
        0 <= k < fs.len(),
    ensures
        width(fs.drop_last(), k) == width(fs, k),
    decreases k,
{
    if k > 0 {
        lemma_width_prefix(fs, k - 1);
    }
}

/// Field `k` stands where the widths before it end.
pub proof fn lemma_packed_field(fs: Seq<(nat, nat)>, k: int, tail: Seq<u8>)
    requires
        0 <= k < fs.len(),
    ensures
        width(fs, k) + fs[k].1 <= packed(fs).len(),
        (packed(fs) + tail).subrange(width(fs, k) as int, (width(fs, k) + fs[k].1) as int) == le_bytes(
            fs[k].0,
            fs[k].1,
        ),
    decreases fs.len(),
{
    let init = fs.drop_last();
    lemma_packed_len(init);
    lemma_le_len(fs.last().0, fs.last().1);
    lemma_width_prefix(fs, k);
    let at = width(fs, k) as int;
    let to = (width(fs, k) + fs[k].1) as int;
    if k < fs.len() - 1 {
        lemma_packed_field(init, k, le_bytes(fs.last().0, fs.last().1) + tail);
        assert(packed(fs) + tail =~= packed(init) + (le_bytes(fs.last().0, fs.last().1) + tail));
    } else {
        assert((packed(fs) + tail).subrange(at, to) =~= le_bytes(fs.last().0, fs.last().1));
    }
}

/// Field `k` is read back as it was written, if it fits its width.
pub proof fn lemma_packed_value(fs: Seq<(nat, nat)>, k: int, tail: Seq<u8>)
    requires
        0 <= k < fs.len(),
        fs[k].0 < pow256(fs[k].1),
    ensures
        le_value((packed(fs) + tail).subrange(width(fs, k) as int, (width(fs, k) + fs[k].1) as int)) == fs[k].0,
        width(fs, k) + fs[k].1 <= packed(fs).len(),
{
    lemma_packed_field(fs, k, tail);
    lemma_le_round_trip(fs[k].0, fs[k].1);
}

/// Appends the `w` low bytes of `v`, least significant first.
fn push_le(out: &mut Vec<u8>, v: u64, w: usize)
    ensures
        final(out)@ == old(out)@ + le_bytes(v as nat, w as nat),
    decreases w,
{
    if w > 0 {
        out.push((v % 256) as u8);
        push_le(out, v / 256, w - 1);
    }
    proof {
        assert(out@ =~= old(out)@ + le_bytes(v as nat, w as nat));
    }
}

/// Appends a row of fields.
pub fn push_fields(out: &mut Vec<u8>, fs: &[(u64, usize)])
    ensures
        final(out)@ == old(out)@ + packed(fields_of(fs@)),
{
    let ghost all = fields_of(fs@);
    let ghost start = out@;
    proof {
        assert(all.take(0) =~= Seq::empty());
        assert(start + packed(all.take(0)) =~= start);
    }
    for i in 0..fs.len()
        invariant
            all == fields_of(fs@),
            out@ == start + packed(all.take(i as int)),
    {
        proof {
            assert(all.take(i as int + 1).drop_last() =~= all.take(i as int));
        }
        push_le(out, fs[i].0, fs[i].1);
        proof {
            assert(out@ =~= start + packed(all.take(i as int + 1)));
        }
    }
    proof {
        assert(all.take(all.len() as int) =~= all);
    }
}

} // verus!
