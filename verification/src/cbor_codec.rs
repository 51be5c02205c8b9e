//! The bytes of a CBOR value.
//!
//! Integers and lengths take the shortest head, a link is tag 42 around a byte
//! string that starts with a zero, and a map is written in the order of its entries.
use vstd::prelude::*;
use vstd::utf8::*;
use crate::bytes::{be_bytes, be_value, lemma_be_len, lemma_be_round_trip, lemma_pow256, pow256, push_be, read_be};
use crate::cbor::{items, pairs, CborObject, CborValue};
use crate::error::{cbor_error, fails_cbor, Result};
use crate::text::{append_bytes, slice_bytes, utf8_text};

verus! {

broadcast use crate::cbor::group_cbor;

/// The head of an item: its major type and its argument, in the shortest form.
#[verifier::opaque]
pub open spec fn head(major: nat, n: nat) -> Seq<u8> {
    if n < 24 {
        seq![(major * 32 + n) as u8]
    } else if n < 0x100 {
        seq![(major * 32 + 24) as u8] + be_bytes(n, 1)
    } else if n < 0x1_0000 {
        seq![(major * 32 + 25) as u8] + be_bytes(n, 2)
    } else if n < 0x1_0000_0000 {
        seq![(major * 32 + 26) as u8] + be_bytes(n, 4)
    } else {
        seq![(major * 32 + 27) as u8] + be_bytes(n, 8)
    }
}

/// The bytes of `v`.
pub open spec fn encode(v: CborValue) -> Seq<u8>
    decreases v,
{
    match v {
        CborValue::Null => seq![0xf6u8],
        CborValue::Boolean(b) => seq![if b { 0xf5u8 } else { 0xf4u8 }],
        CborValue::Long(n) => if n >= 0 { head(0, n as nat) } else { head(1, (-1 - n) as nat) },
        CborValue::ByteString(b) => head(2, b.len()) + b,
        CborValue::Str(s) => head(3, encode_utf8(s).len()) + encode_utf8(s),
        CborValue::List(s) => head(4, s.len()) + encode_items(s),
        CborValue::Mapping(s) => head(5, s.len()) + encode_entries(s),
        CborValue::MerkleLink(b) => head(6, 42) + (head(2, b.len() + 1) + (seq![0u8] + b)),
    }
}

/// The bytes of a row of values.
pub open spec fn encode_items(s: Seq<CborValue>) -> Seq<u8>
    decreases s,
{
    if s.len() == 0 {
        Seq::empty()
    } else {
        encode(s[0]) + encode_items(s.skip(1))
    }
}

/// The bytes of a text used as a key.
#[verifier::opaque]
pub open spec fn encode_key(k: Seq<char>) -> Seq<u8> {
    head(3, encode_utf8(k).len()) + encode_utf8(k)
}

/// The bytes of the entries of a map.
pub open spec fn encode_entries(s: Seq<(Seq<char>, CborValue)>) -> Seq<u8>
    decreases s,
{
    if s.len() == 0 {
        Seq::empty()
    } else {
        (encode_key(s[0].0) + encode(s[0].1)) + encode_entries(s.skip(1))
    }
}

/// What a head says and how long it is: (major type, argument, length).
#[verifier::opaque]
pub open spec fn parse_head(b: Seq<u8>) -> Option<(nat, nat, nat)> {
    if b.len() == 0 {
        None
    } else {
        let major = (b[0] / 32) as nat;
        let low = (b[0] % 32) as nat;
        if low < 24 {
            Some((major, low, 1))
        } else if low == 24 && b.len() >= 2 {
            Some((major, be_value(b.subrange(1, 2)), 2))
        } else if low == 25 && b.len() >= 3 {
            Some((major, be_value(b.subrange(1, 3)), 3))
        } else if low == 26 && b.len() >= 5 {
            Some((major, be_value(b.subrange(1, 5)), 5))
        } else if low == 27 && b.len() >= 9 {
            Some((major, be_value(b.subrange(1, 9)), 9))
        } else {
            None
        }
    }
}

/// The byte run of length `n` behind a head of length `h`, if `b` is long enough.
pub open spec fn parse_run(b: Seq<u8>, h: nat, n: nat) -> Option<Seq<u8>> {
    if h + n <= b.len() {
        Some(b.subrange(h as int, (h + n) as int))
    } else {
        None
    }
}

/// The text item at the start of `b` and its length.
#[verifier::opaque]
pub open spec fn parse_key(b: Seq<u8>) -> Option<(Seq<char>, nat)> {
    match parse_head(b) {
        Some((major, n, h)) => if major != 3 {
            None
        } else {
            match parse_run(b, h, n) {
                Some(run) => if valid_utf8(run) { Some((decode_utf8(run), h + n)) } else { None },
                None => None,
            }
        },
        None => None,
    }
}

/// The value at the start of `b` and the number of bytes that it takes.
pub open spec fn parse(b: Seq<u8>) -> Option<(CborValue, nat)>
    decreases b.len(), 0nat,
{
    match parse_head(b) {
        None => None,
        Some((major, n, h)) => if h == 0 || h > b.len() {
            None
        } else if major == 0 {
            if n <= i64::MAX { Some((CborValue::Long(n as int), h)) } else { None }
        } else if major == 1 {
            if n <= i64::MAX { Some((CborValue::Long(-1 - n), h)) } else { None }
        } else if major == 2 {
            match parse_run(b, h, n) {
                Some(run) => Some((CborValue::ByteString(run), h + n)),
                None => None,
            }
        } else if major == 3 {
            match parse_key(b) {
                Some((s, c)) => Some((CborValue::Str(s), c)),
                None => None,
            }
        } else if major == 4 {
            match parse_items(b.skip(h as int), n) {
                Some((s, c)) => Some((CborValue::List(s), h + c)),
                None => None,
            }
        } else if major == 5 {
            match parse_entries(b.skip(h as int), n) {
                Some((s, c)) => Some((CborValue::Mapping(s), h + c)),
                None => None,
            }
        } else if major == 6 {
            if n == 42 { parse_link(b, h) } else { None }
        } else if n == 20 && h == 1 {
            Some((CborValue::Boolean(false), 1))
        } else if n == 21 && h == 1 {
            Some((CborValue::Boolean(true), 1))
        } else if n == 22 && h == 1 {
            Some((CborValue::Null, 1))
        } else {
            None
        },
    }
}

/// The link whose tag takes the first `h` bytes of `b`.
pub open spec fn parse_link(b: Seq<u8>, h: nat) -> Option<(CborValue, nat)> {
    match parse_head(b.skip(h as int)) {
        Some((major, n, h2)) => if major != 2 || n == 0 {
            None
        } else {
            match parse_run(b.skip(h as int), h2, n) {
                Some(run) => if run[0] == 0 {
                    Some((CborValue::MerkleLink(run.skip(1)), h + h2 + n))
                } else {
                    None
                },
                None => None,
            }
        },
        None => None,
    }
}

/// The `n` values at the start of `b` and the number of bytes that they take.
pub open spec fn parse_items(b: Seq<u8>, n: nat) -> Option<(Seq<CborValue>, nat)>
    decreases b.len(), 1nat, n,
{
    if n == 0 {
        Some((Seq::empty(), 0))
    } else {
        match parse(b) {
            Some((v, c)) => if 0 < c <= b.len() {
                match parse_items(b.skip(c as int), (n - 1) as nat) {
                    Some((s, d)) => Some((seq![v] + s, c + d)),
                    None => None,
                }
            } else {
                None
            },
            None => None,
        }
    }
}

/// The `n` map entries at the start of `b` and the number of bytes that they take.
pub open spec fn parse_entries(b: Seq<u8>, n: nat) -> Option<(Seq<(Seq<char>, CborValue)>, nat)>
    decreases b.len(), 1nat, n,
{
    if n == 0 {
        Some((Seq::empty(), 0))
    } else {
        match parse_key(b) {
            Some((k, kc)) => if 0 < kc <= b.len() {
                match parse(b.skip(kc as int)) {
                    Some((v, c)) => if 0 < c <= b.len() - kc {
                        match parse_entries(b.skip((kc + c) as int), (n - 1) as nat) {
                            Some((s, d)) => Some((seq![(k, v)] + s, kc + c + d)),
                            None => None,
                        }
                    } else {
                        None
                    },
                    None => None,
                }
            } else {
                None
            },
            None => None,
        }
    }
}

/// `v` can be written: its integers fit 64 bits, and its lengths do.
pub open spec fn representable(v: CborValue) -> bool
    decreases v,
{
    match v {
        CborValue::Long(n) => i64::MIN <= n <= i64::MAX,
        CborValue::ByteString(b) => b.len() <= u64::MAX,
        CborValue::Str(s) => encode_utf8(s).len() <= u64::MAX,
        CborValue::MerkleLink(b) => b.len() < u64::MAX,
        CborValue::List(s) => s.len() <= u64::MAX && representable_items(s),
        CborValue::Mapping(s) => s.len() <= u64::MAX && representable_entries(s),
        _ => true,
    }
}

/// Every value of a row can be written.
pub open spec fn representable_items(s: Seq<CborValue>) -> bool
    decreases s,
{
    s.len() == 0 || (representable(s[0]) && representable_items(s.skip(1)))
}

/// Every entry of a map can be written.
pub open spec fn representable_entries(s: Seq<(Seq<char>, CborValue)>) -> bool
    decreases s,
{
    s.len() == 0 || (encode_utf8(s[0].0).len() <= u64::MAX && representable(s[0].1)
        && representable_entries(s.skip(1)))
}

/// A head is read back as it was written.
pub proof fn lemma_head_round_trip(major: nat, n: nat, tail: Seq<u8>)
    requires
        major < 8,
        n <= u64::MAX,
    ensures
        parse_head(head(major, n) + tail) == Some((major, n, head(major, n).len())),
        head(major, n).len() >= 1,
{
    reveal(head);
    reveal(parse_head);
    lemma_pow256();
    let b = head(major, n) + tail;
    let w: nat = if n < 24 { 0 } else if n < 0x100 { 1 } else if n < 0x1_0000 { 2 } else if n < 0x1_0000_0000 { 4 } else { 8 };
    assert(pow256(0) == 1);
    lemma_be_len(n, w);
    if n >= 24 {
        lemma_be_round_trip(n, w);
        assert(b.subrange(1, (1 + w) as int) =~= be_bytes(n, w));
    }
    let low: nat = if n < 24 { n } else if w == 1 { 24 } else if w == 2 { 25 } else if w == 4 { 26 } else { 27 };
    assert(b[0] == (major * 32 + low) as u8);
    assert(major * 32 + low < 256);
}

/// A key is read back as it was written.
pub proof fn lemma_key_round_trip(k: Seq<char>, tail: Seq<u8>)
    requires
        encode_utf8(k).len() <= u64::MAX,
    ensures
        parse_key(encode_key(k) + tail) == Some((k, encode_key(k).len())),
        encode_key(k).len() >= 1,
{
    reveal(encode_key);
    reveal(parse_key);
    let u = encode_utf8(k);
    let b = encode_key(k) + tail;
    assert(b =~= head(3, u.len()) + (u + tail));
    lemma_head_round_trip(3, u.len(), u + tail);
    let h = head(3, u.len()).len();
    assert(b.subrange(h as int, (h + u.len()) as int) =~= u);
    encode_utf8_valid_utf8(k);
    encode_utf8_decode_utf8(k);
}

/// Reading what was written gives the value back, and stops where it ends.
pub proof fn lemma_round_trip(v: CborValue, tail: Seq<u8>)
    requires
        representable(v),
    ensures
        parse(encode(v) + tail) == Some((v, encode(v).len())),
        encode(v).len() >= 1,
    decreases v,
{
    let b = encode(v) + tail;
    match v {
        CborValue::Null => {
            reveal(parse_head);
        },
        CborValue::Boolean(x) => {
            reveal(parse_head);
        },
        CborValue::Long(n) => {
            if n >= 0 {
                lemma_head_round_trip(0, n as nat, tail);
            } else {
                lemma_head_round_trip(1, (-1 - n) as nat, tail);
            }
        },
        CborValue::ByteString(s) => {
            assert(b =~= head(2, s.len()) + (s + tail));
            lemma_head_round_trip(2, s.len(), s + tail);
            let h = head(2, s.len()).len();
            assert(b.subrange(h as int, (h + s.len()) as int) =~= s);
        },
        CborValue::Str(s) => {
            let u = encode_utf8(s);
            assert(b =~= head(3, u.len()) + (u + tail));
            lemma_head_round_trip(3, u.len(), u + tail);
            lemma_key_round_trip(s, tail);
            assert(encode(v) == encode_key(s)) by {
                reveal(encode_key);
            }
        },
        CborValue::List(s) => {
            assert(b =~= head(4, s.len()) + (encode_items(s) + tail));
            lemma_head_round_trip(4, s.len(), encode_items(s) + tail);
            let h = head(4, s.len()).len();
            assert(b.skip(h as int) =~= encode_items(s) + tail);
            lemma_items_round_trip(s, tail);
        },
        CborValue::Mapping(s) => {
            assert(b =~= head(5, s.len()) + (encode_entries(s) + tail));
            lemma_head_round_trip(5, s.len(), encode_entries(s) + tail);
            let h = head(5, s.len()).len();
            assert(b.skip(h as int) =~= encode_entries(s) + tail);
            lemma_entries_round_trip(s, tail);
        },
        CborValue::MerkleLink(s) => {
            lemma_link_round_trip(s, tail);
        },
    }
}

proof fn lemma_link_round_trip(s: Seq<u8>, tail: Seq<u8>)
    requires
        s.len() < u64::MAX,
    ensures
        parse(encode(CborValue::MerkleLink(s)) + tail) == Some(
            (CborValue::MerkleLink(s), encode(CborValue::MerkleLink(s)).len()),
        ),
        encode(CborValue::MerkleLink(s)).len() >= 1,
{
    let b = encode(CborValue::MerkleLink(s)) + tail;
    let run = seq![0u8] + s;
    let inner = head(2, s.len() + 1) + run;
    assert(b =~= head(6, 42) + (inner + tail));
    lemma_head_round_trip(6, 42, inner + tail);
    let h = head(6, 42).len();
    assert(b.skip(h as int) =~= head(2, s.len() + 1) + (run + tail));
    lemma_head_round_trip(2, s.len() + 1, run + tail);
    let h2 = head(2, s.len() + 1).len();
    assert(b.skip(h as int).subrange(h2 as int, (h2 + run.len()) as int) =~= run);
    assert(run.skip(1) =~= s);
}

proof fn lemma_items_round_trip(s: Seq<CborValue>, tail: Seq<u8>)
    requires
        representable_items(s),
    ensures
        parse_items(encode_items(s) + tail, s.len()) == Some((s, encode_items(s).len())),
    decreases s,
{
    if s.len() > 0 {
        let b = encode_items(s) + tail;
        let rest = encode_items(s.skip(1)) + tail;
        lemma_round_trip(s[0], rest);
        lemma_items_round_trip(s.skip(1), tail);
        assert(b =~= encode(s[0]) + rest);
        assert(b.skip(encode(s[0]).len() as int) =~= rest);
        assert(seq![s[0]] + s.skip(1) =~= s);
    } else {
        assert(s =~= Seq::empty());
    }
}

proof fn lemma_entries_round_trip(s: Seq<(Seq<char>, CborValue)>, tail: Seq<u8>)
    requires
        representable_entries(s),
    ensures
        parse_entries(encode_entries(s) + tail, s.len()) == Some((s, encode_entries(s).len())),
    decreases s,
{
    if s.len() > 0 {
        let b = encode_entries(s) + tail;
        let rest = encode_entries(s.skip(1)) + tail;
        let k = encode_key(s[0].0);
        let v = encode(s[0].1);
        lemma_key_round_trip(s[0].0, v + rest);
        lemma_round_trip(s[0].1, rest);
        lemma_entries_round_trip(s.skip(1), tail);
        assert(b =~= k + (v + rest));
        assert(b.skip(k.len() as int) =~= v + rest);
        assert(b.skip((k.len() + v.len()) as int) =~= rest);
        assert(seq![(s[0].0, s[0].1)] + s.skip(1) =~= s);
    } else {
        assert(s =~= Seq::empty());
    }
}

/// A row of values whose first part is known.
spec fn after_items(acc: Seq<CborValue>, c: nat, r: Option<(Seq<CborValue>, nat)>) -> Option<
    (Seq<CborValue>, nat),
> {
    match r {
        Some((s, d)) => Some((acc + s, c + d)),
        None => None,
    }
}

/// A row of entries whose first part is known.
spec fn after_entries(
    acc: Seq<(Seq<char>, CborValue)>,
    c: nat,
    r: Option<(Seq<(Seq<char>, CborValue)>, nat)>,
) -> Option<(Seq<(Seq<char>, CborValue)>, nat)> {
    match r {
        Some((s, d)) => Some((acc + s, c + d)),
        None => None,
    }
}

/// Appends a head.
fn push_head(out: &mut Vec<u8>, major: u8, n: u64)
    requires
        major < 8,
    ensures
        final(out)@ == old(out)@ + head(major as nat, n as nat),
{
    reveal(head);
    if n < 24 {
        out.push(major * 32 + n as u8);
    } else if n < 0x100 {
        out.push(major * 32 + 24);
        push_be(out, n, 1);
    } else if n < 0x1_0000 {
        out.push(major * 32 + 25);
        push_be(out, n, 2);
    } else if n < 0x1_0000_0000 {
        out.push(major * 32 + 26);
        push_be(out, n, 4);
    } else {
        out.push(major * 32 + 27);
        push_be(out, n, 8);
    }
    proof {
        assert(out@ =~= old(out)@ + head(major as nat, n as nat));
    }
}

/// Appends a text.
fn push_text(out: &mut Vec<u8>, s: &str)
    ensures
        final(out)@ == old(out)@ + encode_key(s@),
{
    reveal(encode_key);
    let b = s.as_bytes();
    push_head(out, 3, b.len() as u64);
    append_bytes(out, b);
    proof {
        assert(out@ =~= old(out)@ + encode_key(s@));
    }
}

/// The head at `d[at..]`.
fn read_head(d: &[u8], at: usize) -> (r: Option<(u8, u64, usize)>)
    requires
        at <= d.len(),
    ensures
        r is Some <==> parse_head(d@.skip(at as int)) is Some,
        r matches Some((major, n, h)) ==> parse_head(d@.skip(at as int)) == Some((major as nat, n as nat, h as nat))
            && 1 <= h && at + h <= d.len() && major < 8,
{
    reveal(parse_head);
    let ghost b = d@.skip(at as int);
    let room: usize = d.len() - at;
    if room == 0 {
        return None;
    }
    let major: u8 = d[at] / 32;
    let low: u8 = d[at] % 32;
    let w: usize = if low < 24 {
        return Some((major, low as u64, 1));
    } else if low == 24 {
        1
    } else if low == 25 {
        2
    } else if low == 26 {
        4
    } else if low == 27 {
        8
    } else {
        return None;
    };
    if room < 1 + w {
        return None;
    }
    proof {
        assert(b.subrange(1, 1 + w) =~= d@.subrange(at + 1, at + 1 + w));
    }
    Some((major, read_be(d, at + 1, w), 1 + w))
}

/// The byte run of length `n` at `d[from..]`.
fn read_run(d: &[u8], from: usize, n: u64) -> (r: Option<Vec<u8>>)
    requires
        from <= d.len(),
    ensures
        r is Some <==> from + n <= d.len(),
        r is Some ==> r->Some_0@ == d@.subrange(from as int, from + n),
{
    if n > (d.len() - from) as u64 {
        None
    } else {
        Some(slice_bytes(d, from, from + n as usize))
    }
}

/// The text at `d[at..]` and its length.
fn read_key(d: &[u8], at: usize) -> (r: Option<(String, usize)>)
    requires
        at <= d.len(),
    ensures
        r is Some <==> parse_key(d@.skip(at as int)) is Some,
        r matches Some((s, c)) ==> parse_key(d@.skip(at as int)) == Some((s@, c as nat)) && 1 <= c && at + c
            <= d.len(),
{
    reveal(parse_key);
    let ghost b = d@.skip(at as int);
    match read_head(d, at) {
        Some((major, n, h)) => {
            if major != 3 {
                return None;
            }
            match read_run(d, at + h, n) {
                Some(run) => {
                    proof {
                        assert(b.subrange(h as int, h + n) =~= d@.subrange(at + h, at + h + n));
                    }
                    match utf8_text(run) {
                        Some(s) => Some((s, h + n as usize)),
                        None => None,
                    }
                },
                None => None,
            }
        },
        None => None,
    }
}

/// The value at `d[at..]` and its length.
fn read_value(d: &[u8], at: usize) -> (r: Option<(CborObject, usize)>)
    requires
        at <= d.len(),
    ensures
        r is Some <==> parse(d@.skip(at as int)) is Some,
        r matches Some((v, c)) ==> parse(d@.skip(at as int)) == Some((v@, c as nat)) && 1 <= c && at + c <= d.len(),
    decreases d.len() - at, 0nat,
{
    let ghost b = d@.skip(at as int);
    let (major, n, h) = match read_head(d, at) {
        Some(x) => x,
        None => {
            return None;
        },
    };
    if major == 0 {
        if n <= i64::MAX as u64 { Some((CborObject::Long(n as i64), h)) } else { None }
    } else if major == 1 {
        if n <= i64::MAX as u64 { Some((CborObject::Long(-1 - n as i64), h)) } else { None }
    } else if major == 2 {
        match read_run(d, at + h, n) {
            Some(run) => {
                proof {
                    assert(b.subrange(h as int, h + n) =~= d@.subrange(at + h, at + h + n));
                }
                Some((CborObject::ByteString(run), h + n as usize))
            },
            None => None,
        }
    } else if major == 3 {
        match read_key(d, at) {
            Some((s, c)) => Some((CborObject::Str(s), c)),
            None => None,
        }
    } else if major == 4 {
        proof {
            assert(b.skip(h as int) =~= d@.skip(at + h));
        }
        match read_items(d, at + h, n) {
            Some((v, c)) => Some((CborObject::List(v), h + c)),
            None => None,
        }
    } else if major == 5 {
        proof {
            assert(b.skip(h as int) =~= d@.skip(at + h));
        }
        match read_entries(d, at + h, n) {
            Some((v, c)) => Some((CborObject::Mapping(v), h + c)),
            None => None,
        }
    } else if major == 6 {
        if n == 42 { read_link(d, at, h) } else { None }
    } else if n == 20 && h == 1 {
        Some((CborObject::Boolean(false), 1))
    } else if n == 21 && h == 1 {
        Some((CborObject::Boolean(true), 1))
    } else if n == 22 && h == 1 {
        Some((CborObject::Null, 1))
    } else {
        None
    }
}

/// The link at `d[at..]` whose tag takes `h` bytes.
fn read_link(d: &[u8], at: usize, h: usize) -> (r: Option<(CborObject, usize)>)
    requires
        1 <= h,
        at + h <= d.len(),
    ensures
        r is Some <==> parse_link(d@.skip(at as int), h as nat) is Some,
        r matches Some((v, c)) ==> parse_link(d@.skip(at as int), h as nat) == Some((v@, c as nat)) && 1 <= c && at
            + c <= d.len(),
{
    let ghost b = d@.skip(at as int);
    proof {
        assert(b.skip(h as int) =~= d@.skip(at + h));
    }
    match read_head(d, at + h) {
        Some((major, n, h2)) => {
            if major != 2 || n == 0 {
                return None;
            }
            match read_run(d, at + h + h2, n) {
                Some(run) => {
                    proof {
                        assert(b.skip(h as int).subrange(h2 as int, h2 + n) =~= d@.subrange(at + h + h2, at + h + h2 + n));
                    }
                    if run[0] == 0 {
                        let cid = slice_bytes(&run, 1, run.len());
                        proof {
                            assert(cid@ =~= run@.skip(1));
                        }
                        Some((CborObject::MerkleLink(cid), h + h2 + n as usize))
                    } else {
                        None
                    }
                },
                None => None,
            }
        },
        None => None,
    }
}

/// The `n` values at `d[from..]` and their length.
fn read_items(d: &[u8], from: usize, n: u64) -> (r: Option<(Vec<CborObject>, usize)>)
    requires
        from <= d.len(),
    ensures
        r is Some <==> parse_items(d@.skip(from as int), n as nat) is Some,
        r matches Some((v, c)) ==> parse_items(d@.skip(from as int), n as nat) == Some((items(v@), c as nat)) && from
            + c <= d.len(),
    decreases d.len() - from, 1nat,
{
    let ghost whole = parse_items(d@.skip(from as int), n as nat);
    let mut out: Vec<CborObject> = Vec::new();
    let mut pos: usize = from;
    let mut i: u64 = 0;
    proof {
        match whole {
            Some((s, c)) => {
                assert(items(out@) + s =~= s);
            },
            None => {},
        }
    }
    while i < n
        invariant
            i <= n,
            from <= pos <= d.len(),
            whole == parse_items(d@.skip(from as int), n as nat),
            whole == after_items(items(out@), (pos - from) as nat, parse_items(d@.skip(pos as int), (n - i) as nat)),
        decreases n - i,
    {
        let ghost b = d@.skip(pos as int);
        match read_value(d, pos) {
            Some((v, c)) => {
                let ghost before = items(out@);
                let ghost vv = v@;
                proof {
                    assert(b.skip(c as int) =~= d@.skip(pos + c));
                    match parse_items(d@.skip(pos + c), (n - i - 1) as nat) {
                        Some((s, k)) => {
                            assert(before + (seq![vv] + s) =~= before.push(vv) + s);
                        },
                        None => {},
                    }
                }
                out.push(v);
                proof {
                    assert(items(out@) =~= before.push(vv));
                }
                pos = pos + c;
                i = i + 1;
            },
            None => {
                return None;
            },
        }
    }
    proof {
        assert(items(out@) + Seq::<CborValue>::empty() =~= items(out@));
    }
    Some((out, pos - from))
}

/// The `n` map entries at `d[from..]` and their length.
fn read_entries(d: &[u8], from: usize, n: u64) -> (r: Option<(Vec<(String, CborObject)>, usize)>)
    requires
        from <= d.len(),
    ensures
        r is Some <==> parse_entries(d@.skip(from as int), n as nat) is Some,
        r matches Some((v, c)) ==> parse_entries(d@.skip(from as int), n as nat) == Some((pairs(v@), c as nat))
            && from + c <= d.len(),
    decreases d.len() - from, 1nat,
{
    let ghost whole = parse_entries(d@.skip(from as int), n as nat);
    let mut out: Vec<(String, CborObject)> = Vec::new();
    let mut pos: usize = from;
    let mut i: u64 = 0;
    proof {
        match whole {
            Some((s, c)) => {
                assert(pairs(out@) + s =~= s);
            },
            None => {},
        }
    }
    while i < n
        invariant
            i <= n,
            from <= pos <= d.len(),
            whole == parse_entries(d@.skip(from as int), n as nat),
            whole == after_entries(pairs(out@), (pos - from) as nat, parse_entries(d@.skip(pos as int), (n - i) as nat)),
        decreases n - i,
    {
        let ghost b = d@.skip(pos as int);
        match read_key(d, pos) {
            Some((k, kc)) => {
                proof {
                    assert(b.skip(kc as int) =~= d@.skip(pos + kc));
                }
                match read_value(d, pos + kc) {
                    Some((v, c)) => {
                        let ghost before = pairs(out@);
                        let ghost kv = (k@, v@);
                        proof {
                            assert(b.skip(kc + c) =~= d@.skip(pos + kc + c));
                            match parse_entries(d@.skip(pos + kc + c), (n - i - 1) as nat) {
                                Some((s, x)) => {
                                    assert(before + (seq![kv] + s) =~= before.push(kv) + s);
                                },
                                None => {},
                            }
                        }
                        out.push((k, v));
                        proof {
                            assert(pairs(out@) =~= before.push(kv));
                        }
                        pos = pos + kc + c;
                        i = i + 1;
                    },
                    None => {
                        return None;
                    },
                }
            },
            None => {
                return None;
            },
        }
    }
    proof {
        assert(pairs(out@) + Seq::<(Seq<char>, CborValue)>::empty() =~= pairs(out@));
    }
    Some((out, pos - from))
}

impl CborObject {
    /// Appends the bytes of this value.
    fn write_to(&self, out: &mut Vec<u8>)
        ensures
            final(out)@ == old(out)@ + encode(self@),
        decreases self,
    {
        let ghost start = out@;
        match self {
            CborObject::Null => {
                out.push(0xf6);
            },
            CborObject::Boolean(b) => {
                out.push(if *b { 0xf5 } else { 0xf4 });
            },
            CborObject::Long(n) => {
                if *n >= 0 {
                    push_head(out, 0, *n as u64);
                } else {
                    push_head(out, 1, (-1 - *n) as u64);
                }
            },
            CborObject::Str(s) => {
                push_text(out, s.as_str());
                proof {
                    reveal(encode_key);
                }
            },
            CborObject::ByteString(b) => {
                push_head(out, 2, b.len() as u64);
                append_bytes(out, b);
            },
            CborObject::MerkleLink(b) => {
                push_head(out, 6, 42);
                push_link_head(out, b.len());
                out.push(0);
                append_bytes(out, b);
            },
            CborObject::List(v) => {
                push_head(out, 4, v.len() as u64);
                let ghost mid = out@;
                let ghost s = items(v@);
                proof {
                    assert(s.skip(0) =~= s);
                    assert(*v == self->List_0);
                }
                for i in 0..v.len()
                    invariant
                        *self == CborObject::List(*v),
                        s == items(v@),
                        out@ + encode_items(s.skip(i as int)) == mid + encode_items(s),
                {
                    proof {
                        assert(decreases_to!(*v => v[i as int]));
                        assert(*v == self->List_0);
                        assert(s.skip(i as int).skip(1) =~= s.skip(i as int + 1));
                        assert(s.skip(i as int)[0] == v[i as int]@);
                    }
                    let ghost before = out@;
                    v[i].write_to(out);
                    proof {
                        assert(out@ + encode_items(s.skip(i as int + 1)) =~= before + encode_items(s.skip(i as int)));
                    }
                }
                proof {
                    assert(s.skip(v.len() as int) =~= Seq::empty());
                    assert(out@ + Seq::<u8>::empty() =~= out@);
                }
            },
            CborObject::Mapping(v) => {
                push_head(out, 5, v.len() as u64);
                let ghost mid = out@;
                let ghost s = pairs(v@);
                proof {
                    assert(s.skip(0) =~= s);
                    assert(*v == self->Mapping_0);
                }
                for i in 0..v.len()
                    invariant
                        *self == CborObject::Mapping(*v),
                        s == pairs(v@),
                        out@ + encode_entries(s.skip(i as int)) == mid + encode_entries(s),
                {
                    proof {
                        assert(decreases_to!(*v => v[i as int]));
                        assert(*v == self->Mapping_0);
                        assert(s.skip(i as int).skip(1) =~= s.skip(i as int + 1));
                        assert(s.skip(i as int)[0] == (v[i as int].0@, v[i as int].1@));
                    }
                    let ghost before = out@;
                    push_text(out, v[i].0.as_str());
                    v[i].1.write_to(out);
                    proof {
                        assert(out@ + encode_entries(s.skip(i as int + 1)) =~= before + encode_entries(
                            s.skip(i as int),
                        ));
                    }
                }
                proof {
                    assert(s.skip(v.len() as int) =~= Seq::empty());
                    assert(out@ + Seq::<u8>::empty() =~= out@);
                }
            },
        }
        proof {
            assert(out@ =~= start + encode(self@));
        }
    }

    /// The bytes of this value.
    pub fn to_bytes(&self) -> (r: Vec<u8>)
        ensures
            r@ == encode(self@),
    {
        let mut out: Vec<u8> = Vec::new();
        self.write_to(&mut out);
        proof {
            assert(out@ =~= encode(self@));
        }
        out
    }

    /// The value at the start of `bytes`. What follows it is not looked at.
    pub fn from_bytes(bytes: &[u8]) -> (r: Result<CborObject>)
        ensures
            r is Ok <==> parse(bytes@) is Some,
            r is Ok ==> r->Ok_0@ == parse(bytes@)->Some_0.0,
            r is Err ==> fails_cbor(r, "invalid cbor"@),
    {
        match CborObject::from_bytes_consumed(bytes) {
            Ok((v, _)) => Ok(v),
            Err(e) => Err(e),
        }
    }

    /// The value at the start of `bytes` and the number of bytes that it takes.
    pub fn from_bytes_consumed(bytes: &[u8]) -> (r: Result<(CborObject, usize)>)
        ensures
            r is Ok <==> parse(bytes@) is Some,
            r matches Ok((v, c)) ==> parse(bytes@) == Some((v@, c as nat)) && 1 <= c <= bytes.len(),
            r is Err ==> fails_cbor(r, "invalid cbor"@),
    {
        proof {
            assert(bytes@.skip(0) =~= bytes@);
        }
        match read_value(bytes, 0) {
            Some(x) => Ok(x),
            None => Err(cbor_error("invalid cbor")),
        }
    }
}

/// Appends the head of a link's byte string, which holds one byte more than the cid.
fn push_link_head(out: &mut Vec<u8>, cid_len: usize)
    ensures
        final(out)@ == old(out)@ + head(2, (cid_len + 1) as nat),
{
    if cid_len as u64 == u64::MAX {
        proof {
            lemma_be_len(0x1_0000_0000_0000_0000, 8);
        }
        reveal(head);
        out.push(2 * 32 + 27);
        push_be(out, 0, 8);
        proof {
            reveal_with_fuel(be_bytes, 9);
            assert(out@ =~= old(out)@ + head(2, 0x1_0000_0000_0000_0000));
        }
    } else {
        push_head(out, 2, cid_len as u64 + 1);
    }
}

/// How a number is encoded: below 24 in one byte, and else behind a byte that tells its width, in
/// the least width that holds it, its highest byte first.
pub proof fn law_encoded_numbers(n: nat)
    requires
        n <= i64::MAX,
    ensures
        n < 24 ==> encode(CborValue::Long(n as int)) == seq![n as u8],
        24 <= n < 0x100 ==> encode(CborValue::Long(n as int)) == seq![0x18u8, n as u8],
        0x100 <= n < 0x1_0000 ==> encode(CborValue::Long(n as int)) == seq![0x19u8, (n / 0x100) as u8, (n % 0x100) as u8],
        0x1_0000 <= n < 0x1_0000_0000 ==> encode(CborValue::Long(n as int)).len() == 5 && encode(CborValue::Long(n as int))[0]
            == 0x1a && be_value(encode(CborValue::Long(n as int)).skip(1)) == n,
        0x1_0000_0000 <= n ==> encode(CborValue::Long(n as int)).len() == 9 && encode(CborValue::Long(n as int))[0] == 0x1b
            && be_value(encode(CborValue::Long(n as int)).skip(1)) == n,
        encode(CborValue::Long(-1 - n))[0] == encode(CborValue::Long(n as int))[0] + 0x20,
        encode(CborValue::Long(-1 - n)).skip(1) == encode(CborValue::Long(n as int)).skip(1),
{
    let e = encode(CborValue::Long(n as int));
    reveal(head);
    reveal_with_fuel(be_bytes, 3);
    lemma_pow256();
    if 24 <= n < 0x100 {
        assert(e =~= seq![0x18u8, n as u8]);
    }
    if 0x100 <= n < 0x1_0000 {
        assert(e =~= seq![0x19u8, (n / 0x100) as u8, (n % 0x100) as u8]);
    }
    if 0x1_0000 <= n < 0x1_0000_0000 {
        lemma_be_len(n, 4);
        lemma_be_round_trip(n, 4);
        assert(e.skip(1) =~= be_bytes(n, 4));
    }
    if 0x1_0000_0000 <= n {
        lemma_be_len(n, 8);
        lemma_be_round_trip(n, 8);
        assert(e.skip(1) =~= be_bytes(n, 8));
    }
    assert(encode(CborValue::Long(-1 - n)).skip(1) =~= e.skip(1));
}

/// How all else is encoded: bytes, texts, lists and maps behind their length, which is encoded as a
/// number is but for the bits of the type, and a link as bytes behind a tag and a zero.
pub proof fn law_encodings(
    b: Seq<u8>,
    s: Seq<char>,
    l: Seq<CborValue>,
    m: Seq<(Seq<char>, CborValue)>,
)
    ensures
        encode(CborValue::Null) == seq![0xf6u8],
        encode(CborValue::Boolean(false)) == seq![0xf4u8],
        encode(CborValue::Boolean(true)) == seq![0xf5u8],
        b.len() < 24 ==> encode(CborValue::ByteString(b)) == seq![(0x40 + b.len()) as u8] + b,
        encode_utf8(s).len() < 24 ==> encode(CborValue::Str(s)) == seq![(0x60 + encode_utf8(s).len()) as u8] + encode_utf8(s),
        l.len() < 24 ==> encode(CborValue::List(l)) == seq![(0x80 + l.len()) as u8] + encode_items(l),
        m.len() < 24 ==> encode(CborValue::Mapping(m)) == seq![(0xa0 + m.len()) as u8] + encode_entries(m),
        24 <= b.len() < 0x100 ==> encode(CborValue::ByteString(b)) == seq![0x58u8, b.len() as u8] + b,
        24 <= encode_utf8(s).len() < 0x100 ==> encode(CborValue::Str(s)) == seq![0x78u8, encode_utf8(s).len() as u8]
            + encode_utf8(s),
        24 <= l.len() < 0x100 ==> encode(CborValue::List(l)) == seq![0x98u8, l.len() as u8] + encode_items(l),
        24 <= m.len() < 0x100 ==> encode(CborValue::Mapping(m)) == seq![0xb8u8, m.len() as u8] + encode_entries(m),
        encode(CborValue::MerkleLink(b)) == seq![0xd8u8, 0x2au8] + encode(CborValue::ByteString(seq![0u8] + b)),
{
    reveal(head);
    reveal_with_fuel(be_bytes, 2);
    if 24 <= b.len() < 0x100 {
        assert(encode(CborValue::ByteString(b)) =~= seq![0x58u8, b.len() as u8] + b);
    }
    if 24 <= encode_utf8(s).len() < 0x100 {
        assert(encode(CborValue::Str(s)) =~= seq![0x78u8, encode_utf8(s).len() as u8] + encode_utf8(s));
    }
    if 24 <= l.len() < 0x100 {
        assert(encode(CborValue::List(l)) =~= seq![0x98u8, l.len() as u8] + encode_items(l));
    }
    if 24 <= m.len() < 0x100 {
        assert(encode(CborValue::Mapping(m)) =~= seq![0xb8u8, m.len() as u8] + encode_entries(m));
    }
    assert((seq![0u8] + b).len() == b.len() + 1);
    assert(head(6, 42) =~= seq![0xd8u8, 0x2au8]);
}

/// The items of a list, and the keys and values of a map, are encoded one behind the other.
pub proof fn law_encoded_items(v: CborValue, l: Seq<CborValue>, key: Seq<char>, m: Seq<(Seq<char>, CborValue)>)
    ensures
        encode_items(Seq::empty()).len() == 0,
        encode_items(seq![v] + l) == encode(v) + encode_items(l),
        encode_entries(Seq::empty()).len() == 0,
        encode_entries(seq![(key, v)] + m) == encode(CborValue::Str(key)) + encode(v) + encode_entries(m),
{
    assert((seq![v] + l).skip(1) =~= l);
    assert((seq![(key, v)] + m).skip(1) =~= m);
    reveal(encode_key);
}

/// How the start of a value is read: its type from the three high bits, and its number from the low
/// ones or from the 1, 2, 4 or 8 bytes behind, however small it is.
pub proof fn law_heads(major: nat, low: nat, tail: Seq<u8>)
    requires
        major < 8,
        low < 32,
    ensures
        low < 24 ==> parse_head(seq![(32 * major + low) as u8] + tail) == Some((major, low, 1nat)),
        tail.len() >= 1 ==> parse_head(seq![(32 * major + 24) as u8] + tail) == Some((major, be_value(tail.take(1)), 2nat)),
        tail.len() >= 2 ==> parse_head(seq![(32 * major + 25) as u8] + tail) == Some((major, be_value(tail.take(2)), 3nat)),
        tail.len() >= 4 ==> parse_head(seq![(32 * major + 26) as u8] + tail) == Some((major, be_value(tail.take(4)), 5nat)),
        tail.len() >= 8 ==> parse_head(seq![(32 * major + 27) as u8] + tail) == Some((major, be_value(tail.take(8)), 9nat)),
        low >= 28 ==> parse_head(seq![(32 * major + low) as u8] + tail) is None,
        parse_head(Seq::empty()) is None,
{
    reveal(parse_head);
    assert((32 * major + low) as u8 / 32 == major && (32 * major + low) as u8 % 32 == low);
    if tail.len() >= 1 {
        assert((seq![(32 * major + 24) as u8] + tail).subrange(1, 2) =~= tail.take(1));
    }
    if tail.len() >= 2 {
        assert((seq![(32 * major + 25) as u8] + tail).subrange(1, 3) =~= tail.take(2));
    }
    if tail.len() >= 4 {
        assert((seq![(32 * major + 26) as u8] + tail).subrange(1, 5) =~= tail.take(4));
    }
    if tail.len() >= 8 {
        assert((seq![(32 * major + 27) as u8] + tail).subrange(1, 9) =~= tail.take(8));
    }
}

/// What is no value: nothing, a number that does not fit in 64 bits with its sign, more bytes than
/// there are, a tag other than that of a link, and all simple values but null, true and false.
pub proof fn law_what_is_no_value(b: Seq<u8>)
    ensures
        b.len() == 0 ==> parse(b) is None,
        parse_head(b) is None ==> parse(b) is None,
        parse_head(b) matches Some(h) ==> {
            &&& h.0 <= 1 && h.1 > i64::MAX ==> parse(b) is None
            &&& (h.0 == 2 || h.0 == 3) && h.2 + h.1 > b.len() ==> parse(b) is None
            &&& h.0 == 6 && h.1 != 42 ==> parse(b) is None
            &&& h.0 == 7 && (h.1 < 20 || h.1 > 22) ==> parse(b) is None
            &&& h.0 == 0 && h.1 <= i64::MAX && 0 < h.2 <= b.len() ==> parse(b) == Some((CborValue::Long(h.1 as int), h.2))
            &&& h.0 == 1 && h.1 <= i64::MAX && 0 < h.2 <= b.len() ==> parse(b) == Some((CborValue::Long(-1 - h.1), h.2))
            &&& h.0 == 2 && 0 < h.2 && h.2 + h.1 <= b.len() ==> parse(b) == Some(
                (CborValue::ByteString(b.subrange(h.2 as int, (h.2 + h.1) as int)), h.2 + h.1),
            )
        },
{
    reveal(parse_head);
    reveal(parse_key);
}

} // verus!
