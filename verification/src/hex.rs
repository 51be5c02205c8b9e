//! Hexadecimal text, and the identifiers written in it.
use vstd::prelude::*;

verus! {

/// The hexadecimal digit of a number below 16, in lower case.
pub open spec fn hex_digit(n: nat) -> char {
    if n < 10 {
        (('0' as nat + n) as u8) as char
    } else {
        (('a' as nat + (n - 10)) as u8) as char
    }
}

/// The hexadecimal text of `b`: two digits for each byte.
pub open spec fn hex(b: Seq<u8>) -> Seq<char> {
    Seq::new(
        2 * b.len(),
        |i: int|
            if i % 2 == 0 {
                hex_digit((b[i / 2] / 16) as nat)
            } else {
                hex_digit((b[i / 2] % 16) as nat)
            },
    )
}

fn push_digit(out: &mut String, n: u8)
    requires
        n < 16,
    ensures
        final(out)@ == old(out)@.push(hex_digit(n as nat)),
{
    let d: u8 = if n < 10 { 48 + n } else { 87 + n };
    out.push(d as char);
}

/// Appends the hexadecimal text of the bytes from `from` to `to`.
fn push_hex(out: &mut String, bytes: &[u8], from: usize, to: usize)
    requires
        from <= to <= bytes.len(),
    ensures
        final(out)@ == old(out)@ + hex(bytes@.subrange(from as int, to as int)),
{
    let ghost start = out@;
    let ghost all = bytes@.subrange(from as int, to as int);
    proof {
        assert(start + hex(all.take(0)) =~= start);
    }
    for i in from..to
        invariant
            from <= to <= bytes.len(),
            all == bytes@.subrange(from as int, to as int),
            out@ == start + hex(all.take(i - from)),
    {
        let b: u8 = bytes[i];
        push_digit(out, b / 16);
        push_digit(out, b % 16);
        proof {
            let k = i - from;
            assert(hex(all.take(k + 1)) =~= hex(all.take(k)).push(hex_digit((b / 16) as nat)).push(
                hex_digit((b % 16) as nat),
            )) by {
                assert(all.take(k + 1)[k] == b);
                assert forall|j: int| 0 <= j < 2 * k implies hex(all.take(k + 1))[j] == hex(all.take(k))[j] by {
                    assert(all.take(k + 1)[j / 2] == all.take(k)[j / 2]);
                }
            }
            assert(start + hex(all.take(k + 1)) =~= (start + hex(all.take(k))).push(
                hex_digit((b / 16) as nat),
            ).push(hex_digit((b % 16) as nat)));
        }
    }
    proof {
        assert(all.take(to - from) =~= all);
    }
}

/// The hexadecimal text of `bytes`.
pub fn to_hex(bytes: &[u8]) -> (r: String)
    ensures
        r@ == hex(bytes@),
{
    let mut out = String::new();
    push_hex(&mut out, bytes, 0, bytes.len());
    proof {
        assert(bytes@.subrange(0, bytes@.len() as int) =~= bytes@);
        assert(Seq::<char>::empty() + hex(bytes@) =~= hex(bytes@));
    }
    out
}

proof fn lemma_digit_unique(a: nat, b: nat)
    requires
        a < 16,
        b < 16,
        hex_digit(a) == hex_digit(b),
    ensures
        a == b,
{
}

/// Different bytes have different texts.
pub proof fn law_hex_is_faithful(a: Seq<u8>, b: Seq<u8>)
    requires
        hex(a) == hex(b),
    ensures
        a == b,
{
    assert(hex(a).len() == 2 * a.len() && hex(b).len() == 2 * b.len());
    assert forall|i: int| 0 <= i < a.len() implies a[i] == b[i] by {
        assert(hex(a)[2 * i] == hex(b)[2 * i]);
        assert(hex(a)[2 * i + 1] == hex(b)[2 * i + 1]);
        assert((2 * i) / 2 == i && (2 * i + 1) / 2 == i && (2 * i) % 2 == 0 && (2 * i + 1) % 2 == 1);
        assert(hex(a)[2 * i] == hex_digit((a[i] / 16) as nat) && hex(b)[2 * i] == hex_digit((b[i] / 16) as nat));
        assert(hex(a)[2 * i + 1] == hex_digit((a[i] % 16) as nat) && hex(b)[2 * i + 1] == hex_digit((b[i] % 16) as nat));
        lemma_digit_unique((a[i] / 16) as nat, (b[i] / 16) as nat);
        lemma_digit_unique((a[i] % 16) as nat, (b[i] % 16) as nat);
    }
    assert(a =~= b);
}

/// The text of an identifier of 16 bytes: groups of 4, 2, 2, 2 and 6 bytes with hyphens
/// between them.
pub open spec fn uuid_text(b: Seq<u8>) -> Seq<char> {
    hex(b.subrange(0, 4)).push('-') + hex(b.subrange(4, 6)).push('-') + hex(b.subrange(6, 8)).push('-') + hex(
        b.subrange(8, 10),
    ).push('-') + hex(b.subrange(10, 16))
}

/// A UUID-shaped text for random bytes.
pub fn uuid(bytes: &[u8]) -> (r: String)
    requires
        bytes.len() == 16,
    ensures
        r@ == uuid_text(bytes@),
{
    let mut out = String::new();
    push_hex(&mut out, bytes, 0, 4);
    out.push('-');
    push_hex(&mut out, bytes, 4, 6);
    out.push('-');
    push_hex(&mut out, bytes, 6, 8);
    out.push('-');
    push_hex(&mut out, bytes, 8, 10);
    out.push('-');
    push_hex(&mut out, bytes, 10, 16);
    proof {
        assert(out@ =~= uuid_text(bytes@));
    }
    out
}

/// These bytes with the version and the variant of a random UUID in them.
pub open spec fn versioned(b: Seq<u8>) -> Seq<u8> {
    b.update(6, (b[6] % 16 + 0x40) as u8).update(8, (b[8] % 64 + 0x80) as u8)
}

/// The random UUID (version 4) that is made of random bytes.
pub fn uuid_v4(bytes: &[u8]) -> (r: String)
    requires
        bytes.len() == 16,
    ensures
        r@ == uuid_text(versioned(bytes@)),
{
    let mut b: Vec<u8> = crate::text::copy_bytes(bytes);
    b.set(6, b[6] % 16 + 0x40);
    b.set(8, b[8] % 64 + 0x80);
    proof {
        assert(b@ =~= versioned(bytes@));
    }
    uuid(&b)
}

/// A hexadecimal digit in lower case.
pub open spec fn is_hex_digit(c: char) -> bool {
    '0' <= c <= '9' || 'a' <= c <= 'f'
}

proof fn lemma_hex_digits(b: Seq<u8>)
    ensures
        forall|i: int| 0 <= i < hex(b).len() ==> is_hex_digit(#[trigger] hex(b)[i]),
{
    assert forall|i: int| 0 <= i < hex(b).len() implies is_hex_digit(#[trigger] hex(b)[i]) by {
        let n: nat = if i % 2 == 0 { (b[i / 2] / 16) as nat } else { (b[i / 2] % 16) as nat };
        assert(n < 16);
        assert(hex(b)[i] == hex_digit(n));
    }
}

/// A random UUID has 36 characters, lower case hexadecimal digits but for the four hyphens.
/// Its version is 4, and its variant one of the four that the first two bits leave.
pub proof fn law_uuid_v4_form(b: Seq<u8>)
    requires
        b.len() == 16,
    ensures
        ({
            let t = uuid_text(versioned(b));
            &&& t.len() == 36
            &&& t[8] == '-' && t[13] == '-' && t[18] == '-' && t[23] == '-'
            &&& forall|i: int|
                0 <= i < 36 && i != 8 && i != 13 && i != 18 && i != 23 ==> is_hex_digit(#[trigger] t[i])
            &&& t[14] == '4'
            &&& t[19] == '8' || t[19] == '9' || t[19] == 'a' || t[19] == 'b'
        }),
{
    let v = versioned(b);
    let t = uuid_text(v);
    assert(t[14] == hex(v.subrange(6, 8))[0]);
    assert(v.subrange(6, 8)[0] == v[6]);
    assert(v[6] / 16 == 4);
    assert(t[19] == hex(v.subrange(8, 10))[0]);
    assert(v.subrange(8, 10)[0] == v[8]);
    assert(8 <= v[8] / 16 < 12);
    lemma_hex_digits(v.subrange(0, 4));
    lemma_hex_digits(v.subrange(4, 6));
    lemma_hex_digits(v.subrange(6, 8));
    lemma_hex_digits(v.subrange(8, 10));
    lemma_hex_digits(v.subrange(10, 16));
    assert forall|i: int| 0 <= i < 36 && i != 8 && i != 13 && i != 18 && i != 23 implies is_hex_digit(#[trigger] t[i]) by {
        if i < 8 {
            assert(t[i] == hex(v.subrange(0, 4))[i]);
        } else if i < 13 {
            assert(t[i] == hex(v.subrange(4, 6))[i - 9]);
        } else if i < 18 {
            assert(t[i] == hex(v.subrange(6, 8))[i - 14]);
        } else if i < 23 {
            assert(t[i] == hex(v.subrange(8, 10))[i - 19]);
        } else {
            assert(t[i] == hex(v.subrange(10, 16))[i - 24]);
        }
    }
}

/// A byte is written by its high digit and then its low one, from 0 to 9 and from a to f.
pub proof fn law_hex_digits(b: Seq<u8>, i: int, d: nat)
    ensures
        hex(b).len() == 2 * b.len(),
        0 <= i < b.len() ==> hex(b)[2 * i] == hex_digit((b[i] / 16) as nat),
        0 <= i < b.len() ==> hex(b)[2 * i + 1] == hex_digit((b[i] % 16) as nat),
        d < 10 ==> hex_digit(d) as u32 == 48 + d,
        10 <= d < 16 ==> hex_digit(d) as u32 == 97 + (d - 10),
{
}

/// A UUID is its 32 digits with a dash behind the 8th, the 12th, the 16th and the 20th.
pub proof fn law_uuid_text(b: Seq<u8>)
    requires
        b.len() == 16,
    ensures
        uuid_text(b).len() == 36,
        uuid_text(b).subrange(0, 8) == hex(b).subrange(0, 8),
        uuid_text(b).subrange(9, 13) == hex(b).subrange(8, 12),
        uuid_text(b).subrange(14, 18) == hex(b).subrange(12, 16),
        uuid_text(b).subrange(19, 23) == hex(b).subrange(16, 20),
        uuid_text(b).subrange(24, 36) == hex(b).subrange(20, 32),
        uuid_text(b)[8] == '-' && uuid_text(b)[13] == '-' && uuid_text(b)[18] == '-' && uuid_text(b)[23] == '-',
{
    assert(uuid_text(b).subrange(0, 8) =~= hex(b).subrange(0, 8));
    assert(uuid_text(b).subrange(9, 13) =~= hex(b).subrange(8, 12));
    assert(uuid_text(b).subrange(14, 18) =~= hex(b).subrange(12, 16));
    assert(uuid_text(b).subrange(19, 23) =~= hex(b).subrange(16, 20));
    assert(uuid_text(b).subrange(24, 36) =~= hex(b).subrange(20, 32));
}

/// A random UUID keeps the random bytes but for its version, 4, and its variant.
pub proof fn law_versioned(b: Seq<u8>, i: int)
    requires
        b.len() == 16,
        0 <= i < 16,
    ensures
        versioned(b).len() == 16,
        i != 6 && i != 8 ==> versioned(b)[i] == b[i],
        versioned(b)[6] / 16 == 4 && versioned(b)[6] % 16 == b[6] % 16,
        versioned(b)[8] / 64 == 2 && versioned(b)[8] % 64 == b[8] % 64,
{
}

} // verus!
