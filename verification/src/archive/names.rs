//! The names of zip entries.
use vstd::prelude::*;
use vstd::utf8::*;
use crate::error::{fails_protocol, protocol, Result};
use crate::paths::{join, join_texts, lemma_split_join, lemma_split_pieces, split, split_chars, texts};
use crate::text::{chars_of, copy_bytes, utf8_text};

verus! {

/// The 128 high characters of code page 437, the ZIP default encoding for names.
pub const CP437_HIGH: &'static str = "ÇüéâäàåçêëèïîìÄÅÉæÆôöòûùÿÖÜ¢£¥₧ƒáíóúñÑªº¿⌐¬½¼¡«»░▒▓│┤╡╢╖╕╣║╗╝╜╛┐└┴┬├─┼╞╟╚╔╩╦╠═╬╧╨╤╥╙╘╒╓╫╪┘┌█▄▌▐▀αßΓπΣσµτΦΘΩδ∞φε∩≡±≥≤⌠⌡÷≈°∙·√ⁿ²■\u{a0}";

/// The character that a byte stands for in code page 437.
pub open spec fn cp437(b: u8) -> char {
    if b < 0x80 {
        b as char
    } else {
        CP437_HIGH@[b - 0x80]
    }
}

/// The name that `raw` spells, or the message of the error.
pub open spec fn name_text(raw: Seq<u8>, utf8: bool) -> core::result::Result<Seq<char>, Seq<char>> {
    if !utf8 {
        Ok(Seq::new(raw.len(), |i: int| cp437(raw[i])))
    } else if valid_utf8(raw) {
        Ok(decode_utf8(raw))
    } else {
        Err("Invalid UTF-8 in zip entry name"@)
    }
}

/// The name that `raw` spells.
pub fn decode_name(raw: &[u8], utf8: bool) -> (r: Result<String>)
    ensures
        r is Ok <==> name_text(raw@, utf8) is Ok,
        r is Ok ==> r->Ok_0@ == name_text(raw@, utf8)->Ok_0,
        r is Err ==> fails_protocol(r, name_text(raw@, utf8)->Err_0),
{
    if utf8 {
        return match utf8_text(copy_bytes(raw)) {
            Some(s) => Ok(s),
            None => Err(protocol("Invalid UTF-8 in zip entry name")),
        };
    }
    let high = chars_of(CP437_HIGH);
    proof {
        reveal_strlit("ÇüéâäàåçêëèïîìÄÅÉæÆôöòûùÿÖÜ¢£¥₧ƒáíóúñÑªº¿⌐¬½¼¡«»░▒▓│┤╡╢╖╕╣║╗╝╜╛┐└┴┬├─┼╞╟╚╔╩╦╠═╬╧╨╤╥╙╘╒╓╫╪┘┌█▄▌▐▀αßΓπΣσµτΦΘΩδ∞φε∩≡±≥≤⌠⌡÷≈°∙·√ⁿ²■\u{a0}");
        assert(high.len() == 128);
    }
    let mut out = String::new();
    for i in 0..raw.len()
        invariant
            high.len() == 128,
            high@ == CP437_HIGH@,
            out@ == Seq::new(i as nat, |k: int| cp437(raw[k])),
    {
        let b: u8 = raw[i];
        if b < 0x80 {
            out.push(b as char);
        } else {
            out.push(high[(b - 0x80) as usize]);
        }
        proof {
            assert(out@ =~= Seq::new((i + 1) as nat, |k: int| cp437(raw[k])));
        }
    }
    Ok(out)
}

/// `raw` with forward slashes only.
pub open spec fn with_slashes(raw: Seq<char>) -> Seq<char> {
    Seq::new(raw.len(), |i: int| if raw[i] == '\\' { '/' } else { raw[i] })
}

/// Whether a name starts with a windows drive.
pub open spec fn has_drive(name: Seq<char>) -> bool {
    name.len() > 1 && (name[0] as u32) < 0x80 && name[1] == ':'
}

/// `name` without its windows drive.
pub open spec fn without_drive(name: Seq<char>) -> Seq<char> {
    if has_drive(name) {
        name.skip(2)
    } else {
        name
    }
}

/// Whether a component stays in a path.
pub open spec fn is_kept(c: Seq<char>) -> bool {
    c != ""@ && c != "."@
}

/// The components that stay in a path.
pub open spec fn kept_parts(parts: Seq<Seq<char>>) -> Seq<Seq<char>>
    decreases parts.len(),
{
    if parts.len() == 0 {
        Seq::empty()
    } else if is_kept(parts.last()) {
        kept_parts(parts.drop_last()).push(parts.last())
    } else {
        kept_parts(parts.drop_last())
    }
}

/// The path within an archive that a name stands for: none if the name escapes it.
pub open spec fn normalised(raw: Seq<char>) -> Option<Seq<char>> {
    let parts = split(without_drive(with_slashes(raw)), '/');
    if parts.contains(".."@) {
        None
    } else {
        Some(join(kept_parts(parts), '/'))
    }
}

/// A path as [`normalised`] gives it: without empty, "." or ".." components.
pub open spec fn is_normal(path: Seq<char>) -> bool {
    path.len() == 0 || (forall|i: int|
        0 <= i < split(path, '/').len() ==> is_kept(#[trigger] split(path, '/')[i]) && split(path, '/')[i] != ".."@)
}

/// Strip what a zip name may carry that a path within the archive cannot: a
/// leading slash, a windows drive, and "." components. A ".." component would
/// escape the archive, so such a name is rejected.
pub fn normalise_path(raw: &str) -> (r: Option<String>)
    ensures
        r is Some <==> normalised(raw@) is Some,
        r is Some ==> r->Some_0@ == normalised(raw@)->Some_0,
{
    let chars = chars_of(raw);
    let mut name: Vec<char> = Vec::new();
    for i in 0..chars.len()
        invariant
            chars@ == raw@,
            name@ == with_slashes(raw@).take(i as int),
    {
        name.push(if chars[i] == '\\' { '/' } else { chars[i] });
        proof {
            assert(name@ =~= with_slashes(raw@).take(i as int + 1));
        }
    }
    proof {
        assert(with_slashes(raw@).take(raw@.len() as int) =~= with_slashes(raw@));
    }
    let from: usize = if name.len() > 1 && (name[0] as u32) < 0x80 && name[1] == ':' { 2 } else { 0 };
    let rest = crate::paths::slice_chars(&name, from, name.len());
    proof {
        assert(rest@ =~= without_drive(with_slashes(raw@)));
    }
    let pieces = split_chars(rest, '/');
    let ghost parts = texts(pieces@);
    let mut kept: Vec<String> = Vec::new();
    for i in 0..pieces.len()
        invariant
            parts == texts(pieces@),
            parts == split(without_drive(with_slashes(raw@)), '/'),
            texts(kept@) == kept_parts(parts.take(i as int)),
            forall|j: int| 0 <= j < i ==> parts[j] != ".."@,
    {
        proof {
            assert(parts.take(i as int + 1).drop_last() =~= parts.take(i as int));
            assert(parts[i as int] == pieces[i as int]@);
        }
        let c = pieces[i].as_str();
        if crate::text::same_text(c, "..") {
            return None;
        }
        if !crate::text::same_text(c, "") && !crate::text::same_text(c, ".") {
            let ghost before = texts(kept@);
            kept.push(pieces[i].clone());
            proof {
                assert(texts(kept@) =~= before.push(parts[i as int]));
            }
        }
    }
    proof {
        assert(parts.take(parts.len() as int) =~= parts);
    }
    Some(join_texts(&kept, '/'))
}

proof fn lemma_kept_parts(parts: Seq<Seq<char>>)
    ensures
        forall|i: int|
            0 <= i < kept_parts(parts).len() ==> is_kept(#[trigger] kept_parts(parts)[i]) && parts.contains(
                kept_parts(parts)[i],
            ),
    decreases parts.len(),
{
    if parts.len() > 0 {
        let k = kept_parts(parts);
        let init = parts.drop_last();
        lemma_kept_parts(init);
        assert forall|i: int| 0 <= i < k.len() implies is_kept(#[trigger] k[i]) && parts.contains(k[i]) by {
            if is_kept(parts.last()) && i == k.len() - 1 {
                assert(parts[parts.len() - 1] == k[i]);
            } else {
                assert(k[i] == kept_parts(init)[i]);
                let j = choose|j: int| 0 <= j < init.len() && init[j] == k[i];
                assert(parts[j] == k[i]);
            }
        }
    }
}

proof fn lemma_all_kept(parts: Seq<Seq<char>>)
    requires
        forall|i: int| 0 <= i < parts.len() ==> is_kept(#[trigger] parts[i]),
    ensures
        kept_parts(parts) == parts,
    decreases parts.len(),
{
    if parts.len() > 0 {
        let init = parts.drop_last();
        assert forall|i: int| 0 <= i < init.len() implies is_kept(#[trigger] init[i]) by {
            assert(init[i] == parts[i]);
        }
        lemma_all_kept(init);
        assert(is_kept(parts.last()));
        assert(init.push(parts.last()) =~= parts);
    } else {
        assert(kept_parts(parts) =~= parts);
    }
}

/// What normalising gives has no empty, "." or ".." component.
pub proof fn law_normalised_is_normal(raw: Seq<char>)
    requires
        normalised(raw) is Some,
    ensures
        is_normal(normalised(raw)->Some_0),
{
    let parts = split(without_drive(with_slashes(raw)), '/');
    let k = kept_parts(parts);
    let p = normalised(raw)->Some_0;
    lemma_kept_parts(parts);
    lemma_split_pieces(without_drive(with_slashes(raw)), '/');
    if k.len() > 0 {
        assert forall|i: int| 0 <= i < k.len() implies !(#[trigger] k[i]).contains('/') by {
            assert(parts.contains(k[i]));
        }
        lemma_split_join(k, '/');
        assert forall|i: int| 0 <= i < k.len() implies k[i] != ".."@ by {
            assert(is_kept(k[i]) && parts.contains(k[i]));
        }
    }
}

proof fn lemma_join_holds(parts: Seq<Seq<char>>, c: char, x: char)
    requires
        x != c,
        forall|i: int| 0 <= i < parts.len() ==> !(#[trigger] parts[i]).contains(x),
    ensures
        !join(parts, c).contains(x),
    decreases parts.len(),
{
    let j = join(parts, c);
    if parts.len() == 1 {
        assert(!parts[0].contains(x));
    } else if parts.len() > 1 {
        let init = parts.drop_last();
        assert forall|i: int| 0 <= i < init.len() implies !(#[trigger] init[i]).contains(x) by {
            assert(init[i] == parts[i]);
        }
        lemma_join_holds(init, c, x);
        assert(!parts[parts.len() - 1].contains(x));
        assert forall|k: int| 0 <= k < j.len() implies j[k] != x by {
            let a = join(init, c);
            if k < a.len() {
                assert(a.contains(a[k]));
                assert(j[k] == a[k]);
            } else if k > a.len() {
                assert(parts.last().contains(parts.last()[k - a.len() - 1]));
                assert(j[k] == parts.last()[k - a.len() - 1]);
            }
        }
    }
}

proof fn lemma_split_holds(s: Seq<char>, c: char, x: char)
    requires
        !s.contains(x),
    ensures
        forall|i: int| 0 <= i < split(s, c).len() ==> !(#[trigger] split(s, c)[i]).contains(x),
    decreases s.len(),
{
    if s.len() > 0 {
        let init = s.drop_last();
        let p = split(init, c);
        let q = split(s, c);
        assert(!init.contains(x)) by {
            if init.contains(x) {
                let k = choose|k: int| 0 <= k < init.len() && init[k] == x;
                assert(s[k] == x);
            }
        }
        assert(s.contains(s.last())) by {
            assert(s[s.len() - 1] == s.last());
        }
        lemma_split_holds(init, c, x);
        lemma_split_pieces(init, c);
        assert forall|i: int| 0 <= i < q.len() implies !(#[trigger] q[i]).contains(x) by {
            if s.last() == c {
                if i < p.len() {
                    assert(q[i] == p[i]);
                }
            } else if i < p.len() - 1 {
                assert(q[i] == p[i]);
            } else {
                let last = p.last();
                assert(!p[p.len() - 1].contains(x));
                assert(q[i] == last.push(s.last()));
                if q[i].contains(x) {
                    let k = choose|k: int| 0 <= k < q[i].len() && q[i][k] == x;
                    if k < last.len() {
                        assert(last[k] == x);
                    }
                }
            }
        }
    }
}

/// What normalising gives has no backslash.
pub proof fn law_normalised_has_no_backslash(raw: Seq<char>)
    requires
        normalised(raw) is Some,
    ensures
        !normalised(raw)->Some_0.contains('\\'),
{
    let s = without_drive(with_slashes(raw));
    let parts = split(s, '/');
    assert forall|k: int| 0 <= k < s.len() implies s[k] != '\\' by {
        let w = with_slashes(raw);
        assert(s[k] == w[if has_drive(w) { k + 2 } else { k }]);
    }
    assert(!s.contains('\\'));
    lemma_split_holds(s, '/', '\\');
    lemma_kept_parts(parts);
    let k = kept_parts(parts);
    assert forall|i: int| 0 <= i < k.len() implies !(#[trigger] k[i]).contains('\\') by {
        assert(parts.contains(k[i]));
        let j = choose|j: int| 0 <= j < parts.len() && parts[j] == k[i];
        assert(!parts[j].contains('\\'));
    }
    lemma_join_holds(k, '/', '\\');
}

/// Normalising what normalising gave changes nothing, unless it starts like a drive.
pub proof fn law_normalise_idempotent(raw: Seq<char>)
    requires
        normalised(raw) is Some,
        !has_drive(normalised(raw)->Some_0),
    ensures
        normalised(normalised(raw)->Some_0) == normalised(raw),
{
    law_normalised_is_normal(raw);
    law_normalised_has_no_backslash(raw);
    lemma_normal_stays(normalised(raw)->Some_0);
}

/// Normalising a normal path changes nothing, unless the path starts like a drive or
/// holds a backslash.
pub proof fn lemma_normal_stays(path: Seq<char>)
    requires
        is_normal(path),
        !has_drive(path),
        !path.contains('\\'),
    ensures
        normalised(path) == Some(path),
{
    assert(with_slashes(path) =~= path) by {
        assert forall|i: int| 0 <= i < path.len() implies with_slashes(path)[i] == path[i] by {
            assert(path.contains(path[i]));
        }
    }
    let parts = split(path, '/');
    if path.len() == 0 {
        assert(path =~= Seq::empty());
        reveal_strlit("");
        reveal_strlit("..");
        assert(parts == seq![Seq::<char>::empty()]);
        assert(!is_kept(parts[0])) by {
            assert(parts[0] =~= ""@);
        }
        assert(kept_parts(parts) =~= Seq::empty()) by {
            reveal_with_fuel(kept_parts, 2);
            assert(parts.drop_last() =~= Seq::empty());
        }
        assert(!parts.contains(".."@)) by {
            if parts.contains(".."@) {
                assert(parts[0].len() == ".."@.len());
            }
        }
    } else {
        lemma_all_kept(parts);
        assert(!parts.contains(".."@));
        lemma_join_split(path, '/');
    }
}

/// Joining what was split gives the text back.
proof fn lemma_join_split(s: Seq<char>, c: char)
    ensures
        join(split(s, c), c) == s,
    decreases s.len(),
{
    lemma_split_pieces(s, c);
    if s.len() > 0 {
        let p = split(s.drop_last(), c);
        let q = split(s, c);
        lemma_join_split(s.drop_last(), c);
        lemma_split_pieces(s.drop_last(), c);
        if s.last() == c {
            assert(q.drop_last() =~= p);
            assert(join(q, c) =~= join(p, c).push(c));
            assert(s.drop_last().push(c) =~= s);
        } else {
            assert(q.drop_last() =~= p.drop_last());
            if p.len() == 1 {
                assert(q.len() == 1);
                assert(join(q, c) =~= p[0].push(s.last()));
            } else {
                assert(join(q, c) =~= join(p, c).push(s.last()));
            }
            assert(s.drop_last().push(s.last()) =~= s);
        }
    } else {
        assert(join(split(s, c), c) =~= s);
    }
}

/// The name of an entry: in UTF-8 if the entry says so, with an error for what is none, and else one
/// character for each byte, which is the byte's own below 128.
pub proof fn law_name_text(raw: Seq<u8>, i: int)
    ensures
        valid_utf8(raw) ==> name_text(raw, true) == Ok::<Seq<char>, Seq<char>>(decode_utf8(raw)),
        !valid_utf8(raw) ==> name_text(raw, true) is Err,
        name_text(raw, false) is Ok && name_text(raw, false)->Ok_0.len() == raw.len(),
        0 <= i < raw.len() && raw[i] < 0x80 ==> name_text(raw, false)->Ok_0[i] as u32 == raw[i],
        0 <= i < raw.len() && raw[i] >= 0x80 ==> name_text(raw, false)->Ok_0[i] == CP437_HIGH@[raw[i] - 128],
{
}

/// What is kept of a path are its components but for the empty ones and single dots, in their order.
pub proof fn law_kept_parts(parts: Seq<Seq<char>>)
    ensures
        kept_parts(parts) == parts.filter(|c: Seq<char>| c.len() > 0 && c != seq!['.']),
    decreases parts.len(),
{
    reveal(Seq::filter);
    reveal_strlit("");
    reveal_strlit(".");
    assert("."@ =~= seq!['.']);
    if parts.len() > 0 {
        law_kept_parts(parts.drop_last());
        let c = parts.last();
        assert(c != ""@ <==> c.len() > 0) by {
            if c.len() == 0 {
                assert(c =~= ""@);
            }
        }
    }
}

/// Slashes of either kind separate components, and a drive before them is left out.
pub proof fn law_separators(raw: Seq<char>, drive: char)
    ensures
        normalised(with_slashes(raw)) == normalised(raw),
        (drive as u32) < 0x80 && drive != '\\' && !has_drive(with_slashes(raw)) ==> normalised(seq![drive, ':'] + raw)
            == normalised(raw),
        !has_drive(with_slashes(raw)) ==> (normalised(raw) is None <==> split(with_slashes(raw), '/').contains(seq!['.', '.'])),
{
    reveal_strlit("..");
    assert(".."@ =~= seq!['.', '.']);
    assert(with_slashes(with_slashes(raw)) =~= with_slashes(raw));
    let t = seq![drive, ':'] + raw;
    assert(with_slashes(t).skip(2) =~= with_slashes(raw));
}

} // verus!
