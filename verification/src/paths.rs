//! Slash separated paths as text.
use vstd::prelude::*;
use crate::text::{chars_of, text_of};

verus! {

/// The pieces of `s` between the occurrences of `c`.
pub open spec fn split(s: Seq<char>, c: char) -> Seq<Seq<char>>
    decreases s.len(),
{
    if s.len() == 0 {
        seq![Seq::empty()]
    } else {
        let p = split(s.drop_last(), c);
        if s.last() == c {
            p.push(Seq::empty())
        } else {
            p.drop_last().push(p.last().push(s.last()))
        }
    }
}

/// `parts` with `c` between them.
pub open spec fn join(parts: Seq<Seq<char>>, c: char) -> Seq<char>
    decreases parts.len(),
{
    if parts.len() == 0 {
        Seq::empty()
    } else if parts.len() == 1 {
        parts[0]
    } else {
        join(parts.drop_last(), c).push(c) + parts.last()
    }
}

/// The texts of a list of strings.
pub open spec fn texts(v: Seq<String>) -> Seq<Seq<char>> {
    Seq::new(v.len(), |i: int| v[i]@)
}

/// There is at least one piece, and no piece holds the separator.
pub proof fn lemma_split_pieces(s: Seq<char>, c: char)
    ensures
        split(s, c).len() >= 1,
        forall|i: int| 0 <= i < split(s, c).len() ==> !(#[trigger] split(s, c)[i]).contains(c),
    decreases s.len(),
{
    if s.len() > 0 {
        lemma_split_pieces(s.drop_last(), c);
        let p = split(s.drop_last(), c);
        let q = split(s, c);
        if s.last() != c {
            assert forall|i: int| 0 <= i < q.len() implies !(#[trigger] q[i]).contains(c) by {
                if i < q.len() - 1 {
                    assert(q[i] == p[i]);
                } else {
                    assert(!p.last().contains(c));
                    if q[i].contains(c) {
                        let k = choose|k: int| 0 <= k < q[i].len() && q[i][k] == c;
                        if k < p.last().len() {
                            assert(p.last()[k] == c);
                        }
                    }
                }
            }
        } else {
            assert forall|i: int| 0 <= i < q.len() implies !(#[trigger] q[i]).contains(c) by {
                if i < q.len() - 1 {
                    assert(q[i] == p[i]);
                }
            }
        }
    }
}

/// The pieces of a text hold nothing that it does not hold.
pub proof fn lemma_split_chars(s: Seq<char>, c: char, i: int, x: char)
    requires
        0 <= i < split(s, c).len(),
        split(s, c)[i].contains(x),
    ensures
        s.contains(x),
    decreases s.len(),
{
    if s.len() > 0 {
        let init = s.drop_last();
        let p = split(init, c);
        lemma_split_pieces(init, c);
        if split(s, c)[i].contains(x) {
            let k = choose|k: int| 0 <= k < split(s, c)[i].len() && split(s, c)[i][k] == x;
            if i < p.len() && k < p[i].len() {
                assert(p[i][k] == x);
                lemma_split_chars(init, c, i, x);
                let n = choose|n: int| 0 <= n < init.len() && init[n] == x;
                assert(s[n] == x);
            } else {
                assert(s[s.len() - 1] == x);
            }
        }
    }
}

/// A text without the separator is one piece.
pub proof fn lemma_split_whole(s: Seq<char>, c: char)
    requires
        !s.contains(c),
    ensures
        split(s, c) == seq![s],
    decreases s.len(),
{
    if s.len() > 0 {
        assert(!s.drop_last().contains(c)) by {
            if s.drop_last().contains(c) {
                let k = choose|k: int| 0 <= k < s.len() - 1 && s.drop_last()[k] == c;
                assert(s[k] == c);
            }
        }
        assert(s.last() != c) by {
            if s.last() == c {
                assert(s[s.len() - 1] == c);
            }
        }
        lemma_split_whole(s.drop_last(), c);
        assert(s.drop_last().push(s.last()) =~= s);
        assert(split(s, c) =~= seq![s]);
    } else {
        assert(s =~= Seq::empty());
    }
}

/// Splitting around a separator splits the two sides.
pub proof fn lemma_split_concat(a: Seq<char>, b: Seq<char>, c: char)
    ensures
        split(a.push(c) + b, c) == split(a, c) + split(b, c),
    decreases b.len(),
{
    lemma_split_pieces(a, c);
    lemma_split_pieces(b, c);
    let s = a.push(c) + b;
    if b.len() == 0 {
        assert(s =~= a.push(c));
        assert(s.drop_last() =~= a);
        assert(split(s, c) =~= split(a, c) + split(b, c));
    } else {
        assert(s.drop_last() =~= a.push(c) + b.drop_last());
        lemma_split_concat(a, b.drop_last(), c);
        lemma_split_pieces(b.drop_last(), c);
        assert(split(s, c) =~= split(a, c) + split(b, c));
    }
}

/// Splitting what was joined gives the parts back.
pub proof fn lemma_split_join(parts: Seq<Seq<char>>, c: char)
    requires
        parts.len() >= 1,
        forall|i: int| 0 <= i < parts.len() ==> !(#[trigger] parts[i]).contains(c),
    ensures
        split(join(parts, c), c) == parts,
    decreases parts.len(),
{
    if parts.len() == 1 {
        lemma_split_whole(parts[0], c);
        assert(seq![parts[0]] =~= parts);
    } else {
        let init = parts.drop_last();
        assert forall|i: int| 0 <= i < init.len() implies !(#[trigger] init[i]).contains(c) by {
            assert(init[i] == parts[i]);
        }
        lemma_split_join(init, c);
        lemma_split_concat(join(init, c), parts.last(), c);
        lemma_split_whole(parts.last(), c);
        assert(init + seq![parts.last()] =~= parts);
    }
}

/// The pieces of `s` between the occurrences of `c`.
pub fn split_text(s: &str, c: char) -> (r: Vec<String>)
    ensures
        texts(r@) == split(s@, c),
{
    let chars = chars_of(s);
    split_chars(&chars, c)
}

/// The pieces of `chars` between the occurrences of `c`.
pub fn split_chars(chars: &[char], c: char) -> (r: Vec<String>)
    ensures
        texts(r@) == split(chars@, c),
{
    let mut out: Vec<String> = Vec::new();
    let mut cur = String::new();
    proof {
        assert(chars@.take(0) =~= Seq::empty());
        assert(texts(out@).push(cur@) =~= split(chars@.take(0), c));
    }
    for i in 0..chars.len()
        invariant
            texts(out@).push(cur@) == split(chars@.take(i as int), c),
    {
        let ghost p = texts(out@).push(cur@);
        proof {
            let t = chars@.take(i as int + 1);
            assert(t.drop_last() =~= chars@.take(i as int));
            assert(t.last() == chars[i as int]);
            assert(p.drop_last() =~= texts(out@));
            assert(p.last() == cur@);
        }
        if chars[i] == c {
            out.push(cur);
            cur = String::new();
            proof {
                assert(texts(out@) =~= p);
            }
        } else {
            cur.push(chars[i]);
        }
    }
    proof {
        assert(chars@.take(chars@.len() as int) =~= chars@);
    }
    let ghost p = texts(out@).push(cur@);
    out.push(cur);
    proof {
        assert(texts(out@) =~= p);
    }
    out
}

/// `parts` with `c` between them.
pub fn join_texts(parts: &[String], c: char) -> (r: String)
    ensures
        r@ == join(texts(parts@), c),
{
    let mut out = String::new();
    for i in 0..parts.len()
        invariant
            out@ == join(texts(parts@).take(i as int), c),
    {
        let ghost t = texts(parts@).take(i as int + 1);
        proof {
            assert(t.drop_last() =~= texts(parts@).take(i as int));
            assert(t.last() == parts[i as int]@);
        }
        if i > 0 {
            out.push(c);
        }
        out.append(parts[i].as_str());
        proof {
            if i == 0 {
                assert(out@ =~= t[0]);
            }
        }
    }
    proof {
        assert(texts(parts@).take(parts.len() as int) =~= texts(parts@));
    }
    out
}

/// The place of the last `c` in `s`, or -1.
pub open spec fn last_place(s: Seq<char>, c: char) -> int
    decreases s.len(),
{
    if s.len() == 0 {
        -1
    } else if s.last() == c {
        s.len() - 1
    } else {
        last_place(s.drop_last(), c)
    }
}

/// What [`last_place`] means.
pub proof fn lemma_last_place(s: Seq<char>, c: char)
    ensures
        -1 <= last_place(s, c) < s.len(),
        last_place(s, c) >= 0 ==> s[last_place(s, c)] == c,
        forall|k: int| last_place(s, c) < k < s.len() ==> s[k] != c,
    decreases s.len(),
{
    if s.len() > 0 && s.last() != c {
        lemma_last_place(s.drop_last(), c);
        assert forall|k: int| last_place(s, c) < k < s.len() implies s[k] != c by {
            if k < s.len() - 1 {
                assert(s.drop_last()[k] == s[k]);
            }
        }
    }
}

/// The last component of a path.
pub open spec fn name_of(path: Seq<char>) -> Seq<char> {
    path.skip(last_place(path, '/') + 1)
}

/// The path without its last component: empty at the top.
pub open spec fn parent_of(path: Seq<char>) -> Seq<char> {
    if last_place(path, '/') < 0 {
        Seq::empty()
    } else {
        path.take(last_place(path, '/'))
    }
}

/// The place of the last `c`, if there is one.
pub fn find_last(s: &[char], c: char) -> (r: Option<usize>)
    ensures
        r is None <==> last_place(s@, c) < 0,
        r is Some ==> r->Some_0 == last_place(s@, c) && r->Some_0 < s.len(),
{
    let mut i: usize = s.len();
    proof {
        assert(s@.take(i as int) =~= s@);
    }
    while i > 0
        invariant
            i <= s.len(),
            last_place(s@, c) == last_place(s@.take(i as int), c),
        decreases i,
    {
        proof {
            assert(s@.take(i as int).drop_last() =~= s@.take(i - 1));
        }
        if s[i - 1] == c {
            return Some(i - 1);
        }
        i -= 1;
    }
    None
}

/// The last component of a path.
pub fn path_name(path: &str) -> (r: String)
    ensures
        r@ == name_of(path@),
{
    let chars = chars_of(path);
    proof {
        lemma_last_place(path@, '/');
    }
    match find_last(&chars, '/') {
        Some(i) => text_of(slice_chars(&chars, i + 1, chars.len())),
        None => {
            proof {
                assert(path@.skip(0) =~= path@);
            }
            text_of(&chars)
        },
    }
}

/// The path without its last component.
pub fn path_parent(path: &str) -> (r: String)
    ensures
        r@ == parent_of(path@),
{
    let chars = chars_of(path);
    match find_last(&chars, '/') {
        Some(i) => text_of(slice_chars(&chars, 0, i)),
        None => String::new(),
    }
}

/// `chars[from..to]`.
pub fn slice_chars(chars: &[char], from: usize, to: usize) -> (r: &[char])
    requires
        from <= to <= chars.len(),
    ensures
        r@ == chars@.subrange(from as int, to as int),
{
    vstd::slice::slice_subrange(chars, from, to)
}

/// Whether `s` starts with `prefix`.
pub open spec fn has_prefix(s: Seq<char>, prefix: Seq<char>) -> bool {
    prefix.len() <= s.len() && s.take(prefix.len() as int) == prefix
}

/// Whether `s` starts with `prefix`.
pub fn starts_with(s: &str, prefix: &str) -> (r: bool)
    ensures
        r == has_prefix(s@, prefix@),
{
    let a = chars_of(s);
    let b = chars_of(prefix);
    if b.len() > a.len() {
        return false;
    }
    for i in 0..b.len()
        invariant
            a@ == s@,
            b@ == prefix@,
            b.len() <= a.len(),
            forall|j: int| 0 <= j < i ==> a[j] == b[j],
    {
        if a[i] != b[i] {
            proof {
                assert(s@.take(prefix@.len() as int)[i as int] != prefix@[i as int]);
            }
            return false;
        }
    }
    proof {
        assert(s@.take(prefix@.len() as int) =~= prefix@);
    }
    true
}

/// Whether `c` occurs in `s`.
pub fn holds_char(s: &str, c: char) -> (r: bool)
    ensures
        r == s@.contains(c),
{
    let a = chars_of(s);
    for i in 0..a.len()
        invariant
            a@ == s@,
            forall|j: int| 0 <= j < i ==> a[j] != c,
    {
        if a[i] == c {
            proof {
                assert(s@[i as int] == c);
            }
            return true;
        }
    }
    false
}

/// Whether `name` is one of `list`.
pub fn is_listed(list: &[String], name: &str) -> (r: bool)
    ensures
        r == texts(list@).contains(name@),
{
    for i in 0..list.len()
        invariant
            forall|j: int| 0 <= j < i ==> list[j]@ != name@,
    {
        if crate::text::same_text(list[i].as_str(), name) {
            proof {
                assert(texts(list@)[i as int] == name@);
            }
            return true;
        }
    }
    proof {
        if texts(list@).contains(name@) {
            let k = choose|k: int| 0 <= k < texts(list@).len() && texts(list@)[k] == name@;
            assert(list[k]@ == name@);
        }
    }
    false
}

/// The name of what a path leads to stands behind its last slash, and the path of its directory
/// before it. A path without a slash is a name, in no directory.
pub proof fn law_name_and_parent(dir: Seq<char>, name: Seq<char>)
    requires
        !name.contains('/'),
    ensures
        name_of(dir + "/"@ + name) == name,
        parent_of(dir + "/"@ + name) == dir,
        name_of(name) == name,
        parent_of(name).len() == 0,
{
    reveal_strlit("/");
    let path = dir + "/"@ + name;
    lemma_last_place(path, '/');
    assert(path[dir.len() as int] == '/');
    assert forall|k: int| dir.len() < k < path.len() implies path[k] != '/' by {
        assert(path[k] == name[k - dir.len() - 1]);
        assert(name.contains(name[k - dir.len() - 1]));
    }
    assert(last_place(path, '/') == dir.len());
    assert(name_of(path) =~= name);
    assert(parent_of(path) =~= dir);
    lemma_last_place(name, '/');
    assert(last_place(name, '/') == -1) by {
        if last_place(name, '/') >= 0 {
            assert(name.contains(name[last_place(name, '/')]));
        }
    }
    assert(name_of(name) =~= name);
}

/// A text starts with what it was put together from, and with nothing else of that length.
pub proof fn law_prefixes(a: Seq<char>, b: Seq<char>, s: Seq<char>)
    ensures
        has_prefix(a + b, a),
        has_prefix(s, a) ==> s == a + s.skip(a.len() as int),
        a.len() > s.len() ==> !has_prefix(s, a),
{
    assert((a + b).take(a.len() as int) =~= a);
    if has_prefix(s, a) {
        assert(s =~= s.take(a.len() as int) + s.skip(a.len() as int));
    }
}

} // verus!
