//! The bridge's side of the email app.
//!
//! The bridge receives a writable secret link to the client's `pending/` directory. It
//! reads the outbox, encrypts what it has sent into `sent/`, and puts incoming messages
//! and attachments into `inbox/`.
use vstd::prelude::*;
use crate::email::client::{address_in, text_place};
use crate::email::message::{attachments, dup_attachments, Attachment, AttachmentView, EmailMessage, EmailView};
use crate::hex::{uuid_text, uuid_v4, versioned};
use crate::paths::{find_last, has_prefix, last_place, lemma_last_place, slice_chars, texts};
use crate::text::{chars_of, first_place, join3, lemma_first_place, text_of};

verus! {

/// What the bridge writes for the client's email address.
pub open spec fn address_file(address: Seq<char>) -> Seq<char> {
    "{ \"email\": \""@ + address + "\" }"@
}

/// What the bridge writes for the client's email address.
pub fn address_json(address: &str) -> (r: String)
    ensures
        r@ == address_file(address@),
{
    join3("{ \"email\": \"", address, "\" }")
}

/// The client reads the address that the bridge has written, if it holds no quote.
pub proof fn law_client_reads_address(address: Seq<char>)
    requires
        !address.contains('"'),
    ensures
        address_in(address_file(address)) == Some(address),
{
    let t = address_file(address);
    let key = "\"email\""@;
    reveal_strlit("{ \"email\": \"");
    reveal_strlit("\"email\"");
    reveal_strlit("\" }");
    assert(t[0] == '{' && t[1] == ' ' && key[0] == '"');
    assert(t.take(key.len() as int)[0] != key[0]);
    assert(!has_prefix(t, key));
    let t1 = t.skip(1);
    assert(t1.take(key.len() as int)[0] != key[0]);
    assert(!has_prefix(t1, key));
    let t2 = t1.skip(1);
    assert(t2.take(key.len() as int) =~= key);
    assert(text_place(t2, key) == Some(0int));
    assert(text_place(t1, key) == Some(1int));
    assert(text_place(t, key) == Some(2int));
    let rest = t.skip(9);
    assert(rest[0] == ':');
    lemma_first_place(rest, ':', 0);
    let value = rest.skip(1);
    assert(value[0] == ' ' && value[1] == '"');
    lemma_first_place(value, '"', 1);
    let quoted = value.skip(2);
    assert(quoted =~= address + "\" }"@);
    assert forall|i: int| 0 <= i < address.len() implies quoted[i] != '"' by {
        assert(quoted[i] == address[i]);
        assert(address.contains(address[i]));
    }
    assert(quoted[address.len() as int] == '"');
    lemma_first_place(quoted, '"', address.len() as int);
    assert(quoted.take(address.len() as int) =~= address);
}

/// The names of the files among the children of a directory.
pub open spec fn file_names(children: Seq<(Seq<char>, bool)>) -> Seq<Seq<char>>
    decreases children.len(),
{
    if children.len() == 0 {
        Seq::empty()
    } else if children.last().1 {
        file_names(children.drop_last())
    } else {
        file_names(children.drop_last()).push(children.last().0)
    }
}

/// Children by name, and whether each is a directory.
pub open spec fn named(v: Seq<(String, bool)>) -> Seq<(Seq<char>, bool)> {
    Seq::new(v.len(), |i: int| (v[i].0@, v[i].1))
}

/// The names of the messages in the outbox: its files, without its directories.
pub fn outbox_names(children: &Vec<(String, bool)>) -> (r: Vec<String>)
    ensures
        texts(r@) == file_names(named(children@)),
{
    let ghost all = named(children@);
    let mut out: Vec<String> = Vec::new();
    proof {
        assert(texts(out@) =~= file_names(all.take(0)));
    }
    for i in 0..children.len()
        invariant
            all == named(children@),
            texts(out@) == file_names(all.take(i as int)),
    {
        let ghost before = texts(out@);
        proof {
            assert(all.take(i as int + 1).drop_last() =~= all.take(i as int));
            assert(all.take(i as int + 1).last() == (children[i as int].0@, children[i as int].1));
        }
        if !children[i].1 {
            out.push(children[i].0.clone());
            proof {
                assert(texts(out@) =~= before.push(children[i as int].0@));
            }
        }
    }
    proof {
        assert(all.take(all.len() as int) =~= all);
    }
    out
}

/// The attachments that go with a message: its own, then those of the message that it
/// forwards.
pub open spec fn going_along(m: EmailView) -> Seq<AttachmentView> {
    match m.forwarding_to_email {
        Some(f) => m.attachments + f.attachments,
        None => m.attachments,
    }
}

/// All attachments that go with a message, including those of the message that it
/// forwards.
pub fn all_attachments(msg: &EmailMessage) -> (r: Vec<Attachment>)
    ensures
        attachments(r@) == going_along(msg@),
{
    let mut out = dup_attachments(&msg.attachments);
    match &msg.forwarding_to_email {
        None => {},
        Some(f) => {
            let ghost before = attachments(out@);
            let mut more = dup_attachments(&f.attachments);
            let ghost mv = attachments(more@);
            out.append(&mut more);
            proof {
                assert(attachments(out@) =~= before + mv);
                assert(f@.attachments == attachments(f.attachments@));
            }
        },
    }
    out
}

/// The extension of a file name: what follows its last dot, nothing if it has none.
pub open spec fn extension_of(name: Seq<char>) -> Seq<char> {
    if last_place(name, '.') < 0 {
        Seq::empty()
    } else {
        name.skip(last_place(name, '.') + 1)
    }
}

/// The extension of a file name.
pub fn extension(name: &str) -> (r: String)
    ensures
        r@ == extension_of(name@),
{
    let chars = chars_of(name);
    proof {
        lemma_last_place(name@, '.');
    }
    match find_last(&chars, '.') {
        None => String::new(),
        Some(i) => {
            let e = slice_chars(&chars, i + 1, chars.len());
            proof {
                assert(e@ =~= name@.skip(i as int + 1));
            }
            text_of(e)
        },
    }
}

/// The attachment that a received file becomes: it is stored under a random id that keeps
/// the extension of its name.
pub fn new_attachment(filename: &str, size: i64, mime_type: &str, random: &[u8]) -> (r: Attachment)
    requires
        random.len() == 16,
    ensures
        r@ == (AttachmentView {
            filename: filename@,
            size: size as int,
            mime_type: mime_type@,
            uuid: uuid_text(versioned(random@)) + "."@ + extension_of(filename@),
        }),
{
    let id = uuid_v4(random);
    let ext = extension(filename);
    let uuid = join3(id.as_str(), ".", ext.as_str());
    Attachment::new(filename, size, mime_type, uuid.as_str())
}

/// The files of a directory are what is not a directory in it, in their order.
pub proof fn law_file_names(children: Seq<(Seq<char>, bool)>)
    ensures
        file_names(children) == children.filter(|c: (Seq<char>, bool)| !c.1).map_values(|c: (Seq<char>, bool)| c.0),
    decreases children.len(),
{
    reveal(Seq::filter);
    let files = |c: (Seq<char>, bool)| !c.1;
    let name = |c: (Seq<char>, bool)| c.0;
    if children.len() > 0 {
        let init = children.drop_last();
        law_file_names(init);
        if files(children.last()) {
            assert(children.filter(files) == init.filter(files).push(children.last()));
            assert(children.filter(files).map_values(name) =~= init.filter(files).map_values(name).push(children.last().0));
        }
    } else {
        assert(children.filter(files).map_values(name) =~= Seq::empty());
    }
}

/// With a message go its own attachments and those of the message that it forwards, but none of
/// the one that it replies to.
pub proof fn law_attachments_going_along(m: EmailView, replied: Option<Box<EmailView>>, a: AttachmentView)
    ensures
        going_along(EmailView { replying_to_email: replied, ..m }) == going_along(m),
        m.forwarding_to_email is None ==> going_along(m) == m.attachments,
        m.forwarding_to_email matches Some(f) ==> (going_along(m).contains(a) <==> m.attachments.contains(a)
            || f.attachments.contains(a)) && going_along(m).take(m.attachments.len() as int) == m.attachments,
{
    if let Some(f) = m.forwarding_to_email {
        let all = going_along(m);
        let n = m.attachments.len() as int;
        assert(all.take(n) =~= m.attachments);
        if m.attachments.contains(a) {
            let k = choose|k: int| 0 <= k < n && m.attachments[k] == a;
            assert(all[k] == a);
        }
        if f.attachments.contains(a) {
            let k = choose|k: int| 0 <= k < f.attachments.len() && f.attachments[k] == a;
            assert(all[n + k] == a);
        }
        if all.contains(a) {
            let k = choose|k: int| 0 <= k < all.len() && all[k] == a;
            if k < n {
                assert(m.attachments[k] == a);
            } else {
                assert(f.attachments[k - n] == a);
            }
        }
    }
}

/// The extension of a name is what stands behind its last dot, and none where it has no dot.
pub proof fn law_extension(stem: Seq<char>, ext: Seq<char>)
    requires
        !ext.contains('.'),
    ensures
        extension_of(stem + "."@ + ext) == ext,
        extension_of(ext).len() == 0,
{
    reveal_strlit(".");
    let name = stem + "."@ + ext;
    lemma_last_place(name, '.');
    assert(name[stem.len() as int] == '.');
    assert forall|k: int| stem.len() < k < name.len() implies name[k] != '.' by {
        assert(name[k] == ext[k - stem.len() - 1]);
        assert(ext.contains(ext[k - stem.len() - 1]));
    }
    assert(last_place(name, '.') == stem.len());
    assert(extension_of(name) =~= ext);
    lemma_last_place(ext, '.');
    if last_place(ext, '.') >= 0 {
        assert(ext.contains(ext[last_place(ext, '.')]));
    }
}

/// The address of the client is the first text behind the first `"email"` and its colon, whatever
/// else the file holds.
pub proof fn law_address_is_found(
    before: Seq<char>,
    gap: Seq<char>,
    space: Seq<char>,
    address: Seq<char>,
    after: Seq<char>,
)
    requires
        ({
            let t = before + ("\"email\""@ + (gap + seq![':'] + (space + seq!['"'] + (address + seq!['"'] + after))));
            forall|k: int| 0 <= k < before.len() ==> !has_prefix(#[trigger] t.skip(k), "\"email\""@)
        }),
        !gap.contains(':'),
        !space.contains('"'),
        !address.contains('"'),
    ensures
        address_in(
            before + ("\"email\""@ + (gap + seq![':'] + (space + seq!['"'] + (address + seq!['"'] + after)))),
        ) == Some(address),
{
    let key = "\"email\""@;
    reveal_strlit("\"email\"");
    let quoted = address + seq!['"'] + after;
    let value = space + seq!['"'] + quoted;
    let rest = gap + seq![':'] + value;
    let t = before + (key + rest);
    assert(key.len() == 7);
    assert(t.skip(before.len() as int) =~= key + rest);
    assert((key + rest).take(7) =~= key);
    lemma_text_place(t, key, before.len() as int);
    assert(t.skip(before.len() as int + 7) =~= rest);
    lemma_behind_first(gap, ':', value);
    lemma_behind_first(space, '"', quoted);
    lemma_behind_first(address, '"', after);
}

proof fn lemma_behind_first(a: Seq<char>, c: char, b: Seq<char>)
    requires
        !a.contains(c),
    ensures
        first_place(a + seq![c] + b, c) == a.len(),
        (a + seq![c] + b).skip(a.len() as int + 1) == b,
        (a + seq![c] + b).take(a.len() as int) == a,
        (a + seq![c] + b).len() > a.len(),
{
    let s = a + seq![c] + b;
    assert forall|i: int| 0 <= i < a.len() implies s[i] != c by {
        assert(s[i] == a[i]);
        assert(a.contains(a[i]));
    }
    assert(s[a.len() as int] == c);
    lemma_first_place(s, c, a.len() as int);
    assert(s.skip(a.len() as int + 1) =~= b);
    assert(s.take(a.len() as int) =~= a);
}

proof fn lemma_text_place(s: Seq<char>, needle: Seq<char>, i: int)
    requires
        0 <= i <= s.len(),
        has_prefix(s.skip(i), needle),
        forall|k: int| 0 <= k < i ==> !has_prefix(#[trigger] s.skip(k), needle),
    ensures
        text_place(s, needle) == Some(i),
    decreases s.len(),
{
    assert(s.skip(0) =~= s);
    if i > 0 {
        let r = s.skip(1);
        assert(!has_prefix(s.skip(0), needle));
        assert(r.skip(i - 1) =~= s.skip(i));
        assert forall|k: int| 0 <= k < i - 1 implies !has_prefix(#[trigger] r.skip(k), needle) by {
            assert(r.skip(k) =~= s.skip(k + 1));
        }
        lemma_text_place(r, needle, i - 1);
    }
}

} // verus!
