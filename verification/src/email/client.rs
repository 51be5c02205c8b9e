//! The user's side of the email app.
//!
//! All email data lives under `/$username/.apps/email/data/default/`. The bridge has write
//! access to `pending/` there via a writable secret link.
use vstd::prelude::*;
use crate::cbor::{CborObject, CborValue};
use crate::cbor_codec::{encode, parse, representable};
use crate::email::message::{email_cbor, email_from, law_email_is_read_back, EmailMessage, EmailView};
use crate::error::{agrees, fails_protocol, opt, protocol, Fault, Result};
use crate::opaque::{Formats, Kind, Opaque};
use crate::paths::{has_prefix, lemma_last_place, parent_of, path_parent, slice_chars};
use crate::text::{chars_of, find_first, first_place, join2, join3, join4, text_of, utf8_text};

verus! {

/// The email account, and the directory of its data.
pub const ACCOUNT: &'static str = "default";

/// The root of the email data, relative to home.
pub const EMAIL_ROOT: &'static str = ".apps/email/data";

pub const KEYPAIR_PATH: &'static str = "encryption.keypair.cbor";
pub const PUBLIC_KEY_FILENAME: &'static str = "encryption.publickey.cbor";
pub const CLIENT_EMAIL_FILENAME: &'static str = "email.json";

/// The directories of an account, relative to its own.
pub open spec fn account_dirs() -> Seq<Seq<char>> {
    seq![
        "inbox"@,
        "sent"@,
        "pending"@,
        "attachments"@,
        "pending/inbox"@,
        "pending/outbox"@,
        "pending/sent"@,
        "pending/inbox/attachments"@,
        "pending/outbox/attachments"@,
        "pending/sent/attachments"@,
    ]
}

/// A path of the account, relative to the root of the email data.
pub open spec fn in_account(path: Seq<char>) -> Seq<char> {
    ACCOUNT@ + "/"@ + path
}

/// A path of the account, relative to the root of the email data.
pub fn account_path(path: &str) -> (r: String)
    ensures
        r@ == in_account(path@),
{
    join3(ACCOUNT, "/", path)
}

/// The directories that are created when the email app is set up, in that order.
pub fn setup_dirs() -> (r: Vec<String>)
    ensures
        r@.len() == account_dirs().len(),
        forall|i: int| 0 <= i < r@.len() ==> (#[trigger] r@[i])@ == in_account(account_dirs()[i]),
{
    vec![
        account_path("inbox"),
        account_path("sent"),
        account_path("pending"),
        account_path("attachments"),
        account_path("pending/inbox"),
        account_path("pending/outbox"),
        account_path("pending/sent"),
        account_path("pending/inbox/attachments"),
        account_path("pending/outbox/attachments"),
        account_path("pending/sent/attachments"),
    ]
}

/// The file that a message is stored in.
pub fn email_filename(id: &str) -> (r: String)
    ensures
        r@ == id@ + ".cbor"@,
{
    join2(id, ".cbor")
}

/// Whether `s` ends with `suffix`.
pub open spec fn has_suffix(s: Seq<char>, suffix: Seq<char>) -> bool {
    suffix.len() <= s.len() && s.skip(s.len() - suffix.len()) == suffix
}

/// Whether a file of a mail folder holds a message.
pub fn is_email_file(name: &str) -> (r: bool)
    ensures
        r == has_suffix(name@, ".cbor"@),
{
    let chars = chars_of(name);
    let suffix = chars_of(".cbor");
    if suffix.len() > chars.len() {
        return false;
    }
    let from: usize = chars.len() - suffix.len();
    for i in 0..suffix.len()
        invariant
            chars@ == name@,
            suffix@ == ".cbor"@,
            from == chars.len() - suffix.len(),
            suffix.len() <= chars.len(),
            forall|k: int| 0 <= k < i ==> chars[from + k] == suffix[k],
    {
        if chars[from + i] != suffix[i] {
            proof {
                assert(name@.skip(from as int)[i as int] != ".cbor"@[i as int]);
            }
            return false;
        }
    }
    proof {
        assert(name@.skip(from as int) =~= ".cbor"@);
    }
    true
}

/// The message that decrypted bytes hold, if they hold one.
pub open spec fn opened_email(plain: Option<Seq<u8>>) -> Option<EmailView> {
    match plain {
        None => None,
        Some(b) => match parse(b) {
            None => None,
            Some((v, c)) => match email_from(v) {
                Ok(m) => Some(m),
                Err(f) => None,
            },
        },
    }
}

/// The message that an envelope held: none if it could not be decrypted, or held
/// something else. Such files are passed over when a folder is listed.
pub fn open_email(plain: Option<Vec<u8>>) -> (r: Option<EmailMessage>)
    ensures
        opt(r) == opened_email(opt(plain)),
{
    match plain {
        None => None,
        Some(b) => match CborObject::from_bytes(&b) {
            Err(_) => None,
            Ok(v) => match EmailMessage::from_cbor(&v) {
                Ok(m) => Some(m),
                Err(_) => None,
            },
        },
    }
}

/// Where the attachment of a message that is still pending in `folder` is, relative to
/// the root of the email data.
pub open spec fn pending_attachment(folder: Seq<char>, uuid: Seq<char>) -> Seq<char> {
    in_account("pending/"@ + folder + "/attachments/"@ + uuid)
}

/// Where a pending attachment is, and the directory that it is deleted from once it was
/// moved.
pub fn attachment_source(folder: &str, uuid: &str) -> (r: (String, String))
    ensures
        r.0@ == pending_attachment(folder@, uuid@),
        r.1@ == parent_of(pending_attachment(folder@, uuid@)),
{
    let at = account_path(join4("pending/", folder, "/attachments/", uuid).as_str());
    let dir = path_parent(at.as_str());
    (at, dir)
}

/// Where an attachment of a private message is, relative to the root of the email data.
pub fn private_attachment(uuid: &str) -> (r: String)
    ensures
        r@ == in_account("attachments/"@ + uuid@),
{
    account_path(join2("attachments/", uuid).as_str())
}

/// The pending folder that a message is deleted from once it was moved to the private
/// folder of the same name, relative to the root of the email data.
pub fn email_source(folder: &str) -> (r: String)
    ensures
        r@ == in_account("pending/"@ + folder@),
{
    account_path(join2("pending/", folder).as_str())
}

/// How the email client comes up.
#[derive(Debug, PartialEq, Eq)]
pub enum LoadStep {
    /// The app is not set up yet: it is, now.
    Initialise,
    /// The app is set up, with this pair of keys.
    Load(Opaque),
}

/// How the email client comes up, given the kept pair of keys where there is one.
pub open spec fn load_step(root_found: bool, account_found: bool, key_file: Option<Seq<u8>>, formats: &Formats)
    -> core::result::Result<Option<CborValue>, Fault> {
    if !root_found {
        Ok(None)
    } else if !account_found {
        Err(Fault::Protocol("default email dir missing"@))
    } else {
        match key_file {
            None => Ok(None),
            Some(b) => match parse(b) {
                None => Err(Fault::Cbor("invalid cbor"@)),
                Some((v, n)) => match formats.value(Kind::BoxingPair, v) {
                    Ok(pair) => Ok(Some(pair)),
                    Err(f) => Err(f),
                },
            },
        }
    }
}

impl View for LoadStep {
    type V = Option<CborValue>;

    open spec fn view(&self) -> Option<CborValue> {
        match self {
            LoadStep::Initialise => None,
            LoadStep::Load(pair) => Some(pair@),
        }
    }
}

/// Loads the email client, or sets it up: by whether the root of the email data was found, the
/// directory of the account in it, and the file of the keys there.
pub fn load(root_found: bool, account_found: bool, key_file: Option<Vec<u8>>, formats: &Formats) -> (r: Result<LoadStep>)
    ensures
        agrees(r, load_step(root_found, account_found, opt(key_file), formats)),
{
    if !root_found {
        return Ok(LoadStep::Initialise);
    }
    if !account_found {
        return Err(protocol("default email dir missing"));
    }
    match key_file {
        None => Ok(LoadStep::Initialise),
        Some(b) => match CborObject::from_bytes(&b) {
            Err(e) => Err(e),
            Ok(v) => match formats.read(Kind::BoxingPair, &v) {
                Ok(pair) => Ok(LoadStep::Load(pair)),
                Err(e) => Err(e),
            },
        },
    }
}

/// The path of the pending directory, which the bridge gets a writable link to.
pub fn pending_path(username: Option<&str>) -> (r: Result<String>)
    ensures
        username is None ==> fails_protocol(r, "requires signed-in user"@),
        username matches Some(u) ==> r is Ok && r->Ok_0@ == "/"@ + u@ + "/"@ + EMAIL_ROOT@ + "/"@ + in_account(
            "pending"@,
        ),
{
    match username {
        None => Err(protocol("requires signed-in user")),
        Some(u) => {
            let root = join4("/", u, "/", EMAIL_ROOT);
            let pending = account_path("pending");
            Ok(join3(root.as_str(), "/", pending.as_str()))
        },
    }
}

/// Where `needle` first stands in `s`.
pub open spec fn text_place(s: Seq<char>, needle: Seq<char>) -> Option<int>
    decreases s.len(),
{
    if has_prefix(s, needle) {
        Some(0)
    } else if s.len() == 0 {
        None
    } else {
        match text_place(s.skip(1), needle) {
            Some(i) => Some(i + 1),
            None => None,
        }
    }
}

fn stands_here(s: &[char], needle: &[char], at: usize) -> (r: bool)
    requires
        at <= s.len(),
    ensures
        r == has_prefix(s@.skip(at as int), needle@),
{
    if needle.len() > s.len() - at {
        return false;
    }
    for i in 0..needle.len()
        invariant
            needle.len() <= s.len() - at,
            at <= s.len(),
            forall|k: int| 0 <= k < i ==> s[at + k] == needle[k],
    {
        if s[at + i] != needle[i] {
            proof {
                assert(s@.skip(at as int).take(needle@.len() as int)[i as int] != needle@[i as int]);
            }
            return false;
        }
    }
    proof {
        assert(s@.skip(at as int).take(needle@.len() as int) =~= needle@);
    }
    true
}

fn find_text(s: &[char], needle: &[char]) -> (r: Option<usize>)
    ensures
        match text_place(s@, needle@) {
            Some(i) => r is Some && r->Some_0 == i && i + needle.len() <= s.len(),
            None => r is None,
        },
{
    let mut at: usize = 0;
    proof {
        assert(s@.skip(0) =~= s@);
    }
    loop
        invariant
            at <= s.len(),
            text_place(s@, needle@) == match text_place(s@.skip(at as int), needle@) {
                Some(i) => Some(i + at),
                None => None,
            },
        decreases s.len() - at,
    {
        if stands_here(s, needle, at) {
            return Some(at);
        }
        if at == s.len() {
            return None;
        }
        proof {
            assert(s@.skip(at as int).skip(1) =~= s@.skip(at as int + 1));
        }
        at = at + 1;
    }
}

/// What follows the first `c`.
pub open spec fn behind(s: Seq<char>, c: char) -> Option<Seq<char>> {
    let i = first_place(s, c) as int;
    if i < s.len() {
        Some(s.skip(i + 1))
    } else {
        None
    }
}

/// The address in the text `{"email":"..."}`: what stands in quotes behind the colon that
/// follows the key.
pub open spec fn address_in(text: Seq<char>) -> Option<Seq<char>> {
    match text_place(text, "\"email\""@) {
        None => None,
        Some(k) => match behind(text.skip(k + 7), ':') {
            None => None,
            Some(value) => match behind(value, '"') {
                None => None,
                Some(quoted) => {
                    let end = first_place(quoted, '"') as int;
                    if end < quoted.len() {
                        Some(quoted.take(end))
                    } else {
                        None
                    }
                },
            },
        },
    }
}

fn go_behind(s: &[char], c: char) -> (r: Option<&[char]>)
    ensures
        match behind(s@, c) {
            Some(t) => r is Some && r->Some_0@ == t,
            None => r is None,
        },
{
    let i = find_first(s, c);
    if i < s.len() {
        let t = slice_chars(s, i + 1, s.len());
        proof {
            assert(t@ =~= s@.skip(i as int + 1));
        }
        Some(t)
    } else {
        None
    }
}

/// Parse the email address from the bridge's `email.json` (`{"email":"..."}`).
pub fn parse_email_json(text: &str) -> (r: Option<String>)
    ensures
        opt(r) == address_in(text@),
{
    let chars = chars_of(text);
    let key = chars_of("\"email\"");
    proof {
        reveal_strlit("\"email\"");
    }
    match find_text(&chars, &key) {
        None => None,
        Some(k) => {
            let rest = slice_chars(&chars, k + 7, chars.len());
            proof {
                assert(rest@ =~= text@.skip(k + 7));
            }
            match go_behind(rest, ':') {
                None => None,
                Some(value) => match go_behind(value, '"') {
                    None => None,
                    Some(quoted) => {
                        let end = find_first(quoted, '"');
                        if end < quoted.len() {
                            let inner = slice_chars(quoted, 0, end);
                            proof {
                                assert(inner@ =~= quoted@.take(end as int));
                            }
                            Some(text_of(inner))
                        } else {
                            None
                        }
                    },
                },
            }
        },
    }
}

/// The address that the bridge has written for the client: none, if it has written none
/// yet.
pub fn email_address(file: Option<Vec<u8>>) -> (r: Result<Option<String>>)
    ensures
        match file {
            None => r is Ok && r->Ok_0 is None,
            Some(b) => if vstd::utf8::valid_utf8(b@) {
                r is Ok && opt(r->Ok_0) == address_in(vstd::utf8::decode_utf8(b@))
            } else {
                fails_protocol(r, "email.json not UTF-8"@)
            },
        },
{
    match file {
        None => Ok(None),
        Some(b) => match utf8_text(b) {
            None => Err(protocol("email.json not UTF-8")),
            Some(t) => Ok(parse_email_json(t.as_str())),
        },
    }
}

/// Where the client keeps its things: in the directory of the default account, and what is on its
/// way under `pending`, with its attachments by their ids.
pub proof fn law_places_in_the_account(path: Seq<char>, folder: Seq<char>, uuid: Seq<char>)
    ensures
        in_account(path) == "default/"@ + path,
        pending_attachment(folder, uuid) == "default/pending/"@ + folder + "/attachments/"@ + uuid,
{
    reveal_strlit("default");
    reveal_strlit("/");
    reveal_strlit("default/");
    reveal_strlit("pending/");
    reveal_strlit("default/pending/");
    assert("default"@ + "/"@ =~= "default/"@);
    assert(in_account(path) =~= "default/"@ + path);
    assert("default/"@ + "pending/"@ =~= "default/pending/"@);
    assert(pending_attachment(folder, uuid) =~= "default/pending/"@ + folder + "/attachments/"@ + uuid);
}

/// When an account is loaded: not at all without the email directory, with an error if that has no
/// account, with a new key pair to make if there is none, and else with the stored pair.
pub proof fn law_loading_an_account(root_found: bool, account_found: bool, key_file: Option<Seq<u8>>, formats: &Formats)
    ensures
        load_step(false, account_found, key_file, formats) == Ok::<Option<CborValue>, Fault>(None),
        load_step(true, false, key_file, formats) == Err::<Option<CborValue>, Fault>(
            Fault::Protocol("default email dir missing"@),
        ),
        load_step(true, true, None, formats) == Ok::<Option<CborValue>, Fault>(None),
        key_file matches Some(b) ==> parse(b) is None ==> load_step(true, true, key_file, formats) is Err,
        key_file matches Some(b) ==> parse(b) matches Some(x) ==> formats.value(Kind::BoxingPair, x.0) matches Ok(pair)
            ==> load_step(true, true, key_file, formats) == Ok::<Option<CborValue>, Fault>(Some(pair)),
{
}

/// A text ends with what it was put together from.
pub proof fn law_suffixes(a: Seq<char>, b: Seq<char>, s: Seq<char>)
    ensures
        has_suffix(a + b, b),
        has_suffix(s, b) ==> s == s.take(s.len() - b.len()) + b,
        b.len() > s.len() ==> !has_suffix(s, b),
{
    assert((a + b).skip(a.len() as int) =~= b);
    if has_suffix(s, b) {
        assert(s =~= s.take(s.len() - b.len()) + s.skip(s.len() - b.len()));
    }
}

/// The account has a directory for the attachments of each folder that messages wait in, and every
/// directory of it comes behind the one that it is in.
pub proof fn law_account_directories(i: int)
    ensures
        account_dirs().contains("inbox"@),
        account_dirs().contains("sent"@),
        account_dirs().contains("attachments"@),
        account_dirs().contains("pending/"@ + "inbox"@ + "/attachments"@),
        account_dirs().contains("pending/"@ + "outbox"@ + "/attachments"@),
        account_dirs().contains("pending/"@ + "sent"@ + "/attachments"@),
        0 <= i < account_dirs().len() && parent_of(account_dirs()[i]).len() > 0 ==> exists|j: int|
            0 <= j < i && #[trigger] account_dirs()[j] == parent_of(account_dirs()[i]),
{
    let d = account_dirs();
    reveal_strlit("inbox");
    reveal_strlit("sent");
    reveal_strlit("outbox");
    reveal_strlit("pending");
    reveal_strlit("attachments");
    reveal_strlit("pending/");
    reveal_strlit("/attachments");
    reveal_strlit("pending/inbox");
    reveal_strlit("pending/outbox");
    reveal_strlit("pending/sent");
    reveal_strlit("pending/inbox/attachments");
    reveal_strlit("pending/outbox/attachments");
    reveal_strlit("pending/sent/attachments");
    assert(d[0] == "inbox"@ && d[1] == "sent"@ && d[3] == "attachments"@);
    assert("pending/"@ + "inbox"@ + "/attachments"@ =~= d[7]);
    assert("pending/"@ + "outbox"@ + "/attachments"@ =~= d[8]);
    assert("pending/"@ + "sent"@ + "/attachments"@ =~= d[9]);
    lemma_no_parent(d[0]);
    lemma_no_parent(d[1]);
    lemma_no_parent(d[2]);
    lemma_no_parent(d[3]);
    lemma_parent_at(d[4], 7);
    lemma_parent_at(d[5], 7);
    lemma_parent_at(d[6], 7);
    lemma_parent_at(d[7], 13);
    lemma_parent_at(d[8], 14);
    lemma_parent_at(d[9], 12);
    assert(d[4].take(7) =~= d[2] && d[5].take(7) =~= d[2] && d[6].take(7) =~= d[2]);
    assert(d[7].take(13) =~= d[4] && d[8].take(14) =~= d[5] && d[9].take(12) =~= d[6]);
}

proof fn lemma_no_parent(s: Seq<char>)
    requires
        forall|k: int| 0 <= k < s.len() ==> s[k] != '/',
    ensures
        parent_of(s).len() == 0,
{
    lemma_last_place(s, '/');
}

proof fn lemma_parent_at(s: Seq<char>, i: int)
    requires
        0 <= i < s.len(),
        s[i] == '/',
        forall|k: int| i < k < s.len() ==> s[k] != '/',
    ensures
        parent_of(s) == s.take(i),
{
    lemma_last_place(s, '/');
}

/// Where the email app keeps its data, and under which names.
pub proof fn law_names_of_email_files()
    ensures
        EMAIL_ROOT@ == ".apps/email/data"@,
        KEYPAIR_PATH@ == "encryption.keypair.cbor"@,
        PUBLIC_KEY_FILENAME@ == "encryption.publickey.cbor"@,
        CLIENT_EMAIL_FILENAME@ == "email.json"@,
{
}

/// A message that was opened is the one that was sealed, and what does not open or is none is passed
/// over.
pub proof fn law_opened_email(m: EmailView, b: Seq<u8>)
    ensures
        representable(email_cbor(m)) ==> opened_email(Some(encode(email_cbor(m)))) == Some(m),
        opened_email(None) is None,
        parse(b) is None ==> opened_email(Some(b)) is None,
        parse(b) matches Some(v) ==> email_from(v.0) is Err ==> opened_email(Some(b)) is None,
{
    if representable(email_cbor(m)) {
        law_email_is_read_back(m);
    }
}

} // verus!
