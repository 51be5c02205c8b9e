//! Capabilities and secret links.
//!
//! An [`AbsoluteCapability`] is a complete cryptographic capability to read (and
//! optionally write) a file or folder: the owner/writer keys, the map-key locating
//! the cryptree node, an optional BAT, and the base symmetric key(s).
//!
//! A [`SecretLink`] is the shareable link; the server stores an
//! [`EncryptedCapability`] under a label, which the link password decrypts.
use vstd::prelude::*;
use crate::bytes::{le_value, read_le};
use crate::cbor::{map_put, map_put_opt, CborObject, CborValue};
use crate::error::{agrees, cbor_error, error_is, opt, protocol, protocol_of, Error, Fault, Result};
use crate::opaque::{dup_opt, opt_cbor, Bat, CipherText, Formats, Kind, PublicKeyHash, SymmetricKey};
use crate::paths::{has_prefix, lemma_split_join, slice_chars, split, split_chars, texts};
use crate::text::{
    chars_of, copy_bytes, decimal, decimal_i64, decimal_int, decimal_text, find_first, first_place, int_text,
    join2, law_int_text_round_trip, lemma_first_place, parse_i64, text_of,
};

verus! {

broadcast use crate::cbor::group_cbor;

/// The alphabet for a link password.
pub const PASSWORD_CHARACTERS: &'static str = "abcdefghijklmnopqrstuvwxyzABCDEFGHIJKLMNOPQRSTUVWXYZ0123456789";

pub const MAP_KEY_LENGTH: usize = 32;

/// The link-password scrypt parameters.
pub const LINK_MEMORY_COST: u8 = 15;
pub const LINK_CPU_COST: u32 = 8;
pub const LINK_PARALLELISM: u32 = 1;
pub const LINK_OUTPUT_BYTES: usize = 32;

/// A location: owner + writer + map-key.
#[derive(Debug, PartialEq, Eq)]
pub struct Location {
    pub owner: PublicKeyHash,
    pub writer: PublicKeyHash,
    pub map_key: Vec<u8>,
}

/// A complete capability to read/write a file or folder.
#[derive(Debug, PartialEq, Eq)]
pub struct AbsoluteCapability {
    pub owner: PublicKeyHash,
    pub writer: PublicKeyHash,
    pub map_key: Vec<u8>,
    pub bat: Option<Bat>,
    pub r_base_key: SymmetricKey,
    pub w_base_key: Option<SymmetricKey>,
}

/// The content of an [`AbsoluteCapability`].
pub ghost struct CapView {
    pub owner: CborValue,
    pub writer: CborValue,
    pub map_key: Seq<u8>,
    pub bat: Option<CborValue>,
    pub r_base_key: CborValue,
    pub w_base_key: Option<CborValue>,
}

impl View for AbsoluteCapability {
    type V = CapView;

    open spec fn view(&self) -> CapView {
        CapView {
            owner: self.owner@,
            writer: self.writer@,
            map_key: self.map_key@,
            bat: opt(self.bat),
            r_base_key: self.r_base_key@,
            w_base_key: opt(self.w_base_key),
        }
    }
}

impl CapView {
    /// The capability without write access.
    pub open spec fn read_only(self) -> CapView {
        CapView { w_base_key: None, ..self }
    }

    /// Whether the capability grants write access.
    pub open spec fn is_writable(self) -> bool {
        self.w_base_key is Some
    }
}

/// A capability with these parts: its map key has to have the right length.
pub open spec fn checked_cap(c: CapView) -> core::result::Result<CapView, Fault> {
    if c.map_key.len() != MAP_KEY_LENGTH {
        Err(Fault::Protocol("Invalid map key length: "@ + decimal(c.map_key.len())))
    } else {
        Ok(c)
    }
}

/// The CBOR of a capability.
pub open spec fn cap_cbor(c: CapView) -> CborValue {
    let e = map_put(Seq::empty(), "o"@, c.owner);
    let e = map_put(e, "w"@, c.writer);
    let e = map_put(e, "m"@, CborValue::ByteString(c.map_key));
    let e = map_put_opt(e, "a"@, c.bat);
    let e = map_put(e, "k"@, c.r_base_key);
    CborValue::Mapping(map_put_opt(e, "b"@, c.w_base_key))
}

/// The capability that a value describes. `formats` says which of its keys are malformed.
pub open spec fn cap_from(v: CborValue, formats: &Formats) -> core::result::Result<CapView, Fault> {
    match formats.value_at(v, "o"@, Kind::KeyHash) {
        Err(f) => Err(f),
        Ok(None) => Err(Fault::Cbor("cap missing 'o'"@)),
        Ok(Some(owner)) => match formats.value_at(v, "w"@, Kind::KeyHash) {
            Err(f) => Err(f),
            Ok(None) => Err(Fault::Cbor("cap missing 'w'"@)),
            Ok(Some(writer)) => match v.bytes_at("m"@) {
                None => Err(Fault::Cbor("cap missing 'm'"@)),
                Some(map_key) => match formats.value_at(v, "a"@, Kind::Bat) {
                    Err(f) => Err(f),
                    Ok(bat) => match formats.value_at(v, "k"@, Kind::SymmetricKey) {
                        Err(f) => Err(f),
                        Ok(None) => Err(Fault::Cbor("cap missing 'k'"@)),
                        Ok(Some(r_base_key)) => match formats.value_at(v, "b"@, Kind::SymmetricKey) {
                            Err(f) => Err(f),
                            Ok(w_base_key) => checked_cap(CapView { owner, writer, map_key, bat, r_base_key, w_base_key }),
                        },
                    },
                },
            },
        },
    }
}

/// A capability whose map key has the right length, and whose keys are well formed.
pub open spec fn is_readable_cap(c: CapView, formats: &Formats) -> bool {
    &&& c.map_key.len() == MAP_KEY_LENGTH
    &&& formats.accepts(Kind::KeyHash, c.owner)
    &&& formats.accepts(Kind::KeyHash, c.writer)
    &&& formats.accepts_opt(Kind::Bat, c.bat)
    &&& formats.accepts(Kind::SymmetricKey, c.r_base_key)
    &&& formats.accepts_opt(Kind::SymmetricKey, c.w_base_key)
}

impl AbsoluteCapability {
    pub fn new(
        owner: PublicKeyHash,
        writer: PublicKeyHash,
        map_key: Vec<u8>,
        bat: Option<Bat>,
        r_base_key: SymmetricKey,
        w_base_key: Option<SymmetricKey>,
    ) -> (r: Result<AbsoluteCapability>)
        ensures
            agrees(
                r,
                checked_cap(
                    (CapView {
                        owner: owner@,
                        writer: writer@,
                        map_key: map_key@,
                        bat: opt(bat),
                        r_base_key: r_base_key@,
                        w_base_key: opt(w_base_key),
                    }),
                ),
            ),
    {
        if map_key.len() != MAP_KEY_LENGTH {
            return Err(protocol_of("Invalid map key length: ", decimal_text(map_key.len() as u64).as_str()));
        }
        Ok(AbsoluteCapability { owner, writer, map_key, bat, r_base_key, w_base_key })
    }

    /// Where the capability points.
    pub fn location(&self) -> (r: Location)
        ensures
            r.owner@ == self@.owner,
            r.writer@ == self@.writer,
            r.map_key@ == self@.map_key,
    {
        Location { owner: self.owner.dup(), writer: self.writer.dup(), map_key: copy_bytes(&self.map_key) }
    }

    /// Whether the capability grants write access.
    pub fn is_writable(&self) -> (r: bool)
        ensures
            r == self@.is_writable(),
    {
        self.w_base_key.is_some()
    }

    /// A read-only view of this capability: drops the write-base key, keeping
    /// owner/writer/map-key/BAT/read key.
    pub fn read_only(&self) -> (r: AbsoluteCapability)
        ensures
            r@ == self@.read_only(),
    {
        AbsoluteCapability {
            owner: self.owner.dup(),
            writer: self.writer.dup(),
            map_key: copy_bytes(&self.map_key),
            bat: dup_opt(&self.bat),
            r_base_key: self.r_base_key.dup(),
            w_base_key: None,
        }
    }

    /// A copy of this capability.
    pub fn dup(&self) -> (r: AbsoluteCapability)
        ensures
            r@ == self@,
    {
        AbsoluteCapability {
            owner: self.owner.dup(),
            writer: self.writer.dup(),
            map_key: copy_bytes(&self.map_key),
            bat: dup_opt(&self.bat),
            r_base_key: self.r_base_key.dup(),
            w_base_key: dup_opt(&self.w_base_key),
        }
    }

    /// Reads a capability. `formats` says which of its keys are malformed.
    pub fn from_cbor(cbor: &CborObject, formats: &Formats) -> (r: Result<AbsoluteCapability>)
        ensures
            agrees(r, cap_from(cbor@, formats)),
    {
        let owner = match formats.read_at(cbor, "o", Kind::KeyHash) {
            Ok(Some(x)) => x,
            Ok(None) => {
                return Err(cbor_error("cap missing 'o'"));
            },
            Err(e) => {
                return Err(e);
            },
        };
        let writer = match formats.read_at(cbor, "w", Kind::KeyHash) {
            Ok(Some(x)) => x,
            Ok(None) => {
                return Err(cbor_error("cap missing 'w'"));
            },
            Err(e) => {
                return Err(e);
            },
        };
        let map_key = match cbor.bytes_at("m") {
            Some(x) => x,
            None => {
                return Err(cbor_error("cap missing 'm'"));
            },
        };
        let bat = match formats.read_at(cbor, "a", Kind::Bat) {
            Ok(x) => x,
            Err(e) => {
                return Err(e);
            },
        };
        let r_base_key = match formats.read_at(cbor, "k", Kind::SymmetricKey) {
            Ok(Some(x)) => x,
            Ok(None) => {
                return Err(cbor_error("cap missing 'k'"));
            },
            Err(e) => {
                return Err(e);
            },
        };
        let w_base_key = match formats.read_at(cbor, "b", Kind::SymmetricKey) {
            Ok(x) => x,
            Err(e) => {
                return Err(e);
            },
        };
        AbsoluteCapability::new(owner, writer, map_key, bat, r_base_key, w_base_key)
    }

    pub fn to_cbor(&self) -> (r: CborObject)
        ensures
            r@ == cap_cbor(self@),
    {
        CborObject::map().put("o", self.owner.to_cbor()).put("w", self.writer.to_cbor()).put(
            "m",
            CborObject::ByteString(copy_bytes(&self.map_key)),
        ).put_opt("a", opt_cbor(&self.bat)).put("k", self.r_base_key.to_cbor()).put_opt(
            "b",
            opt_cbor(&self.w_base_key),
        ).build()
    }
}

/// A capability is read back from its CBOR as it was.
pub proof fn law_cap_round_trip(c: CapView, formats: &Formats)
    requires
        is_readable_cap(c, formats),
    ensures
        cap_from(cap_cbor(c), formats) == Ok::<CapView, Fault>(c),
{
    reveal_strlit("o");
    reveal_strlit("w");
    reveal_strlit("m");
    reveal_strlit("a");
    reveal_strlit("k");
    reveal_strlit("b");
    assert("o"@[0] == 'o' && "w"@[0] == 'w' && "m"@[0] == 'm' && "a"@[0] == 'a' && "k"@[0] == 'k' && "b"@[0] == 'b');
}

/// A shareable secret link: `secret/z<owner-cid>/<label>#<password>`. The owner is
/// kept as the text of its key hash, which holds none of the separators: see
/// [`SecretLink::wf`].
#[derive(Debug, PartialEq, Eq)]
pub struct SecretLink {
    pub owner: String,
    pub label: i64,
    pub link_password: String,
}

/// The link as text.
pub open spec fn link_text(owner: Seq<char>, label: int, password: Seq<char>) -> Seq<char> {
    "secret/"@ + owner + "/"@ + decimal_int(label) + "#"@ + password
}

/// `needle` stands in `s` at `i`.
pub open spec fn stands_at(s: Seq<char>, needle: Seq<char>, i: int) -> bool {
    0 <= i && i + needle.len() <= s.len() && s.subrange(i, i + needle.len()) == needle
}

/// Where the part of a link that counts starts: at the first `secret/`, or behind one
/// leading slash.
#[verifier::opaque]
pub open spec fn link_start(s: Seq<char>) -> int {
    if exists|i: int| stands_at(s, "secret/"@, i) {
        choose|i: int| stands_at(s, "secret/"@, i) && forall|k: int| 0 <= k < i ==> !stands_at(s, "secret/"@, k)
    } else if s.len() > 0 && s[0] == '/' {
        1
    } else {
        0
    }
}

/// The password in the fragment of a link: what follows a question mark is dropped.
pub open spec fn link_fragment(s: Seq<char>) -> Seq<char> {
    s.take(first_place(s, '?') as int)
}

/// The parts of a link, as texts: the owner, the label and the password.
pub open spec fn link_parts(text: Seq<char>) -> core::result::Result<(Seq<char>, Seq<char>, Seq<char>), Fault> {
    let s = text.skip(link_start(text));
    let hash = first_place(s, '#') as int;
    let parts = split(s.take(hash), '/');
    if hash == s.len() {
        Err(Fault::Protocol("Invalid secret link: no fragment"@))
    } else if parts.len() != 3 {
        Err(Fault::Protocol("Invalid secret link"@))
    } else {
        Ok((parts[1], parts[2], link_fragment(s.skip(hash + 1))))
    }
}

/// The link with these parts: its label has to be a positive number.
pub open spec fn labelled_link(owner: Seq<char>, label: Seq<char>, password: Seq<char>) -> core::result::Result<
    (Seq<char>, int, Seq<char>),
    Fault,
> {
    if int_text(label) is None {
        Err(Fault::Protocol("Invalid secret link label"@))
    } else if int_text(label)->Some_0 <= 0 {
        Err(Fault::Protocol("Link labels must be positive!"@))
    } else {
        Ok((owner, int_text(label)->Some_0, password))
    }
}

/// The link that a text with a valid owner spells: (owner, label, password).
pub open spec fn link_from(text: Seq<char>) -> core::result::Result<(Seq<char>, int, Seq<char>), Fault> {
    match link_parts(text) {
        Err(f) => Err(f),
        Ok((owner, label, password)) => labelled_link(owner, label, password),
    }
}

/// A text without the separators of a link.
pub open spec fn is_plain_owner(owner: Seq<char>) -> bool {
    !owner.contains('/') && !owner.contains('#')
}

/// A link (owner, label, password) that its text spells again.
pub open spec fn is_spelled(l: (Seq<char>, int, Seq<char>)) -> bool {
    &&& is_plain_owner(l.0)
    &&& 0 < l.1 <= i64::MAX
    &&& !l.2.contains('?')
}

impl View for SecretLink {
    type V = (Seq<char>, int, Seq<char>);

    open spec fn view(&self) -> (Seq<char>, int, Seq<char>) {
        (self.owner@, self.label as int, self.link_password@)
    }
}

/// Whether `needle` stands in `s` at `i`.
fn is_at(s: &[char], needle: &[char], i: usize) -> (r: bool)
    requires
        i <= s.len(),
    ensures
        r == stands_at(s@, needle@, i as int),
{
    if needle.len() > s.len() - i {
        return false;
    }
    for k in 0..needle.len()
        invariant
            i + needle.len() <= s.len(),
            forall|j: int| 0 <= j < k ==> s[i + j] == needle[j],
    {
        if s[i + k] != needle[k] {
            proof {
                assert(s@.subrange(i as int, i + needle.len())[k as int] != needle@[k as int]);
            }
            return false;
        }
    }
    proof {
        assert(s@.subrange(i as int, i + needle.len()) =~= needle@);
    }
    true
}

/// Where the part of a link that counts starts.
fn find_link(s: &[char]) -> (r: usize)
    ensures
        r == link_start(s@),
        r <= s.len(),
{
    proof {
        reveal(link_start);
    }
    let needle = chars_of("secret/");
    let mut i: usize = 0;
    while i < s.len()
        invariant
            i <= s.len(),
            needle@ == "secret/"@,
            forall|k: int| 0 <= k < i ==> !stands_at(s@, "secret/"@, k),
        decreases s.len() - i,
    {
        if is_at(s, &needle, i) {
            proof {
                reveal(link_start);
                let c = link_start(s@);
                assert(stands_at(s@, "secret/"@, i as int));
                assert(stands_at(s@, "secret/"@, c) && forall|k: int|
                    0 <= k < c ==> !stands_at(s@, "secret/"@, k));
            }
            return i;
        }
        i += 1;
    }
    proof {
        reveal_strlit("secret/");
        assert forall|k: int| !stands_at(s@, "secret/"@, k) by {
            if k >= s.len() {
                assert("secret/"@.len() == 7);
            }
        }
    }
    if s.len() > 0 && s[0] == '/' {
        1
    } else {
        0
    }
}

/// The character of a link password for a random byte.
pub open spec fn password_char(b: u8) -> char {
    PASSWORD_CHARACTERS@[b as int % 62]
}

/// The label of a link for four random bytes: they never give 0.
pub open spec fn random_label(b: Seq<u8>) -> int {
    if le_value(b) == 0 {
        1
    } else {
        le_value(b) as int
    }
}

impl SecretLink {
    /// A link that its text spells again: the owner is free of the separators, the label is
    /// positive, and the password does not run into a query. Every link that is read has it,
    /// and so has a fresh one for the text of a key hash.
    pub open spec fn wf(self) -> bool {
        is_spelled(self@)
    }

    /// The label as text.
    pub fn label_string(&self) -> (r: String)
        ensures
            r@ == decimal_int(self.label as int),
    {
        decimal_i64(self.label)
    }

    /// A fresh link from random bytes: a positive 32-bit label and a 12-character
    /// password.
    pub fn create(owner: String, label_bytes: &[u8], password_bytes: &[u8]) -> (r: SecretLink)
        requires
            label_bytes.len() == 4,
            password_bytes.len() == 12,
        ensures
            r.owner == owner,
            r.label == random_label(label_bytes@),
            0 < r.label < 0x1_0000_0000,
            r.link_password@ == Seq::new(12, |i: int| password_char(password_bytes[i])),
            is_plain_owner(owner@) ==> r.wf(),
    {
        proof {
            lemma_password_chars(password_bytes@);
            assert(label_bytes@.subrange(0, 4) =~= label_bytes@);
            crate::bytes::lemma_pow256();
        }
        let n: u64 = read_le(label_bytes, 0, 4);
        let label: i64 = if n == 0 { 1 } else { n as i64 };
        SecretLink { owner, label, link_password: create_link_password(password_bytes) }
    }

    /// The shareable link string `secret/z<owner>/<label>#<password>`.
    pub fn to_link(&self) -> (r: String)
        ensures
            r@ == link_text(self.owner@, self.label as int, self.link_password@),
    {
        let mut s = join2("secret/", self.owner.as_str());
        s.append("/");
        s.append(self.label_string().as_str());
        s.append("#");
        s.append(self.link_password.as_str());
        s
    }

    /// The parts of a link: the texts of its owner, its label and its password. Accepts a
    /// bare `secret/...` path or a full URL containing `secret/` (with an optional leading
    /// `/`).
    fn parts_of(link: &str) -> (r: Result<(String, String, String)>)
        ensures
            match link_parts(link@) {
                Ok(p) => r is Ok && (r->Ok_0.0@, r->Ok_0.1@, r->Ok_0.2@) == p,
                Err(f) => r is Err && error_is(r->Err_0, f),
            },
    {
        let all = chars_of(link);
        let start: usize = find_link(&all);
        let s = slice_chars(&all, start, all.len());
        proof {
            assert(s@ =~= link@.skip(link_start(link@)));
        }
        let hash: usize = find_first(s, '#');
        if hash == s.len() {
            return Err(protocol("Invalid secret link: no fragment"));
        }
        let fragment = slice_chars(s, hash + 1, s.len());
        proof {
            assert(fragment@ =~= s@.skip(hash + 1));
        }
        let query: usize = find_first(fragment, '?');
        let password = text_of(slice_chars(fragment, 0, query));
        proof {
            assert(password@ =~= link_fragment(fragment@));
            assert(s@.subrange(0, hash as int) =~= s@.take(hash as int));
        }
        let parts = split_chars(slice_chars(s, 0, hash), '/');
        let ghost pv = texts(parts@);
        if parts.len() != 3 {
            return Err(protocol("Invalid secret link"));
        }
        proof {
            assert(pv[1] == parts@[1]@ && pv[2] == parts@[2]@);
        }
        Ok((parts[1].clone(), parts[2].clone(), password))
    }

    /// The owner that a link names, as text: the caller decodes it.
    pub fn owner_of(link: &str) -> (r: Result<String>)
        ensures
            match link_parts(link@) {
                Ok(p) => r is Ok && r->Ok_0@ == p.0,
                Err(f) => r is Err && error_is(r->Err_0, f),
            },
    {
        match SecretLink::parts_of(link) {
            Ok((owner, _, _)) => Ok(owner),
            Err(e) => Err(e),
        }
    }

    /// Parse a secret link. Accepts a bare `secret/...` path or a full URL containing
    /// `secret/` (with an optional leading `/`). `decoded` is what decoding the text of its
    /// owner came to: where that is no key hash, neither is this a link.
    pub fn from_link(link: &str, decoded: Result<PublicKeyHash>) -> (r: Result<SecretLink>)
        ensures
            match link_parts(link@) {
                Err(f) => r is Err && error_is(r->Err_0, f),
                Ok((owner, label, password)) => match decoded {
                    Err(e) => r == Err::<SecretLink, Error>(e),
                    Ok(hash) => agrees(r, labelled_link(owner, label, password)),
                },
            },
            decoded is Ok ==> agrees(r, link_from(link@)),
            r is Ok ==> r->Ok_0.wf(),
    {
        proof {
            lemma_link_is_spelled(link@);
        }
        let (owner, label, password) = match SecretLink::parts_of(link) {
            Ok(p) => p,
            Err(e) => {
                return Err(e);
            },
        };
        match decoded {
            Ok(_) => {},
            Err(e) => {
                return Err(e);
            },
        }
        match parse_i64(label.as_str()) {
            None => Err(protocol("Invalid secret link label")),
            Some(n) => {
                if n <= 0 {
                    return Err(protocol("Link labels must be positive!"));
                }
                Ok(SecretLink { owner, label: n, link_password: password })
            },
        }
    }
}

/// The link starts behind what stands before it.
proof fn lemma_link_start(before: Seq<char>, rest: Seq<char>)
    requires
        forall|k: int| !stands_at(before, "secret/"@, k),
        has_prefix(rest, "secret/"@),
    ensures
        link_start(before + rest) == before.len(),
{
    reveal(link_start);
    reveal_strlit("secret/");
    let t = before + rest;
    let n = before.len() as int;
    assert(t.subrange(n, n + 7) =~= rest.take(7));
    assert(stands_at(t, "secret/"@, n));
    assert forall|k: int| 0 <= k < n implies !stands_at(t, "secret/"@, k) by {
        if stands_at(t, "secret/"@, k) {
            let w = t.subrange(k, k + 7);
            if k + 7 <= n {
                assert(before.subrange(k, k + 7) =~= w);
                assert(stands_at(before, "secret/"@, k));
            } else {
                assert(w[6] == '/');
                assert(t[k + 6] == rest.take(7)[k + 6 - n]);
            }
        }
    }
    let c = link_start(t);
    assert(stands_at(t, "secret/"@, c) && forall|k: int| 0 <= k < c ==> !stands_at(t, "secret/"@, k));
    if c > n {
        assert(!stands_at(t, "secret/"@, n));
    }
}

/// What stands before the password of a link, and what the password is.
proof fn lemma_link_fragment(head: Seq<char>, password: Seq<char>, after: Seq<char>)
    requires
        !head.contains('#'),
        !password.contains('?'),
        after.len() == 0 || after[0] == '?',
    ensures
        ({
            let s = head.push('#') + password + after;
            &&& first_place(s, '#') == head.len()
            &&& s.take(head.len() as int) == head
            &&& link_fragment(s.skip(head.len() as int + 1)) == password
        }),
{
    let s = head.push('#') + password + after;
    let hash = head.len() as int;
    assert forall|i: int| 0 <= i < hash implies s[i] != '#' by {
        assert(s[i] == head[i]);
        assert(head.contains(head[i]));
    }
    assert(s[hash] == '#');
    lemma_first_place(s, '#', hash);
    assert(s.take(hash) =~= head);
    let f = s.skip(hash + 1);
    assert(f =~= password + after);
    assert forall|i: int| 0 <= i < password.len() implies f[i] != '?' by {
        assert(password.contains(password[i]));
    }
    lemma_first_place(f, '?', password.len() as int);
    assert(f.take(password.len() as int) =~= password);
}

/// The components of a link before its password.
proof fn lemma_link_head(owner: Seq<char>, label: int)
    requires
        0 < label <= i64::MAX,
        !owner.contains('/') && !owner.contains('#'),
    ensures
        ({
            let head = "secret/"@ + owner + "/"@ + decimal_int(label);
            &&& !head.contains('#')
            &&& split(head, '/') == seq![seq!['s', 'e', 'c', 'r', 'e', 't'], owner, decimal_int(label)]
        }),
{
    reveal_strlit("secret/");
    reveal_strlit("/");
    let d = decimal_int(label);
    crate::text::lemma_decimal_value(label as nat);
    let head = "secret/"@ + owner + "/"@ + d;
    assert forall|i: int| 0 <= i < head.len() implies head[i] != '#' by {
        if i < 7 {
            assert(head[i] == "secret/"@[i]);
        } else if i < 7 + owner.len() {
            assert(head[i] == owner[i - 7]);
            assert(owner.contains(owner[i - 7]));
        } else if i == 7 + owner.len() {
            assert(head[i] == '/');
        } else {
            assert(head[i] == d[i - 8 - owner.len()]);
            assert(48 <= d[i - 8 - owner.len()] as u32);
        }
    }
    let first = seq!['s', 'e', 'c', 'r', 'e', 't'];
    let parts = seq![first, owner, d];
    assert(crate::paths::join(parts, '/') =~= head) by {
        reveal_with_fuel(crate::paths::join, 4);
        assert(parts.drop_last() =~= seq![first, owner]);
        assert(parts.drop_last().drop_last() =~= seq![first]);
        assert(crate::paths::join(parts.drop_last(), '/') =~= first.push('/') + owner);
        assert(first.push('/') =~= "secret/"@);
    }
    assert forall|i: int| 0 <= i < parts.len() implies !(#[trigger] parts[i]).contains('/') by {
        if i == 2 {
            if d.contains('/') {
                let k = choose|k: int| 0 <= k < d.len() && d[k] == '/';
                assert(48 <= d[k] as u32);
            }
        }
    }
    lemma_split_join(parts, '/');
}

/// A link is read back from its text, wherever that stands: `before` may be any host and path
/// that do not hold `secret/` themselves, and `after` a query.
pub proof fn law_link_round_trip(before: Seq<char>, l: SecretLink, after: Seq<char>)
    requires
        forall|k: int| !stands_at(before, "secret/"@, k),
        l.wf(),
        after.len() == 0 || after[0] == '?',
    ensures
        link_from(before + link_text(l.owner@, l.label as int, l.link_password@) + after) == Ok::<
            (Seq<char>, int, Seq<char>),
            Fault,
        >(l@),
{
    lemma_link_round_trip(before, l@, after);
}

/// Whatever text a link is read from, the text that is written for it is read as the same
/// link.
pub proof fn law_link_is_read_again(text: Seq<char>)
    requires
        link_from(text) is Ok,
    ensures
        ({
            let l = link_from(text)->Ok_0;
            link_from(link_text(l.0, l.1, l.2)) == link_from(text)
        }),
{
    let l = link_from(text)->Ok_0;
    lemma_link_is_spelled(text);
    assert forall|k: int| !stands_at(Seq::<char>::empty(), "secret/"@, k) by {
        reveal_strlit("secret/");
    }
    lemma_link_round_trip(Seq::empty(), l, Seq::empty());
    assert(Seq::<char>::empty() + link_text(l.0, l.1, l.2) + Seq::<char>::empty() =~= link_text(l.0, l.1, l.2));
}

/// A link that was read is one that its text spells again.
proof fn lemma_link_is_spelled(text: Seq<char>)
    ensures
        link_from(text) is Ok ==> is_spelled(link_from(text)->Ok_0),
{
    if link_from(text) is Ok {
        let s = text.skip(link_start(text));
        let hash = first_place(s, '#') as int;
        let head = s.take(hash);
        let f = s.skip(hash + 1);
        crate::text::lemma_first_is_least(s, '#');
        crate::text::lemma_first_is_least(f, '?');
        crate::paths::lemma_split_pieces(head, '/');
        assert(!split(head, '/')[1].contains('/'));
        if split(head, '/')[1].contains('#') {
            crate::paths::lemma_split_chars(head, '/', 1, '#');
            let k = choose|k: int| 0 <= k < head.len() && head[k] == '#';
            assert(s[k] == '#');
        }
        let q = first_place(f, '?') as int;
        if f.take(q).contains('?') {
            let k = choose|k: int| 0 <= k < f.take(q).len() && f.take(q)[k] == '?';
            assert(f[k] == '?');
        }
    }
}

/// The characters of a password are letters and digits.
proof fn lemma_password_chars(b: Seq<u8>)
    requires
        b.len() == 12,
    ensures
        !Seq::new(12, |i: int| password_char(b[i])).contains('?'),
{
    let p = Seq::new(12, |i: int| password_char(b[i]));
    reveal_strlit("abcdefghijklmnopqrstuvwxyzABCDEFGHIJKLMNOPQRSTUVWXYZ0123456789");
    let t = PASSWORD_CHARACTERS@;
    assert forall|k: int| 0 <= k < 62 implies t[k] != '?' by {}
    if p.contains('?') {
        let k = choose|k: int| 0 <= k < 12 && p[k] == '?';
        assert(p[k] == t[b[k] as int % 62]);
    }
}

proof fn lemma_link_round_trip(before: Seq<char>, l: (Seq<char>, int, Seq<char>), after: Seq<char>)
    requires
        forall|k: int| !stands_at(before, "secret/"@, k),
        is_spelled(l),
        after.len() == 0 || after[0] == '?',
    ensures
        link_from(before + link_text(l.0, l.1, l.2) + after) == Ok::<(Seq<char>, int, Seq<char>), Fault>(l),
{
    let (owner, label, password) = l;
    let rest = ("secret/"@ + owner + "/"@ + decimal_int(label)).push('#') + password + after;
    lemma_link_text(owner, label, password, after);
    lemma_behind(before, link_text(owner, label, password), after, rest);
    lemma_link_start(before, rest);
    lemma_link_from_rest(before + link_text(owner, label, password) + after, before.len() as int, l, after);
}

proof fn lemma_link_from_rest(t: Seq<char>, n: int, l: (Seq<char>, int, Seq<char>), after: Seq<char>)
    requires
        is_spelled(l),
        after.len() == 0 || after[0] == '?',
        link_start(t) == n,
        t.skip(n) == ("secret/"@ + l.0 + "/"@ + decimal_int(l.1)).push('#') + l.2 + after,
    ensures
        link_from(t) == Ok::<(Seq<char>, int, Seq<char>), Fault>(l),
{
    let head = "secret/"@ + l.0 + "/"@ + decimal_int(l.1);
    lemma_link_head(l.0, l.1);
    lemma_link_fragment(head, l.2, after);
    lemma_link_parts(t, n, head, l.2);
    law_int_text_round_trip(l.1);
    lemma_link_labelled(t, l.0, decimal_int(l.1), l.2);
}

proof fn lemma_link_labelled(t: Seq<char>, owner: Seq<char>, label: Seq<char>, password: Seq<char>)
    requires
        link_parts(t) == Ok::<(Seq<char>, Seq<char>, Seq<char>), Fault>((owner, label, password)),
        int_text(label) is Some,
        int_text(label)->Some_0 > 0,
    ensures
        link_from(t) == Ok::<(Seq<char>, int, Seq<char>), Fault>((owner, int_text(label)->Some_0, password)),
{
}

proof fn lemma_behind(before: Seq<char>, link: Seq<char>, after: Seq<char>, rest: Seq<char>)
    requires
        link + after == rest,
    ensures
        before + link + after == before + rest,
        (before + link + after).skip(before.len() as int) == rest,
{
    assert(before + link + after =~= before + rest);
    assert((before + rest).skip(before.len() as int) =~= rest);
}

proof fn lemma_link_parts(t: Seq<char>, n: int, head: Seq<char>, password: Seq<char>)
    requires
        link_start(t) == n,
        first_place(t.skip(n), '#') == head.len(),
        head.len() < t.skip(n).len(),
        t.skip(n).take(head.len() as int) == head,
        split(head, '/').len() == 3,
        link_fragment(t.skip(n).skip(head.len() as int + 1)) == password,
    ensures
        link_parts(t) == Ok::<(Seq<char>, Seq<char>, Seq<char>), Fault>((split(head, '/')[1], split(head, '/')[2], password)),
{
}

proof fn lemma_link_text(owner: Seq<char>, label: int, password: Seq<char>, after: Seq<char>)
    ensures
        ({
            let head = "secret/"@ + owner + "/"@ + decimal_int(label);
            let rest = head.push('#') + password + after;
            &&& link_text(owner, label, password) + after == rest
            &&& has_prefix(rest, "secret/"@)
        }),
{
    let head = "secret/"@ + owner + "/"@ + decimal_int(label);
    let rest = head.push('#') + password + after;
    reveal_strlit("#");
    assert(head + "#"@ =~= head.push('#'));
    assert(rest.take("secret/"@.len() as int) =~= "secret/"@);
}

/// 12 characters from `[a-zA-Z0-9]` (~2^72 of entropy), one for each random byte.
fn create_link_password(bytes: &[u8]) -> (r: String)
    requires
        bytes.len() == 12,
    ensures
        r@ == Seq::new(12, |i: int| password_char(bytes[i])),
{
    proof {
        reveal_strlit("abcdefghijklmnopqrstuvwxyzABCDEFGHIJKLMNOPQRSTUVWXYZ0123456789");
    }
    let alphabet = chars_of(PASSWORD_CHARACTERS);
    let mut out = String::new();
    for i in 0..bytes.len()
        invariant
            alphabet@ == PASSWORD_CHARACTERS@,
            alphabet.len() == 62,
            out@ == Seq::new(i as nat, |k: int| password_char(bytes[k])),
    {
        out.push(alphabet[bytes[i] as usize % 62]);
        proof {
            assert(out@ =~= Seq::new((i + 1) as nat, |k: int| password_char(bytes[k])));
        }
    }
    out
}

/// The encrypted capability stored by the server behind a secret-link label.
#[derive(Debug, PartialEq, Eq)]
pub struct EncryptedCapability {
    pub payload: CipherText,
    pub has_user_password: bool,
}

impl View for EncryptedCapability {
    type V = (CborValue, bool);

    open spec fn view(&self) -> (CborValue, bool) {
        (self.payload@, self.has_user_password)
    }
}

/// The CBOR of an encrypted capability: the flag is only present when it is set.
pub open spec fn encrypted_cbor(payload: CborValue, has_user_password: bool) -> CborValue {
    let e = map_put(Seq::empty(), "c"@, payload);
    CborValue::Mapping(
        if has_user_password {
            map_put(e, "p"@, CborValue::Boolean(true))
        } else {
            e
        },
    )
}

/// The encrypted capability that a value describes.
pub open spec fn encrypted_from(v: CborValue, formats: &Formats) -> core::result::Result<(CborValue, bool), Fault> {
    match formats.value_at(v, "c"@, Kind::CipherText) {
        Err(f) => Err(f),
        Ok(None) => Err(Fault::Cbor("EncryptedCapability missing 'c'"@)),
        Ok(Some(c)) => Ok((c, v.bool_at("p"@) == Some(true))),
    }
}

/// The password that opens a link, which may ask for a user password on top of its own.
pub open spec fn opening_password(asks: bool, link_password: Seq<char>, user_password: Option<Seq<char>>) -> core::result::Result<
    Seq<char>,
    Fault,
> {
    if !asks {
        Ok(link_password)
    } else {
        match user_password {
            None => Err(Fault::Protocol("Secret link requires a user password"@)),
            Some(u) => Ok(link_password + u),
        }
    }
}

impl EncryptedCapability {
    pub fn from_cbor(cbor: &CborObject, formats: &Formats) -> (r: Result<EncryptedCapability>)
        ensures
            agrees(r, encrypted_from(cbor@, formats)),
    {
        match formats.read_at(cbor, "c", Kind::CipherText) {
            Err(e) => Err(e),
            Ok(None) => Err(cbor_error("EncryptedCapability missing 'c'")),
            Ok(Some(payload)) => {
                let has_user_password: bool = match cbor.bool_at("p") {
                    Some(b) => b,
                    None => false,
                };
                Ok(EncryptedCapability { payload, has_user_password })
            },
        }
    }

    pub fn to_cbor(&self) -> (r: CborObject)
        ensures
            r@ == encrypted_cbor(self.payload@, self.has_user_password),
    {
        let b = CborObject::map().put("c", self.payload.to_cbor());
        if self.has_user_password {
            b.put("p", CborObject::Boolean(true)).build()
        } else {
            b.build()
        }
    }

    /// The password that decrypts the capability behind `link`.
    pub fn password(&self, link: &SecretLink, user_password: Option<&str>) -> (r: Result<String>)
        ensures
            agrees(
                r,
                opening_password(
                    self.has_user_password,
                    link.link_password@,
                    match user_password {
                        Some(u) => Some(u@),
                        None => None,
                    },
                ),
            ),
    {
        if !self.has_user_password {
            return Ok(link.link_password.clone());
        }
        match user_password {
            None => Err(protocol("Secret link requires a user password")),
            Some(extra) => Ok(join2(link.link_password.as_str(), extra)),
        }
    }
}

/// An encrypted capability is read back from its CBOR as it was.
pub proof fn law_encrypted_round_trip(payload: CborValue, has_user_password: bool, formats: &Formats)
    requires
        formats.accepts(Kind::CipherText, payload),
    ensures
        encrypted_from(encrypted_cbor(payload, has_user_password), formats) == Ok::<(CborValue, bool), Fault>(
            (payload, has_user_password),
        ),
{
    reveal_strlit("c");
    reveal_strlit("p");
    assert("c"@[0] == 'c' && "p"@[0] == 'p');
}

/// The password that a link is stored under, and whether it asks for a user password.
pub open spec fn stored_under(link_password: Seq<char>, user_password: Seq<char>) -> (Seq<char>, bool) {
    (link_password + user_password, user_password.len() > 0)
}

/// The password that a link is stored under, and whether it asks for a user password.
pub fn stored_password(link: &SecretLink, user_password: &str) -> (r: (String, bool))
    ensures
        (r.0@, r.1) == stored_under(link.link_password@, user_password@),
{
    (join2(link.link_password.as_str(), user_password), !user_password.is_empty())
}

/// The password that a link is stored under opens it for whoever gives the same user
/// password, and for everyone if it was not locked with one.
pub proof fn law_link_password(link_password: Seq<char>, user_password: Seq<char>)
    ensures
        ({
            let (stored, asks) = stored_under(link_password, user_password);
            &&& opening_password(asks, link_password, Some(user_password)) == Ok::<Seq<char>, Fault>(stored)
            &&& user_password.len() == 0 ==> opening_password(asks, link_password, None) == Ok::<Seq<char>, Fault>(
                stored,
            )
            &&& user_password.len() > 0 ==> opening_password(asks, link_password, None) is Err
        }),
{
    if user_password.len() == 0 {
        assert(link_password + user_password =~= link_password);
    }
}

/// The value stored behind a secret-link label: the encrypted capability plus
/// optional expiry and retrieval limit.
#[derive(Debug, PartialEq, Eq)]
pub struct SecretLinkTarget {
    pub cap: EncryptedCapability,
    pub expiry_epoch_secs: Option<i64>,
    pub max_retrievals: Option<i64>,
}

/// The CBOR of an optional integer.
pub open spec fn long_cbor(n: Option<i64>) -> Option<CborValue> {
    match n {
        Some(x) => Some(CborValue::Long(x as int)),
        None => None,
    }
}

/// The CBOR of an optional integer.
pub fn opt_long(n: Option<i64>) -> (r: Option<CborObject>)
    ensures
        opt(r) == long_cbor(n),
{
    match n {
        Some(x) => Some(CborObject::Long(x)),
        None => None,
    }
}

impl SecretLinkTarget {
    pub fn to_cbor(&self) -> (r: CborObject)
        ensures
            r@ == CborValue::Mapping(
                map_put_opt(
                    map_put_opt(
                        map_put(
                            Seq::empty(),
                            "cap"@,
                            encrypted_cbor(self.cap.payload@, self.cap.has_user_password),
                        ),
                        "expiry"@,
                        long_cbor(self.expiry_epoch_secs),
                    ),
                    "max"@,
                    long_cbor(self.max_retrievals),
                ),
            ),
    {
        CborObject::map().put("cap", self.cap.to_cbor()).put_opt("expiry", opt_long(self.expiry_epoch_secs)).put_opt(
            "max",
            opt_long(self.max_retrievals),
        ).build()
    }
}

/// Where a capability keeps its parts. What it does not have, it does not mention.
pub proof fn law_cap_fields(c: CapView)
    ensures
        cap_cbor(c).get("o"@) == Some(c.owner),
        cap_cbor(c).get("w"@) == Some(c.writer),
        cap_cbor(c).get("m"@) == Some(CborValue::ByteString(c.map_key)),
        cap_cbor(c).get("a"@) == c.bat,
        cap_cbor(c).get("k"@) == Some(c.r_base_key),
        cap_cbor(c).get("b"@) == c.w_base_key,
{
    reveal_cap_keys();
}

proof fn reveal_cap_keys()
    ensures
        "o"@.len() == 1 && "o"@[0] == 'o',
        "w"@.len() == 1 && "w"@[0] == 'w',
        "m"@.len() == 1 && "m"@[0] == 'm',
        "a"@.len() == 1 && "a"@[0] == 'a',
        "k"@.len() == 1 && "k"@[0] == 'k',
        "b"@.len() == 1 && "b"@[0] == 'b',
{
    reveal_strlit("o");
    reveal_strlit("w");
    reveal_strlit("m");
    reveal_strlit("a");
    reveal_strlit("k");
    reveal_strlit("b");
}

/// A capability that was read holds exactly what stands under its keys, and its map key has 32
/// bytes: any other length is refused.
pub proof fn law_cap_is_read_field_by_field(v: CborValue, formats: &Formats)
    ensures
        cap_from(v, formats) matches Ok(c) ==> v.get("o"@) == Some(c.owner) && v.get("w"@) == Some(c.writer) && v.bytes_at(
            "m"@,
        ) == Some(c.map_key) && v.get("a"@) == c.bat && v.get("k"@) == Some(c.r_base_key) && v.get("b"@) == c.w_base_key
            && c.map_key.len() == 32,
        v.bytes_at("m"@) matches Some(m) ==> m.len() != 32 ==> cap_from(v, formats) is Err,
{
}

/// A capability without its write key can only be read, and is the same in everything else; it
/// can be written if and only if it holds a write key.
pub proof fn law_read_only(c: CapView)
    ensures
        !c.read_only().is_writable(),
        c.read_only().w_base_key is None,
        c.read_only().owner == c.owner,
        c.read_only().writer == c.writer,
        c.read_only().map_key == c.map_key,
        c.read_only().bat == c.bat,
        c.read_only().r_base_key == c.r_base_key,
        c.is_writable() <==> c.w_base_key is Some,
        !c.is_writable() ==> c.read_only() == c,
{
}

/// The text of a link: its owner, its label in decimal and its password.
pub proof fn law_link_text(owner: Seq<char>, label: int, password: Seq<char>)
    ensures
        link_text(owner, label, password) == "secret/"@ + owner + "/"@ + decimal_int(label) + "#"@ + password,
{
}

/// A link needs a fragment, three components and a positive number as its label.
pub proof fn law_links_that_are_refused(text: Seq<char>)
    ensures
        !text.contains('#') ==> link_from(text) is Err,
        link_from(text) matches Ok(l) ==> l.1 > 0,
        link_parts(text) matches Ok(p) ==> int_text(p.1) is None ==> link_from(text) is Err,
        link_parts(text) matches Ok(p) ==> int_text(p.1) is Some && int_text(p.1)->Some_0 > 0 ==> link_from(text) == Ok::<
            (Seq<char>, int, Seq<char>),
            Fault,
        >((p.0, int_text(p.1)->Some_0, p.2)),
{
    if !text.contains('#') {
        let s = text.skip(link_start(text));
        crate::text::lemma_first_is_least(s, '#');
        if first_place(s, '#') < s.len() {
            lemma_first_is_there(s, '#');
            let k = first_place(s, '#') as int;
            lemma_link_start_within(text);
            assert(text[link_start(text) + k] == '#');
        }
    }
}

proof fn lemma_link_start_within(s: Seq<char>)
    ensures
        0 <= link_start(s) <= s.len(),
{
    reveal(link_start);
    reveal_strlit("secret/");
    if exists|i: int| stands_at(s, "secret/"@, i) {
        let i = choose|i: int| stands_at(s, "secret/"@, i);
        lemma_first_stand(s, i);
    }
}

proof fn lemma_first_stand(s: Seq<char>, i: int)
    requires
        stands_at(s, "secret/"@, i),
    ensures
        exists|j: int| stands_at(s, "secret/"@, j) && forall|k: int| 0 <= k < j ==> !stands_at(s, "secret/"@, k),
    decreases i,
{
    if exists|k: int| 0 <= k < i && stands_at(s, "secret/"@, k) {
        let k = choose|k: int| 0 <= k < i && stands_at(s, "secret/"@, k);
        lemma_first_stand(s, k);
    }
}

proof fn lemma_first_is_there(s: Seq<char>, c: char)
    requires
        first_place(s, c) < s.len(),
    ensures
        s[first_place(s, c) as int] == c,
    decreases s.len(),
{
    if s.len() > 0 && s[0] != c {
        lemma_first_is_there(s.skip(1), c);
    }
}

/// A fresh label is the number that its random bytes spell, but never zero.
pub proof fn law_random_labels(b: Seq<u8>)
    requires
        b.len() == 4,
    ensures
        random_label(b) > 0,
        le_value(b) > 0 ==> random_label(b) == le_value(b),
        le_value(b) == 0 ==> random_label(b) == 1,
{
}

/// A fresh password is made of letters and digits, and each of the 62 comes from some byte.
pub proof fn law_password_characters(b: u8)
    ensures
        ({
            let c = password_char(b) as u32;
            let k = b as int % 62;
            &&& k < 26 ==> c == 97 + k
            &&& 26 <= k < 52 ==> c == 65 + k - 26
            &&& 52 <= k ==> c == 48 + k - 52
        }),
{
    reveal_strlit("abcdefghijklmnopqrstuvwxyzABCDEFGHIJKLMNOPQRSTUVWXYZ0123456789");
    let t = PASSWORD_CHARACTERS@;
    assert forall|k: int| 0 <= k < 62 implies {
        &&& k < 26 ==> t[k] as u32 == 97 + k
        &&& 26 <= k < 52 ==> t[k] as u32 == 65 + k - 26
        &&& 52 <= k ==> t[k] as u32 == 48 + k - 52
    } by {}
}

/// A link is locked with its own password and that of the user behind it, and asks for one where
/// the user gave one; opening it takes the same.
pub proof fn law_locked_links(link_password: Seq<char>, user_password: Seq<char>)
    ensures
        stored_under(link_password, user_password).0 == link_password + user_password,
        stored_under(link_password, user_password).1 <==> user_password.len() > 0,
        opening_password(true, link_password, Some(user_password)) == Ok::<Seq<char>, Fault>(link_password + user_password),
        opening_password(true, link_password, None) is Err,
        opening_password(false, link_password, Some(user_password)) == Ok::<Seq<char>, Fault>(link_password),
        opening_password(false, link_password, None) == Ok::<Seq<char>, Fault>(link_password),
{
}

/// Where an encrypted capability keeps its parts: whether it asks for a password only if it does.
pub proof fn law_encrypted_fields(payload: CborValue, asks: bool)
    ensures
        encrypted_cbor(payload, asks).get("c"@) == Some(payload),
        asks ==> encrypted_cbor(payload, asks).get("p"@) == Some(CborValue::Boolean(true)),
        !asks ==> encrypted_cbor(payload, asks).get("p"@) is None,
{
    reveal_strlit("c");
    reveal_strlit("p");
    assert("c"@[0] == 'c' && "p"@[0] == 'p');
}

/// What is said of a capability that cannot be read: which part of it is missing, or how long its
/// map key is.
pub proof fn law_capabilities_that_are_refused(v: CborValue, c: CapView, formats: &Formats)
    ensures
        v.get("o"@) is None ==> cap_from(v, formats) == Err::<CapView, Fault>(Fault::Cbor("cap missing 'o'"@)),
        v.get("o"@) is Some && formats.accepts(Kind::KeyHash, v.get("o"@)->Some_0) && v.get("w"@) is None ==> cap_from(
            v,
            formats,
        ) == Err::<CapView, Fault>(Fault::Cbor("cap missing 'w'"@)),
        v.bytes_at("m"@) is None ==> cap_from(v, formats) is Err,
        v.get("k"@) is None ==> cap_from(v, formats) is Err,
        c.map_key.len() == 32 ==> checked_cap(c) == Ok::<CapView, Fault>(c),
        c.map_key.len() != 32 ==> checked_cap(c) == Err::<CapView, Fault>(
            Fault::Protocol("Invalid map key length: "@ + decimal(c.map_key.len())),
        ),
        opening_password(true, Seq::empty(), None) == Err::<Seq<char>, Fault>(
            Fault::Protocol("Secret link requires a user password"@),
        ),
        encrypted_from(v, formats) matches Ok(x) ==> v.get("c"@) == Some(x.0) && (x.1 <==> v.get("p"@) == Some(
            CborValue::Boolean(true),
        )),
        v.get("c"@) is None ==> encrypted_from(v, formats) == Err::<(CborValue, bool), Fault>(
            Fault::Cbor("EncryptedCapability missing 'c'"@),
        ),
{
}

/// What is said of a text that is no secret link.
pub proof fn law_link_refusals(owner: Seq<char>, label: Seq<char>, password: Seq<char>)
    ensures
        int_text(label) is None ==> labelled_link(owner, label, password) == Err::<(Seq<char>, int, Seq<char>), Fault>(
            Fault::Protocol("Invalid secret link label"@),
        ),
        int_text(label) matches Some(n) ==> n <= 0 ==> labelled_link(owner, label, password) == Err::<
            (Seq<char>, int, Seq<char>),
            Fault,
        >(Fault::Protocol("Link labels must be positive!"@)),
        int_text(label) matches Some(n) ==> n > 0 ==> labelled_link(owner, label, password) == Ok::<
            (Seq<char>, int, Seq<char>),
            Fault,
        >((owner, n, password)),
{
}

/// How much work it takes to open a secret link, and how much that gives.
pub proof fn law_cost_of_a_link()
    ensures
        LINK_MEMORY_COST == 15,
        LINK_CPU_COST == 8,
        LINK_PARALLELISM == 1,
        LINK_OUTPUT_BYTES == 32,
{
}

} // verus!
