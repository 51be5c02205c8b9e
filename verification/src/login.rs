//! User login.
//!
//! The flow: the core node gives the user's identity key hash; the owner's writer data
//! holds the parameters that the login keys are derived with; the account endpoint,
//! authorised by a signed timestamp, returns the encrypted entry points; these hold the
//! identity signing key and the capabilities to the user's filesystem roots. Accounts with
//! a second factor, and legacy accounts with their entry points inside the writer data,
//! are handled.
use vstd::prelude::*;
use vstd::utf8::*;
use crate::bytes::{be_bytes, be_value, push_be, read_be};
use crate::capability::{cap_cbor, cap_from, is_readable_cap, law_cap_round_trip, AbsoluteCapability, CapView};
use crate::cbor::{items, map_put, text_or, text_or_empty, CborObject, CborValue};
use crate::cbor_codec::{encode, parse};
use crate::cryptree::properties::{as_unsigned, to_unsigned};
use crate::error::{agrees, cbor_error, error_is, fails_protocol, opt, protocol, protocol_of, Fault, Result};
use crate::hex::{hex, to_hex};
use crate::opaque::{BatId, BatWithId, Formats, Kind, Opaque, PublicKeyHash, SigningPrivateKeyAndPublicHash, SymmetricKey};
use crate::text::{append_bytes, chars_of, join2, join3, join4, same_text, slice_bytes, utf8_bytes};

verus! {

broadcast use crate::cbor::group_cbor;

pub const CORE_URL: &'static str = "peergos/v0/core/";
pub const LOGIN_URL: &'static str = "peergos/v0/login/";
pub const BATS_PATH: &'static str = "peergos/v0/bats/getUserBats";

/// The block size that the entry points are padded to.
pub const USER_STATIC_DATA_PADDING: usize = 4096;

/// One decrypted entry point: a capability into a filesystem root plus the name of the
/// account that owns it.
#[derive(Debug, PartialEq, Eq)]
pub struct EntryPoint {
    pub pointer: AbsoluteCapability,
    pub owner_name: String,
}

impl View for EntryPoint {
    type V = (CapView, Seq<char>);

    open spec fn view(&self) -> (CapView, Seq<char>) {
        (self.pointer@, self.owner_name@)
    }
}

/// The contents of a list of entry points.
pub open spec fn entry_views(v: Seq<EntryPoint>) -> Seq<(CapView, Seq<char>)> {
    Seq::new(v.len(), |i: int| v[i]@)
}

/// The CBOR of an entry point.
pub open spec fn entry_cbor(e: (CapView, Seq<char>)) -> CborValue {
    CborValue::Mapping(map_put(map_put(Seq::empty(), "c"@, cap_cbor(e.0)), "n"@, CborValue::Str(e.1)))
}

/// The entry point that a value describes.
pub open spec fn entry_from(v: CborValue, formats: &Formats) -> core::result::Result<(CapView, Seq<char>), Fault> {
    match v.get("c"@) {
        None => Err(Fault::Cbor("EntryPoint missing 'c'"@)),
        Some(c) => match cap_from(c, formats) {
            Err(f) => Err(f),
            Ok(cap) => match v.text_at("n"@) {
                None => Err(Fault::Cbor("EntryPoint missing 'n'"@)),
                Some(n) => Ok((cap, n)),
            },
        },
    }
}

impl EntryPoint {
    pub fn from_cbor(cbor: &CborObject, formats: &Formats) -> (r: Result<EntryPoint>)
        ensures
            agrees(r, entry_from(cbor@, formats)),
    {
        match cbor.get("c") {
            None => Err(cbor_error("EntryPoint missing 'c'")),
            Some(c) => match AbsoluteCapability::from_cbor(c, formats) {
                Err(e) => Err(e),
                Ok(pointer) => match cbor.text_at("n") {
                    None => Err(cbor_error("EntryPoint missing 'n'")),
                    Some(owner_name) => Ok(EntryPoint { pointer, owner_name }),
                },
            },
        }
    }

    pub fn to_cbor(&self) -> (r: CborObject)
        ensures
            r@ == entry_cbor(self@),
    {
        CborObject::map().put("c", self.pointer.to_cbor()).put("n", CborObject::Str(self.owner_name.clone())).build()
    }
}

/// An entry point is read back from its CBOR as it was.
pub proof fn law_entry_round_trip(e: (CapView, Seq<char>), formats: &Formats)
    requires
        is_readable_cap(e.0, formats),
    ensures
        entry_from(entry_cbor(e), formats) == Ok::<(CapView, Seq<char>), Fault>(e),
{
    reveal_strlit("c");
    reveal_strlit("n");
    assert("c"@[0] == 'c' && "n"@[0] == 'n');
    law_cap_round_trip(e.0, formats);
}

/// A logged-in user: the identity signer, the login root key and the decrypted filesystem
/// entry points.
#[derive(Debug, PartialEq, Eq)]
pub struct LoggedInUser {
    pub username: String,
    /// The hash of the owner's identity key.
    pub identity: PublicKeyHash,
    /// The identity signing key, which authorises writes to the user's subspace.
    pub signer: SigningPrivateKeyAndPublicHash,
    /// The login root symmetric key.
    pub root_key: SymmetricKey,
    /// The key pair for follow requests and sharing; absent on legacy accounts.
    pub boxer: Option<Opaque>,
    pub entries: Vec<EntryPoint>,
    /// The account's mirror BAT. Every block that the user writes is tagged with its id, so
    /// that the server can mirror the data.
    pub mirror_bat: Option<BatWithId>,
}

/// The pointer of the first entry point of an account.
pub open spec fn home_entry(v: Seq<(CapView, Seq<char>)>, username: Seq<char>) -> Option<CapView>
    decreases v.len(),
{
    if v.len() == 0 {
        None
    } else if v[0].1 == username {
        Some(v[0].0)
    } else {
        home_entry(v.skip(1), username)
    }
}

impl LoggedInUser {
    /// The mirror BAT's id, which tags written blocks.
    pub fn mirror_bat_id(&self) -> (r: Option<BatId>)
        ensures
            opt(r) == match self.mirror_bat {
                Some(b) => Some(b@.1),
                None => None,
            },
    {
        match &self.mirror_bat {
            Some(b) => Some(b.id.dup()),
            None => None,
        }
    }

    /// The capability to the user's own home directory (`/username`).
    pub fn home(&self) -> (r: Option<&AbsoluteCapability>)
        ensures
            match home_entry(entry_views(self.entries@), self.username@) {
                Some(c) => r is Some && r->Some_0@ == c,
                None => r is None,
            },
    {
        let ghost ev = entry_views(self.entries@);
        proof {
            assert(ev.skip(0) =~= ev);
        }
        for i in 0..self.entries.len()
            invariant
                ev == entry_views(self.entries@),
                home_entry(ev, self.username@) == home_entry(ev.skip(i as int), self.username@),
        {
            if same_text(self.entries[i].owner_name.as_str(), self.username.as_str()) {
                return Some(&self.entries[i].pointer);
            }
            proof {
                assert(ev.skip(i as int).skip(1) =~= ev.skip(i as int + 1));
            }
        }
        None
    }
}

/// The parameters that the login keys are derived with, and the extra salt.
#[derive(Debug, PartialEq, Eq)]
pub struct ScryptParams {
    pub memory_cost: u8,
    pub cpu_cost: u32,
    pub parallelism: u32,
    pub output_bytes: u64,
    pub extra_salt: String,
}

/// The content of [`ScryptParams`].
pub ghost struct ScryptView {
    pub memory_cost: nat,
    pub cpu_cost: nat,
    pub parallelism: nat,
    pub output_bytes: nat,
    pub extra_salt: Seq<char>,
}

impl View for ScryptParams {
    type V = ScryptView;

    open spec fn view(&self) -> ScryptView {
        ScryptView {
            memory_cost: self.memory_cost as nat,
            cpu_cost: self.cpu_cost as nat,
            parallelism: self.parallelism as nat,
            output_bytes: self.output_bytes as nat,
            extra_salt: self.extra_salt@,
        }
    }
}

/// The parameters that writer data describes. A number that is too large for its place
/// loses its upper bits.
pub open spec fn scrypt_from(wd: CborValue) -> core::result::Result<ScryptView, Fault> {
    match wd.get("algorithm"@) {
        None => Err(Fault::Protocol("No login algorithm specified in user data!"@)),
        Some(a) => match (a.long_at("m"@), a.long_at("c"@), a.long_at("p"@), a.long_at("o"@)) {
            (None, _, _, _) => Err(Fault::Cbor("scrypt missing 'm'"@)),
            (_, None, _, _) => Err(Fault::Cbor("scrypt missing 'c'"@)),
            (_, _, None, _) => Err(Fault::Cbor("scrypt missing 'p'"@)),
            (_, _, _, None) => Err(Fault::Cbor("scrypt missing 'o'"@)),
            (Some(m), Some(c), Some(p), Some(o)) => Ok(
                ScryptView {
                    memory_cost: (m % 0x100) as nat,
                    cpu_cost: (c % 0x1_0000_0000) as nat,
                    parallelism: (p % 0x1_0000_0000) as nat,
                    output_bytes: as_unsigned(o),
                    extra_salt: text_or_empty(a, "s"@),
                },
            ),
        },
    }
}

fn low_byte(n: i64) -> (r: u8)
    ensures
        r == n as int % 0x100,
{
    let m: i64 = n % 0x100;
    (if m < 0 { m + 0x100 } else { m }) as u8
}

fn low_word(n: i64) -> (r: u32)
    ensures
        r == n as int % 0x1_0000_0000,
{
    let m: i64 = n % 0x1_0000_0000;
    (if m < 0 { m + 0x1_0000_0000 } else { m }) as u32
}

impl ScryptParams {
    pub fn from_writer_data(wd: &CborObject) -> (r: Result<ScryptParams>)
        ensures
            agrees(r, scrypt_from(wd@)),
    {
        match wd.get("algorithm") {
            None => Err(protocol("No login algorithm specified in user data!")),
            Some(algo) => {
                let m = match algo.long_at("m") {
                    Some(n) => low_byte(n),
                    None => {
                        return Err(cbor_error("scrypt missing 'm'"));
                    },
                };
                let c = match algo.long_at("c") {
                    Some(n) => low_word(n),
                    None => {
                        return Err(cbor_error("scrypt missing 'c'"));
                    },
                };
                let p = match algo.long_at("p") {
                    Some(n) => low_word(n),
                    None => {
                        return Err(cbor_error("scrypt missing 'p'"));
                    },
                };
                let o = match algo.long_at("o") {
                    Some(n) => to_unsigned(n),
                    None => {
                        return Err(cbor_error("scrypt missing 'o'"));
                    },
                };
                Ok(
                    ScryptParams {
                        memory_cost: m,
                        cpu_cost: c,
                        parallelism: p,
                        output_bytes: o,
                        extra_salt: text_or(algo, "s"),
                    },
                )
            },
        }
    }

    /// The salt of the key derivation. A password that is the username is refused.
    pub fn salt(&self, username: &str, password: &str) -> (r: Result<String>)
        ensures
            password@ == username@ ==> fails_protocol(r, "Your password cannot be the same as your username!"@),
            password@ != username@ ==> r is Ok && r->Ok_0@ == username@ + self@.extra_salt,
    {
        if same_text(password, username) {
            return Err(protocol("Your password cannot be the same as your username!"));
        }
        Ok(join2(username, self.extra_salt.as_str()))
    }

    /// Where the root key stands in the derived bytes: behind the seed of the signing key,
    /// and behind that of the boxing key if there is one.
    pub open spec fn root_offset(self) -> int {
        if self.output_bytes == 96 {
            64
        } else {
            32
        }
    }

    /// Splits the derived bytes: the seed of the login signing key, and the root key.
    pub fn split_key(&self, key_bytes: &[u8]) -> (r: (Vec<u8>, Vec<u8>))
        requires
            self.root_offset() + 32 <= key_bytes.len(),
        ensures
            r.0@ == key_bytes@.subrange(0, 32),
            r.1@ == key_bytes@.subrange(self.root_offset(), self.root_offset() + 32),
    {
        let at: usize = if self.output_bytes == 96 { 64 } else { 32 };
        (slice_bytes(key_bytes, 0, 32), slice_bytes(key_bytes, at, at + 32))
    }
}

/// A text as the core node reads it: the number of its characters in 4 bytes, then its
/// UTF-8 bytes.
pub fn serialize_string(s: &str) -> (r: Vec<u8>)
    ensures
        r@ == be_bytes(s@.len(), 4) + encode_utf8(s@),
{
    let chars = chars_of(s);
    let mut out: Vec<u8> = Vec::new();
    proof {
        assert(chars@.len() == chars.len());
    }
    push_be(&mut out, chars.len() as u64, 4);
    append_bytes(&mut out, &utf8_bytes(s));
    proof {
        assert(out@ =~= be_bytes(s@.len(), 4) + encode_utf8(s@));
    }
    out
}

/// The key hash in an answer of the core node: a byte that says whether there is one, its
/// length in 4 bytes, and its CBOR.
pub open spec fn key_hash_in(res: Seq<u8>, formats: &Formats) -> core::result::Result<Option<CborValue>, Fault> {
    if res.len() == 0 || res[0] == 0 {
        Ok(None)
    } else if res.len() < 5 {
        Err(Fault::Protocol("truncated getPublicKey response"@))
    } else {
        let n = be_value(res.subrange(1, 5));
        if res.len() < 5 + n {
            Err(Fault::Protocol("truncated getPublicKey key bytes"@))
        } else {
            match parse(res.subrange(5, 5 + n as int)) {
                None => Err(Fault::Cbor("invalid cbor"@)),
                Some((v, c)) => match formats.value(Kind::KeyHash, v) {
                    Ok(k) => Ok(Some(k)),
                    Err(f) => Err(f),
                },
            }
        }
    }
}

/// The key hash in an answer of the core node.
pub fn read_key_hash(res: &[u8], formats: &Formats) -> (r: Result<Option<PublicKeyHash>>)
    ensures
        match key_hash_in(res@, formats) {
            Ok(k) => r is Ok && opt(r->Ok_0) == k,
            Err(f) => r is Err && error_is(r->Err_0, f),
        },
{
    if res.len() == 0 || res[0] == 0 {
        return Ok(None);
    }
    if res.len() < 5 {
        return Err(protocol("truncated getPublicKey response"));
    }
    let n: u64 = read_be(res, 1, 4);
    if n > (res.len() - 5) as u64 {
        return Err(protocol("truncated getPublicKey key bytes"));
    }
    let raw = slice_bytes(res, 5, 5 + n as usize);
    match CborObject::from_bytes(&raw) {
        Err(e) => Err(e),
        Ok(v) => match formats.read(Kind::KeyHash, &v) {
            Ok(k) => Ok(Some(k)),
            Err(e) => Err(e),
        },
    }
}

/// The owner of an account that must be known.
pub fn known_owner(username: &str, owner: Option<PublicKeyHash>) -> (r: Result<PublicKeyHash>)
    ensures
        match opt(owner) {
            Some(o) => r is Ok && r->Ok_0@ == o,
            None => fails_protocol(r, "Unknown username: "@ + username@),
        },
{
    match owner {
        Some(o) => Ok(o),
        None => Err(protocol_of("Unknown username: ", username)),
    }
}

/// Where the pointer of an account leads, if the account was not deleted.
pub fn live_target(updated: Option<Vec<u8>>) -> (r: Result<Vec<u8>>)
    ensures
        match opt(updated) {
            Some(c) => r is Ok && r->Ok_0@ == c,
            None => fails_protocol(r, "User has been deleted"@),
        },
{
    match updated {
        Some(c) => Ok(c),
        None => Err(protocol("User has been deleted")),
    }
}

/// What the writer data of an account says about its login.
#[derive(Debug, PartialEq, Eq)]
pub struct AccountData {
    pub controller: PublicKeyHash,
    pub algo: ScryptParams,
    /// The encrypted entry points of a legacy account.
    pub legacy: Option<CborObject>,
}

/// The content of [`AccountData`].
pub ghost struct AccountView {
    pub controller: CborValue,
    pub algo: ScryptView,
    pub legacy: Option<CborValue>,
}

impl View for AccountData {
    type V = AccountView;

    open spec fn view(&self) -> AccountView {
        AccountView { controller: self.controller@, algo: self.algo@, legacy: opt(self.legacy) }
    }
}

/// What the block of an account's writer data says about its login.
pub open spec fn account_from(block: Option<CborValue>, formats: &Formats) -> core::result::Result<AccountView, Fault> {
    match block {
        None => Err(Fault::Protocol("writer data block missing"@)),
        Some(wd) => match formats.value_at(wd, "controller"@, Kind::KeyHash) {
            Err(f) => Err(f),
            Ok(None) => Err(Fault::Cbor("WriterData missing 'controller'"@)),
            Ok(Some(controller)) => match scrypt_from(wd) {
                Err(f) => Err(f),
                Ok(algo) => Ok(AccountView { controller, algo, legacy: wd.get("static"@) }),
            },
        },
    }
}

impl AccountData {
    /// Reads the block of an account's writer data.
    pub fn from_block(block: Option<&CborObject>, formats: &Formats) -> (r: Result<AccountData>)
        ensures
            agrees(
                r,
                account_from(
                    match block {
                        Some(b) => Some(b@),
                        None => None,
                    },
                    formats,
                ),
            ),
    {
        match block {
            None => Err(protocol("writer data block missing")),
            Some(wd) => match formats.read_at(wd, "controller", Kind::KeyHash) {
                Err(e) => Err(e),
                Ok(None) => Err(cbor_error("WriterData missing 'controller'")),
                Ok(Some(controller)) => match ScryptParams::from_writer_data(wd) {
                    Err(e) => Err(e),
                    Ok(algo) => {
                        let legacy = match wd.get("static") {
                            Some(s) => Some(s.dup()),
                            None => None,
                        };
                        Ok(AccountData { controller, algo, legacy })
                    },
                },
            },
        }
    }
}

/// A request that is signed with a key: a path and a time.
pub open spec fn timed_request(path: Seq<char>, now_millis: int) -> CborValue {
    CborValue::Mapping(
        map_put(map_put(Seq::empty(), "p"@, CborValue::Str(path)), "t"@, CborValue::Long(now_millis)),
    )
}

/// The bytes to sign for a request to `path` at this time.
pub fn request_to_sign(path: &str, now_millis: i64) -> (r: Vec<u8>)
    ensures
        r@ == encode(timed_request(path@, now_millis as int)),
{
    CborObject::map().put("p", CborObject::Str(path.to_owned())).put("t", CborObject::Long(now_millis)).build().to_bytes()
}

/// The bytes to sign for a login at this time.
pub fn time_to_sign(now_millis: i64) -> (r: Vec<u8>)
    ensures
        r@ == encode(CborValue::Long(now_millis as int)),
{
    CborObject::Long(now_millis).to_bytes()
}

/// Where the login data of an account is fetched from.
pub open spec fn login_address(username: Seq<char>, author: Seq<u8>, auth: Seq<u8>, mfa: Option<Seq<u8>>) -> Seq<char> {
    let url = LOGIN_URL@ + "getLogin?username="@ + username + "&author="@ + hex(author) + "&auth="@ + hex(auth)
        + "&proxy=false"@;
    match mfa {
        Some(m) => url + "&mfa="@ + hex(m),
        None => url,
    }
}

/// Where the login data of an account is fetched from: `author` is the login key, `auth`
/// the signed time, and `mfa` the answer to a second-factor challenge.
pub fn login_url(username: &str, author: &[u8], auth: &[u8], mfa: Option<&[u8]>) -> (r: String)
    ensures
        r@ == login_address(
            username@,
            author@,
            auth@,
            match mfa {
                Some(m) => Some(m@),
                None => None,
            },
        ),
{
    let a = join4(LOGIN_URL, "getLogin?username=", username, "&author=");
    let b = join4(a.as_str(), to_hex(author).as_str(), "&auth=", to_hex(auth).as_str());
    let url = join2(b.as_str(), "&proxy=false");
    match mfa {
        Some(m) => join3(url.as_str(), "&mfa=", to_hex(m).as_str()),
        None => url,
    }
}

/// What the account endpoint answers to a login.
#[derive(Debug, PartialEq, Eq)]
pub enum LoginReply {
    /// The encrypted entry points.
    Granted(CborObject),
    /// A second factor is required: the challenge.
    Challenge(CborObject),
}

/// The content of a [`LoginReply`].
pub ghost enum LoginView {
    Granted(CborValue),
    Challenge(CborValue),
}

impl View for LoginReply {
    type V = LoginView;

    open spec fn view(&self) -> LoginView {
        match self {
            LoginReply::Granted(c) => LoginView::Granted(c@),
            LoginReply::Challenge(c) => LoginView::Challenge(c@),
        }
    }
}

/// The answer to the first login request. A challenge has to be well formed, and is of use only
/// to one who can answer it.
pub open spec fn first_reply(resp: CborValue, can_answer: bool, formats: &Formats) -> core::result::Result<
    LoginView,
    Fault,
> {
    match resp.get("r"@) {
        None => Err(Fault::Cbor("LoginResponse missing 'r'"@)),
        Some(r) => if resp.bool_at("a"@) == Some(true) {
            Ok(LoginView::Granted(r))
        } else {
            match formats.value(Kind::Challenge, r) {
                Err(f) => Err(f),
                Ok(c) => if can_answer {
                    Ok(LoginView::Challenge(c))
                } else {
                    Err(Fault::Protocol("Account requires multi-factor authentication"@))
                },
            }
        },
    }
}

/// The answer to the login request that carries the answer to a challenge.
pub open spec fn second_reply(resp: CborValue) -> core::result::Result<CborValue, Fault> {
    if resp.bool_at("a"@) != Some(true) {
        Err(Fault::Protocol("Multi-factor authentication failed"@))
    } else {
        match resp.get("r"@) {
            None => Err(Fault::Cbor("LoginResponse missing 'r'"@)),
            Some(r) => Ok(r),
        }
    }
}

fn is_granted(resp: &CborObject) -> (r: bool)
    ensures
        r == (resp@.bool_at("a"@) == Some(true)),
{
    match resp.bool_at("a") {
        Some(b) => b,
        None => false,
    }
}

/// Decides on the answer to the first login request.
pub fn on_first_reply(resp: &CborObject, can_answer: bool, formats: &Formats) -> (r: Result<LoginReply>)
    ensures
        agrees(r, first_reply(resp@, can_answer, formats)),
{
    match resp.get("r") {
        None => Err(cbor_error("LoginResponse missing 'r'")),
        Some(c) => {
            if is_granted(resp) {
                return Ok(LoginReply::Granted(c.dup()));
            }
            match formats.read(Kind::Challenge, c) {
                Err(e) => Err(e),
                Ok(challenge) => {
                    if can_answer {
                        Ok(LoginReply::Challenge(challenge.to_cbor()))
                    } else {
                        Err(protocol("Account requires multi-factor authentication"))
                    }
                },
            }
        },
    }
}

/// Decides on the answer to the login request that answers a challenge.
pub fn on_second_reply(resp: &CborObject) -> (r: Result<CborObject>)
    ensures
        agrees(r, second_reply(resp@)),
{
    if !is_granted(resp) {
        return Err(protocol("Multi-factor authentication failed"));
    }
    match resp.get("r") {
        None => Err(cbor_error("LoginResponse missing 'r'")),
        Some(c) => Ok(c.dup()),
    }
}

/// The decrypted entry points: that they cannot be decrypted means a wrong password.
pub fn opened_entry_points(plain: Option<CborObject>) -> (r: Result<CborObject>)
    ensures
        match opt(plain) {
            Some(c) => r is Ok && r->Ok_0@ == c,
            None => fails_protocol(r, "Incorrect username or password"@),
        },
{
    match plain {
        Some(c) => Ok(c),
        None => Err(protocol("Incorrect username or password")),
    }
}

/// What the decrypted entry points hold.
#[derive(Debug, PartialEq, Eq)]
pub struct EntryPoints {
    pub entries: Vec<EntryPoint>,
    /// The identity key pair.
    pub identity: Option<Opaque>,
    pub boxer: Option<Opaque>,
}

/// The entry points that a list describes, up to the first that is none.
pub open spec fn entries_from(v: Seq<CborValue>, formats: &Formats) -> core::result::Result<Seq<(CapView, Seq<char>)>, Fault>
    decreases v.len(),
{
    if v.len() == 0 {
        Ok(Seq::empty())
    } else {
        match (entries_from(v.drop_last(), formats), entry_from(v.last(), formats)) {
            (Err(f), _) => Err(f),
            (_, Err(f)) => Err(f),
            (Ok(s), Ok(e)) => Ok(s.push(e)),
        }
    }
}

proof fn lemma_entries_fail(v: Seq<CborValue>, n: int, formats: &Formats)
    requires
        0 <= n <= v.len(),
        entries_from(v.take(n), formats) is Err,
    ensures
        entries_from(v, formats) == entries_from(v.take(n), formats),
    decreases v.len(),
{
    if n < v.len() {
        assert(v.drop_last().take(n) =~= v.take(n));
        lemma_entries_fail(v.drop_last(), n, formats);
    } else {
        assert(v.take(n) =~= v);
    }
}

impl EntryPoints {
    /// Parses decrypted entry points.
    pub fn from_cbor(cbor: &CborObject, formats: &Formats) -> (r: Result<EntryPoints>)
        ensures
            match cbor@.list_at("e"@) {
                None => r is Err && error_is(r->Err_0, Fault::Cbor("EntryPoints missing 'e'"@)),
                Some(l) => match entries_from(l, formats) {
                    Err(f) => r is Err && error_is(r->Err_0, f),
                    Ok(e) => match formats.value_at(cbor@, "i"@, Kind::SigningPair) {
                        Err(f) => r is Err && error_is(r->Err_0, f),
                        Ok(i) => match formats.value_at(cbor@, "b"@, Kind::BoxingPair) {
                            Err(f) => r is Err && error_is(r->Err_0, f),
                            Ok(b) => {
                                &&& r is Ok
                                &&& entry_views(r->Ok_0.entries@) == e
                                &&& opt(r->Ok_0.identity) == i
                                &&& opt(r->Ok_0.boxer) == b
                            },
                        },
                    },
                },
            },
    {
        let list = match cbor.get("e") {
            Some(CborObject::List(l)) => l,
            _ => {
                return Err(cbor_error("EntryPoints missing 'e'"));
            },
        };
        let ghost all = items(list@);
        let mut entries: Vec<EntryPoint> = Vec::new();
        proof {
            assert(all.take(0) =~= Seq::empty());
            assert(entry_views(entries@) =~= Seq::empty());
        }
        for i in 0..list.len()
            invariant
                all == items(list@),
                cbor@.list_at("e"@) == Some(all),
                entries_from(all.take(i as int), formats) == Ok::<Seq<(CapView, Seq<char>)>, Fault>(entry_views(entries@)),
        {
            let ghost before = entry_views(entries@);
            proof {
                assert(all.take(i as int + 1).drop_last() =~= all.take(i as int));
                assert(all.take(i as int + 1).last() == list[i as int]@);
            }
            match EntryPoint::from_cbor(&list[i], formats) {
                Ok(p) => {
                    let ghost pv = p@;
                    entries.push(p);
                    proof {
                        assert(entry_views(entries@) =~= before.push(pv));
                    }
                },
                Err(e) => {
                    proof {
                        lemma_entries_fail(all, i as int + 1, formats);
                    }
                    return Err(e);
                },
            }
        }
        proof {
            assert(all.take(all.len() as int) =~= all);
        }
        match formats.read_at(cbor, "i", Kind::SigningPair) {
            Err(e) => Err(e),
            Ok(identity) => match formats.read_at(cbor, "b", Kind::BoxingPair) {
                Err(e) => Err(e),
                Ok(boxer) => Ok(EntryPoints { entries, identity, boxer }),
            },
        }
    }
}

/// The secret key that signs for the user: the derived login key for legacy accounts, and
/// otherwise that of the identity stored in the entry points.
pub fn signing_key(legacy: bool, login_secret: Opaque, identity: Option<Opaque>) -> (r: Result<Opaque>)
    ensures
        legacy ==> r is Ok && r->Ok_0@ == login_secret@,
        !legacy ==> match opt(identity) {
            Some(i) => r is Ok && r->Ok_0@ == i,
            None => fails_protocol(r, "No identity key in login data"@),
        },
{
    if legacy {
        Ok(login_secret)
    } else {
        match identity {
            Some(i) => Ok(i),
            None => Err(protocol("No identity key in login data")),
        }
    }
}

/// Where the BATs of a user are fetched from. `username` is encoded for a URL.
pub fn bats_url(username: &str, auth: &[u8]) -> (r: String)
    ensures
        r@ == BATS_PATH@ + "?username="@ + username@ + "&auth="@ + hex(auth@),
{
    let a = join4(BATS_PATH, "?username=", username, "&auth=");
    join2(a.as_str(), to_hex(auth).as_str())
}

/// The mirror BAT among the BATs of a user: the last one.
pub fn mirror_bat(resp: &CborObject) -> (r: Option<&CborObject>)
    ensures
        match resp@ {
            CborValue::List(l) => if l.len() == 0 {
                r is None
            } else {
                r is Some && r->Some_0@ == l.last()
            },
            _ => r is None,
        },
{
    match resp {
        CborObject::List(v) => {
            proof {
                assert(items(v@).len() == v@.len());
            }
            if v.len() == 0 {
                None
            } else {
                Some(&v[v.len() - 1])
            }
        },
        _ => None,
    }
}

/// Checks the passwords before a change: the new one must differ. Whether the account can
/// change its password at all, [`data_for_password_change`] says.
pub fn check_password_change(old_password: &str, new_password: &str) -> (r: Result<()>)
    ensures
        old_password@ == new_password@ ==> fails_protocol(r, "You must change to a different password."@),
        old_password@ != new_password@ ==> r is Ok,
{
    if same_text(old_password, new_password) {
        Err(protocol("You must change to a different password."))
    } else {
        Ok(())
    }
}

/// What the block of an account's writer data says about its login, for a change of its
/// password: legacy accounts cannot change it.
pub fn data_for_password_change(block: Option<&CborObject>, formats: &Formats) -> (r: Result<AccountData>)
    ensures
        ({
            let b = match block {
                Some(b) => Some(b@),
                None => None,
            };
            if b is Some && b->Some_0.get("static"@) is Some {
                fails_protocol(r, "changing the password of a legacy account is not supported"@)
            } else {
                agrees(r, account_from(b, formats))
            }
        }),
{
    match block {
        Some(wd) => match wd.get("static") {
            Some(_) => {
                return Err(protocol("changing the password of a legacy account is not supported"));
            },
            None => {},
        },
        None => {},
    }
    AccountData::from_block(block, formats)
}

/// New login data: the user, the encrypted entry points, and the login key.
pub open spec fn login_data(username: Seq<char>, entry_points: CborValue, login_key: CborValue) -> CborValue {
    let m = map_put(Seq::empty(), "u"@, CborValue::Str(username));
    let m = map_put(m, "e"@, entry_points);
    CborValue::Mapping(map_put(m, "r"@, login_key))
}

/// The bytes of new login data, which are signed and posted.
pub fn new_login_data(username: &str, entry_points: &CborObject, login_key: &Opaque) -> (r: Vec<u8>)
    ensures
        r@ == encode(login_data(username@, entry_points@, login_key@)),
{
    CborObject::map().put("u", CborObject::Str(username.to_owned())).put("e", entry_points.dup()).put(
        "r",
        login_key.to_cbor(),
    ).build().to_bytes()
}

/// Where new login data is posted.
pub fn set_login_url(username: &str, auth: &[u8]) -> (r: String)
    ensures
        r@ == LOGIN_URL@ + "setLogin?username="@ + username@ + "&auth="@ + hex(auth@) + "&local=false"@,
{
    let a = join4(LOGIN_URL, "setLogin?username=", username, "&auth=");
    join3(a.as_str(), to_hex(auth).as_str(), "&local=false")
}

/// Decides on the answer to new login data.
pub fn on_password_change(res: &[u8]) -> (r: Result<()>)
    ensures
        res@.len() > 0 && res@[0] == 1 ==> r is Ok,
        !(res@.len() > 0 && res@[0] == 1) ==> fails_protocol(r, "server rejected the password change"@),
{
    if res.len() > 0 && res[0] == 1 {
        Ok(())
    } else {
        Err(protocol("server rejected the password change"))
    }
}

/// Where an entry point keeps its parts.
pub proof fn law_entry_fields(e: (CapView, Seq<char>))
    ensures
        entry_cbor(e).get("c"@) == Some(cap_cbor(e.0)),
        entry_cbor(e).get("n"@) == Some(CborValue::Str(e.1)),
{
    reveal_strlit("c");
    reveal_strlit("n");
    assert("c"@[0] == 'c' && "n"@[0] == 'n');
}

/// The home of a user is the first entry point under their name, and there is none without one.
pub proof fn law_home_entry(v: Seq<(CapView, Seq<char>)>, username: Seq<char>)
    ensures
        forall|i: int|
            0 <= i < v.len() && (#[trigger] v[i]).1 == username && (forall|j: int|
                0 <= j < i ==> (#[trigger] v[j]).1 != username) ==> home_entry(v, username) == Some(v[i].0),
        (forall|i: int| 0 <= i < v.len() ==> (#[trigger] v[i]).1 != username) ==> home_entry(v, username) is None,
    decreases v.len(),
{
    if v.len() > 0 && v[0].1 != username {
        let rest = v.skip(1);
        law_home_entry(rest, username);
        assert forall|i: int|
            0 <= i < v.len() && (#[trigger] v[i]).1 == username && (forall|j: int|
                0 <= j < i ==> (#[trigger] v[j]).1 != username) implies home_entry(v, username) == Some(v[i].0) by {
            assert(rest[i - 1] == v[i]);
            assert forall|j: int| 0 <= j < i - 1 implies (#[trigger] rest[j]).1 != username by {
                assert(rest[j] == v[j + 1]);
            }
        }
        if forall|i: int| 0 <= i < v.len() ==> (#[trigger] v[i]).1 != username {
            assert forall|i: int| 0 <= i < rest.len() implies (#[trigger] rest[i]).1 != username by {
                assert(rest[i] == v[i + 1]);
            }
        }
    }
}

/// Where the parameters of the login are kept: each number under its own key, and the salt, which
/// may be missing.
pub proof fn law_login_parameters(wd: CborValue)
    ensures
        wd.get("algorithm"@) is None ==> scrypt_from(wd) is Err,
        scrypt_from(wd) matches Ok(p) ==> {
            let a = wd.get("algorithm"@)->Some_0;
            &&& a.long_at("m"@) matches Some(m) ==> 0 <= m < 0x100 ==> p.memory_cost == m
            &&& a.long_at("c"@) matches Some(c) ==> 0 <= c < 0x1_0000_0000 ==> p.cpu_cost == c
            &&& a.long_at("p"@) matches Some(n) ==> 0 <= n < 0x1_0000_0000 ==> p.parallelism == n
            &&& a.long_at("o"@) matches Some(o) ==> o >= 0 ==> p.output_bytes == o
            &&& a.text_at("s"@) matches Some(s) ==> p.extra_salt == s
            &&& a.get("s"@) is None ==> p.extra_salt.len() == 0
        },
{
}

/// The root key stands behind the signing seed, and behind a boxing seed too where 96 bytes were
/// derived.
pub proof fn law_root_key_place(p: ScryptParams)
    ensures
        p.output_bytes == 96 ==> p.root_offset() == 64,
        p.output_bytes != 96 ==> p.root_offset() == 32,
{
}

/// An answer that starts with zero, or is empty, knows no such user. Any other holds the length of
/// the key hash in four bytes, the most significant first, and then the hash.
pub proof fn law_key_hash_reply(length: Seq<u8>, hash: Seq<u8>, rest: Seq<u8>, formats: &Formats)
    requires
        length.len() == 4,
        be_value(length) == hash.len(),
    ensures
        key_hash_in(Seq::empty(), formats) == Ok::<Option<CborValue>, Fault>(None),
        key_hash_in(seq![0u8] + rest, formats) == Ok::<Option<CborValue>, Fault>(None),
        parse(hash) matches Some(v) ==> formats.accepts(Kind::KeyHash, v.0) ==> key_hash_in(
            seq![1u8] + length + hash + rest,
            formats,
        ) == Ok::<Option<CborValue>, Fault>(Some(v.0)),
        hash.len() > 0 ==> key_hash_in(seq![1u8] + length + hash.drop_last(), formats) is Err,
{
    let all = seq![1u8] + length + hash + rest;
    assert(all.subrange(1, 5) =~= length);
    assert(all.subrange(5, 5 + hash.len() as int) =~= hash);
    if hash.len() > 0 {
        let cut = seq![1u8] + length + hash.drop_last();
        assert(cut.subrange(1, 5) =~= length);
    }
}

/// An account is identified by its controller; one with entry points in its own data is a legacy
/// account.
pub proof fn law_account_data(wd: CborValue, formats: &Formats)
    ensures
        account_from(None, formats) is Err,
        account_from(Some(wd), formats) matches Ok(a) ==> wd.get("controller"@) == Some(a.controller) && a.legacy == wd.get(
            "static"@,
        ),
        wd.get("controller"@) is None ==> account_from(Some(wd), formats) is Err,
{
}

/// A signed request holds the path that it is for and the time.
pub proof fn law_timed_request(path: Seq<char>, now_millis: int)
    ensures
        timed_request(path, now_millis).get("p"@) == Some(CborValue::Str(path)),
        timed_request(path, now_millis).get("t"@) == Some(CborValue::Long(now_millis)),
{
    reveal_strlit("p");
    reveal_strlit("t");
    assert("p"@[0] == 'p' && "t"@[0] == 't');
}

/// The address of a login names the user, the login key and the signed time, and the answer to a
/// challenge where there is one.
pub proof fn law_login_address(username: Seq<char>, author: Seq<u8>, auth: Seq<u8>, mfa: Seq<u8>)
    ensures
        login_address(username, author, auth, None) == "peergos/v0/login/"@ + "getLogin?username="@ + username + "&author="@
            + hex(author) + "&auth="@ + hex(auth) + "&proxy=false"@,
        login_address(username, author, auth, Some(mfa)) == login_address(username, author, auth, None) + "&mfa="@ + hex(mfa),
{
}

/// A login goes through only where the server says so. Anything else is a challenge, which only
/// one who can answer takes up; its answer is asked in the same way.
pub proof fn law_login_replies(resp: CborValue, formats: &Formats)
    ensures
        first_reply(resp, true, formats) matches Ok(LoginView::Granted(x)) ==> resp.bool_at("a"@) == Some(true) && resp.get(
            "r"@,
        ) == Some(x),
        first_reply(resp, false, formats) matches Ok(x) ==> resp.bool_at("a"@) == Some(true),
        resp.bool_at("a"@) == Some(true) && resp.get("r"@) is Some ==> first_reply(resp, false, formats) == Ok::<
            LoginView,
            Fault,
        >(LoginView::Granted(resp.get("r"@)->Some_0)),
        first_reply(resp, true, formats) matches Ok(LoginView::Challenge(x)) ==> resp.bool_at("a"@) != Some(true)
            && resp.get("r"@) == Some(x),
        second_reply(resp) matches Ok(x) ==> resp.bool_at("a"@) == Some(true) && resp.get("r"@) == Some(x),
        resp.bool_at("a"@) == Some(true) && resp.get("r"@) is Some ==> second_reply(resp) is Ok,
{
}

/// New login data hold the user, the entry points as they are encrypted, and the login key.
pub proof fn law_login_data(username: Seq<char>, entry_points: CborValue, login_key: CborValue)
    ensures
        login_data(username, entry_points, login_key).get("u"@) == Some(CborValue::Str(username)),
        login_data(username, entry_points, login_key).get("e"@) == Some(entry_points),
        login_data(username, entry_points, login_key).get("r"@) == Some(login_key),
{
    reveal_strlit("u");
    reveal_strlit("e");
    reveal_strlit("r");
    assert("u"@[0] == 'u' && "e"@[0] == 'e' && "r"@[0] == 'r');
}

/// What is said when a login cannot go on.
pub proof fn law_logins_that_are_refused(wd: CborValue, resp: CborValue, formats: &Formats)
    ensures
        wd.get("algorithm"@) is None ==> scrypt_from(wd) == Err::<ScryptView, Fault>(
            Fault::Protocol("No login algorithm specified in user data!"@),
        ),
        wd.get("algorithm"@) matches Some(a) ==> (a.long_at("m"@) is None || a.long_at("c"@) is None || a.long_at("p"@) is None
            || a.long_at("o"@) is None ==> scrypt_from(wd) is Err),
        account_from(None, formats) == Err::<AccountView, Fault>(Fault::Protocol("writer data block missing"@)),
        resp.get("r"@) is None ==> first_reply(resp, true, formats) == Err::<LoginView, Fault>(
            Fault::Cbor("LoginResponse missing 'r'"@),
        ),
        resp.bool_at("a"@) != Some(true) ==> second_reply(resp) == Err::<CborValue, Fault>(
            Fault::Protocol("Multi-factor authentication failed"@),
        ),
        resp.bool_at("a"@) != Some(true) && resp.get("r"@) is Some && formats.accepts(Kind::Challenge, resp.get("r"@)->Some_0)
            ==> first_reply(resp, false, formats) == Err::<LoginView, Fault>(
            Fault::Protocol("Account requires multi-factor authentication"@),
        ),
        resp.bool_at("a"@) != Some(true) && resp.get("r"@) is Some && formats.accepts(Kind::Challenge, resp.get("r"@)->Some_0)
            ==> first_reply(resp, true, formats) == Ok::<LoginView, Fault>(LoginView::Challenge(resp.get("r"@)->Some_0)),
        wd.get("c"@) is None ==> entry_from(wd, formats) == Err::<(CapView, Seq<char>), Fault>(
            Fault::Cbor("EntryPoint missing 'c'"@),
        ),
        wd.text_at("n"@) is None ==> entry_from(wd, formats) is Err,
{
}

/// Entry points are read one by one, in their order, and none is passed over.
pub proof fn law_entries_are_read(v: Seq<CborValue>, formats: &Formats, i: int)
    requires
        0 <= i < v.len(),
    ensures
        entries_from(v, formats) matches Ok(l) ==> l.len() == v.len() && entry_from(v[i], formats) == Ok::<
            (CapView, Seq<char>),
            Fault,
        >(l[i]),
        entry_from(v[i], formats) is Err ==> entries_from(v, formats) is Err,
    decreases v.len(),
{
    let init = v.drop_last();
    lemma_entries_len(init, formats);
    if i < init.len() {
        law_entries_are_read(init, formats, i);
        assert(init[i] == v[i]);
    }
}

proof fn lemma_entries_len(v: Seq<CborValue>, formats: &Formats)
    ensures
        entries_from(v, formats) matches Ok(l) ==> l.len() == v.len(),
    decreases v.len(),
{
    if v.len() > 0 {
        lemma_entries_len(v.drop_last(), formats);
    }
}

/// Where the server answers what a login asks, and to what the static data of a user is padded.
pub proof fn law_login_places()
    ensures
        CORE_URL@ == "peergos/v0/core/"@,
        LOGIN_URL@ == "peergos/v0/login/"@,
        BATS_PATH@ == "peergos/v0/bats/getUserBats"@,
        USER_STATIC_DATA_PADDING == 4096,
{
}

} // verus!
