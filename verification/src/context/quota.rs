//! Storage quota and usage of an account.
use vstd::prelude::*;
use crate::cbor::{
    bool_or, bool_or_else, long_or, long_or_zero, map_put, map_put_opt, opt_text_cbor, CborObject, CborValue,
};
use crate::cbor_codec::{encode, parse};
use crate::cryptree::properties::bytes_cbor;
use crate::error::{fails_cbor, fails_protocol, opt, protocol, Result};
use crate::hex::{hex, to_hex};
use crate::text::{copy_bytes, join3, join4};

verus! {

broadcast use crate::cbor::group_cbor;

pub const SPACE_USAGE_URL: &'static str = "peergos/v0/storage/";

/// The integer that an endpoint answers.
pub fn parse_cbor_long(res: &[u8]) -> (r: Result<i64>)
    ensures
        match parse(res@) {
            None => fails_cbor(r, "invalid cbor"@),
            Some((CborValue::Long(n), c)) => r is Ok && r->Ok_0 == n,
            Some(_) => fails_protocol(r, "expected a CBOR long response"@),
        },
{
    match CborObject::from_bytes(res) {
        Err(e) => Err(e),
        Ok(v) => match v.as_long() {
            Some(n) => Ok(n),
            None => Err(protocol("expected a CBOR long response")),
        },
    }
}

/// A request for more storage, which is signed and sent.
#[derive(Debug, PartialEq, Eq)]
pub struct SpaceRequest {
    pub username: String,
    pub bytes: i64,
    pub annual: bool,
    pub utc_millis: i64,
    pub payment_proof: Option<Vec<u8>>,
}

/// The CBOR of a request for more storage.
pub open spec fn space_cbor(
    username: Seq<char>,
    bytes: int,
    annual: bool,
    utc_millis: int,
    payment_proof: Option<Seq<u8>>,
) -> CborValue {
    let m = map_put(Seq::empty(), "u"@, CborValue::Str(username));
    let m = map_put(m, "s"@, CborValue::Long(bytes));
    let m = map_put(m, "a"@, CborValue::Boolean(annual));
    let m = map_put(m, "t"@, CborValue::Long(utc_millis));
    CborValue::Mapping(map_put_opt(m, "p"@, bytes_cbor(payment_proof)))
}

impl SpaceRequest {
    pub fn to_cbor(&self) -> (r: CborObject)
        ensures
            r@ == space_cbor(
                self.username@,
                self.bytes as int,
                self.annual,
                self.utc_millis as int,
                opt(self.payment_proof),
            ),
    {
        let proof_bytes = match &self.payment_proof {
            Some(p) => Some(CborObject::ByteString(copy_bytes(p))),
            None => None,
        };
        CborObject::map().put("u", CborObject::Str(self.username.clone())).put("s", CborObject::Long(self.bytes)).put(
            "a",
            CborObject::Boolean(self.annual),
        ).put("t", CborObject::Long(self.utc_millis)).put_opt("p", proof_bytes).build()
    }

    /// The bytes to sign.
    pub fn serialize(&self) -> (r: Vec<u8>)
        ensures
            r@ == encode(
                space_cbor(
                    self.username@,
                    self.bytes as int,
                    self.annual,
                    self.utc_millis as int,
                    opt(self.payment_proof),
                ),
            ),
    {
        self.to_cbor().to_bytes()
    }
}

/// The answer to a request for more storage.
#[derive(Debug, PartialEq, Eq)]
pub struct PaymentProperties {
    pub payment_server_url: Option<String>,
    pub client_secret: Option<String>,
    pub error: Option<String>,
    pub free_quota: i64,
    pub desired_quota: i64,
    pub annual: bool,
    pub expiry_epoch_secs: Option<i64>,
    pub next_charge: i64,
}

/// The content of [`PaymentProperties`].
pub ghost struct PaymentView {
    pub payment_server_url: Option<Seq<char>>,
    pub client_secret: Option<Seq<char>>,
    pub error: Option<Seq<char>>,
    pub free_quota: int,
    pub desired_quota: int,
    pub annual: bool,
    pub expiry_epoch_secs: Option<int>,
    pub next_charge: int,
}

impl View for PaymentProperties {
    type V = PaymentView;

    open spec fn view(&self) -> PaymentView {
        PaymentView {
            payment_server_url: opt(self.payment_server_url),
            client_secret: opt(self.client_secret),
            error: opt(self.error),
            free_quota: self.free_quota as int,
            desired_quota: self.desired_quota as int,
            annual: self.annual,
            expiry_epoch_secs: match self.expiry_epoch_secs {
                Some(n) => Some(n as int),
                None => None,
            },
            next_charge: self.next_charge as int,
        }
    }
}

/// The CBOR of payment properties.
pub open spec fn payment_cbor(p: PaymentView) -> CborValue {
    let m = map_put(Seq::empty(), "freeQuota"@, CborValue::Long(p.free_quota));
    let m = map_put(m, "desiredQuota"@, CborValue::Long(p.desired_quota));
    let m = map_put(m, "annual"@, CborValue::Boolean(p.annual));
    let m = map_put(m, "nextCharge"@, CborValue::Long(p.next_charge));
    let m = map_put_opt(m, "url"@, opt_text_cbor(p.payment_server_url));
    let m = map_put_opt(m, "err"@, opt_text_cbor(p.error));
    let m = map_put_opt(m, "client_secret"@, opt_text_cbor(p.client_secret));
    CborValue::Mapping(
        map_put_opt(
            m,
            "expiry"@,
            match p.expiry_epoch_secs {
                Some(n) => Some(CborValue::Long(n)),
                None => None,
            },
        ),
    )
}

/// The payment properties that a value describes.
pub open spec fn payment_from(v: CborValue) -> PaymentView {
    PaymentView {
        payment_server_url: v.text_at("url"@),
        client_secret: v.text_at("client_secret"@),
        error: v.text_at("err"@),
        free_quota: long_or_zero(v, "freeQuota"@),
        desired_quota: long_or_zero(v, "desiredQuota"@),
        annual: bool_or_else(v, "annual"@, false),
        expiry_epoch_secs: v.long_at("expiry"@),
        next_charge: long_or_zero(v, "nextCharge"@),
    }
}

fn text_cbor(s: &Option<String>) -> (r: Option<CborObject>)
    ensures
        opt(r) == opt_text_cbor(opt(*s)),
{
    match s {
        Some(x) => Some(CborObject::Str(x.clone())),
        None => None,
    }
}

impl PaymentProperties {
    pub fn from_cbor(cbor: &CborObject) -> (r: PaymentProperties)
        ensures
            r@ == payment_from(cbor@),
    {
        PaymentProperties {
            payment_server_url: cbor.text_at("url"),
            client_secret: cbor.text_at("client_secret"),
            error: cbor.text_at("err"),
            free_quota: long_or(cbor, "freeQuota"),
            desired_quota: long_or(cbor, "desiredQuota"),
            annual: bool_or(cbor, "annual", false),
            expiry_epoch_secs: cbor.long_at("expiry"),
            next_charge: long_or(cbor, "nextCharge"),
        }
    }

    pub fn to_cbor(&self) -> (r: CborObject)
        ensures
            r@ == payment_cbor(self@),
    {
        let expiry = match self.expiry_epoch_secs {
            Some(e) => Some(CborObject::Long(e)),
            None => None,
        };
        CborObject::map().put("freeQuota", CborObject::Long(self.free_quota)).put(
            "desiredQuota",
            CborObject::Long(self.desired_quota),
        ).put("annual", CborObject::Boolean(self.annual)).put("nextCharge", CborObject::Long(self.next_charge)).put_opt(
            "url",
            text_cbor(&self.payment_server_url),
        ).put_opt("err", text_cbor(&self.error)).put_opt("client_secret", text_cbor(&self.client_secret)).put_opt(
            "expiry",
            expiry,
        ).build()
    }

    /// The payment properties that the server answers.
    pub fn from_response(res: &[u8]) -> (r: Result<PaymentProperties>)
        ensures
            match parse(res@) {
                None => fails_cbor(r, "invalid cbor"@),
                Some((v, c)) => r is Ok && r->Ok_0@ == payment_from(v),
            },
    {
        match CborObject::from_bytes(res) {
            Err(e) => Err(e),
            Ok(v) => Ok(PaymentProperties::from_cbor(&v)),
        }
    }
}

/// Payment properties are read back from their CBOR as they were.
pub proof fn law_payment_round_trip(p: PaymentView)
    ensures
        payment_from(payment_cbor(p)) == p,
{
    reveal_strlit("freeQuota");
    reveal_strlit("desiredQuota");
    reveal_strlit("annual");
    reveal_strlit("nextCharge");
    reveal_strlit("url");
    reveal_strlit("err");
    reveal_strlit("client_secret");
    reveal_strlit("expiry");
    assert("freeQuota"@[0] == 'f' && "desiredQuota"@[0] == 'd' && "annual"@[0] == 'a' && "nextCharge"@[0] == 'n'
        && "url"@[0] == 'u' && "err"@[0] == 'e' && "err"@[1] == 'r' && "client_secret"@[0] == 'c' && "expiry"@[0] == 'e'
        && "expiry"@[1] == 'x');
}

/// Where the quota of an account is asked for. `owner` is encoded for a URL, and `auth` is
/// the signed time.
pub fn quota_url(owner: &str, auth: &[u8]) -> (r: String)
    ensures
        r@ == SPACE_USAGE_URL@ + "quota?owner="@ + owner@ + "&auth="@ + hex(auth@),
{
    let a = join3(SPACE_USAGE_URL, "quota?owner=", owner);
    join3(a.as_str(), "&auth=", to_hex(auth).as_str())
}

/// A boolean as text.
pub open spec fn bool_text(b: bool) -> Seq<char> {
    if b {
        "true"@
    } else {
        "false"@
    }
}

fn show_bool(b: bool) -> (r: &'static str)
    ensures
        r@ == bool_text(b),
{
    if b {
        "true"
    } else {
        "false"
    }
}

/// Where the usage of an account is asked for, across the network or on this server only.
pub fn usage_url(owner: &str, local: bool, auth: &[u8]) -> (r: String)
    ensures
        r@ == SPACE_USAGE_URL@ + "usage?owner="@ + owner@ + "&local="@ + bool_text(local) + "&auth="@ + hex(auth@),
{
    let a = join4(SPACE_USAGE_URL, "usage?owner=", owner, "&local=");
    join4(a.as_str(), show_bool(local), "&auth=", to_hex(auth).as_str())
}

/// Where a signed request for more storage is sent.
pub fn request_url(owner: &str, signed: &[u8]) -> (r: String)
    ensures
        r@ == SPACE_USAGE_URL@ + "request?owner="@ + owner@ + "&req="@ + hex(signed@),
{
    let a = join3(SPACE_USAGE_URL, "request?owner=", owner);
    join3(a.as_str(), "&req=", to_hex(signed).as_str())
}

/// Where the payment properties of an account are asked for.
pub fn payment_url(owner: &str, new_client_secret: bool, auth: &[u8]) -> (r: String)
    ensures
        r@ == SPACE_USAGE_URL@ + "payment-properties?owner="@ + owner@ + "&new-client-secret="@ + bool_text(
            new_client_secret,
        ) + "&auth="@ + hex(auth@),
{
    let a = join4(SPACE_USAGE_URL, "payment-properties?owner=", owner, "&new-client-secret=");
    join4(a.as_str(), show_bool(new_client_secret), "&auth=", to_hex(auth).as_str())
}

/// Where a request for space keeps its parts.
pub proof fn law_space_fields(username: Seq<char>, bytes: int, annual: bool, utc_millis: int, proof_of: Option<Seq<u8>>)
    ensures
        ({
            let r = space_cbor(username, bytes, annual, utc_millis, proof_of);
            &&& r.get("u"@) == Some(CborValue::Str(username))
            &&& r.get("s"@) == Some(CborValue::Long(bytes))
            &&& r.get("a"@) == Some(CborValue::Boolean(annual))
            &&& r.get("t"@) == Some(CborValue::Long(utc_millis))
            &&& proof_of matches Some(b) ==> r.get("p"@) == Some(CborValue::ByteString(b))
            &&& proof_of is None ==> r.get("p"@) is None
        }),
{
    reveal_strlit("u");
    reveal_strlit("s");
    reveal_strlit("a");
    reveal_strlit("t");
    reveal_strlit("p");
    assert("u"@[0] == 'u' && "s"@[0] == 's' && "a"@[0] == 'a' && "t"@[0] == 't' && "p"@[0] == 'p');
}

/// What an answer about payment says stands under the names of its fields: no number is zero, and
/// no flag is false.
pub proof fn law_payment_is_read_field_by_field(v: CborValue)
    ensures
        payment_from(v).payment_server_url == v.text_at("url"@),
        payment_from(v).client_secret == v.text_at("client_secret"@),
        payment_from(v).error == v.text_at("err"@),
        payment_from(v).expiry_epoch_secs == v.long_at("expiry"@),
        v.long_at("freeQuota"@) matches Some(n) ==> payment_from(v).free_quota == n,
        v.long_at("desiredQuota"@) matches Some(n) ==> payment_from(v).desired_quota == n,
        v.long_at("nextCharge"@) matches Some(n) ==> payment_from(v).next_charge == n,
        v.bool_at("annual"@) matches Some(b) ==> payment_from(v).annual == b,
        v.long_at("freeQuota"@) is None ==> payment_from(v).free_quota == 0,
        v.long_at("desiredQuota"@) is None ==> payment_from(v).desired_quota == 0,
        v.long_at("nextCharge"@) is None ==> payment_from(v).next_charge == 0,
        v.bool_at("annual"@) is None ==> !payment_from(v).annual,
{
}

/// A flag in an address is the word for it.
pub proof fn law_bool_text()
    ensures
        bool_text(true) == "true"@,
        bool_text(false) == "false"@,
{
}

/// Where the server answers what is asked of a user's space.
pub proof fn law_space_address()
    ensures
        SPACE_USAGE_URL@ == "peergos/v0/storage/"@,
{
}

} // verus!
