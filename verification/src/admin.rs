//! Admin operations: pending space requests, approval, server version, signups.
use vstd::prelude::*;
use crate::cbor::{items, map_put, text_or, text_or_empty, CborObject, CborValue};
use crate::cbor_codec::{encode, parse};
use crate::error::{agrees, error_is, fails_cbor, fails_protocol, protocol, Fault, Result};
use crate::hex::{hex, to_hex};
use crate::text::{copy_bytes, join2, join3, join4};

verus! {

broadcast use crate::cbor::group_cbor;

pub const ADMIN_URL: &'static str = "peergos/v0/admin/";

/// A pending space request from a user.
#[derive(Debug, PartialEq, Eq)]
pub struct LabelledSignedSpaceRequest {
    pub username: String,
    pub signed_request: Vec<u8>,
}

impl View for LabelledSignedSpaceRequest {
    type V = (Seq<char>, Seq<u8>);

    open spec fn view(&self) -> (Seq<char>, Seq<u8>) {
        (self.username@, self.signed_request@)
    }
}

/// The CBOR of a space request.
pub open spec fn request_cbor(r: (Seq<char>, Seq<u8>)) -> CborValue {
    CborValue::Mapping(
        map_put(map_put(Seq::empty(), "u"@, CborValue::Str(r.0)), "r"@, CborValue::ByteString(r.1)),
    )
}

/// The space request that a value describes.
pub open spec fn request_from(v: CborValue) -> core::result::Result<(Seq<char>, Seq<u8>), Fault> {
    match (v.text_at("u"@), v.bytes_at("r"@)) {
        (None, _) => Err(Fault::Protocol("missing 'u' in LabelledSignedSpaceRequest"@)),
        (_, None) => Err(Fault::Protocol("missing 'r' in LabelledSignedSpaceRequest"@)),
        (Some(u), Some(r)) => Ok((u, r)),
    }
}

impl LabelledSignedSpaceRequest {
    pub fn from_cbor(cbor: &CborObject) -> (r: Result<LabelledSignedSpaceRequest>)
        ensures
            agrees(r, request_from(cbor@)),
    {
        match cbor.text_at("u") {
            None => Err(protocol("missing 'u' in LabelledSignedSpaceRequest")),
            Some(username) => match cbor.bytes_at("r") {
                None => Err(protocol("missing 'r' in LabelledSignedSpaceRequest")),
                Some(signed_request) => Ok(LabelledSignedSpaceRequest { username, signed_request }),
            },
        }
    }

    pub fn to_cbor(&self) -> (r: CborObject)
        ensures
            r@ == request_cbor(self@),
    {
        CborObject::map().put("u", CborObject::Str(self.username.clone())).put(
            "r",
            CborObject::ByteString(copy_bytes(&self.signed_request)),
        ).build()
    }

    /// The bytes of this request, which an admin signs to approve it.
    pub fn serialize(&self) -> (r: Vec<u8>)
        ensures
            r@ == encode(request_cbor(self@)),
    {
        self.to_cbor().to_bytes()
    }
}

/// A space request is read back from its CBOR as it was.
pub proof fn law_request_round_trip(r: (Seq<char>, Seq<u8>))
    ensures
        request_from(request_cbor(r)) == Ok::<(Seq<char>, Seq<u8>), Fault>(r),
{
    reveal_strlit("u");
    reveal_strlit("r");
    assert("u"@[0] == 'u' && "r"@[0] == 'r');
}

/// Server version info.
#[derive(Debug, PartialEq, Eq)]
pub struct VersionInfo {
    pub version: String,
    pub source_version: String,
}

/// Whether signups are allowed.
#[derive(Debug, PartialEq, Eq)]
pub struct AllowedSignups {
    pub free: bool,
    pub paid: bool,
}

impl VersionInfo {
    pub fn from_cbor(cbor: &CborObject) -> (r: VersionInfo)
        ensures
            r.version@ == text_or_empty(cbor@, "v"@),
            r.source_version@ == text_or_empty(cbor@, "s"@),
    {
        VersionInfo { version: text_or(cbor, "v"), source_version: text_or(cbor, "s") }
    }

    /// The version info that the server answers.
    pub fn from_response(res: &[u8]) -> (r: Result<VersionInfo>)
        ensures
            match parse(res@) {
                None => fails_cbor(r, "invalid cbor"@),
                Some((v, c)) => r is Ok && r->Ok_0.version@ == text_or_empty(v, "v"@) && r->Ok_0.source_version@
                    == text_or_empty(v, "s"@),
            },
    {
        match CborObject::from_bytes(res) {
            Err(e) => Err(e),
            Ok(v) => Ok(VersionInfo::from_cbor(&v)),
        }
    }
}

fn flag(cbor: &CborObject, key: &str) -> (r: bool)
    ensures
        r == (cbor@.bool_at(key@) == Some(true)),
{
    match cbor.bool_at(key) {
        Some(b) => b,
        None => false,
    }
}

impl AllowedSignups {
    pub fn from_cbor(cbor: &CborObject) -> (r: AllowedSignups)
        ensures
            r.free == (cbor@.bool_at("f"@) == Some(true)),
            r.paid == (cbor@.bool_at("p"@) == Some(true)),
    {
        AllowedSignups { free: flag(cbor, "f"), paid: flag(cbor, "p") }
    }

    /// What the server answers about signups.
    pub fn from_response(res: &[u8]) -> (r: Result<AllowedSignups>)
        ensures
            match parse(res@) {
                None => fails_cbor(r, "invalid cbor"@),
                Some((v, c)) => r is Ok && r->Ok_0.free == (v.bool_at("f"@) == Some(true)) && r->Ok_0.paid == (
                v.bool_at("p"@) == Some(true)),
            },
    {
        match CborObject::from_bytes(res) {
            Err(e) => Err(e),
            Ok(v) => Ok(AllowedSignups::from_cbor(&v)),
        }
    }
}

/// An admin endpoint.
pub fn admin_url(endpoint: &str) -> (r: String)
    ensures
        r@ == ADMIN_URL@ + endpoint@,
{
    join2(ADMIN_URL, endpoint)
}

/// Where an email is added to the waitlist. `email` is encoded for a URL.
pub fn waitlist_url(email: &str) -> (r: String)
    ensures
        r@ == ADMIN_URL@ + "waitlist?email="@ + email@,
{
    join3(ADMIN_URL, "waitlist?email=", email)
}

/// Where the pending space requests are listed. `admin` and `instance` are encoded for a
/// URL, and `auth` is the signed time.
pub fn pending_url(admin: &str, instance: &str, auth: &[u8]) -> (r: String)
    ensures
        r@ == ADMIN_URL@ + "pending?admin="@ + admin@ + "&instance="@ + instance@ + "&auth="@ + hex(auth@),
{
    let a = join4(ADMIN_URL, "pending?admin=", admin, "&instance=");
    join4(a.as_str(), instance, "&auth=", to_hex(auth).as_str())
}

/// Where a space request is approved: `signed` is the request, signed by the admin.
pub fn approve_url(admin: &str, instance: &str, signed: &[u8]) -> (r: String)
    ensures
        r@ == ADMIN_URL@ + "approve?admin="@ + admin@ + "&instance="@ + instance@ + "&req="@ + hex(signed@),
{
    let a = join4(ADMIN_URL, "approve?admin=", admin, "&instance=");
    join4(a.as_str(), instance, "&req=", to_hex(signed).as_str())
}

/// The contents of a list of space requests.
pub open spec fn request_views(v: Seq<LabelledSignedSpaceRequest>) -> Seq<(Seq<char>, Seq<u8>)> {
    Seq::new(v.len(), |i: int| v[i]@)
}

/// The space requests that a list describes, up to the first that is none.
pub open spec fn requests_from(v: Seq<CborValue>) -> core::result::Result<Seq<(Seq<char>, Seq<u8>)>, Fault>
    decreases v.len(),
{
    if v.len() == 0 {
        Ok(Seq::empty())
    } else {
        match (requests_from(v.drop_last()), request_from(v.last())) {
            (Err(f), _) => Err(f),
            (_, Err(f)) => Err(f),
            (Ok(s), Ok(r)) => Ok(s.push(r)),
        }
    }
}

proof fn lemma_requests_fail(v: Seq<CborValue>, n: int)
    requires
        0 <= n <= v.len(),
        requests_from(v.take(n)) is Err,
    ensures
        requests_from(v) == requests_from(v.take(n)),
    decreases v.len(),
{
    if n < v.len() {
        assert(v.drop_last().take(n) =~= v.take(n));
        lemma_requests_fail(v.drop_last(), n);
    } else {
        assert(v.take(n) =~= v);
    }
}

/// The pending space requests that the server answers.
pub fn pending_requests(res: &[u8]) -> (r: Result<Vec<LabelledSignedSpaceRequest>>)
    ensures
        match parse(res@) {
            None => fails_cbor(r, "invalid cbor"@),
            Some((CborValue::List(l), c)) => match requests_from(l) {
                Ok(s) => r is Ok && request_views(r->Ok_0@) == s,
                Err(f) => r is Err && error_is(r->Err_0, f),
            },
            Some(_) => fails_protocol(r, "expected a CBOR list"@),
        },
{
    let v = match CborObject::from_bytes(res) {
        Err(e) => {
            return Err(e);
        },
        Ok(v) => v,
    };
    let list = match v {
        CborObject::List(l) => l,
        _ => {
            return Err(protocol("expected a CBOR list"));
        },
    };
    let ghost all = items(list@);
    let mut out: Vec<LabelledSignedSpaceRequest> = Vec::new();
    proof {
        assert(all.take(0) =~= Seq::empty());
        assert(request_views(out@) =~= Seq::empty());
    }
    for i in 0..list.len()
        invariant
            all == items(list@),
            parse(res@) is Some,
            parse(res@)->Some_0.0 == CborValue::List(all),
            requests_from(all.take(i as int)) == Ok::<Seq<(Seq<char>, Seq<u8>)>, Fault>(request_views(out@)),
    {
        let ghost before = request_views(out@);
        proof {
            assert(all.take(i as int + 1).drop_last() =~= all.take(i as int));
            assert(all.take(i as int + 1).last() == list[i as int]@);
        }
        match LabelledSignedSpaceRequest::from_cbor(&list[i]) {
            Ok(p) => {
                let ghost pv = p@;
                out.push(p);
                proof {
                    assert(request_views(out@) =~= before.push(pv));
                }
            },
            Err(e) => {
                proof {
                    lemma_requests_fail(all, i as int + 1);
                }
                return Err(e);
            },
        }
    }
    proof {
        assert(all.take(all.len() as int) =~= all);
    }
    Ok(out)
}

/// Where a pending request keeps its parts, and in which order requests are read.
pub proof fn law_request_fields(r: (Seq<char>, Seq<u8>))
    ensures
        request_cbor(r).get("u"@) == Some(CborValue::Str(r.0)),
        request_cbor(r).get("r"@) == Some(CborValue::ByteString(r.1)),
{
    reveal_strlit("u");
    reveal_strlit("r");
    assert("u"@[0] == 'u' && "r"@[0] == 'r');
}

/// Every request of a list is read, in its order; one that is none spoils the list.
pub proof fn law_requests_are_read(v: Seq<CborValue>, i: int)
    requires
        0 <= i < v.len(),
    ensures
        requests_from(v) matches Ok(s) ==> s.len() == v.len() && request_from(v[i]) == Ok::<(Seq<char>, Seq<u8>), Fault>(
            s[i],
        ),
        request_from(v[i]) is Err ==> requests_from(v) is Err,
    decreases v.len(),
{
    let init = v.drop_last();
    if i < init.len() {
        law_requests_are_read(init, i);
    } else if init.len() > 0 {
        law_requests_are_read(init, 0);
    }
}

/// Where the server answers its administrators.
pub proof fn law_admin_address()
    ensures
        ADMIN_URL@ == "peergos/v0/admin/"@,
{
}

} // verus!
