//! Second-factor management of an account.
//!
//! The endpoints are authenticated by a signed request: a path and the time, signed with the
//! account's identity key, sent as `&auth=<hex>`.
use vstd::prelude::*;
use vstd::utf8::*;
use crate::cbor::{items, CborObject, CborValue};
use crate::cbor_codec::{encode, parse};
use crate::error::{cbor_error, error_is, fails_cbor, fails_protocol, opt, protocol, Fault, Result};
use crate::hex::{hex, to_hex};
use crate::login::{request_to_sign, timed_request, LOGIN_URL};
use crate::opaque::{Formats, Kind};
use crate::text::{join2, join3, join4, utf8_text};

verus! {

broadcast use crate::cbor::group_cbor;

/// The bytes to sign for a request to an endpoint of the account.
pub fn endpoint_to_sign(endpoint: &str, now_millis: i64) -> (r: Vec<u8>)
    ensures
        r@ == encode(timed_request(LOGIN_URL@ + endpoint@, now_millis as int)),
{
    let path = join2(LOGIN_URL, endpoint);
    request_to_sign(path.as_str(), now_millis)
}

/// An endpoint with the user as its first parameter.
pub open spec fn endpoint_of(endpoint: Seq<char>, username: Seq<char>) -> Seq<char> {
    LOGIN_URL@ + endpoint + "?username="@ + username
}

/// An endpoint that takes nothing but the user: `listMfa`, `addTotp` and
/// `registerWebauthnStart`.
pub fn endpoint_url(endpoint: &str, username: &str, auth: &[u8]) -> (r: String)
    ensures
        r@ == endpoint_of(endpoint@, username@) + "&auth="@ + hex(auth@),
{
    let a = join4(LOGIN_URL, endpoint, "?username=", username);
    join3(a.as_str(), "&auth=", to_hex(auth).as_str())
}

/// Where a TOTP factor is enabled by proving its current code.
pub fn enable_totp_url(username: &str, credential_id: &[u8], auth: &[u8], code: &str) -> (r: String)
    ensures
        r@ == endpoint_of("enableTotp"@, username@) + "&credid="@ + hex(credential_id@) + "&auth="@ + hex(auth@)
            + "&code="@ + code@,
{
    let a = join4(LOGIN_URL, "enableTotp", "?username=", username);
    let b = join3(a.as_str(), "&credid=", to_hex(credential_id).as_str());
    let c = join3(b.as_str(), "&auth=", to_hex(auth).as_str());
    join3(c.as_str(), "&code=", code)
}

/// Where a second factor is removed.
pub fn delete_mfa_url(username: &str, credential_id: &[u8], auth: &[u8]) -> (r: String)
    ensures
        r@ == endpoint_of("deleteMfa"@, username@) + "&credid="@ + hex(credential_id@) + "&auth="@ + hex(auth@),
{
    let a = join4(LOGIN_URL, "deleteMfa", "?username=", username);
    let b = join3(a.as_str(), "&credid=", to_hex(credential_id).as_str());
    join3(b.as_str(), "&auth=", to_hex(auth).as_str())
}

/// Where the registration of a security key is completed. `key_name` is encoded for a URL.
pub fn register_key_url(username: &str, key_name: &str, auth: &[u8]) -> (r: String)
    ensures
        r@ == endpoint_of("registerWebauthnComplete"@, username@) + "&keyname="@ + key_name@ + "&auth="@ + hex(auth@),
{
    let a = join4(LOGIN_URL, "registerWebauthnComplete", "?username=", username);
    let b = join3(a.as_str(), "&keyname=", key_name);
    join3(b.as_str(), "&auth=", to_hex(auth).as_str())
}

/// The boolean that an endpoint answers.
pub fn parse_bool(res: &[u8]) -> (r: Result<bool>)
    ensures
        match parse(res@) {
            None => fails_cbor(r, "invalid cbor"@),
            Some((CborValue::Boolean(b), c)) => r is Ok && r->Ok_0 == b,
            Some(_) => fails_protocol(r, "expected a boolean response"@),
        },
{
    match CborObject::from_bytes(res) {
        Err(e) => Err(e),
        Ok(v) => match v.as_bool() {
            Some(b) => Ok(b),
            None => Err(protocol("expected a boolean response")),
        },
    }
}

/// Why a list of second factors is refused: by the first that is malformed, if any.
pub open spec fn factor_fault(v: Seq<CborValue>, formats: &Formats) -> Option<Fault>
    decreases v.len(),
{
    if v.len() == 0 {
        None
    } else {
        match formats.fault(Kind::SecondFactor, v[0]) {
            Some(f) => Some(f),
            None => factor_fault(v.skip(1), formats),
        }
    }
}

/// The second factors that are registered, each as its CBOR.
pub fn second_factors(res: &[u8], formats: &Formats) -> (r: Result<Vec<CborObject>>)
    ensures
        match parse(res@) {
            None => fails_cbor(r, "invalid cbor"@),
            Some((CborValue::List(l), c)) => match factor_fault(l, formats) {
                Some(f) => r is Err && error_is(r->Err_0, f),
                None => r is Ok && items(r->Ok_0@) == l,
            },
            Some(_) => fails_cbor(r, "listMfa did not return a list"@),
        },
{
    match CborObject::from_bytes(res) {
        Err(e) => Err(e),
        Ok(v) => match v {
            CborObject::List(l) => {
                let ghost all = items(l@);
                proof {
                    assert(all.skip(0) =~= all);
                }
                for i in 0..l.len()
                    invariant
                        all == items(l@),
                        parse(res@) is Some,
                        parse(res@)->Some_0.0 == CborValue::List(all),
                        factor_fault(all, formats) == factor_fault(all.skip(i as int), formats),
                {
                    proof {
                        assert(all.skip(i as int)[0] == l@[i as int]@);
                        assert(all.skip(i as int).skip(1) =~= all.skip(i as int + 1));
                    }
                    match formats.read(Kind::SecondFactor, &l[i]) {
                        Ok(_) => {},
                        Err(e) => {
                            return Err(e);
                        },
                    }
                }
                proof {
                    assert(all.skip(all.len() as int) =~= Seq::empty());
                }
                Ok(l)
            },
            _ => Err(cbor_error("listMfa did not return a list")),
        },
    }
}

/// The text of a new TOTP factor.
pub fn totp_text(res: Vec<u8>) -> (r: Result<String>)
    ensures
        valid_utf8(res@) ==> r is Ok && r->Ok_0@ == decode_utf8(res@),
        !valid_utf8(res@) ==> fails_protocol(r, "addTotp returned non-UTF8"@),
{
    match utf8_text(res) {
        Some(t) => Ok(t),
        None => Err(protocol("addTotp returned non-UTF8")),
    }
}

/// Whether a TOTP factor counts as enrolled: the server has to take its first code.
pub fn check_enrolled(accepted: bool) -> (r: Result<()>)
    ensures
        accepted ==> r is Ok,
        !accepted ==> fails_protocol(r, "server rejected the TOTP enrollment code"@),
{
    if accepted {
        Ok(())
    } else {
        Err(protocol("server rejected the TOTP enrollment code"))
    }
}

/// The credential to answer a challenge with, out of the one that the server offered of the
/// wanted kind, if any: a security key, or else TOTP.
pub fn offered_credential(offered: Option<Vec<u8>>, security_key: bool) -> (r: Result<Vec<u8>>)
    ensures
        match opt(offered) {
            Some(id) => r is Ok && r->Ok_0@ == id,
            None => fails_protocol(
                r,
                if security_key {
                    "server did not offer a WebAuthn factor"@
                } else {
                    "server did not offer a TOTP factor"@
                },
            ),
        },
{
    match offered {
        Some(id) => Ok(id),
        None => {
            if security_key {
                Err(protocol("server did not offer a WebAuthn factor"))
            } else {
                Err(protocol("server did not offer a TOTP factor"))
            }
        },
    }
}

/// The address of an endpoint of the account names the user first.
pub proof fn law_endpoints(endpoint: Seq<char>, username: Seq<char>)
    ensures
        endpoint_of(endpoint, username) == "peergos/v0/login/"@ + endpoint + "?username="@ + username,
{
}

/// The fault of a list of second factors is that of the first that has one.
pub proof fn law_second_factors_are_read(v: Seq<CborValue>, formats: &Formats, i: int)
    requires
        0 <= i < v.len(),
    ensures
        factor_fault(v, formats) is None ==> formats.fault(Kind::SecondFactor, v[i]) is None,
        formats.fault(Kind::SecondFactor, v[i]) is Some && (forall|k: int|
            0 <= k < i ==> formats.fault(Kind::SecondFactor, #[trigger] v[k]) is None) ==> factor_fault(v, formats)
            == formats.fault(Kind::SecondFactor, v[i]),
    decreases v.len(),
{
    if i > 0 {
        let rest = v.skip(1);
        assert(rest[i - 1] == v[i]);
        law_second_factors_are_read(rest, formats, i - 1);
        if forall|k: int| 0 <= k < i ==> formats.fault(Kind::SecondFactor, #[trigger] v[k]) is None {
            assert(formats.fault(Kind::SecondFactor, v[0]) is None);
            assert forall|k: int| 0 <= k < i - 1 implies formats.fault(Kind::SecondFactor, #[trigger] rest[k]) is None by {
                assert(rest[k] == v[k + 1]);
            }
        }
    }
}

} // verus!
