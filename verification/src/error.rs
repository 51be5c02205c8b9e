//! What can go wrong, with the message a caller shows.
use vstd::prelude::*;

verus! {

/// An error of the library, by the layer that it belongs to.
#[derive(Debug, PartialEq, Eq)]
pub enum Error {
    /// The server, a peer or a caller broke a rule of the filesystem.
    Protocol(String),
    /// A CBOR value does not have the expected shape.
    Cbor(String),
    /// A cryptographic operation failed.
    Crypto(String),
    /// A multiformat value (cid, multihash, multibase) is malformed.
    Multiformat(String),
}

/// The library's result type.
pub type Result<T> = core::result::Result<T, Error>;

/// `e` is a protocol error with message `m`.
pub open spec fn is_protocol(e: Error, m: Seq<char>) -> bool {
    e matches Error::Protocol(s) && s@ == m
}

/// `e` is a CBOR error with message `m`.
pub open spec fn is_cbor(e: Error, m: Seq<char>) -> bool {
    e matches Error::Cbor(s) && s@ == m
}

/// `r` failed with the protocol error `m`.
pub open spec fn fails_protocol<T>(r: Result<T>, m: Seq<char>) -> bool {
    r is Err && is_protocol(r->Err_0, m)
}

/// `r` failed with the CBOR error `m`.
pub open spec fn fails_cbor<T>(r: Result<T>, m: Seq<char>) -> bool {
    r is Err && is_cbor(r->Err_0, m)
}

/// A protocol error with a fixed message.
pub fn protocol(m: &str) -> (e: Error)
    ensures
        is_protocol(e, m@),
{
    Error::Protocol(m.to_owned())
}

/// A protocol error whose message is two texts joined.
pub fn protocol_of(m: &str, detail: &str) -> (e: Error)
    ensures
        is_protocol(e, m@ + detail@),
{
    let mut s: String = m.to_owned();
    s.append(detail);
    Error::Protocol(s)
}

/// A CBOR error with a fixed message.
pub fn cbor_error(m: &str) -> (e: Error)
    ensures
        is_cbor(e, m@),
{
    Error::Cbor(m.to_owned())
}

/// A CBOR error whose message is two texts joined.
pub fn cbor_error_of(m: &str, detail: &str) -> (e: Error)
    ensures
        is_cbor(e, m@ + detail@),
{
    let mut s: String = m.to_owned();
    s.append(detail);
    Error::Cbor(s)
}

/// An error as a specification states it.
pub ghost enum Fault {
    Protocol(Seq<char>),
    Cbor(Seq<char>),
    Crypto(Seq<char>),
    Multiformat(Seq<char>),
}

/// `e` is the error `f`.
pub open spec fn error_is(e: Error, f: Fault) -> bool {
    match f {
        Fault::Protocol(m) => is_protocol(e, m),
        Fault::Cbor(m) => is_cbor(e, m),
        Fault::Crypto(m) => e matches Error::Crypto(s) && s@ == m,
        Fault::Multiformat(m) => e matches Error::Multiformat(s) && s@ == m,
    }
}

impl View for Error {
    type V = Fault;

    open spec fn view(&self) -> Fault {
        match self {
            Error::Protocol(m) => Fault::Protocol(m@),
            Error::Cbor(m) => Fault::Cbor(m@),
            Error::Crypto(m) => Fault::Crypto(m@),
            Error::Multiformat(m) => Fault::Multiformat(m@),
        }
    }
}

impl Error {
    /// A copy of this error.
    pub fn dup(&self) -> (r: Error)
        ensures
            r@ == self@,
            error_is(r, self@),
    {
        match self {
            Error::Protocol(m) => Error::Protocol(m.clone()),
            Error::Cbor(m) => Error::Cbor(m.clone()),
            Error::Crypto(m) => Error::Crypto(m.clone()),
            Error::Multiformat(m) => Error::Multiformat(m.clone()),
        }
    }
}

/// `r` is what `s` says: the value it stands for, or the error.
pub open spec fn agrees<T: View>(r: Result<T>, s: core::result::Result<T::V, Fault>) -> bool {
    match s {
        Ok(v) => r is Ok && r->Ok_0@ == v,
        Err(f) => r is Err && error_is(r->Err_0, f),
    }
}

/// What an optional value stands for.
pub open spec fn opt<T: View>(o: Option<T>) -> Option<T::V> {
    match o {
        Some(x) => Some(x@),
        None => None,
    }
}

} // verus!
