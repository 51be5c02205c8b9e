//! Values of the cryptographic layer: keys, key hashes, access tokens, cipher texts.
//!
//! The filesystem stores and compares these values and hands them to the layer that
//! works with them. It carries each as the CBOR that it serialises to.
use vstd::prelude::*;
use crate::cbor::{CborObject, CborValue};
use crate::error::{agrees, error_is, opt, Error, Fault, Result};

verus! {

/// A value of the cryptographic layer.
#[derive(Debug, PartialEq, Eq)]
pub struct Opaque {
    pub cbor: CborObject,
}

/// The hash of a public signing key.
pub type PublicKeyHash = Opaque;

/// A symmetric encryption key.
pub type SymmetricKey = Opaque;

/// A block access token.
pub type Bat = Opaque;

/// The id of a block access token.
pub type BatId = Opaque;

/// A block access token with its id.
#[derive(Debug, PartialEq, Eq)]
pub struct BatWithId {
    pub bat: Bat,
    pub id: BatId,
}

impl View for BatWithId {
    type V = (CborValue, CborValue);

    open spec fn view(&self) -> (CborValue, CborValue) {
        (self.bat@, self.id@)
    }
}

impl BatWithId {
    /// A copy of this token.
    pub fn dup(&self) -> (r: BatWithId)
        ensures
            r@ == self@,
    {
        BatWithId { bat: self.bat.dup(), id: self.id.dup() }
    }
}

/// A nonce and what was encrypted under it.
pub type CipherText = Opaque;

/// A private signing key with the hash of its public key.
pub type SigningPrivateKeyAndPublicHash = Opaque;

impl View for Opaque {
    type V = CborValue;

    open spec fn view(&self) -> CborValue {
        self.cbor@
    }
}

impl Opaque {
    /// The CBOR of this value.
    pub fn to_cbor(&self) -> (r: CborObject)
        ensures
            r@ == self@,
    {
        self.cbor.dup()
    }

    /// The value with this CBOR, which the cryptographic layer has made or read.
    pub fn from_cbor(cbor: &CborObject) -> (r: Opaque)
        ensures
            r@ == cbor@,
    {
        Opaque { cbor: cbor.dup() }
    }

    /// A copy of this value.
    pub fn dup(&self) -> (r: Opaque)
        ensures
            r@ == self@,
    {
        Opaque { cbor: self.cbor.dup() }
    }

    /// Whether two values are the same.
    pub fn same(&self, other: &Opaque) -> (r: bool)
        ensures
            r == (self@ == other@),
    {
        self.cbor.same(&other.cbor)
    }
}

/// What kind of value the layers below are asked to read: the cryptographic one, or that of
/// second factors.
#[derive(Clone, Copy, Debug, PartialEq, Eq, Structural)]
pub enum Kind {
    KeyHash,
    SymmetricKey,
    Bat,
    CipherText,
    SigningPair,
    BoxingPair,
    BoxingKey,
    /// What a server asks as a second factor.
    Challenge,
    /// A second factor that is registered.
    SecondFactor,
}

/// A value that the layers below do not take for one of a kind, and their reason.
#[derive(Debug, PartialEq, Eq)]
pub struct Refusal {
    pub kind: Kind,
    pub value: CborObject,
    pub error: Error,
}

/// What the layers below make of the values that are read: all are well formed but for the
/// ones that they refuse. How their values are encoded is their own affair, so whoever decodes
/// one of the records of this library says which values are malformed.
#[derive(Debug, PartialEq, Eq)]
pub struct Formats {
    pub refused: Vec<Refusal>,
}

/// The reason why a value is refused as one of this kind, if it is.
pub open spec fn refusal_of(v: Seq<Refusal>, kind: Kind, value: CborValue) -> Option<Fault>
    decreases v.len(),
{
    if v.len() == 0 {
        None
    } else if v[0].kind == kind && v[0].value@ == value {
        Some(v[0].error@)
    } else {
        refusal_of(v.skip(1), kind, value)
    }
}

impl Formats {
    /// The reason why a value is refused as one of this kind, if it is.
    pub open spec fn fault(&self, kind: Kind, value: CborValue) -> Option<Fault> {
        refusal_of(self.refused@, kind, value)
    }

    /// Whether a value is well formed.
    pub open spec fn accepts(&self, kind: Kind, value: CborValue) -> bool {
        self.fault(kind, value) is None
    }

    /// Whether an optional value is well formed.
    pub open spec fn accepts_opt(&self, kind: Kind, value: Option<CborValue>) -> bool {
        value matches Some(v) ==> self.accepts(kind, v)
    }

    /// What a value is read as.
    pub open spec fn value(&self, kind: Kind, value: CborValue) -> core::result::Result<CborValue, Fault> {
        match self.fault(kind, value) {
            Some(f) => Err(f),
            None => Ok(value),
        }
    }

    /// What the value under `key` is read as, if there is one.
    pub open spec fn value_at(&self, cbor: CborValue, key: Seq<char>, kind: Kind) -> core::result::Result<
        Option<CborValue>,
        Fault,
    > {
        match cbor.get(key) {
            None => Ok(None),
            Some(v) => match self.value(kind, v) {
                Ok(x) => Ok(Some(x)),
                Err(f) => Err(f),
            },
        }
    }

    /// Every value is well formed.
    pub fn none_refused() -> (r: Formats)
        ensures
            forall|kind: Kind, v: CborValue| #[trigger] r.accepts(kind, v),
    {
        Formats { refused: Vec::new() }
    }

    /// Reads a value of this kind.
    pub fn read(&self, kind: Kind, cbor: &CborObject) -> (r: Result<Opaque>)
        ensures
            agrees(r, self.value(kind, cbor@)),
    {
        let ghost all = self.refused@;
        proof {
            assert(all.skip(0) =~= all);
        }
        for i in 0..self.refused.len()
            invariant
                all == self.refused@,
                refusal_of(all, kind, cbor@) == refusal_of(all.skip(i as int), kind, cbor@),
        {
            proof {
                assert(all.skip(i as int)[0] == all[i as int]);
                assert(all.skip(i as int).skip(1) =~= all.skip(i as int + 1));
            }
            if self.refused[i].kind == kind && self.refused[i].value.same(cbor) {
                return Err(self.refused[i].error.dup());
            }
        }
        proof {
            assert(all.skip(all.len() as int) =~= Seq::empty());
        }
        Ok(Opaque::from_cbor(cbor))
    }

    /// Reads the value under `key`, if there is one.
    pub fn read_at(&self, cbor: &CborObject, key: &str, kind: Kind) -> (r: Result<Option<Opaque>>)
        ensures
            match self.value_at(cbor@, key@, kind) {
                Ok(v) => r is Ok && opt(r->Ok_0) == v,
                Err(f) => r is Err && error_is(r->Err_0, f),
            },
    {
        match cbor.get(key) {
            None => Ok(None),
            Some(c) => match self.read(kind, c) {
                Ok(v) => Ok(Some(v)),
                Err(e) => Err(e),
            },
        }
    }
}

/// A copy of an optional value.
pub fn dup_opt(o: &Option<Opaque>) -> (r: Option<Opaque>)
    ensures
        opt(r) == opt(*o),
{
    match o {
        Some(x) => Some(x.dup()),
        None => None,
    }
}

/// The CBOR of an optional value.
pub fn opt_cbor(o: &Option<Opaque>) -> (r: Option<CborObject>)
    ensures
        opt(r) == opt(*o),
{
    match o {
        Some(x) => Some(x.to_cbor()),
        None => None,
    }
}

/// A value is refused with the first reason that is given for it as one of this kind, and is read
/// as it is where none is given.
pub proof fn law_formats(formats: &Formats, kind: Kind, value: CborValue)
    ensures
        forall|i: int|
            0 <= i < formats.refused@.len() && (#[trigger] formats.refused@[i]).kind == kind && formats.refused@[i].value@
                == value && (forall|j: int|
                0 <= j < i ==> !((#[trigger] formats.refused@[j]).kind == kind && formats.refused@[j].value@ == value))
                ==> formats.value(kind, value) == Err::<CborValue, Fault>(formats.refused@[i].error@),
        (forall|j: int|
            0 <= j < formats.refused@.len() ==> !((#[trigger] formats.refused@[j]).kind == kind && formats.refused@[j].value@
                == value)) ==> formats.value(kind, value) == Ok::<CborValue, Fault>(value),
{
    lemma_refusal(formats.refused@, kind, value);
}

proof fn lemma_refusal(v: Seq<Refusal>, kind: Kind, value: CborValue)
    ensures
        forall|i: int|
            0 <= i < v.len() && (#[trigger] v[i]).kind == kind && v[i].value@ == value && (forall|j: int|
                0 <= j < i ==> !((#[trigger] v[j]).kind == kind && v[j].value@ == value)) ==> refusal_of(v, kind, value)
                == Some(v[i].error@),
        (forall|j: int| 0 <= j < v.len() ==> !((#[trigger] v[j]).kind == kind && v[j].value@ == value)) ==> refusal_of(
            v,
            kind,
            value,
        ) is None,
    decreases v.len(),
{
    if v.len() > 0 && !(v[0].kind == kind && v[0].value@ == value) {
        let rest = v.skip(1);
        lemma_refusal(rest, kind, value);
        assert forall|i: int|
            0 <= i < v.len() && (#[trigger] v[i]).kind == kind && v[i].value@ == value && (forall|j: int|
                0 <= j < i ==> !((#[trigger] v[j]).kind == kind && v[j].value@ == value)) implies refusal_of(v, kind, value)
            == Some(v[i].error@) by {
            assert(rest[i - 1] == v[i]);
            assert forall|j: int| 0 <= j < i - 1 implies !((#[trigger] rest[j]).kind == kind && rest[j].value@ == value) by {
                assert(rest[j] == v[j + 1]);
            }
        }
        if forall|j: int| 0 <= j < v.len() ==> !((#[trigger] v[j]).kind == kind && v[j].value@ == value) {
            assert forall|j: int| 0 <= j < rest.len() implies !((#[trigger] rest[j]).kind == kind && rest[j].value@ == value) by {
                assert(rest[j] == v[j + 1]);
            }
        }
    }
}

} // verus!
