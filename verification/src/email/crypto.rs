//! The envelope of an encrypted email or attachment.
//!
//! It is encrypted from a fresh ephemeral key pair to the recipient's public key. The
//! sender's public key travels with the cipher text, so that the recipient can decrypt it.
use vstd::prelude::*;
use crate::cbor::{map_put, CborObject, CborValue};
use crate::cbor_codec::{encode, parse};
use crate::error::{agrees, cbor_error, Fault, Result};
use crate::opaque::{Formats, Kind, Opaque};
use crate::text::copy_bytes;

verus! {

broadcast use crate::cbor::group_cbor;

/// A public key to encrypt to.
pub type PublicBoxingKey = Opaque;

/// An asymmetric cipher text with the sender's public key attached.
#[derive(Debug, PartialEq, Eq)]
pub struct SourcedAsymmetricCipherText {
    pub from: PublicBoxingKey,
    pub cipher_text: Vec<u8>,
}

impl View for SourcedAsymmetricCipherText {
    type V = (CborValue, Seq<u8>);

    open spec fn view(&self) -> (CborValue, Seq<u8>) {
        (self.from@, self.cipher_text@)
    }
}

/// The CBOR of an envelope.
pub open spec fn envelope_cbor(from: CborValue, cipher_text: Seq<u8>) -> CborValue {
    CborValue::Mapping(map_put(map_put(Seq::empty(), "k"@, from), "c"@, CborValue::ByteString(cipher_text)))
}

/// The envelope that a value describes: the sender's key and the cipher text.
pub open spec fn envelope_from(v: CborValue, formats: &Formats) -> core::result::Result<(CborValue, Seq<u8>), Fault> {
    match formats.value_at(v, "k"@, Kind::BoxingKey) {
        Err(f) => Err(f),
        Ok(None) => Err(Fault::Cbor("SourcedAsymmetricCipherText missing 'k'"@)),
        Ok(Some(k)) => match v.bytes_at("c"@) {
            None => Err(Fault::Cbor("SourcedAsymmetricCipherText missing 'c'"@)),
            Some(c) => Ok((k, c)),
        },
    }
}

/// The envelope that a file holds.
pub open spec fn stored_envelope(bytes: Seq<u8>, formats: &Formats) -> core::result::Result<(CborValue, Seq<u8>), Fault> {
    match parse(bytes) {
        None => Err(Fault::Cbor("invalid cbor"@)),
        Some((v, c)) => envelope_from(v, formats),
    }
}

impl SourcedAsymmetricCipherText {
    /// The envelope of what `from` has encrypted.
    pub fn new(from: PublicBoxingKey, cipher_text: Vec<u8>) -> (r: SourcedAsymmetricCipherText)
        ensures
            r@ == (from@, cipher_text@),
    {
        SourcedAsymmetricCipherText { from, cipher_text }
    }

    pub fn to_cbor(&self) -> (r: CborObject)
        ensures
            r@ == envelope_cbor(self@.0, self@.1),
    {
        CborObject::map().put("k", self.from.to_cbor()).put("c", CborObject::ByteString(copy_bytes(&self.cipher_text))).build()
    }

    pub fn from_cbor(cbor: &CborObject, formats: &Formats) -> (r: Result<SourcedAsymmetricCipherText>)
        ensures
            agrees(r, envelope_from(cbor@, formats)),
    {
        match formats.read_at(cbor, "k", Kind::BoxingKey) {
            Err(e) => Err(e),
            Ok(None) => Err(cbor_error("SourcedAsymmetricCipherText missing 'k'")),
            Ok(Some(from)) => match cbor.bytes_at("c") {
                None => Err(cbor_error("SourcedAsymmetricCipherText missing 'c'")),
                Some(cipher_text) => Ok(SourcedAsymmetricCipherText { from, cipher_text }),
            },
        }
    }

    /// The envelope as it is stored.
    pub fn serialize(&self) -> (r: Vec<u8>)
        ensures
            r@ == encode(envelope_cbor(self@.0, self@.1)),
    {
        self.to_cbor().to_bytes()
    }

    /// The envelope that a file holds.
    pub fn from_file(bytes: &[u8], formats: &Formats) -> (r: Result<SourcedAsymmetricCipherText>)
        ensures
            agrees(r, stored_envelope(bytes@, formats)),
    {
        match CborObject::from_bytes(bytes) {
            Err(e) => Err(e),
            Ok(c) => SourcedAsymmetricCipherText::from_cbor(&c, formats),
        }
    }
}

/// An envelope is read back from its CBOR as it was.
pub proof fn law_envelope_round_trip(from: CborValue, cipher_text: Seq<u8>, formats: &Formats)
    requires
        formats.accepts(Kind::BoxingKey, from),
    ensures
        envelope_from(envelope_cbor(from, cipher_text), formats) == Ok::<(CborValue, Seq<u8>), Fault>((from, cipher_text)),
{
    reveal_strlit("k");
    reveal_strlit("c");
    assert("k"@[0] == 'k' && "c"@[0] == 'c');
}

/// Where an envelope keeps its parts: the key of its sender and what was sealed.
pub proof fn law_envelope_fields(from: CborValue, cipher_text: Seq<u8>)
    ensures
        envelope_cbor(from, cipher_text).get("k"@) == Some(from),
        envelope_cbor(from, cipher_text).get("c"@) == Some(CborValue::ByteString(cipher_text)),
{
    reveal_strlit("k");
    reveal_strlit("c");
    assert("k"@[0] == 'k' && "c"@[0] == 'c');
}

} // verus!
