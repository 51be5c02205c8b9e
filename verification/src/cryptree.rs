//! The cryptree: encrypted file/directory metadata nodes.
//!
//! A [`CryptreeNode`] holds three encrypted blocks: the base block (parent/data key,
//! writer link, next-chunk link), the parent block (parent link and
//! [`FileProperties`]), and the directory children or file data. Encryption belongs to
//! the caller: a block is built here as the CBOR to encrypt, and read from the CBOR
//! that it decrypts to.
pub mod node;
pub mod properties;

pub use node::{CryptreeNode, FromBase, FromParent};
pub use properties::FileProperties;

use vstd::prelude::*;
use crate::capability::{checked_cap, long_cbor, opt_long, AbsoluteCapability, CapView};
use crate::cbor::{items, map_put, map_put_opt, CborObject, CborValue};
use crate::cbor_codec::{encode, lemma_round_trip, parse, representable};
use crate::error::{agrees, cbor_error, error_is, opt, Fault, Result};
use crate::opaque::{dup_opt, opt_cbor, Bat, CipherText, Formats, Kind, PublicKeyHash, SymmetricKey};
use crate::text::copy_bytes;

verus! {

broadcast use crate::cbor::group_cbor;

pub const CURRENT_VERSION: i64 = 1;
pub const BASE_BLOCK_PADDING_BLOCKSIZE: usize = 64;
pub const META_DATA_PADDING_BLOCKSIZE: usize = 16;

/// The smallest multiple of `block` that is at least `n`.
pub open spec fn rounded_up(n: nat, block: nat) -> nat
    recommends
        block > 0,
{
    (n + block - 1) as nat / block * block
}

/// `plain` with zeros up to a multiple of `block`.
pub open spec fn padded(plain: Seq<u8>, block: nat) -> Seq<u8> {
    plain + Seq::new((rounded_up(plain.len(), block) - plain.len()) as nat, |i: int| 0u8)
}

/// The serialized secret, zero-padded to a multiple of `block`: what is encrypted.
pub fn pad_block(secret: &CborObject, block: usize) -> (r: Vec<u8>)
    requires
        block > 0,
        encode(secret@).len() + block <= usize::MAX,
    ensures
        r@ == padded(encode(secret@), block as nat),
{
    let mut plain = secret.to_bytes();
    let ghost start = plain@;
    let n: usize = plain.len();
    let blocks: usize = (n + (block - 1)) / block;
    proof {
        assert(blocks * block <= n + block - 1) by (nonlinear_arith)
            requires
                block > 0,
                blocks == (n + (block - 1)) / block as int,
        ;
        assert(blocks * block >= n) by (nonlinear_arith)
            requires
                block > 0,
                blocks == (n + (block - 1)) / block as int,
        ;
    }
    let to: usize = blocks * block;
    while plain.len() < to
        invariant
            start.len() <= plain.len() <= to,
            plain@ == start + Seq::new((plain@.len() - start.len()) as nat, |i: int| 0u8),
        decreases to - plain.len(),
    {
        plain.push(0);
        proof {
            assert(plain@ =~= start + Seq::new((plain@.len() - start.len()) as nat, |i: int| 0u8));
        }
    }
    plain
}

/// Decryption tolerates the padding: a padded secret is read back as it was.
pub proof fn law_padding_is_ignored(v: CborValue, block: nat)
    requires
        representable(v),
        block > 0,
    ensures
        parse(padded(encode(v), block)) == Some((v, encode(v).len())),
        padded(encode(v), block).len() == rounded_up(encode(v).len(), block),
{
    let n = encode(v).len();
    assert(rounded_up(n, block) >= n) by (nonlinear_arith)
        requires
            block > 0,
            rounded_up(n, block) == (n + block - 1) as nat / block * block,
    ;
    lemma_round_trip(v, Seq::new((rounded_up(n, block) - n) as nat, |i: int| 0u8));
}

/// A cipher text whose plaintext was zero-padded before encryption.
#[derive(Debug, PartialEq, Eq)]
pub struct PaddedCipherText {
    pub cipher_text: CipherText,
}

impl View for PaddedCipherText {
    type V = CborValue;

    open spec fn view(&self) -> CborValue {
        self.cipher_text@
    }
}

impl PaddedCipherText {
    pub fn from_cbor(cbor: &CborObject, formats: &Formats) -> (r: Result<PaddedCipherText>)
        ensures
            agrees(r, formats.value(Kind::CipherText, cbor@)),
    {
        match formats.read(Kind::CipherText, cbor) {
            Ok(cipher_text) => Ok(PaddedCipherText { cipher_text }),
            Err(e) => Err(e),
        }
    }

    pub fn to_cbor(&self) -> (r: CborObject)
        ensures
            r@ == self@,
    {
        self.cipher_text.to_cbor()
    }

    /// A copy of this cipher text.
    pub fn dup(&self) -> (r: PaddedCipherText)
        ensures
            r@ == self@,
    {
        PaddedCipherText { cipher_text: self.cipher_text.dup() }
    }
}

/// A capability relative to another: what it does not say is as there. The write-key
/// link is kept as it is stored.
#[derive(Debug, PartialEq, Eq)]
pub struct RelativeCapability {
    pub writer: Option<PublicKeyHash>,
    pub map_key: Vec<u8>,
    pub bat: Option<Bat>,
    pub r_base_key: SymmetricKey,
    pub w_base_key_link: Option<CborObject>,
}

/// The content of a [`RelativeCapability`].
pub ghost struct RelCapView {
    pub writer: Option<CborValue>,
    pub map_key: Seq<u8>,
    pub bat: Option<CborValue>,
    pub r_base_key: CborValue,
    pub w_base_key_link: Option<CborValue>,
}

impl View for RelativeCapability {
    type V = RelCapView;

    open spec fn view(&self) -> RelCapView {
        RelCapView {
            writer: opt(self.writer),
            map_key: self.map_key@,
            bat: opt(self.bat),
            r_base_key: self.r_base_key@,
            w_base_key_link: opt(self.w_base_key_link),
        }
    }
}

/// The entries of the CBOR of a relative capability.
pub open spec fn rel_entries(c: RelCapView) -> Seq<(Seq<char>, CborValue)> {
    let e = map_put_opt(Seq::empty(), "w"@, c.writer);
    let e = map_put(e, "m"@, CborValue::ByteString(c.map_key));
    let e = map_put_opt(e, "a"@, c.bat);
    let e = map_put(e, "k"@, c.r_base_key);
    map_put_opt(e, "l"@, c.w_base_key_link)
}

/// The CBOR of a relative capability.
pub open spec fn rel_cbor(c: RelCapView) -> CborValue {
    CborValue::Mapping(rel_entries(c))
}

/// The relative capability that a value describes. `formats` says which of its keys are
/// malformed.
pub open spec fn rel_from(v: CborValue, formats: &Formats) -> core::result::Result<RelCapView, Fault> {
    match formats.value_at(v, "w"@, Kind::KeyHash) {
        Err(f) => Err(f),
        Ok(writer) => match v.bytes_at("m"@) {
            None => Err(Fault::Cbor("RelativeCapability missing 'm'"@)),
            Some(map_key) => match formats.value_at(v, "a"@, Kind::Bat) {
                Err(f) => Err(f),
                Ok(bat) => match formats.value_at(v, "k"@, Kind::SymmetricKey) {
                    Err(f) => Err(f),
                    Ok(None) => Err(Fault::Cbor("RelativeCapability missing 'k'"@)),
                    Ok(Some(r_base_key)) => Ok(
                        RelCapView { writer, map_key, bat, r_base_key, w_base_key_link: v.get("l"@) },
                    ),
                },
            },
        },
    }
}

/// A relative capability whose keys are well formed.
pub open spec fn is_readable_rel(c: RelCapView, formats: &Formats) -> bool {
    &&& formats.accepts_opt(Kind::KeyHash, c.writer)
    &&& formats.accepts_opt(Kind::Bat, c.bat)
    &&& formats.accepts(Kind::SymmetricKey, c.r_base_key)
}

/// The capability that `c` is, seen from `source`: write access comes through when the
/// source is writable and the link carries a write key, which is `opened`.
pub open spec fn absolute(c: RelCapView, source: CapView, opened: Option<CborValue>) -> core::result::Result<
    CapView,
    Fault,
> {
    checked_cap(
        CapView {
            owner: source.owner,
            writer: match c.writer {
                Some(w) => w,
                None => source.writer,
            },
            map_key: c.map_key,
            bat: c.bat,
            r_base_key: c.r_base_key,
            w_base_key: if source.w_base_key is Some && c.w_base_key_link is Some { opened } else { None },
        },
    )
}

/// A copy of an optional CBOR value.
pub fn dup_cbor(o: &Option<CborObject>) -> (r: Option<CborObject>)
    ensures
        opt(r) == opt(*o),
{
    match o {
        Some(x) => Some(x.dup()),
        None => None,
    }
}

impl RelativeCapability {
    pub fn from_cbor(cbor: &CborObject, formats: &Formats) -> (r: Result<RelativeCapability>)
        ensures
            agrees(r, rel_from(cbor@, formats)),
    {
        let writer = match formats.read_at(cbor, "w", Kind::KeyHash) {
            Ok(x) => x,
            Err(e) => {
                return Err(e);
            },
        };
        let map_key = match cbor.bytes_at("m") {
            Some(m) => m,
            None => {
                return Err(cbor_error("RelativeCapability missing 'm'"));
            },
        };
        let bat = match formats.read_at(cbor, "a", Kind::Bat) {
            Ok(x) => x,
            Err(e) => {
                return Err(e);
            },
        };
        let r_base_key = match formats.read_at(cbor, "k", Kind::SymmetricKey) {
            Ok(Some(k)) => k,
            Ok(None) => {
                return Err(cbor_error("RelativeCapability missing 'k'"));
            },
            Err(e) => {
                return Err(e);
            },
        };
        let w_base_key_link = match cbor.get("l") {
            Some(c) => Some(c.dup()),
            None => None,
        };
        Ok(RelativeCapability { writer, map_key, bat, r_base_key, w_base_key_link })
    }

    /// A relative capability to a subsequent chunk.
    pub fn subsequent_chunk(map_key: Vec<u8>, bat: Option<Bat>, base_key: SymmetricKey) -> (r: RelativeCapability)
        ensures
            r@ == (RelCapView {
                writer: None,
                map_key: map_key@,
                bat: opt(bat),
                r_base_key: base_key@,
                w_base_key_link: None,
            }),
    {
        RelativeCapability { writer: None, map_key, bat, r_base_key: base_key, w_base_key_link: None }
    }

    pub fn to_cbor(&self) -> (r: CborObject)
        ensures
            r@ == rel_cbor(self@),
    {
        CborObject::map().put_opt("w", opt_cbor(&self.writer)).put(
            "m",
            CborObject::ByteString(copy_bytes(&self.map_key)),
        ).put_opt("a", opt_cbor(&self.bat)).put("k", self.r_base_key.to_cbor()).put_opt(
            "l",
            dup_cbor(&self.w_base_key_link),
        ).build()
    }

    /// The link to decrypt with the source's write key before [`Self::to_absolute`].
    pub fn write_link(&self, source: &AbsoluteCapability) -> (r: Option<&CborObject>)
        ensures
            r is Some <==> source@.w_base_key is Some && self@.w_base_key_link is Some,
            r is Some ==> r->Some_0@ == self@.w_base_key_link->Some_0,
    {
        if source.w_base_key.is_some() {
            match &self.w_base_key_link {
                Some(l) => Some(l),
                None => None,
            }
        } else {
            None
        }
    }

    /// Resolve to an absolute capability against a source cap. Write access is
    /// propagated when the source is writable and this link carries a write-base-key
    /// link: `opened` is the key that the link decrypts to.
    pub fn to_absolute(&self, source: &AbsoluteCapability, opened: Option<SymmetricKey>) -> (r: Result<
        AbsoluteCapability,
    >)
        requires
            source@.w_base_key is Some && self@.w_base_key_link is Some ==> opened is Some,
        ensures
            agrees(r, absolute(self@, source@, opt(opened))),
    {
        let writer = match &self.writer {
            Some(w) => w.dup(),
            None => source.writer.dup(),
        };
        let w_base_key = if self.write_link(source).is_some() { opened } else { None };
        AbsoluteCapability::new(
            source.owner.dup(),
            writer,
            copy_bytes(&self.map_key),
            dup_opt(&self.bat),
            self.r_base_key.dup(),
            w_base_key,
        )
    }

    /// A copy of this capability.
    pub fn dup(&self) -> (r: RelativeCapability)
        ensures
            r@ == self@,
    {
        RelativeCapability {
            writer: dup_opt(&self.writer),
            map_key: copy_bytes(&self.map_key),
            bat: dup_opt(&self.bat),
            r_base_key: self.r_base_key.dup(),
            w_base_key_link: dup_cbor(&self.w_base_key_link),
        }
    }
}

/// The keys of the records, spelled out.
pub(crate) proof fn reveal_keys()
    ensures
        "w"@.len() == 1 && "w"@[0] == 'w',
        "m"@.len() == 1 && "m"@[0] == 'm',
        "a"@.len() == 1 && "a"@[0] == 'a',
        "k"@.len() == 1 && "k"@[0] == 'k',
        "l"@.len() == 1 && "l"@[0] == 'l',
        "n"@.len() == 1 && "n"@[0] == 'n',
        "d"@.len() == 1 && "d"@[0] == 'd',
        "t"@.len() == 1 && "t"@[0] == 't',
        "c"@.len() == 1 && "c"@[0] == 'c',
        "s"@.len() == 1 && "s"@[0] == 's',
        "h"@.len() == 1 && "h"@[0] == 'h',
        "i"@.len() == 1 && "i"@[0] == 'i',
        "p"@.len() == 1 && "p"@[0] == 'p',
        "b"@.len() == 1 && "b"@[0] == 'b',
        "v"@.len() == 1 && "v"@[0] == 'v',
        "tn"@.len() == 2 && "tn"@[0] == 't' && "tn"@[1] == 'n',
        "cn"@.len() == 2 && "cn"@[0] == 'c' && "cn"@[1] == 'n',
        "th"@.len() == 2 && "th"@[0] == 't' && "th"@[1] == 'h',
        "im"@.len() == 2 && "im"@[0] == 'i' && "im"@[1] == 'm',
        "bats"@.len() == 4,
{
    reveal_strlit("w");
    reveal_strlit("m");
    reveal_strlit("a");
    reveal_strlit("k");
    reveal_strlit("l");
    reveal_strlit("n");
    reveal_strlit("d");
    reveal_strlit("t");
    reveal_strlit("c");
    reveal_strlit("s");
    reveal_strlit("h");
    reveal_strlit("i");
    reveal_strlit("p");
    reveal_strlit("b");
    reveal_strlit("v");
    reveal_strlit("tn");
    reveal_strlit("cn");
    reveal_strlit("th");
    reveal_strlit("im");
    reveal_strlit("bats");
}

/// A relative capability is read back from its CBOR as it was.
pub proof fn law_rel_round_trip(c: RelCapView, formats: &Formats)
    requires
        is_readable_rel(c, formats),
    ensures
        rel_from(rel_cbor(c), formats) == Ok::<RelCapView, Fault>(c),
{
    reveal_keys();
}

/// A named child capability within a directory.
#[derive(Debug, PartialEq, Eq)]
pub struct NamedRelativeCapability {
    pub name: String,
    pub cap: RelativeCapability,
    pub is_dir: Option<bool>,
    pub mime_type: Option<String>,
    pub created_epoch: Option<i64>,
}

/// The content of a [`NamedRelativeCapability`].
pub ghost struct NamedView {
    pub name: Seq<char>,
    pub cap: RelCapView,
    pub is_dir: Option<bool>,
    pub mime_type: Option<Seq<char>>,
    pub created_epoch: Option<i64>,
}

impl View for NamedRelativeCapability {
    type V = NamedView;

    open spec fn view(&self) -> NamedView {
        NamedView {
            name: self.name@,
            cap: self.cap@,
            is_dir: self.is_dir,
            mime_type: opt(self.mime_type),
            created_epoch: self.created_epoch,
        }
    }
}

/// The CBOR of an optional boolean.
pub open spec fn bool_cbor(b: Option<bool>) -> Option<CborValue> {
    match b {
        Some(x) => Some(CborValue::Boolean(x)),
        None => None,
    }
}

/// The CBOR of an optional text.
pub open spec fn text_cbor(s: Option<Seq<char>>) -> Option<CborValue> {
    match s {
        Some(x) => Some(CborValue::Str(x)),
        None => None,
    }
}

/// The CBOR of a named capability shares the map of the capability.
pub open spec fn named_cbor(c: NamedView) -> CborValue {
    let e = map_put(rel_entries(c.cap), "n"@, CborValue::Str(c.name));
    let e = map_put_opt(e, "d"@, bool_cbor(c.is_dir));
    let e = map_put_opt(e, "t"@, text_cbor(c.mime_type));
    CborValue::Mapping(map_put_opt(e, "c"@, long_cbor(c.created_epoch)))
}

/// The integer under `key` as a machine number.
pub open spec fn i64_at(v: CborValue, key: Seq<char>) -> Option<i64> {
    match v.long_at(key) {
        Some(n) => Some(n as i64),
        None => None,
    }
}

/// The named capability that a value describes.
pub open spec fn named_from(v: CborValue, formats: &Formats) -> core::result::Result<NamedView, Fault> {
    match v.text_at("n"@) {
        None => Err(Fault::Cbor("NamedRelativeCapability missing name"@)),
        Some(name) => match rel_from(v, formats) {
            Err(f) => Err(f),
            Ok(cap) => Ok(
                NamedView {
                    name,
                    cap,
                    is_dir: v.bool_at("d"@),
                    mime_type: v.text_at("t"@),
                    created_epoch: i64_at(v, "c"@),
                },
            ),
        },
    }
}

impl NamedRelativeCapability {
    pub fn from_cbor(cbor: &CborObject, formats: &Formats) -> (r: Result<NamedRelativeCapability>)
        ensures
            agrees(r, named_from(cbor@, formats)),
    {
        let name = match cbor.text_at("n") {
            Some(n) => n,
            None => {
                return Err(cbor_error("NamedRelativeCapability missing name"));
            },
        };
        let cap = match RelativeCapability::from_cbor(cbor, formats) {
            Ok(c) => c,
            Err(e) => {
                return Err(e);
            },
        };
        Ok(
            NamedRelativeCapability {
                name,
                cap,
                is_dir: cbor.bool_at("d"),
                mime_type: cbor.text_at("t"),
                created_epoch: cbor.long_at("c"),
            },
        )
    }

    pub fn to_cbor(&self) -> (r: CborObject)
        ensures
            r@ == named_cbor(self@),
    {
        CborObject::map().put_opt("w", opt_cbor(&self.cap.writer)).put(
            "m",
            CborObject::ByteString(copy_bytes(&self.cap.map_key)),
        ).put_opt("a", opt_cbor(&self.cap.bat)).put("k", self.cap.r_base_key.to_cbor()).put_opt(
            "l",
            dup_cbor(&self.cap.w_base_key_link),
        ).put("n", CborObject::Str(self.name.clone())).put_opt("d", opt_bool(self.is_dir)).put_opt(
            "t",
            opt_text(&self.mime_type),
        ).put_opt("c", opt_long(self.created_epoch)).build()
    }

    /// A copy of this capability.
    pub fn dup(&self) -> (r: NamedRelativeCapability)
        ensures
            r@ == self@,
    {
        NamedRelativeCapability {
            name: self.name.clone(),
            cap: self.cap.dup(),
            is_dir: self.is_dir,
            mime_type: dup_text(&self.mime_type),
            created_epoch: self.created_epoch,
        }
    }
}

/// The CBOR of an optional boolean.
pub fn opt_bool(b: Option<bool>) -> (r: Option<CborObject>)
    ensures
        opt(r) == bool_cbor(b),
{
    match b {
        Some(x) => Some(CborObject::Boolean(x)),
        None => None,
    }
}

/// The CBOR of an optional text.
pub fn opt_text(s: &Option<String>) -> (r: Option<CborObject>)
    ensures
        opt(r) == text_cbor(opt(*s)),
{
    match s {
        Some(x) => Some(CborObject::Str(x.clone())),
        None => None,
    }
}

/// A copy of an optional text.
pub fn dup_text(s: &Option<String>) -> (r: Option<String>)
    ensures
        opt(r) == opt(*s),
{
    match s {
        Some(x) => Some(x.clone()),
        None => None,
    }
}

/// A named capability is read back from its CBOR as it was.
pub proof fn law_named_round_trip(c: NamedView, formats: &Formats)
    requires
        is_readable_rel(c.cap, formats),
    ensures
        named_from(named_cbor(c), formats) == Ok::<NamedView, Fault>(c),
        named_cbor(c).get("n"@) is Some,
{
    reveal_keys();
}

/// A directory's children links. Modern data uses named links; legacy data has bare
/// relative capabilities.
#[derive(Debug, PartialEq, Eq)]
pub enum ChildrenLinks {
    Named(Vec<NamedRelativeCapability>),
    Legacy(Vec<RelativeCapability>),
}

/// The content of [`ChildrenLinks`].
pub ghost enum LinksView {
    Named(Seq<NamedView>),
    Legacy(Seq<RelCapView>),
}

/// The contents of a list of named capabilities.
pub open spec fn named_views(v: Seq<NamedRelativeCapability>) -> Seq<NamedView> {
    Seq::new(v.len(), |i: int| v[i]@)
}

/// The contents of a list of relative capabilities.
pub open spec fn rel_views(v: Seq<RelativeCapability>) -> Seq<RelCapView> {
    Seq::new(v.len(), |i: int| v[i]@)
}

impl View for ChildrenLinks {
    type V = LinksView;

    open spec fn view(&self) -> LinksView {
        match self {
            ChildrenLinks::Named(v) => LinksView::Named(named_views(v@)),
            ChildrenLinks::Legacy(v) => LinksView::Legacy(rel_views(v@)),
        }
    }
}

/// The CBOR of a directory's links.
pub open spec fn links_cbor(l: LinksView) -> CborValue {
    match l {
        LinksView::Named(v) => CborValue::List(Seq::new(v.len(), |i: int| named_cbor(v[i]))),
        LinksView::Legacy(v) => CborValue::List(Seq::new(v.len(), |i: int| rel_cbor(v[i]))),
    }
}

/// The named capabilities of a list, up to the first that is none.
pub open spec fn all_named(v: Seq<CborValue>, formats: &Formats) -> core::result::Result<Seq<NamedView>, Fault>
    decreases v.len(),
{
    if v.len() == 0 {
        Ok(Seq::empty())
    } else {
        match (all_named(v.drop_last(), formats), named_from(v.last(), formats)) {
            (Err(f), _) => Err(f),
            (_, Err(f)) => Err(f),
            (Ok(s), Ok(c)) => Ok(s.push(c)),
        }
    }
}

/// The relative capabilities of a list, up to the first that is none.
pub open spec fn all_rel(v: Seq<CborValue>, formats: &Formats) -> core::result::Result<Seq<RelCapView>, Fault>
    decreases v.len(),
{
    if v.len() == 0 {
        Ok(Seq::empty())
    } else {
        match (all_rel(v.drop_last(), formats), rel_from(v.last(), formats)) {
            (Err(f), _) => Err(f),
            (_, Err(f)) => Err(f),
            (Ok(s), Ok(c)) => Ok(s.push(c)),
        }
    }
}

/// The links that a value describes: named ones carry an "n" key, legacy ones do not.
pub open spec fn links_from(v: CborValue, formats: &Formats) -> core::result::Result<LinksView, Fault> {
    match v {
        CborValue::List(l) => if l.len() == 0 {
            Ok(LinksView::Named(Seq::empty()))
        } else if l[0].get("n"@) is Some {
            match all_named(l, formats) {
                Ok(s) => Ok(LinksView::Named(s)),
                Err(f) => Err(f),
            }
        } else {
            match all_rel(l, formats) {
                Ok(s) => Ok(LinksView::Legacy(s)),
                Err(f) => Err(f),
            }
        },
        _ => Err(Fault::Cbor("Incorrect cbor for ChildrenLinks"@)),
    }
}

proof fn lemma_named_fails(v: Seq<CborValue>, n: int, formats: &Formats)
    requires
        0 <= n <= v.len(),
        all_named(v.take(n), formats) is Err,
    ensures
        all_named(v, formats) == all_named(v.take(n), formats),
    decreases v.len(),
{
    if n < v.len() {
        assert(v.drop_last().take(n) =~= v.take(n));
        lemma_named_fails(v.drop_last(), n, formats);
    } else {
        assert(v.take(n) =~= v);
    }
}

proof fn lemma_rel_fails(v: Seq<CborValue>, n: int, formats: &Formats)
    requires
        0 <= n <= v.len(),
        all_rel(v.take(n), formats) is Err,
    ensures
        all_rel(v, formats) == all_rel(v.take(n), formats),
    decreases v.len(),
{
    if n < v.len() {
        assert(v.drop_last().take(n) =~= v.take(n));
        lemma_rel_fails(v.drop_last(), n, formats);
    } else {
        assert(v.take(n) =~= v);
    }
}

fn read_named(list: &Vec<CborObject>, formats: &Formats) -> (r: Result<Vec<NamedRelativeCapability>>)
    ensures
        match all_named(items(list@), formats) {
            Ok(s) => r is Ok && named_views(r->Ok_0@) == s,
            Err(f) => r is Err && error_is(r->Err_0, f),
        },
{
    let ghost all = items(list@);
    let mut out: Vec<NamedRelativeCapability> = Vec::new();
    proof {
        assert(all.take(0) =~= Seq::empty());
        assert(named_views(out@) =~= Seq::empty());
    }
    for i in 0..list.len()
        invariant
            all == items(list@),
            all_named(all.take(i as int), formats) == Ok::<Seq<NamedView>, Fault>(named_views(out@)),
    {
        let ghost before = named_views(out@);
        proof {
            assert(all.take(i as int + 1).drop_last() =~= all.take(i as int));
            assert(all.take(i as int + 1).last() == list[i as int]@);
        }
        match NamedRelativeCapability::from_cbor(&list[i], formats) {
            Ok(c) => {
                let ghost cv = c@;
                out.push(c);
                proof {
                    assert(named_views(out@) =~= before.push(cv));
                }
            },
            Err(e) => {
                proof {
                    lemma_named_fails(all, i as int + 1, formats);
                }
                return Err(e);
            },
        }
    }
    proof {
        assert(all.take(all.len() as int) =~= all);
    }
    Ok(out)
}

fn read_rel(list: &Vec<CborObject>, formats: &Formats) -> (r: Result<Vec<RelativeCapability>>)
    ensures
        match all_rel(items(list@), formats) {
            Ok(s) => r is Ok && rel_views(r->Ok_0@) == s,
            Err(f) => r is Err && error_is(r->Err_0, f),
        },
{
    let ghost all = items(list@);
    let mut out: Vec<RelativeCapability> = Vec::new();
    proof {
        assert(all.take(0) =~= Seq::empty());
        assert(rel_views(out@) =~= Seq::empty());
    }
    for i in 0..list.len()
        invariant
            all == items(list@),
            all_rel(all.take(i as int), formats) == Ok::<Seq<RelCapView>, Fault>(rel_views(out@)),
    {
        let ghost before = rel_views(out@);
        proof {
            assert(all.take(i as int + 1).drop_last() =~= all.take(i as int));
            assert(all.take(i as int + 1).last() == list[i as int]@);
        }
        match RelativeCapability::from_cbor(&list[i], formats) {
            Ok(c) => {
                let ghost cv = c@;
                out.push(c);
                proof {
                    assert(rel_views(out@) =~= before.push(cv));
                }
            },
            Err(e) => {
                proof {
                    lemma_rel_fails(all, i as int + 1, formats);
                }
                return Err(e);
            },
        }
    }
    proof {
        assert(all.take(all.len() as int) =~= all);
    }
    Ok(out)
}

impl ChildrenLinks {
    pub fn to_cbor(&self) -> (r: CborObject)
        ensures
            r@ == links_cbor(self@),
    {
        let mut out: Vec<CborObject> = Vec::new();
        match self {
            ChildrenLinks::Named(v) => {
                for i in 0..v.len()
                    invariant
                        out.len() == i,
                        forall|k: int| 0 <= k < i ==> (#[trigger] out[k])@ == named_cbor(v[k]@),
                {
                    out.push(v[i].to_cbor());
                }
                proof {
                    assert(items(out@) =~= Seq::new(v@.len(), |i: int| named_cbor(named_views(v@)[i])));
                }
            },
            ChildrenLinks::Legacy(v) => {
                for i in 0..v.len()
                    invariant
                        out.len() == i,
                        forall|k: int| 0 <= k < i ==> (#[trigger] out[k])@ == rel_cbor(v[k]@),
                {
                    out.push(v[i].to_cbor());
                }
                proof {
                    assert(items(out@) =~= Seq::new(v@.len(), |i: int| rel_cbor(rel_views(v@)[i])));
                }
            },
        }
        CborObject::List(out)
    }

    pub fn from_cbor(cbor: &CborObject, formats: &Formats) -> (r: Result<ChildrenLinks>)
        ensures
            agrees(r, links_from(cbor@, formats)),
    {
        let list = match cbor.as_list() {
            Some(l) => l,
            None => {
                return Err(cbor_error("Incorrect cbor for ChildrenLinks"));
            },
        };
        if list.len() == 0 {
            let none: Vec<NamedRelativeCapability> = Vec::new();
            proof {
                assert(named_views(none@) =~= Seq::empty());
            }
            return Ok(ChildrenLinks::Named(none));
        }
        proof {
            assert(items(list@)[0] == list[0]@);
        }
        if list[0].get("n").is_some() {
            match read_named(list, formats) {
                Ok(v) => Ok(ChildrenLinks::Named(v)),
                Err(e) => Err(e),
            }
        } else {
            match read_rel(list, formats) {
                Ok(v) => Ok(ChildrenLinks::Legacy(v)),
                Err(e) => Err(e),
            }
        }
    }
}

proof fn lemma_all_named(v: Seq<NamedView>, formats: &Formats)
    requires
        forall|i: int| 0 <= i < v.len() ==> is_readable_rel((#[trigger] v[i]).cap, formats),
    ensures
        all_named(Seq::new(v.len(), |i: int| named_cbor(v[i])), formats) == Ok::<Seq<NamedView>, Fault>(v),
    decreases v.len(),
{
    let c = Seq::new(v.len(), |i: int| named_cbor(v[i]));
    if v.len() > 0 {
        let init = v.drop_last();
        assert forall|i: int| 0 <= i < init.len() implies is_readable_rel((#[trigger] init[i]).cap, formats) by {
            assert(init[i] == v[i]);
        }
        assert(is_readable_rel(v[v.len() - 1].cap, formats));
        lemma_all_named(init, formats);
        assert(c.drop_last() =~= Seq::new(init.len(), |i: int| named_cbor(init[i])));
        law_named_round_trip(v.last(), formats);
        assert(init.push(v.last()) =~= v);
    } else {
        assert(v =~= Seq::empty());
        assert(all_named(c, formats) == Ok::<Seq<NamedView>, Fault>(Seq::empty()));
    }
}

proof fn lemma_all_rel(v: Seq<RelCapView>, formats: &Formats)
    requires
        forall|i: int| 0 <= i < v.len() ==> is_readable_rel(#[trigger] v[i], formats),
    ensures
        all_rel(Seq::new(v.len(), |i: int| rel_cbor(v[i])), formats) == Ok::<Seq<RelCapView>, Fault>(v),
    decreases v.len(),
{
    let c = Seq::new(v.len(), |i: int| rel_cbor(v[i]));
    if v.len() > 0 {
        let init = v.drop_last();
        assert forall|i: int| 0 <= i < init.len() implies is_readable_rel(#[trigger] init[i], formats) by {
            assert(init[i] == v[i]);
        }
        assert(is_readable_rel(v[v.len() - 1], formats));
        lemma_all_rel(init, formats);
        assert(c.drop_last() =~= Seq::new(init.len(), |i: int| rel_cbor(init[i])));
        law_rel_round_trip(v.last(), formats);
        assert(init.push(v.last()) =~= v);
    } else {
        assert(v =~= Seq::empty());
        assert(all_rel(c, formats) == Ok::<Seq<RelCapView>, Fault>(Seq::empty()));
    }
}

/// The links of a directory are read back from their CBOR as they were; an empty
/// legacy list comes back as an empty named one.
pub proof fn law_links_round_trip(l: LinksView, formats: &Formats)
    requires
        l matches LinksView::Legacy(v) ==> v.len() > 0 && forall|i: int|
            0 <= i < v.len() ==> is_readable_rel(#[trigger] v[i], formats),
        l matches LinksView::Named(v) ==> forall|i: int|
            0 <= i < v.len() ==> is_readable_rel((#[trigger] v[i]).cap, formats),
    ensures
        links_from(links_cbor(l), formats) == Ok::<LinksView, Fault>(l),
{
    reveal_keys();
    match l {
        LinksView::Named(v) => {
            lemma_all_named(v, formats);
            if v.len() > 0 {
                law_named_round_trip(v[0], formats);
            } else {
                assert(v =~= Seq::empty());
            }
        },
        LinksView::Legacy(v) => {
            lemma_all_rel(v, formats);
        },
    }
}

/// Where a relative capability keeps its parts.
pub proof fn law_rel_fields(c: RelCapView)
    ensures
        rel_cbor(c).get("w"@) == c.writer,
        rel_cbor(c).get("m"@) == Some(CborValue::ByteString(c.map_key)),
        rel_cbor(c).get("a"@) == c.bat,
        rel_cbor(c).get("k"@) == Some(c.r_base_key),
        rel_cbor(c).get("l"@) == c.w_base_key_link,
{
    reveal_keys();
}

/// Where the link to a child keeps its parts: those of its capability, its name, and what is known
/// of its kind.
pub proof fn law_named_fields(c: NamedView)
    ensures
        named_cbor(c).get("n"@) == Some(CborValue::Str(c.name)),
        named_cbor(c).get("m"@) == Some(CborValue::ByteString(c.cap.map_key)),
        named_cbor(c).get("k"@) == Some(c.cap.r_base_key),
        named_cbor(c).get("w"@) == c.cap.writer,
        named_cbor(c).get("a"@) == c.cap.bat,
        named_cbor(c).get("l"@) == c.cap.w_base_key_link,
        c.is_dir matches Some(d) ==> named_cbor(c).get("d"@) == Some(CborValue::Boolean(d)),
        c.is_dir is None ==> named_cbor(c).get("d"@) is None,
        c.mime_type matches Some(t) ==> named_cbor(c).get("t"@) == Some(CborValue::Str(t)),
        c.mime_type is None ==> named_cbor(c).get("t"@) is None,
        c.created_epoch matches Some(t) ==> named_cbor(c).get("c"@) == Some(CborValue::Long(t as int)),
        c.created_epoch is None ==> named_cbor(c).get("c"@) is None,
{
    reveal_keys();
}

/// Seen from a capability, a link leads to its own place with its own read key, in the space of
/// the writer that it names or else of the same writer. It can be written if and only if the
/// source can and the link carries a write key: with the key that this opens to.
pub proof fn law_absolute(c: RelCapView, source: CapView, opened: Option<CborValue>)
    requires
        c.map_key.len() == 32,
    ensures
        absolute(c, source, opened) is Ok,
        ({
            let a = absolute(c, source, opened)->Ok_0;
            &&& a.owner == source.owner
            &&& c.writer matches Some(w) ==> a.writer == w
            &&& c.writer is None ==> a.writer == source.writer
            &&& a.map_key == c.map_key
            &&& a.bat == c.bat
            &&& a.r_base_key == c.r_base_key
            &&& source.w_base_key is None ==> a.w_base_key is None
            &&& c.w_base_key_link is None ==> a.w_base_key is None
            &&& source.w_base_key is Some && c.w_base_key_link is Some ==> a.w_base_key == opened
        }),
{
}

/// Padding adds zeros behind the plain bytes up to the next multiple of the block, and no more.
pub proof fn law_padding(plain: Seq<u8>, block: nat)
    requires
        block > 0,
    ensures
        padded(plain, block).len() % block == 0,
        plain.len() <= padded(plain, block).len() < plain.len() + block,
        padded(plain, block).take(plain.len() as int) == plain,
        forall|i: int| plain.len() <= i < padded(plain, block).len() ==> #[trigger] padded(plain, block)[i] == 0,
{
    let n = plain.len();
    let q = (n + block - 1) as nat / block;
    vstd::arithmetic::div_mod::lemma_fundamental_div_mod((n + block - 1) as int, block as int);
    vstd::arithmetic::mul::lemma_mul_is_commutative(q as int, block as int);
    vstd::arithmetic::div_mod::lemma_mod_multiples_basic(q as int, block as int);
    assert(rounded_up(n, block) == q * block);
    assert(padded(plain, block).take(n as int) =~= plain);
}

/// The children of a directory are read as links with names if the first has one, and then all
/// of them have to; an empty list is one of links with names.
pub proof fn law_kinds_of_links(l: Seq<CborValue>, formats: &Formats)
    ensures
        l.len() == 0 ==> links_from(CborValue::List(l), formats) == Ok::<LinksView, Fault>(LinksView::Named(Seq::empty())),
        l.len() > 0 && l[0].get("n"@) is Some ==> (links_from(CborValue::List(l), formats) matches Ok(v) ==> v is Named),
        l.len() > 0 && l[0].get("n"@) is None ==> (links_from(CborValue::List(l), formats) matches Ok(v) ==> v is Legacy),
{
}

/// The blocks of a node are padded to multiples of 64 and of 16 bytes.
pub proof fn law_padding_sizes()
    ensures
        BASE_BLOCK_PADDING_BLOCKSIZE == 64,
        META_DATA_PADDING_BLOCKSIZE == 16,
        CURRENT_VERSION == 1,
{
}

/// Links are read one by one, in their order, and none is passed over.
pub proof fn law_links_are_read(v: Seq<CborValue>, formats: &Formats, i: int)
    requires
        0 <= i < v.len(),
    ensures
        all_named(v, formats) matches Ok(l) ==> l.len() == v.len() && named_from(v[i], formats) == Ok::<NamedView, Fault>(l[i]),
        all_rel(v, formats) matches Ok(l) ==> l.len() == v.len() && rel_from(v[i], formats) == Ok::<RelCapView, Fault>(l[i]),
        named_from(v[i], formats) is Err ==> all_named(v, formats) is Err,
        rel_from(v[i], formats) is Err ==> all_rel(v, formats) is Err,
    decreases v.len(),
{
    let init = v.drop_last();
    lemma_links_len(init, formats);
    if i < init.len() {
        law_links_are_read(init, formats, i);
        assert(init[i] == v[i]);
    }
}

proof fn lemma_links_len(v: Seq<CborValue>, formats: &Formats)
    ensures
        all_named(v, formats) matches Ok(l) ==> l.len() == v.len(),
        all_rel(v, formats) matches Ok(l) ==> l.len() == v.len(),
    decreases v.len(),
{
    if v.len() > 0 {
        lemma_links_len(v.drop_last(), formats);
    }
}

/// What is read of a link comes from its fields, and what it does not say is left open.
pub proof fn law_named_link_is_read_field_by_field(v: CborValue, formats: &Formats)
    ensures
        rel_from(v, formats) matches Ok(c) ==> c.writer == v.get("w"@) && v.bytes_at("m"@) == Some(c.map_key) && c.bat == v.get(
            "a"@,
        ) && v.get("k"@) == Some(c.r_base_key) && c.w_base_key_link == v.get("l"@),
        named_from(v, formats) matches Ok(n) ==> v.text_at("n"@) == Some(n.name) && rel_from(v, formats) == Ok::<
            RelCapView,
            Fault,
        >(n.cap) && n.is_dir == v.bool_at("d"@) && n.mime_type == v.text_at("t"@) && (n.created_epoch is Some <==> v.long_at(
            "c"@,
        ) is Some),
        v.text_at("n"@) is None ==> named_from(v, formats) is Err,
        v.bytes_at("m"@) is None ==> rel_from(v, formats) is Err,
        v.get("k"@) is None ==> rel_from(v, formats) is Err,
{
}

} // verus!
