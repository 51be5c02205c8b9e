//! What a writer keeps beside its tree: the record that its pointer leads to.
use vstd::prelude::*;
use crate::bytes::le_bytes;
use crate::cbor::{map_put, put_entry, CborObject, CborValue};
use crate::cbor_codec::encode;
use crate::cryptree::properties::as_unsigned;
use crate::error::{cbor_error, fails_cbor, fails_protocol, protocol, Result};
use crate::opaque::{BatId, PublicKeyHash};
use crate::text::copy_bytes;

verus! {

broadcast use crate::cbor::group_cbor;

/// A link to the block with this cid.
pub fn link_to(cid: &[u8]) -> (r: CborObject)
    ensures
        r@ == CborValue::MerkleLink(cid@),
{
    CborObject::MerkleLink(copy_bytes(cid))
}

/// The record of a writer with `field` linked to `cid`: every other field stays.
pub open spec fn with_field(wd: CborValue, field: Seq<char>, cid: Seq<u8>) -> CborValue {
    CborValue::Mapping(map_put(wd->Mapping_0, field, CborValue::MerkleLink(cid)))
}

/// Set a link field on the record of a writer (preserving all other fields).
pub fn writer_data_with_link_field(wd: &CborObject, field: &str, cid: &[u8]) -> (r: Result<CborObject>)
    ensures
        wd@ is Mapping ==> r is Ok && r->Ok_0@ == with_field(wd@, field@, cid@),
        !(wd@ is Mapping) ==> fails_cbor(r, "WriterData is not a map"@),
{
    match wd.dup() {
        CborObject::Mapping(e) => {
            let mut entries = e;
            put_entry(&mut entries, field, link_to(cid));
            Ok(CborObject::Mapping(entries))
        },
        _ => Err(cbor_error("WriterData is not a map")),
    }
}

/// Replace the `tree` (champ root) link.
pub fn writer_data_with_tree(wd: &CborObject, tree: &[u8]) -> (r: Result<CborObject>)
    ensures
        wd@ is Mapping ==> r is Ok && r->Ok_0@ == with_field(wd@, "tree"@, tree@),
        !(wd@ is Mapping) ==> fails_cbor(r, "WriterData is not a map"@),
{
    writer_data_with_link_field(wd, "tree", tree)
}

/// Replace the `owned` (owned-key champ root) link.
pub fn writer_data_with_owned(wd: &CborObject, owned: &[u8]) -> (r: Result<CborObject>)
    ensures
        wd@ is Mapping ==> r is Ok && r->Ok_0@ == with_field(wd@, "owned"@, owned@),
        !(wd@ is Mapping) ==> fails_cbor(r, "WriterData is not a map"@),
{
    writer_data_with_link_field(wd, "owned", owned)
}

/// Replacing one link changes no other field of the record.
pub proof fn law_other_fields_stay(wd: CborValue, field: Seq<char>, cid: Seq<u8>, key: Seq<char>)
    requires
        wd is Mapping,
    ensures
        with_field(wd, field, cid).get(key) == if key == field {
            Some(CborValue::MerkleLink(cid))
        } else {
            wd.get(key)
        },
{
}

/// The cid that a field of the record links to, with the error for one that does not.
pub fn linked(wd: &CborObject, field: &str, missing: &str) -> (r: Result<Vec<u8>>)
    ensures
        wd@.link_at(field@) is Some ==> r is Ok && r->Ok_0@ == wd@.link_at(field@)->Some_0,
        wd@.link_at(field@) is None ==> fails_protocol(r, missing@),
{
    match wd.link_at(field) {
        Some(cid) => Ok(cid),
        None => Err(protocol(missing)),
    }
}

/// What was fetched, with the error for what is not there.
pub fn present<T>(o: Option<T>, missing: &str) -> (r: Result<T>)
    ensures
        o matches Some(x) ==> r == Ok::<T, crate::error::Error>(x),
        o is None ==> fails_protocol(r, missing@),
{
    match o {
        Some(x) => Ok(x),
        None => Err(protocol(missing)),
    }
}

/// The outcome of a pointer update, with the error for one that was refused.
pub fn accepted(ok: bool, rejected: &str) -> (r: Result<()>)
    ensures
        ok ==> r is Ok,
        !ok ==> fails_protocol(r, rejected@),
{
    if ok {
        Ok(())
    } else {
        Err(protocol(rejected))
    }
}

/// The bytes in reverse order.
pub open spec fn reversed(b: Seq<u8>) -> Seq<u8> {
    Seq::new(b.len(), |i: int| b[b.len() - 1 - i])
}

/// The key of a writer among those that another writer owns: its serialized hash in
/// reverse.
pub fn owned_key(writer: &PublicKeyHash) -> (r: Vec<u8>)
    ensures
        r@ == reversed(encode(writer@)),
{
    let b = writer.to_cbor().to_bytes();
    let mut out: Vec<u8> = Vec::new();
    let mut i: usize = b.len();
    while i > 0
        invariant
            i <= b.len(),
            out@.len() == b.len() - i,
            forall|k: int| 0 <= k < out@.len() ==> #[trigger] out@[k] == b@[b.len() - 1 - k],
        decreases i,
    {
        i -= 1;
        out.push(b[i]);
    }
    proof {
        assert(out@ =~= reversed(b@));
    }
    out
}

/// The bytes that a new writer signs to prove who owns it.
pub fn ownership_claim(owner_writer: &PublicKeyHash) -> (r: Vec<u8>)
    ensures
        r@ == encode(owner_writer@),
{
    owner_writer.to_cbor().to_bytes()
}

/// The proof that a writer is owned: its hash, and what it signed.
pub fn owner_proof(writer: &PublicKeyHash, signed: Vec<u8>) -> (r: CborObject)
    ensures
        r@ == CborValue::Mapping(
            map_put(map_put(Seq::empty(), "o"@, writer@), "p"@, CborValue::ByteString(signed@)),
        ),
{
    CborObject::map().put("o", writer.to_cbor()).put("p", CborObject::ByteString(signed)).build()
}

/// The record of a new writer.
pub fn new_writer_data(writer: &PublicKeyHash, owned: &[u8], tree: &[u8]) -> (r: CborObject)
    ensures
        r@ == CborValue::Mapping(
            map_put(
                map_put(
                    map_put(Seq::empty(), "controller"@, writer@),
                    "owned"@,
                    CborValue::MerkleLink(owned@),
                ),
                "tree"@,
                CborValue::MerkleLink(tree@),
            ),
        ),
{
    CborObject::map().put("controller", writer.to_cbor()).put("owned", link_to(owned)).put("tree", link_to(tree)).build()
}

/// A new writer's record leads to its tree and to the writers that it owns.
pub proof fn law_new_writer_data(writer: CborValue, owned: Seq<u8>, tree: Seq<u8>)
    ensures
        ({
            let wd = CborValue::Mapping(
                map_put(
                    map_put(
                        map_put(Seq::empty(), "controller"@, writer),
                        "owned"@,
                        CborValue::MerkleLink(owned),
                    ),
                    "tree"@,
                    CborValue::MerkleLink(tree),
                ),
            );
            wd.get("controller"@) == Some(writer) && wd.link_at("owned"@) == Some(owned) && wd.link_at("tree"@)
                == Some(tree)
        }),
{
    reveal_strlit("controller");
    reveal_strlit("owned");
    reveal_strlit("tree");
}

/// The bytes whose hash is the key of a secret link: its label in 8 little endian
/// bytes.
pub fn secret_link_key_bytes(label: i64) -> (r: Vec<u8>)
    ensures
        r@ == le_bytes(as_unsigned(label as int), 8),
{
    let n: u64 = if label < 0 { (label as i128 + 0x1_0000_0000_0000_0000) as u64 } else { label as u64 };
    let fs: [(u64, usize); 1] = [(n, 8)];
    let mut out: Vec<u8> = Vec::new();
    crate::archive::layout::push_fields(&mut out, &fs);
    proof {
        let f = crate::archive::layout::fields_of(fs@);
        assert(f.drop_last() =~= Seq::empty());
        assert(crate::archive::layout::packed(f.drop_last()) =~= Seq::empty());
        assert(out@ =~= le_bytes(n as nat, 8));
    }
    out
}

/// The access tokens of a block: its own one inline, if it has one, and the id of the
/// account's mirror token, if there is one.
pub fn node_bats(inline: Option<CborObject>, mirror_bat: Option<&BatId>) -> (r: Vec<CborObject>)
    ensures
        crate::cbor::items(r@) == (match inline {
            Some(b) => seq![b@],
            None => Seq::empty(),
        }) + (match mirror_bat {
            Some(m) => seq![m@],
            None => Seq::empty(),
        }),
{
    let mut v: Vec<CborObject> = Vec::new();
    match inline {
        Some(b) => {
            v.push(b);
        },
        None => {},
    }
    match mirror_bat {
        Some(m) => {
            v.push(m.to_cbor());
        },
        None => {},
    }
    proof {
        assert(crate::cbor::items(v@) =~= (match inline {
            Some(b) => seq![b@],
            None => Seq::empty(),
        }) + (match mirror_bat {
            Some(m) => seq![m@],
            None => Seq::empty(),
        }));
    }
    v
}

/// The key of a writer among the owned ones is its encoding read from behind.
pub proof fn law_reversed(b: Seq<u8>, i: int)
    requires
        0 <= i < b.len(),
    ensures
        reversed(b).len() == b.len(),
        reversed(b)[i] == b[b.len() - 1 - i],
        reversed(reversed(b)) == b,
        reversed(b) == b.reverse(),
{
    assert(reversed(reversed(b)) =~= b);
    assert(reversed(b) =~= b.reverse());
}

} // verus!
