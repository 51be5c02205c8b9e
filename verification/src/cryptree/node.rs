//! The encrypted metadata node and its blocks.
use vstd::prelude::*;
use crate::cbor::{items, map_put, map_put_opt, CborObject, CborValue};
use crate::cryptree::properties::{props_cbor, props_from, FileProperties, PropsView};
use crate::cryptree::{
    is_readable_rel, rel_cbor, rel_from, reveal_keys, PaddedCipherText, RelCapView, RelativeCapability, CURRENT_VERSION,
};
use crate::error::{agrees, cbor_error, fails_protocol, opt, protocol, protocol_of, Fault, Result};
use crate::opaque::{dup_opt, Bat, Formats, Kind, SymmetricKey};
use crate::text::{copy_bytes, decimal_i64, decimal_int};

verus! {

broadcast use crate::cbor::group_cbor;

/// The base block, decrypted with the read-base key.
#[derive(Debug, PartialEq, Eq)]
pub struct FromBase {
    /// For a file, the data key; for a directory, the parent key.
    pub parent_or_data: SymmetricKey,
    pub signer: Option<CborObject>,
    pub next_chunk: RelativeCapability,
}

/// The content of a [`FromBase`].
pub ghost struct BaseView {
    pub parent_or_data: CborValue,
    pub signer: Option<CborValue>,
    pub next_chunk: RelCapView,
}

impl View for FromBase {
    type V = BaseView;

    open spec fn view(&self) -> BaseView {
        BaseView {
            parent_or_data: self.parent_or_data@,
            signer: opt(self.signer),
            next_chunk: self.next_chunk@,
        }
    }
}

/// The CBOR of a base block.
pub open spec fn base_cbor(b: BaseView) -> CborValue {
    let e = map_put(Seq::empty(), "k"@, b.parent_or_data);
    let e = map_put_opt(e, "w"@, b.signer);
    CborValue::Mapping(map_put(e, "n"@, rel_cbor(b.next_chunk)))
}

/// The base block that a value describes.
pub open spec fn base_from(v: CborValue, formats: &Formats) -> core::result::Result<BaseView, Fault> {
    match formats.value_at(v, "k"@, Kind::SymmetricKey) {
        Err(f) => Err(f),
        Ok(None) => Err(Fault::Cbor("FromBase missing 'k'"@)),
        Ok(Some(parent_or_data)) => match v.get("n"@) {
            None => Err(Fault::Cbor("FromBase missing 'n'"@)),
            Some(n) => match rel_from(n, formats) {
                Err(f) => Err(f),
                Ok(next_chunk) => Ok(BaseView { parent_or_data, signer: v.get("w"@), next_chunk }),
            },
        },
    }
}

impl FromBase {
    pub fn from_cbor(cbor: &CborObject, formats: &Formats) -> (r: Result<FromBase>)
        ensures
            agrees(r, base_from(cbor@, formats)),
    {
        let parent_or_data = match formats.read_at(cbor, "k", Kind::SymmetricKey) {
            Ok(Some(k)) => k,
            Ok(None) => {
                return Err(cbor_error("FromBase missing 'k'"));
            },
            Err(e) => {
                return Err(e);
            },
        };
        let signer = match cbor.get("w") {
            Some(c) => Some(c.dup()),
            None => None,
        };
        let next = match cbor.get("n") {
            Some(n) => n,
            None => {
                return Err(cbor_error("FromBase missing 'n'"));
            },
        };
        match RelativeCapability::from_cbor(next, formats) {
            Ok(next_chunk) => Ok(FromBase { parent_or_data, signer, next_chunk }),
            Err(e) => Err(e),
        }
    }

    /// The CBOR that is encrypted with the read-base key.
    pub fn to_cbor(&self) -> (r: CborObject)
        ensures
            r@ == base_cbor(self@),
    {
        CborObject::map().put("k", self.parent_or_data.to_cbor()).put_opt(
            "w",
            crate::cryptree::dup_cbor(&self.signer),
        ).put("n", self.next_chunk.to_cbor()).build()
    }

    /// The link to the private signing key, to be decrypted with the write-base key.
    pub fn signer_link(&self) -> (r: Result<&CborObject>)
        ensures
            self@.signer is None ==> fails_protocol(r, "No link to private signing key on this node"@),
            self@.signer is Some ==> r is Ok && r->Ok_0@ == self@.signer->Some_0,
    {
        match &self.signer {
            Some(c) => Ok(c),
            None => Err(protocol("No link to private signing key on this node")),
        }
    }

    /// The location (map-key, BAT) of the next chunk: used by directories (files use
    /// the stream secret instead).
    pub fn next_location(&self) -> (r: (Vec<u8>, Option<Bat>))
        ensures
            r.0@ == self@.next_chunk.map_key,
            opt(r.1) == self@.next_chunk.bat,
    {
        (copy_bytes(&self.next_chunk.map_key), dup_opt(&self.next_chunk.bat))
    }
}

/// A base block is read back from its CBOR as it was.
pub proof fn law_base_round_trip(b: BaseView, formats: &Formats)
    requires
        formats.accepts(Kind::SymmetricKey, b.parent_or_data),
        is_readable_rel(b.next_chunk, formats),
    ensures
        base_from(base_cbor(b), formats) == Ok::<BaseView, Fault>(b),
{
    reveal_keys();
    crate::cryptree::law_rel_round_trip(b.next_chunk, formats);
}

/// The parent block, decrypted with the parent key.
#[derive(Debug, PartialEq, Eq)]
pub struct FromParent {
    pub parent_link: Option<RelativeCapability>,
    pub properties: FileProperties,
}

/// The content of a [`FromParent`].
pub ghost struct ParentView {
    pub parent_link: Option<RelCapView>,
    pub properties: PropsView,
}

impl View for FromParent {
    type V = ParentView;

    open spec fn view(&self) -> ParentView {
        ParentView { parent_link: opt(self.parent_link), properties: self.properties@ }
    }
}

/// The CBOR of an optional link.
pub open spec fn opt_rel_cbor(l: Option<RelCapView>) -> Option<CborValue> {
    match l {
        Some(c) => Some(rel_cbor(c)),
        None => None,
    }
}

/// The CBOR of a parent block.
pub open spec fn parent_cbor(p: ParentView) -> CborValue {
    let e = map_put_opt(Seq::empty(), "p"@, opt_rel_cbor(p.parent_link));
    CborValue::Mapping(map_put(e, "s"@, props_cbor(p.properties)))
}

/// The parent block that a value describes.
pub open spec fn parent_from(v: CborValue, formats: &Formats) -> core::result::Result<ParentView, Fault> {
    let link = match v.get("p"@) {
        None => Ok::<Option<RelCapView>, Fault>(None),
        Some(x) => match rel_from(x, formats) {
            Ok(c) => Ok(Some(c)),
            Err(f) => Err(f),
        },
    };
    match (link, v.get("s"@)) {
        (Err(f), _) => Err(f),
        (_, None) => Err(Fault::Cbor("FromParent missing 's'"@)),
        (Ok(parent_link), Some(s)) => match props_from(s) {
            Err(f) => Err(f),
            Ok(properties) => Ok(ParentView { parent_link, properties }),
        },
    }
}

impl FromParent {
    pub fn from_cbor(cbor: &CborObject, formats: &Formats) -> (r: Result<FromParent>)
        ensures
            agrees(r, parent_from(cbor@, formats)),
    {
        let parent_link = match cbor.get("p") {
            None => None,
            Some(c) => match RelativeCapability::from_cbor(c, formats) {
                Ok(l) => Some(l),
                Err(e) => {
                    return Err(e);
                },
            },
        };
        let s = match cbor.get("s") {
            Some(s) => s,
            None => {
                return Err(cbor_error("FromParent missing 's'"));
            },
        };
        match FileProperties::from_cbor(s) {
            Ok(properties) => Ok(FromParent { parent_link, properties }),
            Err(e) => Err(e),
        }
    }

    /// The CBOR that is encrypted with the parent key.
    pub fn to_cbor(&self) -> (r: CborObject)
        ensures
            r@ == parent_cbor(self@),
    {
        let link = match &self.parent_link {
            Some(l) => Some(l.to_cbor()),
            None => None,
        };
        CborObject::map().put_opt("p", link).put("s", self.properties.to_cbor()).build()
    }

    /// The parent block with other properties.
    pub fn with_properties(self, properties: FileProperties) -> (r: FromParent)
        ensures
            r@ == (ParentView { properties: properties@, ..self@ }),
    {
        FromParent { parent_link: self.parent_link, properties }
    }

    /// The parent block of a chunk whose data changed: the content hash-tree branch is
    /// cleared and the modified time is set.
    pub fn overwritten(self, modified_epoch: i64) -> (r: FromParent)
        ensures
            r@ == overwritten(self@, modified_epoch as int),
            r.properties.tree_hash is None,
            r.properties.modified_epoch == modified_epoch,
            r.properties.created_epoch == self.properties.created_epoch,
            r.properties.name == self.properties.name,
            r.properties.size == self.properties.size,
            r.properties.mime_type == self.properties.mime_type,
            r.properties.stream_secret == self.properties.stream_secret,
            r.parent_link == self.parent_link,
    {
        let mut properties = self.properties;
        properties.tree_hash = None;
        properties.modified_epoch = modified_epoch;
        FromParent { parent_link: self.parent_link, properties }
    }
}

/// The parent block of a chunk whose data changed.
pub open spec fn overwritten(p: ParentView, modified_epoch: int) -> ParentView {
    ParentView { properties: PropsView { tree_hash: None, modified_epoch, ..p.properties }, ..p }
}

/// A parent block is read back from its CBOR as it was.
pub proof fn law_parent_round_trip(p: ParentView, formats: &Formats)
    requires
        p.parent_link matches Some(l) ==> is_readable_rel(l, formats),
        p.properties.size <= u64::MAX,
        p.properties.tree_hash matches Some(b) ==> b.root.len() == crate::hashtree::HASH_LENGTH,
    ensures
        parent_from(parent_cbor(p), formats) == Ok::<ParentView, Fault>(p),
{
    reveal_keys();
    crate::cryptree::properties::law_props_round_trip(p.properties);
    if p.parent_link is Some {
        crate::cryptree::law_rel_round_trip(p.parent_link->Some_0, formats);
    }
}

/// An encrypted file or directory metadata node.
#[derive(Debug, PartialEq, Eq)]
pub struct CryptreeNode {
    pub is_directory: bool,
    pub bats: Vec<CborObject>,
    pub from_base_key: PaddedCipherText,
    pub from_parent_key: PaddedCipherText,
    /// Directory children or file data, as it is stored.
    pub children_or_data: CborObject,
}

/// The content of a [`CryptreeNode`].
pub ghost struct NodeView {
    pub is_directory: bool,
    pub bats: Seq<CborValue>,
    pub from_base_key: CborValue,
    pub from_parent_key: CborValue,
    pub children_or_data: CborValue,
}

impl View for CryptreeNode {
    type V = NodeView;

    open spec fn view(&self) -> NodeView {
        NodeView {
            is_directory: self.is_directory,
            bats: items(self.bats@),
            from_base_key: self.from_base_key@,
            from_parent_key: self.from_parent_key@,
            children_or_data: self.children_or_data@,
        }
    }
}

/// The CBOR of a node.
pub open spec fn node_cbor(n: NodeView) -> CborValue {
    let e = map_put(Seq::empty(), "v"@, CborValue::Long(CURRENT_VERSION as int));
    let e = map_put_opt(e, "bats"@, if n.bats.len() > 0 { Some(CborValue::List(n.bats)) } else { None });
    let e = map_put(e, "b"@, n.from_base_key);
    let e = map_put(e, "p"@, n.from_parent_key);
    CborValue::Mapping(map_put(e, "d"@, n.children_or_data))
}

/// Whether a node is a directory, by what its parent block decrypts to under the
/// read-base key. For a file the base key is the parent key, so the parent block
/// decrypts; if it does not, this is a directory.
pub open spec fn opens_as_directory(opened: Option<CborValue>, formats: &Formats) -> bool {
    match opened {
        None => true,
        Some(v) => match parent_from(v, formats) {
            Ok(p) => p.properties.is_directory,
            Err(f) => true,
        },
    }
}

/// The node that a value describes.
pub open spec fn node_from(v: CborValue, opened: Option<CborValue>, formats: &Formats) -> core::result::Result<NodeView, Fault> {
    if v.long_at("v"@) is None {
        Err(Fault::Cbor("CryptreeNode missing version"@))
    } else if v.long_at("v"@) != Some(CURRENT_VERSION as int) {
        Err(Fault::Protocol("Unknown cryptree version: "@ + decimal_int(v.long_at("v"@)->Some_0)))
    } else {
        match formats.value_at(v, "b"@, Kind::CipherText) {
            Err(f) => Err(f),
            Ok(None) => Err(Fault::Cbor("CryptreeNode missing 'b'"@)),
            Ok(Some(from_base_key)) => match formats.value_at(v, "p"@, Kind::CipherText) {
                Err(f) => Err(f),
                Ok(None) => Err(Fault::Cbor("CryptreeNode missing 'p'"@)),
                Ok(Some(from_parent_key)) => match v.get("d"@) {
                    None => Err(Fault::Cbor("CryptreeNode missing 'd'"@)),
                    Some(children_or_data) => Ok(
                        NodeView {
                            is_directory: opens_as_directory(opened, formats),
                            bats: match v.list_at("bats"@) {
                                Some(l) => l,
                                None => Seq::empty(),
                            },
                            from_base_key,
                            from_parent_key,
                            children_or_data,
                        },
                    ),
                },
            },
        }
    }
}

/// A copy of a list of values.
pub fn dup_items(v: &Vec<CborObject>) -> (r: Vec<CborObject>)
    ensures
        items(r@) == items(v@),
{
    let mut out: Vec<CborObject> = Vec::new();
    for i in 0..v.len()
        invariant
            out.len() == i,
            forall|k: int| 0 <= k < i ==> (#[trigger] out[k])@ == v[k]@,
    {
        out.push(v[i].dup());
    }
    proof {
        assert(items(out@) =~= items(v@));
    }
    out
}

impl CryptreeNode {
    /// Parse a cryptree node. `opened` is what its parent block decrypts to under the
    /// capability's read-base key, if it does: it tells whether this is a directory.
    pub fn from_cbor(cbor: &CborObject, opened: Option<&CborObject>, formats: &Formats) -> (r: Result<CryptreeNode>)
        ensures
            agrees(r, node_from(cbor@, match opened { Some(c) => Some(c@), None => None }, formats)),
    {
        let version: i64 = match cbor.long_at("v") {
            Some(v) => v,
            None => {
                return Err(cbor_error("CryptreeNode missing version"));
            },
        };
        if version != CURRENT_VERSION {
            return Err(protocol_of("Unknown cryptree version: ", decimal_i64(version).as_str()));
        }
        let bats = match cbor.get("bats") {
            Some(CborObject::List(l)) => dup_items(l),
            _ => {
                let none: Vec<CborObject> = Vec::new();
                proof {
                    assert(items(none@) =~= Seq::empty());
                }
                none
            },
        };
        let from_base_key = match cbor.get("b") {
            Some(c) => match PaddedCipherText::from_cbor(c, formats) {
                Ok(t) => t,
                Err(e) => {
                    return Err(e);
                },
            },
            None => {
                return Err(cbor_error("CryptreeNode missing 'b'"));
            },
        };
        let from_parent_key = match cbor.get("p") {
            Some(c) => match PaddedCipherText::from_cbor(c, formats) {
                Ok(t) => t,
                Err(e) => {
                    return Err(e);
                },
            },
            None => {
                return Err(cbor_error("CryptreeNode missing 'p'"));
            },
        };
        let children_or_data = match cbor.get("d") {
            Some(c) => c.dup(),
            None => {
                return Err(cbor_error("CryptreeNode missing 'd'"));
            },
        };
        let is_directory: bool = match opened {
            None => true,
            Some(c) => match FromParent::from_cbor(c, formats) {
                Ok(p) => p.properties.is_directory,
                Err(_) => true,
            },
        };
        Ok(CryptreeNode { is_directory, bats, from_base_key, from_parent_key, children_or_data })
    }

    /// Whether this is a directory.
    pub fn is_directory(&self) -> (r: bool)
        ensures
            r == self@.is_directory,
    {
        self.is_directory
    }

    /// The key that decrypts the parent block. `base` is the base block, if it
    /// decrypts under `base_key`.
    pub fn get_parent_key(&self, base_key: &SymmetricKey, base: Option<&FromBase>) -> (r: SymmetricKey)
        ensures
            r@ == if self@.is_directory && base is Some {
                base->Some_0@.parent_or_data
            } else {
                base_key@
            },
    {
        if self.is_directory {
            match base {
                Some(b) => {
                    return b.parent_or_data.dup();
                },
                None => {},
            }
        }
        base_key.dup()
    }

    /// The key that decrypts the file data; files only.
    pub fn get_data_key(&self, base: &FromBase) -> (r: Result<SymmetricKey>)
        ensures
            self@.is_directory ==> fails_protocol(r, "Directories don't have a data key!"@),
            !self@.is_directory ==> r is Ok && r->Ok_0@ == base@.parent_or_data,
    {
        if self.is_directory {
            return Err(protocol("Directories don't have a data key!"));
        }
        Ok(base.parent_or_data.dup())
    }

    /// Construct a node directly from its encrypted parts.
    pub fn new(
        is_directory: bool,
        bats: Vec<CborObject>,
        from_base_key: PaddedCipherText,
        from_parent_key: PaddedCipherText,
        children_or_data: CborObject,
    ) -> (r: CryptreeNode)
        ensures
            r@ == (NodeView {
                is_directory,
                bats: items(bats@),
                from_base_key: from_base_key@,
                from_parent_key: from_parent_key@,
                children_or_data: children_or_data@,
            }),
    {
        CryptreeNode { is_directory, bats, from_base_key, from_parent_key, children_or_data }
    }

    /// A copy of this node with another parent block (no data change): the base block
    /// and children-or-data are preserved as they are stored.
    pub fn with_parent_block(&self, from_parent_key: PaddedCipherText) -> (r: CryptreeNode)
        ensures
            r@ == (NodeView { from_parent_key: from_parent_key@, ..self@ }),
    {
        CryptreeNode {
            is_directory: self.is_directory,
            bats: dup_items(&self.bats),
            from_base_key: self.from_base_key.dup(),
            from_parent_key,
            children_or_data: self.children_or_data.dup(),
        }
    }

    /// A copy of this node with new children/data (keeping the encrypted base and
    /// parent blocks).
    pub fn with_children_or_data(&self, children_or_data: CborObject) -> (r: CryptreeNode)
        ensures
            r@ == (NodeView { children_or_data: children_or_data@, ..self@ }),
    {
        CryptreeNode {
            is_directory: self.is_directory,
            bats: dup_items(&self.bats),
            from_base_key: self.from_base_key.dup(),
            from_parent_key: self.from_parent_key.dup(),
            children_or_data,
        }
    }

    /// A copy of this **file** chunk with new data, and with the parent block that
    /// [`FromParent::overwritten`] gives. The encrypted base block is preserved.
    pub fn overwrite_chunk_data(&self, from_parent_key: PaddedCipherText, new_data: CborObject) -> (r: CryptreeNode)
        ensures
            r@ == (NodeView {
                is_directory: false,
                from_parent_key: from_parent_key@,
                children_or_data: new_data@,
                ..self@
            }),
    {
        CryptreeNode {
            is_directory: false,
            bats: dup_items(&self.bats),
            from_base_key: self.from_base_key.dup(),
            from_parent_key,
            children_or_data: new_data,
        }
    }

    pub fn to_cbor(&self) -> (r: CborObject)
        ensures
            r@ == node_cbor(self@),
    {
        let bats = if self.bats.len() > 0 { Some(CborObject::List(dup_items(&self.bats))) } else { None };
        CborObject::map().put("v", CborObject::Long(CURRENT_VERSION)).put_opt("bats", bats).put(
            "b",
            self.from_base_key.to_cbor(),
        ).put("p", self.from_parent_key.to_cbor()).put("d", self.children_or_data.dup()).build()
    }

    /// A copy of this node.
    pub fn dup(&self) -> (r: CryptreeNode)
        ensures
            r@ == self@,
    {
        CryptreeNode {
            is_directory: self.is_directory,
            bats: dup_items(&self.bats),
            from_base_key: self.from_base_key.dup(),
            from_parent_key: self.from_parent_key.dup(),
            children_or_data: self.children_or_data.dup(),
        }
    }
}

/// A node is read back from its CBOR as it was, given what its parent block opens to.
pub proof fn law_node_round_trip(n: NodeView, opened: Option<CborValue>, formats: &Formats)
    requires
        opens_as_directory(opened, formats) == n.is_directory,
        formats.accepts(Kind::CipherText, n.from_base_key),
        formats.accepts(Kind::CipherText, n.from_parent_key),
    ensures
        node_from(node_cbor(n), opened, formats) == Ok::<NodeView, Fault>(n),
{
    reveal_keys();
    if n.bats.len() == 0 {
        assert(n.bats =~= Seq::empty());
    }
}

/// A chunk whose data changed claims no hash of its content, and was modified at that time; what
/// it was created as stays: its dates, its name, its size and type, its secret and its parent.
pub proof fn law_overwritten_block(p: ParentView, t: int)
    ensures
        overwritten(p, t).properties.tree_hash is None,
        overwritten(p, t).properties.modified_epoch == t,
        overwritten(p, t).properties.created_epoch == p.properties.created_epoch,
        overwritten(p, t).properties.name == p.properties.name,
        overwritten(p, t).properties.size == p.properties.size,
        overwritten(p, t).properties.mime_type == p.properties.mime_type,
        overwritten(p, t).properties.stream_secret == p.properties.stream_secret,
        overwritten(p, t).properties.thumbnail == p.properties.thumbnail,
        overwritten(p, t).properties.is_directory == p.properties.is_directory,
        overwritten(p, t).properties.is_link == p.properties.is_link,
        overwritten(p, t).properties.is_hidden == p.properties.is_hidden,
        overwritten(p, t).parent_link == p.parent_link,
{
}

/// Where a base block keeps its parts.
pub proof fn law_base_fields(b: BaseView)
    ensures
        base_cbor(b).get("k"@) == Some(b.parent_or_data),
        base_cbor(b).get("w"@) == b.signer,
        base_cbor(b).get("n"@) == Some(rel_cbor(b.next_chunk)),
{
    reveal_keys();
}

/// Where a parent block keeps its parts.
pub proof fn law_parent_fields(p: ParentView)
    ensures
        parent_cbor(p).get("s"@) == Some(props_cbor(p.properties)),
        p.parent_link is None ==> parent_cbor(p).get("p"@) is None,
        p.parent_link matches Some(l) ==> parent_cbor(p).get("p"@) == Some(rel_cbor(l)),
{
    reveal_keys();
}

/// Where a node keeps its parts.
pub proof fn law_node_fields(n: NodeView)
    ensures
        node_cbor(n).get("v"@) == Some(CborValue::Long(1)),
        node_cbor(n).get("b"@) == Some(n.from_base_key),
        node_cbor(n).get("p"@) == Some(n.from_parent_key),
        node_cbor(n).get("d"@) == Some(n.children_or_data),
        n.bats.len() > 0 ==> node_cbor(n).get("bats"@) == Some(CborValue::List(n.bats)),
        n.bats.len() == 0 ==> node_cbor(n).get("bats"@) is None,
{
    reveal_keys();
    reveal_strlit("bats");
    reveal_strlit("v");
    reveal_strlit("d");
}

/// Whether a node is a directory: it is one if its parent block does not open under the
/// read-base key, and otherwise if the block says so.
pub proof fn law_directories_do_not_open(v: CborValue, opened: Option<CborValue>, formats: &Formats)
    requires
        node_from(v, opened, formats) is Ok,
    ensures
        opened is None ==> node_from(v, opened, formats)->Ok_0.is_directory,
        opened matches Some(x) ==> (parent_from(x, formats) matches Ok(p) ==> node_from(v, opened, formats)->Ok_0.is_directory
            == p.properties.is_directory),
{
}

} // verus!
