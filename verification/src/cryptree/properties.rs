//! File and directory metadata.
use vstd::prelude::*;
use crate::cbor::{map_put, map_put_opt, CborObject, CborValue};
use crate::cryptree::reveal_keys;
use crate::error::{agrees, cbor_error, opt, Fault, Result};
use crate::hashtree::{branch_cbor, branch_from, law_branch_round_trip, BranchView, HashBranch, HASH_LENGTH};
use crate::text::copy_bytes;

verus! {

broadcast use crate::cbor::group_cbor;

/// File/directory metadata.
#[derive(Debug, PartialEq, Eq)]
pub struct FileProperties {
    pub name: String,
    pub is_directory: bool,
    pub is_link: bool,
    pub mime_type: String,
    pub size: u64,
    pub is_hidden: bool,
    pub modified_epoch: i64,
    pub created_epoch: i64,
    /// Present for files with multiple chunks; drives next-chunk map-key derivation.
    pub stream_secret: Option<Vec<u8>>,
    /// Optional thumbnail: (mime type, bytes).
    pub thumbnail: Option<(String, Vec<u8>)>,
    /// Content hash-tree branch for this chunk's position.
    pub tree_hash: Option<HashBranch>,
}

/// The content of [`FileProperties`].
pub ghost struct PropsView {
    pub name: Seq<char>,
    pub is_directory: bool,
    pub is_link: bool,
    pub mime_type: Seq<char>,
    pub size: nat,
    pub is_hidden: bool,
    pub modified_epoch: int,
    pub created_epoch: int,
    pub stream_secret: Option<Seq<u8>>,
    pub thumbnail: Option<(Seq<char>, Seq<u8>)>,
    pub tree_hash: Option<BranchView>,
}

/// The content of an optional thumbnail.
pub open spec fn thumbnail_view(t: Option<(String, Vec<u8>)>) -> Option<(Seq<char>, Seq<u8>)> {
    match t {
        Some((mime, data)) => Some((mime@, data@)),
        None => None,
    }
}

impl View for FileProperties {
    type V = PropsView;

    open spec fn view(&self) -> PropsView {
        PropsView {
            name: self.name@,
            is_directory: self.is_directory,
            is_link: self.is_link,
            mime_type: self.mime_type@,
            size: self.size as nat,
            is_hidden: self.is_hidden,
            modified_epoch: self.modified_epoch as int,
            created_epoch: self.created_epoch as int,
            stream_secret: opt(self.stream_secret),
            thumbnail: thumbnail_view(self.thumbnail),
            tree_hash: opt(self.tree_hash),
        }
    }
}

/// An unsigned 64 bit number as the signed one with the same bits.
pub open spec fn as_signed(n: nat) -> int {
    if n > i64::MAX {
        n - 0x1_0000_0000_0000_0000
    } else {
        n as int
    }
}

/// A signed 64 bit number as the unsigned one with the same bits.
pub open spec fn as_unsigned(n: int) -> nat {
    if n < 0 {
        (n + 0x1_0000_0000_0000_0000) as nat
    } else {
        n as nat
    }
}

/// The CBOR of an optional byte string.
pub open spec fn bytes_cbor(b: Option<Seq<u8>>) -> Option<CborValue> {
    match b {
        Some(x) => Some(CborValue::ByteString(x)),
        None => None,
    }
}

/// The CBOR of an optional branch.
pub open spec fn opt_branch_cbor(b: Option<BranchView>) -> Option<CborValue> {
    match b {
        Some(x) => Some(branch_cbor(x)),
        None => None,
    }
}

/// The data of an optional thumbnail.
pub open spec fn thumbnail_data(t: Option<(Seq<char>, Seq<u8>)>) -> Option<CborValue> {
    match t {
        Some(x) => Some(CborValue::ByteString(x.1)),
        None => None,
    }
}

/// The mime type of an optional thumbnail.
pub open spec fn thumbnail_mime(t: Option<(Seq<char>, Seq<u8>)>) -> Option<CborValue> {
    match t {
        Some(x) => Some(CborValue::Str(x.0)),
        None => None,
    }
}

/// The CBOR of properties.
pub open spec fn props_cbor(p: PropsView) -> CborValue {
    let e = map_put(Seq::empty(), "d"@, CborValue::Boolean(p.is_directory));
    let e = map_put(e, "l"@, CborValue::Boolean(p.is_link));
    let e = map_put(e, "n"@, CborValue::Str(p.name));
    let e = map_put(e, "m"@, CborValue::Str(p.mime_type));
    let e = map_put(e, "s"@, CborValue::Long(as_signed(p.size)));
    let e = map_put(e, "t"@, CborValue::Long(p.modified_epoch));
    let e = map_put(e, "tn"@, CborValue::Long(0));
    let e = map_put(e, "c"@, CborValue::Long(p.created_epoch));
    let e = map_put(e, "cn"@, CborValue::Long(0));
    let e = map_put(e, "h"@, CborValue::Boolean(p.is_hidden));
    let e = map_put_opt(e, "th"@, opt_branch_cbor(p.tree_hash));
    let e = map_put_opt(e, "i"@, thumbnail_data(p.thumbnail));
    let e = map_put_opt(e, "im"@, thumbnail_mime(p.thumbnail));
    CborValue::Mapping(map_put_opt(e, "p"@, bytes_cbor(p.stream_secret)))
}

/// The thumbnail that a value describes: always WebP if it does not say.
pub open spec fn thumbnail_from(v: CborValue) -> Option<(Seq<char>, Seq<u8>)> {
    match v.bytes_at("i"@) {
        None => None,
        Some(data) => Some(
            (
                match v.text_at("im"@) {
                    Some(m) => m,
                    None => "image/webp"@,
                },
                data,
            ),
        ),
    }
}

/// The value, or what stands in for it.
pub open spec fn or<T>(o: Option<T>, d: T) -> T {
    match o {
        Some(x) => x,
        None => d,
    }
}

/// The properties that a value describes.
pub open spec fn props_from(v: CborValue) -> core::result::Result<PropsView, Fault> {
    let modified = or(v.long_at("t"@), 0);
    let branch = match v.get("th"@) {
        None => Ok::<Option<BranchView>, Fault>(None),
        Some(x) => match branch_from(x) {
            Ok(b) => Ok(Some(b)),
            Err(f) => Err(f),
        },
    };
    match (v.text_at("n"@), branch) {
        (None, _) => Err(Fault::Cbor("FileProperties missing name"@)),
        (_, Err(f)) => Err(f),
        (Some(name), Ok(tree_hash)) => Ok(
            PropsView {
                name,
                is_directory: v.bool_at("d"@) == Some(true),
                is_link: v.bool_at("l"@) == Some(true),
                mime_type: or(v.text_at("m"@), Seq::empty()),
                size: as_unsigned(or(v.long_at("s"@), 0)),
                is_hidden: v.bool_at("h"@) == Some(true),
                modified_epoch: modified,
                created_epoch: or(v.long_at("c"@), modified),
                stream_secret: v.bytes_at("p"@),
                thumbnail: thumbnail_from(v),
                tree_hash,
            },
        ),
    }
}

/// The flag under `key`, false if there is none.
fn flag_at(cbor: &CborObject, key: &str) -> (r: bool)
    ensures
        r == (cbor@.bool_at(key@) == Some(true)),
{
    match cbor.bool_at(key) {
        Some(b) => b,
        None => false,
    }
}

/// A signed number as the unsigned one with the same bits.
pub fn to_unsigned(n: i64) -> (r: u64)
    ensures
        r == as_unsigned(n as int),
{
    if n < 0 {
        (n as i128 + 0x1_0000_0000_0000_0000) as u64
    } else {
        n as u64
    }
}

/// An unsigned number as the signed one with the same bits.
fn to_signed(n: u64) -> (r: i64)
    ensures
        r == as_signed(n as nat),
{
    if n > i64::MAX as u64 {
        (n as i128 - 0x1_0000_0000_0000_0000) as i64
    } else {
        n as i64
    }
}

/// A copy of an optional byte string.
pub fn dup_bytes(b: &Option<Vec<u8>>) -> (r: Option<Vec<u8>>)
    ensures
        opt(r) == opt(*b),
{
    match b {
        Some(x) => Some(copy_bytes(x)),
        None => None,
    }
}

/// A copy of an optional thumbnail.
pub fn dup_thumbnail(t: &Option<(String, Vec<u8>)>) -> (r: Option<(String, Vec<u8>)>)
    ensures
        thumbnail_view(r) == thumbnail_view(*t),
{
    match t {
        Some((mime, data)) => Some((mime.clone(), copy_bytes(data))),
        None => None,
    }
}

/// A copy of an optional branch.
pub fn dup_branch(b: &Option<HashBranch>) -> (r: Option<HashBranch>)
    ensures
        opt(r) == opt(*b),
{
    match b {
        Some(x) => Some(x.dup()),
        None => None,
    }
}

/// The properties of a new file.
pub open spec fn file_props(
    name: Seq<char>,
    mime_type: Seq<char>,
    size: nat,
    epoch: int,
    stream_secret: Seq<u8>,
    thumbnail: Option<(Seq<char>, Seq<u8>)>,
) -> PropsView {
    PropsView {
        name,
        is_directory: false,
        is_link: false,
        mime_type,
        size,
        is_hidden: false,
        modified_epoch: epoch,
        created_epoch: epoch,
        stream_secret: Some(stream_secret),
        thumbnail,
        tree_hash: None,
    }
}

/// The properties of a new directory.
pub open spec fn directory_props(name: Seq<char>, epoch: int) -> PropsView {
    PropsView {
        name,
        is_directory: true,
        is_link: false,
        mime_type: Seq::empty(),
        size: 0,
        is_hidden: false,
        modified_epoch: epoch,
        created_epoch: epoch,
        stream_secret: None,
        thumbnail: None,
        tree_hash: None,
    }
}

impl FileProperties {
    #[verifier::rlimit(60)]
    pub fn from_cbor(cbor: &CborObject) -> (r: Result<FileProperties>)
        ensures
            agrees(r, props_from(cbor@)),
    {
        let name = match cbor.text_at("n") {
            Some(n) => n,
            None => {
                return Err(cbor_error("FileProperties missing name"));
            },
        };
        let mime_type = match cbor.text_at("m") {
            Some(m) => m,
            None => String::new(),
        };
        let size: u64 = match cbor.long_at("s") {
            Some(n) => to_unsigned(n),
            None => 0,
        };
        let modified_epoch: i64 = match cbor.long_at("t") {
            Some(n) => n,
            None => 0,
        };
        let created_epoch: i64 = match cbor.long_at("c") {
            Some(n) => n,
            None => modified_epoch,
        };
        let thumbnail = match cbor.bytes_at("i") {
            None => None,
            Some(data) => {
                // thumbnails are always WebP
                let mime = match cbor.text_at("im") {
                    Some(m) => m,
                    None => "image/webp".to_owned(),
                };
                Some((mime, data))
            },
        };
        let tree_hash = match cbor.get("th") {
            None => None,
            Some(c) => match HashBranch::from_cbor(c) {
                Ok(b) => Some(b),
                Err(e) => {
                    return Err(e);
                },
            },
        };
        Ok(
            FileProperties {
                name,
                is_directory: flag_at(cbor, "d"),
                is_link: flag_at(cbor, "l"),
                mime_type,
                size,
                is_hidden: flag_at(cbor, "h"),
                modified_epoch,
                created_epoch,
                stream_secret: cbor.bytes_at("p"),
                thumbnail,
                tree_hash,
            },
        )
    }

    /// Build properties for a newly-created file.
    pub fn new_file(
        name: String,
        mime_type: String,
        size: u64,
        epoch: i64,
        stream_secret: Vec<u8>,
        thumbnail: Option<(String, Vec<u8>)>,
    ) -> (r: FileProperties)
        ensures
            r@ == file_props(
                name@,
                mime_type@,
                size as nat,
                epoch as int,
                stream_secret@,
                thumbnail_view(thumbnail),
            ),
    {
        FileProperties {
            name,
            is_directory: false,
            is_link: false,
            mime_type,
            size,
            is_hidden: false,
            modified_epoch: epoch,
            created_epoch: epoch,
            stream_secret: Some(stream_secret),
            thumbnail,
            tree_hash: None,
        }
    }

    /// Placeholder properties for a subsequent directory chunk.
    pub fn empty_subsequent_chunk() -> (r: FileProperties)
        ensures
            r@ == directory_props(".subsequent-dir-chunk"@, 0),
    {
        FileProperties::new_directory(".subsequent-dir-chunk".to_owned(), 0)
    }

    /// Build properties for a newly-created directory.
    pub fn new_directory(name: String, epoch: i64) -> (r: FileProperties)
        ensures
            r@ == directory_props(name@, epoch as int),
    {
        FileProperties {
            name,
            is_directory: true,
            is_link: false,
            mime_type: String::new(),
            size: 0,
            is_hidden: false,
            modified_epoch: epoch,
            created_epoch: epoch,
            stream_secret: None,
            thumbnail: None,
            tree_hash: None,
        }
    }

    #[verifier::rlimit(60)]
    pub fn to_cbor(&self) -> (r: CborObject)
        ensures
            r@ == props_cbor(self@),
    {
        let branch = match &self.tree_hash {
            Some(b) => Some(b.to_cbor()),
            None => None,
        };
        let (data, mime) = match &self.thumbnail {
            Some((m, d)) => (Some(CborObject::ByteString(copy_bytes(d))), Some(CborObject::Str(m.clone()))),
            None => (None, None),
        };
        let secret = match &self.stream_secret {
            Some(s) => Some(CborObject::ByteString(copy_bytes(s))),
            None => None,
        };
        CborObject::map().put("d", CborObject::Boolean(self.is_directory)).put(
            "l",
            CborObject::Boolean(self.is_link),
        ).put("n", CborObject::Str(self.name.clone())).put("m", CborObject::Str(self.mime_type.clone())).put(
            "s",
            CborObject::Long(to_signed(self.size)),
        ).put("t", CborObject::Long(self.modified_epoch)).put("tn", CborObject::Long(0)).put(
            "c",
            CborObject::Long(self.created_epoch),
        ).put("cn", CborObject::Long(0)).put("h", CborObject::Boolean(self.is_hidden)).put_opt("th", branch).put_opt(
            "i",
            data,
        ).put_opt("im", mime).put_opt("p", secret).build()
    }

    /// A copy of these properties.
    pub fn dup(&self) -> (r: FileProperties)
        ensures
            r@ == self@,
    {
        FileProperties {
            name: self.name.clone(),
            is_directory: self.is_directory,
            is_link: self.is_link,
            mime_type: self.mime_type.clone(),
            size: self.size,
            is_hidden: self.is_hidden,
            modified_epoch: self.modified_epoch,
            created_epoch: self.created_epoch,
            stream_secret: dup_bytes(&self.stream_secret),
            thumbnail: dup_thumbnail(&self.thumbnail),
            tree_hash: dup_branch(&self.tree_hash),
        }
    }
}

/// Properties are read back from their CBOR as they were.
#[verifier::rlimit(40)]
pub proof fn law_props_round_trip(p: PropsView)
    requires
        p.size <= u64::MAX,
        p.tree_hash matches Some(b) ==> b.root.len() == HASH_LENGTH,
    ensures
        props_from(props_cbor(p)) == Ok::<PropsView, Fault>(p),
{
    reveal_keys();
    if p.tree_hash is Some {
        law_branch_round_trip(p.tree_hash->Some_0);
    }
}

/// Where properties keep their fields. The size is kept as a signed number of 64 bits.
#[verifier::rlimit(40)]
pub proof fn law_props_fields(p: PropsView)
    ensures
        props_cbor(p).get("d"@) == Some(CborValue::Boolean(p.is_directory)),
        props_cbor(p).get("l"@) == Some(CborValue::Boolean(p.is_link)),
        props_cbor(p).get("n"@) == Some(CborValue::Str(p.name)),
        props_cbor(p).get("m"@) == Some(CborValue::Str(p.mime_type)),
        p.size <= i64::MAX ==> props_cbor(p).get("s"@) == Some(CborValue::Long(p.size as int)),
        props_cbor(p).get("t"@) == Some(CborValue::Long(p.modified_epoch)),
        props_cbor(p).get("c"@) == Some(CborValue::Long(p.created_epoch)),
        props_cbor(p).get("h"@) == Some(CborValue::Boolean(p.is_hidden)),
        p.stream_secret matches Some(s) ==> props_cbor(p).get("p"@) == Some(CborValue::ByteString(s)),
        p.stream_secret is None ==> props_cbor(p).get("p"@) is None,
        p.thumbnail matches Some(t) ==> props_cbor(p).get("i"@) == Some(CborValue::ByteString(t.1))
            && props_cbor(p).get("im"@) == Some(CborValue::Str(t.0)),
        p.thumbnail is None ==> props_cbor(p).get("i"@) is None,
        p.tree_hash is None <==> props_cbor(p).get("th"@) is None,
{
    reveal_keys();
}

/// What properties that leave things out stand for: no flag, no type, no size, the epoch as the
/// time of the last change, that one also as the time of creation, and WebP as the type of a
/// thumbnail.
pub proof fn law_props_defaults(v: CborValue)
    requires
        props_from(v) is Ok,
    ensures
        v.text_at("n"@) == Some(props_from(v)->Ok_0.name),
        v.get("d"@) is None ==> !props_from(v)->Ok_0.is_directory,
        v.get("l"@) is None ==> !props_from(v)->Ok_0.is_link,
        v.get("h"@) is None ==> !props_from(v)->Ok_0.is_hidden,
        v.get("m"@) is None ==> props_from(v)->Ok_0.mime_type.len() == 0,
        v.get("s"@) is None ==> props_from(v)->Ok_0.size == 0,
        v.get("t"@) is None ==> props_from(v)->Ok_0.modified_epoch == 0,
        v.get("c"@) is None ==> props_from(v)->Ok_0.created_epoch == props_from(v)->Ok_0.modified_epoch,
        v.get("i"@) is None ==> props_from(v)->Ok_0.thumbnail is None,
        v.get("im"@) is None && v.bytes_at("i"@) is Some ==> props_from(v)->Ok_0.thumbnail == Some(
            ("image/webp"@, v.bytes_at("i"@)->Some_0),
        ),
        v.get("th"@) is None ==> props_from(v)->Ok_0.tree_hash is None,
{
}

/// A new file was created when it was last modified, is visible, is no directory and no link,
/// and has its own secret; a new directory has no content.
pub proof fn law_new_props(
    name: Seq<char>,
    mime_type: Seq<char>,
    size: nat,
    epoch: int,
    secret: Seq<u8>,
    thumbnail: Option<(Seq<char>, Seq<u8>)>,
)
    ensures
        ({
            let f = file_props(name, mime_type, size, epoch, secret, thumbnail);
            let d = directory_props(name, epoch);
            &&& f.name == name && d.name == name
            &&& !f.is_directory && d.is_directory
            &&& !f.is_link && !d.is_link
            &&& !f.is_hidden && !d.is_hidden
            &&& f.mime_type == mime_type && d.mime_type.len() == 0
            &&& f.size == size && d.size == 0
            &&& f.modified_epoch == epoch && f.created_epoch == epoch
            &&& d.modified_epoch == epoch && d.created_epoch == epoch
            &&& f.stream_secret == Some(secret) && d.stream_secret is None
            &&& f.thumbnail == thumbnail && d.thumbnail is None
            &&& f.tree_hash is None && d.tree_hash is None
        }),
{
}

} // verus!
