//! The links and blocks of new nodes.
use vstd::prelude::*;
use crate::capability::{AbsoluteCapability, CapView, MAP_KEY_LENGTH};
use crate::cbor::{CborObject, CborValue};
use crate::cryptree::node::{BaseView, FromBase, FromParent, ParentView};
use crate::cryptree::properties::{
    directory_props, dup_branch, dup_thumbnail, file_props, thumbnail_view, FileProperties, PropsView,
};
use crate::cryptree::{absolute, dup_cbor, dup_text, NamedRelativeCapability, NamedView, RelCapView, RelativeCapability};
use crate::error::{opt, Fault};
use crate::hashtree::{branch_of, BranchView, HashBranch, HashTree, TreeView};
use crate::opaque::{dup_opt, SymmetricKey};
use crate::text::copy_bytes;

verus! {

/// The link from a child to the directory `parent`: it opens the parent's parent block
/// alone. It names the parent's writer where the child has another one.
pub open spec fn up_link(parent: CapView, parent_key: CborValue, name_writer: bool) -> RelCapView {
    RelCapView {
        writer: if name_writer { Some(parent.writer) } else { None },
        map_key: parent.map_key,
        bat: parent.bat,
        r_base_key: parent_key,
        w_base_key_link: None,
    }
}

/// The link from a child to the directory `parent`.
pub fn parent_link(parent: &AbsoluteCapability, parent_key: &SymmetricKey, name_writer: bool) -> (r: RelativeCapability)
    ensures
        r@ == up_link(parent@, parent_key@, name_writer),
{
    RelativeCapability {
        writer: if name_writer { Some(parent.writer.dup()) } else { None },
        map_key: copy_bytes(&parent.map_key),
        bat: dup_opt(&parent.bat),
        r_base_key: parent_key.dup(),
        w_base_key_link: None,
    }
}

/// The link from a directory to its child `target`: it names the child's writer where
/// that is another one, and carries its write key, sealed for the directory.
pub open spec fn down_link(target: CapView, name_writer: bool, write_link: Option<CborValue>) -> RelCapView {
    RelCapView {
        writer: if name_writer { Some(target.writer) } else { None },
        map_key: target.map_key,
        bat: target.bat,
        r_base_key: target.r_base_key,
        w_base_key_link: write_link,
    }
}

/// The link from a directory to its child `target`.
pub fn child_link(
    name: &str,
    target: &AbsoluteCapability,
    name_writer: bool,
    write_link: Option<CborObject>,
    is_dir: Option<bool>,
    mime_type: &Option<String>,
    created_epoch: i64,
) -> (r: NamedRelativeCapability)
    ensures
        r@ == (NamedView {
            name: name@,
            cap: down_link(target@, name_writer, opt(write_link)),
            is_dir,
            mime_type: opt(*mime_type),
            created_epoch: Some(created_epoch),
        }),
{
    NamedRelativeCapability {
        name: name.to_owned(),
        cap: RelativeCapability {
            writer: if name_writer { Some(target.writer.dup()) } else { None },
            map_key: copy_bytes(&target.map_key),
            bat: dup_opt(&target.bat),
            r_base_key: target.r_base_key.dup(),
            w_base_key_link: write_link,
        },
        is_dir,
        mime_type: dup_text(mime_type),
        created_epoch: Some(created_epoch),
    }
}

/// Whether the link from `parent` to `child` carries a write key: both have to be
/// writable.
pub fn wants_write_link(parent: &AbsoluteCapability, child: &AbsoluteCapability) -> (r: bool)
    ensures
        r == (parent@.is_writable() && child@.is_writable()),
{
    parent.is_writable() && child.is_writable()
}

/// A link leads from the directory back to the child: with write access if both are
/// writable and the link carries the key, and else to read it.
pub proof fn law_child_link_leads_to_child(
    parent: CapView,
    child: CapView,
    name_writer: bool,
    write_link: Option<CborValue>,
    opened: Option<CborValue>,
)
    requires
        child.owner == parent.owner,
        child.map_key.len() == MAP_KEY_LENGTH,
        !name_writer ==> child.writer == parent.writer,
        write_link is Some <==> parent.is_writable() && child.is_writable(),
        write_link is Some ==> opened == child.w_base_key,
    ensures
        absolute(down_link(child, name_writer, write_link), parent, opened) == Ok::<CapView, Fault>(
            if parent.is_writable() {
                child
            } else {
                child.read_only()
            },
        ),
{
}

/// The base block of a new node.
pub fn base_block(key: &SymmetricKey, signer: &Option<CborObject>, next: RelativeCapability) -> (r: FromBase)
    ensures
        r@ == (BaseView { parent_or_data: key@, signer: opt(*signer), next_chunk: next@ }),
{
    FromBase { parent_or_data: key.dup(), signer: dup_cbor(signer), next_chunk: next }
}

/// The parent block of a new directory: a hidden one is not surfaced, and a link node
/// points to a target in another writer's space.
pub fn directory_parent_block(
    to_parent: RelativeCapability,
    name: &str,
    epoch: i64,
    is_hidden: bool,
    is_link: bool,
) -> (r: FromParent)
    ensures
        r@ == (ParentView {
            parent_link: Some(to_parent@),
            properties: (PropsView { is_hidden, is_link, ..directory_props(name@, epoch as int) }),
        }),
{
    let mut props = FileProperties::new_directory(name.to_owned(), epoch);
    props.is_hidden = is_hidden;
    props.is_link = is_link;
    FromParent { parent_link: Some(to_parent), properties: props }
}

/// The parent block of an overflow chunk of a directory.
pub fn overflow_parent_block(parent_link: Option<RelativeCapability>) -> (r: FromParent)
    ensures
        r@ == (ParentView {
            parent_link: opt(parent_link),
            properties: directory_props(".subsequent-dir-chunk"@, 0),
        }),
{
    FromParent { parent_link, properties: FileProperties::empty_subsequent_chunk() }
}

/// What the chunks of a file have in common.
#[derive(Debug, PartialEq, Eq)]
pub struct FilePlan {
    pub to_parent: RelativeCapability,
    pub name: String,
    pub mime_type: String,
    pub size: u64,
    pub created_epoch: i64,
    pub is_hidden: bool,
    pub stream_secret: Vec<u8>,
    pub thumbnail: Option<(String, Vec<u8>)>,
    /// The link to the file's own signing key, if it has its own writer.
    pub writer_link: Option<CborObject>,
}

/// How many chunks share one branch of the hash tree.
pub const BRANCH_CHUNKS: u64 = 1024;

/// The branch that chunk `i` carries: the first chunk of each 1024 has one. Without a
/// tree, only chunk 0 has the one that was recorded for it.
pub open spec fn chunk_branch(tree: Option<TreeView>, recorded: Option<BranchView>, i: nat) -> Option<BranchView> {
    if i % 1024 != 0 {
        None
    } else {
        match tree {
            Some(t) => Some(branch_of(t, i)),
            None => if i == 0 { recorded } else { None },
        }
    }
}

/// The properties on chunk `i` of a file.
pub open spec fn chunk_props(p: FilePlan, tree: Option<TreeView>, recorded: Option<BranchView>, i: nat) -> PropsView {
    PropsView {
        is_hidden: p.is_hidden,
        tree_hash: chunk_branch(tree, recorded, i),
        ..file_props(
            p.name@,
            p.mime_type@,
            p.size as nat,
            p.created_epoch as int,
            p.stream_secret@,
            if i == 0 { thumbnail_view(p.thumbnail) } else { None },
        )
    }
}

impl FilePlan {
    /// The parent block of chunk `i`: the thumbnail goes on chunk 0, and a hash-tree
    /// branch on the first chunk of each 1024.
    pub fn parent_block(&self, tree: Option<&HashTree>, recorded: &Option<HashBranch>, i: u64) -> (r: FromParent)
        ensures
            r@ == (ParentView {
                parent_link: Some(self.to_parent@),
                properties: chunk_props(
                    *self,
                    match tree {
                        Some(t) => Some(t@),
                        None => None,
                    },
                    opt(*recorded),
                    i as nat,
                ),
            }),
    {
        let thumbnail = if i == 0 { dup_thumbnail(&self.thumbnail) } else { None };
        let mut props = FileProperties::new_file(
            self.name.clone(),
            self.mime_type.clone(),
            self.size,
            self.created_epoch,
            copy_bytes(&self.stream_secret),
            thumbnail,
        );
        props.is_hidden = self.is_hidden;
        if i % BRANCH_CHUNKS == 0 {
            props.tree_hash = match tree {
                Some(t) => Some(t.branch(i)),
                None => if i == 0 { dup_branch(recorded) } else { None },
            };
        }
        FromParent { parent_link: Some(self.to_parent.dup()), properties: props }
    }

    /// The base block of chunk `i`: the writer link, if any, goes on chunk 0.
    pub fn base_block(&self, data_key: &SymmetricKey, next: RelativeCapability, i: u64) -> (r: FromBase)
        ensures
            r@ == (BaseView {
                parent_or_data: data_key@,
                signer: if i == 0 { opt(self.writer_link) } else { None },
                next_chunk: next@,
            }),
    {
        let signer = if i == 0 { dup_cbor(&self.writer_link) } else { None };
        FromBase { parent_or_data: data_key.dup(), signer, next_chunk: next }
    }
}

/// The link up leads from a child to its directory: with the directory's parent key in place of its
/// read key, and never with write access.
pub proof fn law_up_link_leads_to_parent(
    child: CapView,
    parent: CapView,
    parent_key: CborValue,
    name_writer: bool,
    opened: Option<CborValue>,
)
    requires
        child.owner == parent.owner,
        parent.map_key.len() == MAP_KEY_LENGTH,
        !name_writer ==> child.writer == parent.writer,
    ensures
        absolute(up_link(parent, parent_key, name_writer), child, opened) == Ok::<CapView, Fault>(
            CapView { r_base_key: parent_key, w_base_key: None, ..parent },
        ),
        up_link(parent, parent_key, name_writer).writer is Some <==> name_writer,
        up_link(parent, parent_key, name_writer).w_base_key_link is None,
{
}

/// Which chunks carry a branch of the hash tree: with a tree the first of each 1024, with that
/// part of the tree, and without one only chunk 0, with the branch that was recorded.
pub proof fn law_which_chunks_carry_a_branch(t: TreeView, recorded: Option<BranchView>, i: nat)
    ensures
        chunk_branch(Some(t), recorded, i * 1024) == Some(branch_of(t, i * 1024)),
        i % 1024 != 0 ==> chunk_branch(Some(t), recorded, i) is None,
        chunk_branch(None, recorded, 0) == recorded,
        i > 0 ==> chunk_branch(None, recorded, i) is None,
{
    assert((i * 1024) % 1024 == 0);
}

/// What a chunk of a file says of the file: each chunk its name, type, size, time, secret and
/// whether it is hidden, and the first one alone its thumbnail.
pub proof fn law_chunk_properties(p: FilePlan, tree: Option<TreeView>, recorded: Option<BranchView>, i: nat)
    ensures
        ({
            let v = chunk_props(p, tree, recorded, i);
            &&& v.name == p.name@
            &&& v.mime_type == p.mime_type@
            &&& v.size == p.size
            &&& v.created_epoch == p.created_epoch
            &&& v.modified_epoch == p.created_epoch
            &&& v.stream_secret == Some(p.stream_secret@)
            &&& v.is_hidden == p.is_hidden
            &&& !v.is_directory
            &&& !v.is_link
            &&& v.tree_hash == chunk_branch(tree, recorded, i)
            &&& i == 0 ==> v.thumbnail == thumbnail_view(p.thumbnail)
            &&& i > 0 ==> v.thumbnail is None
        }),
{
}

} // verus!
