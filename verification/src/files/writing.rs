//! Writing new files and directories: what goes into each node, and where.
use vstd::prelude::*;
use crate::capability::{checked_cap, AbsoluteCapability, CapView, MAP_KEY_LENGTH};
use crate::cbor::{CborObject, CborValue};
use crate::cryptree::node::{BaseView, FromBase, FromParent, ParentView};
use crate::cryptree::properties::{directory_props, FileProperties, PropsView};
use crate::cryptree::{absolute, dup_text, NamedRelativeCapability, NamedView, RelCapView, RelativeCapability};
use crate::error::{error_is, fails_protocol, opt, protocol, Fault, Result};
use crate::files::blocks::{
    base_block, child_link, chunk_props, directory_parent_block, down_link, parent_link, up_link, FilePlan,
};
use crate::files::chunks::{
    chunk_at, chunk_count, chunk_end, chunk_len, chunk_start, chunks_of, handed_on, law_chunk_bounds, law_section_read,
    section_read, Section,
    CHUNK_MAX_SIZE,
};
use crate::files::directory::DirEntry;
use crate::hashtree::{BranchView, HashBranch, HashTree, TreeView};
use crate::hashtree::least;
use crate::opaque::{dup_opt, Bat, PublicKeyHash, SymmetricKey};
use crate::text::copy_bytes;

verus! {

/// Where a node is: its map key and its BAT.
pub type Place = (Seq<u8>, Option<CborValue>);

/// The node of one chunk of a file, before it is encrypted.
#[derive(Debug, PartialEq, Eq)]
pub struct ChunkNode {
    pub map_key: Vec<u8>,
    pub bat: Option<Bat>,
    pub base: FromBase,
    pub parent: FromParent,
}

/// The content of a [`ChunkNode`].
pub ghost struct ChunkNodeView {
    pub place: Place,
    pub base: BaseView,
    pub parent: ParentView,
}

impl View for ChunkNode {
    type V = ChunkNodeView;

    open spec fn view(&self) -> ChunkNodeView {
        ChunkNodeView { place: (self.map_key@, opt(self.bat)), base: self.base@, parent: self.parent@ }
    }
}

/// The link to the chunk at this place.
pub open spec fn next_link(next: Place, r_base_key: CborValue) -> RelCapView {
    RelCapView { writer: None, map_key: next.0, bat: next.1, r_base_key, w_base_key_link: None }
}

/// An upload of a file under way, chunk after chunk. The chunks form a chain: the place of
/// each follows from the one before it, and each links to the next.
#[derive(Debug, PartialEq, Eq)]
pub struct ChunkUpload {
    pub plan: FilePlan,
    pub r_base_key: SymmetricKey,
    pub data_key: SymmetricKey,
    /// How many chunks the file has, and how many of them are behind.
    pub chunks: u64,
    pub done: u64,
    /// Where the next chunk goes.
    pub map_key: Vec<u8>,
    pub bat: Option<Bat>,
}

/// The node of chunk `i` of a file, at its place in the chain.
pub open spec fn chunk_node(
    u: ChunkUpload,
    tree: Option<TreeView>,
    recorded: Option<BranchView>,
    i: nat,
    place: Place,
    next: Place,
) -> ChunkNodeView {
    ChunkNodeView {
        place,
        base: BaseView {
            parent_or_data: u.data_key@,
            signer: if i == 0 { opt(u.plan.writer_link) } else { None },
            next_chunk: next_link(next, u.r_base_key@),
        },
        parent: ParentView {
            parent_link: Some(u.plan.to_parent@),
            properties: chunk_props(u.plan, tree, recorded, i),
        },
    }
}

impl ChunkUpload {
    /// No more chunks are done than there are.
    pub open spec fn wf(self) -> bool {
        self.done <= self.chunks && self.chunks == chunks_of(self.plan.size as nat)
    }

    /// Where the next chunk goes.
    pub open spec fn place(self) -> Place {
        (self.map_key@, opt(self.bat))
    }

    /// The upload, which stands at chunk `done` with its place.
    pub open spec fn moved_on(self, before: ChunkUpload, next: Place) -> bool {
        &&& self.plan == before.plan
        &&& self.r_base_key == before.r_base_key
        &&& self.data_key == before.data_key
        &&& self.chunks == before.chunks
        &&& self.done == before.done + 1
        &&& self.place() == next
    }

    /// The upload of a file whose first chunk goes to this place.
    pub fn start(plan: FilePlan, r_base_key: SymmetricKey, data_key: SymmetricKey, map_key: Vec<u8>, bat: Option<Bat>) -> (r:
        ChunkUpload)
        ensures
            r.wf(),
            r.plan == plan,
            r.r_base_key == r_base_key,
            r.data_key == data_key,
            r.done == 0,
            r.place() == (map_key@, opt(bat)),
    {
        let chunks = chunk_count(plan.size);
        ChunkUpload { plan, r_base_key, data_key, chunks, done: 0, map_key, bat }
    }

    /// The part of the file that the next chunk holds: where it starts, and its length.
    pub fn to_read(&self) -> (r: Option<(u64, u64)>)
        requires
            self.wf(),
        ensures
            self.done == self.chunks ==> r is None,
            self.done < self.chunks ==> r is Some && r->Some_0.0 == chunk_start(self.done as int) && r->Some_0.0
                + r->Some_0.1 == chunk_end(self.plan.size as nat, self.done as int),
    {
        if self.done == self.chunks {
            return None;
        }
        let n = chunk_count(self.plan.size);
        proof {
            assert(self.done * CHUNK_MAX_SIZE <= (n - 1) * CHUNK_MAX_SIZE) by (nonlinear_arith)
                requires
                    self.done <= n - 1,
            ;
        }
        Some((self.done * CHUNK_MAX_SIZE, chunk_len(self.plan.size, self.done)))
    }

    /// Passes over a chunk that is there already, to the place of the next.
    pub fn skip(&mut self, next_map_key: Vec<u8>, next_bat: Option<Bat>)
        requires
            old(self).wf(),
            old(self).done < old(self).chunks,
        ensures
            final(self).wf(),
            final(self).moved_on(*old(self), (next_map_key@, opt(next_bat))),
    {
        self.map_key = next_map_key;
        self.bat = next_bat;
        self.done = self.done + 1;
    }

    /// The node of the next chunk, given the place of the one after it.
    pub fn write(&mut self, next_map_key: Vec<u8>, next_bat: Option<Bat>, tree: Option<&HashTree>, recorded: &Option<
        HashBranch,
    >) -> (r: ChunkNode)
        requires
            old(self).wf(),
            old(self).done < old(self).chunks,
        ensures
            final(self).wf(),
            final(self).moved_on(*old(self), (next_map_key@, opt(next_bat))),
            r@ == chunk_node(
                *old(self),
                match tree {
                    Some(t) => Some(t@),
                    None => None,
                },
                opt(*recorded),
                old(self).done as nat,
                old(self).place(),
                (next_map_key@, opt(next_bat)),
            ),
    {
        let next = RelativeCapability::subsequent_chunk(copy_bytes(&next_map_key), dup_opt(&next_bat), self.r_base_key.dup());
        let base = self.plan.base_block(&self.data_key, next, self.done);
        let parent = self.plan.parent_block(tree, recorded, self.done);
        let node = ChunkNode { map_key: copy_bytes(&self.map_key), bat: dup_opt(&self.bat), base, parent };
        self.skip(next_map_key, next_bat);
        node
    }
}

/// The chunks of a file are chained: each leads to the place of the one after it, and all
/// of them back to the directory.
pub proof fn law_chunks_are_chained(
    u: ChunkUpload,
    tree: Option<TreeView>,
    recorded: Option<BranchView>,
    places: Seq<Place>,
    i: nat,
)
    requires
        i + 2 < places.len(),
    ensures
        ({
            let a = chunk_node(u, tree, recorded, i, places[i as int], places[i as int + 1]);
            let b = chunk_node(u, tree, recorded, i + 1, places[i as int + 1], places[i as int + 2]);
            &&& (a.base.next_chunk.map_key, a.base.next_chunk.bat) == b.place
            &&& a.base.next_chunk.r_base_key == u.r_base_key@
            &&& a.parent.parent_link == b.parent.parent_link
            &&& a.base.parent_or_data == b.base.parent_or_data
        }),
{
}

/// A chunk of a file as it is stored: its node, and the data that its fragments open to.
pub ghost struct StoredChunk {
    pub node: ChunkNodeView,
    pub data: Seq<u8>,
}

/// What stands in a writer's tree, by map key.
pub type ChunkTree = Map<Seq<u8>, StoredChunk>;

/// The chunk that an upload stores as its number `i`. The last chunk may be padded.
pub open spec fn uploaded_chunk(
    u: ChunkUpload,
    tree: Option<TreeView>,
    recorded: Option<BranchView>,
    content: Seq<u8>,
    padding: Seq<u8>,
    places: Seq<Place>,
    i: int,
) -> StoredChunk {
    StoredChunk {
        node: chunk_node(u, tree, recorded, i as nat, places[i], places[i + 1]),
        data: chunk_at(content, i) + if i + 1 == chunks_of(content.len()) { padding } else { Seq::empty() },
    }
}

/// What stands in a tree once an upload has put its first `n` chunks into it: at each place the
/// node of that chunk, with the part of the content that it holds. An upload that can be resumed
/// puts each chunk in place of what is there.
pub open spec fn put_chunks(
    before: ChunkTree,
    u: ChunkUpload,
    tree: Option<TreeView>,
    recorded: Option<BranchView>,
    content: Seq<u8>,
    padding: Seq<u8>,
    places: Seq<Place>,
    n: nat,
) -> ChunkTree
    decreases n,
{
    if n == 0 {
        before
    } else {
        put_chunks(before, u, tree, recorded, content, padding, places, (n - 1) as nat).insert(
            places[n - 1].0,
            uploaded_chunk(u, tree, recorded, content, padding, places, n - 1),
        )
    }
}

/// What stands in a tree once an upload that is committed as a whole has put its first `n` chunks
/// into it. It puts a chunk where nothing stands: the upload fails at a place that is taken.
pub open spec fn uploaded(
    before: ChunkTree,
    u: ChunkUpload,
    tree: Option<TreeView>,
    recorded: Option<BranchView>,
    content: Seq<u8>,
    padding: Seq<u8>,
    places: Seq<Place>,
    n: nat,
) -> Option<ChunkTree>
    decreases n,
{
    if n == 0 {
        Some(before)
    } else {
        match uploaded(before, u, tree, recorded, content, padding, places, (n - 1) as nat) {
            None => None,
            Some(m) => if m.contains_key(places[n - 1].0) {
                None
            } else {
                Some(m.insert(places[n - 1].0, uploaded_chunk(u, tree, recorded, content, padding, places, n - 1)))
            },
        }
    }
}

/// Where the chunk after this one is.
pub open spec fn next_key(c: StoredChunk) -> Seq<u8> {
    c.node.base.next_chunk.map_key
}

/// What reading a file of `size` bytes gives, on from the chunk at `key` and with `before`
/// handed on already, if every chunk is there.
pub open spec fn read_on(store: ChunkTree, key: Seq<u8>, size: nat, before: Seq<u8>, left: nat) -> Option<Seq<u8>>
    decreases left,
{
    if !store.contains_key(key) {
        None
    } else {
        let got = before + handed_on(store[key].data, size, before.len());
        if got.len() >= size {
            Some(got)
        } else if left == 0 {
            None
        } else {
            read_on(store, next_key(store[key]), size, got, (left - 1) as nat)
        }
    }
}

/// The map key of chunk `i` of the file whose first chunk is at `key`.
pub open spec fn key_of(store: ChunkTree, key: Seq<u8>, i: nat) -> Seq<u8>
    decreases i,
{
    if i == 0 {
        key
    } else {
        next_key(store[key_of(store, key, (i - 1) as nat)])
    }
}

/// What the chunks from the first one of a section up to `n` give of it, each from its place
/// along the chain.
pub open spec fn section_from(store: ChunkTree, key: Seq<u8>, s: Section, n: int) -> Seq<u8>
    decreases n - s.start_chunk,
{
    if n <= s.start_chunk {
        Seq::empty()
    } else {
        let c = store[key_of(store, key, (n - 1) as nat)].data;
        section_from(store, key, s, n - 1) + c.subrange(s.overlap(n - 1, c.len()).0, s.overlap(n - 1, c.len()).1)
    }
}

proof fn lemma_put(
    before: ChunkTree,
    u: ChunkUpload,
    tree: Option<TreeView>,
    recorded: Option<BranchView>,
    content: Seq<u8>,
    padding: Seq<u8>,
    places: Seq<Place>,
    n: nat,
    i: int,
)
    requires
        0 <= i < n,
        differ(places, n),
    ensures
        ({
            let m = put_chunks(before, u, tree, recorded, content, padding, places, n);
            &&& m.contains_key(places[i].0)
            &&& m[places[i].0] == uploaded_chunk(u, tree, recorded, content, padding, places, i)
        }),
    decreases n,
{
    if i < n - 1 {
        lemma_put(before, u, tree, recorded, content, padding, places, (n - 1) as nat, i);
        assert(places[i].0 != places[n - 1].0);
    }
}

/// What stood in the tree before.
proof fn lemma_kept(
    before: ChunkTree,
    u: ChunkUpload,
    tree: Option<TreeView>,
    recorded: Option<BranchView>,
    content: Seq<u8>,
    padding: Seq<u8>,
    places: Seq<Place>,
    n: nat,
)
    ensures
        match uploaded(before, u, tree, recorded, content, padding, places, n) {
            None => !are_free(before, places, n),
            Some(m) => m == put_chunks(before, u, tree, recorded, content, padding, places, n) && are_free(
                before,
                places,
                n,
            ) && before.submap_of(m) && forall|k: Seq<u8>| #[trigger]
                m.contains_key(k) ==> before.contains_key(k) || is_among(places, n, k),
        },
    decreases n,
{
    if n > 0 {
        lemma_kept(before, u, tree, recorded, content, padding, places, (n - 1) as nat);
        match uploaded(before, u, tree, recorded, content, padding, places, (n - 1) as nat) {
            None => {},
            Some(m) => {
                let k = places[n - 1].0;
                if m.contains_key(k) {
                    if are_free(before, places, n) {
                        assert(!before.contains_key(places[n - 1].0));
                        let j = choose|j: int| 0 <= j < n - 1 && (#[trigger] places[j]).0 == k;
                        assert(places[j].0 != places[n - 1].0);
                    }
                } else {
                    let after = m.insert(k, uploaded_chunk(u, tree, recorded, content, padding, places, n - 1));
                    assert forall|i: int| 0 <= i < n implies !before.contains_key((#[trigger] places[i]).0) by {
                        if i == n - 1 {
                            assert(before.contains_key(k) ==> m.contains_key(k));
                        }
                    }
                    assert forall|i: int, j: int| 0 <= i < j < n implies (#[trigger] places[i]).0 != (#[trigger] places[j]).0 by {
                        if j == n - 1 {
                            lemma_put(before, u, tree, recorded, content, padding, places, (n - 1) as nat, i);
                        }
                    }
                    assert forall|x: Seq<u8>| #[trigger] after.contains_key(x) implies before.contains_key(x) || is_among(
                        places,
                        n,
                        x,
                    ) by {
                        if x == k {
                            assert(places[n - 1].0 == x);
                        } else {
                            assert(m.contains_key(x));
                        }
                    }
                    assert(before.submap_of(after));
                }
            },
        }
    }
}

/// One of the first `n` places has this map key.
pub open spec fn is_among(places: Seq<Place>, n: nat, key: Seq<u8>) -> bool {
    exists|i: int| 0 <= i < n && (#[trigger] places[i]).0 == key
}

/// No two of the first `n` places are the same.
pub open spec fn differ(places: Seq<Place>, n: nat) -> bool {
    forall|i: int, j: int| 0 <= i < j < n ==> (#[trigger] places[i]).0 != (#[trigger] places[j]).0
}

/// The first `n` places are free in a tree, and no two of them are the same.
pub open spec fn are_free(before: ChunkTree, places: Seq<Place>, n: nat) -> bool {
    &&& forall|i: int| 0 <= i < n ==> !before.contains_key((#[trigger] places[i]).0)
    &&& differ(places, n)
}

/// An upload puts all its chunks if and only if their places are free and differ, and it
/// leaves everything that stood in the tree as it was.
pub proof fn law_upload_keeps_the_rest(
    before: ChunkTree,
    u: ChunkUpload,
    tree: Option<TreeView>,
    recorded: Option<BranchView>,
    content: Seq<u8>,
    padding: Seq<u8>,
    places: Seq<Place>,
)
    ensures
        ({
            let n = chunks_of(content.len());
            let after = uploaded(before, u, tree, recorded, content, padding, places, n);
            &&& after is Some <==> are_free(before, places, n)
            &&& after is Some ==> before.submap_of(after->Some_0)
        }),
{
    lemma_kept(before, u, tree, recorded, content, padding, places, chunks_of(content.len()));
}

proof fn lemma_key_of(
    before: ChunkTree,
    u: ChunkUpload,
    tree: Option<TreeView>,
    recorded: Option<BranchView>,
    content: Seq<u8>,
    padding: Seq<u8>,
    places: Seq<Place>,
    i: nat,
)
    requires
        differ(places, chunks_of(content.len())),
        i < chunks_of(content.len()),
    ensures
        key_of(
            put_chunks(before, u, tree, recorded, content, padding, places, chunks_of(content.len())),
            places[0].0,
            i,
        ) == places[i as int].0,
    decreases i,
{
    if i > 0 {
        lemma_key_of(before, u, tree, recorded, content, padding, places, (i - 1) as nat);
        lemma_put(before, u, tree, recorded, content, padding, places, chunks_of(content.len()), i - 1);
    }
}

proof fn lemma_read_on(
    before: ChunkTree,
    u: ChunkUpload,
    tree: Option<TreeView>,
    recorded: Option<BranchView>,
    content: Seq<u8>,
    padding: Seq<u8>,
    places: Seq<Place>,
    i: nat,
)
    requires
        differ(places, chunks_of(content.len())),
        i < chunks_of(content.len()),
    ensures
        ({
            let n = chunks_of(content.len());
            read_on(
                put_chunks(before, u, tree, recorded, content, padding, places, n),
                places[i as int].0,
                content.len(),
                content.take(chunk_start(i as int)),
                (n - 1 - i) as nat,
            ) == Some(content)
        }),
    decreases chunks_of(content.len()) - i,
{
    let n = chunks_of(content.len());
    let size = content.len();
    let m = put_chunks(before, u, tree, recorded, content, padding, places, n);
    let read = content.take(chunk_start(i as int));
    let c = chunk_at(content, i as int);
    lemma_put(before, u, tree, recorded, content, padding, places, n, i as int);
    let data = m[places[i as int].0].data;
    let got = read + handed_on(data, size, read.len());
    assert(0 <= chunk_start(i as int) <= chunk_end(size, i as int) <= size);
    assert(read.len() == chunk_start(i as int));
    if i == n - 1 {
        assert(chunk_end(size, i as int) == size);
        if read.len() >= size {
            assert(got =~= content);
        } else {
            assert(handed_on(data, size, read.len()) =~= c);
            assert(got =~= content);
        }
    } else {
        assert((i + 1) * CHUNK_MAX_SIZE < size);
        assert(handed_on(data, size, read.len()) =~= c);
        assert(got =~= content.take(chunk_start(i as int + 1)));
        lemma_read_on(before, u, tree, recorded, content, padding, places, i + 1);
        assert(next_key(m[places[i as int].0]) == places[i as int + 1].0);
    }
}

/// A file that was uploaded reads back as its content, under its name and with its size:
/// whatever the content is, and whatever stood in the tree before, the chunks that the upload
/// put, found along the chain of their places from the first one on and padded or not, give
/// the content again.
pub proof fn law_upload_reads_back(
    before: ChunkTree,
    u: ChunkUpload,
    tree: Option<TreeView>,
    recorded: Option<BranchView>,
    content: Seq<u8>,
    padding: Seq<u8>,
    places: Seq<Place>,
)
    requires
        u.plan.size == content.len(),
    ensures
        match uploaded(before, u, tree, recorded, content, padding, places, chunks_of(content.len())) {
            None => true,
            Some(store) => reads_back(store, places[0].0, content, u.plan.name@),
        },
{
    lemma_kept(before, u, tree, recorded, content, padding, places, chunks_of(content.len()));
    if uploaded(before, u, tree, recorded, content, padding, places, chunks_of(content.len())) is Some {
        law_resumable_upload_reads_back(before, u, tree, recorded, content, padding, places);
    }
}

/// A file whose first chunk is at `key` has this name and size, and reads as this content.
pub open spec fn reads_back(store: ChunkTree, key: Seq<u8>, content: Seq<u8>, name: Seq<char>) -> bool {
    let first = store[key].node.parent.properties;
    &&& read_on(store, key, first.size, Seq::empty(), (chunks_of(content.len()) - 1) as nat) == Some(content)
    &&& first.size == content.len()
    &&& first.name == name
}

/// A file that was uploaded chunk by chunk, each in place of what was there, reads back as its
/// content too, wherever its places differ: no chunk is then put over another one of the file.
pub proof fn law_resumable_upload_reads_back(
    before: ChunkTree,
    u: ChunkUpload,
    tree: Option<TreeView>,
    recorded: Option<BranchView>,
    content: Seq<u8>,
    padding: Seq<u8>,
    places: Seq<Place>,
)
    requires
        u.plan.size == content.len(),
        differ(places, chunks_of(content.len())),
    ensures
        reads_back(
            put_chunks(before, u, tree, recorded, content, padding, places, chunks_of(content.len())),
            places[0].0,
            content,
            u.plan.name@,
        ),
{
    lemma_put(before, u, tree, recorded, content, padding, places, chunks_of(content.len()), 0);
    lemma_read_on(before, u, tree, recorded, content, padding, places, 0);
    assert(content.take(0) =~= Seq::empty());
}

proof fn lemma_section_from(
    before: ChunkTree,
    u: ChunkUpload,
    tree: Option<TreeView>,
    recorded: Option<BranchView>,
    content: Seq<u8>,
    padding: Seq<u8>,
    places: Seq<Place>,
    s: Section,
    n: int,
)
    requires
        differ(places, chunks_of(content.len())),
        s.wf(),
        s.end <= content.len(),
        s.start_chunk <= n <= s.end_chunk + 1,
    ensures
        section_from(
            put_chunks(before, u, tree, recorded, content, padding, places, chunks_of(content.len())),
            places[0].0,
            s,
            n,
        ) == section_read(s, content, n),
    decreases n,
{
    let size = content.len();
    let m = put_chunks(before, u, tree, recorded, content, padding, places, chunks_of(size));
    if n > s.start_chunk {
        let i = n - 1;
        lemma_section_from(before, u, tree, recorded, content, padding, places, s, i);
        lemma_key_of(before, u, tree, recorded, content, padding, places, i as nat);
        lemma_put(before, u, tree, recorded, content, padding, places, chunks_of(size), i);
        let c = chunk_at(content, i);
        let d = m[places[i].0].data;
        assert(chunk_start(i) <= s.end - 1);
        assert(c.len() == chunk_end(size, i) - chunk_start(i));
        assert(s.end - chunk_start(i) <= c.len() || i + 1 < chunks_of(size));
        assert(s.overlap(i, d.len()) == s.overlap(i, c.len()));
        let (from, to) = s.overlap(i, c.len());
        assert(d.subrange(from, to) =~= c.subrange(from, to));
    }
}

/// A section of a file that was uploaded reads back as that part of its content, from the
/// chunks that it overlaps, each found along the chain.
pub proof fn law_uploaded_section_reads_back(
    before: ChunkTree,
    u: ChunkUpload,
    tree: Option<TreeView>,
    recorded: Option<BranchView>,
    content: Seq<u8>,
    padding: Seq<u8>,
    places: Seq<Place>,
    s: Section,
)
    requires
        u.plan.size == content.len(),
        s.wf(),
        s.end <= content.len(),
    ensures
        match uploaded(before, u, tree, recorded, content, padding, places, chunks_of(content.len())) {
            None => true,
            Some(store) => section_from(store, places[0].0, s, s.end_chunk + 1) == content.subrange(
                s.offset as int,
                s.end as int,
            ),
        },
{
    lemma_kept(before, u, tree, recorded, content, padding, places, chunks_of(content.len()));
    if uploaded(before, u, tree, recorded, content, padding, places, chunks_of(content.len())) is Some {
        law_resumable_section_reads_back(before, u, tree, recorded, content, padding, places, s);
    }
}

/// A section reads back as well of a file that was uploaded chunk by chunk.
pub proof fn law_resumable_section_reads_back(
    before: ChunkTree,
    u: ChunkUpload,
    tree: Option<TreeView>,
    recorded: Option<BranchView>,
    content: Seq<u8>,
    padding: Seq<u8>,
    places: Seq<Place>,
    s: Section,
)
    requires
        u.plan.size == content.len(),
        differ(places, chunks_of(content.len())),
        s.wf(),
        s.end <= content.len(),
    ensures
        section_from(
            put_chunks(before, u, tree, recorded, content, padding, places, chunks_of(content.len())),
            places[0].0,
            s,
            s.end_chunk + 1,
        ) == content.subrange(s.offset as int, s.end as int),
{
    lemma_section_from(before, u, tree, recorded, content, padding, places, s, s.end_chunk + 1);
    law_section_read(s, content);
}

/// The keys and places of a new node, all of them random.
#[derive(Debug, PartialEq, Eq)]
pub struct NewKeys {
    pub r_base_key: SymmetricKey,
    /// The key of the parent block, or of a file's data.
    pub inner_key: SymmetricKey,
    pub w_base_key: SymmetricKey,
    pub map_key: Vec<u8>,
    pub bat: Bat,
    /// Where the chunk after it is.
    pub next_map_key: Vec<u8>,
    pub next_bat: Option<Bat>,
}

/// The content of [`NewKeys`].
pub ghost struct KeysView {
    pub r_base_key: CborValue,
    pub inner_key: CborValue,
    pub w_base_key: CborValue,
    pub map_key: Seq<u8>,
    pub bat: CborValue,
    pub next: Place,
}

impl View for NewKeys {
    type V = KeysView;

    open spec fn view(&self) -> KeysView {
        KeysView {
            r_base_key: self.r_base_key@,
            inner_key: self.inner_key@,
            w_base_key: self.w_base_key@,
            map_key: self.map_key@,
            bat: self.bat@,
            next: (self.next_map_key@, opt(self.next_bat)),
        }
    }
}

/// The capability of a new node.
pub open spec fn new_cap(owner: CborValue, writer: CborValue, k: KeysView) -> CapView {
    CapView {
        owner,
        writer,
        map_key: k.map_key,
        bat: Some(k.bat),
        r_base_key: k.r_base_key,
        w_base_key: Some(k.w_base_key),
    }
}

impl NewKeys {
    /// The capability of the node with these keys.
    pub fn capability(&self, owner: &PublicKeyHash, writer: &PublicKeyHash) -> (r: Result<AbsoluteCapability>)
        ensures
            crate::error::agrees(r, checked_cap(new_cap(owner@, writer@, self@))),
    {
        AbsoluteCapability::new(
            owner.dup(),
            writer.dup(),
            copy_bytes(&self.map_key),
            Some(self.bat.dup()),
            self.r_base_key.dup(),
            Some(self.w_base_key.dup()),
        )
    }

    /// The base block of a directory with these keys: a signer is linked if it has its own
    /// writer.
    pub fn base(&self, signer: &Option<CborObject>) -> (r: FromBase)
        ensures
            r@ == (BaseView {
                parent_or_data: self@.inner_key,
                signer: opt(*signer),
                next_chunk: next_link(self@.next, self@.r_base_key),
            }),
    {
        let next = RelativeCapability::subsequent_chunk(
            copy_bytes(&self.next_map_key),
            dup_opt(&self.next_bat),
            self.r_base_key.dup(),
        );
        base_block(&self.inner_key, signer, next)
    }
}

/// Whether a key can be the inner key of a node: it differs from the key of its base block,
/// so that who may read the one cannot read the other.
pub fn is_inner_key(key: &SymmetricKey, r_base_key: &SymmetricKey) -> (r: bool)
    ensures
        r == (key@ != r_base_key@),
{
    !key.same(r_base_key)
}

/// A new directory: its capability, the two blocks of its node, and the link to it.
#[derive(Debug, PartialEq, Eq)]
pub struct NewDirectory {
    pub cap: AbsoluteCapability,
    pub base: FromBase,
    pub parent: FromParent,
    pub link: NamedRelativeCapability,
}

/// The link to a child that shares the writer of its directory.
pub open spec fn plain_link(
    name: Seq<char>,
    target: CapView,
    write_link: Option<CborValue>,
    is_dir: Option<bool>,
    mime_type: Option<Seq<char>>,
    created_epoch: i64,
) -> NamedView {
    NamedView {
        name,
        cap: down_link(target, false, write_link),
        is_dir,
        mime_type,
        created_epoch: Some(created_epoch),
    }
}

/// `d` is the new directory `name` in the directory `dir`, whose parent key is `dir_key`.
pub open spec fn is_new_directory(
    d: NewDirectory,
    dir: CapView,
    dir_key: CborValue,
    name: Seq<char>,
    hidden: bool,
    epoch: i64,
    k: KeysView,
    write_link: Option<CborValue>,
) -> bool {
    let cap = new_cap(dir.owner, dir.writer, k);
    &&& d.cap@ == cap
    &&& d.base@ == (BaseView { parent_or_data: k.inner_key, signer: None, next_chunk: next_link(k.next, k.r_base_key) })
    &&& d.parent@ == (ParentView {
        parent_link: Some(up_link(dir, dir_key, false)),
        properties: (PropsView { is_hidden: hidden, is_link: false, ..directory_props(name, epoch as int) }),
    })
    &&& d.link@ == plain_link(name, cap, write_link, Some(true), None, epoch)
}

/// A new subdirectory, which shares the writer of its directory. `write_link` is its write
/// key, sealed for the directory if that is writable, so that the subdirectory stays
/// writable through it.
pub fn create_directory(
    dir: &AbsoluteCapability,
    dir_key: &SymmetricKey,
    name: &str,
    hidden: bool,
    epoch: i64,
    keys: &NewKeys,
    write_link: Option<CborObject>,
) -> (r: Result<NewDirectory>)
    ensures
        match checked_cap(new_cap(dir@.owner, dir@.writer, keys@)) {
            Err(f) => r is Err && error_is(r->Err_0, f),
            Ok(c) => r is Ok && is_new_directory(
                r->Ok_0,
                dir@,
                dir_key@,
                name@,
                hidden,
                epoch,
                keys@,
                opt(write_link),
            ),
        },
{
    match keys.capability(&dir.owner, &dir.writer) {
        Err(e) => Err(e),
        Ok(cap) => {
            let base = keys.base(&None);
            let parent = directory_parent_block(parent_link(dir, dir_key, false), name, epoch, hidden, false);
            let link = child_link(name, &cap, false, write_link, Some(true), &None, epoch);
            Ok(NewDirectory { cap, base, parent, link })
        },
    }
}

/// A directory in the space of a writer of its own. It is linked into its parent by a link
/// node, so that the name is kept in the parent's space.
#[derive(Debug, PartialEq, Eq)]
pub struct OwnSpace {
    pub cap: AbsoluteCapability,
    pub base: FromBase,
    pub parent: FromParent,
}

/// A new directory in the space of a new writer: its base block links the writer's key, and
/// its link to the parent names the parent's writer.
pub fn create_writable_shared_dir(
    parent_cap: &AbsoluteCapability,
    parent_key: &SymmetricKey,
    writer: &PublicKeyHash,
    writer_link: CborObject,
    name: &str,
    epoch: i64,
    keys: &NewKeys,
) -> (r: Result<OwnSpace>)
    ensures
        match checked_cap(new_cap(parent_cap@.owner, writer@, keys@)) {
            Err(f) => r is Err && error_is(r->Err_0, f),
            Ok(c) => {
                &&& r is Ok
                &&& r->Ok_0.cap@ == c
                &&& r->Ok_0.base@ == (BaseView {
                    parent_or_data: keys@.inner_key,
                    signer: Some(writer_link@),
                    next_chunk: next_link(keys@.next, keys@.r_base_key),
                })
                &&& r->Ok_0.parent@ == (ParentView {
                    parent_link: Some(up_link(parent_cap@, parent_key@, true)),
                    properties: directory_props(name@, epoch as int),
                })
            },
        },
{
    match keys.capability(&parent_cap.owner, writer) {
        Err(e) => Err(e),
        Ok(cap) => {
            let base = keys.base(&Some(writer_link));
            let parent = directory_parent_block(parent_link(parent_cap, parent_key, true), name, epoch, false, false);
            Ok(OwnSpace { cap, base, parent })
        },
    }
}

/// A link node: a directory node in the parent's space whose single child is a target in
/// the space of another writer.
#[derive(Debug, PartialEq, Eq)]
pub struct LinkNode {
    pub base: FromBase,
    pub parent: FromParent,
    /// Its single child.
    pub target: NamedRelativeCapability,
    /// The parent's link to it.
    pub link: NamedRelativeCapability,
}

/// A link node in the directory `parent_cap` for `target`. It keeps the authority to rename
/// in the parent's space: a holder of write access to the target can edit its contents but
/// cannot rename it. `target_link` is the target's write key, sealed for the link node, and
/// `write_link` that of the link node, sealed for the parent if that is writable.
pub fn create_link_node(
    parent_cap: &AbsoluteCapability,
    parent_key: &SymmetricKey,
    name: &str,
    target: &AbsoluteCapability,
    is_dir: bool,
    mime_type: &Option<String>,
    created_epoch: i64,
    keys: &NewKeys,
    target_link: CborObject,
    write_link: Option<CborObject>,
) -> (r: Result<LinkNode>)
    ensures
        !target@.is_writable() ==> fails_protocol(r, "target not writable"@),
        target@.is_writable() ==> {
            &&& r is Ok
            &&& r->Ok_0.base@ == (BaseView {
                parent_or_data: keys@.inner_key,
                signer: None,
                next_chunk: next_link(keys@.next, keys@.r_base_key),
            })
            &&& r->Ok_0.parent@ == (ParentView {
                parent_link: Some(up_link(parent_cap@, parent_key@, false)),
                properties: (PropsView { is_link: true, ..directory_props(name@, created_epoch as int) }),
            })
            &&& r->Ok_0.target@ == (NamedView {
                name: name@,
                cap: down_link(target@, true, Some(target_link@)),
                is_dir: Some(is_dir),
                mime_type: opt(*mime_type),
                created_epoch: Some(created_epoch),
            })
            &&& r->Ok_0.link@ == (NamedView {
                name: name@,
                cap: RelCapView {
                    writer: None,
                    map_key: keys@.map_key,
                    bat: Some(keys@.bat),
                    r_base_key: keys@.r_base_key,
                    w_base_key_link: opt(write_link),
                },
                is_dir: Some(is_dir),
                mime_type: opt(*mime_type),
                created_epoch: Some(created_epoch),
            })
        },
{
    if !target.is_writable() {
        return Err(protocol("target not writable"));
    }
    let base = keys.base(&None);
    let parent = directory_parent_block(parent_link(parent_cap, parent_key, false), name, created_epoch, false, true);
    let to_target = child_link(name, target, true, Some(target_link), Some(is_dir), mime_type, created_epoch);
    let link = NamedRelativeCapability {
        name: name.to_owned(),
        cap: RelativeCapability {
            writer: None,
            map_key: copy_bytes(&keys.map_key),
            bat: Some(keys.bat.dup()),
            r_base_key: keys.r_base_key.dup(),
            w_base_key_link: write_link,
        },
        is_dir: Some(is_dir),
        mime_type: dup_text(mime_type),
        created_epoch: Some(created_epoch),
    };
    Ok(LinkNode { base, parent, target: to_target, link })
}

/// The link to a new file that shares the writer of its directory.
pub fn file_link(name: &str, cap: &AbsoluteCapability, write_link: Option<CborObject>, mime_type: &str, epoch: i64) -> (r:
    NamedRelativeCapability)
    ensures
        r@ == plain_link(name@, cap@, opt(write_link), Some(false), Some(mime_type@), epoch),
{
    child_link(name, cap, false, write_link, Some(false), &Some(mime_type.to_owned()), epoch)
}

/// A move within the space of one writer: no data is encrypted again, so the capability of
/// the child is unchanged and existing shares keep working.
#[derive(Debug, PartialEq, Eq)]
pub struct FastMove {
    /// The parent block of the child's first chunk, which now leads to the target.
    pub parent: FromParent,
    /// The target's link to the child.
    pub link: NamedRelativeCapability,
}

/// Plans a move of `child` into `target`, whose parent key is `target_key`. `write_link` is
/// the child's write key, sealed for the target if both are writable.
pub fn move_fast_path(
    child: &DirEntry,
    props: FileProperties,
    target: &AbsoluteCapability,
    target_key: &SymmetricKey,
    name: &str,
    write_link: Option<CborObject>,
) -> (r: FastMove)
    ensures
        ({
            let other = child@.cap.writer != target@.writer;
            &&& r.parent@ == (ParentView {
                parent_link: Some(up_link(target@, target_key@, other)),
                properties: props@,
            })
            &&& r.link@ == (NamedView {
                name: name@,
                cap: down_link(child@.cap, other, opt(write_link)),
                is_dir: child@.is_dir,
                mime_type: child@.mime_type,
                created_epoch: Some(props.created_epoch),
            })
        }),
{
    let other = !child.cap.writer.same(&target.writer);
    let link = child_link(name, &child.cap, other, write_link, child.is_dir, &child.mime_type, props.created_epoch);
    FastMove { parent: FromParent { parent_link: Some(parent_link(target, target_key, other)), properties: props }, link }
}

/// The chunks that are dropped when a file is rewritten with other content: those that the
/// new content no longer needs, from the first to behind the last.
pub fn surplus_chunks(old_size: u64, new_size: u64) -> (r: Option<(u64, u64)>)
    ensures
        chunks_of(new_size as nat) < chunks_of(old_size as nat) ==> r == Some(
            (chunks_of(new_size as nat) as u64, chunks_of(old_size as nat) as u64),
        ),
        chunks_of(new_size as nat) >= chunks_of(old_size as nat) ==> r is None,
{
    let old_n = chunk_count(old_size);
    let new_n = chunk_count(new_size);
    if new_n < old_n {
        Some((new_n, old_n))
    } else {
        None
    }
}

/// Whether an upload that is resumed has to work out the hash tree again: its record holds
/// one branch, which is the whole tree for no more than 1024 chunks.
pub fn needs_tree(chunks: u64) -> (r: bool)
    ensures
        r == (chunks > 1024),
{
    chunks > crate::files::blocks::BRANCH_CHUNKS
}

/// How many chunks each thread hashes, for so many threads.
pub open spec fn per_thread(chunks: nat, threads: nat) -> int {
    if chunks == 0 {
        1
    } else {
        (chunks - 1) / threads as int + 1
    }
}

/// The parts of `chunks` chunks that threads hash, `per` chunks each: none is empty.
pub open spec fn thread_parts(chunks: int, per: int) -> Seq<(int, int)> {
    if chunks <= 0 || per <= 0 {
        Seq::empty()
    } else {
        Seq::new(((chunks - 1) / per + 1) as nat, |i: int| (i * per, least((i + 1) * per, chunks)))
    }
}

/// The parts as numbers.
pub open spec fn part_views(v: Seq<(usize, usize)>) -> Seq<(int, int)> {
    Seq::new(v.len(), |i: int| (v[i].0 as int, v[i].1 as int))
}

/// Whether the chunks of a file are hashed by a single thread.
pub fn is_serial(chunks: usize, threads: usize) -> (r: bool)
    ensures
        r == (chunks <= threads || threads <= 1),
{
    chunks <= threads || threads <= 1
}

/// Shares the chunks of a file out to threads.
pub fn share_out(chunks: usize, threads: usize) -> (r: Vec<(usize, usize)>)
    requires
        threads >= 1,
    ensures
        part_views(r@) == thread_parts(chunks as int, per_thread(chunks as nat, threads as nat)),
{
    let mut out: Vec<(usize, usize)> = Vec::new();
    proof {
        assert(part_views(out@) =~= Seq::empty());
    }
    if chunks == 0 {
        return out;
    }
    let per: usize = (chunks - 1) / threads + 1;
    proof {
        assert((chunks - 1) / threads as int <= chunks - 1) by (nonlinear_arith)
            requires
                threads >= 1,
                chunks >= 1,
        ;
    }
    let ghost all = thread_parts(chunks as int, per as int);
    let mut start: usize = 0;
    proof {
        assert(all.take(0) =~= Seq::empty());
    }
    while start < chunks
        invariant
            1 <= per <= chunks,
            all == thread_parts(chunks as int, per as int),
            start <= chunks,
            out@.len() <= all.len(),
            part_views(out@) == all.take(out@.len() as int),
            start < chunks ==> start == out@.len() * per,
            start == chunks ==> out@.len() == all.len(),
        decreases chunks - start,
    {
        let ghost i = out@.len() as int;
        let end: usize = if per < chunks - start { start + per } else { chunks };
        proof {
            assert((i + 1) * per == i * per + per) by (nonlinear_arith);
            assert(i < all.len()) by {
                let q = (chunks - 1) / per as int;
                vstd::arithmetic::div_mod::lemma_fundamental_div_mod(chunks - 1, per as int);
                assert(i <= q) by (nonlinear_arith)
                    requires
                        i * per <= chunks - 1,
                        chunks - 1 == per * q + (chunks - 1) % (per as int),
                        (chunks - 1) % (per as int) < per,
                        per >= 1,
                ;
            }
            assert(all[i] == (start as int, end as int));
            if end == chunks {
                let q = (chunks - 1) / per as int;
                vstd::arithmetic::div_mod::lemma_fundamental_div_mod(chunks - 1, per as int);
                assert(q <= i) by (nonlinear_arith)
                    requires
                        (i + 1) * per >= chunks,
                        chunks - 1 == per * q + (chunks - 1) % (per as int),
                        (chunks - 1) % (per as int) >= 0,
                        per >= 1,
                ;
            }
        }
        let ghost before = part_views(out@);
        out.push((start, end));
        proof {
            assert(part_views(out@) =~= before.push((start as int, end as int)));
            assert(all.take(i + 1) =~= all.take(i).push(all[i]));
        }
        start = end;
    }
    proof {
        assert(all.take(all.len() as int) =~= all);
    }
    out
}

/// The parts that threads hash make up the whole file, in order, and none is empty; there
/// are no more of them than threads.
pub proof fn law_parts_make_the_file(chunks: nat, threads: nat)
    requires
        chunks >= 1,
        threads >= 1,
    ensures
        ({
            let p = thread_parts(chunks as int, per_thread(chunks, threads));
            &&& 1 <= p.len() <= threads
            &&& p[0].0 == 0
            &&& p.last().1 == chunks
            &&& forall|i: int| 0 <= i < p.len() ==> (#[trigger] p[i]).0 < p[i].1
            &&& forall|i: int| 0 <= i < p.len() - 1 ==> (#[trigger] p[i]).1 == p[i + 1].0
        }),
{
    let t = threads as int;
    let per = per_thread(chunks, threads);
    let p = thread_parts(chunks as int, per);
    let n = chunks as int;
    let a = (n - 1) / t;
    vstd::arithmetic::div_mod::lemma_fundamental_div_mod(n - 1, t);
    assert(a >= 0) by (nonlinear_arith)
        requires
            a == (n - 1) / t,
            n >= 1,
            t >= 1,
    ;
    let q = (n - 1) / per;
    vstd::arithmetic::div_mod::lemma_fundamental_div_mod(n - 1, per);
    assert(q >= 0) by (nonlinear_arith)
        requires
            q == (n - 1) / per,
            n >= 1,
            per >= 1,
    ;
    assert(p.len() == q + 1);
    assert(q + 1 <= t) by (nonlinear_arith)
        requires
            n - 1 == t * a + (n - 1) % t,
            (n - 1) % t < t,
            per == a + 1,
            n - 1 == per * q + (n - 1) % per,
            (n - 1) % per >= 0,
            t >= 1,
            per >= 1,
    ;
    assert forall|i: int| 0 <= i < p.len() implies (#[trigger] p[i]).0 < p[i].1 by {
        assert(i * per <= n - 1) by (nonlinear_arith)
            requires
                0 <= i <= q,
                n - 1 == per * q + (n - 1) % per,
                (n - 1) % per >= 0,
                per >= 1,
        ;
        assert((i + 1) * per == i * per + per) by (nonlinear_arith);
    }
    assert forall|i: int| 0 <= i < p.len() - 1 implies (#[trigger] p[i]).1 == p[i + 1].0 by {
        assert((i + 1) * per <= n - 1) by (nonlinear_arith)
            requires
                0 <= i < q,
                n - 1 == per * q + (n - 1) % per,
                (n - 1) % per >= 0,
                per >= 1,
        ;
    }
    assert(p.last().1 == n) by {
        assert((q + 1) * per >= n) by (nonlinear_arith)
            requires
                n - 1 == per * q + (n - 1) % per,
                (n - 1) % per < per,
        ;
    }
    assert(p[0].0 == 0);
}

/// The link from one chunk to the next leads to its place, in the same writer's space, with the
/// file's own read key and without write access.
pub proof fn law_next_link(cap: CapView, next: Place, opened: Option<CborValue>)
    requires
        next.0.len() == MAP_KEY_LENGTH,
    ensures
        absolute(next_link(next, cap.r_base_key), cap, opened) == Ok::<CapView, Fault>(
            CapView { map_key: next.0, bat: next.1, w_base_key: None, ..cap },
        ),
{
}

/// What stands in the node of a chunk: the key to its data, the link to the next chunk, the link
/// to the file's directory and what it says of the file. The first one alone names the signing key.
pub proof fn law_chunk_node(
    u: ChunkUpload,
    tree: Option<TreeView>,
    recorded: Option<BranchView>,
    i: nat,
    place: Place,
    next: Place,
)
    ensures
        ({
            let n = chunk_node(u, tree, recorded, i, place, next);
            &&& n.place == place
            &&& n.base.parent_or_data == u.data_key@
            &&& n.base.next_chunk.map_key == next.0
            &&& n.base.next_chunk.bat == next.1
            &&& n.base.next_chunk.r_base_key == u.r_base_key@
            &&& i == 0 ==> n.base.signer == opt(u.plan.writer_link)
            &&& i > 0 ==> n.base.signer is None
            &&& n.parent.parent_link == Some(u.plan.to_parent@)
            &&& n.parent.properties == chunk_props(u.plan, tree, recorded, i)
        }),
{
}

/// What is stored of a file: each chunk holds its part of the content, and what fills up the
/// last one comes behind the content.
pub proof fn law_stored_chunk(
    u: ChunkUpload,
    tree: Option<TreeView>,
    recorded: Option<BranchView>,
    content: Seq<u8>,
    padding: Seq<u8>,
    places: Seq<Place>,
    i: int,
)
    requires
        0 <= i < chunks_of(content.len()),
    ensures
        ({
            let c = uploaded_chunk(u, tree, recorded, content, padding, places, i);
            let from = i * (5 * 1024 * 1024);
            &&& i + 1 < chunks_of(content.len()) ==> c.data == content.subrange(from, from + 5 * 1024 * 1024)
            &&& i + 1 == chunks_of(content.len()) ==> c.data == content.skip(from) + padding
            &&& c.node.place == places[i]
            &&& next_key(c) == places[i + 1].0
        }),
{
    let c = uploaded_chunk(u, tree, recorded, content, padding, places, i);
    let from = i * (5 * 1024 * 1024);
    law_chunk_bounds(content.len(), i);
    if i + 1 < chunks_of(content.len()) {
        assert(c.data =~= content.subrange(from, from + 5 * 1024 * 1024));
    } else {
        assert(c.data =~= content.skip(from) + padding);
    }
}

/// A new directory: its capability is writable, lies in its parent's space and carries the new keys;
/// its link stands in the parent under its name and leads to it as a directory; its own link leads up
/// to the parent; and its node bears its name, its time and whether it is hidden.
pub proof fn law_new_directory(
    d: NewDirectory,
    dir: CapView,
    dir_key: CborValue,
    name: Seq<char>,
    hidden: bool,
    epoch: i64,
    k: KeysView,
    write_link: Option<CborValue>,
)
    requires
        is_new_directory(d, dir, dir_key, name, hidden, epoch, k, write_link),
    ensures
        d.cap@.owner == dir.owner,
        d.cap@.writer == dir.writer,
        d.cap@.map_key == k.map_key,
        d.cap@.bat == Some(k.bat),
        d.cap@.r_base_key == k.r_base_key,
        d.cap@.w_base_key == Some(k.w_base_key),
        d.base@.parent_or_data == k.inner_key,
        d.base@.signer is None,
        d.base@.next_chunk.map_key == k.next.0,
        d.base@.next_chunk.bat == k.next.1,
        d.base@.next_chunk.r_base_key == k.r_base_key,
        d.link@.name == name,
        d.link@.is_dir == Some(true),
        d.link@.mime_type is None,
        d.link@.created_epoch == Some(epoch),
        d.link@.cap.w_base_key_link == write_link,
        d.link@.cap.writer is None,
        k.map_key.len() == MAP_KEY_LENGTH && dir.is_writable() && write_link is Some ==> absolute(
            d.link@.cap,
            dir,
            Some(k.w_base_key),
        ) == Ok::<CapView, Fault>(d.cap@),
        dir.map_key.len() == MAP_KEY_LENGTH ==> absolute(d.parent@.parent_link->Some_0, d.cap@, None) == Ok::<CapView, Fault>(
            CapView { r_base_key: dir_key, w_base_key: None, ..dir },
        ),
        d.parent@.parent_link is Some,
        d.parent@.properties.name == name,
        d.parent@.properties.is_directory,
        d.parent@.properties.is_hidden == hidden,
        !d.parent@.properties.is_link,
        d.parent@.properties.created_epoch == epoch,
        d.parent@.properties.modified_epoch == epoch,
        d.parent@.properties.size == 0,
{
}

/// The link of a child in its parent's space: all that the parent keeps of it.
pub proof fn law_plain_link(
    name: Seq<char>,
    target: CapView,
    write_link: Option<CborValue>,
    is_dir: Option<bool>,
    mime_type: Option<Seq<char>>,
    created_epoch: i64,
)
    ensures
        ({
            let l = plain_link(name, target, write_link, is_dir, mime_type, created_epoch);
            &&& l.name == name
            &&& l.is_dir == is_dir
            &&& l.mime_type == mime_type
            &&& l.created_epoch == Some(created_epoch)
            &&& l.cap.writer is None
            &&& l.cap.map_key == target.map_key
            &&& l.cap.bat == target.bat
            &&& l.cap.r_base_key == target.r_base_key
            &&& l.cap.w_base_key_link == write_link
        }),
{
}

} // verus!
