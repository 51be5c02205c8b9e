//! The hash tree of a file's content.
//!
//! Each 5 MiB chunk is hashed; the hashes are grouped into [`ChunkHashList`]s of up
//! to 1024 each, and hashed up the levels to a root. Every chunk's properties carry
//! the branch for its position. The hash function itself belongs to the caller: the
//! tree says what has to be hashed next and takes the hashes.
use vstd::prelude::*;
use crate::cbor::{items, map_put, map_put_opt, CborObject, CborValue};
use crate::cbor_codec::encode;
use crate::error::{agrees, cbor_error, error_is, fails_protocol, opt, protocol, Error, Fault, Result};
use crate::sorting::byte_strings;
use crate::text::{append_bytes, copy_bytes, decimal, decimal_text, join2, same_bytes};

verus! {

broadcast use crate::cbor::group_cbor;

/// The length of a chunk hash.
pub const HASH_LENGTH: usize = 32;

/// How many hashes one list holds.
pub const LIST_LENGTH: usize = 1024;

/// The 32-byte root of a file's hash tree.
#[derive(Debug, PartialEq, Eq)]
pub struct RootHash {
    pub hash: Vec<u8>,
}

impl View for RootHash {
    type V = Seq<u8>;

    open spec fn view(&self) -> Seq<u8> {
        self.hash@
    }
}

/// The CBOR of a byte string under "h".
pub open spec fn hash_cbor(hash: Seq<u8>) -> CborValue {
    CborValue::Mapping(map_put(Seq::empty(), "h"@, CborValue::ByteString(hash)))
}

/// The root hash that a value describes.
pub open spec fn root_from(v: CborValue) -> core::result::Result<Seq<u8>, Fault> {
    match v.bytes_at("h"@) {
        None => Err(Fault::Cbor("RootHash missing 'h'"@)),
        Some(h) => if h.len() != HASH_LENGTH {
            Err(Fault::Cbor("Incorrect hash length: "@ + decimal(h.len())))
        } else {
            Ok(h)
        },
    }
}

impl RootHash {
    pub fn to_cbor(&self) -> (r: CborObject)
        ensures
            r@ == hash_cbor(self@),
    {
        CborObject::map().put("h", CborObject::ByteString(copy_bytes(&self.hash))).build()
    }

    pub fn from_cbor(cbor: &CborObject) -> (r: Result<RootHash>)
        ensures
            agrees(r, root_from(cbor@)),
    {
        match cbor.bytes_at("h") {
            None => Err(cbor_error("RootHash missing 'h'")),
            Some(hash) => {
                if hash.len() != HASH_LENGTH {
                    return Err(
                        Error::Cbor(join2("Incorrect hash length: ", decimal_text(hash.len() as u64).as_str())),
                    );
                }
                Ok(RootHash { hash })
            },
        }
    }

    /// A copy of this hash.
    pub fn dup(&self) -> (r: RootHash)
        ensures
            r@ == self@,
    {
        RootHash { hash: copy_bytes(&self.hash) }
    }

    /// Whether two hashes are the same.
    pub fn same(&self, other: &RootHash) -> (r: bool)
        ensures
            r == (self@ == other@),
    {
        same_bytes(&self.hash, &other.hash)
    }
}

/// A concatenation of up to 1024 32-byte chunk hashes.
#[derive(Debug, PartialEq, Eq)]
pub struct ChunkHashList {
    pub chunk_hashes: Vec<u8>,
}

impl View for ChunkHashList {
    type V = Seq<u8>;

    open spec fn view(&self) -> Seq<u8> {
        self.chunk_hashes@
    }
}

/// The hash list that a value describes.
pub open spec fn list_from(v: CborValue) -> core::result::Result<Seq<u8>, Fault> {
    match v.bytes_at("h"@) {
        None => Err(Fault::Cbor("ChunkHashList missing 'h'"@)),
        Some(h) => Ok(h),
    }
}

impl ChunkHashList {
    pub fn to_cbor(&self) -> (r: CborObject)
        ensures
            r@ == hash_cbor(self@),
    {
        CborObject::map().put("h", CborObject::ByteString(copy_bytes(&self.chunk_hashes))).build()
    }

    pub fn from_cbor(cbor: &CborObject) -> (r: Result<ChunkHashList>)
        ensures
            agrees(r, list_from(cbor@)),
    {
        match cbor.bytes_at("h") {
            None => Err(cbor_error("ChunkHashList missing 'h'")),
            Some(chunk_hashes) => Ok(ChunkHashList { chunk_hashes }),
        }
    }

    /// The bytes that are hashed for the level above.
    pub fn serialize(&self) -> (r: Vec<u8>)
        ensures
            r@ == encode(hash_cbor(self@)),
    {
        self.to_cbor().to_bytes()
    }

    /// A copy of this list.
    pub fn dup(&self) -> (r: ChunkHashList)
        ensures
            r@ == self@,
    {
        ChunkHashList { chunk_hashes: copy_bytes(&self.chunk_hashes) }
    }
}

/// A branch of the hash tree stored on a chunk's file properties.
#[derive(Debug, PartialEq, Eq)]
pub struct HashBranch {
    pub root_hash: RootHash,
    pub level1: Option<ChunkHashList>,
    pub level2: Option<ChunkHashList>,
    pub level3: Option<ChunkHashList>,
}

/// The content of a [`HashBranch`].
pub ghost struct BranchView {
    pub root: Seq<u8>,
    pub level1: Option<Seq<u8>>,
    pub level2: Option<Seq<u8>>,
    pub level3: Option<Seq<u8>>,
}

impl View for HashBranch {
    type V = BranchView;

    open spec fn view(&self) -> BranchView {
        BranchView {
            root: self.root_hash@,
            level1: opt(self.level1),
            level2: opt(self.level2),
            level3: opt(self.level3),
        }
    }
}

/// The CBOR of an optional hash list.
pub open spec fn opt_hash_cbor(l: Option<Seq<u8>>) -> Option<CborValue> {
    match l {
        Some(h) => Some(hash_cbor(h)),
        None => None,
    }
}

/// The CBOR of a branch.
pub open spec fn branch_cbor(b: BranchView) -> CborValue {
    let e = map_put(Seq::empty(), "r"@, hash_cbor(b.root));
    let e = map_put_opt(e, "l1"@, opt_hash_cbor(b.level1));
    let e = map_put_opt(e, "l2"@, opt_hash_cbor(b.level2));
    CborValue::Mapping(map_put_opt(e, "l3"@, opt_hash_cbor(b.level3)))
}

/// The optional hash list under `key`.
pub open spec fn list_at(v: CborValue, key: Seq<char>) -> core::result::Result<Option<Seq<u8>>, Fault> {
    match v.get(key) {
        None => Ok(None),
        Some(x) => match list_from(x) {
            Ok(h) => Ok(Some(h)),
            Err(f) => Err(f),
        },
    }
}

/// The branch that a value describes.
pub open spec fn branch_from(v: CborValue) -> core::result::Result<BranchView, Fault> {
    match v.get("r"@) {
        None => Err(Fault::Cbor("HashBranch missing 'r'"@)),
        Some(x) => match (root_from(x), list_at(v, "l1"@), list_at(v, "l2"@), list_at(v, "l3"@)) {
            (Err(f), _, _, _) => Err(f),
            (_, Err(f), _, _) => Err(f),
            (_, _, Err(f), _) => Err(f),
            (_, _, _, Err(f)) => Err(f),
            (Ok(root), Ok(level1), Ok(level2), Ok(level3)) => Ok(BranchView { root, level1, level2, level3 }),
        },
    }
}

fn dup_list(l: &Option<ChunkHashList>) -> (r: Option<ChunkHashList>)
    ensures
        opt(r) == opt(*l),
{
    match l {
        Some(x) => Some(x.dup()),
        None => None,
    }
}

fn list_cbor(l: &Option<ChunkHashList>) -> (r: Option<CborObject>)
    ensures
        opt(r) == opt_hash_cbor(opt(*l)),
{
    match l {
        Some(x) => Some(x.to_cbor()),
        None => None,
    }
}

fn read_list(cbor: &CborObject, key: &str) -> (r: Result<Option<ChunkHashList>>)
    ensures
        match list_at(cbor@, key@) {
            Ok(l) => r is Ok && opt(r->Ok_0) == l,
            Err(f) => r is Err && error_is(r->Err_0, f),
        },
{
    match cbor.get(key) {
        None => Ok(None),
        Some(c) => match ChunkHashList::from_cbor(c) {
            Ok(l) => Ok(Some(l)),
            Err(e) => Err(e),
        },
    }
}

impl HashBranch {
    pub fn to_cbor(&self) -> (r: CborObject)
        ensures
            r@ == branch_cbor(self@),
    {
        CborObject::map().put("r", self.root_hash.to_cbor()).put_opt("l1", list_cbor(&self.level1)).put_opt(
            "l2",
            list_cbor(&self.level2),
        ).put_opt("l3", list_cbor(&self.level3)).build()
    }

    pub fn from_cbor(cbor: &CborObject) -> (r: Result<HashBranch>)
        ensures
            agrees(r, branch_from(cbor@)),
    {
        let root_hash = match cbor.get("r") {
            None => {
                return Err(cbor_error("HashBranch missing 'r'"));
            },
            Some(c) => match RootHash::from_cbor(c) {
                Ok(h) => h,
                Err(e) => {
                    return Err(e);
                },
            },
        };
        let level1 = match read_list(cbor, "l1") {
            Ok(l) => l,
            Err(e) => {
                return Err(e);
            },
        };
        let level2 = match read_list(cbor, "l2") {
            Ok(l) => l,
            Err(e) => {
                return Err(e);
            },
        };
        let level3 = match read_list(cbor, "l3") {
            Ok(l) => l,
            Err(e) => {
                return Err(e);
            },
        };
        Ok(HashBranch { root_hash, level1, level2, level3 })
    }

    /// A copy of this branch.
    pub fn dup(&self) -> (r: HashBranch)
        ensures
            r@ == self@,
    {
        HashBranch {
            root_hash: self.root_hash.dup(),
            level1: dup_list(&self.level1),
            level2: dup_list(&self.level2),
            level3: dup_list(&self.level3),
        }
    }
}

/// A branch is read back from its CBOR as it was, if its root is a root hash.
pub proof fn law_branch_round_trip(b: BranchView)
    requires
        b.root.len() == HASH_LENGTH,
    ensures
        branch_from(branch_cbor(b)) == Ok::<BranchView, Fault>(b),
{
    reveal_strlit("r");
    reveal_strlit("l1");
    reveal_strlit("l2");
    reveal_strlit("l3");
    reveal_strlit("h");
    assert("l1"@[1] == '1' && "l2"@[1] == '2' && "l3"@[1] == '3');
    assert("r"@.len() == 1 && "l1"@.len() == 2);
    assert(hash_cbor(b.root).bytes_at("h"@) == Some(b.root));
}

/// The byte strings from `from` to `to` in a row.
pub open spec fn row(hashes: Seq<Seq<u8>>, from: int, to: int) -> Seq<u8>
    decreases to - from,
{
    if to <= from {
        Seq::empty()
    } else {
        row(hashes, from, to - 1) + hashes[to - 1]
    }
}

/// How many lists `n` hashes fill.
pub open spec fn list_count(n: nat) -> nat {
    (n + LIST_LENGTH - 1) as nat / LIST_LENGTH as nat
}

/// The smaller of two numbers.
pub open spec fn least(a: int, b: int) -> int {
    if a < b {
        a
    } else {
        b
    }
}

/// The hashes in lists of up to 1024.
pub open spec fn level_of(hashes: Seq<Seq<u8>>) -> Seq<Seq<u8>> {
    Seq::new(
        list_count(hashes.len()),
        |k: int| row(hashes, k * LIST_LENGTH, least((k + 1) * LIST_LENGTH, hashes.len() as int)),
    )
}

/// The contents of a list of hash lists.
pub open spec fn lists(v: Seq<ChunkHashList>) -> Seq<Seq<u8>> {
    Seq::new(v.len(), |i: int| v[i]@)
}

/// Group 32-byte hashes into `ChunkHashList`s of up to 1024 hashes.
pub fn build_level(hashes: &[Vec<u8>]) -> (r: Vec<ChunkHashList>)
    ensures
        lists(r@) == level_of(byte_strings(hashes@)),
{
    let ghost hs = byte_strings(hashes@);
    let mut level: Vec<ChunkHashList> = Vec::new();
    let mut i: usize = 0;
    while i < hashes.len()
        invariant
            hs == byte_strings(hashes@),
            i <= hashes.len(),
            i == level.len() * LIST_LENGTH || i == hashes.len(),
            (level.len() - 1) * LIST_LENGTH < hashes.len() || level.len() == 0,
            i == hashes.len() ==> level.len() == list_count(hashes@.len()),
            forall|k: int|
                0 <= k < level.len() ==> (#[trigger] level[k])@ == row(
                    hs,
                    k * LIST_LENGTH,
                    least((k + 1) * LIST_LENGTH, hs.len() as int),
                ),
        decreases hashes.len() - i,
    {
        let n: usize = if hashes.len() - i < LIST_LENGTH { hashes.len() - i } else { LIST_LENGTH };
        let mut bytes: Vec<u8> = Vec::new();
        for c in 0..n
            invariant
                hs == byte_strings(hashes@),
                i + n <= hashes.len(),
                bytes@ == row(hs, i as int, i + c),
        {
            append_bytes(&mut bytes, &hashes[i + c]);
        }
        let ghost before = level@;
        level.push(ChunkHashList { chunk_hashes: bytes });
        proof {
            assert forall|k: int| 0 <= k < level.len() implies (#[trigger] level[k])@ == row(
                hs,
                k * LIST_LENGTH,
                least((k + 1) * LIST_LENGTH, hs.len() as int),
            ) by {
                if k < before.len() {
                    assert(level[k] == before[k]);
                }
            }
        }
        i = i + n;
    }
    proof {
        assert(lists(level@) =~= level_of(hs));
    }
    level
}

/// A file's content hash tree.
#[derive(Debug, PartialEq, Eq)]
pub struct HashTree {
    pub root_hash: RootHash,
    pub level1: Vec<ChunkHashList>,
    pub level2: Vec<ChunkHashList>,
    pub level3: Vec<ChunkHashList>,
}

/// The content of a [`HashTree`].
pub ghost struct TreeView {
    pub root: Seq<u8>,
    pub level1: Seq<Seq<u8>>,
    pub level2: Seq<Seq<u8>>,
    pub level3: Seq<Seq<u8>>,
}

impl View for HashTree {
    type V = TreeView;

    open spec fn view(&self) -> TreeView {
        TreeView {
            root: self.root_hash@,
            level1: lists(self.level1@),
            level2: lists(self.level2@),
            level3: lists(self.level3@),
        }
    }
}

/// The hashes of the lists of a level, under the hash function `h`.
pub open spec fn level_hashes(h: spec_fn(Seq<u8>) -> Seq<u8>, level: Seq<Seq<u8>>) -> Seq<Seq<u8>> {
    Seq::new(level.len(), |i: int| h(encode(hash_cbor(level[i]))))
}

/// The bytes that the root is the hash of.
pub open spec fn root_bytes(level: Seq<Seq<u8>>) -> Seq<u8> {
    encode(CborValue::List(Seq::new(level.len(), |i: int| hash_cbor(level[i]))))
}

/// The hash tree over the hashes of a file's chunks, under the hash function `h`.
pub open spec fn tree_of(h: spec_fn(Seq<u8>) -> Seq<u8>, chunks: Seq<Seq<u8>>) -> core::result::Result<TreeView, Fault> {
    let none = Seq::<Seq<u8>>::empty();
    let level1 = level_of(chunks);
    let level2 = level_of(level_hashes(h, level1));
    let level3 = level_of(level_hashes(h, level2));
    if chunks.len() == 0 {
        Err(Fault::Protocol("A file cannot have no chunk hashes"@))
    } else if level1.len() == 1 {
        Ok(TreeView { root: h(root_bytes(level1)), level1, level2: none, level3: none })
    } else if level2.len() == 1 {
        Ok(TreeView { root: h(root_bytes(level2)), level1, level2, level3: none })
    } else if level3.len() == 1 {
        Ok(TreeView { root: h(root_bytes(level3)), level1, level2, level3 })
    } else {
        Err(Fault::Protocol("Files bigger than 5 PiB are not supported"@))
    }
}

/// A hash tree under construction.
#[derive(Debug, PartialEq, Eq)]
pub struct TreeBuilder {
    pub level1: Vec<ChunkHashList>,
    pub level2: Vec<ChunkHashList>,
    pub level3: Vec<ChunkHashList>,
    /// How many levels there are.
    pub depth: u8,
}

/// What a tree under construction needs next.
#[derive(Debug, PartialEq, Eq)]
pub enum TreeStep {
    /// The hash of these bytes, which is the root.
    Root(Vec<u8>),
    /// The hash of each of these byte strings, for the next level.
    Level(Vec<Vec<u8>>),
}

impl TreeBuilder {
    /// The highest level so far.
    pub open spec fn top(self) -> Seq<Seq<u8>> {
        if self.depth == 1 {
            lists(self.level1@)
        } else if self.depth == 2 {
            lists(self.level2@)
        } else {
            lists(self.level3@)
        }
    }

    /// The state of a tree whose first level is over `chunks`: each level is over the
    /// hashes of the one below.
    pub open spec fn wf(self) -> bool {
        &&& 1 <= self.depth <= 3
        &&& self.depth < 2 ==> self.level2@.len() == 0
        &&& self.depth < 3 ==> self.level3@.len() == 0
    }

    /// A tree over the hashes of a file's chunks.
    pub fn start(chunk_hashes: &[Vec<u8>]) -> (r: Result<TreeBuilder>)
        ensures
            chunk_hashes@.len() == 0 ==> fails_protocol(r, "A file cannot have no chunk hashes"@),
            chunk_hashes@.len() > 0 ==> r is Ok && r->Ok_0.wf() && r->Ok_0.depth == 1 && lists(r->Ok_0.level1@)
                == level_of(byte_strings(chunk_hashes@)),
    {
        if chunk_hashes.len() == 0 {
            return Err(protocol("A file cannot have no chunk hashes"));
        }
        Ok(TreeBuilder { level1: build_level(chunk_hashes), level2: Vec::new(), level3: Vec::new(), depth: 1 })
    }

    /// What has to be hashed next.
    pub fn next(&self) -> (r: Result<TreeStep>)
        requires
            self.wf(),
        ensures
            self.top().len() == 1 ==> (r matches Ok(TreeStep::Root(b)) && b@ == root_bytes(self.top())),
            self.top().len() != 1 && self.depth < 3 ==> (r matches Ok(TreeStep::Level(v)) && byte_strings(v@)
                == Seq::new(self.top().len(), |i: int| encode(hash_cbor(self.top()[i])))),
            self.top().len() != 1 && self.depth == 3 ==> fails_protocol(
                r,
                "Files bigger than 5 PiB are not supported"@,
            ),
    {
        let top = if self.depth == 1 {
            &self.level1
        } else if self.depth == 2 {
            &self.level2
        } else {
            &self.level3
        };
        proof {
            assert(lists(top@) == self.top());
            assert(self.top().len() == top@.len());
        }
        if top.len() == 1 {
            let mut v: Vec<CborObject> = Vec::new();
            v.push(top[0].to_cbor());
            let list = CborObject::List(v);
            proof {
                assert(items(v@) =~= Seq::new(self.top().len(), |i: int| hash_cbor(self.top()[i])));
            }
            return Ok(TreeStep::Root(list.to_bytes()));
        }
        if self.depth == 3 {
            return Err(protocol("Files bigger than 5 PiB are not supported"));
        }
        let mut out: Vec<Vec<u8>> = Vec::new();
        for i in 0..top.len()
            invariant
                out.len() == i,
                forall|k: int| 0 <= k < i ==> (#[trigger] out[k])@ == encode(hash_cbor(top[k]@)),
        {
            out.push(top[i].serialize());
        }
        proof {
            assert(byte_strings(out@) =~= Seq::new(self.top().len(), |i: int| encode(hash_cbor(self.top()[i]))));
        }
        Ok(TreeStep::Level(out))
    }

    /// Adds the level over these hashes.
    pub fn with_level(self, hashes: &[Vec<u8>]) -> (r: TreeBuilder)
        requires
            self.wf(),
            self.depth < 3,
        ensures
            r.wf(),
            r.depth == self.depth + 1,
            r.level1 == self.level1,
            self.depth == 2 ==> r.level2 == self.level2,
            r.top() == level_of(byte_strings(hashes@)),
    {
        let level = build_level(hashes);
        if self.depth == 1 {
            TreeBuilder { level1: self.level1, level2: level, level3: self.level3, depth: 2 }
        } else {
            TreeBuilder { level1: self.level1, level2: self.level2, level3: level, depth: 3 }
        }
    }

    /// The tree with this root.
    pub fn with_root(self, hash: Vec<u8>) -> (r: HashTree)
        ensures
            r.root_hash.hash == hash,
            r.level1 == self.level1,
            r.level2 == self.level2,
            r.level3 == self.level3,
    {
        HashTree {
            root_hash: RootHash { hash },
            level1: self.level1,
            level2: self.level2,
            level3: self.level3,
        }
    }
}

/// A tree under construction over `chunks` whose levels are the hashes of `h`.
pub open spec fn follows(b: TreeBuilder, h: spec_fn(Seq<u8>) -> Seq<u8>, chunks: Seq<Seq<u8>>) -> bool {
    &&& b.wf()
    &&& chunks.len() > 0
    &&& lists(b.level1@) == level_of(chunks)
    &&& b.depth >= 2 ==> lists(b.level1@).len() != 1 && lists(b.level2@) == level_of(
        level_hashes(h, lists(b.level1@)),
    )
    &&& b.depth >= 3 ==> lists(b.level2@).len() != 1 && lists(b.level3@) == level_of(
        level_hashes(h, lists(b.level2@)),
    )
}

/// Hashing with one function what [`TreeBuilder::next`] asks for leads to the hash tree
/// under that function: a root completes it, no root is asked for where there is no
/// tree, and a level of hashes goes on to the next.
pub proof fn law_tree_construction(b: TreeBuilder, h: spec_fn(Seq<u8>) -> Seq<u8>, chunks: Seq<Seq<u8>>)
    requires
        follows(b, h, chunks),
    ensures
        b.top().len() == 1 ==> tree_of(h, chunks) == Ok::<TreeView, Fault>(
            TreeView {
                root: h(root_bytes(b.top())),
                level1: lists(b.level1@),
                level2: lists(b.level2@),
                level3: lists(b.level3@),
            },
        ),
        b.top().len() != 1 && b.depth == 3 ==> tree_of(h, chunks) == Err::<TreeView, Fault>(
            Fault::Protocol("Files bigger than 5 PiB are not supported"@),
        ),
        b.top().len() != 1 && b.depth < 3 ==> forall|c: TreeBuilder|
            c.wf() && c.depth == b.depth + 1 && c.level1 == b.level1 && (b.depth == 2 ==> c.level2 == b.level2)
                && #[trigger] c.top() == level_of(level_hashes(h, b.top())) ==> follows(c, h, chunks),
{
    let none = Seq::<Seq<u8>>::empty();
    if b.depth < 2 {
        assert(lists(b.level2@) =~= none);
    }
    if b.depth < 3 {
        assert(lists(b.level3@) =~= none);
    }
}

/// The branch of a tree for a chunk.
pub open spec fn branch_of(t: TreeView, chunk_index: nat) -> BranchView {
    BranchView {
        root: t.root,
        level1: item_at(t.level1, chunk_index / 1024),
        level2: item_at(t.level2, chunk_index / 1024 / 1024),
        level3: item_at(t.level3, chunk_index / 1024 / 1024 / 1024),
    }
}

/// Item `i` of a list, if it has one.
pub open spec fn item_at(v: Seq<Seq<u8>>, i: nat) -> Option<Seq<u8>> {
    if i < v.len() {
        Some(v[i as int])
    } else {
        None
    }
}

fn list_item(v: &Vec<ChunkHashList>, i: u64) -> (r: Option<ChunkHashList>)
    ensures
        opt(r) == item_at(lists(v@), i as nat),
{
    if i < v.len() as u64 {
        Some(v[i as usize].dup())
    } else {
        None
    }
}

impl HashTree {
    /// The branch stored on the first chunk of each 1024-chunk group.
    pub fn branch(&self, chunk_index: u64) -> (r: HashBranch)
        ensures
            r@ == branch_of(self@, chunk_index as nat),
    {
        HashBranch {
            root_hash: self.root_hash.dup(),
            level1: list_item(&self.level1, chunk_index / 1024),
            level2: list_item(&self.level2, chunk_index / 1024 / 1024),
            level3: list_item(&self.level3, chunk_index / 1024 / 1024 / 1024),
        }
    }
}

proof fn lemma_row_place(hashes: Seq<Seq<u8>>, from: int, to: int, i: int)
    requires
        0 <= from <= i < to <= hashes.len(),
        forall|k: int| 0 <= k < hashes.len() ==> (#[trigger] hashes[k]).len() == 32,
    ensures
        row(hashes, from, to).len() == 32 * (to - from),
        row(hashes, from, to).subrange(32 * (i - from), 32 * (i - from) + 32) == hashes[i],
    decreases to - from,
{
    let r = row(hashes, from, to);
    let init = row(hashes, from, to - 1);
    if i < to - 1 {
        lemma_row_place(hashes, from, to - 1, i);
        assert(r.subrange(32 * (i - from), 32 * (i - from) + 32) =~= init.subrange(32 * (i - from), 32 * (i - from) + 32));
    } else {
        if from < to - 1 {
            lemma_row_place(hashes, from, to - 1, from);
        }
        assert(hashes[to - 1].len() == 32);
        assert(r.subrange(32 * (i - from), 32 * (i - from) + 32) =~= hashes[i]);
    }
}

/// The hash of every chunk stands in the tree: chunk `i` in list `i / 1024`, behind the 32 bytes
/// of each of the `i % 1024` before it.
pub proof fn law_chunk_hash_is_in_its_list(hashes: Seq<Seq<u8>>, i: int)
    requires
        0 <= i < hashes.len(),
        forall|k: int| 0 <= k < hashes.len() ==> (#[trigger] hashes[k]).len() == 32,
    ensures
        i / 1024 < level_of(hashes).len(),
        level_of(hashes)[i / 1024].subrange(32 * (i % 1024), 32 * (i % 1024) + 32) == hashes[i],
        level_of(hashes).len() == (hashes.len() + 1023) / 1024,
{
    let k = i / 1024;
    let from = k * 1024;
    let to = least((k + 1) * 1024, hashes.len() as int);
    assert(from <= i < to);
    lemma_row_place(hashes, from, to, i);
}

/// A tree of no more than 1024 chunks is one list of hashes; the root is the hash of the top list
/// alone, written as a list of one.
pub proof fn law_small_tree(h: spec_fn(Seq<u8>) -> Seq<u8>, chunks: Seq<Seq<u8>>)
    requires
        0 < chunks.len() <= 1024,
    ensures
        tree_of(h, chunks) matches Ok(t) && t.level1 == seq![row(chunks, 0, chunks.len() as int)] && t.level2.len() == 0
            && t.level3.len() == 0 && t.root == h(
            encode(CborValue::List(seq![hash_cbor(row(chunks, 0, chunks.len() as int))])),
        ),
{
    let l = level_of(chunks);
    assert(list_count(chunks.len()) == 1);
    assert(l =~= seq![row(chunks, 0, chunks.len() as int)]);
    assert(Seq::new(l.len(), |i: int| hash_cbor(l[i])) =~= seq![hash_cbor(l[0])]);
}

/// The levels of a tree: each hashes the lists of the one below it, and the root hashes the first
/// level that is a single list. A file without chunks has no tree.
pub proof fn law_tree_levels(h: spec_fn(Seq<u8>) -> Seq<u8>, chunks: Seq<Seq<u8>>)
    ensures
        chunks.len() == 0 ==> tree_of(h, chunks) is Err,
        tree_of(h, chunks) matches Ok(t) ==> t.level1 == level_of(chunks) && (t.level2.len() > 0 ==> t.level2 == level_of(
            Seq::new(t.level1.len(), |i: int| h(encode(hash_cbor(t.level1[i])))),
        )) && (t.level3.len() > 0 ==> t.level3 == level_of(
            Seq::new(t.level2.len(), |i: int| h(encode(hash_cbor(t.level2[i])))),
        )) && (t.level1.len() == 1 ==> t.level2.len() == 0) && (t.level2.len() == 1 ==> t.level3.len() == 0),
{
}

/// The branch of a chunk leads from the root to the lists that its hash is below: one for each
/// level that the tree has.
pub proof fn law_branch(t: TreeView, i: nat)
    ensures
        branch_of(t, i).root == t.root,
        i / 1024 < t.level1.len() ==> branch_of(t, i).level1 == Some(t.level1[(i / 1024) as int]),
        i / 0x10_0000 < t.level2.len() ==> branch_of(t, i).level2 == Some(t.level2[(i / 0x10_0000) as int]),
        i / 0x4000_0000 < t.level3.len() ==> branch_of(t, i).level3 == Some(t.level3[(i / 0x4000_0000) as int]),
        t.level2.len() == 0 ==> branch_of(t, i).level2 is None,
        t.level3.len() == 0 ==> branch_of(t, i).level3 is None,
{
    assert(i / 1024 / 1024 == i / 0x10_0000);
    assert(i / 1024 / 1024 / 1024 == i / 0x4000_0000);
}

/// Where a branch keeps its hashes.
pub proof fn law_branch_fields(b: BranchView)
    ensures
        branch_cbor(b).get("r"@) == Some(hash_cbor(b.root)),
        b.level1 matches Some(l) ==> branch_cbor(b).get("l1"@) == Some(hash_cbor(l)),
        b.level2 matches Some(l) ==> branch_cbor(b).get("l2"@) == Some(hash_cbor(l)),
        b.level3 matches Some(l) ==> branch_cbor(b).get("l3"@) == Some(hash_cbor(l)),
        b.level1 is None ==> branch_cbor(b).get("l1"@) is None,
        b.level2 is None ==> branch_cbor(b).get("l2"@) is None,
        b.level3 is None ==> branch_cbor(b).get("l3"@) is None,
        forall|x: Seq<u8>| (#[trigger] hash_cbor(x)).get("h"@) == Some(CborValue::ByteString(x)),
{
    reveal_strlit("r");
    reveal_strlit("h");
    reveal_strlit("l1");
    reveal_strlit("l2");
    reveal_strlit("l3");
    assert("r"@.len() == 1 && "l1"@.len() == 2 && "l2"@.len() == 2 && "l3"@.len() == 2);
    assert("l1"@[1] == '1' && "l2"@[1] == '2' && "l3"@[1] == '3');
}

/// The root of a tree is the hash of the one list of its highest level, and a branch ends where the
/// tree does.
pub proof fn law_root_of_a_tree(h: spec_fn(Seq<u8>) -> Seq<u8>, chunks: Seq<Seq<u8>>, t: TreeView, i: nat)
    ensures
        tree_of(h, chunks) matches Ok(r) ==> (r.level3.len() > 0 ==> r.level3.len() == 1 && r.root == h(
            encode(CborValue::List(seq![hash_cbor(r.level3[0])])),
        )) && (r.level3.len() == 0 && r.level2.len() > 0 ==> r.level2.len() == 1 && r.root == h(
            encode(CborValue::List(seq![hash_cbor(r.level2[0])])),
        )) && (r.level2.len() == 0 ==> r.level1.len() == 1 && r.root == h(
            encode(CborValue::List(seq![hash_cbor(r.level1[0])])),
        )),
        i / 1024 >= t.level1.len() ==> branch_of(t, i).level1 is None,
        i / 1024 / 1024 >= t.level2.len() ==> branch_of(t, i).level2 is None,
        i / 1024 / 1024 / 1024 >= t.level3.len() ==> branch_of(t, i).level3 is None,
{
    if let Ok(r) = tree_of(h, chunks) {
        assert(Seq::new(1, |k: int| hash_cbor(r.level1[k])) =~= seq![hash_cbor(r.level1[0])]);
        assert(Seq::new(1, |k: int| hash_cbor(r.level2[k])) =~= seq![hash_cbor(r.level2[0])]);
        assert(Seq::new(1, |k: int| hash_cbor(r.level3[k])) =~= seq![hash_cbor(r.level3[0])]);
        let a = level_of(chunks);
        let b = level_of(level_hashes(h, a));
        let c = level_of(level_hashes(h, b));
        assert(root_bytes(a) == encode(CborValue::List(Seq::new(a.len(), |k: int| hash_cbor(a[k])))));
        assert(root_bytes(b) == encode(CborValue::List(Seq::new(b.len(), |k: int| hash_cbor(b[k])))));
        assert(root_bytes(c) == encode(CborValue::List(Seq::new(c.len(), |k: int| hash_cbor(c[k])))));
        assert(a.len() == 1 ==> Seq::new(a.len(), |k: int| hash_cbor(a[k])) =~= seq![hash_cbor(a[0])]);
        assert(b.len() == 1 ==> Seq::new(b.len(), |k: int| hash_cbor(b[k])) =~= seq![hash_cbor(b[0])]);
        assert(c.len() == 1 ==> Seq::new(c.len(), |k: int| hash_cbor(c[k])) =~= seq![hash_cbor(c[0])]);
    }
}

/// A root hash has 32 bytes; one of another length, or none, is refused.
pub proof fn law_root_hashes(v: CborValue)
    ensures
        v.bytes_at("h"@) is None ==> root_from(v) == Err::<Seq<u8>, Fault>(Fault::Cbor("RootHash missing 'h'"@)),
        v.bytes_at("h"@) matches Some(b) ==> b.len() == 32 ==> root_from(v) == Ok::<Seq<u8>, Fault>(b),
        v.bytes_at("h"@) matches Some(b) ==> b.len() != 32 ==> root_from(v) == Err::<Seq<u8>, Fault>(
            Fault::Cbor("Incorrect hash length: "@ + decimal(b.len())),
        ),
        v.bytes_at("h"@) matches Some(b) ==> list_from(v) == Ok::<Seq<u8>, Fault>(b),
        v.bytes_at("h"@) is None ==> list_from(v) == Err::<Seq<u8>, Fault>(Fault::Cbor("ChunkHashList missing 'h'"@)),
        v.get("r"@) is None ==> branch_from(v) == Err::<BranchView, Fault>(Fault::Cbor("HashBranch missing 'r'"@)),
{
}

} // verus!
