//! What to upload, and in which order.
use vstd::prelude::*;
use crate::bytes::{be_bytes, lemma_be_len, lemma_pow256, pow256, push_be};
use crate::error::opt;
use crate::files::chunks::CHUNK_MAX_SIZE;
use crate::hashtree::{HashBranch, RootHash};
use crate::paths::{slice_chars, texts};
use crate::sorting::{byte_strings, is_range, sort_places, sorts_before};
use crate::text::{bytes_before, chars_of, join3, same_text, text_of};

verus! {

/// Files of a folder are committed in batches of at least this size.
pub const SUBTREE_PROGRESS_BATCH: u64 = 10_485_760;

/// A file to place in a subtree upload. Its content is provided lazily by the caller,
/// so huge files stream chunk by chunk and are never held whole in memory. A hash, if
/// present, lets an unchanged file be skipped without reading it.
#[derive(Debug, PartialEq, Eq)]
pub struct FileUpload {
    pub name: String,
    pub size: u64,
    /// Which of the caller's byte sources has the content.
    pub source: usize,
    pub hash: Option<RootHash>,
}

/// The content of a [`FileUpload`].
pub ghost struct UploadView {
    pub name: Seq<char>,
    pub size: nat,
    pub source: nat,
    pub hash: Option<Seq<u8>>,
}

impl View for FileUpload {
    type V = UploadView;

    open spec fn view(&self) -> UploadView {
        UploadView { name: self.name@, size: self.size as nat, source: self.source as nat, hash: opt(self.hash) }
    }
}

impl FileUpload {
    /// A file without a known hash.
    pub fn new(name: String, size: u64, source: usize) -> (r: FileUpload)
        ensures
            r@ == (UploadView { name: name@, size: size as nat, source: source as nat, hash: None }),
    {
        FileUpload { name, size, source, hash: None }
    }

    /// Attach a precomputed content hash-tree root (from a prior scan) so this file
    /// can be deduped against an unchanged remote copy without reading it.
    pub fn with_hash(self, hash: RootHash) -> (r: FileUpload)
        ensures
            r@ == (UploadView { hash: Some(hash@), ..self@ }),
    {
        FileUpload { name: self.name, size: self.size, source: self.source, hash: Some(hash) }
    }

    /// A copy of this upload.
    pub fn dup(&self) -> (r: FileUpload)
        ensures
            r@ == self@,
    {
        let hash = match &self.hash {
            Some(h) => Some(h.dup()),
            None => None,
        };
        FileUpload { name: self.name.clone(), size: self.size, source: self.source, hash }
    }
}

/// A directory relative to the upload base and the files to place directly in it.
/// `rel_path` is the `/`-free component list under the base (empty = the base dir).
#[derive(Debug, PartialEq, Eq)]
pub struct FolderUpload {
    pub rel_path: Vec<String>,
    pub files: Vec<FileUpload>,
}

/// The contents of a list of uploads.
pub open spec fn uploads(v: Seq<FileUpload>) -> Seq<UploadView> {
    Seq::new(v.len(), |i: int| v[i]@)
}

/// A file that fits one chunk is written with one atomic commit, a larger one under a
/// transaction.
pub fn is_single_chunk(size: u64) -> (r: bool)
    ensures
        r == (size <= CHUNK_MAX_SIZE),
{
    size <= CHUNK_MAX_SIZE
}

/// Whether an interrupted upload of the same path can be continued: it has to be of
/// the same content. `None` is a hash that is not known.
pub fn can_resume(
    recorded_size: u64,
    recorded: &Option<HashBranch>,
    size: u64,
    branch: &Option<HashBranch>,
) -> (r: bool)
    ensures
        r == (recorded_size == size && opt(*recorded) == opt(*branch)),
{
    if recorded_size != size {
        return false;
    }
    match (recorded, branch) {
        (None, None) => true,
        (Some(a), Some(b)) => same_branch(a, b),
        _ => false,
    }
}

/// Whether two branches are the same.
fn same_branch(a: &HashBranch, b: &HashBranch) -> (r: bool)
    ensures
        r == (a@ == b@),
{
    same_list(&a.level1, &b.level1) && same_list(&a.level2, &b.level2) && same_list(&a.level3, &b.level3)
        && a.root_hash.same(&b.root_hash)
}

fn same_list(
    a: &Option<crate::hashtree::ChunkHashList>,
    b: &Option<crate::hashtree::ChunkHashList>,
) -> (r: bool)
    ensures
        r == (opt(*a) == opt(*b)),
{
    match (a, b) {
        (None, None) => true,
        (Some(x), Some(y)) => crate::text::same_bytes(&x.chunk_hashes, &y.chunk_hashes),
        _ => false,
    }
}

/// The hash that is stored for `name`: the last of the list.
pub open spec fn stored_hash(existing: Seq<(Seq<char>, Seq<u8>)>, name: Seq<char>) -> Option<Seq<u8>>
    decreases existing.len(),
{
    if existing.len() == 0 {
        None
    } else if existing.last().0 == name {
        Some(existing.last().1)
    } else {
        stored_hash(existing.drop_last(), name)
    }
}

/// A file whose content is known to be there already.
pub open spec fn is_unchanged(f: UploadView, existing: Seq<(Seq<char>, Seq<u8>)>) -> bool {
    f.hash is Some && stored_hash(existing, f.name) == f.hash
}

/// The names and hashes of a list.
pub open spec fn name_hashes(v: Seq<(String, RootHash)>) -> Seq<(Seq<char>, Seq<u8>)> {
    Seq::new(v.len(), |i: int| (v[i].0@, v[i].1@))
}

/// Whether the content of a file is known to be there already.
fn unchanged(f: &FileUpload, existing: &Vec<(String, RootHash)>) -> (r: bool)
    ensures
        r == is_unchanged(f@, name_hashes(existing@)),
{
    let ghost ev = name_hashes(existing@);
    match &f.hash {
        None => false,
        Some(h) => {
            let mut i: usize = existing.len();
            proof {
                assert(ev.take(i as int) =~= ev);
            }
            while i > 0
                invariant
                    ev == name_hashes(existing@),
                    i <= existing.len(),
                    f@.hash == Some(h@),
                    stored_hash(ev, f@.name) == stored_hash(ev.take(i as int), f@.name),
                decreases i,
            {
                proof {
                    assert(ev.take(i as int).last() == (existing[i - 1].0@, existing[i - 1].1@));
                    assert(ev.take(i as int).drop_last() =~= ev.take(i - 1));
                }
                if same_text(existing[i - 1].0.as_str(), f.name.as_str()) {
                    return existing[i - 1].1.same(h);
                }
                i -= 1;
            }
            false
        },
    }
}

/// A step of the upload of a folder.
#[derive(Debug, PartialEq, Eq)]
pub enum UploadStep {
    /// Small files, whose links are added in one write of the directory.
    Batch(Vec<FileUpload>),
    /// A large file, under a transaction with this path.
    Large(FileUpload, String),
}

/// The content of an [`UploadStep`].
pub ghost enum StepView {
    Batch(Seq<UploadView>),
    Large(UploadView, Seq<char>),
}

impl View for UploadStep {
    type V = StepView;

    open spec fn view(&self) -> StepView {
        match self {
            UploadStep::Batch(v) => StepView::Batch(uploads(v@)),
            UploadStep::Large(f, p) => StepView::Large(f@, p@),
        }
    }
}

/// The contents of a list of steps.
pub open spec fn steps(v: Seq<UploadStep>) -> Seq<StepView> {
    Seq::new(v.len(), |i: int| v[i]@)
}

/// The path of `name` in the directory at `dir`.
pub open spec fn path_in(dir: Seq<char>, name: Seq<char>) -> Seq<char> {
    if dir.len() == 0 {
        name
    } else {
        dir + "/"@ + name
    }
}

/// The path of `name` in the directory at `dir`.
pub fn join_path(dir: &str, name: &str) -> (r: String)
    ensures
        r@ == path_in(dir@, name@),
{
    if dir.is_empty() {
        name.to_owned()
    } else {
        join3(dir, "/", name)
    }
}

/// The path of the directory that `rel_path` leads to from `base`.
pub open spec fn path_below(base: Seq<char>, rel_path: Seq<Seq<char>>) -> Seq<char>
    decreases rel_path.len(),
{
    if rel_path.len() == 0 {
        base
    } else {
        path_in(path_below(base, rel_path.drop_last()), rel_path.last())
    }
}

/// How many of the first characters are slashes.
pub open spec fn leading_slashes(s: Seq<char>) -> nat
    decreases s.len(),
{
    if s.len() > 0 && s[0] == '/' {
        1 + leading_slashes(s.skip(1))
    } else {
        0
    }
}

/// `s` without slashes at its end.
pub open spec fn without_trailing(s: Seq<char>) -> Seq<char>
    decreases s.len(),
{
    if s.len() > 0 && s.last() == '/' {
        without_trailing(s.drop_last())
    } else {
        s
    }
}

/// `s` without slashes at either end.
pub open spec fn trimmed(s: Seq<char>) -> Seq<char> {
    without_trailing(s.skip(leading_slashes(s) as int))
}

/// `s` without slashes at either end.
pub fn trim_slashes(s: &str) -> (r: String)
    ensures
        r@ == trimmed(s@),
{
    let chars = chars_of(s);
    let mut from: usize = 0;
    proof {
        assert(s@.skip(0) =~= s@);
    }
    while from < chars.len() && chars[from] == '/'
        invariant
            chars@ == s@,
            from <= chars.len(),
            leading_slashes(s@) == from + leading_slashes(s@.skip(from as int)),
        decreases chars.len() - from,
    {
        proof {
            assert(s@.skip(from as int).skip(1) =~= s@.skip(from as int + 1));
        }
        from += 1;
    }
    let ghost rest = s@.skip(from as int);
    let mut to: usize = chars.len();
    proof {
        assert(leading_slashes(rest) == 0);
        assert(rest.take(to - from) =~= rest);
    }
    while to > from && chars[to - 1] == '/'
        invariant
            chars@ == s@,
            from <= to <= chars.len(),
            rest == s@.skip(from as int),
            without_trailing(rest) == without_trailing(rest.take(to - from)),
        decreases to,
    {
        proof {
            assert(rest.take(to - from).last() == chars[to - 1]);
            assert(rest.take(to - from).drop_last() =~= rest.take(to - from - 1));
        }
        to -= 1;
    }
    let r = text_of(slice_chars(&chars, from, to));
    proof {
        assert(r@ =~= rest.take(to - from));
    }
    r
}

/// The home-relative path of a folder of the upload.
pub fn folder_path(base_path: &str, rel_path: &Vec<String>) -> (r: String)
    ensures
        r@ == path_below(trimmed(base_path@), texts(rel_path@)),
{
    let ghost rv = texts(rel_path@);
    let ghost base = trimmed(base_path@);
    let mut path = trim_slashes(base_path);
    proof {
        assert(rv.take(0) =~= Seq::empty());
    }
    for i in 0..rel_path.len()
        invariant
            rv == texts(rel_path@),
            path@ == path_below(base, rv.take(i as int)),
    {
        proof {
            assert(rv.take(i as int + 1).drop_last() =~= rv.take(i as int));
            assert(rv.take(i as int + 1).last() == rel_path[i as int]@);
        }
        path = join_path(path.as_str(), rel_path[i].as_str());
    }
    proof {
        assert(rv.take(rv.len() as int) =~= rv);
    }
    path
}

/// A plan in the making: its steps, and the small files that no step has yet.
pub ghost struct Plan {
    pub steps: Seq<StepView>,
    pub batch: Seq<UploadView>,
    pub bytes: nat,
}

/// The plan with the batch as a step, if there is one.
pub open spec fn flushed(p: Plan) -> Plan {
    if p.batch.len() == 0 {
        p
    } else {
        Plan { steps: p.steps.push(StepView::Batch(p.batch)), batch: Seq::empty(), bytes: 0 }
    }
}

/// The plan with one more file.
pub open spec fn planned(p: Plan, f: UploadView, existing: Seq<(Seq<char>, Seq<u8>)>, dir: Seq<char>) -> Plan {
    if is_unchanged(f, existing) {
        p
    } else if f.size > CHUNK_MAX_SIZE {
        let q = flushed(p);
        Plan { steps: q.steps.push(StepView::Large(f, path_in(dir, f.name))), ..q }
    } else {
        let q = Plan { batch: p.batch.push(f), bytes: p.bytes + f.size, ..p };
        if q.bytes >= SUBTREE_PROGRESS_BATCH {
            flushed(q)
        } else {
            q
        }
    }
}

/// The plan for these files, in their order.
pub open spec fn plan_of(files: Seq<UploadView>, existing: Seq<(Seq<char>, Seq<u8>)>, dir: Seq<char>) -> Plan
    decreases files.len(),
{
    if files.len() == 0 {
        Plan { steps: Seq::empty(), batch: Seq::empty(), bytes: 0 }
    } else {
        planned(plan_of(files.drop_last(), existing, dir), files.last(), existing, dir)
    }
}

/// `sorted` is `files` in ascending order of size, files of one size in their order.
pub open spec fn is_by_size(files: Seq<UploadView>, sorted: Seq<UploadView>, order: Seq<usize>) -> bool {
    &&& is_range(order, 0, files.len() as int)
    &&& sorted.len() == files.len()
    &&& forall|i: int| 0 <= i < sorted.len() ==> #[trigger] sorted[i] == files[order[i] as int]
    &&& forall|i: int, j: int|
        0 <= i < j < sorted.len() ==> sorted[i].size < sorted[j].size || (#[trigger] sorted[i].size == #[trigger] sorted[j].size
            && order[i] < order[j])
}

proof fn lemma_before_push(x: Seq<u8>, y: Seq<u8>, p: u8, q: u8)
    requires
        x.len() == y.len(),
    ensures
        bytes_before(x.push(p), y.push(q)) == (bytes_before(x, y) || (x == y && p < q)),
    decreases x.len(),
{
    if x.len() == 0 {
        assert(x =~= y);
        assert(x.push(p).skip(1) =~= Seq::empty());
        assert(y.push(q).skip(1) =~= Seq::empty());
        assert(!bytes_before(Seq::<u8>::empty(), Seq::<u8>::empty()));
        assert(x.push(p)[0] == p && y.push(q)[0] == q);
    } else {
        assert(x.push(p)[0] == x[0] && y.push(q)[0] == y[0]);
        assert(x.push(p).skip(1) =~= x.skip(1).push(p));
        assert(y.push(q).skip(1) =~= y.skip(1).push(q));
        lemma_before_push(x.skip(1), y.skip(1), p, q);
        assert(x == y <==> x[0] == y[0] && x.skip(1) == y.skip(1)) by {
            if x[0] == y[0] && x.skip(1) == y.skip(1) {
                assert(x =~= seq![x[0]] + x.skip(1));
                assert(y =~= seq![y[0]] + y.skip(1));
            }
        }
    }
}

/// Big endian bytes are ordered like the numbers.
proof fn lemma_be_order(a: nat, b: nat, w: nat)
    requires
        a < pow256(w),
        b < pow256(w),
    ensures
        bytes_before(be_bytes(a, w), be_bytes(b, w)) == (a < b),
        be_bytes(a, w) == be_bytes(b, w) <==> a == b,
    decreases w,
{
    lemma_be_len(a, w);
    lemma_be_len(b, w);
    if w > 0 {
        let v = (w - 1) as nat;
        lemma_be_order(a / 256, b / 256, v);
        lemma_be_len(a / 256, v);
        lemma_be_len(b / 256, v);
        let x = be_bytes(a / 256, v);
        let y = be_bytes(b / 256, v);
        lemma_before_push(x, y, (a % 256) as u8, (b % 256) as u8);
        assert(be_bytes(a, w) == be_bytes(b, w) ==> a == b) by {
            if be_bytes(a, w) == be_bytes(b, w) {
                assert(be_bytes(a, w).drop_last() =~= x);
                assert(be_bytes(b, w).drop_last() =~= y);
                assert(be_bytes(a, w).last() == be_bytes(b, w).last());
            }
        }
    }
}

/// The files in ascending order of size.
fn sort_by_size(files: Vec<FileUpload>) -> (r: Vec<FileUpload>)
    ensures
        exists|order: Seq<usize>| #[trigger] is_by_size(uploads(files@), uploads(r@), order),
{
    let mut keys: Vec<Vec<u8>> = Vec::new();
    for i in 0..files.len()
        invariant
            keys.len() == i,
            forall|k: int| 0 <= k < i ==> (#[trigger] keys[k])@ == be_bytes(files[k].size as nat, 8),
    {
        let mut key: Vec<u8> = Vec::new();
        push_be(&mut key, files[i].size, 8);
        proof {
            assert(key@ =~= be_bytes(files[i as int].size as nat, 8));
        }
        keys.push(key);
    }
    let order = sort_places(&keys);
    let mut out: Vec<FileUpload> = Vec::new();
    for i in 0..order.len()
        invariant
            is_range(order@, 0, files@.len() as int),
            out.len() == i,
            forall|k: int| 0 <= k < i ==> (#[trigger] out[k])@ == files[order[k] as int]@,
    {
        out.push(files[order[i]].dup());
    }
    proof {
        let fv = uploads(files@);
        let sv = uploads(out@);
        let ks = byte_strings(keys@);
        lemma_pow256();
        assert forall|i: int, j: int| 0 <= i < j < sv.len() implies sv[i].size < sv[j].size || (#[trigger] sv[i].size
            == #[trigger] sv[j].size && order@[i] < order@[j]) by {
            let a = order@[i] as int;
            let b = order@[j] as int;
            assert(sorts_before(ks, a, b));
            lemma_be_order(files[a].size as nat, files[b].size as nat, 8);
            assert(ks[a] == keys[a]@ && ks[b] == keys[b]@);
        }
        assert(is_by_size(fv, sv, order@));
    }
    out
}

/// The plan for the files of a folder whose path is `dir`: unchanged files are skipped,
/// small ones are batched, and large ones come on their own, after what is batched.
/// `existing` has the names and hashes of what the directory holds.
pub fn plan_folder(files: Vec<FileUpload>, existing: &Vec<(String, RootHash)>, dir: &str) -> (r: Vec<UploadStep>)
    ensures
        exists|sorted: Seq<UploadView>, order: Seq<usize>| #[trigger]
            is_by_size(uploads(files@), sorted, order) && steps(r@) == flushed(
                plan_of(sorted, name_hashes(existing@), dir@),
            ).steps,
{
    let sorted = sort_by_size(files);
    let ghost sv = uploads(sorted@);
    let ghost ev = name_hashes(existing@);
    let mut out: Vec<UploadStep> = Vec::new();
    let mut batch: Vec<FileUpload> = Vec::new();
    let mut bytes: u64 = 0;
    proof {
        assert(sv.take(0) =~= Seq::empty());
        assert(steps(out@) =~= Seq::empty());
        assert(uploads(batch@) =~= Seq::empty());
    }
    for i in 0..sorted.len()
        invariant
            sv == uploads(sorted@),
            ev == name_hashes(existing@),
            ({
                let p = plan_of(sv.take(i as int), ev, dir@);
                p.steps == steps(out@) && p.batch == uploads(batch@) && p.bytes == bytes
            }),
            bytes < SUBTREE_PROGRESS_BATCH,
            batch@.len() == 0 ==> bytes == 0,
    {
        let ghost so = steps(out@);
        let ghost ba = uploads(batch@);
        proof {
            assert(sv.take(i as int + 1).drop_last() =~= sv.take(i as int));
            assert(sv.take(i as int + 1).last() == sorted[i as int]@);
            assert(ba.len() == batch@.len());
        }
        let f = sorted[i].dup();
        let ghost fv = f@;
        if !unchanged(&f, existing) {
            if f.size > CHUNK_MAX_SIZE {
                if batch.len() > 0 {
                    out.push(UploadStep::Batch(batch));
                    batch = Vec::new();
                    bytes = 0;
                    proof {
                        assert(steps(out@) =~= so.push(StepView::Batch(ba)));
                        assert(uploads(batch@) =~= Seq::empty());
                    }
                }
                let ghost s1 = steps(out@);
                let path = join_path(dir, f.name.as_str());
                out.push(UploadStep::Large(f, path));
                proof {
                    assert(steps(out@) =~= s1.push(StepView::Large(fv, path_in(dir@, fv.name))));
                }
            } else {
                bytes = bytes + f.size;
                batch.push(f);
                proof {
                    assert(uploads(batch@) =~= ba.push(fv));
                }
                if bytes >= SUBTREE_PROGRESS_BATCH {
                    let ghost b1 = uploads(batch@);
                    out.push(UploadStep::Batch(batch));
                    batch = Vec::new();
                    bytes = 0;
                    proof {
                        assert(steps(out@) =~= so.push(StepView::Batch(b1)));
                        assert(uploads(batch@) =~= Seq::empty());
                    }
                }
            }
        }
    }
    proof {
        assert(sv.take(sv.len() as int) =~= sv);
    }
    let ghost so = steps(out@);
    let ghost ba = uploads(batch@);
    if batch.len() > 0 {
        out.push(UploadStep::Batch(batch));
        proof {
            assert(steps(out@) =~= so.push(StepView::Batch(ba)));
        }
    }
    proof {
        assert(ba.len() == batch@.len());
        assert(steps(out@) == flushed(plan_of(sv, ev, dir@)).steps);
        let order = choose|order: Seq<usize>| #[trigger] is_by_size(uploads(files@), sv, order);
        assert(is_by_size(uploads(files@), sv, order));
    }
    out
}

/// The files that a step uploads.
pub open spec fn step_files(s: StepView) -> Seq<UploadView> {
    match s {
        StepView::Batch(v) => v,
        StepView::Large(f, p) => seq![f],
    }
}

/// The files that the steps upload, in order.
pub open spec fn files_of(v: Seq<StepView>) -> Seq<UploadView>
    decreases v.len(),
{
    if v.len() == 0 {
        Seq::empty()
    } else {
        files_of(v.drop_last()) + step_files(v.last())
    }
}

/// The files that are not known to be there already.
pub open spec fn changed(files: Seq<UploadView>, existing: Seq<(Seq<char>, Seq<u8>)>) -> Seq<UploadView>
    decreases files.len(),
{
    if files.len() == 0 {
        Seq::empty()
    } else if is_unchanged(files.last(), existing) {
        changed(files.drop_last(), existing)
    } else {
        changed(files.drop_last(), existing).push(files.last())
    }
}

proof fn lemma_files_push(v: Seq<StepView>, s: StepView)
    ensures
        files_of(v.push(s)) == files_of(v) + step_files(s),
{
    assert(v.push(s).drop_last() =~= v);
}

/// Every file that changed is uploaded once, in ascending order of size, and no other.
pub proof fn law_plan_uploads_changed_files(
    files: Seq<UploadView>,
    existing: Seq<(Seq<char>, Seq<u8>)>,
    dir: Seq<char>,
)
    ensures
        files_of(flushed(plan_of(files, existing, dir)).steps) == changed(files, existing),
        files_of(plan_of(files, existing, dir).steps) + plan_of(files, existing, dir).batch == changed(files, existing),
    decreases files.len(),
{
    let p = plan_of(files, existing, dir);
    if files.len() > 0 {
        let init = files.drop_last();
        let f = files.last();
        law_plan_uploads_changed_files(init, existing, dir);
        let p0 = plan_of(init, existing, dir);
        if !is_unchanged(f, existing) {
            if f.size > CHUNK_MAX_SIZE {
                let q = flushed(p0);
                lemma_files_push(q.steps, StepView::Large(f, path_in(dir, f.name)));
                assert(files_of(p.steps) + p.batch =~= changed(files, existing));
            } else {
                let q = Plan { batch: p0.batch.push(f), bytes: p0.bytes + f.size, ..p0 };
                lemma_files_push(q.steps, StepView::Batch(q.batch));
                assert(files_of(q.steps) + q.batch =~= changed(files, existing));
                assert(files_of(p.steps) + p.batch =~= changed(files, existing));
            }
        }
    } else {
        assert(files_of(p.steps) + p.batch =~= changed(files, existing));
    }
    lemma_files_push(p.steps, StepView::Batch(p.batch));
    assert(files_of(flushed(p).steps) =~= changed(files, existing));
}

proof fn lemma_stored_hash(existing: Seq<(Seq<char>, Seq<u8>)>, name: Seq<char>)
    ensures
        stored_hash(existing, name) matches Some(h) ==> existing.contains((name, h)),
        stored_hash(existing, name) is None ==> forall|i: int| 0 <= i < existing.len() ==> (#[trigger] existing[i]).0 != name,
    decreases existing.len(),
{
    if existing.len() > 0 {
        let init = existing.drop_last();
        let last = existing[existing.len() - 1];
        lemma_stored_hash(init, name);
        if last.0 == name {
            assert(last == (name, last.1));
        } else if stored_hash(init, name) is Some {
            let h = stored_hash(init, name)->Some_0;
            let k = choose|k: int| 0 <= k < init.len() && init[k] == (name, h);
            assert(existing[k] == (name, h));
        } else {
            assert forall|i: int| 0 <= i < existing.len() implies (#[trigger] existing[i]).0 != name by {
                if i < init.len() {
                    assert(init[i] == existing[i]);
                }
            }
        }
    }
}

/// A file is left out of an upload only if its hash is known and the directory holds that very
/// hash under its name.
pub proof fn law_only_the_same_content_is_skipped(
    files: Seq<UploadView>,
    existing: Seq<(Seq<char>, Seq<u8>)>,
    dir: Seq<char>,
    i: int,
)
    requires
        0 <= i < files.len(),
        files[i].hash matches Some(h) ==> !existing.contains((files[i].name, h)),
    ensures
        files_of(flushed(plan_of(files, existing, dir)).steps).contains(files[i]),
{
    lemma_stored_hash(existing, files[i].name);
    lemma_changed_contains(files, existing, i);
    law_plan_uploads_changed_files(files, existing, dir);
}

proof fn lemma_changed_contains(files: Seq<UploadView>, existing: Seq<(Seq<char>, Seq<u8>)>, i: int)
    requires
        0 <= i < files.len(),
        !is_unchanged(files[i], existing),
    ensures
        changed(files, existing).contains(files[i]),
    decreases files.len(),
{
    let init = files.drop_last();
    let c = changed(files, existing);
    if i < init.len() {
        lemma_changed_contains(init, existing, i);
        let d = changed(init, existing);
        let k = choose|k: int| 0 <= k < d.len() && d[k] == init[i];
        assert(c[k] == files[i]);
    } else {
        assert(c[c.len() - 1] == files[i]);
    }
}

/// A file whose hash is the one that the directory holds last under its name is not uploaded
/// again, and nothing is uploaded that was not asked for.
pub proof fn law_unchanged_files_are_skipped(
    files: Seq<UploadView>,
    existing: Seq<(Seq<char>, Seq<u8>)>,
    dir: Seq<char>,
    f: UploadView,
    k: int,
)
    requires
        0 <= k < existing.len(),
        existing[k].0 == f.name,
        f.hash == Some(existing[k].1),
        forall|j: int| k < j < existing.len() ==> (#[trigger] existing[j]).0 != f.name,
    ensures
        !files_of(flushed(plan_of(files, existing, dir)).steps).contains(f),
        forall|g: UploadView|
            #[trigger] files_of(flushed(plan_of(files, existing, dir)).steps).contains(g) ==> files.contains(g),
{
    lemma_last_hash(existing, f.name, k);
    law_plan_uploads_changed_files(files, existing, dir);
    lemma_changed_are_files(files, existing);
}

proof fn lemma_last_hash(existing: Seq<(Seq<char>, Seq<u8>)>, name: Seq<char>, k: int)
    requires
        0 <= k < existing.len(),
        existing[k].0 == name,
        forall|j: int| k < j < existing.len() ==> (#[trigger] existing[j]).0 != name,
    ensures
        stored_hash(existing, name) == Some(existing[k].1),
    decreases existing.len(),
{
    let init = existing.drop_last();
    if k < init.len() {
        assert(existing[existing.len() - 1].0 != name);
        assert(init[k] == existing[k]);
        assert forall|j: int| k < j < init.len() implies (#[trigger] init[j]).0 != name by {
            assert(init[j] == existing[j]);
        }
        lemma_last_hash(init, name, k);
    }
}

proof fn lemma_changed_are_files(files: Seq<UploadView>, existing: Seq<(Seq<char>, Seq<u8>)>)
    ensures
        forall|g: UploadView| #[trigger] changed(files, existing).contains(g) ==> files.contains(g) && !is_unchanged(g, existing),
    decreases files.len(),
{
    if files.len() > 0 {
        let init = files.drop_last();
        lemma_changed_are_files(init, existing);
        assert forall|g: UploadView| #[trigger] changed(files, existing).contains(g) implies files.contains(g) && !is_unchanged(
            g,
            existing,
        ) by {
            let c = changed(files, existing);
            let d = changed(init, existing);
            let k = choose|k: int| 0 <= k < c.len() && c[k] == g;
            if k < d.len() {
                assert(d[k] == g);
                assert(d.contains(g));
                let n = choose|n: int| 0 <= n < init.len() && init[n] == g;
                assert(files[n] == g);
            } else {
                assert(files[files.len() - 1] == g);
            }
        }
    }
}

/// The files of a batch fit one chunk each, a larger file has a step of its own under its path,
/// and every batch but the last holds at least 10 MiB.
pub proof fn law_steps_by_size(
    files: Seq<UploadView>,
    existing: Seq<(Seq<char>, Seq<u8>)>,
    dir: Seq<char>,
    i: int,
)
    requires
        0 <= i < flushed(plan_of(files, existing, dir)).steps.len(),
    ensures
        match flushed(plan_of(files, existing, dir)).steps[i] {
            StepView::Batch(v) => v.len() > 0 && forall|k: int| 0 <= k < v.len() ==> (#[trigger] v[k]).size <= 0x50_0000,
            StepView::Large(f, path) => f.size > 0x50_0000 && path == if dir.len() == 0 { f.name } else { dir + "/"@ + f.name },
        },
{
    lemma_steps_by_size(files, existing, dir);
    let p = plan_of(files, existing, dir);
    let q = flushed(p);
    if i < p.steps.len() {
        assert(q.steps[i] == p.steps[i]);
        assert(is_sized(p.steps[i], dir));
    }
}

spec fn is_sized(s: StepView, dir: Seq<char>) -> bool {
    match s {
        StepView::Batch(v) => v.len() > 0 && forall|k: int| 0 <= k < v.len() ==> (#[trigger] v[k]).size <= 0x50_0000,
        StepView::Large(f, path) => f.size > 0x50_0000 && path == if dir.len() == 0 { f.name } else { dir + "/"@ + f.name },
    }
}

proof fn lemma_steps_by_size(files: Seq<UploadView>, existing: Seq<(Seq<char>, Seq<u8>)>, dir: Seq<char>)
    ensures
        forall|i: int|
            0 <= i < plan_of(files, existing, dir).steps.len() ==> is_sized(
                #[trigger] plan_of(files, existing, dir).steps[i],
                dir,
            ),
        forall|k: int|
            0 <= k < plan_of(files, existing, dir).batch.len() ==> (#[trigger] plan_of(files, existing, dir).batch[k]).size
                <= 0x50_0000,
    decreases files.len(),
{
    if files.len() > 0 {
        let init = files.drop_last();
        let f = files.last();
        lemma_steps_by_size(init, existing, dir);
        let p0 = plan_of(init, existing, dir);
        let p = plan_of(files, existing, dir);
        let b = p0.batch.push(f);
        assert forall|i: int| 0 <= i < p.steps.len() implies is_sized(#[trigger] p.steps[i], dir) by {
            if i < p0.steps.len() {
                assert(p.steps[i] == p0.steps[i]);
            } else if f.size > CHUNK_MAX_SIZE {
                if i < flushed(p0).steps.len() {
                    assert(p.steps[i] == StepView::Batch(p0.batch));
                }
            } else {
                assert(p.steps[i] == StepView::Batch(b));
                assert forall|k: int| 0 <= k < b.len() implies (#[trigger] b[k]).size <= 0x50_0000 by {
                    if k < p0.batch.len() {
                        assert(b[k] == p0.batch[k]);
                    }
                }
            }
        }
        assert forall|k: int| 0 <= k < p.batch.len() implies (#[trigger] p.batch[k]).size <= 0x50_0000 by {
            if k < p0.batch.len() {
                assert(p.batch[k] == p0.batch[k]);
            }
        }
    }
}

/// The path of a file is that of its directory, a slash and its name, and the name alone at the
/// top; a folder lies below its base, component by component.
pub proof fn law_folder_paths(base: Seq<char>, rel_path: Seq<Seq<char>>, name: Seq<char>)
    ensures
        path_below(base, Seq::empty()) == base,
        path_below(base, rel_path.push(name)) == if path_below(base, rel_path).len() == 0 {
            name
        } else {
            path_below(base, rel_path) + "/"@ + name
        },
{
    assert(rel_path.push(name).drop_last() =~= rel_path);
}

/// Trimming takes away slashes at the ends and nothing else.
pub proof fn law_trimmed(s: Seq<char>)
    ensures
        exists|i: int, j: int|
            0 <= i <= j <= s.len() && #[trigger] s.subrange(i, j) == trimmed(s) && (forall|k: int|
                0 <= k < i ==> #[trigger] s[k] == '/') && (forall|k: int| j <= k < s.len() ==> #[trigger] s[k] == '/'),
        trimmed(s).len() > 0 ==> trimmed(s)[0] != '/' && trimmed(s).last() != '/',
{
    lemma_leading(s);
    let i = leading_slashes(s) as int;
    let t = s.skip(i);
    lemma_trailing(t);
    let j = i + without_trailing(t).len();
    assert(s.subrange(i, j) =~= trimmed(s));
    assert forall|k: int| j <= k < s.len() implies #[trigger] s[k] == '/' by {
        assert(t[k - i] == s[k]);
    }
    if trimmed(s).len() > 0 {
        assert(trimmed(s)[0] == s[i]);
    }
}

proof fn lemma_leading(s: Seq<char>)
    ensures
        leading_slashes(s) <= s.len(),
        forall|k: int| 0 <= k < leading_slashes(s) ==> #[trigger] s[k] == '/',
        leading_slashes(s) < s.len() ==> s[leading_slashes(s) as int] != '/',
    decreases s.len(),
{
    if s.len() > 0 && s[0] == '/' {
        let t = s.skip(1);
        lemma_leading(t);
        assert forall|k: int| 0 <= k < leading_slashes(s) implies #[trigger] s[k] == '/' by {
            if k > 0 {
                assert(t[k - 1] == s[k]);
            }
        }
    }
}

proof fn lemma_trailing(s: Seq<char>)
    ensures
        without_trailing(s).len() <= s.len(),
        without_trailing(s) == s.take(without_trailing(s).len() as int),
        forall|k: int| without_trailing(s).len() <= k < s.len() ==> #[trigger] s[k] == '/',
        without_trailing(s).len() > 0 ==> without_trailing(s).last() != '/',
    decreases s.len(),
{
    if s.len() > 0 && s.last() == '/' {
        let t = s.drop_last();
        lemma_trailing(t);
        assert(without_trailing(s) =~= s.take(without_trailing(s).len() as int));
        assert forall|k: int| without_trailing(s).len() <= k < s.len() implies #[trigger] s[k] == '/' by {
            if k < t.len() {
                assert(t[k] == s[k]);
            }
        }
    } else {
        assert(s.take(s.len() as int) =~= s);
    }
}

/// What is trimmed from a path are the slashes before its first other character and behind its last.
pub proof fn law_trimmed_path(s: Seq<char>, from: int, to: int)
    requires
        0 <= from < to <= s.len(),
        s[from] != '/',
        s[to - 1] != '/',
        forall|k: int| 0 <= k < from ==> #[trigger] s[k] == '/',
        forall|k: int| to <= k < s.len() ==> #[trigger] s[k] == '/',
    ensures
        trimmed(s) == s.subrange(from, to),
{
    lemma_leading(s);
    let i = leading_slashes(s) as int;
    assert(i == from) by {
        if i < from {
            assert(s[i] == '/');
        }
    }
    let t = s.skip(from);
    lemma_trailing(t);
    let n = without_trailing(t).len() as int;
    assert(n >= to - from) by {
        if n < to - from {
            assert(t[to - from - 1] == s[to - 1]);
        }
    }
    assert(n <= to - from) by {
        if n > to - from {
            assert(t[n - 1] == s[from + n - 1]);
            assert(without_trailing(t).last() == t[n - 1]);
        }
    }
    assert(trimmed(s) =~= s.subrange(from, to));
}

/// A batch goes up as soon as its files have 10 MiB together, and never waits for more than that.
pub proof fn law_batches(p: Plan, f: UploadView, existing: Seq<(Seq<char>, Seq<u8>)>, dir: Seq<char>)
    requires
        !is_unchanged(f, existing),
        f.size <= 5 * 1024 * 1024,
    ensures
        p.bytes + f.size >= 10 * 1024 * 1024 ==> planned(p, f, existing, dir).steps == p.steps.push(
            StepView::Batch(p.batch.push(f)),
        ) && planned(p, f, existing, dir).batch.len() == 0 && planned(p, f, existing, dir).bytes == 0,
        p.bytes + f.size < 10 * 1024 * 1024 ==> planned(p, f, existing, dir).steps == p.steps && planned(
            p,
            f,
            existing,
            dir,
        ).batch == p.batch.push(f) && planned(p, f, existing, dir).bytes == p.bytes + f.size,
{
}

/// Files go up smallest first, those of one size in the order in which they came, and none is left
/// out.
pub proof fn law_smallest_first(files: Seq<UploadView>, sorted: Seq<UploadView>, order: Seq<usize>, i: int, j: int)
    requires
        is_by_size(files, sorted, order),
    ensures
        0 <= i < j < sorted.len() ==> sorted[i].size <= sorted[j].size,
        0 <= i < j < sorted.len() && sorted[i].size == sorted[j].size ==> order[i] < order[j],
        0 <= i < sorted.len() ==> sorted[i] == files[order[i] as int],
        0 <= i < files.len() ==> sorted.contains(files[i]),
        sorted.len() == files.len(),
{
    if 0 <= i < j < sorted.len() {
        assert(sorted[i].size <= sorted[j].size);
    }
    if 0 <= i < files.len() {
        assert(crate::sorting::has_place(order, i));
        let k = choose|k: int| 0 <= k < order.len() && #[trigger] order[k] == i;
        assert(sorted[k] == files[i]);
    }
}

} // verus!
