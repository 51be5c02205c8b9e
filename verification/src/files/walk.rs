//! Walks through a subtree, node by node: the caller fetches, the walk says what next.
use vstd::prelude::*;
use crate::capability::{AbsoluteCapability, CapView};
use crate::cbor::CborValue;
use crate::cryptree::{named_views, ChildrenLinks, LinksView, NamedView};
use crate::error::opt;
use crate::files::chunks::chunk_count;
use crate::files::moves::{is_same_place, same_place};
use crate::opaque::{dup_opt, Bat, PublicKeyHash, SymmetricKey};
use crate::sorting::byte_strings;
use crate::text::copy_bytes;

verus! {

/// The contents of a list of capabilities.
pub open spec fn caps(v: Seq<AbsoluteCapability>) -> Seq<CapView> {
    Seq::new(v.len(), |i: int| v[i]@)
}

/// The nodes to visit, each with whether the parent writer owns it.
pub open spec fn visits(v: Seq<(AbsoluteCapability, bool)>) -> Seq<(CapView, bool)> {
    Seq::new(v.len(), |i: int| (v[i].0@, v[i].1))
}

/// The contents of a list of key hashes.
pub open spec fn hashes(v: Seq<PublicKeyHash>) -> Seq<CborValue> {
    Seq::new(v.len(), |i: int| v[i]@)
}

/// A walk that collects every writer of its own in a subtree, crossing link nodes at
/// every level: a parent writer before its children. While a node is still within the
/// space of the writer that the walk started in, the writers found there are of the
/// first level: they have to be deauthorised from that writer, whereas deeper ones are
/// owned by a writer that is deleted itself.
#[derive(Debug, PartialEq, Eq)]
pub struct OwnWriterWalk {
    /// The nodes to visit, the next one last.
    pub stack: Vec<(AbsoluteCapability, bool)>,
    /// The roots of the spaces found.
    pub to_null: Vec<AbsoluteCapability>,
    /// The writers of the first level.
    pub first_level: Vec<PublicKeyHash>,
}

/// The content of an [`OwnWriterWalk`].
pub ghost struct WalkView {
    pub stack: Seq<(CapView, bool)>,
    pub to_null: Seq<CapView>,
    pub first_level: Seq<CborValue>,
}

impl View for OwnWriterWalk {
    type V = WalkView;

    open spec fn view(&self) -> WalkView {
        WalkView {
            stack: visits(self.stack@),
            to_null: caps(self.to_null@),
            first_level: hashes(self.first_level@),
        }
    }
}

/// The walk without the node that comes next.
pub open spec fn popped(w: WalkView) -> WalkView {
    WalkView { stack: w.stack.drop_last(), ..w }
}

/// The walk after a link node to `target` was visited.
pub open spec fn after_link(w: WalkView, owned: bool, target: CapView) -> WalkView {
    WalkView {
        stack: w.stack.push((target, false)),
        to_null: w.to_null.push(target),
        first_level: if owned { w.first_level.push(target.writer) } else { w.first_level },
    }
}

/// The nodes in reverse, so that the first one comes next.
pub open spec fn upcoming(children: Seq<CapView>, owned: bool) -> Seq<(CapView, bool)> {
    Seq::new(children.len(), |i: int| (children[children.len() - 1 - i], owned))
}

/// The walk after a directory with these children was visited.
pub open spec fn after_directory(w: WalkView, owned: bool, children: Seq<CapView>) -> WalkView {
    WalkView { stack: w.stack + upcoming(children, owned), ..w }
}

impl OwnWriterWalk {
    /// A walk from `cap`, in the space of the writer that it starts in.
    pub fn start(cap: &AbsoluteCapability) -> (r: OwnWriterWalk)
        ensures
            r@ == (WalkView { stack: seq![(cap@, true)], to_null: Seq::empty(), first_level: Seq::empty() }),
    {
        let mut stack: Vec<(AbsoluteCapability, bool)> = Vec::new();
        stack.push((cap.dup(), true));
        let r = OwnWriterWalk { stack, to_null: Vec::new(), first_level: Vec::new() };
        proof {
            assert(r@.stack =~= seq![(cap@, true)]);
            assert(r@.to_null =~= Seq::empty());
            assert(r@.first_level =~= Seq::empty());
        }
        r
    }

    /// The node to visit next, and whether the parent writer owns it.
    pub fn next(&mut self) -> (r: Option<(AbsoluteCapability, bool)>)
        ensures
            r is None <==> old(self)@.stack.len() == 0,
            r is None ==> final(self)@ == old(self)@,
            r matches Some((cap, owned)) ==> (cap@, owned) == old(self)@.stack.last() && final(self)@ == popped(
                old(self)@,
            ),
    {
        proof {
            assert(self@.stack.len() == self.stack@.len());
        }
        let r = self.stack.pop();
        proof {
            if r is Some {
                assert(self@.stack =~= old(self)@.stack.drop_last());
            }
        }
        r
    }

    /// The node was a link node to `target`, which has a writer of its own.
    pub fn on_link(&mut self, owned: bool, target: AbsoluteCapability)
        ensures
            final(self)@ == after_link(old(self)@, owned, target@),
    {
        let ghost tv = target@;
        if owned {
            self.first_level.push(target.writer.dup());
        }
        self.to_null.push(target.dup());
        self.stack.push((target, false));
        proof {
            let w = after_link(old(self)@, owned, tv);
            assert(self@.stack =~= w.stack);
            assert(self@.to_null =~= w.to_null);
            assert(self@.first_level =~= w.first_level);
        }
    }

    /// The node was a directory with these children, in the same writer's space.
    pub fn on_directory(&mut self, owned: bool, children: Vec<AbsoluteCapability>)
        ensures
            final(self)@ == after_directory(old(self)@, owned, caps(children@)),
    {
        let ghost cv = caps(children@);
        let ghost w0 = self@;
        let mut rest = children;
        let ghost n = rest@.len();
        proof {
            assert(self@.stack =~= w0.stack + upcoming(cv, owned).take(0));
        }
        while rest.len() > 0
            invariant
                n == cv.len(),
                rest@.len() <= n,
                caps(rest@) == cv.take(rest@.len() as int),
                self@.to_null == w0.to_null,
                self@.first_level == w0.first_level,
                self@.stack == w0.stack + upcoming(cv, owned).take(n - rest@.len()),
            decreases rest.len(),
        {
            let ghost i = n - rest@.len();
            let ghost before = self@.stack;
            let ghost len = rest@.len();
            proof {
                assert(caps(rest@).last() == rest@.last()@);
            }
            match rest.pop() {
                Some(c) => {
                    let ghost v = (c@, owned);
                    self.stack.push((c, owned));
                    proof {
                        assert(caps(rest@) =~= cv.take(rest@.len() as int));
                        assert(self@.stack =~= before.push(v));
                        assert(upcoming(cv, owned)[i] == v);
                        assert(upcoming(cv, owned).take(i + 1) =~= upcoming(cv, owned).take(i).push(v));
                        assert(self@.stack =~= w0.stack + upcoming(cv, owned).take(i + 1));
                    }
                },
                None => {},
            }
        }
        proof {
            assert(upcoming(cv, owned).take(n as int) =~= upcoming(cv, owned));
        }
    }

    /// The roots of the spaces to delete, in the order to delete them: what is below
    /// another one first, while its owner still authorises it.
    pub fn deletion_order(self) -> (r: (Vec<AbsoluteCapability>, Vec<PublicKeyHash>))
        ensures
            caps(r.0@) == self@.to_null.reverse(),
            hashes(r.1@) == self@.first_level,
    {
        let ghost all = self@.to_null;
        let mut rest = self.to_null;
        let ghost n = rest@.len();
        let mut out: Vec<AbsoluteCapability> = Vec::new();
        proof {
            assert(caps(out@) =~= all.reverse().take(0));
        }
        while rest.len() > 0
            invariant
                n == all.len(),
                rest@.len() <= n,
                caps(rest@) == all.take(rest@.len() as int),
                caps(out@) == all.reverse().take(n - rest@.len()),
            decreases rest.len(),
        {
            let ghost i = n - rest@.len();
            let ghost before = caps(out@);
            proof {
                assert(caps(rest@).last() == rest@.last()@);
            }
            match rest.pop() {
                Some(c) => {
                    let ghost v = c@;
                    out.push(c);
                    proof {
                        assert(caps(rest@) =~= all.take(rest@.len() as int));
                        assert(caps(out@) =~= before.push(v));
                        assert(all.reverse()[i] == v);
                        assert(all.reverse().take(i + 1) =~= before.push(v));
                    }
                },
                None => {},
            }
        }
        proof {
            assert(all.reverse().take(n as int) =~= all.reverse());
        }
        (out, self.first_level)
    }
}

/// A subtree, as the walk finds it: a file, a directory with its children, or a link
/// node whose target has a writer of its own.
pub ghost enum Subtree {
    File,
    Dir(Seq<(CapView, Subtree)>),
    Link(CapView, Box<Subtree>),
}

/// The roots of the spaces in a subtree, a parent before its children.
pub open spec fn spaces(t: Subtree) -> Seq<CapView>
    decreases t,
{
    match t {
        Subtree::File => Seq::empty(),
        Subtree::Dir(v) => all_spaces(v),
        Subtree::Link(target, below) => seq![target] + spaces(*below),
    }
}

/// The roots of the spaces in these subtrees.
pub open spec fn all_spaces(v: Seq<(CapView, Subtree)>) -> Seq<CapView>
    decreases v,
{
    if v.len() == 0 {
        Seq::empty()
    } else {
        spaces(v[0].1) + all_spaces(v.skip(1))
    }
}

/// The writers of the first level in a subtree.
pub open spec fn first_writers(t: Subtree, owned: bool) -> Seq<CborValue>
    decreases t,
{
    match t {
        Subtree::File => Seq::empty(),
        Subtree::Dir(v) => all_first_writers(v, owned),
        Subtree::Link(target, below) => (if owned { seq![target.writer] } else { Seq::empty() }) + first_writers(
            *below,
            false,
        ),
    }
}

/// The writers of the first level in these subtrees.
pub open spec fn all_first_writers(v: Seq<(CapView, Subtree)>, owned: bool) -> Seq<CborValue>
    decreases v,
{
    if v.len() == 0 {
        Seq::empty()
    } else {
        first_writers(v[0].1, owned) + all_first_writers(v.skip(1), owned)
    }
}

/// What is still to be found below the nodes to visit, the last one first.
pub open spec fn spaces_ahead(trees: Seq<Subtree>) -> Seq<CapView>
    decreases trees.len(),
{
    if trees.len() == 0 {
        Seq::empty()
    } else {
        spaces(trees.last()) + spaces_ahead(trees.drop_last())
    }
}

/// The first level that is still to be found, the last node first.
pub open spec fn first_ahead(stack: Seq<(CapView, bool)>, trees: Seq<Subtree>) -> Seq<CborValue>
    decreases trees.len(),
{
    if trees.len() == 0 {
        Seq::empty()
    } else {
        first_writers(trees.last(), stack[trees.len() - 1].1) + first_ahead(stack, trees.drop_last())
    }
}

/// What a walk has found and will find, when `trees` are the subtrees of the nodes it
/// has to visit.
pub open spec fn outcome(w: WalkView, trees: Seq<Subtree>) -> (Seq<CapView>, Seq<CborValue>) {
    (w.to_null + spaces_ahead(trees), w.first_level + first_ahead(w.stack, trees))
}

/// The subtrees of the children in reverse.
pub open spec fn upcoming_trees(v: Seq<(CapView, Subtree)>) -> Seq<Subtree> {
    Seq::new(v.len(), |i: int| v[v.len() - 1 - i].1)
}

/// The capabilities of the children.
pub open spec fn child_caps(v: Seq<(CapView, Subtree)>) -> Seq<CapView> {
    Seq::new(v.len(), |i: int| v[i].0)
}

proof fn lemma_first_ahead_prefix(a: Seq<(CapView, bool)>, b: Seq<(CapView, bool)>, trees: Seq<Subtree>)
    requires
        trees.len() <= a.len(),
        trees.len() <= b.len(),
        forall|i: int| 0 <= i < trees.len() ==> a[i] == b[i],
    ensures
        first_ahead(a, trees) == first_ahead(b, trees),
    decreases trees.len(),
{
    if trees.len() > 0 {
        assert(a[trees.len() - 1] == b[trees.len() - 1]);
        lemma_first_ahead_prefix(a, b, trees.drop_last());
    }
}

proof fn lemma_children_ahead(w: WalkView, rest: Seq<Subtree>, v: Seq<(CapView, Subtree)>, owned: bool)
    requires
        rest.len() == w.stack.len(),
    ensures
        spaces_ahead(rest + upcoming_trees(v)) == all_spaces(v) + spaces_ahead(rest),
        first_ahead(w.stack + upcoming(child_caps(v), owned), rest + upcoming_trees(v)) == all_first_writers(v, owned)
            + first_ahead(w.stack, rest),
    decreases v.len(),
{
    let trees = rest + upcoming_trees(v);
    let stack = w.stack + upcoming(child_caps(v), owned);
    if v.len() == 0 {
        assert(trees =~= rest);
        assert(stack =~= w.stack);
        assert(all_spaces(v) + spaces_ahead(rest) =~= spaces_ahead(rest));
        assert(all_first_writers(v, owned) + first_ahead(w.stack, rest) =~= first_ahead(w.stack, rest));
    } else {
        let tail = v.skip(1);
        lemma_children_ahead(w, rest, tail, owned);
        assert(trees.last() == v[0].1);
        assert(trees.drop_last() =~= rest + upcoming_trees(tail));
        assert(stack[trees.len() - 1].1 == owned);
        let shorter = w.stack + upcoming(child_caps(tail), owned);
        assert forall|i: int| 0 <= i < trees.drop_last().len() implies stack[i] == shorter[i] by {
            if i >= w.stack.len() {
                let k = i - w.stack.len();
                assert(upcoming(child_caps(v), owned)[k] == upcoming(child_caps(tail), owned)[k]);
            }
        }
        lemma_first_ahead_prefix(stack, shorter, trees.drop_last());
        assert(spaces_ahead(trees) =~= all_spaces(v) + spaces_ahead(rest));
        assert(first_ahead(stack, trees) =~= all_first_writers(v, owned) + first_ahead(w.stack, rest));
    }
}

/// No step changes what the walk comes to: when it is over, it has found the writers of
/// the whole subtree, a parent before its children.
pub proof fn law_walk_outcome(w: WalkView, trees: Seq<Subtree>)
    requires
        w.stack.len() == trees.len(),
    ensures
        trees.len() == 0 ==> outcome(w, trees) == (w.to_null, w.first_level),
        trees.len() > 0 ==> match trees.last() {
            Subtree::File => outcome(popped(w), trees.drop_last()) == outcome(w, trees),
            Subtree::Dir(v) => outcome(
                after_directory(popped(w), w.stack.last().1, child_caps(v)),
                trees.drop_last() + upcoming_trees(v),
            ) == outcome(w, trees),
            Subtree::Link(target, below) => outcome(
                after_link(popped(w), w.stack.last().1, target),
                trees.drop_last().push(*below),
            ) == outcome(w, trees),
        },
{
    if trees.len() == 0 {
        assert(w.to_null + spaces_ahead(trees) =~= w.to_null);
        assert(w.first_level + first_ahead(w.stack, trees) =~= w.first_level);
    } else {
        let rest = trees.drop_last();
        let owned = w.stack.last().1;
        let p = popped(w);
        lemma_first_ahead_prefix(w.stack, p.stack, rest);
        match trees.last() {
            Subtree::File => {
                assert(spaces(trees.last()) + spaces_ahead(rest) =~= spaces_ahead(rest));
                assert(first_writers(trees.last(), owned) + first_ahead(w.stack, rest) =~= first_ahead(w.stack, rest));
            },
            Subtree::Dir(v) => {
                lemma_children_ahead(p, rest, v, owned);
            },
            Subtree::Link(target, below) => {
                let n = after_link(p, owned, target);
                let t2 = rest.push(*below);
                assert(t2.drop_last() =~= rest);
                lemma_first_ahead_prefix(n.stack, p.stack, rest);
                assert(n.stack[t2.len() - 1].1 == false);
                assert(n.to_null + spaces_ahead(t2) =~= w.to_null + spaces_ahead(trees));
                assert(n.first_level + first_ahead(n.stack, t2) =~= w.first_level + first_ahead(w.stack, trees));
            },
        }
    }
}

/// In the order of deletion a space comes after everything below it.
pub proof fn law_descendants_go_first(target: CapView, below: Subtree)
    ensures
        spaces(Subtree::Link(target, Box::new(below))).reverse() == spaces(below).reverse().push(target),
{
    assert(spaces(Subtree::Link(target, Box::new(below))).reverse() =~= spaces(below).reverse().push(target));
}

/// The location of a chunk within the writer's champ (map-key + BAT + read key).
#[derive(Debug, PartialEq, Eq)]
pub struct ChunkLoc {
    pub map_key: Vec<u8>,
    pub bat: Option<Bat>,
    pub r_base_key: SymmetricKey,
}

/// The content of a [`ChunkLoc`].
pub ghost struct LocView {
    pub map_key: Seq<u8>,
    pub bat: Option<CborValue>,
    pub r_base_key: CborValue,
}

impl View for ChunkLoc {
    type V = LocView;

    open spec fn view(&self) -> LocView {
        LocView { map_key: self.map_key@, bat: opt(self.bat), r_base_key: self.r_base_key@ }
    }
}

/// Where the children of a directory are, to remove them: links without names are not followed.
pub open spec fn child_places(links: LinksView) -> Seq<LocView> {
    match links {
        LinksView::Named(v) => Seq::new(
            v.len(),
            |i: int| LocView { map_key: v[i].cap.map_key, bat: v[i].cap.bat, r_base_key: v[i].cap.r_base_key },
        ),
        LinksView::Legacy(v) => Seq::empty(),
    }
}

/// Where the children of a directory are, to remove them.
pub fn children_to_remove(links: &ChildrenLinks) -> (r: Vec<ChunkLoc>)
    ensures
        locs(r@) == child_places(links@),
{
    let mut out: Vec<ChunkLoc> = Vec::new();
    match links {
        ChildrenLinks::Named(v) => {
            for i in 0..v.len()
                invariant
                    links@ == LinksView::Named(named_views(v@)),
                    locs(out@) == child_places(links@).take(i as int),
            {
                let ghost before = locs(out@);
                let cap = &v[i].cap;
                let loc = ChunkLoc { map_key: copy_bytes(&cap.map_key), bat: dup_opt(&cap.bat), r_base_key: cap.r_base_key.dup() };
                let ghost lv = loc@;
                out.push(loc);
                proof {
                    assert(named_views(v@)[i as int] == v@[i as int]@);
                    assert(locs(out@) =~= before.push(lv));
                    assert(child_places(links@).take(i as int + 1) =~= before.push(child_places(links@)[i as int]));
                }
            }
            proof {
                assert(locs(out@) =~= child_places(links@));
            }
        },
        ChildrenLinks::Legacy(_) => {
            proof {
                assert(locs(out@) =~= Seq::empty());
            }
        },
    }
    out
}

/// A task of a walk that removes a subtree.
#[derive(Debug, PartialEq, Eq)]
pub enum RemovalTask {
    /// Fetch this node: a file, or the first chunk of a directory.
    Visit(ChunkLoc),
    /// Fetch this further chunk of a directory.
    VisitChunk(ChunkLoc),
    /// Remove the entry with this map key, if there is one.
    Remove(Vec<u8>),
}

/// The content of a [`RemovalTask`].
pub ghost enum TaskView {
    Visit(LocView),
    VisitChunk(LocView),
    Remove(Seq<u8>),
}

impl View for RemovalTask {
    type V = TaskView;

    open spec fn view(&self) -> TaskView {
        match self {
            RemovalTask::Visit(l) => TaskView::Visit(l@),
            RemovalTask::VisitChunk(l) => TaskView::VisitChunk(l@),
            RemovalTask::Remove(k) => TaskView::Remove(k@),
        }
    }
}

/// The contents of a list of tasks.
pub open spec fn tasks(v: Seq<RemovalTask>) -> Seq<TaskView> {
    Seq::new(v.len(), |i: int| v[i]@)
}

/// The contents of a list of locations.
pub open spec fn locs(v: Seq<ChunkLoc>) -> Seq<LocView> {
    Seq::new(v.len(), |i: int| v[i]@)
}

/// A walk that removes every chunk reachable from a node: a file's chunk chain, or a
/// directory and all its descendants, which go before the chunk that links to them.
#[derive(Debug, PartialEq, Eq)]
pub struct RemovalWalk {
    /// The tasks, the next one last.
    pub stack: Vec<RemovalTask>,
}

/// The removals of these keys in reverse, so that the first one comes next.
pub open spec fn removals(keys: Seq<Seq<u8>>) -> Seq<TaskView> {
    Seq::new(keys.len(), |i: int| TaskView::Remove(keys[keys.len() - 1 - i]))
}

/// The visits of these nodes in reverse, so that the first one comes next.
pub open spec fn node_visits(v: Seq<LocView>) -> Seq<TaskView> {
    Seq::new(v.len(), |i: int| TaskView::Visit(v[v.len() - 1 - i]))
}

/// What one chunk of a directory leads to: its children, then its own removal, then
/// the next chunk.
pub open spec fn chunk_tasks(map_key: Seq<u8>, children: Seq<LocView>, next: LocView) -> Seq<TaskView> {
    seq![TaskView::VisitChunk(next), TaskView::Remove(map_key)] + node_visits(children)
}

impl RemovalWalk {
    /// A walk from the node at `loc`.
    pub fn start(loc: ChunkLoc) -> (r: RemovalWalk)
        ensures
            tasks(r.stack@) == seq![TaskView::Visit(loc@)],
    {
        let mut stack: Vec<RemovalTask> = Vec::new();
        stack.push(RemovalTask::Visit(loc));
        proof {
            assert(tasks(stack@) =~= seq![TaskView::Visit(loc@)]);
        }
        RemovalWalk { stack }
    }

    /// The next task.
    pub fn next(&mut self) -> (r: Option<RemovalTask>)
        ensures
            r is None <==> tasks(old(self).stack@).len() == 0,
            r is None ==> final(self).stack@ == old(self).stack@,
            r is Some ==> r->Some_0@ == tasks(old(self).stack@).last() && tasks(final(self).stack@) == tasks(
                old(self).stack@,
            ).drop_last(),
    {
        let r = self.stack.pop();
        proof {
            if r is Some {
                assert(tasks(self.stack@) =~= tasks(old(self).stack@).drop_last());
            }
        }
        r
    }

    /// The node was a file with these chunks.
    pub fn on_file(&mut self, keys: Vec<Vec<u8>>)
        ensures
            tasks(final(self).stack@) == tasks(old(self).stack@) + removals(byte_strings(keys@)),
    {
        let ghost kv = byte_strings(keys@);
        let ghost t0 = tasks(self.stack@);
        let mut rest = keys;
        let ghost n = rest@.len();
        proof {
            assert(t0 + removals(kv).take(0) =~= t0);
        }
        while rest.len() > 0
            invariant
                n == kv.len(),
                rest@.len() <= n,
                byte_strings(rest@) == kv.take(rest@.len() as int),
                tasks(self.stack@) == t0 + removals(kv).take(n - rest@.len()),
            decreases rest.len(),
        {
            let ghost i = n - rest@.len();
            let ghost before = tasks(self.stack@);
            proof {
                assert(byte_strings(rest@).last() == rest@.last()@);
            }
            match rest.pop() {
                Some(k) => {
                    let ghost v = TaskView::Remove(k@);
                    self.stack.push(RemovalTask::Remove(k));
                    proof {
                        assert(byte_strings(rest@) =~= kv.take(rest@.len() as int));
                        assert(tasks(self.stack@) =~= before.push(v));
                        assert(removals(kv)[i] == v);
                        assert(removals(kv).take(i + 1) =~= removals(kv).take(i).push(v));
                        assert(tasks(self.stack@) =~= t0 + removals(kv).take(i + 1));
                    }
                },
                None => {},
            }
        }
        proof {
            assert(removals(kv).take(n as int) =~= removals(kv));
        }
    }

    /// The node was a chunk of a directory with these children, and says where the next
    /// chunk would be.
    pub fn on_directory_chunk(&mut self, map_key: Vec<u8>, children: Vec<ChunkLoc>, next: ChunkLoc)
        ensures
            tasks(final(self).stack@) == tasks(old(self).stack@) + chunk_tasks(map_key@, locs(children@), next@),
    {
        let ghost cv = locs(children@);
        let ghost t0 = tasks(self.stack@);
        let ghost nv = next@;
        let ghost kv = map_key@;
        self.stack.push(RemovalTask::VisitChunk(next));
        self.stack.push(RemovalTask::Remove(map_key));
        let ghost t1 = tasks(self.stack@);
        proof {
            assert(t1 =~= t0 + seq![TaskView::VisitChunk(nv), TaskView::Remove(kv)]);
            assert(t1 + node_visits(cv).take(0) =~= t1);
        }
        let mut rest = children;
        let ghost n = rest@.len();
        while rest.len() > 0
            invariant
                n == cv.len(),
                rest@.len() <= n,
                locs(rest@) == cv.take(rest@.len() as int),
                tasks(self.stack@) == t1 + node_visits(cv).take(n - rest@.len()),
            decreases rest.len(),
        {
            let ghost i = n - rest@.len();
            let ghost before = tasks(self.stack@);
            proof {
                assert(locs(rest@).last() == rest@.last()@);
            }
            match rest.pop() {
                Some(l) => {
                    let ghost v = TaskView::Visit(l@);
                    self.stack.push(RemovalTask::Visit(l));
                    proof {
                        assert(locs(rest@) =~= cv.take(rest@.len() as int));
                        assert(tasks(self.stack@) =~= before.push(v));
                        assert(node_visits(cv)[i] == v);
                        assert(node_visits(cv).take(i + 1) =~= node_visits(cv).take(i).push(v));
                        assert(tasks(self.stack@) =~= t1 + node_visits(cv).take(i + 1));
                    }
                },
                None => {},
            }
        }
        proof {
            assert(node_visits(cv).take(n as int) =~= node_visits(cv));
            assert(tasks(self.stack@) =~= t0 + chunk_tasks(kv, cv, nv));
        }
    }
}

/// How many chunks of a file have to be removed: without a stream secret only the first
/// can be found.
pub fn chunks_to_remove(size: u64, has_stream_secret: bool) -> (n: u64)
    ensures
        n == if has_stream_secret { crate::files::chunks::chunks_of(size as nat) } else { 1 },
{
    if has_stream_secret {
        chunk_count(size)
    } else {
        1
    }
}

/// What a removal finds at a node: nothing, a file by the keys of its chunks, or a
/// directory by its chunks, each with its key, its children, and where the next is.
pub ghost enum Removable {
    Nothing,
    File(Seq<Seq<u8>>),
    Dir(Seq<(Seq<u8>, Seq<(LocView, Removable)>, LocView)>),
}

/// The keys that are removed for a node, in order.
pub open spec fn removed_keys(t: Removable) -> Seq<Seq<u8>>
    decreases t,
{
    match t {
        Removable::Nothing => Seq::empty(),
        Removable::File(keys) => keys,
        Removable::Dir(v) => removed_chunks(v),
    }
}

/// The keys that are removed for the chunks of a directory: what is below a chunk goes
/// before the chunk.
pub open spec fn removed_chunks(v: Seq<(Seq<u8>, Seq<(LocView, Removable)>, LocView)>) -> Seq<Seq<u8>>
    decreases v,
{
    if v.len() == 0 {
        Seq::empty()
    } else {
        removed_children(v[0].1) + (seq![v[0].0] + removed_chunks(v.skip(1)))
    }
}

/// The keys that are removed for these children.
pub open spec fn removed_children(v: Seq<(LocView, Removable)>) -> Seq<Seq<u8>>
    decreases v,
{
    if v.len() == 0 {
        Seq::empty()
    } else {
        removed_keys(v[0].1) + removed_children(v.skip(1))
    }
}

/// The keys that a task removes, when `t` is what it finds.
pub open spec fn task_keys(task: TaskView, t: Removable) -> Seq<Seq<u8>> {
    match task {
        TaskView::Remove(k) => seq![k],
        _ => removed_keys(t),
    }
}

/// The keys that these tasks remove, the last one first.
pub open spec fn keys_ahead(stack: Seq<TaskView>, found: Seq<Removable>) -> Seq<Seq<u8>>
    decreases stack.len(),
{
    if stack.len() == 0 {
        Seq::empty()
    } else {
        task_keys(stack.last(), found[stack.len() - 1]) + keys_ahead(stack.drop_last(), found)
    }
}

/// What the children are, in reverse.
pub open spec fn upcoming_children(v: Seq<(LocView, Removable)>) -> Seq<Removable> {
    Seq::new(v.len(), |i: int| v[v.len() - 1 - i].1)
}

/// The locations of the children.
pub open spec fn child_locs(v: Seq<(LocView, Removable)>) -> Seq<LocView> {
    Seq::new(v.len(), |i: int| v[i].0)
}

proof fn lemma_keys_prefix(stack: Seq<TaskView>, a: Seq<Removable>, b: Seq<Removable>)
    requires
        stack.len() <= a.len(),
        stack.len() <= b.len(),
        forall|i: int| 0 <= i < stack.len() ==> a[i] == b[i],
    ensures
        keys_ahead(stack, a) == keys_ahead(stack, b),
    decreases stack.len(),
{
    if stack.len() > 0 {
        assert(a[stack.len() - 1] == b[stack.len() - 1]);
        lemma_keys_prefix(stack.drop_last(), a, b);
    }
}

proof fn lemma_removals_ahead(stack: Seq<TaskView>, found: Seq<Removable>, keys: Seq<Seq<u8>>, pad: Seq<Removable>)
    requires
        stack.len() == found.len(),
        pad.len() == keys.len(),
    ensures
        keys_ahead(stack + removals(keys), found + pad) == keys + keys_ahead(stack, found),
    decreases keys.len(),
{
    let s = stack + removals(keys);
    let f = found + pad;
    if keys.len() == 0 {
        assert(s =~= stack);
        assert(f =~= found);
        assert(keys + keys_ahead(stack, found) =~= keys_ahead(stack, found));
    } else {
        let tail = keys.skip(1);
        lemma_removals_ahead(stack, found, tail, pad.drop_last());
        assert(s.last() == TaskView::Remove(keys[0]));
        assert(s.drop_last() =~= stack + removals(tail));
        lemma_keys_prefix(s.drop_last(), f, found + pad.drop_last());
        assert(keys_ahead(s, f) =~= keys + keys_ahead(stack, found));
    }
}

proof fn lemma_visits_ahead(stack: Seq<TaskView>, found: Seq<Removable>, v: Seq<(LocView, Removable)>)
    requires
        stack.len() == found.len(),
    ensures
        keys_ahead(stack + node_visits(child_locs(v)), found + upcoming_children(v)) == removed_children(v)
            + keys_ahead(stack, found),
    decreases v.len(),
{
    let s = stack + node_visits(child_locs(v));
    let f = found + upcoming_children(v);
    if v.len() == 0 {
        assert(s =~= stack);
        assert(f =~= found);
        assert(removed_children(v) + keys_ahead(stack, found) =~= keys_ahead(stack, found));
    } else {
        let tail = v.skip(1);
        lemma_visits_ahead(stack, found, tail);
        assert(s.last() == TaskView::Visit(v[0].0));
        assert(f[s.len() - 1] == v[0].1);
        assert(s.drop_last() =~= stack + node_visits(child_locs(tail)));
        let g = found + upcoming_children(tail);
        assert forall|i: int| 0 <= i < s.drop_last().len() implies f[i] == g[i] by {
            if i >= found.len() {
                let k = i - found.len();
                assert(upcoming_children(v)[k] == upcoming_children(tail)[k]);
            }
        }
        lemma_keys_prefix(s.drop_last(), f, g);
        assert(keys_ahead(s, f) =~= removed_children(v) + keys_ahead(stack, found));
    }
}

/// No step changes which keys the walk removes, nor their order: it removes every chunk
/// of the subtree, what is below a chunk of a directory before the chunk.
pub proof fn law_removal_order(stack: Seq<TaskView>, found: Seq<Removable>)
    requires
        stack.len() == found.len(),
        stack.len() > 0,
        !(stack.last() is Remove),
    ensures
        ({
            let rest = stack.drop_last();
            let below = found.drop_last();
            let ahead = keys_ahead(stack, found);
            match found.last() {
                Removable::Nothing => keys_ahead(rest, below) == ahead,
                Removable::File(keys) => forall|pad: Seq<Removable>|
                    pad.len() == keys.len() ==> #[trigger] keys_ahead(rest + removals(keys), below + pad) == ahead,
                Removable::Dir(v) => if v.len() == 0 {
                    keys_ahead(rest, below) == ahead
                } else {
                    keys_ahead(
                        rest + chunk_tasks(v[0].0, child_locs(v[0].1), v[0].2),
                        below + (seq![Removable::Dir(v.skip(1)), Removable::Nothing] + upcoming_children(v[0].1)),
                    ) == ahead
                },
            }
        }),
{
    let rest = stack.drop_last();
    let below = found.drop_last();
    let ahead = keys_ahead(stack, found);
    lemma_keys_prefix(rest, found, below);
    match found.last() {
        Removable::Nothing => {
            assert(keys_ahead(rest, below) =~= ahead);
        },
        Removable::File(keys) => {
            assert forall|pad: Seq<Removable>| pad.len() == keys.len() implies #[trigger] keys_ahead(
                rest + removals(keys),
                below + pad,
            ) == ahead by {
                lemma_removals_ahead(rest, below, keys, pad);
            }
        },
        Removable::Dir(v) => {
            if v.len() == 0 {
                assert(keys_ahead(rest, below) =~= ahead);
            } else {
                let (key, children, next) = v[0];
                let two = seq![TaskView::VisitChunk(next), TaskView::Remove(key)];
                let two_found = seq![Removable::Dir(v.skip(1)), Removable::Nothing];
                let s2 = rest + two;
                let f2 = below + two_found;
                lemma_visits_ahead(s2, f2, children);
                assert(rest + chunk_tasks(key, child_locs(children), next) =~= s2 + node_visits(child_locs(children)));
                assert(below + (two_found + upcoming_children(children)) =~= f2 + upcoming_children(children));
                let s1 = s2.drop_last();
                assert(s1.drop_last() =~= rest);
                lemma_keys_prefix(rest, f2, below);
                assert(s1.last() == TaskView::VisitChunk(next));
                assert(f2[s1.len() - 1] == Removable::Dir(v.skip(1)));
                assert(keys_ahead(s1, f2) == removed_chunks(v.skip(1)) + keys_ahead(rest, below));
                assert(keys_ahead(s2, f2) =~= seq![key] + keys_ahead(s1, f2));
                assert(removed_children(children) + keys_ahead(s2, f2) =~= ahead);
            }
        },
    }
}

/// A search for a place in a subtree, used to keep a folder from being moved into
/// itself.
#[derive(Debug, PartialEq, Eq)]
pub struct SubtreeSearch {
    /// The nodes to visit, the next one last.
    pub stack: Vec<AbsoluteCapability>,
    pub found: bool,
}

impl SubtreeSearch {
    /// A search from `root`.
    pub fn start(root: &AbsoluteCapability) -> (r: SubtreeSearch)
        ensures
            caps(r.stack@) == seq![root@],
            !r.found,
    {
        let mut stack: Vec<AbsoluteCapability> = Vec::new();
        stack.push(root.dup());
        proof {
            assert(caps(stack@) =~= seq![root@]);
        }
        SubtreeSearch { stack, found: false }
    }

    /// The node to visit next. One that is at the place of `candidate` ends the search.
    pub fn next(&mut self, candidate: &AbsoluteCapability) -> (r: Option<AbsoluteCapability>)
        ensures
            old(self).found || old(self).stack@.len() == 0 ==> r is None && final(self).found == old(self).found
                && final(self).stack@ == old(self).stack@,
            !old(self).found && old(self).stack@.len() > 0 ==> {
                let top = caps(old(self).stack@).last();
                &&& caps(final(self).stack@) == caps(old(self).stack@).drop_last()
                &&& final(self).found == same_place(top, candidate@)
                &&& final(self).found ==> r is None
                &&& !final(self).found ==> r is Some && r->Some_0@ == top
            },
    {
        if self.found {
            return None;
        }
        match self.stack.pop() {
            None => None,
            Some(c) => {
                proof {
                    assert(caps(self.stack@) =~= caps(old(self).stack@).drop_last());
                }
                if is_same_place(&c, candidate) {
                    self.found = true;
                    return None;
                }
                Some(c)
            },
        }
    }

    /// The node was a directory with these children.
    pub fn on_directory(&mut self, children: Vec<AbsoluteCapability>)
        ensures
            final(self).found == old(self).found,
            caps(final(self).stack@) == caps(old(self).stack@) + caps(children@).reverse(),
    {
        let ghost cv = caps(children@);
        let ghost s0 = caps(self.stack@);
        let mut rest = children;
        let ghost n = rest@.len();
        proof {
            assert(s0 + cv.reverse().take(0) =~= s0);
        }
        while rest.len() > 0
            invariant
                n == cv.len(),
                rest@.len() <= n,
                self.found == old(self).found,
                caps(rest@) == cv.take(rest@.len() as int),
                caps(self.stack@) == s0 + cv.reverse().take(n - rest@.len()),
            decreases rest.len(),
        {
            let ghost i = n - rest@.len();
            let ghost before = caps(self.stack@);
            proof {
                assert(caps(rest@).last() == rest@.last()@);
            }
            match rest.pop() {
                Some(c) => {
                    let ghost v = c@;
                    self.stack.push(c);
                    proof {
                        assert(caps(rest@) =~= cv.take(rest@.len() as int));
                        assert(caps(self.stack@) =~= before.push(v));
                        assert(cv.reverse()[i] == v);
                        assert(cv.reverse().take(i + 1) =~= cv.reverse().take(i).push(v));
                        assert(caps(self.stack@) =~= s0 + cv.reverse().take(i + 1));
                    }
                },
                None => {},
            }
        }
        proof {
            assert(cv.reverse().take(n as int) =~= cv.reverse());
        }
    }
}

/// The children of a directory to visit are those that its links name, in their order, each with
/// the keys of its link.
pub proof fn law_child_places(v: Seq<NamedView>, i: int)
    requires
        0 <= i < v.len(),
    ensures
        child_places(LinksView::Named(v)).len() == v.len(),
        child_places(LinksView::Named(v))[i].map_key == v[i].cap.map_key,
        child_places(LinksView::Named(v))[i].bat == v[i].cap.bat,
        child_places(LinksView::Named(v))[i].r_base_key == v[i].cap.r_base_key,
{
}

/// A link to another writer's space: its target is taken apart and visited next, and what is below
/// it is not of the first level. It is of the first level itself if the walk had met no link yet.
pub proof fn law_link_is_followed(w: WalkView, owned: bool, target: CapView)
    ensures
        after_link(w, owned, target).stack.last() == (target, false),
        after_link(w, owned, target).stack.drop_last() == w.stack,
        after_link(w, owned, target).to_null == w.to_null.push(target),
        after_link(w, true, target).first_level == w.first_level.push(target.writer),
        after_link(w, false, target).first_level == w.first_level,
{
    assert(w.stack.push((target, false)).drop_last() =~= w.stack);
}

/// The children of a directory are visited first to last, before all else that waits, and are of
/// the level of their directory.
pub proof fn law_children_are_next(w: WalkView, owned: bool, children: Seq<CapView>, i: int)
    requires
        0 <= i < children.len(),
    ensures
        ({
            let s = after_directory(w, owned, children);
            &&& s.stack.len() == w.stack.len() + children.len()
            &&& s.stack.take(w.stack.len() as int) == w.stack
            &&& s.stack[s.stack.len() - 1 - i] == (children[i], owned)
            &&& s.to_null == w.to_null
            &&& s.first_level == w.first_level
        }),
{
    assert(after_directory(w, owned, children).stack.take(w.stack.len() as int) =~= w.stack);
}

/// Every space below a directory is among its spaces, and so is the space of a link.
pub proof fn law_every_space_is_found(v: Seq<(CapView, Subtree)>, i: int, c: CapView, target: CapView, below: Subtree)
    requires
        0 <= i < v.len(),
    ensures
        spaces(v[i].1).contains(c) ==> spaces(Subtree::Dir(v)).contains(c),
        spaces(Subtree::Link(target, Box::new(below))).contains(target),
        spaces(below).contains(c) ==> spaces(Subtree::Link(target, Box::new(below))).contains(c),
    decreases v.len(),
{
    lemma_all_spaces(v, i, c);
    let l = Subtree::Link(target, Box::new(below));
    assert(spaces(l)[0] == target);
    if spaces(below).contains(c) {
        let k = choose|k: int| 0 <= k < spaces(below).len() && spaces(below)[k] == c;
        assert(spaces(l)[k + 1] == c);
    }
}

proof fn lemma_all_spaces(v: Seq<(CapView, Subtree)>, i: int, c: CapView)
    requires
        0 <= i < v.len(),
    ensures
        spaces(v[i].1).contains(c) ==> all_spaces(v).contains(c),
    decreases v.len(),
{
    let a = spaces(v[0].1);
    let b = all_spaces(v.skip(1));
    if spaces(v[i].1).contains(c) {
        if i == 0 {
            let k = choose|k: int| 0 <= k < a.len() && a[k] == c;
            assert((a + b)[k] == c);
        } else {
            lemma_all_spaces(v.skip(1), i - 1, c);
            let k = choose|k: int| 0 <= k < b.len() && b[k] == c;
            assert((a + b)[a.len() + k] == c);
        }
    }
}

/// The writers of the first level of a directory that is walked are those of the links in it, and
/// none below such a link.
pub proof fn law_first_level(target: CapView, below: Subtree, v: Seq<(CapView, Subtree)>)
    ensures
        first_writers(Subtree::Link(target, Box::new(below)), true) == seq![target.writer],
        first_writers(Subtree::Link(target, Box::new(below)), false).len() == 0,
        first_writers(Subtree::Dir(v), false).len() == 0,
        first_writers(Subtree::File, true).len() == 0,
        v.len() > 0 ==> first_writers(Subtree::Dir(v), true) == first_writers(v[0].1, true) + first_writers(
            Subtree::Dir(v.skip(1)),
            true,
        ),
{
    lemma_no_writers(below);
    lemma_no_writers(Subtree::Dir(v));
    let t = Subtree::Link(target, Box::new(below));
    assert(first_writers(t, true) =~= seq![target.writer]);
    assert(first_writers(Subtree::Dir(v), true) == all_first_writers(v, true));
    assert(first_writers(Subtree::Dir(v.skip(1)), true) == all_first_writers(v.skip(1), true));
}

proof fn lemma_no_writers(t: Subtree)
    ensures
        first_writers(t, false).len() == 0,
    decreases t,
{
    match t {
        Subtree::File => {},
        Subtree::Dir(v) => lemma_no_writers_in(v),
        Subtree::Link(target, below) => lemma_no_writers(*below),
    }
}

proof fn lemma_no_writers_in(v: Seq<(CapView, Subtree)>)
    ensures
        all_first_writers(v, false).len() == 0,
    decreases v,
{
    if v.len() > 0 {
        lemma_no_writers(v[0].1);
        lemma_no_writers_in(v.skip(1));
    }
}

/// Everything of a directory that is removed goes: each chunk of its own, and all that goes of each
/// child.
pub proof fn law_everything_is_removed(
    v: Seq<(Seq<u8>, Seq<(LocView, Removable)>, LocView)>,
    i: int,
    j: int,
    key: Seq<u8>,
)
    requires
        0 <= i < v.len(),
        0 <= j < v[i].1.len(),
    ensures
        removed_keys(Removable::Dir(v)).contains(v[i].0),
        removed_keys(v[i].1[j].1).contains(key) ==> removed_keys(Removable::Dir(v)).contains(key),
        removed_keys(Removable::Nothing).len() == 0,
        removed_keys(Removable::File(seq![key])) == seq![key],
    decreases v.len(),
{
    lemma_removed_chunks(v, i, j, key);
}

proof fn lemma_removed_chunks(v: Seq<(Seq<u8>, Seq<(LocView, Removable)>, LocView)>, i: int, j: int, key: Seq<u8>)
    requires
        0 <= i < v.len(),
        0 <= j < v[i].1.len(),
    ensures
        removed_chunks(v).contains(v[i].0),
        removed_keys(v[i].1[j].1).contains(key) ==> removed_chunks(v).contains(key),
    decreases v.len(),
{
    let a = removed_children(v[0].1);
    let b = removed_chunks(v.skip(1));
    let all = a + (seq![v[0].0] + b);
    if i == 0 {
        assert(all[a.len() as int] == v[0].0);
        if removed_keys(v[i].1[j].1).contains(key) {
            lemma_removed_children(v[0].1, j, key);
            let k = choose|k: int| 0 <= k < a.len() && a[k] == key;
            assert(all[k] == key);
        }
    } else {
        lemma_removed_chunks(v.skip(1), i - 1, j, key);
        let k = choose|k: int| 0 <= k < b.len() && b[k] == v[i].0;
        assert(all[a.len() + 1 + k] == v[i].0);
        if removed_keys(v[i].1[j].1).contains(key) {
            let k = choose|k: int| 0 <= k < b.len() && b[k] == key;
            assert(all[a.len() + 1 + k] == key);
        }
    }
}

proof fn lemma_removed_children(v: Seq<(LocView, Removable)>, j: int, key: Seq<u8>)
    requires
        0 <= j < v.len(),
        removed_keys(v[j].1).contains(key),
    ensures
        removed_children(v).contains(key),
    decreases v.len(),
{
    let a = removed_keys(v[0].1);
    let b = removed_children(v.skip(1));
    if j == 0 {
        let k = choose|k: int| 0 <= k < a.len() && a[k] == key;
        assert((a + b)[k] == key);
    } else {
        lemma_removed_children(v.skip(1), j - 1, key);
        let k = choose|k: int| 0 <= k < b.len() && b[k] == key;
        assert((a + b)[a.len() + k] == key);
    }
}

/// What waits after a chunk of a directory: first its children, then its own removal, then the next
/// chunk. The chunks of a file go first to last.
pub proof fn law_what_waits(map_key: Seq<u8>, children: Seq<LocView>, next: LocView, keys: Seq<Seq<u8>>, i: int)
    ensures
        chunk_tasks(map_key, children, next).len() == children.len() + 2,
        chunk_tasks(map_key, children, next)[0] == TaskView::VisitChunk(next),
        chunk_tasks(map_key, children, next)[1] == TaskView::Remove(map_key),
        0 <= i < children.len() ==> chunk_tasks(map_key, children, next)[children.len() + 1 - i] == TaskView::Visit(
            children[i],
        ),
        0 <= i < keys.len() ==> removals(keys)[keys.len() - 1 - i] == TaskView::Remove(keys[i]),
{
}

} // verus!
