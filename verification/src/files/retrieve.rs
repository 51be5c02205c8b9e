//! Retrieving the metadata of many capabilities at once.
use vstd::prelude::*;

use crate::cache::{after_get, law_get_keeps_entries, lookup, CryptreeCache, Groups};
use crate::capability::{AbsoluteCapability, CapView};
use crate::cbor::CborValue;
use crate::cryptree::node::{CryptreeNode, NodeView};
use crate::cryptree::properties::{FileProperties, PropsView};

verus! {

/// A capability resolved to its cryptree node and decrypted properties.
#[derive(Debug, PartialEq, Eq)]
pub struct RetrievedCapability {
    pub cap: AbsoluteCapability,
    pub node: CryptreeNode,
    pub properties: FileProperties,
}

/// What a [`RetrievedCapability`] says of a file.
pub ghost struct RetrievedView {
    pub cap: CapView,
    pub node: NodeView,
    pub properties: PropsView,
}

impl View for RetrievedCapability {
    type V = RetrievedView;

    open spec fn view(&self) -> RetrievedView {
        RetrievedView { cap: self.cap@, node: self.node@, properties: self.properties@ }
    }
}

/// The contents of a list of what was retrieved.
pub open spec fn retrieved_views(v: Seq<RetrievedCapability>) -> Seq<RetrievedView> {
    Seq::new(v.len(), |i: int| v[i]@)
}

/// The contents of a list of capabilities.
pub open spec fn cap_views(v: Seq<AbsoluteCapability>) -> Seq<CapView> {
    Seq::new(v.len(), |i: int| v[i]@)
}

/// The contents of groups of capabilities.
pub open spec fn group_views(v: Seq<Vec<AbsoluteCapability>>) -> Seq<Seq<CapView>> {
    Seq::new(v.len(), |i: int| cap_views(v[i]@))
}

/// The groups with one more capability: last in the group of its writer, or in a new one.
pub open spec fn with_cap(g: Seq<Seq<CapView>>, c: CapView) -> Seq<Seq<CapView>>
    decreases g.len(),
{
    if g.len() == 0 {
        seq![seq![c]]
    } else if g[0].len() > 0 && g[0][0].writer == c.writer {
        seq![g[0].push(c)] + g.skip(1)
    } else {
        seq![g[0]] + with_cap(g.skip(1), c)
    }
}

/// Capabilities in groups that share a writer, and with it a champ tree.
pub open spec fn grouped(v: Seq<CapView>) -> Seq<Seq<CapView>>
    decreases v.len(),
{
    if v.len() == 0 {
        Seq::empty()
    } else {
        with_cap(grouped(v.drop_last()), v.last())
    }
}

fn add_cap(g: &mut Vec<Vec<AbsoluteCapability>>, c: AbsoluteCapability)
    ensures
        group_views(final(g)@) == with_cap(group_views(old(g)@), c@),
{
    let ghost start = group_views(g@);
    let ghost cv = c@;
    let mut i: usize = 0;
    proof {
        assert(start.skip(0) =~= start);
        assert(start.take(0) + with_cap(start.skip(0), cv) =~= with_cap(start, cv));
    }
    while i < g.len()
        invariant
            i <= g.len(),
            group_views(g@) == start,
            start == group_views(old(g)@),
            cv == c@,
            start.take(i as int) + with_cap(start.skip(i as int), cv) == with_cap(start, cv),
        decreases g.len() - i,
    {
        let ghost rest = start.skip(i as int);
        proof {
            assert(rest[0] == cap_views(g[i as int]@));
            assert(rest[0].len() == g[i as int]@.len());
        }
        if g[i].len() > 0 && g[i][0].writer.same(&c.writer) {
            let mut group = g.remove(i);
            let ghost before = cap_views(group@);
            group.push(c);
            proof {
                assert(cap_views(group@) =~= before.push(cv));
            }
            g.insert(i, group);
            proof {
                assert(group_views(g@) =~= start.take(i as int) + (seq![before.push(cv)] + rest.skip(1)));
            }
            return;
        }
        proof {
            assert(rest.skip(1) =~= start.skip(i as int + 1));
            assert(start.take(i as int) + (seq![rest[0]] + with_cap(rest.skip(1), cv)) =~= start.take(i as int + 1)
                + with_cap(rest.skip(1), cv));
        }
        i = i + 1;
    }
    let mut group: Vec<AbsoluteCapability> = Vec::new();
    group.push(c);
    proof {
        assert(cap_views(group@) =~= seq![cv]);
        assert(start.skip(i as int) =~= Seq::empty());
    }
    g.push(group);
    proof {
        assert(group_views(g@) =~= start.take(i as int) + seq![seq![cv]]);
    }
}

/// Groups capabilities by writer: all that are looked up in one call share a writer.
pub fn group_by_writer(caps: &[AbsoluteCapability]) -> (r: Vec<Vec<AbsoluteCapability>>)
    ensures
        group_views(r@) == grouped(cap_views(caps@)),
{
    let ghost all = cap_views(caps@);
    let mut g: Vec<Vec<AbsoluteCapability>> = Vec::new();
    proof {
        assert(all.take(0) =~= Seq::empty());
        assert(group_views(g@) =~= Seq::empty());
    }
    for i in 0..caps.len()
        invariant
            all == cap_views(caps@),
            group_views(g@) == grouped(all.take(i as int)),
    {
        proof {
            assert(all.take(i as int + 1).drop_last() =~= all.take(i as int));
            assert(all.take(i as int + 1).last() == caps[i as int]@);
        }
        add_cap(&mut g, caps[i].dup());
    }
    proof {
        assert(all.take(all.len() as int) =~= all);
    }
    g
}

/// The capabilities of a writer among these, in order.
pub open spec fn of_writer(v: Seq<CapView>, writer: CborValue) -> Seq<CapView>
    decreases v.len(),
{
    if v.len() == 0 {
        Seq::empty()
    } else if v.last().writer == writer {
        of_writer(v.drop_last(), writer).push(v.last())
    } else {
        of_writer(v.drop_last(), writer)
    }
}

/// Each group is of one writer, and no two groups are of the same.
pub open spec fn one_writer_each(g: Seq<Seq<CapView>>) -> bool {
    &&& forall|i: int| 0 <= i < g.len() ==> (#[trigger] g[i]).len() > 0
    &&& forall|i: int, j: int| 0 <= i < j < g.len() ==> (#[trigger] g[i])[0].writer != (#[trigger] g[j])[0].writer
}

/// The group of a writer.
pub open spec fn group_for(g: Seq<Seq<CapView>>, writer: CborValue) -> Seq<CapView>
    decreases g.len(),
{
    if g.len() == 0 {
        Seq::empty()
    } else if g[0].len() > 0 && g[0][0].writer == writer {
        g[0]
    } else {
        group_for(g.skip(1), writer)
    }
}

proof fn lemma_with_cap(g: Seq<Seq<CapView>>, c: CapView, writer: CborValue)
    requires
        one_writer_each(g),
    ensures
        one_writer_each(with_cap(g, c)),
        with_cap(g, c).len() >= g.len(),
        with_cap(g, c).len() <= g.len() + 1,
        forall|i: int| 0 <= i < g.len() ==> (#[trigger] with_cap(g, c)[i])[0] == g[i][0],
        with_cap(g, c).len() > g.len() ==> with_cap(g, c).last() == seq![c] && forall|i: int|
            0 <= i < g.len() ==> (#[trigger] g[i])[0].writer != c.writer,
        group_for(with_cap(g, c), writer) == if c.writer == writer {
            group_for(g, writer).push(c)
        } else {
            group_for(g, writer)
        },
    decreases g.len(),
{
    let w = with_cap(g, c);
    if g.len() == 0 {
        assert(w.skip(1) =~= Seq::empty());
        assert(group_for(w.skip(1), writer) == Seq::<CapView>::empty());
        assert(Seq::<CapView>::empty().push(c) =~= seq![c]);
    } else if g[0].len() > 0 && g[0][0].writer == c.writer {
        assert(w.skip(1) =~= g.skip(1));
        assert(w[0] == g[0].push(c));
        assert forall|i: int| 0 < i < g.len() implies w[i] == g[i] by {}
    } else {
        let rest = g.skip(1);
        assert(one_writer_each(rest)) by {
            assert forall|i: int| 0 <= i < rest.len() implies (#[trigger] rest[i]).len() > 0 by {
                assert(rest[i] == g[i + 1]);
            }
            assert forall|i: int, j: int| 0 <= i < j < rest.len() implies (#[trigger] rest[i])[0].writer != (
            #[trigger] rest[j])[0].writer by {
                assert(rest[i] == g[i + 1] && rest[j] == g[j + 1]);
            }
        }
        lemma_with_cap(rest, c, writer);
        let x = with_cap(rest, c);
        assert(w.skip(1) =~= x);
        assert forall|i: int| 0 < i < w.len() implies w[i] == x[i - 1] by {}
        assert forall|i: int| 0 <= i < g.len() implies (#[trigger] w[i])[0] == g[i][0] by {
            if i > 0 {
                assert(x[i - 1][0] == rest[i - 1][0]);
            }
        }
        assert forall|i: int| 0 <= i < w.len() implies (#[trigger] w[i]).len() > 0 by {
            if i > 0 {
                assert(w[i] == x[i - 1]);
            }
        }
        assert forall|i: int, j: int| 0 <= i < j < w.len() implies (#[trigger] w[i])[0].writer != (
        #[trigger] w[j])[0].writer by {
            assert(w[j] == x[j - 1]);
            if i > 0 {
                assert(w[i] == x[i - 1]);
            } else if j - 1 < rest.len() {
                assert(x[j - 1][0] == rest[j - 1][0]);
                assert(rest[j - 1] == g[j]);
            } else {
                assert(x.last() == seq![c]);
            }
        }
        if w.len() > g.len() {
            assert(w.last() == x.last());
            assert forall|i: int| 0 <= i < g.len() implies (#[trigger] g[i])[0].writer != c.writer by {
                if i > 0 {
                    assert(rest[i - 1] == g[i]);
                }
            }
        }
    }
}

/// Grouping keeps every capability, with those of its writer and in order, and puts no
/// other one with them.
pub proof fn law_grouped_by_writer(v: Seq<CapView>, writer: CborValue)
    ensures
        one_writer_each(grouped(v)),
        group_for(grouped(v), writer) == of_writer(v, writer),
    decreases v.len(),
{
    if v.len() > 0 {
        law_grouped_by_writer(v.drop_last(), writer);
        lemma_with_cap(grouped(v.drop_last()), v.last(), writer);
    }
}

/// What a cache says of the capabilities of one writer.
#[derive(Debug, PartialEq, Eq)]
pub struct CacheSplit {
    /// Those whose node is cached, with it.
    pub hits: Vec<(AbsoluteCapability, CryptreeNode)>,
    /// Those that are known to have none.
    pub absent: Vec<AbsoluteCapability>,
    /// Those that have to be fetched.
    pub remaining: Vec<AbsoluteCapability>,
}

/// The contents of cached nodes.
pub open spec fn hit_views(v: Seq<(AbsoluteCapability, CryptreeNode)>) -> Seq<(CapView, NodeView)> {
    Seq::new(v.len(), |i: int| (v[i].0@, v[i].1@))
}

/// The capabilities whose node is cached, with it.
pub open spec fn cached(g: Groups, root: Seq<u8>, v: Seq<CapView>) -> Seq<(CapView, NodeView)>
    decreases v.len(),
{
    if v.len() == 0 {
        Seq::empty()
    } else {
        let init = cached(g, root, v.drop_last());
        match lookup(g, root, v.last().map_key) {
            Some(Some(node)) => init.push((v.last(), node@)),
            _ => init,
        }
    }
}

/// The capabilities that are known to have no node, or, if `known` is false, those of which
/// nothing is known.
pub open spec fn not_cached(g: Groups, root: Seq<u8>, v: Seq<CapView>, known: bool) -> Seq<CapView>
    decreases v.len(),
{
    if v.len() == 0 {
        Seq::empty()
    } else {
        let init = not_cached(g, root, v.drop_last(), known);
        match lookup(g, root, v.last().map_key) {
            Some(None) => if known {
                init.push(v.last())
            } else {
                init
            },
            None => if known {
                init
            } else {
                init.push(v.last())
            },
            _ => init,
        }
    }
}

/// The cache after these capabilities were looked up in it, in order.
pub open spec fn after_lookups(g: Groups, root: Seq<u8>, v: Seq<CapView>) -> Groups
    decreases v.len(),
{
    if v.len() == 0 {
        g
    } else {
        after_get(after_lookups(g, root, v.drop_last()), root, v.last().map_key)
    }
}

/// Serves what is cached without any network, and tells the rest apart.
pub fn split_by_cache(cache: &mut CryptreeCache, root: &[u8], links: &[AbsoluteCapability]) -> (r: CacheSplit)
    requires
        old(cache).wf(),
    ensures
        final(cache).wf(),
        final(cache)@ == after_lookups(old(cache)@, root@, cap_views(links@)),
        hit_views(r.hits@) == cached(old(cache)@, root@, cap_views(links@)),
        cap_views(r.absent@) == not_cached(old(cache)@, root@, cap_views(links@), true),
        cap_views(r.remaining@) == not_cached(old(cache)@, root@, cap_views(links@), false),
{
    let ghost g = cache@;
    let ghost all = cap_views(links@);
    let mut hits: Vec<(AbsoluteCapability, CryptreeNode)> = Vec::new();
    let mut absent: Vec<AbsoluteCapability> = Vec::new();
    let mut remaining: Vec<AbsoluteCapability> = Vec::new();
    proof {
        assert(all.take(0) =~= Seq::empty());
        assert(hit_views(hits@) =~= Seq::empty());
        assert(cap_views(absent@) =~= Seq::empty());
    }
    for i in 0..links.len()
        invariant
            all == cap_views(links@),
            cache.wf(),
            cache@ == after_lookups(g, root@, all.take(i as int)),
            forall|k: Seq<u8>| #[trigger] lookup(cache@, root@, k) == lookup(g, root@, k),
            hit_views(hits@) == cached(g, root@, all.take(i as int)),
            cap_views(absent@) == not_cached(g, root@, all.take(i as int), true),
            cap_views(remaining@) == not_cached(g, root@, all.take(i as int), false),
    {
        let ghost before = cache@;
        let ghost hv = hit_views(hits@);
        let ghost av = cap_views(absent@);
        let ghost mv = cap_views(remaining@);
        let ghost link = links[i as int]@;
        proof {
            assert(all.take(i as int + 1).drop_last() =~= all.take(i as int));
            assert(all.take(i as int + 1).last() == link);
            cache.lemma_is_cache();
            assert forall|k: Seq<u8>| #[trigger]
                lookup(after_get(before, root@, link.map_key), root@, k) == lookup(before, root@, k) by {
                law_get_keeps_entries(before, root@, link.map_key, cache.cap as nat, root@, k);
            }
            assert(lookup(before, root@, link.map_key) == lookup(g, root@, link.map_key));
        }
        match cache.get(root, &links[i].map_key) {
            Some(Some(node)) => {
                let ghost nv = node@;
                hits.push((links[i].dup(), node));
                proof {
                    assert(hit_views(hits@) =~= hv.push((link, nv)));
                }
            },
            Some(None) => {
                absent.push(links[i].dup());
                proof {
                    assert(cap_views(absent@) =~= av.push(link));
                }
            },
            None => {
                remaining.push(links[i].dup());
                proof {
                    assert(cap_views(remaining@) =~= mv.push(link));
                }
            },
        }
    }
    proof {
        assert(all.take(all.len() as int) =~= all);
    }
    CacheSplit { hits, absent, remaining }
}

/// The capabilities of one writer are those whose writer it is, in their order.
pub proof fn law_of_writer(v: Seq<CapView>, writer: CborValue)
    ensures
        of_writer(v, writer) == v.filter(|c: CapView| c.writer == writer),
    decreases v.len(),
{
    reveal(Seq::filter);
    if v.len() > 0 {
        law_of_writer(v.drop_last(), writer);
    }
}

/// What a lookup splits the capabilities into: those whose node is cached come with it, those that
/// are known to be missing and those that are unknown come apart, and each part keeps the order.
pub proof fn law_lookup_splits(g: Groups, root: Seq<u8>, v: Seq<CapView>)
    ensures
        not_cached(g, root, v, false) == v.filter(|c: CapView| lookup(g, root, c.map_key) is None),
        not_cached(g, root, v, true) == v.filter(|c: CapView| lookup(g, root, c.map_key) == Some(None::<CryptreeNode>)),
        Seq::new(cached(g, root, v).len(), |i: int| cached(g, root, v)[i].0) == v.filter(
            |c: CapView| lookup(g, root, c.map_key) matches Some(Some(n)),
        ),
        forall|i: int|
            0 <= i < cached(g, root, v).len() ==> (lookup(g, root, (#[trigger] cached(g, root, v)[i]).0.map_key) matches Some(
                Some(n),
            ) && cached(g, root, v)[i].1 == n@),
        cached(g, root, v).len() + not_cached(g, root, v, false).len() + not_cached(g, root, v, true).len() == v.len(),
    decreases v.len(),
{
    reveal(Seq::filter);
    let hits = |c: CapView| lookup(g, root, c.map_key) matches Some(Some(n));
    if v.len() > 0 {
        let init = v.drop_last();
        law_lookup_splits(g, root, init);
        let a = cached(g, root, init);
        let b = cached(g, root, v);
        if hits(v.last()) {
            assert(Seq::new(b.len(), |i: int| b[i].0) =~= Seq::new(a.len(), |i: int| a[i].0).push(v.last()));
        }
        assert forall|i: int| 0 <= i < b.len() implies (lookup(g, root, (#[trigger] b[i]).0.map_key) matches Some(Some(n))
            && b[i].1 == n@) by {
            if i < a.len() {
                assert(b[i] == a[i]);
            }
        }
    } else {
        assert(Seq::new(cached(g, root, v).len(), |i: int| cached(g, root, v)[i].0) =~= v.filter(hits));
    }
}

} // verus!
