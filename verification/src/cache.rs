//! A least-recently-used cache of decrypted cryptree nodes keyed by
//! `(champ tree root, map key)`.
//!
//! Entries are grouped by root, and a commit moves a root's group to the new root
//! rather than copying it. A hit skips both the lookup round-trip and the decrypt.
//! The key includes the content-addressed champ root, so entries can never go stale:
//! any change to the tree produces a new root, so a subsequent lookup uses a
//! different key and misses (rather than reading outdated data).
use vstd::prelude::*;
use crate::cryptree::CryptreeNode;
use crate::error::opt;
use crate::sorting::byte_strings;
use crate::text::{copy_bytes, same_bytes};

verus! {

/// Default number of entries retained per root.
pub const DEFAULT_CRYPTREE_CACHE_SIZE: usize = 1000;

/// How many champ roots are kept at once.
pub const MAX_ROOTS: usize = 4;

/// Entries by key, the least recently used first.
pub type Entries<V> = Seq<(Seq<u8>, V)>;

/// `e` has an entry for `k`.
pub open spec fn has_key<V>(e: Entries<V>, k: Seq<u8>) -> bool {
    exists|i: int| 0 <= i < e.len() && (#[trigger] e[i]).0 == k
}

/// Where the entry for `k` is.
pub open spec fn place_of<V>(e: Entries<V>, k: Seq<u8>) -> int {
    choose|i: int| 0 <= i < e.len() && (#[trigger] e[i]).0 == k
}

/// The value for `k`.
pub open spec fn value_of<V>(e: Entries<V>, k: Seq<u8>) -> Option<V> {
    if has_key(e, k) {
        Some(e[place_of(e, k)].1)
    } else {
        None
    }
}

/// Every key has one entry.
pub open spec fn unique<V>(e: Entries<V>) -> bool {
    forall|i: int, j: int| 0 <= i < j < e.len() ==> (#[trigger] e[i]).0 != (#[trigger] e[j]).0
}

/// `e` without the entry for `k`.
pub open spec fn dropped<V>(e: Entries<V>, k: Seq<u8>) -> Entries<V> {
    if has_key(e, k) {
        e.remove(place_of(e, k))
    } else {
        e
    }
}

/// `e` after a use of `k`: its entry is the most recently used one.
pub open spec fn used<V>(e: Entries<V>, k: Seq<u8>) -> Entries<V> {
    if has_key(e, k) {
        e.remove(place_of(e, k)).push(e[place_of(e, k)])
    } else {
        e
    }
}

/// `e` with `v` under `k`: when it is full, the least recently used entry makes room.
pub open spec fn stored<V>(e: Entries<V>, k: Seq<u8>, v: V, cap: nat) -> Entries<V> {
    if has_key(e, k) {
        e.remove(place_of(e, k)).push((k, v))
    } else if e.len() >= cap {
        e.skip(1).push((k, v))
    } else {
        e.push((k, v))
    }
}

/// A least-recently-used map from byte strings.
pub struct Lru<V> {
    /// The least recently used first.
    pub list: Vec<(Vec<u8>, V)>,
    pub cap: usize,
}

/// The entries of a list.
pub open spec fn entries_of<V>(v: Seq<(Vec<u8>, V)>) -> Entries<V> {
    Seq::new(v.len(), |i: int| (v[i].0@, v[i].1))
}

impl<V> View for Lru<V> {
    type V = Entries<V>;

    open spec fn view(&self) -> Entries<V> {
        entries_of(self.list@)
    }
}

proof fn lemma_place<V>(e: Entries<V>, i: int)
    requires
        unique(e),
        0 <= i < e.len(),
    ensures
        has_key(e, e[i].0),
        place_of(e, e[i].0) == i,
{
    assert(e[i].0 == e[i].0);
    let p = place_of(e, e[i].0);
    if p < i {
        assert(e[p].0 != e[i].0);
    } else if i < p {
        assert(e[i].0 != e[p].0);
    }
}

impl<V> Lru<V> {
    /// At least one entry fits, no more than fit are kept, and every key has one.
    pub open spec fn wf(self) -> bool {
        &&& self.cap >= 1
        &&& self@.len() <= self.cap
        &&& unique(self@)
    }

    /// A map that keeps up to `cap` entries, and at least one.
    pub fn new(cap: usize) -> (r: Lru<V>)
        ensures
            r.wf(),
            r@ == Seq::<(Seq<u8>, V)>::empty(),
            r.cap == if cap == 0 { 1 } else { cap },
    {
        let r = Lru { list: Vec::new(), cap: if cap == 0 { 1 } else { cap } };
        proof {
            assert(r@ =~= Seq::<(Seq<u8>, V)>::empty());
        }
        r
    }

    /// Where the entry for `key` is.
    fn find(&self, key: &[u8]) -> (r: Option<usize>)
        requires
            unique(self@),
        ensures
            r is Some <==> has_key(self@, key@),
            r is Some ==> r->Some_0 == place_of(self@, key@) && r->Some_0 < self.list@.len() && self@[r->Some_0 as int].0
                == key@,
    {
        for i in 0..self.list.len()
            invariant
                unique(self@),
                forall|j: int| 0 <= j < i ==> (#[trigger] self@[j]).0 != key@,
        {
            if same_bytes(&self.list[i].0, key) {
                proof {
                    assert(self@[i as int].0 == key@);
                    lemma_place(self@, i as int);
                }
                return Some(i);
            }
            proof {
                assert(self@[i as int].0 == self.list@[i as int].0@);
            }
        }
        None
    }

    /// Takes the entry at `i` out.
    fn take_out(&mut self, i: usize) -> (r: (Vec<u8>, V))
        requires
            i < old(self).list@.len(),
        ensures
            final(self)@ == old(self)@.remove(i as int),
            final(self).cap == old(self).cap,
            (r.0@, r.1) == old(self)@[i as int],
    {
        let r = self.list.remove(i);
        proof {
            assert(self@ =~= old(self)@.remove(i as int));
        }
        r
    }

    /// Puts an entry in as the most recently used one.
    fn put_last(&mut self, key: Vec<u8>, v: V)
        requires
            old(self).list@.len() < usize::MAX,
        ensures
            final(self)@ == old(self)@.push((key@, v)),
            final(self).cap == old(self).cap,
    {
        self.list.push((key, v));
        proof {
            assert(self@ =~= old(self)@.push((key@, v)));
        }
    }

    /// The value for `key`, which becomes the most recently used.
    pub fn get(&mut self, key: &[u8]) -> (r: Option<&V>)
        requires
            old(self).wf(),
        ensures
            final(self).wf(),
            final(self).cap == old(self).cap,
            final(self)@ == used(old(self)@, key@),
            r is Some <==> has_key(old(self)@, key@),
            r is Some ==> Some(*r->Some_0) == value_of(old(self)@, key@),
    {
        proof {
            lemma_used_unique(self@, key@);
        }
        match self.find(key) {
            Some(i) => {
                let (k, v) = self.take_out(i);
                self.put_last(k, v);
                let n: usize = self.list.len();
                proof {
                    assert(self@[n - 1].1 == self.list@[n - 1].1);
                }
                Some(&self.list[n - 1].1)
            },
            None => None,
        }
    }

    /// Takes the value for `key` out.
    pub fn remove(&mut self, key: &[u8]) -> (r: Option<V>)
        requires
            old(self).wf(),
        ensures
            final(self).wf(),
            final(self).cap == old(self).cap,
            final(self)@ == dropped(old(self)@, key@),
            r == value_of(old(self)@, key@),
    {
        proof {
            lemma_dropped_unique(self@, key@);
        }
        match self.find(key) {
            Some(i) => {
                let (_, v) = self.take_out(i);
                Some(v)
            },
            None => None,
        }
    }

    /// Stores `val` under `key`, in place of the least recently used entry when full.
    pub fn insert(&mut self, key: &[u8], val: V)
        requires
            old(self).wf(),
        ensures
            final(self).wf(),
            final(self).cap == old(self).cap,
            final(self)@ == stored(old(self)@, key@, val, old(self).cap as nat),
    {
        proof {
            lemma_stored_unique(self@, key@, val, self.cap as nat);
        }
        match self.find(key) {
            Some(i) => {
                let _ = self.take_out(i);
                self.put_last(copy_bytes(key), val);
            },
            None => {
                if self.list.len() >= self.cap {
                    let _ = self.take_out(0);
                    proof {
                        assert(old(self)@.remove(0) =~= old(self)@.skip(1));
                    }
                }
                self.put_last(copy_bytes(key), val);
            },
        }
    }
}

proof fn lemma_dropped_unique<V>(e: Entries<V>, k: Seq<u8>)
    requires
        unique(e),
    ensures
        unique(dropped(e, k)),
        !has_key(dropped(e, k), k),
        dropped(e, k).len() <= e.len(),
{
    let d = dropped(e, k);
    if has_key(e, k) {
        let p = place_of(e, k);
        assert forall|i: int, j: int| 0 <= i < j < d.len() implies (#[trigger] d[i]).0 != (#[trigger] d[j]).0 by {
            let a = if i < p { i } else { i + 1 };
            let b = if j < p { j } else { j + 1 };
            assert(d[i] == e[a] && d[j] == e[b]);
        }
        assert forall|i: int| 0 <= i < d.len() implies (#[trigger] d[i]).0 != k by {
            let a = if i < p { i } else { i + 1 };
            assert(d[i] == e[a]);
            if a < p {
                assert(e[a].0 != e[p].0);
            } else {
                assert(e[p].0 != e[a].0);
            }
        }
    }
}

proof fn lemma_used_unique<V>(e: Entries<V>, k: Seq<u8>)
    requires
        unique(e),
    ensures
        unique(used(e, k)),
        used(e, k).len() == e.len(),
{
    if has_key(e, k) {
        lemma_dropped_unique(e, k);
        let u = used(e, k);
        let d = dropped(e, k);
        assert forall|i: int, j: int| 0 <= i < j < u.len() implies (#[trigger] u[i]).0 != (#[trigger] u[j]).0 by {
            assert(u[i] == d[i]);
            if j < d.len() {
                assert(u[j] == d[j]);
            } else {
                assert(d[i].0 != k);
            }
        }
    }
}

proof fn lemma_stored_unique<V>(e: Entries<V>, k: Seq<u8>, v: V, cap: nat)
    requires
        unique(e),
        e.len() <= cap,
        cap >= 1,
    ensures
        unique(stored(e, k, v, cap)),
        stored(e, k, v, cap).len() <= cap,
{
    let s = stored(e, k, v, cap);
    lemma_dropped_unique(e, k);
    if has_key(e, k) {
        let d = dropped(e, k);
        assert forall|i: int, j: int| 0 <= i < j < s.len() implies (#[trigger] s[i]).0 != (#[trigger] s[j]).0 by {
            assert(s[i] == d[i]);
            if j < d.len() {
                assert(s[j] == d[j]);
            } else {
                assert(d[i].0 != k);
            }
        }
    } else {
        let off: int = if e.len() >= cap { 1 } else { 0 };
        assert forall|i: int, j: int| 0 <= i < j < s.len() implies (#[trigger] s[i]).0 != (#[trigger] s[j]).0 by {
            assert(s[i] == e[i + off]);
            if j < s.len() - 1 {
                assert(s[j] == e[j + off]);
            } else {
                assert(e[i + off].0 != k);
            }
        }
    }
}

/// What was stored is found, as the most recently used entry, and the cache is no
/// fuller than it may be.
pub proof fn law_store_then_find<V>(e: Entries<V>, k: Seq<u8>, v: V, cap: nat)
    requires
        unique(e),
        e.len() <= cap,
        cap >= 1,
    ensures
        value_of(stored(e, k, v, cap), k) == Some(v),
        stored(e, k, v, cap).last() == (k, v),
        stored(e, k, v, cap).len() <= cap,
{
    lemma_stored_unique(e, k, v, cap);
    let s = stored(e, k, v, cap);
    lemma_place(s, s.len() - 1);
}

/// Storing leaves every other entry alone, except the least recently used one of a
/// cache that is full.
pub proof fn law_store_keeps_others<V>(e: Entries<V>, k: Seq<u8>, v: V, cap: nat, other: Seq<u8>)
    requires
        unique(e),
        e.len() <= cap,
        cap >= 1,
        other != k,
    ensures
        !has_key(e, k) && e.len() >= cap && e[0].0 == other ==> value_of(stored(e, k, v, cap), other) is None,
        !(!has_key(e, k) && e.len() >= cap && e[0].0 == other) ==> value_of(stored(e, k, v, cap), other) == value_of(
            e,
            other,
        ),
{
    lemma_stored_unique(e, k, v, cap);
    let s = stored(e, k, v, cap);
    let evicts = !has_key(e, k) && e.len() >= cap;
    if has_key(e, other) && !(evicts && e[0].0 == other) {
        let q = place_of(e, other);
        let at = if has_key(e, k) {
            let p = place_of(e, k);
            if q < p { q } else { q - 1 }
        } else if evicts {
            if q == 0 {
                assert(e[0].0 == other);
            }
            q - 1
        } else {
            q
        };
        assert(s[at] == e[q]);
        lemma_place(s, at);
    } else {
        assert forall|i: int| 0 <= i < s.len() implies (#[trigger] s[i]).0 != other by {
            if i == s.len() - 1 {
                assert(s[i].0 == k);
            } else if has_key(e, k) {
                let p = place_of(e, k);
                let a = if i < p { i } else { i + 1 };
                assert(s[i] == e[a]);
                if e[a].0 == other {
                    assert(has_key(e, other));
                }
            } else if evicts {
                assert(s[i] == e[i + 1]);
                if e[i + 1].0 == other {
                    assert(has_key(e, other));
                    assert(e[0].0 != e[i + 1].0);
                }
            } else {
                assert(s[i] == e[i]);
                if e[i].0 == other {
                    assert(has_key(e, other));
                }
            }
        }
    }
}

/// A use changes no entry, and makes the one that was used the last to go.
pub proof fn law_use_keeps_entries<V>(e: Entries<V>, k: Seq<u8>, other: Seq<u8>)
    requires
        unique(e),
    ensures
        value_of(used(e, k), other) == value_of(e, other),
        has_key(e, k) ==> used(e, k).last().0 == k,
{
    if has_key(e, k) {
        lemma_used_unique(e, k);
        let u = used(e, k);
        let p = place_of(e, k);
        if has_key(e, other) {
            let q = place_of(e, other);
            let at = if q == p {
                u.len() - 1
            } else if q < p {
                q
            } else {
                q - 1
            };
            assert(u[at] == e[q]);
            lemma_place(u, at);
        } else {
            assert forall|i: int| 0 <= i < u.len() implies (#[trigger] u[i]).0 != other by {
                let a = if i == u.len() - 1 {
                    p
                } else if i < p {
                    i
                } else {
                    i + 1
                };
                assert(u[i] == e[a]);
                if e[a].0 == other {
                    assert(has_key(e, other));
                }
            }
        }
    }
}

/// Dropping a key drops its entry and no other.
pub proof fn law_drop<V>(e: Entries<V>, k: Seq<u8>, other: Seq<u8>)
    requires
        unique(e),
    ensures
        value_of(dropped(e, k), other) == if other == k {
            None
        } else {
            value_of(e, other)
        },
{
    lemma_dropped_unique(e, k);
    if other != k {
        let d = dropped(e, k);
        if has_key(e, k) {
            let p = place_of(e, k);
            if has_key(e, other) {
                let q = place_of(e, other);
                let at = if q < p { q } else { q - 1 };
                assert(d[at] == e[q]);
                lemma_place(d, at);
            } else {
                assert forall|i: int| 0 <= i < d.len() implies (#[trigger] d[i]).0 != other by {
                    let a = if i < p { i } else { i + 1 };
                    assert(d[i] == e[a]);
                    if e[a].0 == other {
                        assert(has_key(e, other));
                    }
                }
            }
        }
    }
}

/// What is cached for the nodes of one champ root: `None` is a known-absent key.
pub type Group = Entries<Option<CryptreeNode>>;

/// What is cached for each champ root, the least recently used root first.
pub type Groups = Entries<Group>;

/// What is cached for `(root, key)`.
pub open spec fn lookup(g: Groups, root: Seq<u8>, key: Seq<u8>) -> Option<Option<CryptreeNode>> {
    match value_of(g, root) {
        Some(e) => value_of(e, key),
        None => None,
    }
}

/// The group of `root`, empty if there is none.
pub open spec fn group_of(g: Groups, root: Seq<u8>) -> Group {
    match value_of(g, root) {
        Some(e) => e,
        None => Seq::empty(),
    }
}

/// The cache after `(root, key)` was looked up.
pub open spec fn after_get(g: Groups, root: Seq<u8>, key: Seq<u8>) -> Groups {
    if has_key(g, root) {
        stored(g, root, used(group_of(g, root), key), MAX_ROOTS as nat)
    } else {
        g
    }
}

/// The cache after `v` was put under `(root, key)`.
pub open spec fn after_put(g: Groups, root: Seq<u8>, key: Seq<u8>, v: Option<CryptreeNode>, cap: nat) -> Groups {
    stored(g, root, stored(group_of(g, root), key, v, cap), MAX_ROOTS as nat)
}

/// The cache after the group of `prior` has moved to `new`.
pub open spec fn carried(g: Groups, prior: Seq<u8>, new: Seq<u8>) -> Groups {
    if prior != new && has_key(g, prior) {
        stored(dropped(g, prior), new, group_of(g, prior), MAX_ROOTS as nat)
    } else {
        g
    }
}

/// A group without these keys.
pub open spec fn dropped_all(e: Group, keys: Seq<Seq<u8>>) -> Group
    decreases keys.len(),
{
    if keys.len() == 0 {
        e
    } else {
        dropped(dropped_all(e, keys.drop_last()), keys.last())
    }
}

/// The cache after a commit moved `prior` to `new` and changed these keys.
pub open spec fn migrated(g: Groups, prior: Seq<u8>, new: Seq<u8>, keys: Seq<Seq<u8>>) -> Groups {
    let c = carried(g, prior, new);
    if has_key(c, new) {
        stored(c, new, dropped_all(group_of(c, new), keys), MAX_ROOTS as nat)
    } else {
        c
    }
}

/// A cache of decrypted cryptree nodes, grouped by the champ root they were read from.
pub struct CryptreeCache {
    pub by_root: Lru<Lru<Option<CryptreeNode>>>,
    pub cap: usize,
}

/// The groups as entries.
pub open spec fn groups(e: Entries<Lru<Option<CryptreeNode>>>) -> Groups {
    Seq::new(e.len(), |i: int| (e[i].0, e[i].1@))
}

proof fn lemma_groups_place(e: Entries<Lru<Option<CryptreeNode>>>, k: Seq<u8>)
    requires
        unique(e),
    ensures
        unique(groups(e)),
        has_key(groups(e), k) == has_key(e, k),
        has_key(e, k) ==> place_of(groups(e), k) == place_of(e, k) && value_of(groups(e), k) == Some(
            value_of(e, k)->Some_0@,
        ),
{
    let g = groups(e);
    assert forall|i: int, j: int| 0 <= i < j < g.len() implies (#[trigger] g[i]).0 != (#[trigger] g[j]).0 by {
        assert(e[i].0 != e[j].0);
    }
    if has_key(e, k) {
        let p = place_of(e, k);
        assert(g[p].0 == k);
        lemma_place(g, p);
    }
    if has_key(g, k) {
        let p = place_of(g, k);
        assert(e[p].0 == k);
    }
}

proof fn lemma_groups_stored(e: Entries<Lru<Option<CryptreeNode>>>, k: Seq<u8>, v: Lru<Option<CryptreeNode>>, cap: nat)
    requires
        unique(e),
        e.len() <= cap,
        cap >= 1,
    ensures
        groups(stored(e, k, v, cap)) == stored(groups(e), k, v@, cap),
{
    lemma_groups_place(e, k);
    assert(groups(stored(e, k, v, cap)) =~= stored(groups(e), k, v@, cap));
}

proof fn lemma_groups_dropped(e: Entries<Lru<Option<CryptreeNode>>>, k: Seq<u8>)
    requires
        unique(e),
    ensures
        groups(dropped(e, k)) == dropped(groups(e), k),
{
    lemma_groups_place(e, k);
    assert(groups(dropped(e, k)) =~= dropped(groups(e), k));
}

proof fn lemma_stored_again<V>(e: Entries<V>, k: Seq<u8>, v: V, cap: nat)
    requires
        unique(e),
        has_key(e, k),
        e.len() <= cap,
    ensures
        stored(dropped(e, k), k, v, cap) == stored(e, k, v, cap),
{
    lemma_dropped_unique(e, k);
}

impl View for CryptreeCache {
    type V = Groups;

    open spec fn view(&self) -> Groups {
        groups(self.by_root@)
    }
}

impl CryptreeCache {
    /// A few roots are kept, and for each no more entries than fit.
    pub open spec fn wf(self) -> bool {
        &&& self.cap >= 1
        &&& self.by_root.wf()
        &&& self.by_root.cap == MAX_ROOTS
        &&& forall|i: int|
            0 <= i < self.by_root@.len() ==> (#[trigger] self.by_root@[i]).1.wf() && self.by_root@[i].1.cap == self.cap
    }

    /// A cache of the default size.
    pub fn new() -> (r: CryptreeCache)
        ensures
            r.wf(),
            r@ == Seq::<(Seq<u8>, Group)>::empty(),
            r.cap == DEFAULT_CRYPTREE_CACHE_SIZE,
    {
        CryptreeCache::with_capacity(DEFAULT_CRYPTREE_CACHE_SIZE)
    }

    /// A cache holding up to `cap` entries for each root it keeps.
    pub fn with_capacity(cap: usize) -> (r: CryptreeCache)
        ensures
            r.wf(),
            r@ == Seq::<(Seq<u8>, Group)>::empty(),
            r.cap == if cap == 0 { 1 } else { cap },
    {
        let r = CryptreeCache { by_root: Lru::new(MAX_ROOTS), cap: if cap == 0 { 1 } else { cap } };
        proof {
            assert(r@ =~= Seq::<(Seq<u8>, Group)>::empty());
        }
        r
    }

    /// Takes the group of `root` out.
    fn take_group(&mut self, root: &[u8]) -> (r: Option<Lru<Option<CryptreeNode>>>)
        requires
            old(self).wf(),
        ensures
            final(self).wf(),
            final(self).cap == old(self).cap,
            final(self)@ == dropped(old(self)@, root@),
            r is Some <==> has_key(old(self)@, root@),
            r is Some ==> r->Some_0@ == group_of(old(self)@, root@) && r->Some_0.wf() && r->Some_0.cap == old(self).cap,
    {
        proof {
            lemma_groups_place(self.by_root@, root@);
            lemma_groups_dropped(self.by_root@, root@);
        }
        let r = self.by_root.remove(root);
        proof {
            let e = old(self).by_root@;
            assert forall|i: int| 0 <= i < self.by_root@.len() implies (#[trigger] self.by_root@[i]).1.wf()
                && self.by_root@[i].1.cap == self.cap by {
                if has_key(e, root@) {
                    let p = place_of(e, root@);
                    let a = if i < p { i } else { i + 1 };
                    assert(self.by_root@[i] == e[a]);
                }
            }
        }
        r
    }

    /// Puts a group under `root`.
    fn put_group(&mut self, root: &[u8], group: Lru<Option<CryptreeNode>>)
        requires
            old(self).wf(),
            group.wf(),
            group.cap == old(self).cap,
        ensures
            final(self).wf(),
            final(self).cap == old(self).cap,
            final(self)@ == stored(old(self)@, root@, group@, MAX_ROOTS as nat),
    {
        proof {
            lemma_groups_stored(self.by_root@, root@, group, MAX_ROOTS as nat);
        }
        let ghost gr = group;
        self.by_root.insert(root, group);
        proof {
            let e = old(self).by_root@;
            let s = self.by_root@;
            assert forall|i: int| 0 <= i < s.len() implies (#[trigger] s[i]).1.wf() && s[i].1.cap == self.cap by {
                if i == s.len() - 1 {
                    assert(s[i].1 == gr);
                } else if has_key(e, root@) {
                    let p = place_of(e, root@);
                    let a = if i < p { i } else { i + 1 };
                    assert(s[i] == e[a]);
                } else if e.len() >= MAX_ROOTS {
                    assert(s[i] == e[i + 1]);
                } else {
                    assert(s[i] == e[i]);
                }
            }
        }
    }

    /// The cached node for `(root, map_key)`. The outer `Option` is cache presence;
    /// the inner one distinguishes a cached node from a cached "known absent".
    pub fn get(&mut self, root: &[u8], map_key: &[u8]) -> (r: Option<Option<CryptreeNode>>)
        requires
            old(self).wf(),
        ensures
            final(self).wf(),
            final(self).cap == old(self).cap,
            final(self)@ == after_get(old(self)@, root@, map_key@),
            match lookup(old(self)@, root@, map_key@) {
                None => r is None,
                Some(v) => r is Some && opt(r->Some_0) == opt(v),
            },
    {
        proof {
            lemma_groups_place(self.by_root@, root@);
            if has_key(self@, root@) {
                lemma_stored_again(self@, root@, used(group_of(self@, root@), map_key@), MAX_ROOTS as nat);
            }
        }
        match self.take_group(root) {
            None => None,
            Some(g) => {
                let mut group = g;
                let r: Option<Option<CryptreeNode>> = match group.get(map_key) {
                    None => None,
                    Some(v) => Some(dup_node(v)),
                };
                self.put_group(root, group);
                r
            },
        }
    }

    /// Remembers the node for `(root, map_key)`, or that there is none.
    pub fn put(&mut self, root: &[u8], map_key: &[u8], val: Option<CryptreeNode>)
        requires
            old(self).wf(),
        ensures
            final(self).wf(),
            final(self).cap == old(self).cap,
            final(self)@ == after_put(old(self)@, root@, map_key@, val, old(self).cap as nat),
    {
        proof {
            lemma_groups_place(self.by_root@, root@);
            if has_key(self@, root@) {
                lemma_stored_again(
                    self@,
                    root@,
                    stored(group_of(self@, root@), map_key@, val, self.cap as nat),
                    MAX_ROOTS as nat,
                );
            }
        }
        let mut group = match self.take_group(root) {
            Some(g) => g,
            None => Lru::new(self.cap),
        };
        group.insert(map_key, val);
        self.put_group(root, group);
    }

    /// Carry everything read under `prior` over to `new`: a commit changes the root
    /// but leaves every other mapping as it was, so the group moves rather than copies.
    fn carry_over(&mut self, prior: &[u8], new: &[u8])
        requires
            old(self).wf(),
        ensures
            final(self).wf(),
            final(self).cap == old(self).cap,
            final(self)@ == carried(old(self)@, prior@, new@),
    {
        if same_bytes(prior, new) {
            return;
        }
        match self.take_group(prior) {
            Some(g) => {
                self.put_group(new, g);
            },
            None => {},
        }
    }

    /// After a write changed the tree root from `prior_root` to `new_root` by storing
    /// `val` at `map_key`: carry the other entries over and store the new value.
    pub fn update(&mut self, prior_root: Option<&[u8]>, new_root: &[u8], map_key: &[u8], val: Option<CryptreeNode>)
        requires
            old(self).wf(),
        ensures
            final(self).wf(),
            final(self).cap == old(self).cap,
            ({
                let c = match prior_root {
                    Some(p) => carried(old(self)@, p@, new_root@),
                    None => old(self)@,
                };
                final(self)@ == after_put(c, new_root@, map_key@, val, old(self).cap as nat)
            }),
    {
        match prior_root {
            Some(prior) => {
                self.carry_over(prior, new_root);
            },
            None => {},
        }
        self.put(new_root, map_key, val);
    }

    /// The value-less form of [`update`](Self::update) used by the mutation commit
    /// path: carry the entries over to `new_root` except the `changed_keys` the write
    /// touched, which are dropped so their next read refetches.
    pub fn migrate(&mut self, prior_root: &[u8], new_root: &[u8], changed_keys: &[Vec<u8>])
        requires
            old(self).wf(),
        ensures
            final(self).wf(),
            final(self).cap == old(self).cap,
            final(self)@ == migrated(old(self)@, prior_root@, new_root@, byte_strings(changed_keys@)),
    {
        self.carry_over(prior_root, new_root);
        let ghost c = self@;
        let ghost keys = byte_strings(changed_keys@);
        proof {
            lemma_groups_place(self.by_root@, new_root@);
        }
        match self.take_group(new_root) {
            None => {},
            Some(g) => {
                let mut group = g;
                let ghost e = group@;
                proof {
                    assert(keys.take(0) =~= Seq::empty());
                    lemma_stored_again(c, new_root@, dropped_all(e, keys), MAX_ROOTS as nat);
                }
                for i in 0..changed_keys.len()
                    invariant
                        keys == byte_strings(changed_keys@),
                        group.wf(),
                        group.cap == self.cap,
                        group@ == dropped_all(e, keys.take(i as int)),
                {
                    proof {
                        assert(keys.take(i as int + 1).drop_last() =~= keys.take(i as int));
                        assert(keys.take(i as int + 1).last() == changed_keys[i as int]@);
                    }
                    let _ = group.remove(&changed_keys[i]);
                }
                proof {
                    assert(keys.take(keys.len() as int) =~= keys);
                }
                self.put_group(new_root, group);
            },
        }
    }

    /// Forgets everything.
    pub fn clear(&mut self)
        requires
            old(self).wf(),
        ensures
            final(self).wf(),
            final(self).cap == old(self).cap,
            final(self)@ == Seq::<(Seq<u8>, Group)>::empty(),
    {
        self.by_root = Lru::new(MAX_ROOTS);
        proof {
            assert(self@ =~= Seq::<(Seq<u8>, Group)>::empty());
        }
    }
}

impl Default for CryptreeCache {
    fn default() -> (r: CryptreeCache)
        ensures
            r.wf(),
            r@ == Seq::<(Seq<u8>, Group)>::empty(),
            r.cap == DEFAULT_CRYPTREE_CACHE_SIZE,
    {
        CryptreeCache::new()
    }
}

/// A copy of a cached value.
fn dup_node(v: &Option<CryptreeNode>) -> (r: Option<CryptreeNode>)
    ensures
        opt(r) == opt(*v),
{
    match v {
        Some(n) => Some(n.dup()),
        None => None,
    }
}

/// The groups are as a cache keeps them.
pub open spec fn is_cache(g: Groups, cap: nat) -> bool {
    &&& cap >= 1
    &&& unique(g)
    &&& g.len() <= MAX_ROOTS
    &&& forall|i: int| 0 <= i < g.len() ==> unique((#[trigger] g[i]).1) && g[i].1.len() <= cap
}

impl CryptreeCache {
    /// A well-formed cache holds the entries of a cache.
    pub proof fn lemma_is_cache(&self)
        requires
            self.wf(),
        ensures
            is_cache(self@, self.cap as nat),
    {
        let g = self@;
        let e = self.by_root@;
        assert forall|i: int, j: int| 0 <= i < j < g.len() implies (#[trigger] g[i]).0 != (#[trigger] g[j]).0 by {
            assert(e[i].0 != e[j].0);
        }
        assert forall|i: int| 0 <= i < g.len() implies unique((#[trigger] g[i]).1) && g[i].1.len() <= self.cap by {
            assert(e[i].1.wf());
        }
    }
}

/// What was put under a root and a key is found there.
pub proof fn law_put_then_get(g: Groups, root: Seq<u8>, key: Seq<u8>, v: Option<CryptreeNode>, cap: nat)
    requires
        is_cache(g, cap),
    ensures
        lookup(after_put(g, root, key, v, cap), root, key) == Some(v),
        is_cache(after_put(g, root, key, v, cap), cap),
{
    let e = group_of(g, root);
    if has_key(g, root) {
        assert(unique(g[place_of(g, root)].1));
    }
    law_store_then_find(e, key, v, cap);
    lemma_stored_unique(e, key, v, cap);
    law_store_then_find(g, root, stored(e, key, v, cap), MAX_ROOTS as nat);
    lemma_stored_unique(g, root, stored(e, key, v, cap), MAX_ROOTS as nat);
    lemma_stored_groups(g, root, stored(e, key, v, cap), cap);
}

proof fn lemma_stored_groups(g: Groups, root: Seq<u8>, e: Group, cap: nat)
    requires
        is_cache(g, cap),
        unique(e),
        e.len() <= cap,
    ensures
        is_cache(stored(g, root, e, MAX_ROOTS as nat), cap),
{
    let s = stored(g, root, e, MAX_ROOTS as nat);
    lemma_stored_unique(g, root, e, MAX_ROOTS as nat);
    assert forall|i: int| 0 <= i < s.len() implies unique((#[trigger] s[i]).1) && s[i].1.len() <= cap by {
        if i == s.len() - 1 {
            assert(s[i].1 == e);
        } else if has_key(g, root) {
            let p = place_of(g, root);
            let a = if i < p { i } else { i + 1 };
            assert(s[i] == g[a]);
        } else if g.len() >= MAX_ROOTS {
            assert(s[i] == g[i + 1]);
        } else {
            assert(s[i] == g[i]);
        }
    }
}

/// A put changes nothing under another key of the root, unless the group is full and
/// that key is the least recently used one.
pub proof fn law_put_keeps_keys(g: Groups, root: Seq<u8>, key: Seq<u8>, v: Option<CryptreeNode>, cap: nat, other: Seq<u8>)
    requires
        is_cache(g, cap),
        other != key,
        group_of(g, root).len() < cap || has_key(group_of(g, root), key) || group_of(g, root)[0].0 != other,
    ensures
        lookup(after_put(g, root, key, v, cap), root, other) == lookup(g, root, other),
{
    let e = group_of(g, root);
    if has_key(g, root) {
        assert(unique(g[place_of(g, root)].1));
    }
    law_store_keeps_others(e, key, v, cap, other);
    law_store_then_find(g, root, stored(e, key, v, cap), MAX_ROOTS as nat);
}

/// A put changes nothing under another root, unless there are too many roots and that
/// one is the least recently used.
pub proof fn law_put_keeps_roots(
    g: Groups,
    root: Seq<u8>,
    key: Seq<u8>,
    v: Option<CryptreeNode>,
    cap: nat,
    other_root: Seq<u8>,
    other: Seq<u8>,
)
    requires
        is_cache(g, cap),
        other_root != root,
        g.len() < MAX_ROOTS || has_key(g, root) || g[0].0 != other_root,
    ensures
        lookup(after_put(g, root, key, v, cap), other_root, other) == lookup(g, other_root, other),
{
    law_store_keeps_others(g, root, stored(group_of(g, root), key, v, cap), MAX_ROOTS as nat, other_root);
}

/// A lookup changes nothing that is cached.
pub proof fn law_get_keeps_entries(g: Groups, root: Seq<u8>, key: Seq<u8>, cap: nat, other_root: Seq<u8>, other: Seq<u8>)
    requires
        is_cache(g, cap),
    ensures
        lookup(after_get(g, root, key), other_root, other) == lookup(g, other_root, other),
{
    if has_key(g, root) {
        let e = group_of(g, root);
        assert(unique(g[place_of(g, root)].1));
        law_use_keeps_entries(e, key, other);
        if other_root == root {
            law_store_then_find(g, root, used(e, key), MAX_ROOTS as nat);
        } else {
            law_store_keeps_others(g, root, used(e, key), MAX_ROOTS as nat, other_root);
        }
    }
}

proof fn lemma_dropped_all(e: Group, keys: Seq<Seq<u8>>, k: Seq<u8>)
    requires
        unique(e),
    ensures
        unique(dropped_all(e, keys)),
        value_of(dropped_all(e, keys), k) == if keys.contains(k) {
            None
        } else {
            value_of(e, k)
        },
    decreases keys.len(),
{
    if keys.len() > 0 {
        let init = keys.drop_last();
        lemma_dropped_all(e, init, k);
        let d = dropped_all(e, init);
        law_drop(d, keys.last(), k);
        lemma_dropped_unique(d, keys.last());
        assert(keys.contains(k) == (init.contains(k) || k == keys.last())) by {
            if keys.contains(k) {
                let i = choose|i: int| 0 <= i < keys.len() && keys[i] == k;
                if i < init.len() {
                    assert(init[i] == k);
                }
            }
            if init.contains(k) {
                let i = choose|i: int| 0 <= i < init.len() && init[i] == k;
                assert(keys[i] == k);
            }
            if k == keys.last() {
                assert(keys[keys.len() - 1] == k);
            }
        }
    }
}

/// After a commit the siblings of what it changed are cached under the new root as
/// they were under the old one, the changed keys are not, and nothing is left under
/// the old root.
pub proof fn law_migrate(g: Groups, prior: Seq<u8>, new: Seq<u8>, keys: Seq<Seq<u8>>, cap: nat, key: Seq<u8>)
    requires
        is_cache(g, cap),
        prior != new,
        has_key(g, prior),
    ensures
        lookup(migrated(g, prior, new, keys), new, key) == if keys.contains(key) {
            None
        } else {
            lookup(g, prior, key)
        },
        lookup(migrated(g, prior, new, keys), prior, key) is None,
{
    let e = group_of(g, prior);
    assert(unique(g[place_of(g, prior)].1));
    lemma_dropped_unique(g, prior);
    let d = dropped(g, prior);
    let c = carried(g, prior, new);
    law_store_then_find(d, new, e, MAX_ROOTS as nat);
    lemma_stored_unique(d, new, e, MAX_ROOTS as nat);
    law_store_keeps_others(d, new, e, MAX_ROOTS as nat, prior);
    law_drop(g, prior, prior);
    lemma_dropped_all(e, keys, key);
    let f = dropped_all(e, keys);
    law_store_then_find(c, new, f, MAX_ROOTS as nat);
    law_store_keeps_others(c, new, f, MAX_ROOTS as nat, prior);
}

/// After a write that moved the root, the new value and the siblings are cached under
/// the new root.
pub proof fn law_update(
    g: Groups,
    prior: Seq<u8>,
    new: Seq<u8>,
    key: Seq<u8>,
    v: Option<CryptreeNode>,
    cap: nat,
    other: Seq<u8>,
)
    requires
        is_cache(g, cap),
        prior != new,
        has_key(g, prior),
        other != key,
        group_of(g, prior).len() < cap || has_key(group_of(g, prior), key),
    ensures
        lookup(after_put(carried(g, prior, new), new, key, v, cap), new, key) == Some(v),
        lookup(after_put(carried(g, prior, new), new, key, v, cap), new, other) == lookup(g, prior, other),
{
    let e = group_of(g, prior);
    assert(unique(g[place_of(g, prior)].1));
    lemma_dropped_unique(g, prior);
    let d = dropped(g, prior);
    let c = carried(g, prior, new);
    assert(is_cache(d, cap)) by {
        let p = place_of(g, prior);
        assert forall|i: int| 0 <= i < d.len() implies unique((#[trigger] d[i]).1) && d[i].1.len() <= cap by {
            let a = if i < p { i } else { i + 1 };
            assert(d[i] == g[a]);
        }
    }
    law_store_then_find(d, new, e, MAX_ROOTS as nat);
    lemma_stored_groups(d, new, e, cap);
    law_put_then_get(c, new, key, v, cap);
    law_put_keeps_keys(c, new, key, v, cap, other);
}

/// What is used or stored becomes the newest, and all else keeps its order. What goes from a full
/// cache is the oldest, and nothing else ever goes.
pub proof fn law_oldest_goes_first<V>(e: Entries<V>, i: int, k: Seq<u8>, v: V, cap: nat)
    requires
        unique(e),
    ensures
        0 <= i < e.len() ==> used(e, e[i].0) == e.remove(i).push(e[i]),
        0 <= i < e.len() ==> stored(e, e[i].0, v, cap) == e.remove(i).push((e[i].0, v)),
        !has_key(e, k) && e.len() < cap ==> stored(e, k, v, cap) == e.push((k, v)),
        !has_key(e, k) && e.len() == cap && cap > 0 ==> stored(e, k, v, cap) == e.drop_first().push((k, v)),
        !has_key(e, k) ==> used(e, k) == e,
        !has_key(e, k) ==> dropped(e, k) == e,
        0 <= i < e.len() ==> dropped(e, e[i].0) == e.remove(i),
{
    if 0 <= i < e.len() {
        let p = place_of(e, e[i].0);
        assert(has_key(e, e[i].0));
        assert(e[p].0 == e[i].0);
        assert(p == i);
    }
    if !has_key(e, k) && e.len() == cap && cap > 0 {
        assert(e.skip(1) =~= e.drop_first());
    }
}

/// The cache keeps four roots. With a fifth the one that was used the longest ago goes.
pub proof fn law_four_roots(g: Groups, root: Seq<u8>, key: Seq<u8>, v: Option<CryptreeNode>, cap: nat)
    requires
        is_cache(g, cap),
        !has_key(g, root),
    ensures
        g.len() <= 4,
        g.len() == 4 ==> after_put(g, root, key, v, cap) == g.drop_first().push((root, seq![(key, v)])),
        g.len() < 4 ==> after_put(g, root, key, v, cap) == g.push((root, seq![(key, v)])),
{
    assert(stored(group_of(g, root), key, v, cap) =~= seq![(key, v)]);
    assert(g.skip(1) =~= g.drop_first());
}

/// A read makes its root the newest one, and its key the newest of that root. Of a root that is not
/// there nothing changes.
pub proof fn law_read_makes_newest(g: Groups, i: int, j: int, cap: nat, root: Seq<u8>, key: Seq<u8>)
    requires
        is_cache(g, cap),
    ensures
        0 <= i < g.len() && 0 <= j < g[i].1.len() ==> after_get(g, g[i].0, g[i].1[j].0) == g.remove(i).push(
            (g[i].0, g[i].1.remove(j).push(g[i].1[j])),
        ),
        !has_key(g, root) ==> after_get(g, root, key) == g,
{
    if 0 <= i < g.len() && 0 <= j < g[i].1.len() {
        let p = place_of(g, g[i].0);
        assert(has_key(g, g[i].0));
        assert(p == i);
        law_oldest_goes_first(g[i].1, j, g[i].1[j].0, g[i].1[j].1, cap);
    }
}

/// How many nodes a cache keeps of each root where nothing else is asked for.
pub proof fn law_default_size()
    ensures
        DEFAULT_CRYPTREE_CACHE_SIZE == 1000,
{
}

} // verus!
