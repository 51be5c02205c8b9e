//! How far the cap streams of a friend have been processed.
use vstd::prelude::*;
use crate::cbor::{key_before, map_get, map_put, pairs, CborObject, CborValue};
use crate::cryptree::properties::as_signed;
use crate::text::same_text;

verus! {

broadcast use crate::cbor::group_cbor;

/// How far we have processed a friend's read/write cap streams. `read_cap_bytes` and
/// `write_cap_bytes` are absolute byte offsets into their sharing files; `groups` holds
/// the same state per social group the friend shares into.
#[derive(Debug, PartialEq, Eq)]
pub struct ProcessedCaps {
    pub read_caps: u64,
    pub write_caps: u64,
    pub read_cap_bytes: u64,
    pub write_cap_bytes: u64,
    pub groups: Vec<(String, ProcessedCaps)>,
}

/// The content of a [`ProcessedCaps`].
pub ghost struct ProcessedView {
    pub read_caps: nat,
    pub write_caps: nat,
    pub read_cap_bytes: nat,
    pub write_cap_bytes: nat,
    pub groups: Seq<(Seq<char>, ProcessedView)>,
}

impl View for ProcessedCaps {
    type V = ProcessedView;

    open spec fn view(&self) -> ProcessedView {
        self.value()
    }
}

impl ProcessedCaps {
    /// What this state says.
    pub open spec fn value(self) -> ProcessedView
        decreases self,
    {
        ProcessedView {
            read_caps: self.read_caps as nat,
            write_caps: self.write_caps as nat,
            read_cap_bytes: self.read_cap_bytes as nat,
            write_cap_bytes: self.write_cap_bytes as nat,
            groups: Seq::new(
                self.groups.len() as nat,
                |i: int|
                    if 0 <= i < self.groups.len() {
                        (self.groups[i].0@, self.groups[i].1.value())
                    } else {
                        arbitrary()
                    },
            ),
        }
    }
}

/// The contents of a list of groups.
pub open spec fn group_views(v: Seq<(String, ProcessedCaps)>) -> Seq<(Seq<char>, ProcessedView)> {
    Seq::new(v.len(), |i: int| (v[i].0@, v[i].1@))
}

/// The groups of a state are the groups of its content.
pub broadcast proof fn lemma_groups_view(p: ProcessedCaps)
    ensures
        (#[trigger] p@).groups == group_views(p.groups@),
{
    assert(p@.groups =~= group_views(p.groups@));
}

/// Nothing has been processed.
pub open spec fn nothing_processed() -> ProcessedView {
    ProcessedView { read_caps: 0, write_caps: 0, read_cap_bytes: 0, write_cap_bytes: 0, groups: Seq::empty() }
}

/// The state of a group.
pub open spec fn group_state(v: Seq<(Seq<char>, ProcessedView)>, uid: Seq<char>) -> Option<ProcessedView>
    decreases v.len(),
{
    if v.len() == 0 {
        None
    } else if v[0].0 == uid {
        Some(v[0].1)
    } else {
        group_state(v.skip(1), uid)
    }
}

/// The groups with this state for one of them, in place of what it had.
pub open spec fn with_group(v: Seq<(Seq<char>, ProcessedView)>, uid: Seq<char>, p: ProcessedView) -> Seq<
    (Seq<char>, ProcessedView),
>
    decreases v.len(),
{
    if v.len() == 0 {
        seq![(uid, p)]
    } else if v[0].0 == uid {
        seq![(uid, p)] + v.skip(1)
    } else if key_before(uid, v[0].0) {
        seq![(uid, p)] + v
    } else {
        seq![v[0]] + with_group(v.skip(1), uid, p)
    }
}

/// The state of a group read after it was set is that state, and every other group has
/// the one it had.
pub proof fn law_group_state(v: Seq<(Seq<char>, ProcessedView)>, uid: Seq<char>, p: ProcessedView, other: Seq<char>)
    ensures
        group_state(with_group(v, uid, p), other) == if other == uid {
            Some(p)
        } else {
            group_state(v, other)
        },
    decreases v.len(),
{
    let w = with_group(v, uid, p);
    if v.len() == 0 {
        assert(w.skip(1) =~= v);
    } else if v[0].0 == uid {
        assert(w.skip(1) =~= v.skip(1));
    } else if key_before(uid, v[0].0) {
        assert(w.skip(1) =~= v);
    } else {
        assert(w.skip(1) =~= with_group(v.skip(1), uid, p));
        law_group_state(v.skip(1), uid, p, other);
    }
}

/// The CBOR of a state.
pub open spec fn processed_cbor(p: ProcessedView) -> CborValue
    decreases p,
{
    let m = map_put(Seq::empty(), "rc"@, CborValue::Long(as_signed(p.read_caps)));
    let m = map_put(m, "wc"@, CborValue::Long(as_signed(p.write_caps)));
    let m = map_put(m, "rb"@, CborValue::Long(as_signed(p.read_cap_bytes)));
    let m = map_put(m, "wb"@, CborValue::Long(as_signed(p.write_cap_bytes)));
    CborValue::Mapping(map_put(m, "g"@, CborValue::Mapping(groups_cbor(p.groups))))
}

/// The entries of the CBOR of the groups.
pub open spec fn groups_cbor(v: Seq<(Seq<char>, ProcessedView)>) -> Seq<(Seq<char>, CborValue)>
    decreases v,
{
    if v.len() == 0 {
        Seq::empty()
    } else {
        map_put(groups_cbor(v.drop_last()), v.last().0, processed_cbor(v.last().1))
    }
}

/// The number under `key`: 0 for none, and for a negative one.
pub open spec fn count_at(v: CborValue, key: Seq<char>) -> nat {
    match v.long_at(key) {
        Some(n) => if n > 0 { n as nat } else { 0 },
        None => 0,
    }
}

/// The state that a value describes: what it lacks has not been processed.
pub open spec fn processed_from(v: CborValue) -> ProcessedView
    decreases v,
{
    ProcessedView {
        read_caps: count_at(v, "rc"@),
        write_caps: count_at(v, "wc"@),
        read_cap_bytes: count_at(v, "rb"@),
        write_cap_bytes: count_at(v, "wb"@),
        groups: match v {
            CborValue::Mapping(e) => groups_at(e),
            _ => Seq::empty(),
        },
    }
}

/// The groups that the entries of a state describe.
pub open spec fn groups_at(e: Seq<(Seq<char>, CborValue)>) -> Seq<(Seq<char>, ProcessedView)>
    decreases e,
{
    if e.len() == 0 {
        Seq::empty()
    } else if e[0].0 == "g"@ {
        match e[0].1 {
            CborValue::Mapping(g) => groups_from(g),
            _ => Seq::empty(),
        }
    } else {
        groups_at(e.skip(1))
    }
}

/// The groups that the entries of a map describe.
pub open spec fn groups_from(g: Seq<(Seq<char>, CborValue)>) -> Seq<(Seq<char>, ProcessedView)>
    decreases g,
{
    if g.len() == 0 {
        Seq::empty()
    } else {
        with_group(groups_from(g.drop_last()), g.last().0, processed_from(g.last().1))
    }
}

proof fn lemma_groups_at(e: Seq<(Seq<char>, CborValue)>)
    ensures
        groups_at(e) == match map_get(e, "g"@) {
            Some(CborValue::Mapping(g)) => groups_from(g),
            _ => Seq::empty(),
        },
    decreases e.len(),
{
    if e.len() > 0 && e[0].0 != "g"@ {
        lemma_groups_at(e.skip(1));
    }
}

impl ProcessedCaps {
    /// Nothing has been processed.
    pub fn new() -> (r: ProcessedCaps)
        ensures
            r@ == nothing_processed(),
    {
        broadcast use lemma_groups_view;

        let r = ProcessedCaps {
            read_caps: 0,
            write_caps: 0,
            read_cap_bytes: 0,
            write_cap_bytes: 0,
            groups: Vec::new(),
        };
        proof {
            assert(r@.groups =~= Seq::empty());
        }
        r
    }

    pub fn to_cbor(&self) -> (r: CborObject)
        ensures
            r@ == processed_cbor(self@),
        decreases self,
    {
        broadcast use lemma_groups_view;

        let mut g = CborObject::map();
        let ghost gv = group_views(self.groups@);
        proof {
            assert(gv.take(0) =~= Seq::empty());
        }
        for i in 0..self.groups.len()
            invariant
                gv == group_views(self.groups@),
                g@ == groups_cbor(gv.take(i as int)),
        {
            proof {
                assert(gv.take(i as int + 1).drop_last() =~= gv.take(i as int));
                assert(gv.take(i as int + 1).last() == (self.groups[i as int].0@, self.groups[i as int].1@));
                assert(decreases_to!(self.groups => self.groups[i as int]));
            }
            g = g.put(self.groups[i].0.as_str(), self.groups[i].1.to_cbor());
        }
        proof {
            assert(gv.take(gv.len() as int) =~= gv);
        }
        CborObject::map().put("rc", CborObject::Long(signed(self.read_caps))).put(
            "wc",
            CborObject::Long(signed(self.write_caps)),
        ).put("rb", CborObject::Long(signed(self.read_cap_bytes))).put(
            "wb",
            CborObject::Long(signed(self.write_cap_bytes)),
        ).put("g", g.build()).build()
    }

    pub fn from_cbor(cbor: &CborObject) -> (r: ProcessedCaps)
        ensures
            r@ == processed_from(cbor@),
        decreases cbor,
    {
        broadcast use lemma_groups_view;

        let mut groups: Vec<(String, ProcessedCaps)> = Vec::new();
        proof {
            assert(group_views(groups@) =~= Seq::empty());
            match cbor@ {
                CborValue::Mapping(e) => {
                    lemma_groups_at(e);
                },
                _ => {},
            }
        }
        match cbor.get("g") {
            Some(c) => match c {
                CborObject::Mapping(map) => {
                    let ghost mv = pairs(map@);
                    proof {
                        assert(mv.take(0) =~= Seq::empty());
                    }
                    for i in 0..map.len()
                        invariant
                            mv == pairs(map@),
                            *c == CborObject::Mapping(*map),
                            decreases_to!(*cbor => *c),
                            group_views(groups@) == groups_from(mv.take(i as int)),
                    {
                        proof {
                            assert(mv.take(i as int + 1).drop_last() =~= mv.take(i as int));
                            assert(mv.take(i as int + 1).last() == (map[i as int].0@, map[i as int].1@));
                            assert(*map == c->Mapping_0);
                            assert(decreases_to!(*map => map[i as int]));
                        }
                        let p = ProcessedCaps::from_cbor(&map[i].1);
                        put_group(&mut groups, map[i].0.as_str(), p);
                    }
                    proof {
                        assert(mv.take(mv.len() as int) =~= mv);
                    }
                },
                _ => {},
            },
            None => {},
        }
        let r = ProcessedCaps {
            read_caps: count(cbor, "rc"),
            write_caps: count(cbor, "wc"),
            read_cap_bytes: count(cbor, "rb"),
            write_cap_bytes: count(cbor, "wb"),
            groups,
        };
        r
    }

    /// A copy of this state.
    pub fn dup(&self) -> (r: ProcessedCaps)
        ensures
            r@ == self@,
        decreases self,
    {
        broadcast use lemma_groups_view;

        let mut groups: Vec<(String, ProcessedCaps)> = Vec::new();
        for i in 0..self.groups.len()
            invariant
                groups.len() == i,
                forall|k: int|
                    0 <= k < i ==> (#[trigger] groups[k]).0@ == self.groups[k].0@ && groups[k].1@ == self.groups[k].1@,
        {
            proof {
                assert(decreases_to!(self.groups => self.groups[i as int]));
            }
            groups.push((self.groups[i].0.clone(), self.groups[i].1.dup()));
        }
        let r = ProcessedCaps {
            read_caps: self.read_caps,
            write_caps: self.write_caps,
            read_cap_bytes: self.read_cap_bytes,
            write_cap_bytes: self.write_cap_bytes,
            groups,
        };
        proof {
            assert(r@.groups =~= self@.groups);
        }
        r
    }

    /// The state of a group: nothing has been processed of one that is not known.
    pub fn group(&self, uid: &str) -> (r: ProcessedCaps)
        ensures
            r@ == match group_state(self@.groups, uid@) {
                Some(p) => p,
                None => nothing_processed(),
            },
    {
        broadcast use lemma_groups_view;

        let ghost gv = group_views(self.groups@);
        proof {
            assert(gv.skip(0) =~= gv);
        }
        for i in 0..self.groups.len()
            invariant
                gv == group_views(self.groups@),
                gv == self@.groups,
                group_state(gv, uid@) == group_state(gv.skip(i as int), uid@),
        {
            proof {
                assert(gv.skip(i as int)[0] == (self.groups[i as int].0@, self.groups[i as int].1@));
                assert(gv.skip(i as int).skip(1) =~= gv.skip(i as int + 1));
            }
            if same_text(self.groups[i].0.as_str(), uid) {
                return self.groups[i].1.dup();
            }
        }
        ProcessedCaps::new()
    }

    /// Sets the state of a group.
    pub fn set_group(&mut self, uid: &str, p: ProcessedCaps)
        ensures
            final(self)@ == (ProcessedView { groups: with_group(old(self)@.groups, uid@, p@), ..old(self)@ }),
    {
        broadcast use lemma_groups_view;

        put_group(&mut self.groups, uid, p);
    }
}

/// Puts the state of a group among the others.
fn put_group(groups: &mut Vec<(String, ProcessedCaps)>, uid: &str, p: ProcessedCaps)
    ensures
        group_views(final(groups)@) == with_group(group_views(old(groups)@), uid@, p@),
{
    let ghost start = group_views(groups@);
    let ghost g0 = groups@;
    let mut i: usize = 0;
    proof {
        assert(start.skip(0) =~= start);
        assert(start.take(0) + with_group(start.skip(0), uid@, p@) =~= with_group(start, uid@, p@));
    }
    while i < groups.len()
        invariant
            i <= groups.len(),
            groups@ == g0,
            g0 == old(groups)@,
            start == group_views(g0),
            with_group(start, uid@, p@) == start.take(i as int) + with_group(start.skip(i as int), uid@, p@),
        decreases groups.len() - i,
    {
        proof {
            assert(start.skip(i as int)[0] == start[i as int]);
            assert(start.skip(i as int).skip(1) =~= start.skip(i as int + 1));
        }
        let ghost pv = p@;
        if same_text(groups[i].0.as_str(), uid) {
            groups[i].1 = p;
            proof {
                assert(group_views(groups@) =~= start.take(i as int) + (seq![(uid@, pv)] + start.skip(i as int + 1)));
            }
            return;
        }
        if crate::cbor::is_key_before(uid, groups[i].0.as_str()) {
            groups.insert(i, (uid.to_owned(), p));
            proof {
                assert(group_views(groups@) =~= start.take(i as int) + (seq![(uid@, pv)] + start.skip(i as int)));
            }
            return;
        }
        proof {
            assert(start.take(i as int) + (seq![start[i as int]] + with_group(start.skip(i as int + 1), uid@, p@))
                =~= start.take(i as int + 1) + with_group(start.skip(i as int + 1), uid@, p@));
        }
        i += 1;
    }
    let ghost pv = p@;
    groups.push((uid.to_owned(), p));
    proof {
        assert(start.skip(i as int) =~= Seq::empty());
        assert(group_views(groups@) =~= start.take(i as int) + seq![(uid@, pv)]);
    }
}

/// The number under `key`.
pub fn count(cbor: &CborObject, key: &str) -> (r: u64)
    ensures
        r == count_at(cbor@, key@),
{
    match cbor.long_at(key) {
        Some(n) => if n > 0 { n as u64 } else { 0 },
        None => 0,
    }
}

/// An unsigned number as the signed one with the same bits.
pub fn signed(n: u64) -> (r: i64)
    ensures
        r == as_signed(n as nat),
{
    if n > i64::MAX as u64 {
        (n as i128 - 0x1_0000_0000_0000_0000) as i64
    } else {
        n as i64
    }
}

/// The groups stand in order, each once, and all their numbers fit a signed number.
pub open spec fn is_ordered(p: ProcessedView) -> bool
    decreases p,
{
    &&& p.read_caps <= i64::MAX
    &&& p.write_caps <= i64::MAX
    &&& p.read_cap_bytes <= i64::MAX
    &&& p.write_cap_bytes <= i64::MAX
    &&& are_ordered(p.groups)
}

/// The groups stand in order, each once.
pub open spec fn are_ordered(v: Seq<(Seq<char>, ProcessedView)>) -> bool
    decreases v,
{
    v.len() == 0 || {
        &&& are_ordered(v.drop_last())
        &&& is_ordered(v.last().1)
        &&& forall|i: int|
            0 <= i < v.len() - 1 ==> (#[trigger] v[i]).0 != v.last().0 && !key_before(v.last().0, v[i].0)
    }
}

proof fn lemma_put_at_end(e: Seq<(Seq<char>, CborValue)>, k: Seq<char>, v: CborValue)
    requires
        forall|i: int| 0 <= i < e.len() ==> (#[trigger] e[i]).0 != k && !key_before(k, e[i].0),
    ensures
        map_put(e, k, v) == e.push((k, v)),
    decreases e.len(),
{
    if e.len() > 0 {
        assert(e[0].0 != k && !key_before(k, e[0].0));
        assert forall|i: int| 0 <= i < e.skip(1).len() implies (#[trigger] e.skip(1)[i]).0 != k && !key_before(
            k,
            e.skip(1)[i].0,
        ) by {
            assert(e.skip(1)[i] == e[i + 1]);
        }
        lemma_put_at_end(e.skip(1), k, v);
        assert(seq![e[0]] + e.skip(1).push((k, v)) =~= e.push((k, v)));
    } else {
        assert(seq![(k, v)] =~= e.push((k, v)));
    }
}

proof fn lemma_group_at_end(v: Seq<(Seq<char>, ProcessedView)>, k: Seq<char>, p: ProcessedView)
    requires
        forall|i: int| 0 <= i < v.len() ==> (#[trigger] v[i]).0 != k && !key_before(k, v[i].0),
    ensures
        with_group(v, k, p) == v.push((k, p)),
    decreases v.len(),
{
    if v.len() > 0 {
        assert(v[0].0 != k && !key_before(k, v[0].0));
        assert forall|i: int| 0 <= i < v.skip(1).len() implies (#[trigger] v.skip(1)[i]).0 != k && !key_before(
            k,
            v.skip(1)[i].0,
        ) by {
            assert(v.skip(1)[i] == v[i + 1]);
        }
        lemma_group_at_end(v.skip(1), k, p);
        assert(seq![v[0]] + v.skip(1).push((k, p)) =~= v.push((k, p)));
    } else {
        assert(seq![(k, p)] =~= v.push((k, p)));
    }
}

pub proof fn lemma_groups_round_trip(v: Seq<(Seq<char>, ProcessedView)>)
    requires
        are_ordered(v),
    ensures
        groups_from(groups_cbor(v)) == v,
        groups_cbor(v).len() == v.len(),
        forall|i: int| 0 <= i < v.len() ==> (#[trigger] groups_cbor(v)[i]).0 == v[i].0,
    decreases v,
{
    if v.len() > 0 {
        let init = v.drop_last();
        let e = groups_cbor(init);
        lemma_groups_round_trip(init);
        law_processed_round_trip(v.last().1);
        assert forall|i: int| 0 <= i < e.len() implies (#[trigger] e[i]).0 != v.last().0 && !key_before(
            v.last().0,
            e[i].0,
        ) by {
            assert(e[i].0 == init[i].0);
            assert(init[i] == v[i]);
        }
        lemma_put_at_end(e, v.last().0, processed_cbor(v.last().1));
        let g = groups_cbor(v);
        assert(g == e.push((v.last().0, processed_cbor(v.last().1))));
        assert(g.drop_last() =~= e);
        assert forall|i: int| 0 <= i < init.len() implies (#[trigger] init[i]).0 != v.last().0 && !key_before(
            v.last().0,
            init[i].0,
        ) by {
            assert(init[i] == v[i]);
        }
        lemma_group_at_end(init, v.last().0, v.last().1);
        assert(init.push(v.last()) =~= v);
        assert forall|i: int| 0 <= i < v.len() implies (#[trigger] g[i]).0 == v[i].0 by {
            if i < init.len() {
                assert(g[i] == e[i]);
                assert(init[i] == v[i]);
            }
        }
    } else {
        assert(groups_from(groups_cbor(v)) =~= v);
    }
}

/// A state is read back from its CBOR as it was.
pub proof fn law_processed_round_trip(p: ProcessedView)
    requires
        is_ordered(p),
    ensures
        processed_from(processed_cbor(p)) == p,
    decreases p,
{
    reveal_strlit("rc");
    reveal_strlit("wc");
    reveal_strlit("rb");
    reveal_strlit("wb");
    reveal_strlit("g");
    assert("rc"@[0] == 'r' && "rc"@[1] == 'c' && "wc"@[0] == 'w' && "wc"@[1] == 'c' && "rb"@[0] == 'r' && "rb"@[1] == 'b'
        && "wb"@[0] == 'w' && "wb"@[1] == 'b');
    assert("g"@.len() == 1 && "rc"@.len() == 2 && "wc"@.len() == 2 && "rb"@.len() == 2 && "wb"@.len() == 2);
    lemma_groups_round_trip(p.groups);
    lemma_groups_at(processed_cbor(p)->Mapping_0);
}

/// Where the counts of what was read are kept.
pub proof fn law_processed_fields(p: ProcessedView)
    requires
        p.read_caps <= i64::MAX,
        p.write_caps <= i64::MAX,
        p.read_cap_bytes <= i64::MAX,
        p.write_cap_bytes <= i64::MAX,
    ensures
        processed_cbor(p).get("rc"@) == Some(CborValue::Long(p.read_caps as int)),
        processed_cbor(p).get("wc"@) == Some(CborValue::Long(p.write_caps as int)),
        processed_cbor(p).get("rb"@) == Some(CborValue::Long(p.read_cap_bytes as int)),
        processed_cbor(p).get("wb"@) == Some(CborValue::Long(p.write_cap_bytes as int)),
        processed_cbor(p).get("g"@) == Some(CborValue::Mapping(groups_cbor(p.groups))),
{
    reveal_strlit("rc");
    reveal_strlit("wc");
    reveal_strlit("rb");
    reveal_strlit("wb");
    reveal_strlit("g");
    assert("rc"@[0] == 'r' && "rc"@[1] == 'c' && "wc"@[0] == 'w' && "wc"@[1] == 'c');
    assert("rb"@[0] == 'r' && "rb"@[1] == 'b' && "wb"@[0] == 'w' && "wb"@[1] == 'b');
    assert("g"@.len() == 1);
}

/// A count that is missing or negative is read as none; every other one is read as it is.
pub proof fn law_processed_is_read_field_by_field(v: CborValue, n: int)
    ensures
        v.get("rc"@) == Some(CborValue::Long(n)) && n >= 0 ==> processed_from(v).read_caps == n,
        v.get("wc"@) == Some(CborValue::Long(n)) && n >= 0 ==> processed_from(v).write_caps == n,
        v.get("rb"@) == Some(CborValue::Long(n)) && n >= 0 ==> processed_from(v).read_cap_bytes == n,
        v.get("wb"@) == Some(CborValue::Long(n)) && n >= 0 ==> processed_from(v).write_cap_bytes == n,
        v.get("rc"@) == Some(CborValue::Long(n)) && n < 0 ==> processed_from(v).read_caps == 0,
        v.get("rc"@) is None ==> processed_from(v).read_caps == 0,
        v.get("wc"@) is None ==> processed_from(v).write_caps == 0,
        v.get("rb"@) is None ==> processed_from(v).read_cap_bytes == 0,
        v.get("wb"@) is None ==> processed_from(v).write_cap_bytes == 0,
{
}

/// Before anything was read all counts are none.
pub proof fn law_nothing_processed()
    ensures
        nothing_processed().read_caps == 0,
        nothing_processed().write_caps == 0,
        nothing_processed().read_cap_bytes == 0,
        nothing_processed().write_cap_bytes == 0,
        nothing_processed().groups.len() == 0,
{
}

} // verus!
