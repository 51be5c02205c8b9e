//! Taking in what a friend has newly shared.
use vstd::prelude::*;
use vstd::utf8::*;
use crate::capability::{cap_cbor, cap_from, is_readable_cap, law_cap_round_trip, AbsoluteCapability, CapView};
use crate::cbor::{key_before, lemma_get_put, map_get, map_put, pairs, CborObject, CborValue};
use crate::error::{error_is, opt, Fault, Result};
use crate::incoming::processed::{
    group_state, nothing_processed, with_group, ProcessedCaps, ProcessedView,
};
use crate::incoming::{components, group_of_path, group_uid_from_path, mirrored, split_path, ElementView};
use crate::paths::texts;
use crate::text::{
    bytes_before, is_before, lemma_before_irreflexive, lemma_before_total, lemma_before_transitive, same_bytes, same_text,
};
use crate::opaque::Formats;

verus! {

broadcast use crate::cbor::group_cbor;

/// A capability and the path that it was shared under.
#[derive(Debug, PartialEq, Eq)]
pub struct CapabilityWithPath {
    pub path: String,
    pub cap: AbsoluteCapability,
}

impl View for CapabilityWithPath {
    type V = (Seq<char>, CapView);

    open spec fn view(&self) -> (Seq<char>, CapView) {
        (self.path@, self.cap@)
    }
}

/// The contents of a list of shared capabilities.
pub open spec fn shared(v: Seq<CapabilityWithPath>) -> Seq<(Seq<char>, CapView)> {
    Seq::new(v.len(), |i: int| v[i]@)
}

/// What is new in one sharing directory.
#[derive(Debug, PartialEq, Eq)]
pub struct NewCaps {
    pub read_count: u64,
    pub write_count: u64,
    /// How far its streams have been read now.
    pub read_bytes: u64,
    pub write_bytes: u64,
    pub caps: Vec<CapabilityWithPath>,
}

/// The content of a [`NewCaps`].
pub ghost struct NewCapsView {
    pub read_count: nat,
    pub write_count: nat,
    pub read_bytes: nat,
    pub write_bytes: nat,
    pub caps: Seq<(Seq<char>, CapView)>,
}

impl View for NewCaps {
    type V = NewCapsView;

    open spec fn view(&self) -> NewCapsView {
        NewCapsView {
            read_count: self.read_count as nat,
            write_count: self.write_count as nat,
            read_bytes: self.read_bytes as nat,
            write_bytes: self.write_bytes as nat,
            caps: shared(self.caps@),
        }
    }
}

impl NewCaps {
    /// What the read and the write stream of a sharing directory gave: the capabilities
    /// to read come before those to write.
    pub fn of(
        read: Vec<CapabilityWithPath>,
        read_bytes: u64,
        write: Vec<CapabilityWithPath>,
        write_bytes: u64,
    ) -> (r: NewCaps)
        ensures
            r@ == (NewCapsView {
                read_count: read@.len(),
                write_count: write@.len(),
                read_bytes: read_bytes as nat,
                write_bytes: write_bytes as nat,
                caps: shared(read@) + shared(write@),
            }),
    {
        let read_count: u64 = read.len() as u64;
        let write_count: u64 = write.len() as u64;
        let mut caps = read;
        let mut more = write;
        let ghost a = shared(caps@);
        let ghost b = shared(more@);
        caps.append(&mut more);
        proof {
            assert(shared(caps@) =~= a + b);
        }
        NewCaps { read_count, write_count, read_bytes, write_bytes, caps }
    }
}

/// Whether an update can be skipped: no group was asked for, and the pointer of the
/// friend's writer is where it was at the last update. The friend's sharing dir and
/// their group dirs all live under that writer.
pub fn nothing_new(no_groups: bool, cached: Option<&Option<Vec<u8>>>, latest: &Option<Vec<u8>>) -> (r: bool)
    ensures
        r == (no_groups && cached is Some && opt(*cached->Some_0) == opt(*latest)),
{
    if !no_groups {
        return false;
    }
    match cached {
        None => false,
        Some(prev) => match (prev, latest) {
            (None, None) => true,
            (Some(a), Some(b)) => same_bytes(a, b),
            _ => false,
        },
    }
}

/// Sharing directories of groups, by uid.
pub open spec fn dirs(v: Seq<(String, AbsoluteCapability)>) -> Seq<(Seq<char>, CapView)> {
    Seq::new(v.len(), |i: int| (v[i].0@, v[i].1@))
}

/// The directories with this one for a group, in place of what it had. They stand in
/// the order of the uids.
pub open spec fn with_dir(v: Seq<(Seq<char>, CapView)>, uid: Seq<char>, cap: CapView) -> Seq<(Seq<char>, CapView)>
    decreases v.len(),
{
    if v.len() == 0 {
        seq![(uid, cap)]
    } else if v[0].0 == uid {
        seq![(uid, cap)] + v.skip(1)
    } else if bytes_before(encode_utf8(uid), encode_utf8(v[0].0)) {
        seq![(uid, cap)] + v
    } else {
        seq![v[0]] + with_dir(v.skip(1), uid, cap)
    }
}

/// The directories with all of these.
pub open spec fn with_dirs(v: Seq<(Seq<char>, CapView)>, more: Seq<(Seq<char>, CapView)>) -> Seq<(Seq<char>, CapView)>
    decreases more.len(),
{
    if more.len() == 0 {
        v
    } else {
        with_dir(with_dirs(v, more.drop_last()), more.last().0, more.last().1)
    }
}

/// Puts the directory of a group among the others.
pub fn put_dir(v: &mut Vec<(String, AbsoluteCapability)>, uid: &str, cap: AbsoluteCapability)
    ensures
        dirs(final(v)@) == with_dir(dirs(old(v)@), uid@, cap@),
{
    let ghost start = dirs(v@);
    let ghost v0 = v@;
    let mut i: usize = 0;
    proof {
        assert(start.skip(0) =~= start);
        assert(start.take(0) + with_dir(start.skip(0), uid@, cap@) =~= with_dir(start, uid@, cap@));
    }
    while i < v.len()
        invariant
            i <= v.len(),
            v@ == v0,
            v0 == old(v)@,
            start == dirs(v0),
            with_dir(start, uid@, cap@) == start.take(i as int) + with_dir(start.skip(i as int), uid@, cap@),
        decreases v.len() - i,
    {
        proof {
            assert(start.skip(i as int)[0] == start[i as int]);
            assert(start.skip(i as int).skip(1) =~= start.skip(i as int + 1));
        }
        let ghost cv = cap@;
        if same_text(v[i].0.as_str(), uid) {
            v[i].1 = cap;
            proof {
                assert(dirs(v@) =~= start.take(i as int) + (seq![(uid@, cv)] + start.skip(i as int + 1)));
            }
            return;
        }
        if is_before(uid.as_bytes(), v[i].0.as_str().as_bytes()) {
            v.insert(i, (uid.to_owned(), cap));
            proof {
                assert(dirs(v@) =~= start.take(i as int) + (seq![(uid@, cv)] + start.skip(i as int)));
            }
            return;
        }
        proof {
            assert(start.take(i as int) + (seq![start[i as int]] + with_dir(start.skip(i as int + 1), uid@, cap@))
                =~= start.take(i as int + 1) + with_dir(start.skip(i as int + 1), uid@, cap@));
        }
        i += 1;
    }
    let ghost cv = cap@;
    v.push((uid.to_owned(), cap));
    proof {
        assert(start.skip(i as int) =~= Seq::empty());
        assert(dirs(v@) =~= start.take(i as int) + seq![(uid@, cv)]);
    }
}

/// The entries of the CBOR of the directories.
pub open spec fn dirs_cbor(v: Seq<(Seq<char>, CapView)>) -> Seq<(Seq<char>, CborValue)>
    decreases v.len(),
{
    if v.len() == 0 {
        Seq::empty()
    } else {
        map_put(dirs_cbor(v.drop_last()), v.last().0, cap_cbor(v.last().1))
    }
}

/// The directories that the entries of a map describe, up to the first that is none.
pub open spec fn dirs_from(e: Seq<(Seq<char>, CborValue)>, formats: &Formats) -> core::result::Result<Seq<(Seq<char>, CapView)>, Fault>
    decreases e.len(),
{
    if e.len() == 0 {
        Ok(Seq::empty())
    } else {
        match (dirs_from(e.drop_last(), formats), cap_from(e.last().1, formats)) {
            (Err(f), _) => Err(f),
            (_, Err(f)) => Err(f),
            (Ok(v), Ok(cap)) => Ok(with_dir(v, e.last().0, cap)),
        }
    }
}

/// The CBOR of the directories of a friend's groups.
pub fn dirs_to_cbor(v: &Vec<(String, AbsoluteCapability)>) -> (r: CborObject)
    ensures
        r@ == CborValue::Mapping(dirs_cbor(dirs(v@))),
{
    let ghost dv = dirs(v@);
    let mut b = CborObject::map();
    proof {
        assert(dv.take(0) =~= Seq::empty());
    }
    for i in 0..v.len()
        invariant
            dv == dirs(v@),
            b@ == dirs_cbor(dv.take(i as int)),
    {
        proof {
            assert(dv.take(i as int + 1).drop_last() =~= dv.take(i as int));
            assert(dv.take(i as int + 1).last() == (v[i as int].0@, v[i as int].1@));
        }
        b = b.put(v[i].0.as_str(), v[i].1.to_cbor());
    }
    proof {
        assert(dv.take(dv.len() as int) =~= dv);
    }
    b.build()
}

proof fn lemma_dirs_fail(e: Seq<(Seq<char>, CborValue)>, n: int, formats: &Formats)
    requires
        0 <= n <= e.len(),
        dirs_from(e.take(n), formats) is Err,
    ensures
        dirs_from(e, formats) == dirs_from(e.take(n), formats),
    decreases e.len(),
{
    if n < e.len() {
        assert(e.drop_last().take(n) =~= e.take(n));
        lemma_dirs_fail(e.drop_last(), n, formats);
    } else {
        assert(e.take(n) =~= e);
    }
}

/// The directories of a friend's groups: none, if the value is no map.
pub fn dirs_of_cbor(cbor: &CborObject, formats: &Formats) -> (r: Result<Vec<(String, AbsoluteCapability)>>)
    ensures
        match cbor@ {
            CborValue::Mapping(e) => match dirs_from(e, formats) {
                Ok(v) => r is Ok && dirs(r->Ok_0@) == v,
                Err(f) => r is Err && error_is(r->Err_0, f),
            },
            _ => r is Ok && r->Ok_0@.len() == 0,
        },
{
    let mut out: Vec<(String, AbsoluteCapability)> = Vec::new();
    match cbor.as_map() {
        None => Ok(out),
        Some(m) => {
            let ghost e = pairs(m@);
            proof {
                assert(e.take(0) =~= Seq::empty());
                assert(dirs(out@) =~= Seq::empty());
            }
            for i in 0..m.len()
                invariant
                    e == pairs(m@),
                    cbor@ == CborValue::Mapping(e),
                    dirs_from(e.take(i as int), formats) == Ok::<Seq<(Seq<char>, CapView)>, Fault>(dirs(out@)),
            {
                proof {
                    assert(e.take(i as int + 1).drop_last() =~= e.take(i as int));
                    assert(e.take(i as int + 1).last() == (m[i as int].0@, m[i as int].1@));
                }
                match AbsoluteCapability::from_cbor(&m[i].1, formats) {
                    Ok(cap) => {
                        put_dir(&mut out, m[i].0.as_str(), cap);
                    },
                    Err(x) => {
                        proof {
                            lemma_dirs_fail(e, i as int + 1, formats);
                        }
                        return Err(x);
                    },
                }
            }
            proof {
                assert(e.take(e.len() as int) =~= e);
            }
            Ok(out)
        },
    }
}

/// The sharing directory of a group.
pub open spec fn dir_of(v: Seq<(Seq<char>, CapView)>, uid: Seq<char>) -> Option<CapView>
    decreases v.len(),
{
    if v.len() == 0 {
        None
    } else if v[0].0 == uid {
        Some(v[0].1)
    } else {
        dir_of(v.skip(1), uid)
    }
}

/// The directory of a group is the one that was put last, and every other group has the one
/// it had.
pub proof fn law_dir_of(v: Seq<(Seq<char>, CapView)>, uid: Seq<char>, cap: CapView, other: Seq<char>)
    ensures
        dir_of(with_dir(v, uid, cap), other) == if other == uid {
            Some(cap)
        } else {
            dir_of(v, other)
        },
    decreases v.len(),
{
    let w = with_dir(v, uid, cap);
    if v.len() == 0 {
        assert(w.skip(1) =~= v);
    } else if v[0].0 == uid {
        assert(w.skip(1) =~= v.skip(1));
    } else if bytes_before(encode_utf8(uid), encode_utf8(v[0].0)) {
        assert(w.skip(1) =~= v);
    } else {
        assert(w.skip(1) =~= with_dir(v.skip(1), uid, cap));
        law_dir_of(v.skip(1), uid, cap, other);
    }
}

/// The keys of a map stand in their order, each once.
spec fn has_sorted_keys(e: Seq<(Seq<char>, CborValue)>) -> bool {
    forall|i: int, j: int| 0 <= i < j < e.len() ==> key_before((#[trigger] e[i]).0, (#[trigger] e[j]).0)
}

proof fn lemma_keys_compare(a: Seq<char>, b: Seq<char>)
    ensures
        a == b || key_before(a, b) || key_before(b, a),
        !key_before(a, a),
{
    encode_utf8_decode_utf8(a);
    encode_utf8_decode_utf8(b);
    lemma_before_total(encode_utf8(a), encode_utf8(b));
    lemma_before_irreflexive(encode_utf8(a));
}

proof fn lemma_keys_chain(a: Seq<char>, b: Seq<char>, c: Seq<char>)
    requires
        key_before(a, b),
        key_before(b, c),
    ensures
        key_before(a, c),
{
    if encode_utf8(a).len() == encode_utf8(b).len() && encode_utf8(b).len() == encode_utf8(c).len() {
        lemma_before_transitive(encode_utf8(a), encode_utf8(b), encode_utf8(c));
    }
}

proof fn lemma_put_sorted(e: Seq<(Seq<char>, CborValue)>, k: Seq<char>, v: CborValue)
    requires
        has_sorted_keys(e),
    ensures
        has_sorted_keys(map_put(e, k, v)),
        forall|i: int|
            0 <= i < map_put(e, k, v).len() ==> (#[trigger] map_put(e, k, v)[i]).0 == k || exists|j: int|
                0 <= j < e.len() && (#[trigger] e[j]).0 == map_put(e, k, v)[i].0,
    decreases e.len(),
{
    let m = map_put(e, k, v);
    if e.len() > 0 {
        lemma_keys_compare(k, e[0].0);
        if e[0].0 == k {
            assert forall|i: int, j: int| 0 <= i < j < m.len() implies key_before((#[trigger] m[i]).0, (#[trigger] m[j]).0) by {
                assert(m[j] == e[j]);
                assert(key_before(e[i].0, e[j].0));
            }
            assert forall|i: int| 0 <= i < m.len() implies (#[trigger] m[i]).0 == k || exists|j: int|
                0 <= j < e.len() && (#[trigger] e[j]).0 == m[i].0 by {
                if i > 0 {
                    assert(e[i] == m[i]);
                }
            }
        } else if key_before(k, e[0].0) {
            assert forall|i: int, j: int| 0 <= i < j < m.len() implies key_before((#[trigger] m[i]).0, (#[trigger] m[j]).0) by {
                assert(m[j] == e[j - 1]);
                if i == 0 {
                    if j > 1 {
                        assert(key_before(e[0].0, e[j - 1].0));
                        lemma_keys_chain(k, e[0].0, e[j - 1].0);
                    }
                } else {
                    assert(m[i] == e[i - 1]);
                }
            }
            assert forall|i: int| 0 <= i < m.len() implies (#[trigger] m[i]).0 == k || exists|j: int|
                0 <= j < e.len() && (#[trigger] e[j]).0 == m[i].0 by {
                if i > 0 {
                    assert(e[i - 1] == m[i]);
                }
            }
        } else {
            let rest = e.skip(1);
            let n = map_put(rest, k, v);
            assert forall|i: int, j: int| 0 <= i < j < rest.len() implies key_before(
                (#[trigger] rest[i]).0,
                (#[trigger] rest[j]).0,
            ) by {
                assert(rest[i] == e[i + 1] && rest[j] == e[j + 1]);
            }
            lemma_put_sorted(rest, k, v);
            assert forall|i: int| 0 <= i < m.len() implies (#[trigger] m[i]).0 == k || exists|j: int|
                0 <= j < e.len() && (#[trigger] e[j]).0 == m[i].0 by {
                if i == 0 {
                    assert(e[0] == m[0]);
                } else {
                    assert(m[i] == n[i - 1]);
                    if n[i - 1].0 != k {
                        let j = choose|j: int| 0 <= j < rest.len() && (#[trigger] rest[j]).0 == n[i - 1].0;
                        assert(e[j + 1] == rest[j]);
                    }
                }
            }
            assert forall|i: int, j: int| 0 <= i < j < m.len() implies key_before((#[trigger] m[i]).0, (#[trigger] m[j]).0) by {
                assert(m[j] == n[j - 1]);
                if i > 0 {
                    assert(m[i] == n[i - 1]);
                } else if n[j - 1].0 != k {
                    let x = choose|x: int| 0 <= x < rest.len() && (#[trigger] rest[x]).0 == n[j - 1].0;
                    assert(e[x + 1] == rest[x]);
                    assert(key_before(e[0].0, e[x + 1].0));
                }
            }
        }
    }
}

proof fn lemma_dirs_cbor_sorted(v: Seq<(Seq<char>, CapView)>)
    ensures
        has_sorted_keys(dirs_cbor(v)),
    decreases v.len(),
{
    if v.len() > 0 {
        lemma_dirs_cbor_sorted(v.drop_last());
        lemma_put_sorted(dirs_cbor(v.drop_last()), v.last().0, cap_cbor(v.last().1));
    }
}

proof fn lemma_get_last(e: Seq<(Seq<char>, CborValue)>, key: Seq<char>)
    requires
        e.len() > 0,
    ensures
        map_get(e, key) == match map_get(e.drop_last(), key) {
            Some(c) => Some(c),
            None => if e.last().0 == key {
                Some(e.last().1)
            } else {
                None
            },
        },
        map_get(e.drop_last(), key) is Some ==> exists|i: int| 0 <= i < e.len() - 1 && (#[trigger] e[i]).0 == key,
    decreases e.len(),
{
    let init = e.drop_last();
    if e.len() > 1 {
        assert(e.skip(1).drop_last() =~= init.skip(1));
        lemma_get_last(e.skip(1), key);
        if init[0].0 == key {
            assert(e[0].0 == key);
        } else if map_get(init, key) is Some {
            let r = e.skip(1);
            let i = choose|i: int| 0 <= i < r.len() - 1 && (#[trigger] r[i]).0 == key;
            assert(e[i + 1] == r[i]);
        }
    } else {
        assert(init =~= Seq::empty());
        assert(e.skip(1) =~= Seq::empty());
    }
}

proof fn lemma_dirs_from(e: Seq<(Seq<char>, CborValue)>, uid: Seq<char>, formats: &Formats)
    requires
        has_sorted_keys(e),
        forall|i: int| 0 <= i < e.len() ==> cap_from((#[trigger] e[i]).1, formats) is Ok,
    ensures
        dirs_from(e, formats) is Ok,
        dir_of(dirs_from(e, formats)->Ok_0, uid) == match map_get(e, uid) {
            Some(c) => Some(cap_from(c, formats)->Ok_0),
            None => None,
        },
    decreases e.len(),
{
    if e.len() > 0 {
        let init = e.drop_last();
        assert forall|i: int| 0 <= i < init.len() implies cap_from((#[trigger] init[i]).1, formats) is Ok by {
            assert(init[i] == e[i]);
        }
        assert(has_sorted_keys(init)) by {
            assert forall|i: int, j: int| 0 <= i < j < init.len() implies key_before(
                (#[trigger] init[i]).0,
                (#[trigger] init[j]).0,
            ) by {
                assert(init[i] == e[i] && init[j] == e[j]);
            }
        }
        lemma_dirs_from(init, uid, formats);
        assert(cap_from(e[e.len() - 1].1, formats) is Ok);
        law_dir_of(dirs_from(init, formats)->Ok_0, e.last().0, cap_from(e.last().1, formats)->Ok_0, uid);
        lemma_get_last(e, uid);
        if e.last().0 == uid && map_get(init, uid) is Some {
            let i = choose|i: int| 0 <= i < e.len() - 1 && (#[trigger] e[i]).0 == uid;
            assert(key_before(e[i].0, e[e.len() - 1].0));
            lemma_keys_compare(uid, uid);
        }
    }
}

proof fn lemma_dirs_values(v: Seq<(Seq<char>, CapView)>, uid: Seq<char>)
    requires
        forall|i: int, j: int| 0 <= i < j < v.len() ==> (#[trigger] v[i]).0 != (#[trigger] v[j]).0,
    ensures
        map_get(dirs_cbor(v), uid) == match dir_of(v, uid) {
            Some(c) => Some(cap_cbor(c)),
            None => None,
        },
    decreases v.len(),
{
    if v.len() > 0 {
        let init = v.drop_last();
        assert forall|i: int, j: int| 0 <= i < j < init.len() implies (#[trigger] init[i]).0 != (#[trigger] init[j]).0 by {
            assert(init[i] == v[i] && init[j] == v[j]);
        }
        lemma_dirs_values(init, uid);
        lemma_dir_of_last(v, uid);
        lemma_get_put(dirs_cbor(init), v.last().0, cap_cbor(v.last().1), uid);
    }
}

proof fn lemma_dir_of_last(v: Seq<(Seq<char>, CapView)>, uid: Seq<char>)
    requires
        v.len() > 0,
        forall|i: int, j: int| 0 <= i < j < v.len() ==> (#[trigger] v[i]).0 != (#[trigger] v[j]).0,
    ensures
        dir_of(v, uid) == if v.last().0 == uid {
            Some(v.last().1)
        } else {
            dir_of(v.drop_last(), uid)
        },
    decreases v.len(),
{
    let init = v.drop_last();
    if v.len() > 1 {
        let r = v.skip(1);
        assert(r.drop_last() =~= init.skip(1));
        assert forall|i: int, j: int| 0 <= i < j < r.len() implies (#[trigger] r[i]).0 != (#[trigger] r[j]).0 by {
            assert(r[i] == v[i + 1] && r[j] == v[j + 1]);
        }
        lemma_dir_of_last(r, uid);
        assert(v[0].0 != v[v.len() - 1].0);
    } else {
        assert(v.skip(1) =~= Seq::empty());
        assert(init =~= Seq::empty());
    }
}

proof fn lemma_dirs_entries(v: Seq<(Seq<char>, CapView)>, formats: &Formats)
    requires
        forall|i: int| 0 <= i < v.len() ==> is_readable_cap((#[trigger] v[i]).1, formats),
    ensures
        forall|i: int| 0 <= i < dirs_cbor(v).len() ==> cap_from((#[trigger] dirs_cbor(v)[i]).1, formats) is Ok,
    decreases v.len(),
{
    if v.len() > 0 {
        let init = v.drop_last();
        assert forall|i: int| 0 <= i < init.len() implies is_readable_cap((#[trigger] init[i]).1, formats) by {
            assert(init[i] == v[i]);
        }
        lemma_dirs_entries(init, formats);
        assert(is_readable_cap(v[v.len() - 1].1, formats));
        law_cap_round_trip(v.last().1, formats);
        lemma_put_readable(dirs_cbor(init), v.last().0, cap_cbor(v.last().1), formats);
    }
}

proof fn lemma_put_readable(e: Seq<(Seq<char>, CborValue)>, k: Seq<char>, c: CborValue, formats: &Formats)
    requires
        forall|i: int| 0 <= i < e.len() ==> cap_from((#[trigger] e[i]).1, formats) is Ok,
        cap_from(c, formats) is Ok,
    ensures
        forall|i: int| 0 <= i < map_put(e, k, c).len() ==> cap_from((#[trigger] map_put(e, k, c)[i]).1, formats) is Ok,
    decreases e.len(),
{
    let m = map_put(e, k, c);
    if e.len() > 0 {
        let rest = e.skip(1);
        assert forall|i: int| 0 <= i < rest.len() implies cap_from((#[trigger] rest[i]).1, formats) is Ok by {
            assert(rest[i] == e[i + 1]);
        }
        lemma_put_readable(rest, k, c, formats);
        assert forall|i: int| 0 <= i < m.len() implies cap_from((#[trigger] m[i]).1, formats) is Ok by {
            if e[0].0 == k {
                if i > 0 {
                    assert(m[i] == rest[i - 1]);
                }
            } else if key_before(k, e[0].0) {
                if i > 0 {
                    assert(m[i] == e[i - 1]);
                }
            } else if i > 0 {
                assert(m[i] == map_put(rest, k, c)[i - 1]);
            } else {
                assert(m[0] == e[0]);
            }
        }
    }
}

/// The sharing directories of a friend's groups are read back from their CBOR: each group has
/// the directory that it had, and no other group has one.
pub proof fn law_dirs_round_trip(v: Seq<(Seq<char>, CapView)>, uid: Seq<char>, formats: &Formats)
    requires
        forall|i: int| 0 <= i < v.len() ==> is_readable_cap((#[trigger] v[i]).1, formats),
        forall|i: int, j: int| 0 <= i < j < v.len() ==> (#[trigger] v[i]).0 != (#[trigger] v[j]).0,
    ensures
        dirs_from(dirs_cbor(v), formats) is Ok,
        dir_of(dirs_from(dirs_cbor(v), formats)->Ok_0, uid) == dir_of(v, uid),
{
    lemma_dirs_cbor_sorted(v);
    lemma_dirs_entries(v, formats);
    lemma_dirs_from(dirs_cbor(v), uid, formats);
    lemma_dirs_values(v, uid);
    match dir_of(v, uid) {
        Some(c) => {
            lemma_dir_of_in(v, uid);
            law_cap_round_trip(c, formats);
        },
        None => {},
    }
}

proof fn lemma_dir_of_in(v: Seq<(Seq<char>, CapView)>, uid: Seq<char>)
    requires
        dir_of(v, uid) is Some,
    ensures
        exists|i: int| 0 <= i < v.len() && (#[trigger] v[i]) == (uid, dir_of(v, uid)->Some_0),
    decreases v.len(),
{
    if v[0].0 == uid {
        assert(v[0] == (uid, v[0].1));
    } else {
        lemma_dir_of_in(v.skip(1), uid);
        let i = choose|i: int| 0 <= i < v.skip(1).len() && (#[trigger] v.skip(1)[i]) == (uid, dir_of(v, uid)->Some_0);
        assert(v[i + 1] == v.skip(1)[i]);
    }
}

/// How far the streams of a directory have been processed after what is new in it.
pub open spec fn advanced(p: ProcessedView, new: NewCapsView) -> ProcessedView {
    ProcessedView {
        read_caps: p.read_caps + new.read_count,
        write_caps: p.write_caps + new.write_count,
        read_cap_bytes: new.read_bytes,
        write_cap_bytes: new.write_bytes,
        groups: p.groups,
    }
}

/// How far the streams of a directory have been processed after what is new in it.
pub fn advance(p: &ProcessedCaps, new: &NewCaps) -> (r: ProcessedCaps)
    requires
        p.read_caps + new.read_count <= u64::MAX,
        p.write_caps + new.write_count <= u64::MAX,
    ensures
        r@ == advanced(p@, new@),
{
    broadcast use crate::incoming::processed::lemma_groups_view;

    let copy = p.dup();
    ProcessedCaps {
        read_caps: p.read_caps + new.read_count,
        write_caps: p.write_caps + new.write_count,
        read_cap_bytes: new.read_bytes,
        write_cap_bytes: new.write_bytes,
        groups: copy.groups,
    }
}

/// An update from a friend under way.
#[derive(Debug, PartialEq, Eq)]
pub struct FriendUpdate {
    /// How far the friend's streams had been processed.
    pub current: ProcessedCaps,
    /// How far they have been now.
    pub updated: ProcessedCaps,
    /// The sharing directories of the groups that the friend shares into.
    pub group_dirs: Vec<(String, AbsoluteCapability)>,
    /// What is to be added to the mirror.
    pub content: Vec<CapabilityWithPath>,
}

/// The content of a [`FriendUpdate`].
pub ghost struct UpdateView {
    pub current: ProcessedView,
    pub updated: ProcessedView,
    pub group_dirs: Seq<(Seq<char>, CapView)>,
    pub content: Seq<(Seq<char>, CapView)>,
}

impl View for FriendUpdate {
    type V = UpdateView;

    open spec fn view(&self) -> UpdateView {
        UpdateView {
            current: self.current@,
            updated: self.updated@,
            group_dirs: dirs(self.group_dirs@),
            content: shared(self.content@),
        }
    }
}

/// Direct shares sorted: the sharing directory of a group is set aside, so that what is
/// in it can be read at every update, and everything else is content.
pub open spec fn sorted_shares(
    group_dirs: Seq<(Seq<char>, CapView)>,
    content: Seq<(Seq<char>, CapView)>,
    caps: Seq<(Seq<char>, CapView)>,
) -> (Seq<(Seq<char>, CapView)>, Seq<(Seq<char>, CapView)>)
    decreases caps.len(),
{
    if caps.len() == 0 {
        (group_dirs, content)
    } else {
        let (d, c) = sorted_shares(group_dirs, content, caps.drop_last());
        match group_of_path(caps.last().0) {
            Some(uid) => (with_dir(d, uid, caps.last().1), c),
            None => (d, c.push(caps.last())),
        }
    }
}

/// An update after the direct shares.
pub open spec fn after_direct(u: UpdateView, new: NewCapsView) -> UpdateView {
    let (d, c) = sorted_shares(u.group_dirs, u.content, new.caps);
    UpdateView { current: u.current, updated: advanced(u.current, new), group_dirs: d, content: c }
}

/// The state of a group before an update.
pub open spec fn group_before(u: UpdateView, uid: Seq<char>) -> ProcessedView {
    match group_state(u.current.groups, uid) {
        Some(p) => p,
        None => nothing_processed(),
    }
}

/// An update after the shares of one group.
pub open spec fn after_group(u: UpdateView, uid: Seq<char>, new: NewCapsView) -> UpdateView {
    UpdateView {
        updated: ProcessedView {
            groups: with_group(u.updated.groups, uid, advanced(group_before(u, uid), new)),
            ..u.updated
        },
        content: u.content + new.caps,
        ..u
    }
}

impl FriendUpdate {
    /// An update of what was processed, with the group directories that are known:
    /// those that were kept, and those that the caller gives.
    pub fn start(
        current: ProcessedCaps,
        kept: Vec<(String, AbsoluteCapability)>,
        given: &Vec<(String, AbsoluteCapability)>,
    ) -> (r: FriendUpdate)
        ensures
            r@ == (UpdateView {
                current: current@,
                updated: current@,
                group_dirs: with_dirs(dirs(kept@), dirs(given@)),
                content: Seq::empty(),
            }),
    {
        let ghost kv = dirs(kept@);
        let ghost gv = dirs(given@);
        let mut group_dirs = kept;
        proof {
            assert(gv.take(0) =~= Seq::empty());
        }
        for i in 0..given.len()
            invariant
                gv == dirs(given@),
                dirs(group_dirs@) == with_dirs(kv, gv.take(i as int)),
        {
            proof {
                assert(gv.take(i as int + 1).drop_last() =~= gv.take(i as int));
                assert(gv.take(i as int + 1).last() == (given[i as int].0@, given[i as int].1@));
            }
            put_dir(&mut group_dirs, given[i].0.as_str(), given[i].1.dup());
        }
        proof {
            assert(gv.take(gv.len() as int) =~= gv);
        }
        let updated = current.dup();
        let content: Vec<CapabilityWithPath> = Vec::new();
        proof {
            assert(shared(content@) =~= Seq::empty());
        }
        FriendUpdate { current, updated, group_dirs, content }
    }

    /// Takes in what is new in the friend's sharing directory.
    pub fn on_direct(&mut self, new: NewCaps)
        requires
            old(self).current.read_caps + new.read_count <= u64::MAX,
            old(self).current.write_caps + new.write_count <= u64::MAX,
        ensures
            final(self)@ == after_direct(old(self)@, new@),
            final(self)@.content == old(self)@.content + new@.caps.filter(
                |c: (Seq<char>, CapView)| group_of_path(c.0) is None,
            ),
    {
        proof {
            law_direct_shares(self@, new@);
        }
        let ghost d0 = dirs(self.group_dirs@);
        let ghost c0 = shared(self.content@);
        let ghost nv = shared(new.caps@);
        self.updated = advance(&self.current, &new);
        let mut rest = new.caps;
        let ghost n = rest@.len();
        proof {
            assert(rest@ =~= rest@.skip(0));
            assert(nv.take(0) =~= Seq::empty());
        }
        let ghost all = rest@;
        while rest.len() > 0
            invariant
                n == all.len(),
                nv == shared(all),
                rest@.len() <= n,
                rest@ == all.skip(n - rest@.len()),
                self.current == old(self).current,
                self.updated@ == advanced(old(self)@.current, new@),
                (dirs(self.group_dirs@), shared(self.content@)) == sorted_shares(d0, c0, nv.take(n - rest@.len())),
            decreases rest.len(),
        {
            let ghost i = n - rest@.len();
            let ghost before = shared(self.content@);
            let c = rest.remove(0);
            proof {
                assert(c == all[i]);
                assert(rest@ =~= all.skip(i + 1));
                assert(nv.take(i + 1).drop_last() =~= nv.take(i));
                assert(nv.take(i + 1).last() == c@);
            }
            match group_uid_from_path(c.path.as_str()) {
                Some(uid) => {
                    put_dir(&mut self.group_dirs, uid.as_str(), c.cap);
                },
                None => {
                    let ghost cv = c@;
                    self.content.push(c);
                    proof {
                        assert(shared(self.content@) =~= before.push(cv));
                    }
                },
            }
        }
        proof {
            assert(nv.take(n as int) =~= nv);
        }
    }

    /// How far the streams of a group had been processed.
    pub fn group_state(&self, uid: &str) -> (r: ProcessedCaps)
        ensures
            r@ == group_before(self@, uid@),
    {
        self.current.group(uid)
    }

    /// Takes in what is new in the sharing directory of a group.
    pub fn on_group(&mut self, uid: &str, new: NewCaps)
        requires
            group_before(old(self)@, uid@).read_caps + new.read_count <= u64::MAX,
            group_before(old(self)@, uid@).write_caps + new.write_count <= u64::MAX,
        ensures
            final(self)@ == after_group(old(self)@, uid@, new@),
            final(self)@.content == old(self)@.content + new@.caps,
    {
        broadcast use crate::incoming::processed::lemma_groups_view;

        let before = self.current.group(uid);
        let state = advance(&before, &new);
        self.updated.set_group(uid, state);
        let ghost c0 = shared(self.content@);
        let mut more = new.caps;
        let ghost mv = shared(more@);
        self.content.append(&mut more);
        proof {
            assert(shared(self.content@) =~= c0 + mv);
        }
    }
}

/// Where a shared path is mirrored: the directories that lead to it, and its name.
pub fn mirror_place(path: &str) -> (r: Option<(Vec<String>, String)>)
    ensures
        ({
            let c = components(path@);
            if c.len() == 0 {
                r is None
            } else {
                r is Some && texts(r->Some_0.0@) == c.drop_last() && r->Some_0.1@ == c.last()
            }
        }),
{
    let mut comps = split_path(path);
    let ghost c = texts(comps@);
    match comps.pop() {
        None => None,
        Some(name) => {
            proof {
                assert(texts(comps@) =~= c.drop_last());
            }
            Some((comps, name))
        },
    }
}

/// What to do at one level of the mirror.
#[derive(Debug, PartialEq, Eq)]
pub enum MirrorStep {
    /// This is what the path leads to.
    Found(AbsoluteCapability),
    /// Go on in the mirror directory of the component.
    Descend,
    /// Follow this many of the last components through the directory itself.
    Enter(AbsoluteCapability, usize),
    /// The path was not shared.
    NotFound,
}

/// A lookup of a path in the mirror. A read-only directory may be superseded by a more
/// privileged descendant that is mirrored deeper: what was shared deeper is tried
/// first, and the directory itself when nothing is found there.
#[derive(Debug, PartialEq, Eq)]
pub struct MirrorLookup {
    /// How many components are left, the current one among them.
    pub left: usize,
    /// What to fall back on, the last one first: a directory, and how many components
    /// are left below it.
    pub fallbacks: Vec<(AbsoluteCapability, usize)>,
}

/// The contents of a list of fallbacks.
pub open spec fn fallback_views(v: Seq<(AbsoluteCapability, usize)>) -> Seq<(CapView, nat)> {
    Seq::new(v.len(), |i: int| (v[i].0@, v[i].1 as nat))
}

impl MirrorLookup {
    /// A lookup of a path with this many components.
    pub fn start(components: usize) -> (r: MirrorLookup)
        ensures
            r.left == components,
            fallback_views(r.fallbacks@) == Seq::<(CapView, nat)>::empty(),
    {
        let r = MirrorLookup { left: components, fallbacks: Vec::new() };
        proof {
            assert(fallback_views(r.fallbacks@) =~= Seq::empty());
        }
        r
    }

    /// The next fallback.
    fn fall_back(&mut self) -> (r: MirrorStep)
        ensures
            final(self).left == old(self).left,
            ({
                let f = fallback_views(old(self).fallbacks@);
                if f.len() == 0 {
                    r is NotFound && final(self).fallbacks@ == old(self).fallbacks@
                } else {
                    (r matches MirrorStep::Enter(c, n) && c@ == f.last().0 && n == f.last().1) && fallback_views(
                        final(self).fallbacks@,
                    ) == f.drop_last()
                }
            }),
    {
        proof {
            assert(fallback_views(self.fallbacks@).len() == self.fallbacks@.len());
        }
        match self.fallbacks.pop() {
            Some((c, n)) => {
                proof {
                    assert(fallback_views(self.fallbacks@) =~= fallback_views(old(self).fallbacks@).drop_last());
                }
                MirrorStep::Enter(c, n)
            },
            None => MirrorStep::NotFound,
        }
    }

    /// At the current component: what is mirrored under it, and whether there is a
    /// mirror directory of its name.
    pub fn on_level(&mut self, child: Option<AbsoluteCapability>, has_directory: bool) -> (r: MirrorStep)
        requires
            old(self).left >= 1,
        ensures
            ({
                let f = fallback_views(old(self).fallbacks@);
                let g = fallback_views(final(self).fallbacks@);
                match child {
                    Some(c) => if old(self).left == 1 {
                        r == MirrorStep::Found(c) && g == f && final(self).left == old(self).left
                    } else if !c@.is_writable() && has_directory {
                        r is Descend && g == f.push((c@, (old(self).left - 1) as nat)) && final(self).left == old(
                            self,
                        ).left - 1
                    } else {
                        r == MirrorStep::Enter(c, (old(self).left - 1) as usize) && g == f && final(self).left == old(
                            self,
                        ).left
                    },
                    None => if has_directory {
                        r is Descend && g == f && final(self).left == old(self).left - 1
                    } else if f.len() == 0 {
                        r is NotFound && g == f && final(self).left == old(self).left
                    } else {
                        (r matches MirrorStep::Enter(c, n) && c@ == f.last().0 && n == f.last().1) && g
                            == f.drop_last() && final(self).left == old(self).left
                    },
                }
            }),
    {
        match child {
            Some(c) => {
                if self.left == 1 {
                    return MirrorStep::Found(c);
                }
                if !c.is_writable() && has_directory {
                    let ghost f = fallback_views(self.fallbacks@);
                    let ghost cv = c@;
                    self.left = self.left - 1;
                    let n: usize = self.left;
                    self.fallbacks.push((c, n));
                    proof {
                        assert(fallback_views(self.fallbacks@) =~= f.push((cv, n as nat)));
                    }
                    return MirrorStep::Descend;
                }
                MirrorStep::Enter(c, self.left - 1)
            },
            None => {
                if has_directory {
                    self.left = self.left - 1;
                    return MirrorStep::Descend;
                }
                self.fall_back()
            },
        }
    }

    /// No component is left in the mirror.
    pub fn on_end(&mut self) -> (r: MirrorStep)
        requires
            old(self).left == 0,
        ensures
            final(self).left == old(self).left,
            ({
                let f = fallback_views(old(self).fallbacks@);
                if f.len() == 0 {
                    r is NotFound && final(self).fallbacks@ == old(self).fallbacks@
                } else {
                    (r matches MirrorStep::Enter(c, n) && c@ == f.last().0 && n == f.last().1) && fallback_views(
                        final(self).fallbacks@,
                    ) == f.drop_last()
                }
            }),
    {
        self.fall_back()
    }

    /// What a directory that was entered led to.
    pub fn on_entered(&mut self, found: Option<AbsoluteCapability>) -> (r: MirrorStep)
        ensures
            final(self).left == old(self).left,
            found matches Some(c) ==> r == MirrorStep::Found(c) && final(self).fallbacks@ == old(self).fallbacks@,
            found is None ==> {
                let f = fallback_views(old(self).fallbacks@);
                if f.len() == 0 {
                    r is NotFound && final(self).fallbacks@ == old(self).fallbacks@
                } else {
                    (r matches MirrorStep::Enter(c, n) && c@ == f.last().0 && n == f.last().1) && fallback_views(
                        final(self).fallbacks@,
                    ) == f.drop_last()
                }
            },
    {
        match found {
            Some(c) => MirrorStep::Found(c),
            None => self.fall_back(),
        }
    }
}

/// A mirror directory: what is mirrored in it, and the directories below it.
pub ghost struct Mirror {
    pub caps: Seq<ElementView>,
    pub dirs: Seq<(Seq<char>, Mirror)>,
}

/// The mirror directory of this name.
pub open spec fn mirror_dir(v: Seq<(Seq<char>, Mirror)>, name: Seq<char>) -> Option<Mirror>
    decreases v.len(),
{
    if v.len() == 0 {
        None
    } else if v[0].0 == name {
        Some(v[0].1)
    } else {
        mirror_dir(v.skip(1), name)
    }
}

/// What a path leads to in a mirror: `enter` says what the last components lead to from
/// a directory itself. A directory that cannot be written gives way to what was shared
/// below it.
pub open spec fn resolved(m: Mirror, comps: Seq<Seq<char>>, enter: spec_fn(CapView, nat) -> Option<CapView>) -> Option<
    CapView,
>
    decreases comps.len(),
{
    if comps.len() == 0 {
        None
    } else {
        let rest = comps.skip(1);
        let below = match mirror_dir(m.dirs, comps[0]) {
            Some(sub) => resolved(sub, rest, enter),
            None => None,
        };
        match mirrored(m.caps, comps[0]) {
            Some(c) => if rest.len() == 0 {
                Some(c)
            } else if !c.is_writable() && below is Some {
                below
            } else {
                enter(c, rest.len())
            },
            None => below,
        }
    }
}

/// What the fallbacks lead to, the last one first.
pub open spec fn tried(f: Seq<(CapView, nat)>, enter: spec_fn(CapView, nat) -> Option<CapView>) -> Option<CapView>
    decreases f.len(),
{
    if f.len() == 0 {
        None
    } else {
        match enter(f.last().0, f.last().1) {
            Some(c) => Some(c),
            None => tried(f.drop_last(), enter),
        }
    }
}

/// What a lookup comes to that is in the mirror directory `m`.
pub open spec fn lookup_outcome(
    m: Mirror,
    comps: Seq<Seq<char>>,
    f: Seq<(CapView, nat)>,
    enter: spec_fn(CapView, nat) -> Option<CapView>,
) -> Option<CapView> {
    match resolved(m, comps, enter) {
        Some(c) => Some(c),
        None => tried(f, enter),
    }
}

/// No step of a lookup changes what it comes to: it finds what [`resolved`] says.
pub proof fn law_mirror_lookup(
    m: Mirror,
    comps: Seq<Seq<char>>,
    f: Seq<(CapView, nat)>,
    enter: spec_fn(CapView, nat) -> Option<CapView>,
)
    ensures
        comps.len() == 0 ==> lookup_outcome(m, comps, f, enter) == tried(f, enter),
        comps.len() > 0 ==> {
            let rest = comps.skip(1);
            let dir = mirror_dir(m.dirs, comps[0]);
            lookup_outcome(m, comps, f, enter) == match mirrored(m.caps, comps[0]) {
                Some(c) => if rest.len() == 0 {
                    Some(c)
                } else if !c.is_writable() && dir is Some {
                    lookup_outcome(dir->Some_0, rest, f.push((c, rest.len())), enter)
                } else {
                    match enter(c, rest.len()) {
                        Some(x) => Some(x),
                        None => tried(f, enter),
                    }
                },
                None => match dir {
                    Some(sub) => lookup_outcome(sub, rest, f, enter),
                    None => tried(f, enter),
                },
            }
        },
{
    if comps.len() > 0 {
        let rest = comps.skip(1);
        match mirrored(m.caps, comps[0]) {
            Some(c) => {
                let g = f.push((c, rest.len()));
                assert(g.drop_last() =~= f);
            },
            None => {},
        }
    }
}

/// How the listing of a path that was shared goes on after one component of it.
#[derive(Debug, PartialEq, Eq)]
pub enum ListStep {
    /// This directory was shared: the components that are left lead on from it through the
    /// real filesystem, and the children there are listed.
    Enter(AbsoluteCapability, usize),
    /// The mirror goes on below.
    Descend,
    /// Nothing was shared there.
    Nothing,
}

/// The step after a component: `child` is what the mirror holds under its name, `has_directory`
/// says whether the mirror goes on below it, and `left` is how many components follow.
pub fn children_step(child: Option<AbsoluteCapability>, has_directory: bool, left: usize) -> (r: ListStep)
    ensures
        match opt(child) {
            Some(c) => r matches ListStep::Enter(cap, n) && cap@ == c && n == left,
            None => r == if has_directory {
                ListStep::Descend
            } else {
                ListStep::Nothing
            },
        },
{
    match child {
        Some(cap) => ListStep::Enter(cap, left),
        None => {
            if has_directory {
                ListStep::Descend
            } else {
                ListStep::Nothing
            }
        },
    }
}

proof fn lemma_content_is_kept(
    d: Seq<(Seq<char>, CapView)>,
    c: Seq<(Seq<char>, CapView)>,
    caps: Seq<(Seq<char>, CapView)>,
)
    ensures
        sorted_shares(d, c, caps).1 == c + caps.filter(|x: (Seq<char>, CapView)| group_of_path(x.0) is None),
    decreases caps.len(),
{
    reveal(Seq::filter);
    let keep = |x: (Seq<char>, CapView)| group_of_path(x.0) is None;
    if caps.len() > 0 {
        lemma_content_is_kept(d, c, caps.drop_last());
        let init = caps.drop_last().filter(keep);
        if keep(caps.last()) {
            assert((c + init).push(caps.last()) =~= c + init.push(caps.last()));
        }
    } else {
        assert(c + caps.filter(keep) =~= c);
    }
}

/// Direct shares become content as they were shared, in their order: each with its path and its
/// whole capability, the write key among it. Only the sharing directories of groups do not.
pub proof fn law_direct_shares(u: UpdateView, new: NewCapsView)
    ensures
        after_direct(u, new).content == u.content + new.caps.filter(
            |c: (Seq<char>, CapView)| group_of_path(c.0) is None,
        ),
        forall|i: int|
            0 <= i < new.caps.len() && group_of_path((#[trigger] new.caps[i]).0) is None ==> after_direct(u, new).content.contains(
                new.caps[i],
            ),
        after_direct(u, new).current == u.current,
{
    lemma_content_is_kept(u.group_dirs, u.content, new.caps);
    let keep = |c: (Seq<char>, CapView)| group_of_path(c.0) is None;
    let f = new.caps.filter(keep);
    let all = after_direct(u, new).content;
    assert forall|i: int| 0 <= i < new.caps.len() && group_of_path((#[trigger] new.caps[i]).0) is None implies all.contains(
        new.caps[i],
    ) by {
        lemma_filter_keeps(new.caps, keep, i);
        let k = choose|k: int| 0 <= k < f.len() && f[k] == new.caps[i];
        assert(all[u.content.len() + k] == new.caps[i]);
    }
}

proof fn lemma_filter_keeps(v: Seq<(Seq<char>, CapView)>, keep: spec_fn((Seq<char>, CapView)) -> bool, i: int)
    requires
        0 <= i < v.len(),
        keep(v[i]),
    ensures
        v.filter(keep).contains(v[i]),
    decreases v.len(),
{
    reveal(Seq::filter);
    let init = v.drop_last();
    let f = v.filter(keep);
    if i < init.len() {
        lemma_filter_keeps(init, keep, i);
        let g = init.filter(keep);
        let k = choose|k: int| 0 <= k < g.len() && g[k] == init[i];
        assert(f[k] == v[i]);
    } else {
        assert(f[f.len() - 1] == v[i]);
    }
}

/// The sharing directory of a group is known by the last capability that was shared for it, and
/// by the one before where none was.
pub proof fn law_group_directory_is_known(u: UpdateView, new: NewCapsView, uid: Seq<char>, i: int)
    requires
        0 <= i < new.caps.len(),
        group_of_path(new.caps[i].0) == Some(uid),
        forall|j: int| i < j < new.caps.len() ==> group_of_path((#[trigger] new.caps[j]).0) != Some(uid),
    ensures
        dir_of(after_direct(u, new).group_dirs, uid) == Some(new.caps[i].1),
{
    lemma_last_dir(u.group_dirs, u.content, new.caps, uid, i);
}

proof fn lemma_last_dir(
    d: Seq<(Seq<char>, CapView)>,
    c: Seq<(Seq<char>, CapView)>,
    caps: Seq<(Seq<char>, CapView)>,
    uid: Seq<char>,
    i: int,
)
    requires
        0 <= i < caps.len(),
        group_of_path(caps[i].0) == Some(uid),
        forall|j: int| i < j < caps.len() ==> group_of_path((#[trigger] caps[j]).0) != Some(uid),
    ensures
        dir_of(sorted_shares(d, c, caps).0, uid) == Some(caps[i].1),
    decreases caps.len(),
{
    let init = caps.drop_last();
    let e = sorted_shares(d, c, init).0;
    let last = caps[caps.len() - 1];
    if i < init.len() {
        assert(init[i] == caps[i]);
        assert forall|j: int| i < j < init.len() implies group_of_path((#[trigger] init[j]).0) != Some(uid) by {
            assert(init[j] == caps[j]);
        }
        lemma_last_dir(d, c, init, uid, i);
        assert(group_of_path(last.0) != Some(uid));
        if group_of_path(last.0) is Some {
            law_dir_of(e, group_of_path(last.0)->Some_0, last.1, uid);
        }
    } else {
        law_dir_of(e, uid, last.1, uid);
    }
}

/// A group that nothing was shared for keeps its sharing directory.
pub proof fn law_other_groups_stay(u: UpdateView, new: NewCapsView, uid: Seq<char>)
    requires
        forall|j: int| 0 <= j < new.caps.len() ==> group_of_path((#[trigger] new.caps[j]).0) != Some(uid),
    ensures
        dir_of(after_direct(u, new).group_dirs, uid) == dir_of(u.group_dirs, uid),
{
    lemma_same_dir(u.group_dirs, u.content, new.caps, uid);
}

proof fn lemma_same_dir(
    d: Seq<(Seq<char>, CapView)>,
    c: Seq<(Seq<char>, CapView)>,
    caps: Seq<(Seq<char>, CapView)>,
    uid: Seq<char>,
)
    requires
        forall|j: int| 0 <= j < caps.len() ==> group_of_path((#[trigger] caps[j]).0) != Some(uid),
    ensures
        dir_of(sorted_shares(d, c, caps).0, uid) == dir_of(d, uid),
    decreases caps.len(),
{
    if caps.len() > 0 {
        let init = caps.drop_last();
        assert forall|j: int| 0 <= j < init.len() implies group_of_path((#[trigger] init[j]).0) != Some(uid) by {
            assert(init[j] == caps[j]);
        }
        lemma_same_dir(d, c, init, uid);
        let last = caps[caps.len() - 1];
        assert(group_of_path(last.0) != Some(uid));
        if group_of_path(last.0) is Some {
            law_dir_of(sorted_shares(d, c, init).0, group_of_path(last.0)->Some_0, last.1, uid);
        }
    }
}

/// What a group's sharing directory holds becomes content as it was shared, and the streams of
/// the group alone count as read further.
pub proof fn law_group_shares(u: UpdateView, uid: Seq<char>, new: NewCapsView, other: Seq<char>)
    ensures
        after_group(u, uid, new).content == u.content + new.caps,
        after_group(u, uid, new).current == u.current,
        after_group(u, uid, new).group_dirs == u.group_dirs,
        after_group(u, uid, new).updated.read_cap_bytes == u.updated.read_cap_bytes,
        after_group(u, uid, new).updated.write_cap_bytes == u.updated.write_cap_bytes,
        group_state(after_group(u, uid, new).updated.groups, uid) matches Some(p) && p.read_cap_bytes == new.read_bytes
            && p.write_cap_bytes == new.write_bytes,
        other != uid ==> group_state(after_group(u, uid, new).updated.groups, other) == group_state(u.updated.groups, other),
{
    let p = advanced(group_before(u, uid), new);
    crate::incoming::processed::law_group_state(u.updated.groups, uid, p, uid);
    crate::incoming::processed::law_group_state(u.updated.groups, uid, p, other);
}

/// The streams of a friend count as read up to where they were read now, and as many more
/// capabilities as were new; the next update starts from there.
pub proof fn law_streams_advance(u: UpdateView, new: NewCapsView)
    ensures
        after_direct(u, new).updated.read_cap_bytes == new.read_bytes,
        after_direct(u, new).updated.write_cap_bytes == new.write_bytes,
        after_direct(u, new).updated.read_caps == u.current.read_caps + new.read_count,
        after_direct(u, new).updated.write_caps == u.current.write_caps + new.write_count,
        after_direct(u, new).updated.groups == u.current.groups,
{
}

/// A group that was never read starts from the beginning of its streams.
pub proof fn law_new_group_is_read_from_the_start(u: UpdateView, uid: Seq<char>)
    ensures
        group_state(u.current.groups, uid) is None ==> group_before(u, uid).read_cap_bytes == 0 && group_before(
            u,
            uid,
        ).write_cap_bytes == 0 && group_before(u, uid).read_caps == 0 && group_before(u, uid).write_caps == 0,
        group_state(u.current.groups, uid) matches Some(p) ==> group_before(u, uid) == p,
{
}

/// A path that was shared itself leads to what was shared under it. Below a directory that can
/// be written, the directory itself is entered; below one that cannot, what was shared deeper
/// comes first.
pub proof fn law_mirror_prefers_what_was_shared(
    m: Mirror,
    name: Seq<char>,
    rest: Seq<Seq<char>>,
    enter: spec_fn(CapView, nat) -> Option<CapView>,
)
    ensures
        mirrored(m.caps, name) matches Some(c) ==> resolved(m, seq![name], enter) == Some(c),
        mirrored(m.caps, name) matches Some(c) ==> c.is_writable() && rest.len() > 0 ==> resolved(
            m,
            seq![name] + rest,
            enter,
        ) == enter(c, rest.len()),
        mirrored(m.caps, name) matches Some(c) ==> !c.is_writable() && rest.len() > 0 && (mirror_dir(m.dirs, name) matches Some(
            sub,
        ) && resolved(sub, rest, enter) is Some) ==> resolved(m, seq![name] + rest, enter) == resolved(
            mirror_dir(m.dirs, name)->Some_0,
            rest,
            enter,
        ),
        mirrored(m.caps, name) is None && mirror_dir(m.dirs, name) is None ==> resolved(m, seq![name] + rest, enter)
            is None,
{
    assert((seq![name] + rest).skip(1) =~= rest);
    assert(seq![name].skip(1) =~= Seq::empty());
}

/// What was read of a group adds to its own counts, and to no others.
pub proof fn law_group_counts(u: UpdateView, uid: Seq<char>, new: NewCapsView)
    ensures
        group_state(after_group(u, uid, new).updated.groups, uid) matches Some(p) && p.read_caps == group_before(u, uid).read_caps
            + new.read_count && p.write_caps == group_before(u, uid).write_caps + new.write_count && p.groups
            == group_before(u, uid).groups,
        after_group(u, uid, new).updated.read_caps == u.updated.read_caps,
        after_group(u, uid, new).updated.write_caps == u.updated.write_caps,
{
    crate::incoming::processed::law_group_state(u.updated.groups, uid, advanced(group_before(u, uid), new), uid);
}

/// Of several directories for a group the last one that was shared counts.
pub proof fn law_last_directory_counts(v: Seq<(Seq<char>, CapView)>, more: Seq<(Seq<char>, CapView)>, uid: Seq<char>, i: int)
    ensures
        0 <= i < more.len() && more[i].0 == uid && (forall|j: int|
            i < j < more.len() ==> (#[trigger] more[j]).0 != uid) ==> dir_of(with_dirs(v, more), uid) == Some(more[i].1),
        (forall|j: int| 0 <= j < more.len() ==> (#[trigger] more[j]).0 != uid) ==> dir_of(with_dirs(v, more), uid) == dir_of(
            v,
            uid,
        ),
    decreases more.len(),
{
    if more.len() > 0 {
        let init = more.drop_last();
        let last = more.last();
        law_last_directory_counts(v, init, uid, i);
        law_dir_of(with_dirs(v, init), last.0, last.1, uid);
        assert(more[more.len() - 1] == last);
        assert(forall|j: int| 0 <= j < init.len() ==> init[j] == more[j]);
    }
}

} // verus!
