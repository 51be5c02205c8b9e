//! The feed as a stream of records, and its state.
use vstd::prelude::*;
use crate::capability::{cap_cbor, cap_from, is_readable_cap, law_cap_round_trip, AbsoluteCapability, CapView};
use crate::cbor::{items, map_put, pairs, text_or, text_or_empty, CborObject, CborValue};
use crate::cbor_codec::{encode, lemma_round_trip, parse, representable};
use crate::cryptree::properties::as_signed;
use crate::error::{agrees, cbor_error, error_is, Fault, Result};
use crate::hashtree::least;
use crate::incoming::processed::{count, count_at, group_views, groups_cbor, groups_from, signed, with_group, ProcessedCaps, ProcessedView};
use crate::text::{append_bytes, slice_bytes};
use crate::opaque::Formats;

verus! {

broadcast use crate::cbor::group_cbor;

pub const FEED_DIR: &'static str = ".feed";
pub const FEED_FILE: &'static str = "feed.cbor";
pub const FEED_INDEX: &'static str = "feed-index.cbor";
pub const FEED_STATE: &'static str = "feed-state.cbor";

/// One entry in the feed: a capability plus who owns/shared it and its path.
#[derive(Debug, PartialEq, Eq)]
pub struct SharedItem {
    pub cap: AbsoluteCapability,
    pub owner: String,
    pub sharer: String,
    pub path: String,
}

/// The content of a [`SharedItem`].
pub ghost struct ItemView {
    pub cap: CapView,
    pub owner: Seq<char>,
    pub sharer: Seq<char>,
    pub path: Seq<char>,
}

impl View for SharedItem {
    type V = ItemView;

    open spec fn view(&self) -> ItemView {
        ItemView { cap: self.cap@, owner: self.owner@, sharer: self.sharer@, path: self.path@ }
    }
}

/// The contents of a list of items.
pub open spec fn item_views(v: Seq<SharedItem>) -> Seq<ItemView> {
    Seq::new(v.len(), |i: int| v[i]@)
}

/// The CBOR of an item.
pub open spec fn item_cbor(i: ItemView) -> CborValue {
    let m = map_put(Seq::empty(), "c"@, cap_cbor(i.cap));
    let m = map_put(m, "o"@, CborValue::Str(i.owner));
    let m = map_put(m, "s"@, CborValue::Str(i.sharer));
    CborValue::Mapping(map_put(m, "p"@, CborValue::Str(i.path)))
}

/// The item that a value describes.
pub open spec fn item_from(v: CborValue, formats: &Formats) -> core::result::Result<ItemView, Fault> {
    match v.get("c"@) {
        None => Err(Fault::Cbor("SharedItem missing 'c'"@)),
        Some(c) => match cap_from(c, formats) {
            Err(f) => Err(f),
            Ok(cap) => Ok(
                ItemView {
                    cap,
                    owner: text_or_empty(v, "o"@),
                    sharer: text_or_empty(v, "s"@),
                    path: text_or_empty(v, "p"@),
                },
            ),
        },
    }
}

impl SharedItem {
    pub fn to_cbor(&self) -> (r: CborObject)
        ensures
            r@ == item_cbor(self@),
    {
        CborObject::map().put("c", self.cap.to_cbor()).put("o", CborObject::Str(self.owner.clone())).put(
            "s",
            CborObject::Str(self.sharer.clone()),
        ).put("p", CborObject::Str(self.path.clone())).build()
    }

    pub fn from_cbor(cbor: &CborObject, formats: &Formats) -> (r: Result<SharedItem>)
        ensures
            agrees(r, item_from(cbor@, formats)),
    {
        match cbor.get("c") {
            None => Err(cbor_error("SharedItem missing 'c'")),
            Some(c) => match AbsoluteCapability::from_cbor(c, formats) {
                Err(e) => Err(e),
                Ok(cap) => Ok(
                    SharedItem {
                        cap,
                        owner: text_or(cbor, "o"),
                        sharer: text_or(cbor, "s"),
                        path: text_or(cbor, "p"),
                    },
                ),
            },
        }
    }
}

/// An item is read back from its CBOR as it was.
pub proof fn law_item_round_trip(i: ItemView, formats: &Formats)
    requires
        is_readable_cap(i.cap, formats),
    ensures
        item_from(item_cbor(i), formats) == Ok::<ItemView, Fault>(i),
{
    reveal_strlit("c");
    reveal_strlit("o");
    reveal_strlit("s");
    reveal_strlit("p");
    assert("c"@[0] == 'c' && "o"@[0] == 'o' && "s"@[0] == 's' && "p"@[0] == 'p');
    law_cap_round_trip(i.cap, formats);
}

/// The persisted feed cursor.
#[derive(Debug, PartialEq, Eq)]
pub struct FeedState {
    pub last_seen_index: u64,
    pub feed_size_records: u64,
    pub feed_size_bytes: u64,
    /// How far the streams of each friend have been processed.
    pub processed: Vec<(String, ProcessedCaps)>,
}

/// The content of a [`FeedState`].
pub ghost struct StateView {
    pub last_seen_index: nat,
    pub feed_size_records: nat,
    pub feed_size_bytes: nat,
    pub processed: Seq<(Seq<char>, ProcessedView)>,
}

impl View for FeedState {
    type V = StateView;

    open spec fn view(&self) -> StateView {
        StateView {
            last_seen_index: self.last_seen_index as nat,
            feed_size_records: self.feed_size_records as nat,
            feed_size_bytes: self.feed_size_bytes as nat,
            processed: group_views(self.processed@),
        }
    }
}

/// The CBOR of the state of a feed.
pub open spec fn state_cbor(s: StateView) -> CborValue {
    let m = map_put(Seq::empty(), "s"@, CborValue::Long(as_signed(s.last_seen_index)));
    let m = map_put(m, "r"@, CborValue::Long(as_signed(s.feed_size_records)));
    let m = map_put(m, "b"@, CborValue::Long(as_signed(s.feed_size_bytes)));
    CborValue::Mapping(map_put(m, "p"@, CborValue::Mapping(groups_cbor(s.processed))))
}

/// The state that a value describes.
pub open spec fn state_from(v: CborValue) -> StateView {
    StateView {
        last_seen_index: count_at(v, "s"@),
        feed_size_records: count_at(v, "r"@),
        feed_size_bytes: count_at(v, "b"@),
        processed: match v.get("p"@) {
            Some(CborValue::Mapping(g)) => groups_from(g),
            _ => Seq::empty(),
        },
    }
}

/// A state as the processed state of an account whose groups are the friends.
fn friends_of(processed: Vec<(String, ProcessedCaps)>) -> (r: ProcessedCaps)
    ensures
        r@.groups == group_views(processed@),
        r.groups == processed,
{
    broadcast use crate::incoming::processed::lemma_groups_view;

    ProcessedCaps { read_caps: 0, write_caps: 0, read_cap_bytes: 0, write_cap_bytes: 0, groups: processed }
}

impl FeedState {
    /// The state of an empty feed.
    pub fn new() -> (r: FeedState)
        ensures
            r@ == (StateView {
                last_seen_index: 0,
                feed_size_records: 0,
                feed_size_bytes: 0,
                processed: Seq::empty(),
            }),
    {
        let r = FeedState { last_seen_index: 0, feed_size_records: 0, feed_size_bytes: 0, processed: Vec::new() };
        proof {
            assert(r@.processed =~= Seq::empty());
        }
        r
    }

    pub fn to_cbor(&self) -> (r: CborObject)
        ensures
            r@ == state_cbor(self@),
    {
        let ghost pv = group_views(self.processed@);
        let mut p = CborObject::map();
        proof {
            assert(pv.take(0) =~= Seq::empty());
        }
        for i in 0..self.processed.len()
            invariant
                pv == group_views(self.processed@),
                p@ == groups_cbor(pv.take(i as int)),
        {
            proof {
                assert(pv.take(i as int + 1).drop_last() =~= pv.take(i as int));
                assert(pv.take(i as int + 1).last() == (self.processed[i as int].0@, self.processed[i as int].1@));
            }
            p = p.put(self.processed[i].0.as_str(), self.processed[i].1.to_cbor());
        }
        proof {
            assert(pv.take(pv.len() as int) =~= pv);
        }
        CborObject::map().put("s", CborObject::Long(signed(self.last_seen_index))).put(
            "r",
            CborObject::Long(signed(self.feed_size_records)),
        ).put("b", CborObject::Long(signed(self.feed_size_bytes))).put("p", p.build()).build()
    }

    pub fn from_cbor(cbor: &CborObject) -> (r: FeedState)
        ensures
            r@ == state_from(cbor@),
    {
        broadcast use crate::incoming::processed::lemma_groups_view;

        let mut all = ProcessedCaps::new();
        match cbor.get("p") {
            Some(CborObject::Mapping(m)) => {
                let ghost mv = pairs(m@);
                proof {
                    assert(mv.take(0) =~= Seq::empty());
                }
                for i in 0..m.len()
                    invariant
                        mv == pairs(m@),
                        all@.groups == groups_from(mv.take(i as int)),
                {
                    proof {
                        assert(mv.take(i as int + 1).drop_last() =~= mv.take(i as int));
                        assert(mv.take(i as int + 1).last() == (m[i as int].0@, m[i as int].1@));
                    }
                    let p = ProcessedCaps::from_cbor(&m[i].1);
                    all.set_group(m[i].0.as_str(), p);
                }
                proof {
                    assert(mv.take(mv.len() as int) =~= mv);
                }
            },
            _ => {},
        }
        FeedState {
            last_seen_index: count(cbor, "s"),
            feed_size_records: count(cbor, "r"),
            feed_size_bytes: count(cbor, "b"),
            processed: all.groups,
        }
    }

    /// How far the streams of a friend have been processed.
    pub fn friend(&self, name: &str) -> (r: ProcessedCaps)
        ensures
            r@ == match crate::incoming::processed::group_state(self@.processed, name@) {
                Some(p) => p,
                None => crate::incoming::processed::nothing_processed(),
            },
    {
        let mut copy: Vec<(String, ProcessedCaps)> = Vec::new();
        for i in 0..self.processed.len()
            invariant
                copy.len() == i,
                forall|k: int|
                    0 <= k < i ==> (#[trigger] copy[k]).0@ == self.processed[k].0@ && copy[k].1@ == self.processed[k].1@,
        {
            copy.push((self.processed[i].0.clone(), self.processed[i].1.dup()));
        }
        proof {
            assert(group_views(copy@) =~= group_views(self.processed@));
        }
        friends_of(copy).group(name)
    }

    /// Sets how far the streams of a friend have been processed.
    pub fn set_friend(self, name: &str, p: ProcessedCaps) -> (r: FeedState)
        ensures
            r@ == (StateView { processed: with_group(self@.processed, name@, p@), ..self@ }),
    {
        broadcast use crate::incoming::processed::lemma_groups_view;

        let mut all = friends_of(self.processed);
        all.set_group(name, p);
        FeedState {
            last_seen_index: self.last_seen_index,
            feed_size_records: self.feed_size_records,
            feed_size_bytes: self.feed_size_bytes,
            processed: all.groups,
        }
    }
}

/// The state of a feed is read back from its CBOR as it was.
pub proof fn law_state_round_trip(s: StateView)
    requires
        s.last_seen_index <= i64::MAX,
        s.feed_size_records <= i64::MAX,
        s.feed_size_bytes <= i64::MAX,
        crate::incoming::processed::are_ordered(s.processed),
    ensures
        state_from(state_cbor(s)) == s,
{
    reveal_strlit("s");
    reveal_strlit("r");
    reveal_strlit("b");
    reveal_strlit("p");
    assert("s"@[0] == 's' && "r"@[0] == 'r' && "b"@[0] == 'b' && "p"@[0] == 'p');
    crate::incoming::processed::lemma_groups_round_trip(s.processed);
}

/// The bytes of these records in a row.
pub open spec fn stream(v: Seq<ItemView>) -> Seq<u8>
    decreases v.len(),
{
    if v.len() == 0 {
        Seq::empty()
    } else {
        stream(v.drop_last()) + encode(item_cbor(v.last()))
    }
}

/// Where the records start that are appended behind `start` bytes.
pub open spec fn record_starts(start: nat, v: Seq<ItemView>) -> Seq<nat> {
    Seq::new(v.len(), |i: int| start + stream(v.take(i)).len())
}

/// Numbers as such.
pub open spec fn numbers(v: Seq<u64>) -> Seq<nat> {
    Seq::new(v.len(), |i: int| v[i] as nat)
}

/// Appends items to the feed, and where each of them starts to its index.
pub fn append_records(data: &mut Vec<u8>, index: &mut Vec<u64>, more: &[SharedItem])
    ensures
        final(data)@ == old(data)@ + stream(item_views(more@)),
        numbers(final(index)@) == numbers(old(index)@) + record_starts(old(data)@.len(), item_views(more@)),
{
    let ghost mv = item_views(more@);
    let ghost d0 = data@;
    let ghost i0 = numbers(index@);
    let ghost starts = record_starts(d0.len(), mv);
    proof {
        assert(mv.take(0) =~= Seq::empty());
        assert(d0 + stream(mv.take(0)) =~= d0);
        assert(i0 + starts.take(0) =~= i0);
    }
    for i in 0..more.len()
        invariant
            mv == item_views(more@),
            starts == record_starts(d0.len(), mv),
            data@ == d0 + stream(mv.take(i as int)),
            numbers(index@) == i0 + starts.take(i as int),
    {
        let ghost before = numbers(index@);
        proof {
            assert(mv.take(i as int + 1).drop_last() =~= mv.take(i as int));
            assert(mv.take(i as int + 1).last() == more[i as int]@);
            assert(data@.len() == data.len());
        }
        let at: u64 = data.len() as u64;
        index.push(at);
        let bytes = more[i].to_cbor().to_bytes();
        append_bytes(data, &bytes);
        proof {
            assert(numbers(index@) =~= before.push(at as nat));
            assert(starts[i as int] == at);
            assert(starts.take(i as int + 1) =~= starts.take(i as int).push(at as nat));
            assert(i0 + starts.take(i as int + 1) =~= (i0 + starts.take(i as int)).push(at as nat));
            assert(d0 + stream(mv.take(i as int)) + encode(item_cbor(more[i as int]@)) =~= d0 + stream(
                mv.take(i as int + 1),
            ));
        }
    }
    proof {
        assert(mv.take(mv.len() as int) =~= mv);
        assert(starts.take(mv.len() as int) =~= starts);
    }
}

/// The records of `bytes` from `at` on: `skip` of them are passed over, and up to `want`
/// are read.
pub open spec fn read_from(bytes: Seq<u8>, at: int, skip: nat, want: nat, formats: &Formats) -> core::result::Result<Seq<ItemView>, Fault>
    decreases bytes.len() - at,
{
    if at >= bytes.len() || at < 0 || want == 0 {
        Ok(Seq::empty())
    } else {
        match parse(bytes.skip(at)) {
            None => Err(Fault::Cbor("invalid cbor"@)),
            Some((v, c)) => if c == 0 || at + c > bytes.len() {
                // A value takes at least one byte, and no more than there are.
                Ok(Seq::empty())
            } else if skip > 0 {
                read_from(bytes, at + c, (skip - 1) as nat, want, formats)
            } else {
                match item_from(v, formats) {
                    Err(f) => Err(f),
                    Ok(i) => match read_from(bytes, at + c, 0, (want - 1) as nat, formats) {
                        Err(f) => Err(f),
                        Ok(s) => Ok(seq![i] + s),
                    },
                }
            },
        }
    }
}

/// The records `[from, to)` of a feed of `size` records, found by its index, or else
/// from the start.
pub open spec fn feed_records(bytes: Seq<u8>, index: Seq<nat>, from: nat, to: nat, size: nat, formats: &Formats) -> core::result::Result<
    Seq<ItemView>,
    Fault,
> {
    let end = if size < to { size } else { to };
    let want = if end > from { (end - from) as nat } else { 0 };
    if from < index.len() {
        read_from(bytes, least(index[from as int] as int, bytes.len() as int), 0, want, formats)
    } else {
        read_from(bytes, 0, from, want, formats)
    }
}

/// A list whose first part is known.
spec fn after(acc: Seq<ItemView>, r: core::result::Result<Seq<ItemView>, Fault>) -> core::result::Result<
    Seq<ItemView>,
    Fault,
> {
    match r {
        Ok(s) => Ok(acc + s),
        Err(f) => Err(f),
    }
}

/// Read feed records `[from, to)`, seeking via the index.
pub fn read_records(bytes: &[u8], index: &[u64], from: u64, to: u64, size: u64, formats: &Formats) -> (r: Result<Vec<SharedItem>>)
    ensures
        match feed_records(bytes@, numbers(index@), from as nat, to as nat, size as nat, formats) {
            Ok(s) => r is Ok && item_views(r->Ok_0@) == s,
            Err(f) => r is Err && error_is(r->Err_0, f),
        },
{
    let end: u64 = if size < to { size } else { to };
    let mut want: u64 = if end > from { end - from } else { 0 };
    let mut skip: u64 = 0;
    let mut at: usize = 0;
    if from < index.len() as u64 {
        let start: u64 = index[from as usize];
        at = if start < bytes.len() as u64 { start as usize } else { bytes.len() };
    } else {
        skip = from;
    }
    let ghost whole = read_from(bytes@, at as int, skip as nat, want as nat, formats);
    let mut out: Vec<SharedItem> = Vec::new();
    proof {
        match whole {
            Ok(s) => {
                assert(item_views(out@) + s =~= s);
            },
            Err(f) => {},
        }
    }
    while at < bytes.len() && want > 0
        invariant
            at <= bytes.len(),
            whole == after(item_views(out@), read_from(bytes@, at as int, skip as nat, want as nat, formats)),
            whole == feed_records(bytes@, numbers(index@), from as nat, to as nat, size as nat, formats),
        decreases bytes.len() - at,
    {
        let rest = slice_bytes(bytes, at, bytes.len());
        proof {
            assert(rest@ =~= bytes@.skip(at as int));
        }
        match CborObject::from_bytes_consumed(&rest) {
            Err(e) => {
                return Err(e);
            },
            Ok((v, c)) => {
                if skip > 0 {
                    skip -= 1;
                } else {
                    let ghost before = item_views(out@);
                    match SharedItem::from_cbor(&v, formats) {
                        Err(e) => {
                            return Err(e);
                        },
                        Ok(i) => {
                            let ghost iv = i@;
                            out.push(i);
                            want -= 1;
                            proof {
                                assert(item_views(out@) =~= before.push(iv));
                                match read_from(bytes@, at + c, 0, want as nat, formats) {
                                    Ok(s) => {
                                        assert(before + (seq![iv] + s) =~= before.push(iv) + s);
                                    },
                                    Err(f) => {},
                                }
                            }
                        },
                    }
                }
                at = at + c;
            },
        }
    }
    proof {
        assert(item_views(out@) + Seq::<ItemView>::empty() =~= item_views(out@));
    }
    Ok(out)
}

/// An item that can be written and read back.
pub open spec fn is_item(i: ItemView, formats: &Formats) -> bool {
    is_readable_cap(i.cap, formats) && representable(item_cbor(i))
}

proof fn lemma_stream_split(v: Seq<ItemView>, k: int)
    requires
        0 <= k < v.len(),
    ensures
        ({
            let at = stream(v.take(k)).len();
            let e = encode(item_cbor(v[k]));
            &&& at + e.len() == stream(v.take(k + 1)).len()
            &&& stream(v.take(k + 1)).len() <= stream(v).len()
            &&& stream(v).skip(at as int) == e + stream(v).skip((at + e.len()) as int)
        }),
    decreases v.len(),
{
    let e = encode(item_cbor(v[k]));
    let at = stream(v.take(k)).len();
    assert(v.take(k + 1).drop_last() =~= v.take(k));
    assert(v.take(k + 1).last() == v[k]);
    if k == v.len() - 1 {
        assert(v.take(k + 1) =~= v);
        assert(v.take(k) =~= v.drop_last());
        assert(stream(v).skip(at as int) =~= e + stream(v).skip((at + e.len()) as int));
    } else {
        let init = v.drop_last();
        lemma_stream_split(init, k);
        assert(init.take(k) =~= v.take(k));
        assert(init.take(k + 1) =~= v.take(k + 1));
        let last = encode(item_cbor(v.last()));
        assert(stream(v) == stream(init) + last);
        assert(stream(v).skip(at as int) =~= stream(init).skip(at as int) + last);
        assert(stream(v).skip((at + e.len()) as int) =~= stream(init).skip((at + e.len()) as int) + last);
        assert(stream(v).skip(at as int) =~= e + stream(v).skip((at + e.len()) as int));
    }
}

/// The start of a stream is no longer than all of it.
pub proof fn lemma_stream_prefix(v: Seq<ItemView>, k: int)
    requires
        0 <= k < v.len(),
    ensures
        stream(v.take(k)).len() <= stream(v).len(),
{
    lemma_stream_split(v, k);
}

proof fn lemma_read_from(v: Seq<ItemView>, k: int, want: nat, formats: &Formats)
    requires
        0 <= k <= v.len(),
        k + want <= v.len(),
        forall|i: int| 0 <= i < v.len() ==> is_item(#[trigger] v[i], formats),
    ensures
        read_from(stream(v), stream(v.take(k)).len() as int, 0, want, formats) == Ok::<Seq<ItemView>, Fault>(
            v.subrange(k, k + want),
        ),
    decreases want,
{
    let at = stream(v.take(k)).len() as int;
    if want == 0 {
        assert(v.subrange(k, k) =~= Seq::empty());
    } else {
        lemma_stream_split(v, k);
        assert(is_item(v[k], formats));
        let e = encode(item_cbor(v[k]));
        lemma_round_trip(item_cbor(v[k]), stream(v).skip(at + e.len()));
        law_item_round_trip(v[k], formats);
        lemma_read_from(v, k + 1, (want - 1) as nat, formats);
        assert(seq![v[k]] + v.subrange(k + 1, k + want) =~= v.subrange(k, k + want));
    }
}

/// The feed is read back as it was written: the records from `from` to `to` are those
/// that were appended, as far as there are any.
pub proof fn law_feed_read_back(v: Seq<ItemView>, from: nat, to: nat, formats: &Formats)
    requires
        forall|i: int| 0 <= i < v.len() ==> is_item(#[trigger] v[i], formats),
    ensures
        feed_records(stream(v), record_starts(0, v), from, to, v.len(), formats) == Ok::<Seq<ItemView>, Fault>(
            if from >= v.len() || to <= from {
                Seq::empty()
            } else {
                v.subrange(from as int, least(to as int, v.len() as int))
            },
        ),
{
    let index = record_starts(0, v);
    if from < v.len() {
        let end = if v.len() < to { v.len() } else { to };
        let want = if end > from { (end - from) as nat } else { 0 };
        lemma_stream_split(v, from as int);
        lemma_read_from(v, from as int, want, formats);
        assert(index[from as int] == stream(v.take(from as int)).len());
        if want == 0 {
            assert(v.subrange(from as int, from as int) =~= Seq::empty());
        }
    }
}

/// Appending to a feed keeps what it holds, and its index goes on as if all of it had
/// been written at once.
pub proof fn law_feed_append(v: Seq<ItemView>, more: Seq<ItemView>)
    ensures
        stream(v + more) == stream(v) + stream(more),
        record_starts(0, v + more) == record_starts(0, v) + record_starts(stream(v).len(), more),
    decreases more.len(),
{
    lemma_stream_append(v, more);
    let all = v + more;
    let r = record_starts(0, v) + record_starts(stream(v).len(), more);
    assert forall|i: int| 0 <= i < all.len() implies record_starts(0, all)[i] == r[i] by {
        if i < v.len() {
            assert(all.take(i) =~= v.take(i));
        } else {
            assert(all.take(i) =~= v + more.take(i - v.len()));
            lemma_stream_append(v, more.take(i - v.len()));
        }
    }
    assert(record_starts(0, all) =~= r);
}

proof fn lemma_stream_append(v: Seq<ItemView>, more: Seq<ItemView>)
    ensures
        stream(v + more) == stream(v) + stream(more),
    decreases more.len(),
{
    if more.len() == 0 {
        assert(v + more =~= v);
        assert(stream(v) + stream(more) =~= stream(v));
    } else {
        assert((v + more).drop_last() =~= v + more.drop_last());
        lemma_stream_append(v, more.drop_last());
        assert(stream(v + more) =~= stream(v) + stream(more));
    }
}

/// The CBOR of a feed's index.
pub fn index_to_cbor(index: &Vec<u64>) -> (r: CborObject)
    ensures
        r@ == CborValue::List(index_cbor(numbers(index@))),
{
    let mut out: Vec<CborObject> = Vec::new();
    for i in 0..index.len()
        invariant
            out.len() == i,
            forall|k: int| 0 <= k < i ==> (#[trigger] out[k])@ == CborValue::Long(as_signed(index@[k] as nat)),
    {
        out.push(CborObject::Long(signed(index[i])));
    }
    proof {
        assert(items(out@) =~= index_cbor(numbers(index@)));
    }
    CborObject::List(out)
}

/// The numbers of a list, without what is none; a negative one counts as 0.
pub open spec fn numbers_from(v: Seq<CborValue>) -> Seq<nat>
    decreases v.len(),
{
    if v.len() == 0 {
        Seq::empty()
    } else {
        match v.last() {
            CborValue::Long(n) => numbers_from(v.drop_last()).push(if n > 0 { n as nat } else { 0 }),
            _ => numbers_from(v.drop_last()),
        }
    }
}

/// The index that a value describes: none, if it is no list.
pub fn index_of_cbor(cbor: &CborObject) -> (r: Vec<u64>)
    ensures
        numbers(r@) == match cbor@ {
            CborValue::List(l) => numbers_from(l),
            _ => Seq::empty(),
        },
{
    let mut out: Vec<u64> = Vec::new();
    proof {
        assert(numbers(out@) =~= Seq::empty());
    }
    match cbor.as_list() {
        None => out,
        Some(l) => {
            let ghost all = items(l@);
            proof {
                assert(all.take(0) =~= Seq::empty());
            }
            for i in 0..l.len()
                invariant
                    all == items(l@),
                    numbers(out@) == numbers_from(all.take(i as int)),
            {
                let ghost before = numbers(out@);
                proof {
                    assert(all.take(i as int + 1).drop_last() =~= all.take(i as int));
                    assert(all.take(i as int + 1).last() == l[i as int]@);
                }
                match l[i].as_long() {
                    Some(n) => {
                        let x: u64 = if n > 0 { n as u64 } else { 0 };
                        out.push(x);
                        proof {
                            assert(numbers(out@) =~= before.push(x as nat));
                        }
                    },
                    None => {},
                }
            }
            proof {
                assert(all.take(all.len() as int) =~= all);
            }
            out
        },
    }
}

/// The numbers of an index as CBOR.
pub open spec fn index_cbor(v: Seq<nat>) -> Seq<CborValue> {
    Seq::new(v.len(), |i: int| CborValue::Long(as_signed(v[i])))
}

/// An index is read back from its CBOR as it was.
pub proof fn law_index_round_trip(v: Seq<nat>)
    requires
        forall|i: int| 0 <= i < v.len() ==> #[trigger] v[i] <= i64::MAX,
    ensures
        numbers_from(index_cbor(v)) == v,
    decreases v.len(),
{
    let c = index_cbor(v);
    if v.len() > 0 {
        let init = v.drop_last();
        assert forall|i: int| 0 <= i < init.len() implies #[trigger] init[i] <= i64::MAX by {
            assert(init[i] == v[i]);
        }
        law_index_round_trip(init);
        assert(c.drop_last() =~= index_cbor(init));
        assert(v.last() <= i64::MAX);
        assert(init.push(v.last()) =~= v);
    } else {
        assert(v =~= Seq::empty());
    }
}

/// Where an item of the feed keeps its parts.
pub proof fn law_item_fields(i: ItemView)
    ensures
        item_cbor(i).get("c"@) == Some(cap_cbor(i.cap)),
        item_cbor(i).get("o"@) == Some(CborValue::Str(i.owner)),
        item_cbor(i).get("s"@) == Some(CborValue::Str(i.sharer)),
        item_cbor(i).get("p"@) == Some(CborValue::Str(i.path)),
{
    reveal_strlit("c");
    reveal_strlit("o");
    reveal_strlit("s");
    reveal_strlit("p");
    assert("c"@[0] == 'c' && "o"@[0] == 'o' && "s"@[0] == 's' && "p"@[0] == 'p');
}

/// Where the state of the feed keeps its counts.
pub proof fn law_state_fields(s: StateView)
    ensures
        s.last_seen_index <= i64::MAX ==> state_cbor(s).get("s"@) == Some(CborValue::Long(s.last_seen_index as int)),
        s.feed_size_records <= i64::MAX ==> state_cbor(s).get("r"@) == Some(CborValue::Long(s.feed_size_records as int)),
        s.feed_size_bytes <= i64::MAX ==> state_cbor(s).get("b"@) == Some(CborValue::Long(s.feed_size_bytes as int)),
        state_cbor(s).get("p"@) == Some(CborValue::Mapping(groups_cbor(s.processed))),
{
    reveal_strlit("s");
    reveal_strlit("r");
    reveal_strlit("b");
    reveal_strlit("p");
    assert("s"@[0] == 's' && "r"@[0] == 'r' && "b"@[0] == 'b' && "p"@[0] == 'p');
}

/// The index holds where each record starts: the first at the start, and each right behind the
/// one before it.
pub proof fn law_record_starts(start: nat, v: Seq<ItemView>, i: int)
    requires
        0 <= i < v.len(),
    ensures
        record_starts(start, v).len() == v.len(),
        record_starts(start, v)[0] == start,
        i + 1 < v.len() ==> record_starts(start, v)[i + 1] == record_starts(start, v)[i] + encode(item_cbor(v[i])).len(),
        stream(seq![v[i]]) == encode(item_cbor(v[i])),
{
    assert(v.take(0) =~= Seq::empty());
    assert(v.take(i + 1).drop_last() =~= v.take(i));
    assert(seq![v[i]].drop_last() =~= Seq::empty());
    reveal_with_fuel(stream, 2);
    assert(Seq::<u8>::empty() + encode(item_cbor(v[i])) =~= encode(item_cbor(v[i])));
}

/// Where the feed is kept, and under which names.
pub proof fn law_names_of_the_feed()
    ensures
        FEED_DIR@ == ".feed"@,
        FEED_FILE@ == "feed.cbor"@,
        FEED_INDEX@ == "feed-index.cbor"@,
        FEED_STATE@ == "feed-state.cbor"@,
{
}

/// What is read of an item, and of the state of a feed, comes from its fields. A text that is missing
/// is empty, and a count that is missing is none.
pub proof fn law_records_are_read_field_by_field(v: CborValue, formats: &Formats)
    ensures
        item_from(v, formats) matches Ok(i) ==> (v.get("c"@) matches Some(c) && cap_from(c, formats) == Ok::<CapView, Fault>(
            i.cap,
        )) && (v.text_at("o"@) matches Some(s) ==> i.owner == s) && (v.text_at("s"@) matches Some(s) ==> i.sharer == s) && (
        v.text_at("p"@) matches Some(s) ==> i.path == s) && (v.get("o"@) is None ==> i.owner.len() == 0) && (v.get("s"@) is None
            ==> i.sharer.len() == 0) && (v.get("p"@) is None ==> i.path.len() == 0),
        v.get("c"@) is None ==> item_from(v, formats) == Err::<ItemView, Fault>(Fault::Cbor("SharedItem missing 'c'"@)),
        v.long_at("s"@) matches Some(n) ==> n >= 0 ==> state_from(v).last_seen_index == n,
        v.long_at("r"@) matches Some(n) ==> n >= 0 ==> state_from(v).feed_size_records == n,
        v.long_at("b"@) matches Some(n) ==> n >= 0 ==> state_from(v).feed_size_bytes == n,
        v.get("s"@) is None ==> state_from(v).last_seen_index == 0,
        v.get("r"@) is None ==> state_from(v).feed_size_records == 0,
        v.get("b"@) is None ==> state_from(v).feed_size_bytes == 0,
        v.get("p"@) is None ==> state_from(v).processed.len() == 0,
{
}

/// No more records are read than were asked for and than the feed has.
pub proof fn law_how_many_records_are_read(
    bytes: Seq<u8>,
    index: Seq<nat>,
    from: nat,
    to: nat,
    size: nat,
    formats: &Formats,
)
    ensures
        feed_records(bytes, index, from, to, size, formats) matches Ok(v) ==> (from < to ==> v.len() <= to - from) && (from
            < size ==> v.len() <= size - from) && (from >= to || from >= size ==> v.len() == 0),
{
    let end = if size < to { size } else { to };
    let want = if end > from { (end - from) as nat } else { 0 };
    if from < index.len() {
        lemma_read_at_most(bytes, least(index[from as int] as int, bytes.len() as int), 0, want, formats);
    } else {
        lemma_read_at_most(bytes, 0, from, want, formats);
    }
}

proof fn lemma_read_at_most(bytes: Seq<u8>, at: int, skip: nat, want: nat, formats: &Formats)
    ensures
        read_from(bytes, at, skip, want, formats) matches Ok(v) ==> v.len() <= want,
    decreases bytes.len() - at,
{
    if 0 <= at < bytes.len() && want > 0 {
        if let Some((v, c)) = parse(bytes.skip(at)) {
            if c > 0 && at + c <= bytes.len() {
                if skip > 0 {
                    lemma_read_at_most(bytes, at + c, (skip - 1) as nat, want, formats);
                } else {
                    lemma_read_at_most(bytes, at + c, 0, (want - 1) as nat, formats);
                }
            }
        }
    }
}

} // verus!
