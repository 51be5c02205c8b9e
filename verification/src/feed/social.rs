//! The feed of a user: its state, and what is written and read through it.
use vstd::prelude::*;
use crate::cbor::{CborObject, CborValue};
use crate::cbor_codec::{encode, parse};
use crate::error::{error_is, fails_cbor, Fault, Result};
use crate::feed::records::{
    append_records, feed_records, index_cbor, index_of_cbor, index_to_cbor, item_views, law_feed_append,
    law_feed_read_back, numbers, numbers_from, read_records, record_starts, state_cbor, state_from, stream, FeedState,
    is_item, ItemView, SharedItem, StateView,
};
use crate::hashtree::least;
use crate::opaque::Formats;

verus! {

/// Your social feed.
#[derive(Debug, PartialEq, Eq)]
pub struct SocialFeed {
    pub state: FeedState,
}

impl View for SocialFeed {
    type V = StateView;

    open spec fn view(&self) -> StateView {
        self.state@
    }
}

/// The state of a feed without records.
pub open spec fn empty_feed() -> StateView {
    StateView { last_seen_index: 0, feed_size_records: 0, feed_size_bytes: 0, processed: Seq::empty() }
}

/// The index that a file holds: none, if there is no file.
pub open spec fn stored_index(file: Option<Seq<u8>>) -> core::result::Result<Seq<nat>, Fault> {
    match file {
        None => Ok(Seq::empty()),
        Some(b) => match parse(b) {
            None => Err(Fault::Cbor("invalid cbor"@)),
            Some((CborValue::List(l), c)) => Ok(numbers_from(l)),
            Some(_) => Ok(Seq::empty()),
        },
    }
}

/// The content of a file that may be missing.
pub open spec fn file_content(file: Option<&[u8]>) -> Option<Seq<u8>> {
    match file {
        Some(b) => Some(b@),
        None => None,
    }
}

/// The byte offset of every feed record.
pub fn read_index(file: Option<&[u8]>) -> (r: Result<Vec<u64>>)
    ensures
        match stored_index(file_content(file)) {
            Ok(v) => r is Ok && numbers(r->Ok_0@) == v,
            Err(f) => r is Err && error_is(r->Err_0, f),
        },
{
    match file {
        None => {
            let v: Vec<u64> = Vec::new();
            proof {
                assert(numbers(v@) =~= Seq::empty());
            }
            Ok(v)
        },
        Some(b) => match CborObject::from_bytes(b) {
            Err(e) => Err(e),
            Ok(c) => Ok(index_of_cbor(&c)),
        },
    }
}

/// The two files of a feed.
#[derive(Debug, PartialEq, Eq)]
pub struct FeedFiles {
    pub data: Vec<u8>,
    pub index: Vec<u8>,
}

/// The records that a feed's files give for `[from, to)`.
pub open spec fn shared_records(
    s: StateView,
    data: Option<Seq<u8>>,
    index: Option<Seq<u8>>,
    from: nat,
    to: nat,
    formats: &Formats,
) -> core::result::Result<Seq<ItemView>, Fault> {
    match data {
        None => Ok(Seq::empty()),
        Some(d) => match stored_index(index) {
            Err(f) => Err(f),
            Ok(i) => feed_records(d, i, from, to, s.feed_size_records, formats),
        },
    }
}

/// The bytes that a file holds, none if it is missing.
pub open spec fn held(file: Option<Seq<u8>>) -> Seq<u8> {
    match file {
        Some(b) => b,
        None => Seq::empty(),
    }
}

impl SocialFeed {
    /// The feed whose state is stored in a file: an empty one, if there is none yet.
    pub fn create(file: Option<&[u8]>) -> (r: Result<SocialFeed>)
        ensures
            match file_content(file) {
                None => r is Ok && r->Ok_0@ == empty_feed(),
                Some(b) => match parse(b) {
                    None => fails_cbor(r, "invalid cbor"@),
                    Some((v, c)) => r is Ok && r->Ok_0@ == state_from(v),
                },
            },
    {
        match file {
            None => Ok(SocialFeed { state: FeedState::new() }),
            Some(b) => match CborObject::from_bytes(b) {
                Err(e) => Err(e),
                Ok(c) => Ok(SocialFeed { state: FeedState::from_cbor(&c) }),
            },
        }
    }

    /// The state as it is stored.
    pub fn state_bytes(&self) -> (r: Vec<u8>)
        ensures
            r@ == encode(state_cbor(self@)),
    {
        self.state.to_cbor().to_bytes()
    }

    /// Records currently in the feed.
    pub fn feed_size(&self) -> (r: u64)
        ensures
            r == self@.feed_size_records,
    {
        self.state.feed_size_records
    }

    /// Whether there are records past the last-seen index.
    pub fn has_unseen(&self) -> (r: bool)
        ensures
            r == (self@.last_seen_index < self@.feed_size_records),
    {
        self.state.last_seen_index < self.state.feed_size_records
    }

    pub fn last_seen_index(&self) -> (r: u64)
        ensures
            r == self@.last_seen_index,
    {
        self.state.last_seen_index
    }

    /// Mark the feed as seen up to `index`.
    pub fn set_last_seen_index(&mut self, index: u64)
        ensures
            final(self)@ == (StateView { last_seen_index: index as nat, ..old(self)@ }),
    {
        self.state.last_seen_index = index;
    }

    /// Read feed records `[from, to)` out of the feed's files, seeking via the index.
    pub fn get_shared(&self, data: Option<&[u8]>, index: Option<&[u8]>, from: u64, to: u64, formats: &Formats) -> (r: Result<
        Vec<SharedItem>,
    >)
        ensures
            match shared_records(self@, file_content(data), file_content(index), from as nat, to as nat, formats) {
                Ok(s) => r is Ok && item_views(r->Ok_0@) == s,
                Err(f) => r is Err && error_is(r->Err_0, f),
            },
    {
        match data {
            None => {
                let v: Vec<SharedItem> = Vec::new();
                proof {
                    assert(item_views(v@) =~= Seq::empty());
                }
                Ok(v)
            },
            Some(d) => match read_index(index) {
                Err(e) => Err(e),
                Ok(i) => read_records(d, &i, from, to, self.state.feed_size_records, formats),
            },
        }
    }

    /// Append items to the feed: the files as they are to be written, and the state after
    /// it.
    pub fn add_to_feed(&mut self, data: Option<&[u8]>, index: Option<&[u8]>, more: &[SharedItem]) -> (r: Result<FeedFiles>)
        requires
            old(self)@.feed_size_records + more@.len() <= u64::MAX,
        ensures
            match stored_index(file_content(index)) {
                Err(f) => r is Err && error_is(r->Err_0, f) && final(self)@ == old(self)@,
                Ok(i) => {
                    let d = held(file_content(data)) + stream(item_views(more@));
                    let starts = i + record_starts(held(file_content(data)).len(), item_views(more@));
                    &&& r is Ok
                    &&& r->Ok_0.data@ == d
                    &&& r->Ok_0.index@ == encode(CborValue::List(index_cbor(starts)))
                    &&& final(self)@ == (StateView {
                        feed_size_records: old(self)@.feed_size_records + more@.len(),
                        feed_size_bytes: d.len(),
                        ..old(self)@
                    })
                },
            },
    {
        let mut all: Vec<u8> = match data {
            None => Vec::new(),
            Some(d) => crate::text::copy_bytes(d),
        };
        proof {
            assert(all@ =~= held(file_content(data)));
        }
        match read_index(index) {
            Err(e) => Err(e),
            Ok(i) => {
                let mut starts = i;
                append_records(&mut all, &mut starts, more);
                proof {
                    assert(all@.len() == all.len());
                    assert(more@.len() == more.len());
                }
                self.state.feed_size_records = self.state.feed_size_records + more.len() as u64;
                self.state.feed_size_bytes = all.len() as u64;
                Ok(FeedFiles { data: all, index: index_to_cbor(&starts).to_bytes() })
            },
        }
    }
}

/// The state of a feed and the content of its two files are those of these records.
pub open spec fn holds(s: StateView, data: Option<Seq<u8>>, index: Option<Seq<u8>>, v: Seq<ItemView>) -> bool {
    &&& s.feed_size_records == v.len()
    &&& held(data) == stream(v)
    &&& stored_index(index) == Ok::<Seq<nat>, Fault>(record_starts(0, v))
    &&& data is None ==> v.len() == 0
}

proof fn lemma_index_representable(v: Seq<nat>)
    requires
        forall|i: int| 0 <= i < v.len() ==> #[trigger] v[i] <= i64::MAX,
    ensures
        crate::cbor_codec::representable_items(index_cbor(v)),
    decreases v.len(),
{
    if v.len() > 0 {
        let rest = v.skip(1);
        assert forall|i: int| 0 <= i < rest.len() implies #[trigger] rest[i] <= i64::MAX by {
            assert(rest[i] == v[i + 1]);
        }
        lemma_index_representable(rest);
        assert(index_cbor(v).skip(1) =~= index_cbor(rest));
        assert(v[0] <= i64::MAX);
        assert(index_cbor(v)[0] == CborValue::Long(v[0] as int));
        assert(crate::cbor_codec::representable(index_cbor(v)[0]));
    }
}

/// A feed that holds records holds these and the new ones after they were appended, as
/// long as it is not too long for the numbers of its index.
pub proof fn law_feed_grows(
    s: StateView,
    data: Option<Seq<u8>>,
    index: Option<Seq<u8>>,
    v: Seq<ItemView>,
    more: Seq<ItemView>,
)
    requires
        holds(s, data, index, v),
        stream(v + more).len() <= i64::MAX,
        (v + more).len() <= u64::MAX,
    ensures
        ({
            let d = held(data) + stream(more);
            let i = record_starts(0, v) + record_starts(held(data).len(), more);
            let after = StateView { feed_size_records: s.feed_size_records + more.len(), feed_size_bytes: d.len(), ..s };
            holds(after, Some(d), Some(encode(CborValue::List(index_cbor(i)))), v + more)
        }),
{
    law_feed_append(v, more);
    let all = v + more;
    let i = record_starts(0, all);
    assert(record_starts(0, v) + record_starts(held(data).len(), more) == i);
    let c = index_cbor(i);
    assert forall|k: int| 0 <= k < i.len() implies #[trigger] i[k] <= i64::MAX by {
        crate::feed::records::lemma_stream_prefix(all, k);
    }
    crate::feed::records::law_index_round_trip(i);
    lemma_index_representable(i);
    crate::cbor_codec::lemma_round_trip(CborValue::List(c), Seq::empty());
    assert(encode(CborValue::List(c)) + Seq::<u8>::empty() =~= encode(CborValue::List(c)));
}

/// What a feed holds is what is read from it.
pub proof fn law_feed_gives_its_records(
    s: StateView,
    data: Option<Seq<u8>>,
    index: Option<Seq<u8>>,
    v: Seq<ItemView>,
    from: nat,
    to: nat,
    formats: &Formats,
)
    requires
        holds(s, data, index, v),
        forall|i: int| 0 <= i < v.len() ==> is_item(#[trigger] v[i], formats),
    ensures
        shared_records(s, data, index, from, to, formats) == Ok::<Seq<ItemView>, Fault>(
            if from >= v.len() || to <= from {
                Seq::empty()
            } else {
                v.subrange(from as int, least(to as int, v.len() as int))
            },
        ),
{
    law_feed_read_back(v, from, to, formats);
}

/// A new feed is empty and nothing of it was seen.
pub proof fn law_empty_feed()
    ensures
        empty_feed().last_seen_index == 0,
        empty_feed().feed_size_records == 0,
        empty_feed().feed_size_bytes == 0,
        empty_feed().processed.len() == 0,
        holds(empty_feed(), None, None, Seq::empty()),
{
    assert(record_starts(0, Seq::empty()) =~= Seq::<nat>::empty());
}

} // verus!
