//! Pulling what friends have newly shared into the feed.
use vstd::prelude::*;
use vstd::utf8::*;
use crate::capability::{AbsoluteCapability, CapView};
use crate::feed::posting::{extract_owner, owner_of};
use crate::feed::records::{item_views, FeedState, ItemView, SharedItem, StateView};
use crate::incoming::processed::{group_state, nothing_processed, with_group, ProcessedCaps, ProcessedView};
use crate::incoming::update::{dirs, put_dir, shared, sorted_shares, with_dir, CapabilityWithPath, NewCaps, NewCapsView};
use crate::incoming::{group_of_path, group_uid_from_path};
use crate::text::bytes_before;

verus! {

/// The update of the feed from one friend, under way.
#[derive(Debug, PartialEq, Eq)]
pub struct FeedUpdate {
    pub friend: String,
    /// How far the friend's streams have been processed.
    pub current: ProcessedCaps,
    /// The sharing directories of the groups that the friend shares into: those known so far,
    /// and those newly shared. All of them are read at every update.
    pub group_dirs: Vec<(String, AbsoluteCapability)>,
    /// What is to be added to the feed.
    pub items: Vec<SharedItem>,
}

/// The content of a [`FeedUpdate`].
pub ghost struct FeedUpdateView {
    pub friend: Seq<char>,
    pub current: ProcessedView,
    pub group_dirs: Seq<(Seq<char>, CapView)>,
    pub items: Seq<ItemView>,
}

impl View for FeedUpdate {
    type V = FeedUpdateView;

    open spec fn view(&self) -> FeedUpdateView {
        FeedUpdateView {
            friend: self.friend@,
            current: self.current@,
            group_dirs: dirs(self.group_dirs@),
            items: item_views(self.items@),
        }
    }
}

/// The item that a friend's share becomes.
pub open spec fn shared_item(friend: Seq<char>, c: (Seq<char>, CapView)) -> ItemView {
    ItemView { cap: c.1, owner: owner_of(c.0), sharer: friend, path: c.0 }
}

/// The items that a friend's shares become.
pub open spec fn shared_items(friend: Seq<char>, v: Seq<(Seq<char>, CapView)>) -> Seq<ItemView> {
    Seq::new(v.len(), |i: int| shared_item(friend, v[i]))
}

/// How far a sharing directory has been processed, once its streams were read up to here.
pub open spec fn read_up_to(p: ProcessedView, new: NewCapsView) -> ProcessedView {
    ProcessedView { read_cap_bytes: new.read_bytes, write_cap_bytes: new.write_bytes, ..p }
}

/// An update after the friend's direct shares: the sharing directories of groups are set
/// aside, and everything else goes into the feed.
pub open spec fn fed_direct(u: FeedUpdateView, new: NewCapsView) -> FeedUpdateView {
    let (d, c) = sorted_shares(u.group_dirs, Seq::empty(), new.caps);
    FeedUpdateView {
        current: read_up_to(u.current, new),
        group_dirs: d,
        items: u.items + shared_items(u.friend, c),
        ..u
    }
}

/// How far a group's streams have been processed.
pub open spec fn group_so_far(p: ProcessedView, uid: Seq<char>) -> ProcessedView {
    match group_state(p.groups, uid) {
        Some(g) => g,
        None => nothing_processed(),
    }
}

/// An update after the shares of one group.
pub open spec fn fed_group(u: FeedUpdateView, uid: Seq<char>, new: NewCapsView) -> FeedUpdateView {
    FeedUpdateView {
        current: ProcessedView {
            groups: with_group(u.current.groups, uid, read_up_to(group_so_far(u.current, uid), new)),
            ..u.current
        },
        items: u.items + shared_items(u.friend, new.caps),
        ..u
    }
}

fn read_now(p: ProcessedCaps, read_bytes: u64, write_bytes: u64) -> (r: ProcessedCaps)
    ensures
        r@ == (ProcessedView { read_cap_bytes: read_bytes as nat, write_cap_bytes: write_bytes as nat, ..p@ }),
{
    broadcast use crate::incoming::processed::lemma_groups_view;

    ProcessedCaps {
        read_caps: p.read_caps,
        write_caps: p.write_caps,
        read_cap_bytes: read_bytes,
        write_cap_bytes: write_bytes,
        groups: p.groups,
    }
}

fn item_of(friend: &str, c: CapabilityWithPath) -> (r: SharedItem)
    ensures
        r@ == shared_item(friend@, c@),
{
    SharedItem { owner: extract_owner(c.path.as_str()), sharer: friend.to_owned(), path: c.path, cap: c.cap }
}

impl FeedUpdate {
    /// The update from a friend, on from where the last one ended. `known` are the sharing
    /// directories of groups that earlier updates found.
    pub fn start(state: &FeedState, friend: &str, known: Vec<(String, AbsoluteCapability)>) -> (r: FeedUpdate)
        ensures
            r@ == (FeedUpdateView {
                friend: friend@,
                current: match group_state(state@.processed, friend@) {
                    Some(p) => p,
                    None => nothing_processed(),
                },
                group_dirs: dirs(known@),
                items: Seq::empty(),
            }),
    {
        let r = FeedUpdate {
            friend: friend.to_owned(),
            current: state.friend(friend),
            group_dirs: known,
            items: Vec::new(),
        };
        proof {
            assert(r@.items =~= Seq::empty());
        }
        r
    }

    /// Takes in what is new in the friend's sharing directory.
    pub fn on_direct(&mut self, new: NewCaps)
        ensures
            final(self)@ == fed_direct(old(self)@, new@),
    {
        let ghost u0 = self@;
        let ghost nv = new@;
        let ghost all = new.caps@;
        let ghost d0 = dirs(self.group_dirs@);
        let ghost empty = Seq::<(Seq<char>, CapView)>::empty();
        self.current = read_now(self.current.dup(), new.read_bytes, new.write_bytes);
        let mut rest = new.caps;
        let ghost n = all.len();
        proof {
            assert(all =~= all.skip(0));
            assert(shared(all).take(0) =~= empty);
            assert(u0.items + shared_items(u0.friend, empty) =~= u0.items);
        }
        while rest.len() > 0
            invariant
                n == all.len(),
                nv.caps == shared(all),
                rest@.len() <= n,
                rest@ == all.skip(n - rest@.len()),
                self.friend@ == u0.friend,
                u0 == old(self)@,
                nv == new@,
                self.current@ == read_up_to(u0.current, nv),
                dirs(self.group_dirs@) == sorted_shares(d0, empty, nv.caps.take(n - rest@.len())).0,
                item_views(self.items@) == u0.items + shared_items(
                    u0.friend,
                    sorted_shares(d0, empty, nv.caps.take(n - rest@.len())).1,
                ),
            decreases rest.len(),
        {
            let ghost i = n - rest@.len();
            let ghost before = item_views(self.items@);
            let ghost content = sorted_shares(d0, empty, nv.caps.take(i)).1;
            let c = rest.remove(0);
            let ghost cv = c@;
            proof {
                assert(c == all[i]);
                assert(rest@ =~= all.skip(i + 1));
                assert(nv.caps.take(i + 1).drop_last() =~= nv.caps.take(i));
                assert(nv.caps.take(i + 1).last() == cv);
            }
            match group_uid_from_path(c.path.as_str()) {
                Some(uid) => {
                    put_dir(&mut self.group_dirs, uid.as_str(), c.cap);
                },
                None => {
                    self.items.push(item_of(self.friend.as_str(), c));
                    proof {
                        assert(item_views(self.items@) =~= before.push(shared_item(u0.friend, cv)));
                        assert(u0.items + shared_items(u0.friend, content.push(cv)) =~= (u0.items + shared_items(
                            u0.friend,
                            content,
                        )).push(shared_item(u0.friend, cv)));
                    }
                },
            }
        }
        proof {
            assert(nv.caps.take(n as int) =~= nv.caps);
        }
    }

    /// How far the streams of a group have been processed.
    pub fn group_state(&self, uid: &str) -> (r: ProcessedCaps)
        ensures
            r@ == group_so_far(self@.current, uid@),
    {
        self.current.group(uid)
    }

    /// Takes in what is new in the sharing directory of a group.
    pub fn on_group(&mut self, uid: &str, new: NewCaps)
        ensures
            final(self)@ == fed_group(old(self)@, uid@, new@),
    {
        broadcast use crate::incoming::processed::lemma_groups_view;

        let ghost u0 = self@;
        let ghost nv = new@;
        let ghost all = new.caps@;
        let g = read_now(self.current.group(uid), new.read_bytes, new.write_bytes);
        self.current.set_group(uid, g);
        let mut rest = new.caps;
        let ghost n = all.len();
        let ghost current = self.current@;
        proof {
            assert(all =~= all.skip(0));
            assert(u0.items + shared_items(u0.friend, nv.caps.take(0)) =~= u0.items);
        }
        while rest.len() > 0
            invariant
                n == all.len(),
                nv.caps == shared(all),
                rest@.len() <= n,
                rest@ == all.skip(n - rest@.len()),
                self.friend@ == u0.friend,
                self.current@ == current,
                dirs(self.group_dirs@) == u0.group_dirs,
                item_views(self.items@) == u0.items + shared_items(u0.friend, nv.caps.take(n - rest@.len())),
            decreases rest.len(),
        {
            let ghost i = n - rest@.len();
            let ghost before = item_views(self.items@);
            let c = rest.remove(0);
            let ghost cv = c@;
            proof {
                assert(c == all[i]);
                assert(rest@ =~= all.skip(i + 1));
            }
            self.items.push(item_of(self.friend.as_str(), c));
            proof {
                assert(item_views(self.items@) =~= before.push(shared_item(u0.friend, cv)));
                assert(u0.items + shared_items(u0.friend, nv.caps.take(i + 1)) =~= (u0.items + shared_items(
                    u0.friend,
                    nv.caps.take(i),
                )).push(shared_item(u0.friend, cv)));
            }
        }
        proof {
            assert(nv.caps.take(n as int) =~= nv.caps);
        }
    }

    /// The state of the feed with how far the friend's streams have been processed now,
    /// what is to be added to the feed, and the sharing directories of groups to start the
    /// next update with.
    pub fn finish(self, state: FeedState) -> (r: (FeedState, Vec<SharedItem>, Vec<(String, AbsoluteCapability)>))
        ensures
            r.0@ == (StateView { processed: with_group(state@.processed, self@.friend, self@.current), ..state@ }),
            item_views(r.1@) == self@.items,
            dirs(r.2@) == self@.group_dirs,
    {
        (state.set_friend(self.friend.as_str(), self.current), self.items, self.group_dirs)
    }
}

/// A group's sharing directory is among these.
pub open spec fn has_group(v: Seq<(Seq<char>, CapView)>, uid: Seq<char>) -> bool {
    exists|i: int| 0 <= i < v.len() && (#[trigger] v[i]).0 == uid
}

proof fn lemma_with_dir_keeps(v: Seq<(Seq<char>, CapView)>, uid: Seq<char>, cap: CapView, known: Seq<char>)
    ensures
        has_group(v, known) ==> has_group(with_dir(v, uid, cap), known),
        has_group(with_dir(v, uid, cap), uid),
    decreases v.len(),
{
    let w = with_dir(v, uid, cap);
    if v.len() == 0 || v[0].0 == uid || bytes_before(encode_utf8(uid), encode_utf8(v[0].0)) {
        assert(w[0].0 == uid);
        if has_group(v, known) {
            let i = choose|i: int| 0 <= i < v.len() && (#[trigger] v[i]).0 == known;
            if v[0].0 != uid {
                assert(w[i + 1] == v[i]);
            } else if i > 0 {
                assert(w[i] == v[i]);
            }
        }
    } else {
        let rest = v.skip(1);
        lemma_with_dir_keeps(rest, uid, cap, known);
        let x = with_dir(rest, uid, cap);
        assert(has_group(w, uid)) by {
            let k = choose|k: int| 0 <= k < x.len() && (#[trigger] x[k]).0 == uid;
            assert(w[k + 1] == x[k]);
        }
        if has_group(v, known) {
            let i = choose|i: int| 0 <= i < v.len() && (#[trigger] v[i]).0 == known;
            if i == 0 {
                assert(w[0] == v[0]);
            } else {
                assert(rest[i - 1] == v[i]);
                let k = choose|k: int| 0 <= k < x.len() && (#[trigger] x[k]).0 == known;
                assert(w[k + 1] == x[k]);
            }
        }
    }
}

proof fn lemma_sorted_keeps(
    d: Seq<(Seq<char>, CapView)>,
    c: Seq<(Seq<char>, CapView)>,
    caps: Seq<(Seq<char>, CapView)>,
    known: Seq<char>,
)
    requires
        has_group(d, known),
    ensures
        has_group(sorted_shares(d, c, caps).0, known),
    decreases caps.len(),
{
    if caps.len() > 0 {
        lemma_sorted_keeps(d, c, caps.drop_last(), known);
        let e = sorted_shares(d, c, caps.drop_last()).0;
        match group_of_path(caps.last().0) {
            Some(uid) => {
                lemma_with_dir_keeps(e, uid, caps.last().1, known);
            },
            None => {},
        }
    }
}

/// A group that is known stays known, whatever the friend shares directly: so it is read at
/// every update. With nothing new the directories are the same.
pub proof fn law_known_groups_stay(u: FeedUpdateView, new: NewCapsView, uid: Seq<char>)
    requires
        has_group(u.group_dirs, uid),
    ensures
        has_group(fed_direct(u, new).group_dirs, uid),
        new.caps.len() == 0 ==> fed_direct(u, new).group_dirs == u.group_dirs,
{
    lemma_sorted_keeps(u.group_dirs, Seq::empty(), new.caps, uid);
}

/// Whatever a friend newly shares into a group becomes an item of the feed, and the items
/// found before stay.
pub proof fn law_group_shares_become_items(u: FeedUpdateView, uid: Seq<char>, new: NewCapsView, k: int)
    requires
        0 <= k < new.caps.len(),
    ensures
        fed_group(u, uid, new).items.len() == u.items.len() + new.caps.len(),
        fed_group(u, uid, new).items.take(u.items.len() as int) == u.items,
        fed_group(u, uid, new).items[u.items.len() + k] == shared_item(u.friend, new.caps[k]),
{
    assert(fed_group(u, uid, new).items.take(u.items.len() as int) =~= u.items);
}

/// Direct shares become items of the feed, in their order and each with the whole capability that
/// was shared, but for the sharing directories of groups. The items found before stay.
pub proof fn law_direct_shares_become_items(u: FeedUpdateView, new: NewCapsView)
    ensures
        ({
            let fresh = new.caps.filter(|c: (Seq<char>, CapView)| group_of_path(c.0) is None);
            let items = fed_direct(u, new).items;
            &&& items.len() == u.items.len() + fresh.len()
            &&& items.take(u.items.len() as int) == u.items
            &&& forall|k: int|
                0 <= k < fresh.len() ==> {
                    let item = #[trigger] items[u.items.len() + k];
                    item.cap == fresh[k].1 && item.path == fresh[k].0 && item.sharer == u.friend && item.owner
                        == owner_of(fresh[k].0)
                }
        }),
        fed_direct(u, new).friend == u.friend,
        fed_direct(u, new).current.read_cap_bytes == new.read_bytes,
        fed_direct(u, new).current.write_cap_bytes == new.write_bytes,
        fed_direct(u, new).current.groups == u.current.groups,
{
    let v = crate::incoming::update::UpdateView {
        current: u.current,
        updated: u.current,
        group_dirs: u.group_dirs,
        content: Seq::empty(),
    };
    crate::incoming::update::law_direct_shares(v, new);
    let fresh = new.caps.filter(|c: (Seq<char>, CapView)| group_of_path(c.0) is None);
    assert(Seq::<(Seq<char>, CapView)>::empty() + fresh =~= fresh);
    assert(fed_direct(u, new).items.take(u.items.len() as int) =~= u.items);
}

/// An item of the feed holds the capability and the path that were shared, whose first component
/// is its owner, and who shared it; what a group gave is read up to where it was read now.
pub proof fn law_shared_item(u: FeedUpdateView, uid: Seq<char>, new: NewCapsView, k: int)
    requires
        0 <= k < new.caps.len(),
    ensures
        ({
            let item = fed_group(u, uid, new).items[u.items.len() + k];
            item.cap == new.caps[k].1 && item.path == new.caps[k].0 && item.sharer == u.friend && item.owner == owner_of(
                new.caps[k].0,
            )
        }),
        fed_group(u, uid, new).group_dirs == u.group_dirs,
        group_state(fed_group(u, uid, new).current.groups, uid) matches Some(p) && p.read_cap_bytes == new.read_bytes
            && p.write_cap_bytes == new.write_bytes,
{
    crate::incoming::processed::law_group_state(
        u.current.groups,
        uid,
        read_up_to(group_so_far(u.current, uid), new),
        uid,
    );
}

/// What the feed has read of a group moves only the place in its streams: its counts stay, and so
/// does all that is known of other groups and of what the friend shares directly.
pub proof fn law_group_position(u: FeedUpdateView, uid: Seq<char>, new: NewCapsView, other: Seq<char>)
    requires
        other != uid,
    ensures
        group_state(fed_group(u, uid, new).current.groups, other) == group_state(u.current.groups, other),
        group_state(u.current.groups, uid) matches Some(g) ==> (group_state(fed_group(u, uid, new).current.groups, uid)
            matches Some(p) && p.read_caps == g.read_caps && p.write_caps == g.write_caps),
        group_state(u.current.groups, uid) is None ==> (group_state(fed_group(u, uid, new).current.groups, uid) matches Some(p)
            && p.read_caps == 0 && p.write_caps == 0),
        fed_group(u, uid, new).current.read_caps == u.current.read_caps,
        fed_group(u, uid, new).current.write_caps == u.current.write_caps,
        fed_group(u, uid, new).current.read_cap_bytes == u.current.read_cap_bytes,
        fed_group(u, uid, new).current.write_cap_bytes == u.current.write_cap_bytes,
        fed_group(u, uid, new).friend == u.friend,
        fed_direct(u, new).current.read_caps == u.current.read_caps,
        fed_direct(u, new).current.write_caps == u.current.write_caps,
{
    crate::incoming::processed::law_group_state(u.current.groups, uid, read_up_to(group_so_far(u.current, uid), new), other);
    crate::incoming::processed::law_group_state(u.current.groups, uid, read_up_to(group_so_far(u.current, uid), new), uid);
}

} // verus!
