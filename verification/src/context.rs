//! The top-level handle to an account, or to what a secret link shares, and how it finds
//! files by their paths.
use vstd::prelude::*;
use crate::capability::{AbsoluteCapability, CapView};
use crate::error::{fails_protocol, opt, protocol, Error, Result};
use crate::feed::posting::without_leading;
use crate::incoming::update::CapabilityWithPath;
use crate::incoming::{components, dup_texts, split_path};
use crate::login::{EntryPoint, LoggedInUser};
use crate::opaque::{BatId, BatWithId};
use crate::paths::{slice_chars, texts};
use crate::text::{chars_of, find_first, first_place, join2, join3, join4, same_text, text_of};

use crate::context::links::{
    by_dir, collect_links, forgotten_paths, is_addition, is_membership_change, paths_to_forget, plan_addition, plan_members,
    recorded, summaries, trim_all, trimmed_all, with_shares, LinkMint, MembershipChange,
};

pub mod links;
pub mod quota;

pub use links::{LinkMember, LinkProperties, SecretLinkSummary, MAX_LINK_MEMBERS};
pub use quota::{PaymentProperties, SpaceRequest};

verus! {

/// A handle to an account (full login) or to what secret links share.
#[derive(Debug, PartialEq, Eq)]
pub struct UserContext {
    /// The signed-in user. `None` for a secret link.
    pub user: Option<LoggedInUser>,
    /// Root capabilities of a single-link context.
    pub link_caps: Vec<AbsoluteCapability>,
    /// Secret links mounted at their true absolute paths, for a multi-link context. The
    /// deepest matching mount wins, so a writable child link supersedes a read-only parent
    /// link at the overlapping path.
    pub link_mounts: Vec<(String, AbsoluteCapability)>,
}

/// The error of what needs an identity.
pub const NOT_SIGNED_IN: &'static str = "operation requires a signed-in user";

/// A path leads to another one: it is that path or one of its ancestors.
pub open spec fn leads(p: Seq<Seq<char>>, query: Seq<Seq<char>>) -> bool {
    p.len() <= query.len() && query.take(p.len() as int) == p
}

/// The place of the deepest of these paths that leads to the query: the first of these,
/// if there are several.
pub open spec fn deepest(v: Seq<Seq<Seq<char>>>, query: Seq<Seq<char>>) -> Option<int>
    decreases v.len(),
{
    if v.len() == 0 {
        None
    } else {
        let best = deepest(v.drop_last(), query);
        if leads(v.last(), query) && (best is None || v.last().len() > v[best->Some_0].len()) {
            Some(v.len() - 1)
        } else {
            best
        }
    }
}

/// What the deepest path is: it leads to the query, every other one that does is no longer,
/// and one before it is shorter. There is none only if no path leads to the query.
pub proof fn law_deepest(v: Seq<Seq<Seq<char>>>, query: Seq<Seq<char>>)
    ensures
        match deepest(v, query) {
            Some(i) => {
                &&& 0 <= i < v.len()
                &&& leads(v[i], query)
                &&& forall|j: int|
                    0 <= j < v.len() && leads(#[trigger] v[j], query) ==> v[j].len() < v[i].len() || (v[j].len()
                        == v[i].len() && i <= j)
            },
            None => forall|j: int| 0 <= j < v.len() ==> !leads(#[trigger] v[j], query),
        },
    decreases v.len(),
{
    if v.len() > 0 {
        let init = v.drop_last();
        law_deepest(init, query);
        assert forall|j: int| 0 <= j < init.len() implies init[j] == v[j] by {}
    }
}

/// Whether `p` leads to `query`.
fn does_lead(p: &Vec<String>, query: &Vec<String>) -> (r: bool)
    ensures
        r == leads(texts(p@), texts(query@)),
{
    if p.len() > query.len() {
        return false;
    }
    for i in 0..p.len()
        invariant
            p.len() <= query.len(),
            forall|k: int| 0 <= k < i ==> p[k]@ == query[k]@,
    {
        if !same_text(p[i].as_str(), query[i].as_str()) {
            proof {
                assert(texts(query@).take(p@.len() as int)[i as int] != texts(p@)[i as int]);
            }
            return false;
        }
    }
    proof {
        assert(texts(query@).take(p@.len() as int) =~= texts(p@));
    }
    true
}

/// The components of several paths.
pub open spec fn all_components(v: Seq<Seq<char>>) -> Seq<Seq<Seq<char>>> {
    Seq::new(v.len(), |i: int| components(v[i]))
}

/// The place of the deepest of these paths that leads to the query, and how many
/// components it has.
pub fn find_deepest(paths: &Vec<String>, query: &Vec<String>) -> (r: Option<(usize, usize)>)
    ensures
        match deepest(all_components(texts(paths@)), texts(query@)) {
            Some(i) => r is Some && r->Some_0.0 == i && r->Some_0.0 < paths.len() && r->Some_0.1 == components(
                paths[i]@,
            ).len() && r->Some_0.1 <= query.len(),
            None => r is None,
        },
{
    let ghost all = all_components(texts(paths@));
    let ghost q = texts(query@);
    let mut best: Option<(usize, usize)> = None;
    proof {
        assert(all.take(0) =~= Seq::empty());
    }
    for i in 0..paths.len()
        invariant
            all == all_components(texts(paths@)),
            q == texts(query@),
            match deepest(all.take(i as int), q) {
                Some(k) => {
                    &&& best is Some
                    &&& best->Some_0.0 == k
                    &&& best->Some_0.0 < i
                    &&& best->Some_0.1 == all[k].len()
                    &&& best->Some_0.1 <= query.len()
                },
                None => best is None,
            },
    {
        proof {
            assert(all.take(i as int + 1).drop_last() =~= all.take(i as int));
            assert(all.take(i as int + 1).last() == components(paths[i as int]@));
            law_deepest(all.take(i as int), q);
        }
        let comps = split_path(paths[i].as_str());
        proof {
            assert(texts(comps@).len() == comps.len());
            assert(q.len() == query.len());
        }
        if does_lead(&comps, query) {
            let deeper = match best {
                Some((_, n)) => comps.len() > n,
                None => true,
            };
            if deeper {
                best = Some((i, comps.len()));
            }
        }
    }
    proof {
        assert(all.take(all.len() as int) =~= all);
    }
    best
}

/// One place where a path may lead, to be tried in turn: the rest of the path is followed
/// from there.
#[derive(Debug, PartialEq, Eq)]
pub enum Attempt {
    /// The mounted link at this place.
    Mount { at: usize, rest: Vec<String> },
    /// The root at this place.
    Root { at: usize, rest: Vec<String> },
    /// The user's home.
    Home { rest: Vec<String> },
    /// What a friend has shared with the user.
    Shared { path: Vec<String> },
}

/// The content of an [`Attempt`].
pub ghost enum AttemptView {
    Mount { at: int, rest: Seq<Seq<char>> },
    Root { at: int, rest: Seq<Seq<char>> },
    Home { rest: Seq<Seq<char>> },
    Shared { path: Seq<Seq<char>> },
}

impl View for Attempt {
    type V = AttemptView;

    open spec fn view(&self) -> AttemptView {
        match self {
            Attempt::Mount { at, rest } => AttemptView::Mount { at: *at as int, rest: texts(rest@) },
            Attempt::Root { at, rest } => AttemptView::Root { at: *at as int, rest: texts(rest@) },
            Attempt::Home { rest } => AttemptView::Home { rest: texts(rest@) },
            Attempt::Shared { path } => AttemptView::Shared { path: texts(path@) },
        }
    }
}

/// The contents of a list of attempts.
pub open spec fn attempt_views(v: Seq<Attempt>) -> Seq<AttemptView> {
    Seq::new(v.len(), |i: int| v[i]@)
}

/// The place of the first of these names.
pub open spec fn name_place(names: Seq<Seq<char>>, name: Seq<char>) -> int
    decreases names.len(),
{
    if names.len() == 0 {
        0
    } else if names[0] == name {
        0
    } else {
        1 + name_place(names.skip(1), name)
    }
}

/// Where a path may lead, in the order in which it is tried.
///
/// With several links, the deepest one that leads there. Otherwise: the empty path is home,
/// or the first root of a link; a path that names a root leads into it; for a signed-in user
/// a path may also start at home, or be one that a friend has shared; and for a link with
/// one root a path may start there.
pub open spec fn lookup_plan(
    signed_in: bool,
    mounts: Seq<Seq<Seq<char>>>,
    roots: Seq<Seq<char>>,
    query: Seq<Seq<char>>,
) -> Seq<AttemptView> {
    if mounts.len() > 0 {
        match deepest(mounts, query) {
            Some(i) => seq![AttemptView::Mount { at: i, rest: query.skip(mounts[i].len() as int) }],
            None => Seq::empty(),
        }
    } else if query.len() == 0 {
        if signed_in {
            seq![AttemptView::Home { rest: query }]
        } else if roots.len() > 0 {
            seq![AttemptView::Root { at: 0, rest: query }]
        } else {
            Seq::empty()
        }
    } else {
        let i = name_place(roots, query[0]);
        let named = if i < roots.len() {
            seq![AttemptView::Root { at: i, rest: query.skip(1) }]
        } else {
            Seq::empty()
        };
        if signed_in {
            named + seq![AttemptView::Home { rest: query }, AttemptView::Shared { path: query }]
        } else if roots.len() == 1 {
            named + seq![AttemptView::Root { at: 0, rest: query }]
        } else {
            named
        }
    }
}

fn find_name(names: &Vec<String>, name: &str) -> (r: usize)
    ensures
        r == name_place(texts(names@), name@),
        r <= names.len(),
{
    let ghost nv = texts(names@);
    let mut i: usize = 0;
    proof {
        assert(nv.skip(0) =~= nv);
    }
    while i < names.len()
        invariant
            nv == texts(names@),
            i <= names.len(),
            name_place(nv, name@) == i + name_place(nv.skip(i as int), name@),
        decreases names.len() - i,
    {
        proof {
            assert(nv.skip(i as int)[0] == names[i as int]@);
        }
        if same_text(names[i].as_str(), name) {
            return i;
        }
        proof {
            assert(nv.skip(i as int).skip(1) =~= nv.skip(i as int + 1));
        }
        i = i + 1;
    }
    proof {
        assert(nv.skip(i as int) =~= Seq::empty());
    }
    i
}

/// The texts from `from` on.
pub fn texts_from_place(v: &Vec<String>, from: usize) -> (r: Vec<String>)
    requires
        from <= v.len(),
    ensures
        texts(r@) == texts(v@).skip(from as int),
{
    let mut out: Vec<String> = Vec::new();
    for i in from..v.len()
        invariant
            from <= v.len(),
            out.len() == i - from,
            forall|k: int| 0 <= k < out.len() ==> (#[trigger] out[k])@ == v[from + k]@,
    {
        out.push(v[i].clone());
    }
    proof {
        assert(texts(out@) =~= texts(v@).skip(from as int));
    }
    out
}

/// The paths that links are mounted at.
pub open spec fn mount_paths(v: Seq<(String, AbsoluteCapability)>) -> Seq<Seq<char>> {
    Seq::new(v.len(), |i: int| v[i].0@)
}

/// A path of the user's home relative to it: none, if it is in another home.
pub open spec fn relative_to_home(username: Seq<char>, path: Seq<char>) -> Option<Seq<char>> {
    let t = without_leading(path);
    let i = first_place(t, '/') as int;
    if t.take(i) != username {
        None
    } else if i == t.len() {
        Some(Seq::empty())
    } else {
        Some(t.skip(i + 1))
    }
}

/// An absolute `/owner/a/b` path as a home-relative one, for this user's files.
pub fn home_path_of(username: &str, path: &str) -> (r: Option<String>)
    ensures
        opt(r) == relative_to_home(username@, path@),
{
    let chars = chars_of(path);
    let mut from: usize = 0;
    proof {
        assert(chars@.skip(0) =~= chars@);
    }
    while from < chars.len() && chars[from] == '/'
        invariant
            chars@ == path@,
            from <= chars.len(),
            without_leading(chars@.skip(from as int)) == without_leading(path@),
        decreases chars.len() - from,
    {
        proof {
            assert(chars@.skip(from as int).skip(1) =~= chars@.skip(from as int + 1));
        }
        from = from + 1;
    }
    let t = slice_chars(&chars, from, chars.len());
    proof {
        assert(t@ =~= chars@.skip(from as int));
    }
    let i = find_first(t, '/');
    let owner = text_of(slice_chars(t, 0, i));
    proof {
        assert(owner@ =~= t@.take(i as int));
    }
    if !same_text(owner.as_str(), username) {
        None
    } else if i == t.len() {
        Some(String::new())
    } else {
        let rest = text_of(slice_chars(t, i + 1, t.len()));
        proof {
            assert(rest@ =~= t@.skip(i + 1));
        }
        Some(rest)
    }
}

/// A friend's entry point among these: the first of that name.
pub fn find_friend<'a>(friends: &'a Vec<EntryPoint>, owner: &str) -> (r: Option<&'a EntryPoint>)
    ensures
        match crate::login::home_entry(crate::login::entry_views(friends@), owner@) {
            Some(c) => r is Some && r->Some_0.pointer@ == c && r->Some_0.owner_name@ == owner@,
            None => r is None,
        },
{
    let ghost ev = crate::login::entry_views(friends@);
    proof {
        assert(ev.skip(0) =~= ev);
    }
    for i in 0..friends.len()
        invariant
            ev == crate::login::entry_views(friends@),
            crate::login::home_entry(ev, owner@) == crate::login::home_entry(ev.skip(i as int), owner@),
    {
        if same_text(friends[i].owner_name.as_str(), owner) {
            return Some(&friends[i]);
        }
        proof {
            assert(ev.skip(i as int).skip(1) =~= ev.skip(i as int + 1));
        }
    }
    None
}

/// Where a path into what a friend has shared is entered.
#[derive(Debug, PartialEq, Eq)]
pub struct SharedEntry {
    /// The place of the capability among those that the friend has shared.
    pub at: usize,
    /// The name of the file or directory that it is for.
    pub name: String,
    /// Its path, and what is left of the query from there.
    pub path: Vec<String>,
    pub rest: Vec<String>,
}

/// The paths of shared capabilities.
pub open spec fn shared_paths(v: Seq<CapabilityWithPath>) -> Seq<Seq<char>> {
    Seq::new(v.len(), |i: int| v[i].path@)
}

/// Among the capabilities that a friend has shared, the deepest whose path leads to the
/// query; the rest of the query is followed from there.
pub fn enter_shared(shared: &Vec<CapabilityWithPath>, query: &Vec<String>) -> (r: Option<SharedEntry>)
    requires
        query.len() > 0,
    ensures
        match deepest(all_components(shared_paths(shared@)), texts(query@)) {
            None => r is None,
            Some(i) => {
                let n = all_components(shared_paths(shared@))[i].len() as int;
                &&& r is Some
                &&& r->Some_0.at == i
                &&& r->Some_0.name@ == if n == 0 { query[0]@ } else { query[n - 1]@ }
                &&& texts(r->Some_0.path@) == texts(query@).take(n)
                &&& texts(r->Some_0.rest@) == texts(query@).skip(n)
            },
        },
{
    let mut paths: Vec<String> = Vec::new();
    for i in 0..shared.len()
        invariant
            paths.len() == i,
            forall|k: int| 0 <= k < i ==> (#[trigger] paths[k])@ == shared[k].path@,
    {
        paths.push(shared[i].path.clone());
    }
    proof {
        assert(texts(paths@) =~= shared_paths(shared@));
    }
    match find_deepest(&paths, query) {
        None => None,
        Some((at, n)) => {
            let mut path: Vec<String> = Vec::new();
            for i in 0..n
                invariant
                    n <= query.len(),
                    path.len() == i,
                    forall|k: int| 0 <= k < i ==> (#[trigger] path[k])@ == query[k]@,
            {
                path.push(query[i].clone());
            }
            proof {
                assert(texts(path@) =~= texts(query@).take(n as int));
            }
            let name = if n == 0 { query[0].clone() } else { query[n - 1].clone() };
            Some(SharedEntry { at, name, path, rest: texts_from_place(query, n) })
        },
    }
}

impl UserContext {
    /// The paths that this context's links are mounted at.
    pub open spec fn mounts(self) -> Seq<Seq<char>> {
        mount_paths(self.link_mounts@)
    }

    /// The context of a signed-in user, or of a session that was saved.
    pub fn from_session(user: LoggedInUser) -> (r: UserContext)
        ensures
            r.user == Some(user),
            r.link_caps@.len() == 0,
            r.link_mounts@.len() == 0,
    {
        UserContext { user: Some(user), link_caps: Vec::new(), link_mounts: Vec::new() }
    }

    /// The context of a link with a single capability. Whether a link has several, which
    /// are mounted each at its own path, is up to [`UserContext::is_multi_link`].
    pub fn from_secret_link(caps: Vec<AbsoluteCapability>) -> (r: Result<UserContext>)
        ensures
            caps@.len() == 0 ==> fails_protocol(r, "Secret link has no capabilities"@),
            caps@.len() > 0 ==> r is Ok && r->Ok_0.user is None && r->Ok_0.link_caps@ == seq![caps@.last()]
                && r->Ok_0.link_mounts@.len() == 0,
    {
        let mut caps = caps;
        match caps.pop() {
            None => Err(protocol("Secret link has no capabilities")),
            Some(cap) => {
                let mut link_caps: Vec<AbsoluteCapability> = Vec::new();
                link_caps.push(cap);
                proof {
                    assert(link_caps@ =~= seq![cap]);
                }
                Ok(UserContext { user: None, link_caps, link_mounts: Vec::new() })
            },
        }
    }

    /// Whether a link with these capabilities mounts each of them at its own path.
    pub fn is_multi_link(caps: &Vec<AbsoluteCapability>) -> (r: bool)
        ensures
            r == (caps@.len() > 1),
    {
        caps.len() > 1
    }

    /// The context of several capabilities of links, each mounted at its absolute path.
    pub fn from_link_caps(link_mounts: Vec<(String, AbsoluteCapability)>) -> (r: UserContext)
        ensures
            r.user is None,
            r.link_caps@.len() == 0,
            r.link_mounts == link_mounts,
    {
        UserContext { user: None, link_caps: Vec::new(), link_mounts }
    }

    /// The absolute paths at which this context's secret links are mounted, in the order
    /// supplied.
    pub fn link_mount_paths(&self) -> (r: Vec<String>)
        ensures
            texts(r@) == self.mounts(),
    {
        let mut out: Vec<String> = Vec::new();
        for i in 0..self.link_mounts.len()
            invariant
                out.len() == i,
                forall|k: int| 0 <= k < i ==> (#[trigger] out[k])@ == self.link_mounts[k].0@,
        {
            out.push(self.link_mounts[i].0.clone());
        }
        proof {
            assert(texts(out@) =~= self.mounts());
        }
        out
    }

    /// The signed-in username, if this is a full login.
    pub fn username(&self) -> (r: Option<&str>)
        ensures
            match self.user {
                Some(u) => r is Some && r->Some_0@ == u.username@,
                None => r is None,
            },
    {
        match &self.user {
            Some(u) => Some(u.username.as_str()),
            None => None,
        }
    }

    /// The signed-in user.
    pub fn user(&self) -> (r: Option<&LoggedInUser>)
        ensures
            match self.user {
                Some(u) => r == Some(&u),
                None => r is None,
            },
    {
        self.user.as_ref()
    }

    /// True for a secret-link context (no identity / home directory).
    pub fn is_secret_link(&self) -> (r: bool)
        ensures
            r == (self.user is None),
    {
        self.user.is_none()
    }

    /// The signed-in user's mirror BAT id, which tags written blocks.
    pub fn mirror_bat_id(&self) -> (r: Option<BatId>)
        ensures
            opt(r) == match self.user {
                Some(u) => match u.mirror_bat {
                    Some(b) => Some(b@.1),
                    None => None,
                },
                None => None,
            },
    {
        match &self.user {
            Some(u) => u.mirror_bat_id(),
            None => None,
        }
    }

    /// The signed-in user, where one is needed.
    pub fn require_user(&self) -> (r: Result<&LoggedInUser>)
        ensures
            match self.user {
                Some(u) => r is Ok && *r->Ok_0 == u,
                None => fails_protocol(r, NOT_SIGNED_IN@),
            },
    {
        match &self.user {
            Some(u) => Ok(u),
            None => Err(protocol(NOT_SIGNED_IN)),
        }
    }

    /// The capability of the user's home: a secret link has none.
    pub fn home_cap(&self) -> (r: Result<Option<&AbsoluteCapability>>)
        ensures
            match self.user {
                None => fails_protocol(r, "no home directory in a secret-link context"@),
                Some(u) => r is Ok && match crate::login::home_entry(
                    crate::login::entry_views(u.entries@),
                    u.username@,
                ) {
                    Some(c) => r->Ok_0 is Some && r->Ok_0->Some_0@ == c,
                    None => r->Ok_0 is None,
                },
            },
    {
        match &self.user {
            None => Err(protocol("no home directory in a secret-link context")),
            Some(u) => Ok(u.home()),
        }
    }

    /// Where a path may lead, in the order in which it is tried: the first place where
    /// something is found is what the path names. `roots` are the names of this context's
    /// roots.
    pub fn get_by_path(&self, roots: &Vec<String>, path: &str) -> (r: Vec<Attempt>)
        ensures
            attempt_views(r@) == lookup_plan(
                self.user is Some,
                all_components(self.mounts()),
                texts(roots@),
                components(path@),
            ),
    {
        let query = split_path(path);
        let ghost q = texts(query@);
        let mut out: Vec<Attempt> = Vec::new();
        proof {
            assert(q.len() == query.len());
            assert(texts(roots@).len() == roots.len());
        }
        if self.link_mounts.len() > 0 {
            let paths = self.link_mount_paths();
            match find_deepest(&paths, &query) {
                None => {},
                Some((at, n)) => {
                    out.push(Attempt::Mount { at, rest: texts_from_place(&query, n) });
                },
            }
            proof {
                assert(attempt_views(out@) =~= lookup_plan(
                    self.user is Some,
                    all_components(self.mounts()),
                    texts(roots@),
                    q,
                ));
            }
            return out;
        }
        if query.len() == 0 {
            if self.user.is_some() {
                out.push(Attempt::Home { rest: query });
            } else if roots.len() > 0 {
                out.push(Attempt::Root { at: 0, rest: query });
            }
            proof {
                assert(attempt_views(out@) =~= lookup_plan(
                    self.user is Some,
                    all_components(self.mounts()),
                    texts(roots@),
                    q,
                ));
            }
            return out;
        }
        let at = find_name(roots, query[0].as_str());
        if at < roots.len() {
            out.push(Attempt::Root { at, rest: texts_from_place(&query, 1) });
        }
        if self.user.is_some() {
            out.push(Attempt::Home { rest: dup_texts(&query) });
            out.push(Attempt::Shared { path: query });
        } else if roots.len() == 1 {
            out.push(Attempt::Root { at: 0, rest: query });
        }
        proof {
            assert(attempt_views(out@) =~= lookup_plan(
                self.user is Some,
                all_components(self.mounts()),
                texts(roots@),
                q,
            ));
        }
        out
    }

    /// Whether a path may be one that a friend has shared: it is not one of our own.
    pub fn may_be_shared(&self, query: &Vec<String>) -> (r: bool)
        requires
            query.len() > 0,
        ensures
            r == (self.user is Some && query[0]@ != self.user->Some_0.username@),
    {
        match &self.user {
            None => false,
            Some(u) => !same_text(query[0].as_str(), u.username.as_str()),
        }
    }

    /// An absolute `/owner/a/b` path as a home-relative one, for this user's files.
    pub fn home_relative(&self, path: &str) -> (r: Result<String>)
        ensures
            match self.user {
                None => fails_protocol(r, NOT_SIGNED_IN@),
                Some(u) => match relative_to_home(u.username@, path@) {
                    Some(p) => r is Ok && r->Ok_0@ == p,
                    None => fails_protocol(r, path@ + " is not in "@ + u.username@ + "'s home"@),
                },
            },
    {
        match &self.user {
            None => Err(protocol(NOT_SIGNED_IN)),
            Some(u) => match home_path_of(u.username.as_str(), path) {
                Some(p) => Ok(p),
                None => Err(
                    protocol(join4(path, " is not in ", u.username.as_str(), "'s home").as_str()),
                ),
            },
        }
    }
}

/// A root of a context, before its metadata is fetched.
#[derive(Debug, PartialEq, Eq)]
pub struct Root {
    pub cap: AbsoluteCapability,
    /// The name, and with it the path: the root of a link bears the name of what it links.
    pub name: Option<String>,
    /// The user's home, which anchors uploads.
    pub home: Option<AbsoluteCapability>,
}

/// The content of a [`Root`].
pub ghost struct RootView {
    pub cap: CapView,
    pub name: Option<Seq<char>>,
    pub home: Option<CapView>,
}

impl View for Root {
    type V = RootView;

    open spec fn view(&self) -> RootView {
        RootView { cap: self.cap@, name: opt(self.name), home: opt(self.home) }
    }
}

/// The contents of a list of roots.
pub open spec fn root_views(v: Seq<Root>) -> Seq<RootView> {
    Seq::new(v.len(), |i: int| v[i]@)
}

impl UserContext {
    /// The roots of this context: the entry points of a user, each named by its owner, or
    /// else what the link shares.
    pub open spec fn root_list(self) -> Seq<RootView> {
        match self.user {
            Some(u) => {
                let e = crate::login::entry_views(u.entries@);
                let home = crate::login::home_entry(e, u.username@);
                Seq::new(e.len(), |i: int| RootView { cap: e[i].0, name: Some(e[i].1), home })
            },
            None => Seq::new(
                self.link_caps@.len(),
                |i: int| RootView { cap: self.link_caps@[i]@, name: None, home: None },
            ),
        }
    }

    /// The entry-point roots of this context: the home and accepted friend roots for a full
    /// login, or the shared capability for a secret link. `.transactions` always lives under
    /// our own home, so every root carries our home as its upload anchor.
    pub fn roots(&self) -> (r: Vec<Root>)
        ensures
            root_views(r@) == self.root_list(),
    {
        let mut out: Vec<Root> = Vec::new();
        match &self.user {
            Some(u) => {
                let home = u.home();
                let ghost e = crate::login::entry_views(u.entries@);
                let ghost hv = crate::login::home_entry(e, u.username@);
                for i in 0..u.entries.len()
                    invariant
                        self.user == Some(*u),
                        e == crate::login::entry_views(u.entries@),
                        match hv {
                            Some(c) => home is Some && home->Some_0@ == c,
                            None => home is None,
                        },
                        out.len() == i,
                        forall|k: int|
                            0 <= k < i ==> (#[trigger] out[k])@ == (RootView {
                                cap: e[k].0,
                                name: Some(e[k].1),
                                home: hv,
                            }),
                {
                    let anchor = match home {
                        Some(h) => Some(h.dup()),
                        None => None,
                    };
                    out.push(
                        Root { cap: u.entries[i].pointer.dup(), name: Some(u.entries[i].owner_name.clone()), home: anchor },
                    );
                }
            },
            None => {
                for i in 0..self.link_caps.len()
                    invariant
                        out.len() == i,
                        forall|k: int|
                            0 <= k < i ==> (#[trigger] out[k])@ == (RootView {
                                cap: self.link_caps@[k]@,
                                name: None,
                                home: None,
                            }),
                {
                    out.push(Root { cap: self.link_caps[i].dup(), name: None, home: None });
                }
            },
        }
        proof {
            assert(root_views(out@) =~= self.root_list());
        }
        out
    }
}

/// What a link contains, and how that changes.
impl UserContext {
    /// The name of the signed-in user.
    pub open spec fn name(self) -> Option<Seq<char>> {
        match self.user {
            Some(u) => Some(u.username@),
            None => None,
        }
    }

    /// Plans the change of a link's membership. The label and password do not change, so the
    /// link string stays exactly as it was and anyone already holding it gets the new
    /// members.
    pub fn set_secret_link_members(&self, paths: &Vec<String>, writable_paths: &Vec<String>, props: &LinkProperties) -> (r:
        Result<MembershipChange>)
        ensures
            is_membership_change(r, self.name(), texts(paths@), texts(writable_paths@), props@.members),
    {
        plan_members(self.username(), paths, writable_paths, props)
    }

    /// Before the item at `path` is moved to its own writing space, so that a writable link
    /// to it can be granted: whether the directory that holds it and the item itself were
    /// found, and for whom it moves. Gives the BAT that the user's data is mirrored by.
    pub fn split_into_own_writing_space(
        &self,
        path: &str,
        parent: Option<&AbsoluteCapability>,
        target: Option<&AbsoluteCapability>,
    ) -> (r: Result<Option<BatId>>)
        ensures
            if parent is None {
                fails_protocol(r, "no parent directory for "@ + path@)
            } else if target is None {
                fails_protocol(r, "no file at "@ + path@)
            } else {
                match self.user {
                    None => fails_protocol(r, NOT_SIGNED_IN@),
                    Some(u) => r is Ok && opt(r->Ok_0) == match u.mirror_bat {
                        Some(b) => Some(b@.1),
                        None => None,
                    },
                }
            },
    {
        if parent.is_none() {
            return Err(protocol(join2("no parent directory for ", path).as_str()));
        }
        if target.is_none() {
            return Err(protocol(join2("no file at ", path).as_str()));
        }
        match &self.user {
            None => Err(protocol(NOT_SIGNED_IN)),
            Some(u) => Ok(u.mirror_bat_id()),
        }
    }

    /// Begins to write a link for `paths` under its existing label and password. Writable
    /// members must already be in their own writing space.
    pub fn mint_link(&self, paths: Vec<String>, writable: Vec<String>) -> (r: Result<LinkMint>)
        ensures
            match self.user {
                None => fails_protocol(r, NOT_SIGNED_IN@),
                Some(u) => {
                    &&& r is Ok
                    &&& r->Ok_0.wf()
                    &&& r->Ok_0.username@ == u.username@
                    &&& r->Ok_0.identity@ == u.identity@
                    &&& r->Ok_0.paths == paths
                    &&& r->Ok_0.writable == writable
                    &&& r->Ok_0.caps@.len() == 0
                },
            },
    {
        match &self.user {
            None => Err(protocol(NOT_SIGNED_IN)),
            Some(u) => Ok(LinkMint::start(u.username.as_str(), &u.identity, paths, writable)),
        }
    }

    /// Appends one file or folder to a link that already exists: what it is to contain, and
    /// what of it others may write.
    pub fn add_to_secret_link(&self, link: &SecretLinkSummary, path: &str, writable: bool) -> (r: Result<
        (Vec<String>, Vec<String>),
    >)
        ensures
            is_addition(r, link@, self.name(), path@, writable),
    {
        plan_addition(self.username(), link, path, writable)
    }

    /// Every secret link this user has, once each, out of what is recorded in the
    /// directories that hold shares.
    pub fn get_all_secret_links(&self, shares: &Vec<(String, Vec<(String, Vec<LinkProperties>)>)>) -> (r: Result<
        Vec<SecretLinkSummary>,
    >)
        ensures
            match self.user {
                None => fails_protocol(r, NOT_SIGNED_IN@),
                Some(u) => r is Ok && summaries(r->Ok_0@) == with_shares(u.username@, by_dir(shares@)),
            },
    {
        match &self.user {
            None => Err(protocol(NOT_SIGNED_IN)),
            Some(u) => Ok(collect_links(u.username.as_str(), shares)),
        }
    }

    /// The paths under which a link is forgotten when it is deleted.
    pub fn delete_secret_link(&self, recorded_links: &Vec<LinkProperties>, path: &str, label: i64) -> (r: Result<Vec<String>>)
        ensures
            match self.user {
                None => fails_protocol(r, NOT_SIGNED_IN@),
                Some(u) => r is Ok && texts(r->Ok_0@) == forgotten_paths(
                    u.username@,
                    recorded(recorded_links@),
                    path@,
                    label as int,
                ),
            },
    {
        match &self.user {
            None => Err(protocol(NOT_SIGNED_IN)),
            Some(u) => Ok(paths_to_forget(u.username.as_str(), recorded_links, path, label)),
        }
    }

    /// The paths under which a link is forgotten, given those of its members.
    pub fn delete_secret_link_from(&self, member_paths: &Vec<String>) -> (r: Result<Vec<String>>)
        ensures
            match self.user {
                None => fails_protocol(r, NOT_SIGNED_IN@),
                Some(u) => r is Ok && texts(r->Ok_0@) == trimmed_all(texts(member_paths@)),
            },
    {
        match &self.user {
            None => Err(protocol(NOT_SIGNED_IN)),
            Some(u) => Ok(trim_all(member_paths)),
        }
    }
}

/// What the account as a whole is asked for.
impl UserContext {
    /// The home that goes when the account is deleted.
    pub fn delete_account(&self) -> (r: Result<&AbsoluteCapability>)
        ensures
            match self.user {
                None => fails_protocol(r, NOT_SIGNED_IN@),
                Some(u) => match crate::login::home_entry(crate::login::entry_views(u.entries@), u.username@) {
                    Some(c) => r is Ok && r->Ok_0@ == c,
                    None => fails_protocol(r, "no home directory"@),
                },
            },
    {
        match &self.user {
            None => Err(protocol(NOT_SIGNED_IN)),
            Some(u) => match u.home() {
                Some(c) => Ok(c),
                None => Err(protocol("no home directory")),
            },
        }
    }

    /// The user's mirror BAT, which keeps the data of secret links private: none if the
    /// account has not registered one.
    pub fn get_mirror_bat(&self) -> (r: Result<Option<BatWithId>>)
        ensures
            match self.user {
                None => fails_protocol(r, NOT_SIGNED_IN@),
                Some(u) => r is Ok && opt(r->Ok_0) == opt(u.mirror_bat),
            },
    {
        match &self.user {
            None => Err(protocol(NOT_SIGNED_IN)),
            Some(u) => match &u.mirror_bat {
                Some(b) => Ok(Some(b.dup())),
                None => Ok(None),
            },
        }
    }

    /// The BAT that lets a server mirror the account's data.
    pub fn mirror_on_this_server(&self) -> (r: Result<BatWithId>)
        ensures
            match self.user {
                None => fails_protocol(r, NOT_SIGNED_IN@),
                Some(u) => match opt(u.mirror_bat) {
                    Some(b) => r is Ok && r->Ok_0@ == b,
                    None => fails_protocol(r, "You need a mirror bat!"@),
                },
            },
    {
        match self.get_mirror_bat() {
            Err(e) => Err(e),
            Ok(None) => Err(protocol("You need a mirror bat!")),
            Ok(Some(b)) => Ok(b),
        }
    }
}

/// What a share lets others do.
#[derive(Clone, Copy, Debug, PartialEq, Eq)]
pub enum Access {
    Read,
    Write,
}

/// A file that was shared: the directory that it is in, its name there, and the access.
#[derive(Debug, PartialEq, Eq)]
pub struct Share {
    pub dir_path: String,
    pub child: String,
    pub access: Access,
}

/// A share that is taken back from some users. The keys of the file are rotated, and it is
/// shared again with those that remain.
#[derive(Debug, PartialEq, Eq)]
pub struct Revocation {
    pub share: Share,
    pub revoked: Vec<String>,
}

/// `r` takes the share `s` back from one user.
pub open spec fn revokes(r: Revocation, s: Share, username: Seq<char>) -> bool {
    &&& r.share.dir_path@ == s.dir_path@
    &&& r.share.child@ == s.child@
    &&& r.share.access == s.access
    &&& texts(r.revoked@) == seq![username]
}

/// Those who follow the user.
impl UserContext {
    /// What is revoked when a follower is removed: everything that was ever shared with them,
    /// for reading or for writing, each share once and in turn.
    pub fn remove_follower(&self, username: &str, shares: &Vec<Share>) -> (r: Result<Vec<Revocation>>)
        ensures
            match self.user {
                None => fails_protocol(r, NOT_SIGNED_IN@),
                Some(u) => r is Ok && r->Ok_0@.len() == shares@.len() && forall|i: int|
                    0 <= i < shares@.len() ==> revokes(#[trigger] r->Ok_0@[i], shares@[i], username@),
            },
    {
        match &self.user {
            None => Err(protocol(NOT_SIGNED_IN)),
            Some(_) => {
                let mut out: Vec<Revocation> = Vec::new();
                for i in 0..shares.len()
                    invariant
                        out.len() == i,
                        forall|k: int| 0 <= k < i ==> revokes(#[trigger] out@[k], shares@[k], username@),
                {
                    let mut revoked: Vec<String> = Vec::new();
                    revoked.push(username.to_owned());
                    proof {
                        assert(texts(revoked@) =~= seq![username@]);
                    }
                    let share = Share {
                        dir_path: shares[i].dir_path.clone(),
                        child: shares[i].child.clone(),
                        access: shares[i].access,
                    };
                    out.push(Revocation { share, revoked });
                }
                Ok(out)
            },
        }
    }
}

/// The directory that a shared file is in, which has to be there for the share to be revoked.
pub fn shared_directory(dir_path: &str, found: Option<AbsoluteCapability>) -> (r: Result<AbsoluteCapability>)
    ensures
        match opt(found) {
            Some(c) => r is Ok && r->Ok_0@ == c,
            None => fails_protocol(r, "shared dir "@ + dir_path@ + " not found"@),
        },
{
    match found {
        Some(c) => Ok(c),
        None => Err(Error::Protocol(join3("shared dir ", dir_path, " not found"))),
    }
}

/// A path of the user's home is its absolute path without the account's name.
pub proof fn law_home_relative(username: Seq<char>, path: Seq<char>)
    requires
        !username.contains('/'),
        username.len() > 0,
    ensures
        relative_to_home(username, seq!['/'] + username + seq!['/'] + path) == Some(path),
{
    let p = seq!['/'] + username + seq!['/'] + path;
    let t = username + seq!['/'] + path;
    assert(p.skip(1) =~= t);
    assert(username[0] != '/') by {
        assert(username.contains(username[0]));
    }
    assert(t[0] == username[0]);
    assert(without_leading(t) == t);
    assert(without_leading(p) == t);
    assert forall|i: int| 0 <= i < username.len() implies t[i] != '/' by {
        assert(t[i] == username[i]);
        assert(username.contains(username[i]));
    }
    crate::text::lemma_first_place(t, '/', username.len() as int);
    assert(t.take(username.len() as int) =~= username);
    assert(t.skip(username.len() as int + 1) =~= path);
}

/// A deeper mount wins over one above it: of two links, one of which leads to the other,
/// the deeper one is entered for every path below it.
pub proof fn law_deeper_mount_wins(v: Seq<Seq<Seq<char>>>, i: int, j: int, query: Seq<Seq<char>>)
    requires
        0 <= i < v.len(),
        0 <= j < v.len(),
        leads(v[i], v[j]),
        v[i].len() < v[j].len(),
        leads(v[j], query),
    ensures
        deepest(v, query) is Some,
        deepest(v, query) != Some(i),
{
    law_deepest(v, query);
}

/// The order in which a path is tried for a signed-in user: into the root that its first component
/// names, then from home on, then as one that a friend has shared. The empty path is home.
pub proof fn law_lookup_of_a_user(roots: Seq<Seq<char>>, query: Seq<Seq<char>>, i: int)
    requires
        query.len() > 0,
        0 <= i < roots.len(),
        roots[i] == query[0],
        forall|j: int| 0 <= j < i ==> (#[trigger] roots[j]) != query[0],
    ensures
        lookup_plan(true, Seq::empty(), roots, query) == seq![
            AttemptView::Root { at: i, rest: query.skip(1) },
            AttemptView::Home { rest: query },
            AttemptView::Shared { path: query },
        ],
        lookup_plan(true, Seq::empty(), roots, Seq::empty()) == seq![AttemptView::Home { rest: Seq::empty() }],
        lookup_plan(false, Seq::empty(), roots, Seq::empty()) == seq![AttemptView::Root { at: 0, rest: Seq::empty() }],
{
    lemma_name_place(roots, query[0], i);
    assert(lookup_plan(true, Seq::empty(), roots, query) =~= seq![
        AttemptView::Root { at: i, rest: query.skip(1) },
        AttemptView::Home { rest: query },
        AttemptView::Shared { path: query },
    ]);
}

proof fn lemma_name_place(names: Seq<Seq<char>>, name: Seq<char>, i: int)
    requires
        0 <= i <= names.len(),
        i < names.len() ==> names[i] == name,
        forall|j: int| 0 <= j < i ==> (#[trigger] names[j]) != name,
    ensures
        name_place(names, name) == i,
    decreases names.len(),
{
    if i > 0 {
        let rest = names.skip(1);
        assert(names[0] != name);
        assert forall|j: int| 0 <= j < i - 1 implies (#[trigger] rest[j]) != name by {
            assert(rest[j] == names[j + 1]);
        }
        if i < names.len() {
            assert(rest[i - 1] == names[i]);
        }
        lemma_name_place(rest, name, i - 1);
    }
}

/// A path that names no root is tried from home, and as one that a friend has shared; in a link
/// with a single root it is tried from there, and it leads nowhere in one with several.
pub proof fn law_lookup_without_a_root(roots: Seq<Seq<char>>, query: Seq<Seq<char>>)
    requires
        query.len() > 0,
        forall|j: int| 0 <= j < roots.len() ==> (#[trigger] roots[j]) != query[0],
    ensures
        lookup_plan(true, Seq::empty(), roots, query) == seq![
            AttemptView::Home { rest: query },
            AttemptView::Shared { path: query },
        ],
        roots.len() == 1 ==> lookup_plan(false, Seq::empty(), roots, query) == seq![AttemptView::Root { at: 0, rest: query }],
        roots.len() > 1 ==> lookup_plan(false, Seq::empty(), roots, query).len() == 0,
{
    lemma_name_place(roots, query[0], roots.len() as int);
    assert(lookup_plan(true, Seq::empty(), roots, query) =~= seq![
        AttemptView::Home { rest: query },
        AttemptView::Shared { path: query },
    ]);
    assert(roots.len() == 1 ==> lookup_plan(false, Seq::empty(), roots, query) =~= seq![
        AttemptView::Root { at: 0, rest: query },
    ]);
}

/// With several links a path is followed from the deepest one above it, and from no other; what is
/// left of it is what stands behind the place of that link.
pub proof fn law_lookup_among_links(
    signed_in: bool,
    mounts: Seq<Seq<Seq<char>>>,
    roots: Seq<Seq<char>>,
    query: Seq<Seq<char>>,
)
    requires
        mounts.len() > 0,
    ensures
        lookup_plan(signed_in, mounts, roots, query).len() <= 1,
        lookup_plan(signed_in, mounts, roots, query).len() == 1 ==> (lookup_plan(signed_in, mounts, roots, query)[0] matches AttemptView::Mount {
            at,
            rest,
        } && 0 <= at < mounts.len() && query == mounts[at] + rest),
        (exists|i: int| 0 <= i < mounts.len() && leads(#[trigger] mounts[i], query)) ==> lookup_plan(
            signed_in,
            mounts,
            roots,
            query,
        ).len() == 1,
{
    law_deepest(mounts, query);
    if deepest(mounts, query) is Some {
        let i = deepest(mounts, query)->Some_0;
        assert(query =~= mounts[i] + query.skip(mounts[i].len() as int));
    }
}

/// A path is above another if that one goes on from it.
pub proof fn law_leads(p: Seq<Seq<char>>, rest: Seq<Seq<char>>)
    ensures
        leads(p, p + rest),
        rest.len() > 0 ==> !leads(p + rest, p),
{
    assert((p + rest).take(p.len() as int) =~= p);
}

/// A path of another home is not relative to this one, and the home itself is the empty path.
pub proof fn law_other_homes(username: Seq<char>, other: Seq<char>, path: Seq<char>)
    requires
        !username.contains('/') && username.len() > 0,
        !other.contains('/') && other.len() > 0,
        other != username,
    ensures
        relative_to_home(username, seq!['/'] + other + seq!['/'] + path) is None,
        relative_to_home(username, seq!['/'] + username) == Some(Seq::<char>::empty()),
{
    lemma_first_component(other, seq!['/'] + path);
    lemma_first_component(username, Seq::empty());
    assert(seq!['/'] + other + seq!['/'] + path =~= seq!['/'] + (other + (seq!['/'] + path)));
    assert(seq!['/'] + username =~= seq!['/'] + (username + Seq::<char>::empty()));
    assert(username + Seq::<char>::empty() =~= username);
}

proof fn lemma_first_component(name: Seq<char>, rest: Seq<char>)
    requires
        !name.contains('/') && name.len() > 0,
        rest.len() == 0 || rest[0] == '/',
    ensures
        without_leading(seq!['/'] + (name + rest)) == name + rest,
        first_place(name + rest, '/') == name.len(),
        (name + rest).take(name.len() as int) == name,
{
    let t = name + rest;
    assert((seq!['/'] + t).skip(1) =~= t);
    reveal_with_fuel(without_leading, 2);
    assert(name[0] != '/') by {
        assert(name.contains(name[0]));
    }
    assert(t[0] == name[0]);
    assert forall|i: int| 0 <= i < name.len() implies t[i] != '/' by {
        assert(t[i] == name[i]);
        assert(name.contains(name[i]));
    }
    crate::text::lemma_first_place(t, '/', name.len() as int);
    assert(t.take(name.len() as int) =~= name);
}

/// The roots of a user are their entry points, each under its owner's name and with the user's own
/// home to keep uploads in; those of a link have neither.
pub proof fn law_roots(c: UserContext, i: int)
    requires
        0 <= i < c.root_list().len(),
    ensures
        c.user matches Some(u) ==> c.root_list().len() == u.entries@.len() && c.root_list()[i].cap == u.entries@[i].pointer@
            && c.root_list()[i].name == Some(u.entries@[i].owner_name@) && c.root_list()[i].home == crate::login::home_entry(
            crate::login::entry_views(u.entries@),
            u.username@,
        ),
        c.user is None ==> c.root_list().len() == c.link_caps@.len() && c.root_list()[i].cap == c.link_caps@[i]@
            && c.root_list()[i].name is None && c.root_list()[i].home is None,
{
}

} // verus!
