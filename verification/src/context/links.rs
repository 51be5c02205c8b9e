//! Secret links of a user: what is in them, and how that changes.
use vstd::prelude::*;
use crate::capability::{cap_cbor, cap_from, is_readable_cap, law_cap_round_trip, AbsoluteCapability, CapView};
use crate::cbor::{items, CborObject, CborValue};
use crate::context::{home_path_of, relative_to_home};
use crate::error::{error_is, fails_protocol, opt, protocol, Fault, Result};
use crate::files::retrieve::cap_views;
use crate::files::upload::{join_path, path_in, trim_slashes, trimmed};
use crate::incoming::dup_texts;
use crate::opaque::{Formats, Opaque};
use crate::paths::{has_prefix, is_listed, starts_with, texts};
use crate::text::{chars_of, copy_bytes, decimal, decimal_text, join2, join3, join4, text_of};

verus! {

broadcast use crate::cbor::group_cbor;

/// A link can hold this many items; the real limit is that the serialised link fits in
/// one block.
pub const MAX_LINK_MEMBERS: usize = 100;

/// An item of a secret link: its absolute path, and whether the link lets others write it.
#[derive(Debug, PartialEq, Eq)]
pub struct LinkMember {
    pub path: String,
    pub writable: bool,
}

impl View for LinkMember {
    type V = (Seq<char>, bool);

    open spec fn view(&self) -> (Seq<char>, bool) {
        (self.path@, self.writable)
    }
}

/// The contents of a list of members.
pub open spec fn members_of(v: Seq<LinkMember>) -> Seq<(Seq<char>, bool)> {
    Seq::new(v.len(), |i: int| v[i]@)
}

/// What the owner of a secret link records about it.
#[derive(Debug, PartialEq, Eq)]
pub struct LinkProperties {
    pub label: i64,
    pub link_password: String,
    pub user_password: String,
    /// Whether a link that predates member lists is writable.
    pub writable: bool,
    pub max_retrievals: Option<i64>,
    pub expiry_epoch_secs: Option<i64>,
    pub members: Vec<LinkMember>,
    /// Where what is stored behind the link's label stands, once it was written.
    pub existing: Option<Vec<u8>>,
}

/// The content of [`LinkProperties`].
pub ghost struct PropsView {
    pub label: int,
    pub link_password: Seq<char>,
    pub user_password: Seq<char>,
    pub writable: bool,
    pub max_retrievals: Option<i64>,
    pub expiry_epoch_secs: Option<i64>,
    pub members: Seq<(Seq<char>, bool)>,
    pub existing: Option<Seq<u8>>,
}

impl View for LinkProperties {
    type V = PropsView;

    open spec fn view(&self) -> PropsView {
        PropsView {
            label: self.label as int,
            link_password: self.link_password@,
            user_password: self.user_password@,
            writable: self.writable,
            max_retrievals: self.max_retrievals,
            expiry_epoch_secs: self.expiry_epoch_secs,
            members: members_of(self.members@),
            existing: opt(self.existing),
        }
    }
}

impl LinkProperties {
    /// A copy of these properties.
    pub fn dup(&self) -> (r: LinkProperties)
        ensures
            r@ == self@,
    {
        let mut members: Vec<LinkMember> = Vec::new();
        for i in 0..self.members.len()
            invariant
                members.len() == i,
                forall|k: int| 0 <= k < i ==> (#[trigger] members[k])@ == self.members[k]@,
        {
            members.push(LinkMember { path: self.members[i].path.clone(), writable: self.members[i].writable });
        }
        proof {
            assert(members_of(members@) =~= members_of(self.members@));
        }
        LinkProperties {
            label: self.label,
            link_password: self.link_password.clone(),
            user_password: self.user_password.clone(),
            writable: self.writable,
            max_retrievals: self.max_retrievals,
            expiry_epoch_secs: self.expiry_epoch_secs,
            members,
            existing: match &self.existing {
                Some(b) => Some(copy_bytes(b)),
                None => None,
            },
        }
    }

    /// These properties with other members.
    pub fn with_members(self, members: Vec<LinkMember>) -> (r: LinkProperties)
        ensures
            r@ == (PropsView { members: members_of(members@), ..self@ }),
    {
        LinkProperties {
            label: self.label,
            link_password: self.link_password,
            user_password: self.user_password,
            writable: self.writable,
            max_retrievals: self.max_retrievals,
            expiry_epoch_secs: self.expiry_epoch_secs,
            members,
            existing: self.existing,
        }
    }

    /// These properties after the link was written: with the members that it has now, and
    /// where its new target stands.
    pub fn minted(self, members: Vec<LinkMember>, target: Vec<u8>) -> (r: LinkProperties)
        ensures
            r@ == (PropsView { members: members_of(members@), existing: Some(target@), ..self@ }),
    {
        let mut r = self.with_members(members);
        r.existing = Some(target);
        r
    }

    /// The password that a user has locked the link with, if any.
    pub fn lock(&self) -> (r: Option<&str>)
        ensures
            match r {
                Some(p) => p@ == self@.user_password && self@.user_password.len() > 0,
                None => self@.user_password.len() == 0,
            },
    {
        if self.user_password.as_str().is_empty() {
            None
        } else {
            Some(self.user_password.as_str())
        }
    }
}

/// One of the owner's secret links, deduplicated across the paths it is recorded under.
#[derive(Debug, PartialEq, Eq)]
pub struct SecretLinkSummary {
    pub props: LinkProperties,
    /// A home-relative path this link was recorded under, used when the link predates
    /// member lists.
    pub recorded_under: String,
    pub username: String,
}

/// The content of a [`SecretLinkSummary`].
pub ghost struct SummaryView {
    pub props: PropsView,
    pub recorded_under: Seq<char>,
    pub username: Seq<char>,
}

impl View for SecretLinkSummary {
    type V = SummaryView;

    open spec fn view(&self) -> SummaryView {
        SummaryView { props: self.props@, recorded_under: self.recorded_under@, username: self.username@ }
    }
}

/// A path without the name of the user's home, if it is in there.
pub open spec fn without_home(username: Seq<char>, path: Seq<char>) -> Seq<char> {
    let prefix = "/"@ + username + "/"@;
    if has_prefix(path, prefix) {
        path.skip(prefix.len() as int)
    } else {
        path
    }
}

/// What is in a link, home-relative.
pub open spec fn link_paths(s: SummaryView) -> Seq<Seq<char>> {
    if s.props.members.len() == 0 {
        seq![s.recorded_under]
    } else {
        Seq::new(s.props.members.len(), |i: int| without_home(s.username, s.props.members[i].0))
    }
}

fn strip_home(username: &str, path: &str) -> (r: String)
    ensures
        r@ == without_home(username@, path@),
{
    let prefix = join3("/", username, "/");
    if starts_with(path, prefix.as_str()) {
        let chars = chars_of(path);
        let n = chars_of(prefix.as_str()).len();
        let rest = crate::paths::slice_chars(&chars, n, chars.len());
        proof {
            assert(rest@ =~= path@.skip(n as int));
        }
        text_of(rest)
    } else {
        path.to_owned()
    }
}

impl SecretLinkSummary {
    pub fn new(props: LinkProperties, recorded_under: String, username: &str) -> (r: SecretLinkSummary)
        ensures
            r@ == (SummaryView { props: props@, recorded_under: recorded_under@, username: username@ }),
    {
        SecretLinkSummary { props, recorded_under, username: username.to_owned() }
    }

    /// What is in the link, home-relative: its members, or the one path it was recorded
    /// under if it has none.
    pub fn paths(&self) -> (r: Vec<String>)
        ensures
            texts(r@) == link_paths(self@),
    {
        let mut out: Vec<String> = Vec::new();
        if self.props.members.len() == 0 {
            out.push(self.recorded_under.clone());
        } else {
            for i in 0..self.props.members.len()
                invariant
                    out.len() == i,
                    forall|k: int|
                        0 <= k < i ==> (#[trigger] out[k])@ == without_home(
                            self.username@,
                            self.props.members[k].path@,
                        ),
            {
                out.push(strip_home(self.username.as_str(), self.props.members[i].path.as_str()));
            }
        }
        proof {
            assert(texts(out@) =~= link_paths(self@));
        }
        out
    }

    pub fn item_count(&self) -> (r: usize)
        ensures
            r == link_paths(self@).len(),
    {
        if self.props.members.len() == 0 {
            1
        } else {
            self.props.members.len()
        }
    }

    /// Whether this link already contains the home-relative `path`.
    pub fn contains(&self, path: &str) -> (r: bool)
        ensures
            r == link_paths(self@).contains(trimmed(path@)),
    {
        is_listed(&self.paths(), trim_slashes(path).as_str())
    }
}

/// The paths without slashes at either end.
pub open spec fn trimmed_all(v: Seq<Seq<char>>) -> Seq<Seq<char>> {
    Seq::new(v.len(), |i: int| trimmed(v[i]))
}

pub fn trim_all(v: &Vec<String>) -> (r: Vec<String>)
    ensures
        texts(r@) == trimmed_all(texts(v@)),
{
    let mut out: Vec<String> = Vec::new();
    for i in 0..v.len()
        invariant
            out.len() == i,
            forall|k: int| 0 <= k < i ==> (#[trigger] out[k])@ == trimmed(v[k]@),
    {
        out.push(trim_slashes(v[i].as_str()));
    }
    proof {
        assert(texts(out@) =~= trimmed_all(texts(v@)));
    }
    out
}

/// Those of `v` that are among `others`, or, if `inside` is false, those that are not.
pub open spec fn picked(v: Seq<Seq<char>>, others: Seq<Seq<char>>, inside: bool) -> Seq<Seq<char>>
    decreases v.len(),
{
    if v.len() == 0 {
        Seq::empty()
    } else if others.contains(v.last()) == inside {
        picked(v.drop_last(), others, inside).push(v.last())
    } else {
        picked(v.drop_last(), others, inside)
    }
}

fn pick(v: &Vec<String>, others: &Vec<String>, inside: bool) -> (r: Vec<String>)
    ensures
        texts(r@) == picked(texts(v@), texts(others@), inside),
{
    let ghost all = texts(v@);
    let mut out: Vec<String> = Vec::new();
    proof {
        assert(texts(out@) =~= picked(all.take(0), texts(others@), inside));
    }
    for i in 0..v.len()
        invariant
            all == texts(v@),
            texts(out@) == picked(all.take(i as int), texts(others@), inside),
    {
        let ghost before = texts(out@);
        proof {
            assert(all.take(i as int + 1).drop_last() =~= all.take(i as int));
            assert(all.take(i as int + 1).last() == v[i as int]@);
        }
        if is_listed(others, v[i].as_str()) == inside {
            out.push(v[i].clone());
            proof {
                assert(texts(out@) =~= before.push(v[i as int]@));
            }
        }
    }
    proof {
        assert(all.take(all.len() as int) =~= all);
    }
    out
}

/// The members that are in the user's home, relative to it; with `writable_only`, only
/// those that others may write.
pub open spec fn home_members(username: Seq<char>, v: Seq<(Seq<char>, bool)>, writable_only: bool) -> Seq<Seq<char>>
    decreases v.len(),
{
    if v.len() == 0 {
        Seq::empty()
    } else {
        let init = home_members(username, v.drop_last(), writable_only);
        if writable_only && !v.last().1 {
            init
        } else {
            match relative_to_home(username, v.last().0) {
                Some(p) => init.push(p),
                None => init,
            }
        }
    }
}

fn members_at_home(username: &str, v: &Vec<LinkMember>, writable_only: bool) -> (r: Vec<String>)
    ensures
        texts(r@) == home_members(username@, members_of(v@), writable_only),
{
    let ghost all = members_of(v@);
    let mut out: Vec<String> = Vec::new();
    proof {
        assert(texts(out@) =~= home_members(username@, all.take(0), writable_only));
    }
    for i in 0..v.len()
        invariant
            all == members_of(v@),
            texts(out@) == home_members(username@, all.take(i as int), writable_only),
    {
        let ghost before = texts(out@);
        proof {
            assert(all.take(i as int + 1).drop_last() =~= all.take(i as int));
            assert(all.take(i as int + 1).last() == v[i as int]@);
        }
        if !writable_only || v[i].writable {
            match home_path_of(username, v[i].path.as_str()) {
                Some(p) => {
                    let ghost pv = p@;
                    out.push(p);
                    proof {
                        assert(texts(out@) =~= before.push(pv));
                    }
                },
                None => {},
            }
        }
    }
    proof {
        assert(all.take(all.len() as int) =~= all);
    }
    out
}

/// A change of what a link contains.
#[derive(Debug, PartialEq, Eq)]
pub struct MembershipChange {
    /// What it contains afterwards, home-relative, in the order it is listed in.
    pub paths: Vec<String>,
    /// What others may write.
    pub writable: Vec<String>,
    /// What must first be in its own writing space.
    pub to_split: Vec<String>,
    /// What it contained before and no longer does: the link is forgotten there.
    pub gone: Vec<String>,
}

/// The message for too many items.
pub open spec fn too_many(n: nat) -> Seq<char> {
    "A secret link can hold at most "@ + decimal(MAX_LINK_MEMBERS as nat) + " items, not "@ + decimal(n)
        + ". Share a folder instead."@
}

/// The home-relative paths of a link's members: nobody's, without a signed-in user.
pub open spec fn members_for(username: Option<Seq<char>>, v: Seq<(Seq<char>, bool)>, writable_only: bool) -> Seq<Seq<char>> {
    match username {
        Some(u) => home_members(u, v, writable_only),
        None => Seq::empty(),
    }
}

/// `r` is the plan of a change of a link with these members to these paths.
pub open spec fn is_membership_change(
    r: Result<MembershipChange>,
    username: Option<Seq<char>>,
    paths: Seq<Seq<char>>,
    writable_paths: Seq<Seq<char>>,
    members: Seq<(Seq<char>, bool)>,
) -> bool {
    if paths.len() == 0 {
        fails_protocol(r, "A secret link must contain at least one item!"@)
    } else if paths.len() > MAX_LINK_MEMBERS {
        fails_protocol(r, too_many(paths.len()))
    } else {
        let p = trimmed_all(paths);
        let w = trimmed_all(writable_paths);
        &&& r is Ok
        &&& texts(r->Ok_0.paths@) == p
        &&& texts(r->Ok_0.writable@) == w
        &&& texts(r->Ok_0.to_split@) == picked(p, w, true)
        &&& texts(r->Ok_0.gone@) == picked(members_for(username, members, false), p, false)
    }
}

/// Checks how many items a link is to contain.
pub fn check_item_count(n: usize) -> (r: Result<()>)
    ensures
        n == 0 ==> fails_protocol(r, "A secret link must contain at least one item!"@),
        n > MAX_LINK_MEMBERS ==> fails_protocol(r, too_many(n as nat)),
        0 < n <= MAX_LINK_MEMBERS ==> r is Ok,
{
    if n == 0 {
        return Err(protocol("A secret link must contain at least one item!"));
    }
    if n > MAX_LINK_MEMBERS {
        let most = decimal_text(MAX_LINK_MEMBERS as u64);
        let a = join4("A secret link can hold at most ", most.as_str(), " items, not ", decimal_text(n as u64).as_str());
        return Err(protocol(join2(a.as_str(), ". Share a folder instead.").as_str()));
    }
    Ok(())
}

/// Plans the change of a link's membership. A writable member must first be in its own
/// writing space, which rewrites keys and can fail, so that all happens before the link is
/// touched: a failure part way through leaves the link as it was. That there is a signed-in
/// user is asked only then, once the items to split were found.
pub fn plan_members(
    username: Option<&str>,
    paths: &Vec<String>,
    writable_paths: &Vec<String>,
    props: &LinkProperties,
) -> (r: Result<MembershipChange>)
    ensures
        is_membership_change(r, name_view(username), texts(paths@), texts(writable_paths@), props@.members),
{
    match check_item_count(paths.len()) {
        Err(e) => {
            return Err(e);
        },
        Ok(()) => {},
    }
    let p = trim_all(paths);
    let w = trim_all(writable_paths);
    let to_split = pick(&p, &w, true);
    let before = match username {
        Some(u) => members_at_home(u, &props.members, false),
        None => Vec::new(),
    };
    proof {
        if username is None {
            assert(texts(before@) =~= Seq::empty());
        }
    }
    let gone = pick(&before, &p, false);
    Ok(MembershipChange { paths: p, writable: w, to_split, gone })
}

/// A path is picked if and only if it is there and among the others, or not.
pub proof fn lemma_picked(v: Seq<Seq<char>>, others: Seq<Seq<char>>, inside: bool, x: Seq<char>)
    ensures
        picked(v, others, inside).contains(x) <==> (v.contains(x) && others.contains(x) == inside),
    decreases v.len(),
{
    let p = picked(v, others, inside);
    if v.len() > 0 {
        let init = v.drop_last();
        let q = picked(init, others, inside);
        lemma_picked(init, others, inside, x);
        if v.contains(x) && !init.contains(x) {
            let k = choose|k: int| 0 <= k < v.len() && v[k] == x;
            if k < v.len() - 1 {
                assert(init[k] == x);
            }
            assert(v.last() == x);
        }
        if init.contains(x) {
            let k = choose|k: int| 0 <= k < init.len() && init[k] == x;
            assert(v[k] == x);
        }
        assert(v.contains(v.last())) by {
            assert(v[v.len() - 1] == v.last());
        }
        if others.contains(v.last()) == inside {
            assert(p == q.push(v.last()));
            assert(p.last() == v.last());
            assert(p.contains(v.last())) by {
                assert(p[p.len() - 1] == v.last());
            }
            if q.contains(x) {
                let k = choose|k: int| 0 <= k < q.len() && q[k] == x;
                assert(p[k] == x);
            }
            if p.contains(x) && x != v.last() {
                let k = choose|k: int| 0 <= k < p.len() && p[k] == x;
                assert(q[k] == x);
            }
        }
    }
}

/// After a change of a link's members, the owner's listing shows it under the items that it
/// still holds: it is forgotten under a path if and only if it was recorded for it and
/// holds it no longer.
pub proof fn law_link_is_forgotten(before: Seq<Seq<char>>, paths: Seq<Seq<char>>, path: Seq<char>)
    ensures
        picked(before, paths, false).contains(path) <==> (before.contains(path) && !paths.contains(path)),
{
    lemma_picked(before, paths, false, path);
}

/// What a link contains with one more item: its paths, and those that others may write.
pub open spec fn with_item(s: SummaryView, username: Option<Seq<char>>, path: Seq<char>, writable: bool) -> (
    Seq<Seq<char>>,
    Seq<Seq<char>>,
) {
    let w = if s.props.members.len() == 0 {
        if s.props.writable {
            link_paths(s)
        } else {
            Seq::empty()
        }
    } else {
        members_for(username, s.props.members, true)
    };
    (link_paths(s).push(path), if writable { w.push(path) } else { w })
}

/// A name that may be missing.
pub open spec fn name_view(name: Option<&str>) -> Option<Seq<char>> {
    match name {
        Some(n) => Some(n@),
        None => None,
    }
}

/// `r` is what a link is to contain with one more item.
pub open spec fn is_addition(
    r: Result<(Vec<String>, Vec<String>)>,
    link: SummaryView,
    username: Option<Seq<char>>,
    path: Seq<char>,
    writable: bool,
) -> bool {
    let p = trimmed(path);
    if p.len() == 0 {
        fails_protocol(r, "No file given to add to this link."@)
    } else if link_paths(link).contains(p) {
        fails_protocol(r, p + " is already in this link."@)
    } else {
        r is Ok && (texts(r->Ok_0.0@), texts(r->Ok_0.1@)) == with_item(link, username, p, writable)
    }
}

/// Appends one file or folder to a link that already exists: what it is to contain, and
/// what of it others may write. The link string does not change.
pub fn plan_addition(username: Option<&str>, link: &SecretLinkSummary, path: &str, writable: bool) -> (r: Result<
    (Vec<String>, Vec<String>),
>)
    ensures
        is_addition(r, link@, name_view(username), path@, writable),
{
    let p = trim_slashes(path);
    if p.as_str().is_empty() {
        return Err(protocol("No file given to add to this link."));
    }
    let mut paths = link.paths();
    if is_listed(&paths, p.as_str()) {
        return Err(protocol(join2(p.as_str(), " is already in this link.").as_str()));
    }
    let ghost pv = link_paths(link@);
    let mut writable_paths: Vec<String> = if link.props.members.len() == 0 {
        if link.props.writable {
            dup_texts(&paths)
        } else {
            Vec::new()
        }
    } else {
        match username {
            Some(u) => members_at_home(u, &link.props.members, true),
            None => Vec::new(),
        }
    };
    proof {
        if writable_paths@.len() == 0 {
            assert(texts(writable_paths@) =~= Seq::empty());
        }
    }
    let ghost wv = texts(writable_paths@);
    paths.push(p.clone());
    proof {
        assert(texts(paths@) =~= pv.push(p@));
    }
    if writable {
        writable_paths.push(p);
        proof {
            assert(texts(writable_paths@) =~= wv.push(p@));
        }
    }
    Ok((paths, writable_paths))
}

/// The contents of a list of links.
pub open spec fn summaries(v: Seq<SecretLinkSummary>) -> Seq<SummaryView> {
    Seq::new(v.len(), |i: int| v[i]@)
}

/// The links with one more record: a link that is listed already stays as it is, unless
/// this record knows its members and the other did not.
pub open spec fn with_record(v: Seq<SummaryView>, s: SummaryView) -> Seq<SummaryView>
    decreases v.len(),
{
    if v.len() == 0 {
        seq![s]
    } else if v[0].props.label == s.props.label {
        if v[0].props.members.len() == 0 && s.props.members.len() > 0 {
            seq![s] + v.skip(1)
        } else {
            v
        }
    } else {
        seq![v[0]] + with_record(v.skip(1), s)
    }
}

/// Adds a record of a link to the list of links.
pub fn add_record(v: &mut Vec<SecretLinkSummary>, record: SecretLinkSummary)
    ensures
        summaries(final(v)@) == with_record(summaries(old(v)@), record@),
{
    let ghost start = summaries(v@);
    let ghost rv = record@;
    let mut i: usize = 0;
    proof {
        assert(start.skip(0) =~= start);
        assert(start.take(0) + with_record(start.skip(0), rv) =~= with_record(start, rv));
    }
    while i < v.len()
        invariant
            i <= v.len(),
            summaries(v@) == start,
            start == summaries(old(v)@),
            rv == record@,
            start.take(i as int) + with_record(start.skip(i as int), rv) == with_record(start, rv),
        decreases v.len() - i,
    {
        let ghost rest = start.skip(i as int);
        proof {
            assert(rest[0] == v[i as int]@);
            assert(start.take(i as int) + rest =~= start);
        }
        if v[i].props.label == record.props.label {
            if v[i].props.members.len() == 0 && record.props.members.len() > 0 {
                v.set(i, record);
                proof {
                    assert(summaries(v@) =~= start.take(i as int) + (seq![rv] + rest.skip(1)));
                }
            }
            return;
        }
        proof {
            assert(rest.skip(1) =~= start.skip(i as int + 1));
            assert(start.take(i as int) + (seq![rest[0]] + with_record(rest.skip(1), rv)) =~= start.take(i as int + 1)
                + with_record(rest.skip(1), rv));
        }
        i = i + 1;
    }
    v.push(record);
    proof {
        assert(start.skip(i as int) =~= Seq::empty());
        assert(summaries(v@) =~= start.take(i as int) + seq![rv]);
    }
}

/// The links with the records of one path.
pub open spec fn with_links(v: Seq<SummaryView>, username: Seq<char>, path: Seq<char>, links: Seq<PropsView>) -> Seq<
    SummaryView,
>
    decreases links.len(),
{
    if links.len() == 0 {
        v
    } else {
        with_record(
            with_links(v, username, path, links.drop_last()),
            SummaryView { props: links.last(), recorded_under: path, username },
        )
    }
}

/// The links with the records of one directory: by name, what is recorded for each child.
pub open spec fn with_names(
    v: Seq<SummaryView>,
    username: Seq<char>,
    dir: Seq<char>,
    names: Seq<(Seq<char>, Seq<PropsView>)>,
) -> Seq<SummaryView>
    decreases names.len(),
{
    if names.len() == 0 {
        v
    } else {
        with_links(
            with_names(v, username, dir, names.drop_last()),
            username,
            path_in(dir, names.last().0),
            names.last().1,
        )
    }
}

/// The links that are recorded in these directories.
pub open spec fn with_shares(username: Seq<char>, shares: Seq<(Seq<char>, Seq<(Seq<char>, Seq<PropsView>)>)>) -> Seq<
    SummaryView,
>
    decreases shares.len(),
{
    if shares.len() == 0 {
        Seq::empty()
    } else {
        with_names(with_shares(username, shares.drop_last()), username, shares.last().0, shares.last().1)
    }
}

/// What is recorded for each child of a directory.
pub open spec fn by_name(v: Seq<(String, Vec<LinkProperties>)>) -> Seq<(Seq<char>, Seq<PropsView>)> {
    Seq::new(v.len(), |i: int| (v[i].0@, recorded(v[i].1@)))
}

/// What is recorded in each directory.
pub open spec fn by_dir(v: Seq<(String, Vec<(String, Vec<LinkProperties>)>)>) -> Seq<
    (Seq<char>, Seq<(Seq<char>, Seq<PropsView>)>),
> {
    Seq::new(v.len(), |i: int| (v[i].0@, by_name(v[i].1@)))
}

fn add_links(v: &mut Vec<SecretLinkSummary>, username: &str, path: &str, links: &Vec<LinkProperties>)
    ensures
        summaries(final(v)@) == with_links(summaries(old(v)@), username@, path@, recorded(links@)),
{
    let ghost start = summaries(v@);
    let ghost all = recorded(links@);
    proof {
        assert(all.take(0) =~= Seq::empty());
    }
    for i in 0..links.len()
        invariant
            all == recorded(links@),
            summaries(v@) == with_links(start, username@, path@, all.take(i as int)),
    {
        proof {
            assert(all.take(i as int + 1).drop_last() =~= all.take(i as int));
            assert(all.take(i as int + 1).last() == links[i as int]@);
        }
        add_record(v, SecretLinkSummary::new(links[i].dup(), path.to_owned(), username));
    }
    proof {
        assert(all.take(all.len() as int) =~= all);
    }
}

fn add_names(v: &mut Vec<SecretLinkSummary>, username: &str, dir: &str, names: &Vec<(String, Vec<LinkProperties>)>)
    ensures
        summaries(final(v)@) == with_names(summaries(old(v)@), username@, dir@, by_name(names@)),
{
    let ghost start = summaries(v@);
    let ghost all = by_name(names@);
    proof {
        assert(all.take(0) =~= Seq::empty());
    }
    for i in 0..names.len()
        invariant
            all == by_name(names@),
            summaries(v@) == with_names(start, username@, dir@, all.take(i as int)),
    {
        proof {
            assert(all.take(i as int + 1).drop_last() =~= all.take(i as int));
            assert(all.take(i as int + 1).last() == (names[i as int].0@, recorded(names[i as int].1@)));
        }
        let path = join_path(dir, names[i].0.as_str());
        add_links(v, username, path.as_str(), &names[i].1);
    }
    proof {
        assert(all.take(all.len() as int) =~= all);
    }
}

/// Every secret link that is recorded in these directories, once each. A link is recorded
/// under each path it contains; records are deduplicated by label, keeping whichever knows
/// its members.
pub fn collect_links(username: &str, shares: &Vec<(String, Vec<(String, Vec<LinkProperties>)>)>) -> (r: Vec<
    SecretLinkSummary,
>)
    ensures
        summaries(r@) == with_shares(username@, by_dir(shares@)),
{
    let ghost all = by_dir(shares@);
    let mut v: Vec<SecretLinkSummary> = Vec::new();
    proof {
        assert(all.take(0) =~= Seq::empty());
        assert(summaries(v@) =~= Seq::empty());
    }
    for i in 0..shares.len()
        invariant
            all == by_dir(shares@),
            summaries(v@) == with_shares(username@, all.take(i as int)),
    {
        proof {
            assert(all.take(i as int + 1).drop_last() =~= all.take(i as int));
            assert(all.take(i as int + 1).last() == (shares[i as int].0@, by_name(shares[i as int].1@)));
        }
        add_names(&mut v, username, shares[i].0.as_str(), &shares[i].1);
    }
    proof {
        assert(all.take(all.len() as int) =~= all);
    }
    v
}

/// Every link is listed once.
pub open spec fn listed_once(v: Seq<SummaryView>) -> bool {
    forall|i: int, j: int| 0 <= i < j < v.len() ==> (#[trigger] v[i]).props.label != (#[trigger] v[j]).props.label
}

/// Each link stays listed once when a record is added, a link stays listed, and the link of
/// the record is listed with its members if that is known.
pub proof fn law_links_are_listed_once(v: Seq<SummaryView>, s: SummaryView)
    requires
        listed_once(v),
    ensures
        listed_once(with_record(v, s)),
        with_record(v, s).len() >= v.len(),
        forall|i: int| 0 <= i < v.len() ==> (#[trigger] with_record(v, s)[i]).props.label == v[i].props.label,
        forall|i: int|
            0 <= i < v.len() && (v[i].props.label != s.props.label || v[i].props.members.len() > 0)
                ==> #[trigger] with_record(v, s)[i] == v[i],
        exists|k: int|
            0 <= k < with_record(v, s).len() && (#[trigger] with_record(v, s)[k]).props.label == s.props.label && (
            s.props.members.len() > 0 ==> with_record(v, s)[k].props.members.len() > 0),
        with_record(v, s).len() > v.len() ==> with_record(v, s).len() == v.len() + 1 && with_record(v, s).last() == s,
    decreases v.len(),
{
    let w = with_record(v, s);
    if v.len() == 0 {
        assert(w[0] == s);
    } else if v[0].props.label == s.props.label {
        if v[0].props.members.len() == 0 && s.props.members.len() > 0 {
            assert forall|i: int| 0 < i < v.len() implies w[i] == v[i] by {}
        }
        assert(w[0].props.label == s.props.label);
    } else {
        let rest = v.skip(1);
        assert(listed_once(rest)) by {
            assert forall|i: int, j: int| 0 <= i < j < rest.len() implies (#[trigger] rest[i]).props.label != (
            #[trigger] rest[j]).props.label by {
                assert(rest[i] == v[i + 1] && rest[j] == v[j + 1]);
            }
        }
        law_links_are_listed_once(rest, s);
        let x = with_record(rest, s);
        assert forall|i: int| 0 < i < w.len() implies w[i] == x[i - 1] by {}
        assert forall|i: int| 0 < i < v.len() implies (#[trigger] w[i]).props.label == v[i].props.label by {
            assert(x[i - 1].props.label == rest[i - 1].props.label);
        }
        assert forall|i: int|
            0 <= i < v.len() && (v[i].props.label != s.props.label || v[i].props.members.len() > 0) implies
            #[trigger] w[i] == v[i] by {
            if i > 0 {
                assert(rest[i - 1] == v[i]);
                assert(x[i - 1] == rest[i - 1]);
            }
        }
        assert forall|i: int, j: int| 0 <= i < j < w.len() implies (#[trigger] w[i]).props.label != (
        #[trigger] w[j]).props.label by {
            assert(w[j] == x[j - 1]);
            if i > 0 {
                assert(w[i] == x[i - 1]);
            } else if j - 1 < rest.len() {
                assert(x[j - 1].props.label == rest[j - 1].props.label);
                assert(rest[j - 1] == v[j]);
            } else {
                assert(x.last() == s);
            }
        }
        let k = choose|k: int|
            0 <= k < x.len() && (#[trigger] x[k]).props.label == s.props.label && (s.props.members.len() > 0
                ==> x[k].props.members.len() > 0);
        assert(w[k + 1] == x[k]);
        if w.len() > v.len() {
            assert(w.last() == x.last());
        }
    }
}

proof fn lemma_with_links(v: Seq<SummaryView>, username: Seq<char>, path: Seq<char>, links: Seq<PropsView>)
    requires
        listed_once(v),
    ensures
        listed_once(with_links(v, username, path, links)),
    decreases links.len(),
{
    if links.len() > 0 {
        lemma_with_links(v, username, path, links.drop_last());
        law_links_are_listed_once(
            with_links(v, username, path, links.drop_last()),
            SummaryView { props: links.last(), recorded_under: path, username },
        );
    }
}

proof fn lemma_with_names(
    v: Seq<SummaryView>,
    username: Seq<char>,
    dir: Seq<char>,
    names: Seq<(Seq<char>, Seq<PropsView>)>,
)
    requires
        listed_once(v),
    ensures
        listed_once(with_names(v, username, dir, names)),
    decreases names.len(),
{
    if names.len() > 0 {
        lemma_with_names(v, username, dir, names.drop_last());
        lemma_with_links(
            with_names(v, username, dir, names.drop_last()),
            username,
            path_in(dir, names.last().0),
            names.last().1,
        );
    }
}

/// Every secret link of a user is listed once, however many paths it is recorded under.
pub proof fn law_all_links_are_listed_once(
    username: Seq<char>,
    shares: Seq<(Seq<char>, Seq<(Seq<char>, Seq<PropsView>)>)>,
)
    ensures
        listed_once(with_shares(username, shares)),
    decreases shares.len(),
{
    if shares.len() > 0 {
        law_all_links_are_listed_once(username, shares.drop_last());
        lemma_with_names(
            with_shares(username, shares.drop_last()),
            username,
            shares.last().0,
            shares.last().1,
        );
    }
}

/// The message for a file of someone else.
pub open spec fn not_yours(path: Seq<char>) -> Seq<char> {
    "A secret link can only contain your own files. "@ + path
        + " belongs to someone else - ask them for a link to it."@
}

/// One item of a link that is written: the capability to put into it, and what is recorded.
/// A link carries one owner, and expiry, retrieval limits and revocation are all enforced
/// against that owner's record.
pub fn link_item(
    username: &str,
    identity: &Opaque,
    path: &str,
    file: Option<&AbsoluteCapability>,
    writable: bool,
) -> (r: Result<(AbsoluteCapability, LinkMember)>)
    ensures
        match file {
            None => fails_protocol(r, "Couldn't retrieve "@ + path@),
            Some(f) => if writable && !f@.is_writable() {
                fails_protocol(r, path@ + " is not writable"@)
            } else if f@.owner != identity@ {
                fails_protocol(r, not_yours(path@))
            } else {
                &&& r is Ok
                &&& r->Ok_0.0@ == if writable { f@ } else { f@.read_only() }
                &&& r->Ok_0.1@ == ("/"@ + username@ + "/"@ + path@, writable)
            },
        },
{
    match file {
        None => Err(protocol(join2("Couldn't retrieve ", path).as_str())),
        Some(f) => {
            if writable && !f.is_writable() {
                return Err(protocol(join2(path, " is not writable").as_str()));
            }
            if !f.owner.same(identity) {
                return Err(
                    protocol(
                        join3(
                            "A secret link can only contain your own files. ",
                            path,
                            " belongs to someone else - ask them for a link to it.",
                        ).as_str(),
                    ),
                );
            }
            let cap = if writable { f.dup() } else { f.read_only() };
            Ok((cap, LinkMember { path: join4("/", username, "/", path), writable }))
        },
    }
}

/// The item that a link is written with for a path.
pub open spec fn item_member(username: Seq<char>, path: Seq<char>, writable: Seq<Seq<char>>) -> (Seq<char>, bool) {
    ("/"@ + username + "/"@ + path, writable.contains(path))
}

/// A link that is being written, item after item.
#[derive(Debug, PartialEq, Eq)]
pub struct LinkMint {
    pub username: String,
    pub identity: Opaque,
    /// What it is to contain, home-relative, and what of it others may write.
    pub paths: Vec<String>,
    pub writable: Vec<String>,
    /// The capabilities so far, and what is recorded for them.
    pub caps: Vec<AbsoluteCapability>,
    pub members: Vec<LinkMember>,
}

impl LinkMint {
    /// What was taken in so far are the first items, all of them the user's own, and each is
    /// writable if and only if it is listed as such.
    pub open spec fn wf(self) -> bool {
        &&& self.caps@.len() == self.members@.len()
        &&& self.caps@.len() <= self.paths@.len()
        &&& forall|i: int|
            0 <= i < self.caps@.len() ==> {
                &&& (#[trigger] self.members@[i])@ == item_member(
                    self.username@,
                    self.paths@[i]@,
                    texts(self.writable@),
                )
                &&& self.caps@[i]@.owner == self.identity@
                &&& self.caps@[i]@.is_writable() == texts(self.writable@).contains(self.paths@[i]@)
            }
    }

    pub fn start(username: &str, identity: &Opaque, paths: Vec<String>, writable: Vec<String>) -> (r: LinkMint)
        ensures
            r.wf(),
            r.username@ == username@,
            r.identity@ == identity@,
            r.paths == paths,
            r.writable == writable,
            r.caps@.len() == 0,
    {
        LinkMint {
            username: username.to_owned(),
            identity: identity.dup(),
            paths,
            writable,
            caps: Vec::new(),
            members: Vec::new(),
        }
    }

    /// The path of the next item to retrieve.
    pub fn next(&self) -> (r: Option<&String>)
        requires
            self.wf(),
        ensures
            self.caps@.len() < self.paths@.len() ==> r is Some && r->Some_0@ == self.paths@[self.caps@.len() as int]@,
            self.caps@.len() == self.paths@.len() ==> r is None,
    {
        if self.caps.len() < self.paths.len() {
            Some(&self.paths[self.caps.len()])
        } else {
            None
        }
    }

    /// Takes in the item at the next path, if it was found.
    pub fn on_file(&mut self, file: Option<&AbsoluteCapability>) -> (r: Result<()>)
        requires
            old(self).wf(),
            old(self).caps@.len() < old(self).paths@.len(),
        ensures
            final(self).wf(),
            final(self).username == old(self).username,
            final(self).identity == old(self).identity,
            final(self).paths == old(self).paths,
            final(self).writable == old(self).writable,
            ({
                let path = old(self).paths@[old(self).caps@.len() as int]@;
                let writable = texts(old(self).writable@).contains(path);
                match file {
                    None => fails_protocol(r, "Couldn't retrieve "@ + path),
                    Some(f) => if writable && !f@.is_writable() {
                        fails_protocol(r, path + " is not writable"@)
                    } else if f@.owner != old(self).identity@ {
                        fails_protocol(r, not_yours(path))
                    } else {
                        &&& r is Ok
                        &&& final(self).caps@.len() == old(self).caps@.len() + 1
                        &&& final(self).caps@.drop_last() == old(self).caps@
                        &&& final(self).caps@.last()@ == if writable { f@ } else { f@.read_only() }
                    },
                }
            }),
            r is Err ==> final(self).caps == old(self).caps && final(self).members == old(self).members,
    {
        let i: usize = self.caps.len();
        let writable = is_listed(&self.writable, self.paths[i].as_str());
        match link_item(self.username.as_str(), &self.identity, self.paths[i].as_str(), file, writable) {
            Err(e) => Err(e),
            Ok((cap, member)) => {
                let ghost before = *self;
                self.caps.push(cap);
                self.members.push(member);
                proof {
                    assert(self.caps@.drop_last() =~= before.caps@);
                    assert forall|k: int| 0 <= k < self.caps@.len() implies {
                        &&& (#[trigger] self.members@[k])@ == item_member(
                            self.username@,
                            self.paths@[k]@,
                            texts(self.writable@),
                        )
                        &&& self.caps@[k]@.owner == self.identity@
                        &&& self.caps@[k]@.is_writable() == texts(self.writable@).contains(self.paths@[k]@)
                    } by {
                        if k < i {
                            assert(self.members@[k] == before.members@[k]);
                            assert(self.caps@[k] == before.caps@[k]);
                        }
                    }
                }
                Ok(())
            },
        }
    }

    /// The capabilities that go into the link, and the members that are recorded for it: one
    /// for each path, in order. Once the link is written, [`LinkProperties::minted`] gives what
    /// is recorded.
    pub fn finish(self) -> (r: (Vec<AbsoluteCapability>, Vec<LinkMember>))
        requires
            self.wf(),
            self.caps@.len() == self.paths@.len(),
        ensures
            r.0 == self.caps,
            r.1@.len() == self.paths@.len(),
            forall|i: int|
                0 <= i < r.1@.len() ==> (#[trigger] r.1@[i])@ == item_member(
                    self.username@,
                    self.paths@[i]@,
                    texts(self.writable@),
                ),
            forall|i: int|
                0 <= i < r.0@.len() ==> (#[trigger] r.0@[i])@.owner == self.identity@ && r.0@[i]@.is_writable() == texts(
                    self.writable@,
                ).contains(self.paths@[i]@),
    {
        proof {
            assert forall|i: int| 0 <= i < self.caps@.len() implies (#[trigger] self.caps@[i])@.owner == self.identity@
                && self.caps@[i]@.is_writable() == texts(self.writable@).contains(self.paths@[i]@) by {
                assert(self.members@[i]@ == item_member(self.username@, self.paths@[i]@, texts(self.writable@)));
            }
        }
        (self.caps, self.members)
    }
}

/// The paths of a link to a single item, and those of them that others may write.
pub fn single_item(path: &str, writable: bool) -> (r: (Vec<String>, Vec<String>))
    ensures
        texts(r.0@) == seq![path@],
        texts(r.1@) == if writable { seq![path@] } else { Seq::empty() },
{
    let mut paths: Vec<String> = Vec::new();
    paths.push(path.to_owned());
    let mut writable_paths: Vec<String> = Vec::new();
    if writable {
        writable_paths.push(path.to_owned());
    }
    proof {
        assert(texts(paths@) =~= seq![path@]);
        assert(texts(writable_paths@) =~= if writable { seq![path@] } else { Seq::empty() });
    }
    (paths, writable_paths)
}

/// Checks what was moved to its own writing space, and says whether every share and link to
/// it must be sent again.
pub fn check_own_space(parent_writer: &Opaque, writer_before: &Opaque, writer_after: &Opaque) -> (r: Result<bool>)
    ensures
        writer_after@ == parent_writer@ ==> fails_protocol(
            r,
            "a writable secret link's target must be in a different writing space to its parent"@,
        ),
        writer_after@ != parent_writer@ ==> r is Ok && r->Ok_0 == (writer_after@ != writer_before@),
{
    if writer_after.same(parent_writer) {
        return Err(protocol("a writable secret link's target must be in a different writing space to its parent"));
    }
    Ok(!writer_after.same(writer_before))
}

/// The members as home-relative paths, up to the first that is in another home; with
/// `writable_only`, only those that others may write.
pub open spec fn all_at_home(username: Seq<char>, v: Seq<(Seq<char>, bool)>, writable_only: bool) -> core::result::Result<
    Seq<Seq<char>>,
    Fault,
>
    decreases v.len(),
{
    if v.len() == 0 {
        Ok(Seq::empty())
    } else {
        match all_at_home(username, v.drop_last(), writable_only) {
            Err(f) => Err(f),
            Ok(init) => if writable_only && !v.last().1 {
                Ok(init)
            } else {
                match relative_to_home(username, v.last().0) {
                    Some(p) => Ok(init.push(p)),
                    None => Err(Fault::Protocol(v.last().0 + " is not in "@ + username + "'s home"@)),
                }
            },
        }
    }
}

proof fn lemma_all_at_home_fails(username: Seq<char>, v: Seq<(Seq<char>, bool)>, writable_only: bool, n: int)
    requires
        0 <= n <= v.len(),
        all_at_home(username, v.take(n), writable_only) is Err,
    ensures
        all_at_home(username, v, writable_only) == all_at_home(username, v.take(n), writable_only),
    decreases v.len(),
{
    if n < v.len() {
        assert(v.drop_last().take(n) =~= v.take(n));
        lemma_all_at_home_fails(username, v.drop_last(), writable_only, n);
    } else {
        assert(v.take(n) =~= v);
    }
}

fn each_at_home(username: &str, v: &Vec<LinkMember>, writable_only: bool) -> (r: Result<Vec<String>>)
    ensures
        match all_at_home(username@, members_of(v@), writable_only) {
            Ok(s) => r is Ok && texts(r->Ok_0@) == s,
            Err(f) => r is Err && error_is(r->Err_0, f),
        },
{
    let ghost all = members_of(v@);
    let mut out: Vec<String> = Vec::new();
    proof {
        assert(texts(out@) =~= Seq::empty());
        assert(all.take(0) =~= Seq::empty());
    }
    for i in 0..v.len()
        invariant
            all == members_of(v@),
            all_at_home(username@, all.take(i as int), writable_only) == Ok::<Seq<Seq<char>>, Fault>(texts(out@)),
    {
        let ghost before = texts(out@);
        proof {
            assert(all.take(i as int + 1).drop_last() =~= all.take(i as int));
            assert(all.take(i as int + 1).last() == v[i as int]@);
        }
        if !writable_only || v[i].writable {
            match home_path_of(username, v[i].path.as_str()) {
                Some(p) => {
                    let ghost pv = p@;
                    out.push(p);
                    proof {
                        assert(texts(out@) =~= before.push(pv));
                    }
                },
                None => {
                    proof {
                        lemma_all_at_home_fails(username@, all, writable_only, i as int + 1);
                    }
                    return Err(
                        protocol(join4(v[i].path.as_str(), " is not in ", username, "'s home").as_str()),
                    );
                },
            }
        }
    }
    proof {
        assert(all.take(all.len() as int) =~= all);
    }
    Ok(out)
}

/// What a link is written again for, after the keys of the item at `path` were rotated: the
/// members that it has, so that no other item is dropped, or else this one item.
pub open spec fn members_again(username: Seq<char>, p: PropsView, path: Seq<char>) -> core::result::Result<
    (Seq<Seq<char>>, Seq<Seq<char>>),
    Fault,
> {
    if p.members.len() == 0 {
        Ok((seq![trimmed(path)], if p.writable { seq![trimmed(path)] } else { Seq::empty() }))
    } else {
        match (all_at_home(username, p.members, false), all_at_home(username, p.members, true)) {
            (Err(f), _) => Err(f),
            (_, Err(f)) => Err(f),
            (Ok(a), Ok(b)) => Ok((a, b)),
        }
    }
}

/// What a link is written again for: its paths, and those that others may write.
pub fn remint(username: &str, props: &LinkProperties, path: &str) -> (r: Result<(Vec<String>, Vec<String>)>)
    ensures
        match members_again(username@, props@, path@) {
            Ok(s) => r is Ok && (texts(r->Ok_0.0@), texts(r->Ok_0.1@)) == s,
            Err(f) => r is Err && error_is(r->Err_0, f),
        },
{
    if props.members.len() == 0 {
        let p = trim_slashes(path);
        let mut writable: Vec<String> = Vec::new();
        if props.writable {
            writable.push(p.clone());
        }
        let mut paths: Vec<String> = Vec::new();
        paths.push(p);
        proof {
            assert(texts(paths@) =~= seq![trimmed(path@)]);
            assert(texts(writable@) =~= if props@.writable {
                seq![trimmed(path@)]
            } else {
                Seq::empty()
            });
        }
        return Ok((paths, writable));
    }
    match each_at_home(username, &props.members, false) {
        Err(e) => Err(e),
        Ok(paths) => match each_at_home(username, &props.members, true) {
            Err(e) => Err(e),
            Ok(writable) => Ok((paths, writable)),
        },
    }
}

/// The contents of a list of recorded links.
pub open spec fn recorded(v: Seq<LinkProperties>) -> Seq<PropsView> {
    Seq::new(v.len(), |i: int| v[i]@)
}

/// The members of the first link with this label, at home.
pub open spec fn labelled_members(username: Seq<char>, v: Seq<PropsView>, label: int) -> Seq<Seq<char>>
    decreases v.len(),
{
    if v.len() == 0 {
        Seq::empty()
    } else if v[0].label == label {
        home_members(username, v[0].members, false)
    } else {
        labelled_members(username, v.skip(1), label)
    }
}

/// The paths under which a link is forgotten when it is deleted: those of its members, and
/// the one it was found recorded under.
pub open spec fn forgotten_paths(username: Seq<char>, v: Seq<PropsView>, path: Seq<char>, label: int) -> Seq<Seq<char>> {
    let m = labelled_members(username, v, label);
    if m.contains(trimmed(path)) {
        m
    } else {
        m.push(trimmed(path))
    }
}

fn find_labelled(username: &str, links: &Vec<LinkProperties>, label: i64) -> (r: Vec<String>)
    ensures
        texts(r@) == labelled_members(username@, recorded(links@), label as int),
{
    let ghost all = recorded(links@);
    proof {
        assert(all.skip(0) =~= all);
    }
    for i in 0..links.len()
        invariant
            all == recorded(links@),
            labelled_members(username@, all, label as int) == labelled_members(
                username@,
                all.skip(i as int),
                label as int,
            ),
    {
        proof {
            assert(all.skip(i as int)[0] == links[i as int]@);
            assert(all.skip(i as int).skip(1) =~= all.skip(i as int + 1));
        }
        if links[i].label == label {
            return members_at_home(username, &links[i].members, false);
        }
    }
    let none: Vec<String> = Vec::new();
    proof {
        assert(all.skip(all.len() as int) =~= Seq::empty());
        assert(texts(none@) =~= Seq::empty());
    }
    none
}

/// The paths under which a link is forgotten when it is deleted.
pub fn paths_to_forget(username: &str, links: &Vec<LinkProperties>, path: &str, label: i64) -> (r: Vec<String>)
    ensures
        texts(r@) == forgotten_paths(username@, recorded(links@), path@, label as int),
{
    let mut paths = find_labelled(username, links, label);
    let p = trim_slashes(path);
    let ghost m = texts(paths@);
    if !is_listed(&paths, p.as_str()) {
        paths.push(p);
        proof {
            assert(texts(paths@) =~= m.push(trimmed(path@)));
        }
    }
    paths
}

/// What is encrypted behind a link: its capability, or the list of them if there are several.
pub open spec fn payload_cbor(v: Seq<CapView>) -> CborValue {
    if v.len() == 1 {
        cap_cbor(v[0])
    } else {
        CborValue::List(Seq::new(v.len(), |i: int| cap_cbor(v[i])))
    }
}

/// The capabilities of a list, up to the first one that is none.
pub open spec fn each_cap(v: Seq<CborValue>, formats: &Formats) -> core::result::Result<Seq<CapView>, Fault>
    decreases v.len(),
{
    if v.len() == 0 {
        Ok(Seq::empty())
    } else {
        match each_cap(v.drop_last(), formats) {
            Err(f) => Err(f),
            Ok(l) => match cap_from(v.last(), formats) {
                Err(f) => Err(f),
                Ok(c) => Ok(l.push(c)),
            },
        }
    }
}

/// The capabilities that a decrypted payload describes.
pub open spec fn payload_caps(v: CborValue, formats: &Formats) -> core::result::Result<Seq<CapView>, Fault> {
    match v {
        CborValue::List(l) => each_cap(l, formats),
        _ => match cap_from(v, formats) {
            Ok(c) => Ok(seq![c]),
            Err(f) => Err(f),
        },
    }
}

proof fn lemma_each_cap_fail(v: Seq<CborValue>, n: int, formats: &Formats)
    requires
        0 <= n <= v.len(),
        each_cap(v.take(n), formats) is Err,
    ensures
        each_cap(v, formats) == each_cap(v.take(n), formats),
    decreases v.len() - n,
{
    if n < v.len() {
        assert(v.take(n + 1).drop_last() =~= v.take(n));
        lemma_each_cap_fail(v, n + 1, formats);
    } else {
        assert(v.take(n) =~= v);
    }
}

/// What is encrypted behind a link with these capabilities.
pub fn link_payload(caps: &Vec<AbsoluteCapability>) -> (r: CborObject)
    ensures
        r@ == payload_cbor(cap_views(caps@)),
{
    if caps.len() == 1 {
        return caps[0].to_cbor();
    }
    let mut out: Vec<CborObject> = Vec::new();
    for i in 0..caps.len()
        invariant
            out.len() == i,
            forall|k: int| 0 <= k < i ==> (#[trigger] out[k])@ == cap_cbor(caps[k]@),
    {
        out.push(caps[i].to_cbor());
    }
    proof {
        let v = cap_views(caps@);
        assert(items(out@) =~= Seq::new(v.len(), |i: int| cap_cbor(v[i])));
    }
    CborObject::List(out)
}

/// The capabilities behind a link, out of its decrypted payload.
pub fn link_capabilities(payload: &CborObject, formats: &Formats) -> (r: Result<Vec<AbsoluteCapability>>)
    ensures
        match payload_caps(payload@, formats) {
            Ok(s) => r is Ok && cap_views(r->Ok_0@) == s,
            Err(f) => r is Err && error_is(r->Err_0, f),
        },
{
    let mut out: Vec<AbsoluteCapability> = Vec::new();
    let list = match payload {
        CborObject::List(l) => l,
        _ => {
            return match AbsoluteCapability::from_cbor(payload, formats) {
                Err(e) => Err(e),
                Ok(c) => {
                    let ghost cv = c@;
                    out.push(c);
                    proof {
                        assert(cap_views(out@) =~= seq![cv]);
                    }
                    Ok(out)
                },
            };
        },
    };
    let ghost all = items(list@);
    proof {
        assert(all.take(0) =~= Seq::empty());
        assert(cap_views(out@) =~= Seq::empty());
    }
    for i in 0..list.len()
        invariant
            all == items(list@),
            payload@ == CborValue::List(all),
            each_cap(all.take(i as int), formats) == Ok::<Seq<CapView>, Fault>(cap_views(out@)),
    {
        let ghost before = cap_views(out@);
        proof {
            assert(all.take(i as int + 1).drop_last() =~= all.take(i as int));
            assert(all.take(i as int + 1).last() == list[i as int]@);
        }
        match AbsoluteCapability::from_cbor(&list[i], formats) {
            Ok(c) => {
                let ghost cv = c@;
                out.push(c);
                proof {
                    assert(cap_views(out@) =~= before.push(cv));
                }
            },
            Err(e) => {
                proof {
                    lemma_each_cap_fail(all, i as int + 1, formats);
                }
                return Err(e);
            },
        }
    }
    proof {
        assert(all.take(all.len() as int) =~= all);
    }
    Ok(out)
}

proof fn lemma_each_cap_round_trip(v: Seq<CapView>, formats: &Formats)
    requires
        forall|i: int| 0 <= i < v.len() ==> is_readable_cap(#[trigger] v[i], formats),
    ensures
        each_cap(Seq::new(v.len(), |i: int| cap_cbor(v[i])), formats) == Ok::<Seq<CapView>, Fault>(v),
    decreases v.len(),
{
    let c = Seq::new(v.len(), |i: int| cap_cbor(v[i]));
    if v.len() > 0 {
        let init = v.drop_last();
        lemma_each_cap_round_trip(init, formats);
        assert(c.drop_last() =~= Seq::new(init.len(), |i: int| cap_cbor(init[i])));
        law_cap_round_trip(v.last(), formats);
        assert(init.push(v.last()) =~= v);
    } else {
        assert(v =~= Seq::empty());
    }
}

/// Whoever opens a link gets the capabilities that were put into it, in their order.
pub proof fn law_link_holds_its_items(v: Seq<CapView>, formats: &Formats)
    requires
        forall|i: int| 0 <= i < v.len() ==> is_readable_cap(#[trigger] v[i], formats),
    ensures
        payload_caps(payload_cbor(v), formats) == Ok::<Seq<CapView>, Fault>(v),
{
    if v.len() == 1 {
        law_cap_round_trip(v[0], formats);
        assert(seq![v[0]] =~= v);
    } else {
        lemma_each_cap_round_trip(v, formats);
    }
}

/// The item of a link that a capability in it is for, at the path that it has now.
pub fn member_now(path: String, cap: &AbsoluteCapability) -> (r: LinkMember)
    ensures
        r@ == (path@, cap@.is_writable()),
{
    LinkMember { path, writable: cap.is_writable() }
}

/// A member of a link is home-relative without the slash and name of its home; a path elsewhere
/// stays as it is.
pub proof fn law_member_paths(username: Seq<char>, rest: Seq<char>, path: Seq<char>)
    ensures
        without_home(username, "/"@ + username + "/"@ + rest) == rest,
        !has_prefix(path, "/"@ + username + "/"@) ==> without_home(username, path) == path,
{
    let prefix = "/"@ + username + "/"@;
    assert((prefix + rest).take(prefix.len() as int) =~= prefix);
    assert((prefix + rest).skip(prefix.len() as int) =~= rest);
}

/// A link holds its members, in their order; one from before there were members holds the item
/// that it is recorded under.
pub proof fn law_link_paths(s: SummaryView, i: int)
    ensures
        s.props.members.len() == 0 ==> link_paths(s) == seq![s.recorded_under],
        s.props.members.len() > 0 ==> link_paths(s).len() == s.props.members.len(),
        0 <= i < s.props.members.len() ==> link_paths(s)[i] == without_home(s.username, s.props.members[i].0),
{
}

/// The members of a link at home are those whose path is in this home, and of these the writable
/// ones where only they are asked for.
pub proof fn law_home_members(username: Seq<char>, v: Seq<(Seq<char>, bool)>, writable_only: bool, p: Seq<char>)
    ensures
        home_members(username, v, writable_only).contains(p) <==> exists|i: int|
            0 <= i < v.len() && relative_to_home(username, (#[trigger] v[i]).0) == Some(p) && (writable_only ==> v[i].1),
    decreases v.len(),
{
    if v.len() > 0 {
        let init = v.drop_last();
        law_home_members(username, init, writable_only, p);
        let a = home_members(username, v, writable_only);
        let b = home_members(username, init, writable_only);
        let last = v[v.len() - 1];
        if b.contains(p) {
            let i = choose|i: int|
                0 <= i < init.len() && relative_to_home(username, (#[trigger] init[i]).0) == Some(p) && (writable_only
                    ==> init[i].1);
            assert(v[i] == init[i]);
            let k = choose|k: int| 0 <= k < b.len() && b[k] == p;
            assert(a[k] == p);
        }
        if relative_to_home(username, last.0) == Some(p) && (writable_only ==> last.1) {
            assert(a[a.len() - 1] == p);
        }
        if exists|i: int|
            0 <= i < v.len() && relative_to_home(username, (#[trigger] v[i]).0) == Some(p) && (writable_only ==> v[i].1) {
            let i = choose|i: int|
                0 <= i < v.len() && relative_to_home(username, (#[trigger] v[i]).0) == Some(p) && (writable_only
                    ==> v[i].1);
            if i < init.len() {
                assert(init[i] == v[i]);
            }
        }
        if a.contains(p) && !b.contains(p) {
            let k = choose|k: int| 0 <= k < a.len() && a[k] == p;
            if k < b.len() {
                assert(b[k] == p);
            }
            assert(relative_to_home(username, last.0) == Some(p));
            assert(v[v.len() - 1] == last);
        }
    }
}

/// What must be in its own writing space are the items of the link that others may write.
pub proof fn law_items_to_split(paths: Seq<Seq<char>>, writable: Seq<Seq<char>>, path: Seq<char>)
    ensures
        picked(paths, writable, true).contains(path) <==> paths.contains(path) && writable.contains(path),
{
    lemma_picked(paths, writable, true, path);
}

/// An item that is added comes last, others may write it if and only if it was asked for, and the
/// items that were there stay, with what others may do to them.
pub proof fn law_item_is_added(s: SummaryView, username: Option<Seq<char>>, path: Seq<char>, writable: bool, other: Seq<char>)
    requires
        other != path,
    ensures
        ({
            let (paths, w) = with_item(s, username, path, writable);
            let (same, before) = with_item(s, username, path, false);
            &&& paths == link_paths(s).push(path)
            &&& writable ==> w == before.push(path)
            &&& w.contains(other) <==> before.contains(other)
            &&& s.props.members.len() == 0 && s.props.writable ==> before == link_paths(s)
            &&& s.props.members.len() == 0 && !s.props.writable ==> before.len() == 0
            &&& s.props.members.len() > 0 ==> before == members_for(username, s.props.members, true)
        }),
{
    let (same, before) = with_item(s, username, path, false);
    let w = before.push(path);
    if before.contains(other) {
        let k = choose|k: int| 0 <= k < before.len() && before[k] == other;
        assert(w[k] == other);
    }
    if w.contains(other) {
        let k = choose|k: int| 0 <= k < w.len() && w[k] == other;
        assert(before[k] == other);
    }
}

/// A link that is recorded again keeps its one place in the list: with the new record if that
/// knows its members and the old one does not, and as it was otherwise. A new link comes last.
pub proof fn law_record_of_a_link(v: Seq<SummaryView>, s: SummaryView)
    ensures
        v.len() <= with_record(v, s).len(),
        (forall|i: int| 0 <= i < v.len() ==> (#[trigger] v[i]).props.label != s.props.label) ==> with_record(v, s) == v.push(s),
        forall|i: int|
            0 <= i < v.len() && (#[trigger] v[i]).props.label != s.props.label ==> with_record(v, s)[i] == v[i],
        forall|i: int|
            0 <= i < v.len() && (#[trigger] v[i]).props.label == s.props.label && (forall|j: int|
                0 <= j < i ==> (#[trigger] v[j]).props.label != s.props.label) ==> with_record(v, s).len() == v.len()
                && with_record(v, s)[i] == if v[i].props.members.len() == 0 && s.props.members.len() > 0 { s } else { v[i] },
    decreases v.len(),
{
    if v.len() == 0 {
        assert(with_record(v, s) =~= v.push(s));
    } else if v[0].props.label != s.props.label {
        let rest = v.skip(1);
        let w = with_record(v, s);
        law_record_of_a_link(rest, s);
        if forall|i: int| 0 <= i < v.len() ==> (#[trigger] v[i]).props.label != s.props.label {
            assert forall|i: int| 0 <= i < rest.len() implies (#[trigger] rest[i]).props.label != s.props.label by {
                assert(rest[i] == v[i + 1]);
            }
            assert(w =~= v.push(s));
        }
        assert forall|i: int| 0 <= i < v.len() && (#[trigger] v[i]).props.label != s.props.label implies w[i] == v[i] by {
            if i > 0 {
                assert(rest[i - 1] == v[i]);
            }
        }
        assert forall|i: int|
            0 <= i < v.len() && (#[trigger] v[i]).props.label == s.props.label && (forall|j: int|
                0 <= j < i ==> (#[trigger] v[j]).props.label != s.props.label) implies w.len() == v.len() && w[i] == if v[i].props.members.len()
            == 0 && s.props.members.len() > 0 { s } else { v[i] } by {
            assert(rest[i - 1] == v[i]);
            assert forall|j: int| 0 <= j < i - 1 implies (#[trigger] rest[j]).props.label != s.props.label by {
                assert(rest[j] == v[j + 1]);
            }
        }
    } else {
        let w = with_record(v, s);
        assert forall|i: int| 0 <= i < v.len() && (#[trigger] v[i]).props.label != s.props.label implies w[i] == v[i] by {}
    }
}

/// A link with this label is listed.
pub open spec fn lists_label(v: Seq<SummaryView>, label: int) -> bool {
    exists|i: int| 0 <= i < v.len() && (#[trigger] v[i]).props.label == label
}

proof fn lemma_record_lists(v: Seq<SummaryView>, s: SummaryView, label: int)
    ensures
        lists_label(with_record(v, s), label) <==> lists_label(v, label) || s.props.label == label,
    decreases v.len(),
{
    let w = with_record(v, s);
    if v.len() == 0 {
        assert(w[0] == s);
    } else if v[0].props.label == s.props.label {
        assert(w[0].props.label == s.props.label);
        if lists_label(v, label) {
            let i = choose|i: int| 0 <= i < v.len() && (#[trigger] v[i]).props.label == label;
            if i > 0 {
                assert(w[i] == v[i]);
            }
        }
        if lists_label(w, label) {
            let i = choose|i: int| 0 <= i < w.len() && (#[trigger] w[i]).props.label == label;
            if i > 0 {
                assert(v[i] == w[i]);
            }
        }
    } else {
        let rest = v.skip(1);
        let x = with_record(rest, s);
        lemma_record_lists(rest, s, label);
        if lists_label(x, label) {
            let i = choose|i: int| 0 <= i < x.len() && (#[trigger] x[i]).props.label == label;
            assert(w[i + 1] == x[i]);
        }
        if lists_label(rest, label) {
            let i = choose|i: int| 0 <= i < rest.len() && (#[trigger] rest[i]).props.label == label;
            assert(v[i + 1] == rest[i]);
        }
        if lists_label(v, label) {
            let i = choose|i: int| 0 <= i < v.len() && (#[trigger] v[i]).props.label == label;
            if i > 0 {
                assert(rest[i - 1] == v[i]);
            } else {
                assert(w[0] == v[0]);
            }
        }
        if lists_label(w, label) {
            let i = choose|i: int| 0 <= i < w.len() && (#[trigger] w[i]).props.label == label;
            if i > 0 {
                assert(x[i - 1] == w[i]);
            } else {
                assert(v[0] == w[0]);
            }
        }
    }
}

proof fn lemma_links_list(v: Seq<SummaryView>, username: Seq<char>, path: Seq<char>, links: Seq<PropsView>, label: int)
    ensures
        lists_label(with_links(v, username, path, links), label) <==> lists_label(v, label) || exists|k: int|
            0 <= k < links.len() && (#[trigger] links[k]).label == label,
    decreases links.len(),
{
    if links.len() > 0 {
        let init = links.drop_last();
        lemma_links_list(v, username, path, init, label);
        let s = SummaryView { props: links.last(), recorded_under: path, username };
        lemma_record_lists(with_links(v, username, path, init), s, label);
        if exists|k: int| 0 <= k < init.len() && (#[trigger] init[k]).label == label {
            let k = choose|k: int| 0 <= k < init.len() && (#[trigger] init[k]).label == label;
            assert(links[k] == init[k]);
        }
        if exists|k: int| 0 <= k < links.len() && (#[trigger] links[k]).label == label {
            let k = choose|k: int| 0 <= k < links.len() && (#[trigger] links[k]).label == label;
            if k < init.len() {
                assert(init[k] == links[k]);
            }
        }
        assert(links[links.len() - 1] == links.last());
    }
}

proof fn lemma_names_list(
    v: Seq<SummaryView>,
    username: Seq<char>,
    dir: Seq<char>,
    names: Seq<(Seq<char>, Seq<PropsView>)>,
    label: int,
)
    ensures
        lists_label(v, label) ==> lists_label(with_names(v, username, dir, names), label),
        forall|n: int, k: int|
            0 <= n < names.len() && 0 <= k < names[n].1.len() && (#[trigger] names[n].1[k]).label == label ==> lists_label(
                with_names(v, username, dir, names),
                label,
            ),
    decreases names.len(),
{
    if names.len() > 0 {
        let init = names.drop_last();
        lemma_names_list(v, username, dir, init, label);
        lemma_links_list(
            with_names(v, username, dir, init),
            username,
            path_in(dir, names.last().0),
            names.last().1,
            label,
        );
        assert forall|n: int, k: int|
            0 <= n < names.len() && 0 <= k < names[n].1.len() && (#[trigger] names[n].1[k]).label == label implies lists_label(
            with_names(v, username, dir, names),
            label,
        ) by {
            if n < init.len() {
                assert(init[n].1[k].label == label);
            } else {
                assert(names.last().1[k].label == label);
            }
        }
    }
}

/// Every link that is recorded anywhere is listed.
pub proof fn law_every_link_is_listed(
    username: Seq<char>,
    shares: Seq<(Seq<char>, Seq<(Seq<char>, Seq<PropsView>)>)>,
    d: int,
    n: int,
    k: int,
)
    requires
        0 <= d < shares.len(),
        0 <= n < shares[d].1.len(),
        0 <= k < shares[d].1[n].1.len(),
    ensures
        lists_label(with_shares(username, shares), shares[d].1[n].1[k].label),
    decreases shares.len(),
{
    let init = shares.drop_last();
    let label = shares[d].1[n].1[k].label;
    lemma_names_list(with_shares(username, init), username, shares.last().0, shares.last().1, label);
    if d < init.len() {
        law_every_link_is_listed(username, init, d, n, k);
    } else {
        assert(shares.last().1[n].1[k].label == label);
    }
}

/// A link is listed under the path of the item that it is recorded for: its directory, a slash and
/// its name.
pub proof fn law_listed_under(username: Seq<char>, dir: Seq<char>, name: Seq<char>, p: PropsView)
    ensures
        with_shares(username, seq![(dir, seq![(name, seq![p])])]) == seq![
            SummaryView {
                props: p,
                recorded_under: if dir.len() == 0 { name } else { dir + "/"@ + name },
                username,
            },
        ],
{
    let links = seq![p];
    let names = seq![(name, links)];
    let shares = seq![(dir, names)];
    assert(links.drop_last() =~= Seq::empty());
    assert(names.drop_last() =~= Seq::empty());
    assert(shares.drop_last() =~= Seq::empty());
    reveal_with_fuel(with_shares, 2);
    reveal_with_fuel(with_names, 2);
    reveal_with_fuel(with_links, 2);
    reveal_with_fuel(with_record, 2);
}

/// What is recorded for an item: its absolute path, and whether others may write it.
pub proof fn law_item_member(username: Seq<char>, path: Seq<char>, writable: Seq<Seq<char>>)
    ensures
        item_member(username, path, writable).0 == "/"@ + username + "/"@ + path,
        item_member(username, path, writable).1 <==> writable.contains(path),
{
}

/// A link is minted again with all its items, and with those of them that others may write; one
/// without members with the item that it is recorded for. A member of another home stops it.
pub proof fn law_link_is_minted_again(username: Seq<char>, p: PropsView, path: Seq<char>, i: int)
    ensures
        p.members.len() == 0 ==> members_again(username, p, path) == Ok::<(Seq<Seq<char>>, Seq<Seq<char>>), Fault>(
            (seq![trimmed(path)], if p.writable { seq![trimmed(path)] } else { Seq::empty() }),
        ),
        0 <= i < p.members.len() && relative_to_home(username, p.members[i].0) is None ==> members_again(username, p, path)
            is Err,
        members_again(username, p, path) matches Ok(m) ==> p.members.len() > 0 ==> m.0.len() == p.members.len() && m.0
            == home_members(username, p.members, false) && m.1 == home_members(username, p.members, true),
{
    lemma_all_at_home(username, p.members, false);
    lemma_all_at_home(username, p.members, true);
}

proof fn lemma_all_at_home(username: Seq<char>, v: Seq<(Seq<char>, bool)>, writable_only: bool)
    ensures
        all_at_home(username, v, writable_only) matches Ok(l) ==> l == home_members(username, v, writable_only) && (
        !writable_only ==> l.len() == v.len()),
        all_at_home(username, v, false) is Ok ==> forall|i: int|
            0 <= i < v.len() ==> relative_to_home(username, (#[trigger] v[i]).0) is Some,
    decreases v.len(),
{
    if v.len() > 0 {
        let init = v.drop_last();
        lemma_all_at_home(username, init, writable_only);
        if all_at_home(username, v, false) is Ok {
            lemma_all_at_home(username, init, false);
            assert forall|i: int| 0 <= i < v.len() implies relative_to_home(username, (#[trigger] v[i]).0) is Some by {
                if i < init.len() {
                    assert(init[i] == v[i]);
                }
            }
        }
    }
}

/// A link that is deleted is forgotten under the item that it was found under, and under all the
/// items of this home that it held.
pub proof fn law_deleted_link_is_forgotten(username: Seq<char>, v: Seq<PropsView>, path: Seq<char>, label: int, k: int, p: Seq<char>)
    requires
        0 <= k < v.len(),
        v[k].label == label,
        forall|j: int| 0 <= j < k ==> (#[trigger] v[j]).label != label,
    ensures
        forgotten_paths(username, v, path, label).contains(trimmed(path)),
        forgotten_paths(username, v, path, label).contains(p) <==> p == trimmed(path) || home_members(
            username,
            v[k].members,
            false,
        ).contains(p),
{
    lemma_labelled(username, v, label, k);
    let m = home_members(username, v[k].members, false);
    let f = forgotten_paths(username, v, path, label);
    if !m.contains(trimmed(path)) {
        assert(f[f.len() - 1] == trimmed(path));
        if m.contains(p) {
            let i = choose|i: int| 0 <= i < m.len() && m[i] == p;
            assert(f[i] == p);
        }
        if f.contains(p) && p != trimmed(path) {
            let i = choose|i: int| 0 <= i < f.len() && f[i] == p;
            assert(m[i] == p);
        }
    }
}

proof fn lemma_labelled(username: Seq<char>, v: Seq<PropsView>, label: int, k: int)
    requires
        0 <= k < v.len(),
        v[k].label == label,
        forall|j: int| 0 <= j < k ==> (#[trigger] v[j]).label != label,
    ensures
        labelled_members(username, v, label) == home_members(username, v[k].members, false),
    decreases v.len(),
{
    if k > 0 {
        let rest = v.skip(1);
        assert(v[0].label != label);
        assert(rest[k - 1] == v[k]);
        assert forall|j: int| 0 <= j < k - 1 implies (#[trigger] rest[j]).label != label by {
            assert(rest[j] == v[j + 1]);
        }
        lemma_labelled(username, rest, label, k - 1);
    }
}

/// The payload of a link with one item is that capability, and of one with several their list.
pub proof fn law_payload(v: Seq<CapView>)
    ensures
        v.len() == 1 ==> payload_cbor(v) == cap_cbor(v[0]),
        v.len() != 1 ==> (payload_cbor(v) matches CborValue::List(l) && l.len() == v.len() && forall|i: int|
            0 <= i < v.len() ==> #[trigger] l[i] == cap_cbor(v[i])),
{
}

/// When the items of a link can be changed, and to what: it holds from 1 to 100 of them. Those that
/// others may write get their own writing space, and of those that were there before the ones that
/// are no longer named go.
pub proof fn law_membership_change(
    r: Result<MembershipChange>,
    username: Option<Seq<char>>,
    paths: Seq<Seq<char>>,
    writable_paths: Seq<Seq<char>>,
    members: Seq<(Seq<char>, bool)>,
    i: int,
    p: Seq<char>,
)
    requires
        is_membership_change(r, username, paths, writable_paths, members),
    ensures
        r is Ok <==> 1 <= paths.len() <= 100,
        r matches Ok(c) ==> 0 <= i < paths.len() ==> c.paths@.len() == paths.len() && c.paths@[i]@ == trimmed(paths[i]),
        r matches Ok(c) ==> 0 <= i < writable_paths.len() ==> c.writable@.len() == writable_paths.len() && c.writable@[i]@
            == trimmed(writable_paths[i]),
        r matches Ok(c) ==> (texts(c.to_split@).contains(p) <==> texts(c.paths@).contains(p) && texts(c.writable@).contains(p)),
        r matches Ok(c) ==> (texts(c.gone@).contains(p) <==> members_for(username, members, false).contains(p) && !texts(
            c.paths@,
        ).contains(p)),
{
    if let Ok(c) = r {
        let q = trimmed_all(paths);
        let w = trimmed_all(writable_paths);
        lemma_picked(q, w, true, p);
        lemma_picked(members_for(username, members, false), q, false, p);
        assert(texts(c.paths@).len() == q.len());
        assert(texts(c.writable@).len() == w.len());
        if 0 <= i < paths.len() {
            assert(texts(c.paths@)[i] == q[i]);
        }
        if 0 <= i < writable_paths.len() {
            assert(texts(c.writable@)[i] == w[i]);
        }
    }
}

/// When an item can be added to a link: if it is named and the link does not hold it yet. It then
/// holds it, behind those that it held.
pub proof fn law_addition(
    r: Result<(Vec<String>, Vec<String>)>,
    link: SummaryView,
    username: Option<Seq<char>>,
    path: Seq<char>,
    writable: bool,
)
    requires
        is_addition(r, link, username, path, writable),
    ensures
        r is Ok <==> trimmed(path).len() > 0 && !link_paths(link).contains(trimmed(path)),
        r matches Ok(v) ==> texts(v.0@) == link_paths(link).push(trimmed(path)),
        r matches Ok(v) ==> writable ==> texts(v.1@).len() > 0 && texts(v.1@).last() == trimmed(path),
{
}

/// The capabilities in the payload of a link are read one by one, in their order, and none is
/// passed over.
pub proof fn law_each_cap(v: Seq<CborValue>, formats: &Formats, i: int)
    requires
        0 <= i < v.len(),
    ensures
        each_cap(v, formats) matches Ok(l) ==> l.len() == v.len() && cap_from(v[i], formats) == Ok::<CapView, Fault>(l[i]),
        cap_from(v[i], formats) is Err ==> each_cap(v, formats) is Err,
    decreases v.len(),
{
    let init = v.drop_last();
    lemma_each_cap_len(init, formats);
    if i < init.len() {
        law_each_cap(init, formats, i);
        assert(init[i] == v[i]);
    }
}

proof fn lemma_each_cap_len(v: Seq<CborValue>, formats: &Formats)
    ensures
        each_cap(v, formats) matches Ok(l) ==> l.len() == v.len(),
    decreases v.len(),
{
    if v.len() > 0 {
        lemma_each_cap_len(v.drop_last(), formats);
    }
}

/// Whose members are told apart: those of the signed-in user's home, and none for one who is not.
/// What is picked keeps its order.
pub proof fn law_members_for(
    username: Seq<char>,
    v: Seq<(Seq<char>, bool)>,
    writable_only: bool,
    paths: Seq<Seq<char>>,
    others: Seq<Seq<char>>,
    inside: bool,
)
    ensures
        members_for(Some(username), v, writable_only) == home_members(username, v, writable_only),
        members_for(None, v, writable_only).len() == 0,
        picked(paths, others, inside) == paths.filter(|p: Seq<char>| others.contains(p) == inside),
    decreases paths.len(),
{
    reveal(Seq::filter);
    if paths.len() > 0 {
        law_members_for(username, v, writable_only, paths.drop_last(), others, inside);
    }
}

/// What is said of a change that cannot be made.
pub proof fn law_membership_refusals(
    r: Result<MembershipChange>,
    username: Option<Seq<char>>,
    paths: Seq<Seq<char>>,
    writable_paths: Seq<Seq<char>>,
    members: Seq<(Seq<char>, bool)>,
)
    requires
        is_membership_change(r, username, paths, writable_paths, members),
    ensures
        paths.len() == 0 ==> fails_protocol(r, "A secret link must contain at least one item!"@),
        paths.len() > 100 ==> fails_protocol(
            r,
            "A secret link can hold at most "@ + decimal(100) + " items, not "@ + decimal(paths.len())
                + ". Share a folder instead."@,
        ),
{
}

} // verus!
