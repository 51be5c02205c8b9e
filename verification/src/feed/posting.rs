//! Where posts are stored, who may write them, and how comments reach their parents.
use vstd::prelude::*;
use vstd::utf8::*;
use crate::archive::dos_time::{civil_from_days, civil_of};
use crate::capability::AbsoluteCapability;
use crate::cbor::CborObject;
use crate::cbor_codec::{encode, lemma_round_trip, parse, representable};
use crate::error::{fails_cbor, fails_protocol, protocol, Result};
use crate::feed::post::{
    is_post, law_post_round_trip, post_cbor, post_from, refs, with_comments, FileRef, POSTS_DIR, PostView, RefView, SocialPost,
};
use crate::feed::records::{ItemView, SharedItem};
use crate::paths::{has_prefix, slice_chars, starts_with};
use crate::text::{
    append_bytes, bytes_before, chars_of, decimal_i64, decimal_int, find_first, first_place, is_before, join2, join3,
    join4, same_text, text_of,
};
use crate::opaque::Formats;

verus! {

/// The seconds of a day.
pub const DAY_SECONDS: i64 = 86400;

/// Civil year and month (1-12) of a time in seconds since the epoch.
pub fn year_month(epoch_secs: i64) -> (r: (i64, u32))
    ensures
        r.0 == civil_of(epoch_secs as int / 86400).0,
        r.1 == civil_of(epoch_secs as int / 86400).1,
        1 <= r.1 <= 12,
{
    let mut days: i64 = epoch_secs / DAY_SECONDS;
    if epoch_secs % DAY_SECONDS < 0 {
        days -= 1;
    }
    proof {
        assert(days == epoch_secs as int / 86400);
    }
    let (y, m, _) = civil_from_days(days);
    (y, m as u32)
}

/// A path without the slashes that it begins with.
pub open spec fn without_leading(s: Seq<char>) -> Seq<char>
    decreases s.len(),
{
    if s.len() > 0 && s[0] == '/' {
        without_leading(s.skip(1))
    } else {
        s
    }
}

/// The account that a path belongs to: its first component.
pub open spec fn owner_of(path: Seq<char>) -> Seq<char> {
    let p = without_leading(path);
    p.take(first_place(p, '/') as int)
}

/// The account that a path belongs to.
pub fn extract_owner(path: &str) -> (r: String)
    ensures
        r@ == owner_of(path@),
{
    let chars = chars_of(path);
    let mut from: usize = 0;
    proof {
        assert(chars@.skip(0) =~= chars@);
    }
    while from < chars.len() && chars[from] == '/'
        invariant
            from <= chars.len(),
            without_leading(chars@.skip(from as int)) == without_leading(path@),
        decreases chars.len() - from,
    {
        proof {
            assert(chars@.skip(from as int).skip(1) =~= chars@.skip(from as int + 1));
        }
        from = from + 1;
    }
    let rest = slice_chars(&chars, from, chars.len());
    proof {
        assert(rest@ =~= chars@.skip(from as int));
    }
    let n = find_first(rest, '/');
    let first = slice_chars(rest, 0, n);
    proof {
        assert(first@ =~= rest@.take(n as int));
    }
    text_of(first)
}

/// The multihash of content: the code of the hash function and its length, before the
/// hash itself.
pub open spec fn multihash(hash: Seq<u8>) -> Seq<u8> {
    seq![0x12u8, 0x20u8] + hash
}

/// The bare multihash of content that has this sha2-256 hash, as a [`FileRef`] stores it.
pub fn sha256_multihash(hash: &[u8]) -> (r: Vec<u8>)
    requires
        hash.len() == 32,
    ensures
        r@ == multihash(hash@),
{
    let mut out: Vec<u8> = vec![0x12u8, 0x20u8];
    append_bytes(&mut out, hash);
    proof {
        assert(out@ =~= multihash(hash@));
    }
    out
}

/// The directory of the posts of a year and a month, relative to home.
pub open spec fn month_dir(year: int, month: int) -> Seq<char> {
    POSTS_DIR@ + "/"@ + decimal_int(year) + "/"@ + decimal_int(month)
}

/// The directory of the media of a year, relative to home.
pub open spec fn media_dir(year: int) -> Seq<char> {
    POSTS_DIR@ + "/"@ + decimal_int(year) + "/media"@
}

/// The absolute path of a file in a directory relative to home.
pub open spec fn home_path(username: Seq<char>, dir: Seq<char>, name: Seq<char>) -> Seq<char> {
    "/"@ + username + "/"@ + dir + "/"@ + name
}

/// The absolute path of a file in a directory relative to home.
pub fn path_at_home(username: &str, dir: &str, name: &str) -> (r: String)
    ensures
        r@ == home_path(username@, dir@, name@),
{
    let a = join4("/", username, "/", dir);
    join3(a.as_str(), "/", name)
}

/// Where a new post goes.
#[derive(Debug, PartialEq, Eq)]
pub struct PostPlace {
    /// The directory, relative to home.
    pub dir: String,
    pub filename: String,
    /// The absolute path.
    pub path: String,
    pub username: String,
}

/// Where a post of this time goes, under the name that `id` gives it.
pub open spec fn is_post_place(p: PostPlace, username: Seq<char>, post_time: int, id: Seq<char>) -> bool {
    let date = civil_of(post_time / 86400);
    &&& p.dir@ == month_dir(date.0, date.1)
    &&& p.filename@ == id + ".cbor"@
    &&& p.path@ == home_path(username, month_dir(date.0, date.1), id + ".cbor"@)
    &&& p.username@ == username
}

/// Decides where a new post of the signed-in user goes: into the directory of its month,
/// under a fresh `id`. One can only post as oneself.
pub fn place_post(username: Option<&str>, post: &SocialPost, id: &str) -> (r: Result<PostPlace>)
    ensures
        username is None ==> fails_protocol(r, "not signed in"@),
        username matches Some(u) ==> if post@.author != u@ {
            fails_protocol(r, "you can only post as yourself"@)
        } else {
            r is Ok && is_post_place(r->Ok_0, u@, post@.post_time, id@)
        },
{
    match username {
        None => Err(protocol("not signed in")),
        Some(u) => {
            if !same_text(post.author.as_str(), u) {
                return Err(protocol("you can only post as yourself"));
            }
            let (year, month) = year_month(post.post_time);
            let y = decimal_i64(year);
            let m = decimal_i64(month as i64);
            let a = join4(POSTS_DIR, "/", y.as_str(), "/");
            let dir = join2(a.as_str(), m.as_str());
            let filename = join2(id, ".cbor");
            let path = path_at_home(u, dir.as_str(), filename.as_str());
            Ok(PostPlace { dir, filename, path, username: u.to_owned() })
        },
    }
}

/// The feed's item for one's own post, which others get to read.
pub fn own_item(place: &PostPlace, cap: &AbsoluteCapability) -> (r: SharedItem)
    ensures
        r@ == (ItemView {
            cap: cap@.read_only(),
            owner: place.username@,
            sharer: place.username@,
            path: place.path@,
        }),
{
    SharedItem {
        cap: cap.read_only(),
        owner: place.username.clone(),
        sharer: place.username.clone(),
        path: place.path.clone(),
    }
}

/// Decides where media for a post of this time goes: the directory relative to home, and
/// the absolute path.
pub fn place_media(username: Option<&str>, post_time: i64, id: &str) -> (r: Result<(String, String)>)
    ensures
        username is None ==> fails_protocol(r, "not signed in"@),
        username matches Some(u) ==> {
            let dir = media_dir(civil_of(post_time as int / 86400).0);
            r is Ok && r->Ok_0.0@ == dir && r->Ok_0.1@ == home_path(u@, dir, id@)
        },
{
    match username {
        None => Err(protocol("not signed in")),
        Some(u) => {
            let (year, _) = year_month(post_time);
            let y = decimal_i64(year);
            let dir = join4(POSTS_DIR, "/", y.as_str(), "/media");
            let path = path_at_home(u, dir.as_str(), id);
            Ok((dir, path))
        },
    }
}

/// The reference to a file, which others get to read.
pub fn file_reference(path: &str, cap: &AbsoluteCapability, hash: &[u8]) -> (r: FileRef)
    requires
        hash.len() == 32,
    ensures
        r@ == (RefView { path: path@, cap: cap@.read_only(), content_hash: multihash(hash@) }),
{
    FileRef { path: path.to_owned(), cap: cap.read_only(), content_hash: sha256_multihash(hash) }
}

/// The post that a file holds, if it holds one.
pub open spec fn stored_post(bytes: Seq<u8>, formats: &Formats) -> Option<PostView> {
    match parse(bytes) {
        None => None,
        Some((v, c)) => match post_from(v, formats) {
            Ok(p) => Some(p),
            Err(f) => None,
        },
    }
}

/// A post is read back from the file that it was stored in.
pub proof fn law_post_is_read_back(p: PostView, formats: &Formats)
    requires
        is_post(p, formats),
        representable(post_cbor(p)),
    ensures
        stored_post(encode(post_cbor(p)), formats) == Some(p),
{
    lemma_round_trip(post_cbor(p), Seq::empty());
    assert(encode(post_cbor(p)) + Seq::<u8>::empty() =~= encode(post_cbor(p)));
    law_post_round_trip(p, formats);
}

/// The path of the user's own post that a file comments on.
pub open spec fn commented(username: Seq<char>, bytes: Seq<u8>, formats: &Formats) -> Option<Seq<char>> {
    match stored_post(bytes, formats) {
        Some(p) => match p.parent {
            Some(parent) => if has_prefix(parent.path, "/"@ + username + "/"@) {
                Some(parent.path)
            } else {
                None
            },
            None => None,
        },
        None => None,
    }
}

/// The path of the user's own post that a file comments on: none, if it holds no post or
/// one that is no comment on a post of theirs.
pub fn commented_post(username: &str, bytes: &[u8], formats: &Formats) -> (r: Option<String>)
    ensures
        r is Some <==> commented(username@, bytes@, formats) is Some,
        r matches Some(p) ==> commented(username@, bytes@, formats) == Some(p@),
{
    match CborObject::from_bytes(bytes) {
        Err(_) => None,
        Ok(v) => match SocialPost::from_cbor(&v, formats) {
            Err(_) => None,
            Ok(p) => match p.parent {
                None => None,
                Some(parent) => {
                    let mine = join3("/", username, "/");
                    if starts_with(parent.path.as_str(), mine.as_str()) {
                        Some(parent.path)
                    } else {
                        None
                    }
                },
            },
        },
    }
}

/// Comments by the path of the post that they are on.
#[derive(Debug, PartialEq, Eq)]
pub struct CommentGroups {
    pub groups: Vec<(String, Vec<FileRef>)>,
}

/// The contents of groups of comments.
pub open spec fn comment_groups(v: Seq<(String, Vec<FileRef>)>) -> Seq<(Seq<char>, Seq<RefView>)> {
    Seq::new(v.len(), |i: int| (v[i].0@, refs(v[i].1@)))
}

impl View for CommentGroups {
    type V = Seq<(Seq<char>, Seq<RefView>)>;

    open spec fn view(&self) -> Seq<(Seq<char>, Seq<RefView>)> {
        comment_groups(self.groups@)
    }
}

/// The groups with one more comment: last in the group of its post. The groups stand in
/// the order of the paths.
pub open spec fn with_comment(v: Seq<(Seq<char>, Seq<RefView>)>, path: Seq<char>, c: RefView) -> Seq<
    (Seq<char>, Seq<RefView>),
>
    decreases v.len(),
{
    if v.len() == 0 {
        seq![(path, seq![c])]
    } else if v[0].0 == path {
        seq![(path, v[0].1.push(c))] + v.skip(1)
    } else if bytes_before(encode_utf8(path), encode_utf8(v[0].0)) {
        seq![(path, seq![c])] + v
    } else {
        seq![v[0]] + with_comment(v.skip(1), path, c)
    }
}

/// The comments on a post among groups of them.
pub open spec fn comments_on(v: Seq<(Seq<char>, Seq<RefView>)>, path: Seq<char>) -> Seq<RefView>
    decreases v.len(),
{
    if v.len() == 0 {
        Seq::empty()
    } else if v[0].0 == path {
        v[0].1
    } else {
        comments_on(v.skip(1), path)
    }
}

/// No path has two groups.
pub open spec fn one_group_each(v: Seq<(Seq<char>, Seq<RefView>)>) -> bool {
    forall|i: int, j: int| 0 <= i < j < v.len() ==> bytes_before(encode_utf8((#[trigger] v[i]).0), encode_utf8((#[trigger] v[j]).0))
}

impl CommentGroups {
    pub fn new() -> (r: CommentGroups)
        ensures
            r@ == Seq::<(Seq<char>, Seq<RefView>)>::empty(),
    {
        let r = CommentGroups { groups: Vec::new() };
        proof {
            assert(r@ =~= Seq::empty());
        }
        r
    }

    /// Adds a comment on the post at `path`.
    pub fn add(&mut self, path: &str, comment: FileRef)
        ensures
            final(self)@ == with_comment(old(self)@, path@, comment@),
    {
        let ghost start = self@;
        let ghost cv = comment@;
        let mut at: usize = 0;
        proof {
            assert(start.skip(0) =~= start);
            assert(start.take(0) + with_comment(start.skip(0), path@, cv) =~= with_comment(start, path@, cv));
        }
        while at < self.groups.len()
            invariant
                at <= self.groups.len(),
                self@ == start,
                start == old(self)@,
                cv == comment@,
                start.take(at as int) + with_comment(start.skip(at as int), path@, cv) == with_comment(start, path@, cv),
            decreases self.groups.len() - at,
        {
            let ghost rest = start.skip(at as int);
            proof {
                assert(rest[0] == (self.groups[at as int].0@, refs(self.groups[at as int].1@)));
            }
            if same_text(self.groups[at].0.as_str(), path) {
                let (p, mut list) = self.groups.remove(at);
                let ghost lv = refs(list@);
                list.push(comment);
                proof {
                    assert(refs(list@) =~= lv.push(cv));
                }
                self.groups.insert(at, (p, list));
                proof {
                    assert(self@ =~= start.take(at as int) + (seq![(path@, lv.push(cv))] + rest.skip(1)));
                }
                return;
            }
            if is_before(path.as_bytes(), self.groups[at].0.as_str().as_bytes()) {
                let list: Vec<FileRef> = vec![comment];
                proof {
                    assert(refs(list@) =~= seq![cv]);
                }
                self.groups.insert(at, (path.to_owned(), list));
                proof {
                    assert(self@ =~= start.take(at as int) + (seq![(path@, seq![cv])] + rest));
                }
                return;
            }
            proof {
                assert(rest.skip(1) =~= start.skip(at as int + 1));
                assert(start.take(at as int) + (seq![rest[0]] + with_comment(rest.skip(1), path@, cv)) =~= start.take(
                    at as int + 1,
                ) + with_comment(rest.skip(1), path@, cv));
            }
            at = at + 1;
        }
        let list: Vec<FileRef> = vec![comment];
        proof {
            assert(refs(list@) =~= seq![cv]);
            assert(start.skip(at as int) =~= Seq::empty());
        }
        self.groups.push((path.to_owned(), list));
        proof {
            assert(self@ =~= start.take(at as int) + seq![(path@, seq![cv])]);
        }
    }
}

/// Every post keeps one group, in the order of the paths, when a comment is added.
pub proof fn law_groups_stay_in_order(v: Seq<(Seq<char>, Seq<RefView>)>, path: Seq<char>, c: RefView)
    requires
        one_group_each(v),
    ensures
        one_group_each(with_comment(v, path, c)),
        v.len() > 0 ==> with_comment(v, path, c)[0].0 == v[0].0 || with_comment(v, path, c)[0].0 == path,
        with_comment(v, path, c).len() >= 1,
    decreases v.len(),
{
    let w = with_comment(v, path, c);
    let p = encode_utf8(path);
    if v.len() == 0 {
    } else if v[0].0 == path {
        assert forall|i: int, j: int| 0 <= i < j < w.len() implies bytes_before(
            encode_utf8((#[trigger] w[i]).0),
            encode_utf8((#[trigger] w[j]).0),
        ) by {
            assert(w[i].0 == v[i].0 && w[j].0 == v[j].0);
        }
    } else if bytes_before(p, encode_utf8(v[0].0)) {
        assert forall|i: int, j: int| 0 <= i < j < w.len() implies bytes_before(
            encode_utf8((#[trigger] w[i]).0),
            encode_utf8((#[trigger] w[j]).0),
        ) by {
            assert(w[j] == v[j - 1]);
            if i > 0 {
                assert(w[i] == v[i - 1]);
            } else if j > 1 {
                crate::text::lemma_before_transitive(p, encode_utf8(v[0].0), encode_utf8(v[j - 1].0));
            }
        }
    } else {
        let rest = v.skip(1);
        let x = with_comment(rest, path, c);
        assert(one_group_each(rest)) by {
            assert forall|i: int, j: int| 0 <= i < j < rest.len() implies bytes_before(
                encode_utf8((#[trigger] rest[i]).0),
                encode_utf8((#[trigger] rest[j]).0),
            ) by {
                assert(rest[i] == v[i + 1] && rest[j] == v[j + 1]);
            }
        }
        law_groups_stay_in_order(rest, path, c);
        assert(encode_utf8(v[0].0) != p) by {
            if encode_utf8(v[0].0) == p {
                encode_utf8_decode_utf8(v[0].0);
                encode_utf8_decode_utf8(path);
            }
        }
        crate::text::lemma_before_total(p, encode_utf8(v[0].0));
        assert(bytes_before(encode_utf8(v[0].0), encode_utf8(x[0].0))) by {
            if rest.len() > 0 {
                assert(rest[0] == v[1]);
                assert(bytes_before(encode_utf8(v[0].0), encode_utf8(v[1].0)));
            }
        }
        assert forall|i: int, j: int| 0 <= i < j < w.len() implies bytes_before(
            encode_utf8((#[trigger] w[i]).0),
            encode_utf8((#[trigger] w[j]).0),
        ) by {
            assert(w[j] == x[j - 1]);
            if i > 0 {
                assert(w[i] == x[i - 1]);
            } else if j > 1 {
                assert(bytes_before(encode_utf8(x[0].0), encode_utf8(x[j - 1].0)));
                crate::text::lemma_before_transitive(
                    encode_utf8(v[0].0),
                    encode_utf8(x[0].0),
                    encode_utf8(x[j - 1].0),
                );
            }
        }
    }
}

/// A comment that is added comes last among those on its post, and the comments on every
/// other post stay as they were.
pub proof fn law_comment_reaches_its_post(
    v: Seq<(Seq<char>, Seq<RefView>)>,
    path: Seq<char>,
    c: RefView,
    other: Seq<char>,
)
    requires
        one_group_each(v),
    ensures
        comments_on(with_comment(v, path, c), path) == comments_on(v, path).push(c),
        other != path ==> comments_on(with_comment(v, path, c), other) == comments_on(v, other),
    decreases v.len(),
{
    let w = with_comment(v, path, c);
    if v.len() == 0 {
        assert(w.skip(1) =~= Seq::empty());
        assert(comments_on(w.skip(1), other) == Seq::<RefView>::empty());
        assert(Seq::<RefView>::empty().push(c) =~= seq![c]);
    } else if v[0].0 == path {
        assert(w.skip(1) =~= v.skip(1));
    } else if bytes_before(encode_utf8(path), encode_utf8(v[0].0)) {
        assert(w.skip(1) =~= v);
        lemma_not_among(v, path);
        assert(Seq::<RefView>::empty().push(c) =~= seq![c]);
    } else {
        assert(w.skip(1) =~= with_comment(v.skip(1), path, c));
        assert(one_group_each(v.skip(1))) by {
            assert forall|i: int, j: int| 0 <= i < j < v.skip(1).len() implies bytes_before(
                encode_utf8((#[trigger] v.skip(1)[i]).0),
                encode_utf8((#[trigger] v.skip(1)[j]).0),
            ) by {
                assert(v.skip(1)[i] == v[i + 1] && v.skip(1)[j] == v[j + 1]);
            }
        }
        law_comment_reaches_its_post(v.skip(1), path, c, other);
    }
}

proof fn lemma_not_among(v: Seq<(Seq<char>, Seq<RefView>)>, path: Seq<char>)
    requires
        one_group_each(v),
        v.len() > 0,
        bytes_before(encode_utf8(path), encode_utf8(v[0].0)),
    ensures
        comments_on(v, path) == Seq::<RefView>::empty(),
    decreases v.len(),
{
    if v[0].0 == path {
        crate::text::lemma_before_irreflexive(encode_utf8(path));
    }
    if v.len() > 1 {
        let rest = v.skip(1);
        assert(rest[0] == v[1]);
        assert(bytes_before(encode_utf8(v[0].0), encode_utf8(v[1].0)));
        crate::text::lemma_before_transitive(encode_utf8(path), encode_utf8(v[0].0), encode_utf8(v[1].0));
        assert(one_group_each(rest)) by {
            assert forall|i: int, j: int| 0 <= i < j < rest.len() implies bytes_before(
                encode_utf8((#[trigger] rest[i]).0),
                encode_utf8((#[trigger] rest[j]).0),
            ) by {
                assert(rest[i] == v[i + 1] && rest[j] == v[j + 1]);
            }
        }
        lemma_not_among(rest, path);
    } else {
        assert(v.skip(1) =~= Seq::empty());
        assert(comments_on(v.skip(1), path) == Seq::<RefView>::empty());
    }
}

/// The parent post with comments merged in, as it is to be stored: nothing, if the file
/// is no post or has all of them already.
pub fn merge_comments(bytes: &[u8], comments: &Vec<FileRef>, formats: &Formats) -> (r: Result<Option<Vec<u8>>>)
    ensures
        parse(bytes@) is None ==> fails_cbor(r, "invalid cbor"@),
        parse(bytes@) is Some ==> r is Ok && match stored_post(bytes@, formats) {
            None => r->Ok_0 is None,
            Some(p) => {
                let all = with_comments(p.comments, refs(comments@));
                if all.len() == p.comments.len() {
                    r->Ok_0 is None
                } else {
                    r->Ok_0 is Some && r->Ok_0->Some_0@ == encode(post_cbor(PostView { comments: all, ..p }))
                }
            },
        },
{
    match CborObject::from_bytes(bytes) {
        Err(e) => Err(e),
        Ok(v) => match SocialPost::from_cbor(&v, formats) {
            Err(_) => Ok(None),
            Ok(p) => {
                let mut parent = p;
                if parent.add_comments(comments) {
                    Ok(Some(parent.serialize()))
                } else {
                    Ok(None)
                }
            },
        },
    }
}

/// The owner of what stands at an absolute path is its first component.
pub proof fn law_owner_of(owner: Seq<char>, rest: Seq<char>)
    requires
        owner.len() > 0,
        !owner.contains('/'),
        rest.len() == 0 || rest[0] == '/',
    ensures
        owner_of(seq!['/'] + owner + rest) == owner,
        owner_of(owner + rest) == owner,
{
    let t = owner + rest;
    assert(owner[0] != '/') by {
        assert(owner.contains(owner[0]));
    }
    assert(t[0] == owner[0]);
    assert((seq!['/'] + owner + rest).skip(1) =~= t);
    reveal_with_fuel(without_leading, 2);
    assert forall|i: int| 0 <= i < owner.len() implies t[i] != '/' by {
        assert(t[i] == owner[i]);
        assert(owner.contains(owner[i]));
    }
    crate::text::lemma_first_place(t, '/', owner.len() as int);
    assert(t.take(owner.len() as int) =~= owner);
}

/// A post goes into the directory of the month in which it was posted, and its path leads there
/// from the author's home.
pub proof fn law_post_goes_to_its_month(p: PostPlace, username: Seq<char>, y: int, m: int, d: int, of_day: int, id: Seq<char>)
    requires
        crate::archive::dos_time::is_date(y, m, d),
        0 <= of_day < 86_400,
        is_post_place(p, username, 86_400 * crate::archive::dos_time::civil_days(y, m, d) + of_day, id),
    ensures
        p.dir@ == ".posts"@ + "/"@ + decimal_int(y) + "/"@ + decimal_int(m),
        p.filename@ == id + ".cbor"@,
        p.path@ == "/"@ + username + "/"@ + p.dir@ + "/"@ + p.filename@,
        p.username@ == username,
{
    let days = crate::archive::dos_time::civil_days(y, m, d);
    crate::archive::dos_time::law_civil_round_trip(y, m, d);
    vstd::arithmetic::div_mod::lemma_fundamental_div_mod_converse(86_400 * days + of_day, 86_400, days, of_day);
}

/// Where media go, what a path in a home is, and how a hash is labelled: as one of sha2-256, with
/// its length of 32 bytes.
pub proof fn law_places_of_posts(year: int, username: Seq<char>, dir: Seq<char>, name: Seq<char>, hash: Seq<u8>)
    ensures
        media_dir(year) == ".posts"@ + "/"@ + decimal_int(year) + "/media"@,
        home_path(username, dir, name) == "/"@ + username + "/"@ + dir + "/"@ + name,
        multihash(hash).len() == hash.len() + 2,
        multihash(hash)[0] == 0x12,
        multihash(hash)[1] == 0x20,
        multihash(hash).skip(2) == hash,
{
    assert(multihash(hash).skip(2) =~= hash);
}

/// A post counts as a comment for a user if and only if it is on something in their own home.
pub proof fn law_comments_on_own_posts(username: Seq<char>, bytes: Seq<u8>, formats: &Formats)
    ensures
        commented(username, bytes, formats) matches Some(path) ==> has_prefix(path, "/"@ + username + "/"@) && (stored_post(
            bytes,
            formats,
        ) matches Some(p) && p.parent matches Some(r) && r.path == path),
        stored_post(bytes, formats) matches Some(p) ==> p.parent matches Some(r) ==> has_prefix(
            r.path,
            "/"@ + username + "/"@,
        ) ==> commented(username, bytes, formats) == Some(r.path),
        stored_post(bytes, formats) is None ==> commented(username, bytes, formats) is None,
{
}

} // verus!
