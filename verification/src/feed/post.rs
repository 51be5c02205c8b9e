//! Posts and what they refer to.
use vstd::prelude::*;
use crate::capability::{cap_cbor, cap_from, is_readable_cap, law_cap_round_trip, AbsoluteCapability, CapView};
use crate::cbor::{list_or_empty, no_items, items, map_get, map_put, map_put_opt, CborObject, CborValue};
use crate::cbor_codec::encode;
use crate::error::{agrees, cbor_error, error_is, opt, Error, Fault, Result};
use crate::incoming::same_cap;
use crate::text::{copy_bytes, join2, same_bytes, same_text};
use crate::opaque::Formats;

verus! {

broadcast use crate::cbor::group_cbor;

pub const POSTS_DIR: &'static str = ".posts";

/// The tag that leads a serialized post.
pub const CBOR_PEERGOS_POST_INT: i64 = 17;

/// A reference to a file (an attachment, parent post or comment).
#[derive(Debug, PartialEq, Eq)]
pub struct FileRef {
    pub path: String,
    pub cap: AbsoluteCapability,
    /// The content's multihash bytes (a merkle link in cbor).
    pub content_hash: Vec<u8>,
}

/// The content of a [`FileRef`].
pub ghost struct RefView {
    pub path: Seq<char>,
    pub cap: CapView,
    pub content_hash: Seq<u8>,
}

impl View for FileRef {
    type V = RefView;

    open spec fn view(&self) -> RefView {
        RefView { path: self.path@, cap: self.cap@, content_hash: self.content_hash@ }
    }
}

/// The CBOR of a reference.
pub open spec fn ref_cbor(r: RefView) -> CborValue {
    let m = map_put(Seq::empty(), "p"@, CborValue::Str(r.path));
    let m = map_put(m, "c"@, cap_cbor(r.cap));
    CborValue::Mapping(map_put(m, "h"@, CborValue::MerkleLink(r.content_hash)))
}

/// The reference that a value describes.
pub open spec fn ref_from(v: CborValue, formats: &Formats) -> core::result::Result<RefView, Fault> {
    match v.text_at("p"@) {
        None => Err(Fault::Cbor("FileRef missing 'p'"@)),
        Some(path) => match v.get("c"@) {
            None => Err(Fault::Cbor("FileRef missing 'c'"@)),
            Some(c) => match cap_from(c, formats) {
                Err(f) => Err(f),
                Ok(cap) => match v.link_at("h"@) {
                    None => Err(Fault::Cbor("FileRef missing 'h'"@)),
                    Some(content_hash) => Ok(RefView { path, cap, content_hash }),
                },
            },
        },
    }
}

impl FileRef {
    pub fn to_cbor(&self) -> (r: CborObject)
        ensures
            r@ == ref_cbor(self@),
    {
        CborObject::map().put("p", CborObject::Str(self.path.clone())).put("c", self.cap.to_cbor()).put(
            "h",
            CborObject::MerkleLink(copy_bytes(&self.content_hash)),
        ).build()
    }

    pub fn from_cbor(cbor: &CborObject, formats: &Formats) -> (r: Result<FileRef>)
        ensures
            agrees(r, ref_from(cbor@, formats)),
    {
        let path = match cbor.text_at("p") {
            Some(p) => p,
            None => {
                return Err(cbor_error("FileRef missing 'p'"));
            },
        };
        let cap = match cbor.get("c") {
            None => {
                return Err(cbor_error("FileRef missing 'c'"));
            },
            Some(c) => match AbsoluteCapability::from_cbor(c, formats) {
                Ok(cap) => cap,
                Err(e) => {
                    return Err(e);
                },
            },
        };
        match cbor.link_at("h") {
            None => Err(cbor_error("FileRef missing 'h'")),
            Some(content_hash) => Ok(FileRef { path, cap, content_hash }),
        }
    }

    /// A copy of this reference.
    pub fn dup(&self) -> (r: FileRef)
        ensures
            r@ == self@,
    {
        FileRef { path: self.path.clone(), cap: self.cap.dup(), content_hash: copy_bytes(&self.content_hash) }
    }

    /// Whether two references are the same.
    pub fn same(&self, other: &FileRef) -> (r: bool)
        ensures
            r == (self@ == other@),
    {
        self.path == other.path && same_cap(&self.cap, &other.cap) && same_bytes(
            &self.content_hash,
            &other.content_hash,
        )
    }
}

/// The references of a list.
pub open spec fn refs(v: Seq<FileRef>) -> Seq<RefView> {
    Seq::new(v.len(), |i: int| v[i]@)
}

/// A reference that can be read back.
pub open spec fn is_ref(r: RefView, formats: &Formats) -> bool {
    is_readable_cap(r.cap, formats)
}

/// A reference is read back from its CBOR as it was.
pub proof fn law_ref_round_trip(r: RefView, formats: &Formats)
    requires
        is_ref(r, formats),
    ensures
        ref_from(ref_cbor(r), formats) == Ok::<RefView, Fault>(r),
{
    reveal_strlit("p");
    reveal_strlit("c");
    reveal_strlit("h");
    assert("p"@[0] == 'p' && "c"@[0] == 'c' && "h"@[0] == 'h');
    law_cap_round_trip(r.cap, formats);
}

/// A piece of a post's body: inline text or a file reference.
#[derive(Debug, PartialEq, Eq)]
pub enum Content {
    Text(String),
    Reference(FileRef),
}

/// What a [`Content`] says.
pub ghost enum ContentView {
    Text(Seq<char>),
    Reference(RefView),
}

impl View for Content {
    type V = ContentView;

    open spec fn view(&self) -> ContentView {
        match self {
            Content::Text(s) => ContentView::Text(s@),
            Content::Reference(r) => ContentView::Reference(r@),
        }
    }
}

/// The CBOR of a piece of a body.
pub open spec fn content_cbor(c: ContentView) -> CborValue {
    match c {
        ContentView::Text(s) => CborValue::Str(s),
        ContentView::Reference(r) => CborValue::Mapping(
            map_put(map_put(Seq::empty(), "t"@, CborValue::Str("Ref"@)), "r"@, ref_cbor(r)),
        ),
    }
}

/// The type that the map of a piece of a body names.
pub open spec fn content_type(v: CborValue) -> Seq<char> {
    match v.text_at("t"@) {
        Some(t) => t,
        None => Seq::empty(),
    }
}

/// The piece of a body that a value describes.
pub open spec fn content_from(v: CborValue, formats: &Formats) -> core::result::Result<ContentView, Fault> {
    match v {
        CborValue::Str(s) => Ok(ContentView::Text(s)),
        CborValue::Mapping(e) => if content_type(v) != "Ref"@ {
            Err(Fault::Cbor("unknown content type: "@ + content_type(v)))
        } else {
            match v.get("r"@) {
                None => Err(Fault::Cbor("Ref missing 'r'"@)),
                Some(x) => match ref_from(x, formats) {
                    Ok(r) => Ok(ContentView::Reference(r)),
                    Err(f) => Err(f),
                },
            }
        },
        _ => Err(Fault::Cbor("invalid Content cbor"@)),
    }
}

impl Content {
    pub fn to_cbor(&self) -> (r: CborObject)
        ensures
            r@ == content_cbor(self@),
    {
        match self {
            Content::Text(s) => CborObject::Str(s.clone()),
            Content::Reference(r) => CborObject::map().put("t", CborObject::Str("Ref".to_owned())).put(
                "r",
                r.to_cbor(),
            ).build(),
        }
    }

    pub fn from_cbor(cbor: &CborObject, formats: &Formats) -> (r: Result<Content>)
        ensures
            agrees(r, content_from(cbor@, formats)),
    {
        match cbor {
            CborObject::Str(s) => Ok(Content::Text(s.clone())),
            CborObject::Mapping(_) => {
                let t = match cbor.text_at("t") {
                    Some(t) => t,
                    None => String::new(),
                };
                if !same_text(t.as_str(), "Ref") {
                    return Err(Error::Cbor(join2("unknown content type: ", t.as_str())));
                }
                match cbor.get("r") {
                    None => Err(cbor_error("Ref missing 'r'")),
                    Some(c) => match FileRef::from_cbor(c, formats) {
                        Ok(r) => Ok(Content::Reference(r)),
                        Err(e) => Err(e),
                    },
                }
            },
            _ => Err(cbor_error("invalid Content cbor")),
        }
    }

    /// The text, if this is one.
    pub fn inline_text(&self) -> (r: Option<&String>)
        ensures
            r is Some <==> self@ is Text,
            r is Some ==> self@ == ContentView::Text(r->Some_0@),
    {
        match self {
            Content::Text(s) => Some(s),
            Content::Reference(_) => None,
        }
    }

    /// A copy of this piece.
    pub fn dup(&self) -> (r: Content)
        ensures
            r@ == self@,
    {
        match self {
            Content::Text(s) => Content::Text(s.clone()),
            Content::Reference(r) => Content::Reference(r.dup()),
        }
    }
}

/// A piece of a body that can be read back.
pub open spec fn is_content(c: ContentView, formats: &Formats) -> bool {
    c matches ContentView::Reference(r) ==> is_ref(r, formats)
}

/// A piece of a body is read back from its CBOR as it was.
pub proof fn law_content_round_trip(c: ContentView, formats: &Formats)
    requires
        is_content(c, formats),
    ensures
        content_from(content_cbor(c), formats) == Ok::<ContentView, Fault>(c),
{
    reveal_strlit("t");
    reveal_strlit("r");
    assert("t"@[0] == 't' && "r"@[0] == 'r');
    match c {
        ContentView::Reference(r) => {
            law_ref_round_trip(r, formats);
        },
        _ => {},
    }
}

/// The audience a post may be reshared with.
#[derive(Debug, Clone, Copy, PartialEq, Eq, Structural)]
pub enum Resharing {
    Author,
    Friends,
    Followers,
    Public,
}

/// The name of an audience.
pub open spec fn resharing_name(r: Resharing) -> Seq<char> {
    match r {
        Resharing::Author => "Author"@,
        Resharing::Friends => "Friends"@,
        Resharing::Followers => "Followers"@,
        Resharing::Public => "Public"@,
    }
}

/// The audience with this name.
pub open spec fn resharing_from(s: Seq<char>) -> core::result::Result<Resharing, Fault> {
    if s == "Author"@ {
        Ok(Resharing::Author)
    } else if s == "Friends"@ {
        Ok(Resharing::Friends)
    } else if s == "Followers"@ {
        Ok(Resharing::Followers)
    } else if s == "Public"@ {
        Ok(Resharing::Public)
    } else {
        Err(Fault::Cbor("unknown Resharing: "@ + s))
    }
}

impl Resharing {
    /// The name of this audience.
    pub fn name(&self) -> (r: &'static str)
        ensures
            r@ == resharing_name(*self),
    {
        match self {
            Resharing::Author => "Author",
            Resharing::Friends => "Friends",
            Resharing::Followers => "Followers",
            Resharing::Public => "Public",
        }
    }

    /// The audience with this name.
    pub fn from_name(s: &str) -> (r: Result<Resharing>)
        ensures
            match resharing_from(s@) {
                Ok(x) => r == Ok::<Resharing, Error>(x),
                Err(f) => r is Err && error_is(r->Err_0, f),
            },
    {
        if same_text(s, "Author") {
            Ok(Resharing::Author)
        } else if same_text(s, "Friends") {
            Ok(Resharing::Friends)
        } else if same_text(s, "Followers") {
            Ok(Resharing::Followers)
        } else if same_text(s, "Public") {
            Ok(Resharing::Public)
        } else {
            Err(Error::Cbor(join2("unknown Resharing: ", s)))
        }
    }
}

/// An audience is read back from its name.
pub proof fn law_resharing_round_trip(r: Resharing)
    ensures
        resharing_from(resharing_name(r)) == Ok::<Resharing, Fault>(r),
{
    reveal_strlit("Author");
    reveal_strlit("Friends");
    reveal_strlit("Followers");
    reveal_strlit("Public");
    assert("Author"@[0] == 'A' && "Friends"@[1] == 'r' && "Followers"@[1] == 'o' && "Public"@[0] == 'P' && "Friends"@[0]
        == 'F' && "Followers"@[0] == 'F');
}

/// A social post.
#[derive(Debug, PartialEq, Eq)]
pub struct SocialPost {
    pub author: String,
    pub body: Vec<Content>,
    /// Post time in epoch seconds (UTC).
    pub post_time: i64,
    pub share_to: Resharing,
    pub parent: Option<FileRef>,
    pub previous_versions: Vec<SocialPost>,
    pub comments: Vec<FileRef>,
}

/// The content of a [`SocialPost`].
pub ghost struct PostView {
    pub author: Seq<char>,
    pub body: Seq<ContentView>,
    pub post_time: int,
    pub share_to: Resharing,
    pub parent: Option<RefView>,
    pub previous_versions: Seq<PostView>,
    pub comments: Seq<RefView>,
}

/// The contents of a body.
pub open spec fn contents(v: Seq<Content>) -> Seq<ContentView> {
    Seq::new(v.len(), |i: int| v[i]@)
}

impl View for SocialPost {
    type V = PostView;

    open spec fn view(&self) -> PostView {
        self.value()
    }
}

impl SocialPost {
    /// What this post says.
    pub open spec fn value(self) -> PostView
        decreases self,
    {
        PostView {
            author: self.author@,
            body: contents(self.body@),
            post_time: self.post_time as int,
            share_to: self.share_to,
            parent: opt(self.parent),
            previous_versions: Seq::new(
                self.previous_versions.len() as nat,
                |i: int|
                    if 0 <= i < self.previous_versions.len() {
                        self.previous_versions[i].value()
                    } else {
                        arbitrary()
                    },
            ),
            comments: refs(self.comments@),
        }
    }
}

/// The contents of a list of posts.
pub open spec fn posts(v: Seq<SocialPost>) -> Seq<PostView> {
    Seq::new(v.len(), |i: int| v[i]@)
}

/// The versions of a post are the versions of its content.
pub broadcast proof fn lemma_versions_view(p: SocialPost)
    ensures
        (#[trigger] p@).previous_versions == posts(p.previous_versions@),
{
    assert(p@.previous_versions =~= posts(p.previous_versions@));
}

/// The CBOR of a list, if it is not empty.
pub open spec fn some_list(v: Seq<CborValue>) -> Option<CborValue> {
    if v.len() == 0 {
        None
    } else {
        Some(CborValue::List(v))
    }
}

/// The CBOR of references.
pub open spec fn refs_cbor(v: Seq<RefView>) -> Seq<CborValue> {
    Seq::new(v.len(), |i: int| ref_cbor(v[i]))
}

/// The CBOR of a body.
pub open spec fn contents_cbor(v: Seq<ContentView>) -> Seq<CborValue> {
    Seq::new(v.len(), |i: int| content_cbor(v[i]))
}

/// The CBOR of an optional reference.
pub open spec fn opt_ref_cbor(r: Option<RefView>) -> Option<CborValue> {
    match r {
        Some(x) => Some(ref_cbor(x)),
        None => None,
    }
}

/// The CBOR of a post.
pub open spec fn post_cbor(p: PostView) -> CborValue
    decreases p,
{
    let m = map_put(Seq::empty(), "a"@, CborValue::Str(p.author));
    let m = map_put(m, "b"@, CborValue::List(contents_cbor(p.body)));
    let m = map_put(m, "t"@, CborValue::Long(p.post_time));
    let m = map_put(m, "s"@, CborValue::Str(resharing_name(p.share_to)));
    let m = map_put_opt(m, "p"@, opt_ref_cbor(p.parent));
    let m = map_put_opt(m, "v"@, some_list(posts_cbor(p.previous_versions)));
    let m = map_put_opt(m, "d"@, some_list(refs_cbor(p.comments)));
    CborValue::List(seq![CborValue::Long(CBOR_PEERGOS_POST_INT as int), CborValue::Mapping(m)])
}

/// The CBOR of a list of posts.
pub open spec fn posts_cbor(v: Seq<PostView>) -> Seq<CborValue>
    decreases v,
{
    if v.len() == 0 {
        Seq::empty()
    } else {
        posts_cbor(v.drop_last()).push(post_cbor(v.last()))
    }
}

/// The body that a list describes, up to the first piece that is none.
pub open spec fn contents_from(v: Seq<CborValue>, formats: &Formats) -> core::result::Result<Seq<ContentView>, Fault>
    decreases v.len(),
{
    if v.len() == 0 {
        Ok(Seq::empty())
    } else {
        match (contents_from(v.drop_last(), formats), content_from(v.last(), formats)) {
            (Err(f), _) => Err(f),
            (_, Err(f)) => Err(f),
            (Ok(s), Ok(c)) => Ok(s.push(c)),
        }
    }
}

/// The references that a list describes, up to the first that is none.
pub open spec fn refs_from(v: Seq<CborValue>, formats: &Formats) -> core::result::Result<Seq<RefView>, Fault>
    decreases v.len(),
{
    if v.len() == 0 {
        Ok(Seq::empty())
    } else {
        match (refs_from(v.drop_last(), formats), ref_from(v.last(), formats)) {
            (Err(f), _) => Err(f),
            (_, Err(f)) => Err(f),
            (Ok(s), Ok(r)) => Ok(s.push(r)),
        }
    }
}

/// The optional reference under `key`.
pub open spec fn opt_ref_at(v: CborValue, key: Seq<char>, formats: &Formats) -> core::result::Result<Option<RefView>, Fault> {
    match v.get(key) {
        None => Ok(None),
        Some(x) => match ref_from(x, formats) {
            Ok(r) => Ok(Some(r)),
            Err(f) => Err(f),
        },
    }
}

/// The audience that the map of a post names: the author, if it names none.
pub open spec fn audience(m: CborValue) -> core::result::Result<Resharing, Fault> {
    resharing_from(match m.text_at("s"@) {
        Some(s) => s,
        None => "Author"@,
    })
}

/// The post that a value describes.
pub open spec fn post_from(v: CborValue, formats: &Formats) -> core::result::Result<PostView, Fault>
    decreases v,
{
    match v {
        CborValue::List(l) => if l.len() == 0 || l[0] != CborValue::Long(CBOR_PEERGOS_POST_INT as int) {
            Err(Fault::Cbor("bad SocialPost mime tag"@))
        } else if l.len() < 2 {
            Err(Fault::Cbor("SocialPost missing body map"@))
        } else {
            let m = l[1];
            let versions = match m {
                CborValue::Mapping(e) => versions_at(e, formats),
                _ => Ok(Seq::empty()),
            };
            match m.text_at("a"@) {
                None => Err(Fault::Cbor("post missing 'a'"@)),
                Some(author) => match contents_from(list_or_empty(m, "b"@), formats) {
                    Err(f) => Err(f),
                    Ok(body) => match audience(m) {
                        Err(f) => Err(f),
                        Ok(share_to) => match opt_ref_at(m, "p"@, formats) {
                            Err(f) => Err(f),
                            Ok(parent) => match versions {
                                Err(f) => Err(f),
                                Ok(previous_versions) => match refs_from(list_or_empty(m, "d"@), formats) {
                                    Err(f) => Err(f),
                                    Ok(comments) => Ok(
                                        PostView {
                                            author,
                                            body,
                                            post_time: match m.long_at("t"@) {
                                                Some(t) => t,
                                                None => 0,
                                            },
                                            share_to,
                                            parent,
                                            previous_versions,
                                            comments,
                                        },
                                    ),
                                },
                            },
                        },
                    },
                },
            }
        },
        _ => Err(Fault::Cbor("SocialPost not a list"@)),
    }
}

/// The previous versions that the entries of a post's map describe.
pub open spec fn versions_at(e: Seq<(Seq<char>, CborValue)>, formats: &Formats) -> core::result::Result<Seq<PostView>, Fault>
    decreases e,
{
    if e.len() == 0 {
        Ok(Seq::empty())
    } else if e[0].0 == "v"@ {
        match e[0].1 {
            CborValue::List(l) => posts_from(l, formats),
            _ => Ok(Seq::empty()),
        }
    } else {
        versions_at(e.skip(1), formats)
    }
}

/// The posts that a list describes, up to the first that is none.
pub open spec fn posts_from(v: Seq<CborValue>, formats: &Formats) -> core::result::Result<Seq<PostView>, Fault>
    decreases v,
{
    if v.len() == 0 {
        Ok(Seq::empty())
    } else {
        match (posts_from(v.drop_last(), formats), post_from(v.last(), formats)) {
            (Err(f), _) => Err(f),
            (_, Err(f)) => Err(f),
            (Ok(s), Ok(p)) => Ok(s.push(p)),
        }
    }
}

proof fn lemma_versions_at(e: Seq<(Seq<char>, CborValue)>, formats: &Formats)
    ensures
        versions_at(e, formats) == match map_get(e, "v"@) {
            Some(CborValue::List(l)) => posts_from(l, formats),
            _ => Ok(Seq::empty()),
        },
    decreases e.len(),
{
    if e.len() > 0 && e[0].0 != "v"@ {
        lemma_versions_at(e.skip(1), formats);
    }
}

proof fn lemma_contents_fail(v: Seq<CborValue>, n: int, formats: &Formats)
    requires
        0 <= n <= v.len(),
        contents_from(v.take(n), formats) is Err,
    ensures
        contents_from(v, formats) == contents_from(v.take(n), formats),
    decreases v.len(),
{
    if n < v.len() {
        assert(v.drop_last().take(n) =~= v.take(n));
        lemma_contents_fail(v.drop_last(), n, formats);
    } else {
        assert(v.take(n) =~= v);
    }
}

proof fn lemma_refs_fail(v: Seq<CborValue>, n: int, formats: &Formats)
    requires
        0 <= n <= v.len(),
        refs_from(v.take(n), formats) is Err,
    ensures
        refs_from(v, formats) == refs_from(v.take(n), formats),
    decreases v.len(),
{
    if n < v.len() {
        assert(v.drop_last().take(n) =~= v.take(n));
        lemma_refs_fail(v.drop_last(), n, formats);
    } else {
        assert(v.take(n) =~= v);
    }
}

proof fn lemma_posts_fail(v: Seq<CborValue>, n: int, formats: &Formats)
    requires
        0 <= n <= v.len(),
        posts_from(v.take(n), formats) is Err,
    ensures
        posts_from(v, formats) == posts_from(v.take(n), formats),
    decreases v.len(),
{
    if n < v.len() {
        assert(v.drop_last().take(n) =~= v.take(n));
        lemma_posts_fail(v.drop_last(), n, formats);
    } else {
        assert(v.take(n) =~= v);
    }
}

/// The body that a list describes.
fn read_contents(list: &Vec<CborObject>, formats: &Formats) -> (r: Result<Vec<Content>>)
    ensures
        match contents_from(items(list@), formats) {
            Ok(s) => r is Ok && contents(r->Ok_0@) == s,
            Err(f) => r is Err && error_is(r->Err_0, f),
        },
{
    let ghost all = items(list@);
    let mut out: Vec<Content> = Vec::new();
    proof {
        assert(all.take(0) =~= Seq::empty());
        assert(contents(out@) =~= Seq::empty());
    }
    for i in 0..list.len()
        invariant
            all == items(list@),
            contents_from(all.take(i as int), formats) == Ok::<Seq<ContentView>, Fault>(contents(out@)),
    {
        let ghost before = contents(out@);
        proof {
            assert(all.take(i as int + 1).drop_last() =~= all.take(i as int));
            assert(all.take(i as int + 1).last() == list[i as int]@);
        }
        match Content::from_cbor(&list[i], formats) {
            Ok(c) => {
                let ghost cv = c@;
                out.push(c);
                proof {
                    assert(contents(out@) =~= before.push(cv));
                }
            },
            Err(e) => {
                proof {
                    lemma_contents_fail(all, i as int + 1, formats);
                }
                return Err(e);
            },
        }
    }
    proof {
        assert(all.take(all.len() as int) =~= all);
    }
    Ok(out)
}

/// The references that a list describes.
fn read_refs(list: &Vec<CborObject>, formats: &Formats) -> (r: Result<Vec<FileRef>>)
    ensures
        match refs_from(items(list@), formats) {
            Ok(s) => r is Ok && refs(r->Ok_0@) == s,
            Err(f) => r is Err && error_is(r->Err_0, f),
        },
{
    let ghost all = items(list@);
    let mut out: Vec<FileRef> = Vec::new();
    proof {
        assert(all.take(0) =~= Seq::empty());
        assert(refs(out@) =~= Seq::empty());
    }
    for i in 0..list.len()
        invariant
            all == items(list@),
            refs_from(all.take(i as int), formats) == Ok::<Seq<RefView>, Fault>(refs(out@)),
    {
        let ghost before = refs(out@);
        proof {
            assert(all.take(i as int + 1).drop_last() =~= all.take(i as int));
            assert(all.take(i as int + 1).last() == list[i as int]@);
        }
        match FileRef::from_cbor(&list[i], formats) {
            Ok(c) => {
                let ghost cv = c@;
                out.push(c);
                proof {
                    assert(refs(out@) =~= before.push(cv));
                }
            },
            Err(e) => {
                proof {
                    lemma_refs_fail(all, i as int + 1, formats);
                }
                return Err(e);
            },
        }
    }
    proof {
        assert(all.take(all.len() as int) =~= all);
    }
    Ok(out)
}

/// The previous versions that the map of a post describes.
fn read_versions(m: &CborObject, formats: &Formats) -> (r: Result<Vec<SocialPost>>)
    ensures
        match m@ {
            CborValue::Mapping(e) => match versions_at(e, formats) {
                Ok(s) => r is Ok && posts(r->Ok_0@) == s,
                Err(f) => r is Err && error_is(r->Err_0, f),
            },
            _ => r is Ok && posts(r->Ok_0@) == Seq::<PostView>::empty(),
        },
    decreases m,
{
    let mut out: Vec<SocialPost> = Vec::new();
    proof {
        assert(posts(out@) =~= Seq::empty());
        match m@ {
            CborValue::Mapping(e) => {
                lemma_versions_at(e, formats);
            },
            _ => {},
        }
    }
    match m.get("v") {
        Some(c) => match c {
            CborObject::List(l) => {
                let ghost all = items(l@);
                proof {
                    assert(all.take(0) =~= Seq::empty());
                }
                for i in 0..l.len()
                    invariant
                        all == items(l@),
                        *c == CborObject::List(*l),
                        decreases_to!(*m => *c),
                        m@ is Mapping,
                        versions_at(m@->Mapping_0, formats) == posts_from(all, formats),
                        posts_from(all.take(i as int), formats) == Ok::<Seq<PostView>, Fault>(posts(out@)),
                {
                    let ghost before = posts(out@);
                    proof {
                        assert(all.take(i as int + 1).drop_last() =~= all.take(i as int));
                        assert(all.take(i as int + 1).last() == l[i as int]@);
                        assert(*l == c->List_0);
                        assert(decreases_to!(*l => l[i as int]));
                    }
                    match SocialPost::from_cbor(&l[i], formats) {
                        Ok(p) => {
                            let ghost pv = p@;
                            out.push(p);
                            proof {
                                assert(posts(out@) =~= before.push(pv));
                            }
                        },
                        Err(e) => {
                            proof {
                                lemma_posts_fail(all, i as int + 1, formats);
                            }
                            return Err(e);
                        },
                    }
                }
                proof {
                    assert(all.take(all.len() as int) =~= all);
                }
            },
            _ => {},
        },
        None => {},
    }
    Ok(out)
}

/// The comments after these were added: those that are there already do not count.
pub open spec fn with_comments(v: Seq<RefView>, more: Seq<RefView>) -> Seq<RefView>
    decreases more.len(),
{
    if more.len() == 0 {
        v
    } else {
        let w = with_comments(v, more.drop_last());
        if w.contains(more.last()) {
            w
        } else {
            w.push(more.last())
        }
    }
}

/// The text of a body in a row.
pub open spec fn body_text(v: Seq<ContentView>) -> Seq<char>
    decreases v.len(),
{
    if v.len() == 0 {
        Seq::empty()
    } else {
        match v.last() {
            ContentView::Text(s) => body_text(v.drop_last()) + s,
            ContentView::Reference(r) => body_text(v.drop_last()),
        }
    }
}

/// A new post.
pub open spec fn new_post(
    author: Seq<char>,
    body: Seq<ContentView>,
    post_time: int,
    share_to: Resharing,
    parent: Option<RefView>,
) -> PostView {
    PostView {
        author,
        body,
        post_time,
        share_to,
        parent,
        previous_versions: Seq::empty(),
        comments: Seq::empty(),
    }
}

/// A body of one text.
fn text_only(text: &str) -> (r: Vec<Content>)
    ensures
        contents(r@) == seq![ContentView::Text(text@)],
{
    let mut body: Vec<Content> = Vec::new();
    body.push(Content::Text(text.to_owned()));
    proof {
        assert(contents(body@) =~= seq![ContentView::Text(text@)]);
    }
    body
}

impl SocialPost {
    /// A new post.
    fn new(author: String, body: Vec<Content>, post_time: i64, share_to: Resharing, parent: Option<FileRef>) -> (r:
        SocialPost)
        ensures
            r@ == new_post(author@, contents(body@), post_time as int, share_to, opt(parent)),
    {
        broadcast use lemma_versions_view;

        let r = SocialPost {
            author,
            body,
            post_time,
            share_to,
            parent,
            previous_versions: Vec::new(),
            comments: Vec::new(),
        };
        proof {
            assert(r@.previous_versions =~= Seq::empty());
            assert(r@.comments =~= Seq::empty());
        }
        r
    }

    /// A new top-level text post.
    pub fn text(author: &str, text: &str, share_to: Resharing, post_time: i64) -> (r: SocialPost)
        ensures
            r@ == new_post(author@, seq![ContentView::Text(text@)], post_time as int, share_to, None),
    {
        SocialPost::new(author.to_owned(), text_only(text), post_time, share_to, None)
    }

    /// A new top-level post.
    pub fn create_initial(author: &str, body: Vec<Content>, share_to: Resharing, post_time: i64) -> (r: SocialPost)
        ensures
            r@ == new_post(author@, contents(body@), post_time as int, share_to, None),
    {
        SocialPost::new(author.to_owned(), body, post_time, share_to, None)
    }

    /// A comment on `parent`: a post whose `parent` points at the commented-on post and
    /// which inherits its resharing audience.
    pub fn create_comment(
        parent: FileRef,
        from_parent: Resharing,
        author: &str,
        body: Vec<Content>,
        post_time: i64,
    ) -> (r: SocialPost)
        ensures
            r@ == new_post(author@, contents(body@), post_time as int, from_parent, Some(parent@)),
    {
        SocialPost::new(author.to_owned(), body, post_time, from_parent, Some(parent))
    }

    /// A text comment on `parent`.
    pub fn text_comment(parent: FileRef, from_parent: Resharing, author: &str, text: &str, post_time: i64) -> (r:
        SocialPost)
        ensures
            r@ == new_post(
                author@,
                seq![ContentView::Text(text@)],
                post_time as int,
                from_parent,
                Some(parent@),
            ),
    {
        SocialPost::new(author.to_owned(), text_only(text), post_time, from_parent, Some(parent))
    }

    /// Whether a comment is there already.
    fn has_comment(&self, r: &FileRef) -> (b: bool)
        ensures
            b == refs(self.comments@).contains(r@),
    {
        for i in 0..self.comments.len()
            invariant
                forall|k: int| 0 <= k < i ==> (#[trigger] self.comments[k])@ != r@,
        {
            if self.comments[i].same(r) {
                proof {
                    assert(refs(self.comments@)[i as int] == r@);
                }
                return true;
            }
        }
        proof {
            if refs(self.comments@).contains(r@) {
                let k = choose|k: int| 0 <= k < refs(self.comments@).len() && refs(self.comments@)[k] == r@;
                assert(self.comments[k]@ == r@);
            }
        }
        false
    }

    /// Add comment references, ignoring ones already present. Says whether any was new.
    pub fn add_comments(&mut self, more: &Vec<FileRef>) -> (changed: bool)
        ensures
            final(self)@ == (PostView { comments: with_comments(old(self)@.comments, refs(more@)), ..old(self)@ }),
            changed == (with_comments(old(self)@.comments, refs(more@)).len() != old(self)@.comments.len()),
    {
        broadcast use lemma_versions_view;

        let ghost p0 = *self;
        let ghost c0 = refs(self.comments@);
        let ghost mv = refs(more@);
        let mut changed: bool = false;
        proof {
            assert(mv.take(0) =~= Seq::empty());
        }
        for i in 0..more.len()
            invariant
                mv == refs(more@),
                c0 == refs(p0.comments@),
                self.author == p0.author,
                self.body == p0.body,
                self.post_time == p0.post_time,
                self.share_to == p0.share_to,
                self.parent == p0.parent,
                self.previous_versions == p0.previous_versions,
                refs(self.comments@) == with_comments(c0, mv.take(i as int)),
                changed == (self.comments@.len() != c0.len()),
                self.comments@.len() >= c0.len(),
        {
            let ghost before = refs(self.comments@);
            proof {
                assert(mv.take(i as int + 1).drop_last() =~= mv.take(i as int));
                assert(mv.take(i as int + 1).last() == more[i as int]@);
            }
            if !self.has_comment(&more[i]) {
                self.comments.push(more[i].dup());
                changed = true;
                proof {
                    assert(refs(self.comments@) =~= before.push(more[i as int]@));
                }
            }
        }
        proof {
            assert(mv.take(mv.len() as int) =~= mv);
            assert(self@.previous_versions =~= p0@.previous_versions);
        }
        changed
    }

    /// All the text content of this post, concatenated.
    pub fn text_body(&self) -> (r: String)
        ensures
            r@ == body_text(self@.body),
    {
        let ghost v = contents(self.body@);
        let mut out = String::new();
        proof {
            assert(v.take(0) =~= Seq::empty());
        }
        for i in 0..self.body.len()
            invariant
                v == contents(self.body@),
                out@ == body_text(v.take(i as int)),
        {
            proof {
                assert(v.take(i as int + 1).drop_last() =~= v.take(i as int));
                assert(v.take(i as int + 1).last() == self.body[i as int]@);
            }
            match self.body[i].inline_text() {
                Some(s) => {
                    out.append(s.as_str());
                },
                None => {},
            }
        }
        proof {
            assert(v.take(v.len() as int) =~= v);
        }
        out
    }

    #[verifier::rlimit(60)]
    pub fn to_cbor(&self) -> (r: CborObject)
        ensures
            r@ == post_cbor(self@),
        decreases self,
    {
        broadcast use lemma_versions_view;

        let mut body: Vec<CborObject> = Vec::new();
        for i in 0..self.body.len()
            invariant
                body.len() == i,
                forall|k: int| 0 <= k < i ==> (#[trigger] body[k])@ == content_cbor(self.body[k]@),
        {
            body.push(self.body[i].to_cbor());
        }
        let parent = match &self.parent {
            Some(p) => Some(p.to_cbor()),
            None => None,
        };
        let mut versions: Vec<CborObject> = Vec::new();
        let ghost pv = posts(self.previous_versions@);
        proof {
            assert(pv.take(0) =~= Seq::empty());
            assert(items(versions@) =~= Seq::empty());
        }
        for i in 0..self.previous_versions.len()
            invariant
                pv == posts(self.previous_versions@),
                versions.len() == i,
                items(versions@) == posts_cbor(pv.take(i as int)),
        {
            let ghost before = items(versions@);
            proof {
                assert(pv.take(i as int + 1).drop_last() =~= pv.take(i as int));
                assert(pv.take(i as int + 1).last() == self.previous_versions[i as int]@);
                assert(decreases_to!(self.previous_versions => self.previous_versions[i as int]));
            }
            let c = self.previous_versions[i].to_cbor();
            let ghost cv = c@;
            versions.push(c);
            proof {
                assert(items(versions@) =~= before.push(cv));
            }
        }
        let mut comments: Vec<CborObject> = Vec::new();
        for i in 0..self.comments.len()
            invariant
                comments.len() == i,
                forall|k: int| 0 <= k < i ==> (#[trigger] comments[k])@ == ref_cbor(self.comments[k]@),
        {
            comments.push(self.comments[i].to_cbor());
        }
        proof {
            assert(pv.take(pv.len() as int) =~= pv);
            assert(items(body@) =~= contents_cbor(self@.body));
            assert(items(comments@) =~= refs_cbor(self@.comments));
            assert(items(versions@).len() == versions@.len());
        }
        let versions = if versions.len() > 0 { Some(CborObject::List(versions)) } else { None };
        let comments = if comments.len() > 0 { Some(CborObject::List(comments)) } else { None };
        let m = CborObject::map().put("a", CborObject::Str(self.author.clone())).put("b", CborObject::List(body)).put(
            "t",
            CborObject::Long(self.post_time),
        ).put("s", CborObject::Str(self.share_to.name().to_owned())).put_opt("p", parent).put_opt("v", versions).put_opt(
            "d",
            comments,
        ).build();
        let mut list: Vec<CborObject> = Vec::new();
        list.push(CborObject::Long(CBOR_PEERGOS_POST_INT));
        list.push(m);
        proof {
            assert(items(list@) =~= seq![CborValue::Long(CBOR_PEERGOS_POST_INT as int), m@]);
        }
        CborObject::List(list)
    }

    #[verifier::rlimit(60)]
    pub fn from_cbor(cbor: &CborObject, formats: &Formats) -> (r: Result<SocialPost>)
        ensures
            agrees(r, post_from(cbor@, formats)),
        decreases cbor,
    {
        broadcast use lemma_versions_view;

        let list = match cbor {
            CborObject::List(l) => l,
            _ => {
                return Err(cbor_error("SocialPost not a list"));
            },
        };
        let ghost lv = items(list@);
        proof {
            assert(*list == cbor->List_0);
            assert(lv.len() == list@.len());
        }
        if list.len() == 0 {
            return Err(cbor_error("bad SocialPost mime tag"));
        }
        proof {
            assert(lv[0] == list[0]@);
        }
        match list[0].as_long() {
            Some(n) => {
                if n != CBOR_PEERGOS_POST_INT {
                    return Err(cbor_error("bad SocialPost mime tag"));
                }
            },
            None => {
                return Err(cbor_error("bad SocialPost mime tag"));
            },
        }
        if list.len() < 2 {
            return Err(cbor_error("SocialPost missing body map"));
        }
        let m = &list[1];
        proof {
            assert(lv[1] == list[1]@);
            assert(decreases_to!(*list => list[1]));
        }
        let none = no_items();
        let author = match m.text_at("a") {
            Some(a) => a,
            None => {
                return Err(cbor_error("post missing 'a'"));
            },
        };
        let body = match read_contents(
            match m.get("b") {
                Some(CborObject::List(l)) => l,
                _ => &none,
            },
            formats,
        ) {
            Ok(b) => b,
            Err(e) => {
                return Err(e);
            },
        };
        let post_time: i64 = match m.long_at("t") {
            Some(t) => t,
            None => 0,
        };
        let share_name = match m.text_at("s") {
            Some(s) => s,
            None => "Author".to_owned(),
        };
        let share_to = match Resharing::from_name(share_name.as_str()) {
            Ok(s) => s,
            Err(e) => {
                return Err(e);
            },
        };
        let parent = match m.get("p") {
            None => None,
            Some(c) => match FileRef::from_cbor(c, formats) {
                Ok(r) => Some(r),
                Err(e) => {
                    return Err(e);
                },
            },
        };
        let previous_versions = match read_versions(m, formats) {
            Ok(v) => v,
            Err(e) => {
                return Err(e);
            },
        };
        let comments = match read_refs(
            match m.get("d") {
                Some(CborObject::List(l)) => l,
                _ => &none,
            },
            formats,
        ) {
            Ok(c) => c,
            Err(e) => {
                return Err(e);
            },
        };
        let r = SocialPost { author, body, post_time, share_to, parent, previous_versions, comments };
        Ok(r)
    }

    /// The bytes of this post.
    pub fn serialize(&self) -> (r: Vec<u8>)
        ensures
            r@ == encode(post_cbor(self@)),
    {
        self.to_cbor().to_bytes()
    }
}

proof fn lemma_contents_round_trip(v: Seq<ContentView>, formats: &Formats)
    requires
        forall|i: int| 0 <= i < v.len() ==> is_content(#[trigger] v[i], formats),
    ensures
        contents_from(contents_cbor(v), formats) == Ok::<Seq<ContentView>, Fault>(v),
    decreases v.len(),
{
    let c = contents_cbor(v);
    if v.len() > 0 {
        let init = v.drop_last();
        assert forall|i: int| 0 <= i < init.len() implies is_content(#[trigger] init[i], formats) by {
            assert(init[i] == v[i]);
        }
        lemma_contents_round_trip(init, formats);
        assert(c.drop_last() =~= contents_cbor(init));
        assert(is_content(v.last(), formats));
        law_content_round_trip(v.last(), formats);
        assert(init.push(v.last()) =~= v);
    } else {
        assert(contents_from(c, formats) == Ok::<Seq<ContentView>, Fault>(Seq::empty()));
        assert(v =~= Seq::empty());
    }
}

proof fn lemma_refs_round_trip(v: Seq<RefView>, formats: &Formats)
    requires
        forall|i: int| 0 <= i < v.len() ==> is_ref(#[trigger] v[i], formats),
    ensures
        refs_from(refs_cbor(v), formats) == Ok::<Seq<RefView>, Fault>(v),
    decreases v.len(),
{
    let c = refs_cbor(v);
    if v.len() > 0 {
        let init = v.drop_last();
        assert forall|i: int| 0 <= i < init.len() implies is_ref(#[trigger] init[i], formats) by {
            assert(init[i] == v[i]);
        }
        lemma_refs_round_trip(init, formats);
        assert(c.drop_last() =~= refs_cbor(init));
        assert(is_ref(v.last(), formats));
        law_ref_round_trip(v.last(), formats);
        assert(init.push(v.last()) =~= v);
    } else {
        assert(refs_from(c, formats) == Ok::<Seq<RefView>, Fault>(Seq::empty()));
        assert(v =~= Seq::empty());
    }
}

/// A post that can be read back.
pub open spec fn is_post(p: PostView, formats: &Formats) -> bool
    decreases p,
{
    &&& forall|i: int| 0 <= i < p.body.len() ==> is_content(#[trigger] p.body[i], formats)
    &&& p.parent matches Some(r) ==> is_ref(r, formats)
    &&& forall|i: int| 0 <= i < p.comments.len() ==> is_ref(#[trigger] p.comments[i], formats)
    &&& are_posts(p.previous_versions, formats)
}

/// Posts that can be read back.
pub open spec fn are_posts(v: Seq<PostView>, formats: &Formats) -> bool
    decreases v,
{
    v.len() == 0 || (are_posts(v.drop_last(), formats) && is_post(v.last(), formats))
}

proof fn lemma_posts_round_trip(v: Seq<PostView>, formats: &Formats)
    requires
        are_posts(v, formats),
    ensures
        posts_from(posts_cbor(v), formats) == Ok::<Seq<PostView>, Fault>(v),
        posts_cbor(v).len() == v.len(),
    decreases v,
{
    if v.len() > 0 {
        let init = v.drop_last();
        lemma_posts_round_trip(init, formats);
        law_post_round_trip(v.last(), formats);
        assert(posts_cbor(v).drop_last() =~= posts_cbor(init));
        assert(init.push(v.last()) =~= v);
    } else {
        assert(v =~= Seq::empty());
        assert(posts_from(posts_cbor(v), formats) == Ok::<Seq<PostView>, Fault>(Seq::empty()));
    }
}

/// A post is read back from its CBOR as it was, with all its previous versions.
#[verifier::rlimit(40)]
pub proof fn law_post_round_trip(p: PostView, formats: &Formats)
    requires
        is_post(p, formats),
    ensures
        post_from(post_cbor(p), formats) == Ok::<PostView, Fault>(p),
    decreases p,
{
    reveal_strlit("a");
    reveal_strlit("b");
    reveal_strlit("t");
    reveal_strlit("s");
    reveal_strlit("p");
    reveal_strlit("v");
    reveal_strlit("d");
    assert("a"@[0] == 'a' && "b"@[0] == 'b' && "t"@[0] == 't' && "s"@[0] == 's' && "p"@[0] == 'p' && "v"@[0] == 'v'
        && "d"@[0] == 'd');
    lemma_contents_round_trip(p.body, formats);
    lemma_refs_round_trip(p.comments, formats);
    law_resharing_round_trip(p.share_to);
    if p.parent is Some {
        law_ref_round_trip(p.parent->Some_0, formats);
    }
    lemma_posts_round_trip(p.previous_versions, formats);
    let l = post_cbor(p)->List_0;
    let m = l[1];
    lemma_versions_at(m->Mapping_0, formats);
    if p.previous_versions.len() == 0 {
        assert(p.previous_versions =~= Seq::empty());
    }
    if p.comments.len() == 0 {
        assert(p.comments =~= Seq::empty());
        assert(refs_cbor(p.comments) =~= Seq::empty());
    }
    assert(m.text_at("a"@) == Some(p.author));
    assert(list_or_empty(m, "b"@) == contents_cbor(p.body));
    assert(list_or_empty(m, "d"@) =~= refs_cbor(p.comments));
    assert(audience(m) == Ok::<Resharing, Fault>(p.share_to));
    assert(opt_ref_at(m, "p"@, formats) == Ok::<Option<RefView>, Fault>(p.parent));
}

/// Where a reference keeps its parts.
pub proof fn law_ref_fields(r: RefView)
    ensures
        ref_cbor(r).get("p"@) == Some(CborValue::Str(r.path)),
        ref_cbor(r).get("c"@) == Some(cap_cbor(r.cap)),
        ref_cbor(r).get("h"@) == Some(CborValue::MerkleLink(r.content_hash)),
{
    reveal_strlit("p");
    reveal_strlit("c");
    reveal_strlit("h");
    assert("p"@[0] == 'p' && "c"@[0] == 'c' && "h"@[0] == 'h');
}

/// A text of a post is stored as that text, and a reference under its type.
pub proof fn law_content_fields(s: Seq<char>, r: RefView)
    ensures
        content_cbor(ContentView::Text(s)) == CborValue::Str(s),
        content_cbor(ContentView::Reference(r)).get("t"@) == Some(CborValue::Str("Ref"@)),
        content_cbor(ContentView::Reference(r)).get("r"@) == Some(ref_cbor(r)),
{
    reveal_strlit("t");
    reveal_strlit("r");
    assert("t"@[0] == 't' && "r"@[0] == 'r');
}

/// The audiences of a post are told apart by their names.
pub proof fn law_audience_names(r: Resharing)
    ensures
        r == Resharing::Author <==> resharing_name(r) == "Author"@,
        r == Resharing::Friends <==> resharing_name(r) == "Friends"@,
        r == Resharing::Followers <==> resharing_name(r) == "Followers"@,
        r == Resharing::Public <==> resharing_name(r) == "Public"@,
{
    law_resharing_round_trip(r);
    law_resharing_round_trip(Resharing::Author);
    law_resharing_round_trip(Resharing::Friends);
    law_resharing_round_trip(Resharing::Followers);
    law_resharing_round_trip(Resharing::Public);
}

/// Where a post keeps its parts: behind its tag, and what it does not have it leaves out.
pub proof fn law_post_fields(p: PostView)
    ensures
        post_cbor(p) matches CborValue::List(l) && l.len() == 2 && l[0] == CborValue::Long(17) && {
            let m = l[1];
            &&& m.get("a"@) == Some(CborValue::Str(p.author))
            &&& m.get("b"@) == Some(CborValue::List(contents_cbor(p.body)))
            &&& m.get("t"@) == Some(CborValue::Long(p.post_time))
            &&& m.get("s"@) == Some(CborValue::Str(resharing_name(p.share_to)))
            &&& m.get("p"@) == opt_ref_cbor(p.parent)
            &&& p.previous_versions.len() > 0 ==> m.get("v"@) == Some(CborValue::List(posts_cbor(p.previous_versions)))
            &&& p.previous_versions.len() == 0 ==> m.get("v"@) is None
            &&& p.comments.len() > 0 ==> m.get("d"@) == Some(CborValue::List(refs_cbor(p.comments)))
            &&& p.comments.len() == 0 ==> m.get("d"@) is None
        },
{
    reveal_strlit("a");
    reveal_strlit("b");
    reveal_strlit("t");
    reveal_strlit("s");
    reveal_strlit("p");
    reveal_strlit("v");
    reveal_strlit("d");
    assert("a"@[0] == 'a' && "b"@[0] == 'b' && "t"@[0] == 't' && "s"@[0] == 's' && "p"@[0] == 'p' && "v"@[0] == 'v' && "d"@[0] == 'd');
    lemma_posts_cbor_len(p.previous_versions);
}

proof fn lemma_posts_cbor_len(v: Seq<PostView>)
    ensures
        posts_cbor(v).len() == v.len(),
        forall|i: int| 0 <= i < v.len() ==> #[trigger] posts_cbor(v)[i] == post_cbor(v[i]),
    decreases v.len(),
{
    if v.len() > 0 {
        lemma_posts_cbor_len(v.drop_last());
    }
}

/// The lists of a post keep their items in order.
pub proof fn law_post_lists(body: Seq<ContentView>, comments: Seq<RefView>, versions: Seq<PostView>, i: int)
    ensures
        contents_cbor(body).len() == body.len(),
        refs_cbor(comments).len() == comments.len(),
        posts_cbor(versions).len() == versions.len(),
        0 <= i < body.len() ==> contents_cbor(body)[i] == content_cbor(body[i]),
        0 <= i < comments.len() ==> refs_cbor(comments)[i] == ref_cbor(comments[i]),
        0 <= i < versions.len() ==> posts_cbor(versions)[i] == post_cbor(versions[i]),
{
    lemma_posts_cbor_len(versions);
}

/// What is read of a post comes from its fields: without an audience it is its author's alone,
/// and without a time it was posted at 0.
pub proof fn law_post_is_read_field_by_field(v: CborValue, formats: &Formats)
    ensures
        post_from(v, formats) matches Ok(p) ==> (v matches CborValue::List(l) && l.len() >= 2 && l[0] == CborValue::Long(17)
            && {
            let m = l[1];
            &&& m.text_at("a"@) == Some(p.author)
            &&& m.long_at("t"@) matches Some(t) ==> p.post_time == t
            &&& m.long_at("t"@) is None ==> p.post_time == 0
            &&& m.text_at("s"@) is None ==> p.share_to == Resharing::Author
            &&& m.text_at("s"@) matches Some(s) ==> resharing_from(s) == Ok::<Resharing, Fault>(p.share_to)
            &&& m.get("p"@) is None ==> p.parent is None
            &&& m.get("p"@) matches Some(x) ==> p.parent is Some && ref_from(x, formats) == Ok::<RefView, Fault>(
                p.parent->Some_0,
            )
            &&& m.list_at("b"@) is None ==> p.body.len() == 0
            &&& m.list_at("b"@) matches Some(b) ==> contents_from(b, formats) == Ok::<Seq<ContentView>, Fault>(p.body)
            &&& m.list_at("d"@) is None ==> p.comments.len() == 0
            &&& m.list_at("d"@) matches Some(d) ==> refs_from(d, formats) == Ok::<Seq<RefView>, Fault>(p.comments)
        }),
{
}

/// Comments that are added come behind those that were there, each once however often it is added.
pub proof fn law_comments_are_added_once(v: Seq<RefView>, more: Seq<RefView>, r: RefView)
    ensures
        with_comments(v, more).contains(r) <==> v.contains(r) || more.contains(r),
        v.len() <= with_comments(v, more).len(),
        with_comments(v, more).take(v.len() as int) == v,
        v.no_duplicates() ==> with_comments(v, more).no_duplicates(),
        !v.contains(r) ==> with_comments(v, seq![r]) == v.push(r),
    decreases more.len(),
{
    let w = with_comments(v, more);
    reveal_with_fuel(with_comments, 2);
    assert(seq![r].drop_last() =~= Seq::empty());
    if more.len() == 0 {
        assert(w.take(v.len() as int) =~= v);
    } else {
        let init = more.drop_last();
        let last = more.last();
        let u = with_comments(v, init);
        law_comments_are_added_once(v, init, r);
        assert(more =~= init.push(last));
        assert(more.contains(r) <==> init.contains(r) || r == last) by {
            if init.contains(r) {
                let k = choose|k: int| 0 <= k < init.len() && init[k] == r;
                assert(more[k] == r);
            }
            if r == last {
                assert(more[more.len() - 1] == r);
            }
            if more.contains(r) {
                let k = choose|k: int| 0 <= k < more.len() && more[k] == r;
                if k < init.len() {
                    assert(init[k] == r);
                }
            }
        }
        if !u.contains(last) {
            assert(w == u.push(last));
            assert(w.contains(r) <==> u.contains(r) || r == last) by {
                if u.contains(r) {
                    let k = choose|k: int| 0 <= k < u.len() && u[k] == r;
                    assert(w[k] == r);
                }
                if r == last {
                    assert(w[w.len() - 1] == r);
                }
                if w.contains(r) {
                    let k = choose|k: int| 0 <= k < w.len() && w[k] == r;
                    if k < u.len() {
                        assert(u[k] == r);
                    }
                }
            }
            assert(w.take(v.len() as int) =~= u.take(v.len() as int));
            if v.no_duplicates() {
                assert forall|i: int, j: int| 0 <= i < w.len() && 0 <= j < w.len() && i != j implies w[i] != w[j] by {
                    assert(i < u.len() ==> u.contains(u[i]));
                    assert(j < u.len() ==> u.contains(u[j]));
                }
            }
        }
    }
}

/// The text of a post is that of its texts one after the other; references add none.
pub proof fn law_body_text(a: Seq<ContentView>, b: Seq<ContentView>, s: Seq<char>, r: RefView)
    ensures
        body_text(seq![ContentView::Text(s)]) == s,
        body_text(seq![ContentView::Reference(r)]).len() == 0,
        body_text(a + b) == body_text(a) + body_text(b),
    decreases b.len(),
{
    reveal_with_fuel(body_text, 2);
    assert(seq![ContentView::Text(s)].drop_last() =~= Seq::empty());
    assert(seq![ContentView::Reference(r)].drop_last() =~= Seq::empty());
    assert(Seq::<char>::empty() + s =~= s);
    if b.len() == 0 {
        assert(a + b =~= a);
        assert(body_text(a) + body_text(b) =~= body_text(a));
    } else {
        law_body_text(a, b.drop_last(), s, r);
        assert((a + b).drop_last() =~= a + b.drop_last());
        assert(body_text(a + b) =~= body_text(a) + body_text(b));
    }
}

/// A new post has its author, body, time, audience and parent, and nothing before or below it.
pub proof fn law_new_post(
    author: Seq<char>,
    body: Seq<ContentView>,
    post_time: int,
    share_to: Resharing,
    parent: Option<RefView>,
)
    ensures
        ({
            let p = new_post(author, body, post_time, share_to, parent);
            &&& p.author == author
            &&& p.body == body
            &&& p.post_time == post_time
            &&& p.share_to == share_to
            &&& p.parent == parent
            &&& p.previous_versions.len() == 0
            &&& p.comments.len() == 0
        }),
{
}

/// What is said of a post that cannot be read.
pub proof fn law_posts_that_are_refused(v: CborValue, s: Seq<char>, formats: &Formats)
    ensures
        !(v is List) ==> post_from(v, formats) == Err::<PostView, Fault>(Fault::Cbor("SocialPost not a list"@)),
        v matches CborValue::List(l) ==> (l.len() == 0 || l[0] != CborValue::Long(17)) ==> post_from(v, formats) == Err::<
            PostView,
            Fault,
        >(Fault::Cbor("bad SocialPost mime tag"@)),
        v matches CborValue::List(l) ==> l.len() == 1 && l[0] == CborValue::Long(17) ==> post_from(v, formats) == Err::<
            PostView,
            Fault,
        >(Fault::Cbor("SocialPost missing body map"@)),
        v matches CborValue::List(l) ==> l.len() >= 2 && l[0] == CborValue::Long(17) && l[1].text_at("a"@) is None
            ==> post_from(v, formats) == Err::<PostView, Fault>(Fault::Cbor("post missing 'a'"@)),
        v.text_at("p"@) is None ==> ref_from(v, formats) == Err::<RefView, Fault>(Fault::Cbor("FileRef missing 'p'"@)),
        v.text_at("p"@) is Some && v.get("c"@) is None ==> ref_from(v, formats) == Err::<RefView, Fault>(
            Fault::Cbor("FileRef missing 'c'"@),
        ),
        v.link_at("h"@) is None ==> ref_from(v, formats) is Err,
        v is Long || v is ByteString || v is List ==> content_from(v, formats) == Err::<ContentView, Fault>(
            Fault::Cbor("invalid Content cbor"@),
        ),
        s != "Author"@ && s != "Friends"@ && s != "Followers"@ && s != "Public"@ ==> resharing_from(s) == Err::<
            Resharing,
            Fault,
        >(Fault::Cbor("unknown Resharing: "@ + s)),
{
}

/// The parts of a post's lists are read one by one, in their order, and none is passed over.
pub proof fn law_parts_of_posts_are_read(v: Seq<CborValue>, formats: &Formats, i: int)
    requires
        0 <= i < v.len(),
    ensures
        contents_from(v, formats) matches Ok(l) ==> l.len() == v.len() && content_from(v[i], formats) == Ok::<
            ContentView,
            Fault,
        >(l[i]),
        refs_from(v, formats) matches Ok(l) ==> l.len() == v.len() && ref_from(v[i], formats) == Ok::<RefView, Fault>(l[i]),
        content_from(v[i], formats) is Err ==> contents_from(v, formats) is Err,
        ref_from(v[i], formats) is Err ==> refs_from(v, formats) is Err,
    decreases v.len(),
{
    let init = v.drop_last();
    lemma_parts_len(init, formats);
    if i < init.len() {
        law_parts_of_posts_are_read(init, formats, i);
        assert(init[i] == v[i]);
    }
}

proof fn lemma_parts_len(v: Seq<CborValue>, formats: &Formats)
    ensures
        contents_from(v, formats) matches Ok(l) ==> l.len() == v.len(),
        refs_from(v, formats) matches Ok(l) ==> l.len() == v.len(),
    decreases v.len(),
{
    if v.len() > 0 {
        lemma_parts_len(v.drop_last(), formats);
    }
}

} // verus!
