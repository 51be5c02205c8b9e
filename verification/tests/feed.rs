use peergos_fs::capability::AbsoluteCapability;
use peergos_fs::cbor::CborObject;
use peergos_fs::feed::posting::{
    commented_post, extract_owner, file_reference, merge_comments, own_item, place_media, place_post, sha256_multihash,
    year_month, CommentGroups,
};
use peergos_fs::feed::records::{index_of_cbor, index_to_cbor};
use peergos_fs::feed::social::read_index;
use peergos_fs::feed::update::FeedUpdate;
use peergos_fs::feed::{Content, FeedState, FileRef, Resharing, SharedItem, SocialFeed, SocialPost};
use peergos_fs::incoming::update::{dirs_of_cbor, dirs_to_cbor, CapabilityWithPath, NewCaps};
use peergos_fs::opaque::{Formats, Kind, Opaque, Refusal};
use peergos_fs::{Error, ProcessedCaps};

fn key(b: u8) -> Opaque {
    Opaque { cbor: CborObject::ByteString(vec![b]) }
}

fn any_format() -> Formats {
    Formats::none_refused()
}

fn cap(b: u8) -> AbsoluteCapability {
    AbsoluteCapability::new(key(1), key(2), vec![b; 32], None, key(3), Some(key(4))).unwrap()
}

fn item(b: u8) -> SharedItem {
    SharedItem { cap: cap(b), owner: "bob".into(), sharer: "eve".into(), path: format!("/bob/{b}") }
}

fn reference(path: &str) -> FileRef {
    FileRef { path: path.into(), cap: cap(9), content_hash: vec![0x12, 0x20, 1] }
}

#[test]
fn social_post_roundtrip() {
    let post = SocialPost::text("alice", "hello world", Resharing::Friends, 0);
    let reparsed = SocialPost::from_cbor(&post.to_cbor(), &any_format()).unwrap();
    assert_eq!(reparsed, post);
    assert_eq!(reparsed.text_body(), "hello world");
    assert_eq!(reparsed.share_to, Resharing::Friends);
}

#[test]
fn comments_and_versions_round_trip() {
    let mut post = SocialPost::text_comment(reference("/bob/.posts/1"), Resharing::Public, "alice", "me too", 7);
    assert!(post.add_comments(&vec![reference("/c/1"), reference("/c/1"), reference("/c/2")]));
    assert!(!post.add_comments(&vec![reference("/c/2")]));
    assert_eq!(post.comments.len(), 2);
    post.previous_versions.push(SocialPost::create_initial(
        "alice",
        vec![Content::Text("a".into()), Content::Reference(reference("/r")), Content::Text("b".into())],
        Resharing::Author,
        3,
    ));
    assert_eq!(post.previous_versions[0].text_body(), "ab");
    let bytes = post.serialize();
    let read = SocialPost::from_cbor(&CborObject::from_bytes(&bytes).unwrap(), &any_format()).unwrap();
    assert_eq!(read, post);
}

#[test]
fn posts_that_are_none_are_refused() {
    let err = |c: &CborObject| SocialPost::from_cbor(c, &any_format()).unwrap_err();
    assert_eq!(err(&CborObject::Null), Error::Cbor("SocialPost not a list".into()));
    assert_eq!(err(&CborObject::List(vec![])), Error::Cbor("bad SocialPost mime tag".into()));
    assert_eq!(err(&CborObject::List(vec![CborObject::Long(17)])), Error::Cbor("SocialPost missing body map".into()));
    assert_eq!(
        err(&CborObject::List(vec![CborObject::Long(17), CborObject::map().build()])),
        Error::Cbor("post missing 'a'".into())
    );
}

#[test]
fn year_month_epoch() {
    // 2021-01-01T00:00:00Z = 1609459200
    assert_eq!(year_month(1609459200), (2021, 1));
    // 2023-07-15 ~ 1689379200
    assert_eq!(year_month(1689379200), (2023, 7));
    assert_eq!(year_month(0), (1970, 1));
}

#[test]
fn the_second_before_the_epoch_is_in_december() {
    assert_eq!(year_month(-1), (1969, 12));
}

#[test]
fn feed_records_are_read_back() {
    let mut feed = SocialFeed::create(None).unwrap();
    assert!(!feed.has_unseen());
    let files = feed.add_to_feed(None, None, &[item(1), item(2)]).unwrap();
    let files = feed.add_to_feed(Some(&files.data), Some(&files.index), &[item(3)]).unwrap();
    assert_eq!(feed.feed_size(), 3);
    assert!(feed.has_unseen());
    assert_eq!(feed.get_shared(Some(&files.data), Some(&files.index), 1, 9, &any_format()).unwrap(), vec![item(2), item(3)]);
    assert_eq!(feed.get_shared(Some(&files.data), None, 1, 2, &any_format()).unwrap(), vec![item(2)]);
    assert_eq!(feed.get_shared(None, None, 0, 9, &any_format()).unwrap(), vec![]);
    assert_eq!(feed.get_shared(Some(&files.data), Some(&files.index), 3, 9, &any_format()).unwrap(), vec![]);
    feed.set_last_seen_index(3);
    assert_eq!(feed.last_seen_index(), 3);
    let again = SocialFeed::create(Some(&feed.state_bytes())).unwrap();
    assert_eq!(again.state, feed.state);
}

#[test]
fn broken_feeds_are_refused() {
    let mut feed = SocialFeed::create(None).unwrap();
    let files = feed.add_to_feed(None, None, &[item(1)]).unwrap();
    assert_eq!(feed.get_shared(Some(&files.data[..9]), None, 0, 1, &any_format()), Err(Error::Cbor("invalid cbor".into())));
    let other = CborObject::map().build().to_bytes();
    assert_eq!(feed.get_shared(Some(&other), None, 0, 1, &any_format()), Err(Error::Cbor("SharedItem missing 'c'".into())));
    assert_eq!(SocialFeed::create(Some(&[0xff])).map(|_| ()), Err(Error::Cbor("invalid cbor".into())));
}

#[test]
fn feeds_with_malformed_keys_are_refused() {
    let i = item(2);
    let refused = Refusal { kind: Kind::SymmetricKey, value: i.cap.r_base_key.to_cbor(), error: Error::Crypto("bad key".into()) };
    let formats = Formats { refused: vec![refused] };
    assert_eq!(SharedItem::from_cbor(&i.to_cbor(), &formats), Err(Error::Crypto("bad key".into())));
    assert_eq!(SharedItem::from_cbor(&i.to_cbor(), &any_format()).unwrap(), i);
}

#[test]
fn feed_index_round_trip() {
    let v = vec![0u64, 7, 500];
    assert_eq!(index_of_cbor(&index_to_cbor(&v)), v);
    let odd = CborObject::List(vec![CborObject::Long(-3), CborObject::Null, CborObject::Long(4)]);
    assert_eq!(index_of_cbor(&odd), vec![0, 4]);
    assert_eq!(read_index(None).unwrap(), Vec::<u64>::new());
}

#[test]
fn feed_state_round_trip() {
    let mut p = ProcessedCaps::new();
    p.read_caps = 3;
    p.set_group(".g", ProcessedCaps::new());
    let state = FeedState::new().set_friend("bob", p.dup());
    assert_eq!(FeedState::from_cbor(&state.to_cbor()), state);
    assert_eq!(state.friend("bob"), p);
    assert_eq!(state.friend("eve"), ProcessedCaps::new());
}

#[test]
fn posts_go_to_their_month() {
    let post = SocialPost::text("alice", "hi", Resharing::Friends, 1609459200);
    let place = place_post(Some("alice"), &post, "id").unwrap();
    assert_eq!(place.dir, ".posts/2021/1");
    assert_eq!(place.filename, "id.cbor");
    assert_eq!(place.path, "/alice/.posts/2021/1/id.cbor");
    assert_eq!(place_post(None, &post, "id").map(|_| ()), Err(Error::Protocol("not signed in".into())));
    assert_eq!(
        place_post(Some("bob"), &post, "id").map(|_| ()),
        Err(Error::Protocol("you can only post as yourself".into()))
    );
    let it = own_item(&place, &cap(1));
    assert!(!it.cap.is_writable());
    assert_eq!(it.sharer, "alice");
    assert_eq!(
        place_media(Some("alice"), 1609459200, "m").unwrap(),
        (".posts/2021/media".to_string(), "/alice/.posts/2021/media/m".to_string())
    );
}

#[test]
fn references_hold_a_multihash() {
    let h = [5u8; 32];
    let r = file_reference("/a/b", &cap(1), &h);
    assert_eq!(r.content_hash[..3], [0x12, 0x20, 5]);
    assert_eq!(sha256_multihash(&h).len(), 34);
    assert!(!r.cap.is_writable());
}

#[test]
fn comments_reach_their_posts() {
    let parent = SocialPost::text("bob", "first", Resharing::Friends, 1);
    let comment = SocialPost::text_comment(reference("/bob/.posts/1.cbor"), Resharing::Friends, "eve", "nice", 2);
    assert_eq!(commented_post("bob", &comment.serialize(), &any_format()), Some("/bob/.posts/1.cbor".to_string()));
    assert_eq!(commented_post("bo", &comment.serialize(), &any_format()), None);
    assert_eq!(commented_post("bob", &parent.serialize(), &any_format()), None);
    assert_eq!(commented_post("bob", &[0xff], &any_format()), None);
    let merged = merge_comments(&parent.serialize(), &vec![reference("/eve/c")], &any_format()).unwrap().unwrap();
    assert_eq!(merge_comments(&merged, &vec![reference("/eve/c")], &any_format()).unwrap(), None);
    let read = SocialPost::from_cbor(&CborObject::from_bytes(&merged).unwrap(), &any_format()).unwrap();
    assert_eq!(read.comments, vec![reference("/eve/c")]);
    assert_eq!(merge_comments(&[0xff], &vec![], &any_format()), Err(Error::Cbor("invalid cbor".into())));
    assert_eq!(merge_comments(&CborObject::Null.to_bytes(), &vec![], &any_format()).unwrap(), None);
}

#[test]
fn comments_are_grouped_in_order() {
    let mut g = CommentGroups::new();
    g.add("/b", reference("1"));
    g.add("/a", reference("2"));
    g.add("/b", reference("3"));
    let shape: Vec<(String, usize)> = g.groups.iter().map(|(p, v)| (p.clone(), v.len())).collect();
    assert_eq!(shape, vec![("/a".to_string(), 1), ("/b".to_string(), 2)]);
}

#[test]
fn friends_fill_the_feed() {
    assert_eq!(extract_owner("//bob/x"), "bob");
    let shared = |p: &str, b: u8| CapabilityWithPath { path: p.into(), cap: cap(b) };
    let state = FeedState::new();
    let mut u = FeedUpdate::start(&state, "bob", vec![]);
    u.on_direct(NewCaps::of(vec![shared("/bob/x", 1)], 10, vec![shared("/bob/shared/.g", 2)], 20));
    assert_eq!(u.group_dirs.len(), 1);
    assert_eq!(u.group_state(".g").read_cap_bytes, 0);
    u.on_group(".g", NewCaps::of(vec![shared("/carol/y", 3)], 5, vec![], 0));
    let (state, items, dirs) = u.finish(state);
    assert_eq!(items.len(), 2);
    assert_eq!((items[0].owner.as_str(), items[0].sharer.as_str()), ("bob", "bob"));
    assert_eq!((items[1].owner.as_str(), items[1].sharer.as_str()), ("carol", "bob"));
    let p = state.friend("bob");
    assert_eq!((p.read_cap_bytes, p.write_cap_bytes, p.read_caps), (10, 20, 0));
    assert_eq!(p.group(".g").read_cap_bytes, 5);
    let known = dirs_of_cbor(&dirs_to_cbor(&dirs), &any_format()).unwrap();
    assert_eq!(known, dirs);
    let mut u = FeedUpdate::start(&state, "bob", known);
    u.on_direct(NewCaps::of(vec![], 10, vec![], 20));
    assert_eq!(u.group_dirs, vec![(".g".to_string(), cap(2))]);
    assert_eq!(u.group_state(".g").read_cap_bytes, 5);
    u.on_group(".g", NewCaps::of(vec![shared("/bob/z", 4)], 9, vec![], 0));
    let (_, items, dirs) = u.finish(state);
    assert_eq!(items.len(), 1);
    assert_eq!((items[0].path.as_str(), items[0].sharer.as_str(), items[0].owner.as_str()), ("/bob/z", "bob", "bob"));
    assert_eq!(dirs.len(), 1);
}
