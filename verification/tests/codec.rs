use peergos_fs::capability::{stored_password, AbsoluteCapability, EncryptedCapability, SecretLink, SecretLinkTarget};
use peergos_fs::cbor::CborObject;
use peergos_fs::cryptree::node::{CryptreeNode, FromBase, FromParent};
use peergos_fs::cryptree::{pad_block, ChildrenLinks, NamedRelativeCapability, PaddedCipherText, RelativeCapability};
use peergos_fs::hashtree::{ChunkHashList, HashBranch, HashTree, RootHash, TreeBuilder, TreeStep};
use peergos_fs::opaque::{Formats, Kind, Opaque, Refusal};
use peergos_fs::text::{decimal_i64, parse_i64, utf8_text};
use peergos_fs::{Error, FileProperties};

fn key(b: u8) -> Opaque {
    Opaque { cbor: CborObject::ByteString(vec![b]) }
}

fn any_format() -> Formats {
    Formats::none_refused()
}

/// A layer that takes one value of one kind for malformed.
fn refusing(kind: Kind, value: &Opaque) -> Formats {
    Formats { refused: vec![Refusal { kind, value: value.to_cbor(), error: Error::Crypto("malformed".into()) }] }
}

fn malformed() -> Error {
    Error::Crypto("malformed".into())
}

fn cap(b: u8) -> AbsoluteCapability {
    AbsoluteCapability::new(key(1), key(2), vec![b; 32], Some(key(5)), key(3), Some(key(4))).unwrap()
}

#[test]
fn cbor_values_round_trip() {
    let v = CborObject::map()
        .put("bb", CborObject::List(vec![CborObject::Long(-1), CborObject::Boolean(true), CborObject::Null]))
        .put("a", CborObject::MerkleLink(vec![1, 2]))
        .put("c", CborObject::Str("é".into()))
        .build();
    let bytes = v.to_bytes();
    assert_eq!(CborObject::from_bytes(&bytes).unwrap(), v);
    // a map of three; shorter keys come first
    assert_eq!(bytes[..3], [0xa3, 0x61, b'a']);
    let mut more = bytes.clone();
    more.push(0xf6);
    assert_eq!(CborObject::from_bytes_consumed(&more).unwrap(), (v, bytes.len()));
    assert_eq!(CborObject::from_bytes(&bytes[..4]), Err(Error::Cbor("invalid cbor".into())));
}

#[test]
fn cbor_numbers_have_the_shortest_heads() {
    assert_eq!(CborObject::Long(23).to_bytes(), vec![23]);
    assert_eq!(CborObject::Long(24).to_bytes(), vec![24, 24]);
    assert_eq!(CborObject::Long(256).to_bytes(), vec![25, 1, 0]);
    assert_eq!(CborObject::Long(-1).to_bytes(), vec![0x20]);
    assert_eq!(CborObject::from_bytes(&CborObject::Long(i64::MIN).to_bytes()).unwrap(), CborObject::Long(i64::MIN));
}

#[test]
fn capabilities_round_trip() {
    let c = cap(7);
    assert_eq!(AbsoluteCapability::from_cbor(&c.to_cbor(), &any_format()).unwrap(), c);
    assert!(c.is_writable());
    assert!(!c.read_only().is_writable());
    assert_eq!(c.location().map_key, vec![7; 32]);
    assert_eq!(
        AbsoluteCapability::new(key(1), key(2), vec![1], None, key(3), None),
        Err(Error::Protocol("Invalid map key length: 1".into()))
    );
}

#[test]
fn secret_links_round_trip() {
    let link = SecretLink::create("zOwner".into(), &[1, 2, 3, 4], &[0, 1, 61, 62, 4, 5, 6, 7, 8, 9, 10, 255]);
    let text = link.to_link();
    assert!(text.starts_with("secret/zOwner/"), "{text}");
    let read = SecretLink::from_link(&format!("https://peergos.net/{text}?open=true"), Ok(key(1))).unwrap();
    assert_eq!(SecretLink::owner_of(&text).unwrap(), "zOwner");
    assert_eq!((read.owner.as_str(), read.label, read.link_password.as_str()), ("zOwner", link.label, link.link_password.as_str()));
    assert_eq!(
        SecretLink::from_link("secret/a/1", Ok(key(1))),
        Err(Error::Protocol("Invalid secret link: no fragment".into()))
    );
    assert_eq!(SecretLink::from_link("secret/a#x", Ok(key(1))), Err(Error::Protocol("Invalid secret link".into())));
    let no_owner = || Err(Error::Multiformat("no cid".into()));
    assert_eq!(SecretLink::from_link("secret/a/x#p", no_owner()), Err(Error::Multiformat("no cid".into())));
    assert_eq!(SecretLink::from_link("secret/a#p", no_owner()), Err(Error::Protocol("Invalid secret link".into())));
    assert_eq!(
        SecretLink::from_link("secret/a/x#p", Ok(key(1))),
        Err(Error::Protocol("Invalid secret link label".into()))
    );
    assert_eq!(
        SecretLink::from_link("secret/a/0#p", Ok(key(1))),
        Err(Error::Protocol("Link labels must be positive!".into()))
    );
}

#[test]
fn a_link_is_written_as_it_was_read() {
    for text in ["secret/zOwner/7#pass", "/secret/zOwner/7#pass", "https://x.org/a/secret/zOwner/7#pass?theme=dark"] {
        let link = SecretLink::from_link(text, Ok(key(1))).unwrap();
        assert_eq!(link.to_link(), "secret/zOwner/7#pass");
        assert_eq!(SecretLink::from_link(&link.to_link(), Ok(key(1))).unwrap(), link);
    }
}

#[test]
fn malformed_keys_are_refused() {
    let c = cap(7);
    let read = |f: &Formats| AbsoluteCapability::from_cbor(&c.to_cbor(), f);
    assert_eq!(read(&refusing(Kind::KeyHash, &c.owner)), Err(malformed()));
    assert_eq!(read(&refusing(Kind::SymmetricKey, &c.r_base_key)), Err(malformed()));
    assert_eq!(read(&refusing(Kind::CipherText, &c.r_base_key)).unwrap(), c);
    let e = EncryptedCapability { payload: key(3), has_user_password: false };
    assert_eq!(EncryptedCapability::from_cbor(&e.to_cbor(), &refusing(Kind::CipherText, &key(3))), Err(malformed()));
    let sealed = PaddedCipherText { cipher_text: key(4) };
    assert_eq!(PaddedCipherText::from_cbor(&sealed.to_cbor(), &any_format()).unwrap(), sealed);
    assert_eq!(PaddedCipherText::from_cbor(&sealed.to_cbor(), &refusing(Kind::CipherText, &key(4))), Err(malformed()));
    let r = RelativeCapability::subsequent_chunk(vec![4; 32], Some(key(6)), key(1));
    assert_eq!(RelativeCapability::from_cbor(&r.to_cbor(), &refusing(Kind::SymmetricKey, &key(1))), Err(malformed()));
    let node = CryptreeNode::new(true, vec![], PaddedCipherText { cipher_text: key(1) }, sealed, CborObject::Long(3));
    assert_eq!(CryptreeNode::from_cbor(&node.to_cbor(), None, &refusing(Kind::CipherText, &key(4))), Err(malformed()));
}

#[test]
fn locked_links_need_their_password() {
    let link = SecretLink { owner: "o".into(), label: 1, link_password: "abc".into() };
    let (pw, locked) = stored_password(&link, "x");
    let e = EncryptedCapability { payload: key(1), has_user_password: locked };
    assert_eq!(e.password(&link, Some("x")).unwrap(), pw);
    assert!(e.password(&link, None).is_err());
    assert_eq!(EncryptedCapability::from_cbor(&e.to_cbor(), &any_format()).unwrap(), e);
    let open = EncryptedCapability { payload: key(1), has_user_password: false };
    assert_eq!(open.password(&link, None).unwrap(), "abc");
    let t = SecretLinkTarget { cap: open, expiry_epoch_secs: Some(5), max_retrievals: None };
    assert_eq!(t.to_cbor().long_at("expiry"), Some(5));
}

#[test]
fn relative_capabilities_round_trip() {
    let r = RelativeCapability {
        writer: Some(key(8)),
        map_key: vec![3; 32],
        bat: None,
        r_base_key: key(9),
        w_base_key_link: Some(CborObject::Null),
    };
    assert_eq!(RelativeCapability::from_cbor(&r.to_cbor(), &any_format()).unwrap(), r);
    let n = NamedRelativeCapability {
        name: "n".into(),
        cap: r,
        is_dir: Some(true),
        mime_type: Some("m".into()),
        created_epoch: Some(4),
    };
    assert_eq!(NamedRelativeCapability::from_cbor(&n.to_cbor(), &any_format()).unwrap(), n);
    let links = ChildrenLinks::Named(vec![n]);
    assert_eq!(ChildrenLinks::from_cbor(&links.to_cbor(), &any_format()).unwrap(), links);
}

#[test]
fn links_lead_to_their_targets() {
    let parent = cap(1);
    let r = RelativeCapability { writer: None, map_key: vec![3; 32], bat: None, r_base_key: key(9), w_base_key_link: None };
    let a = r.to_absolute(&parent, None).unwrap();
    assert_eq!(a.owner, parent.owner);
    assert_eq!(a.writer, parent.writer);
    assert!(!a.is_writable());
}

#[test]
fn properties_round_trip() {
    let mut p = FileProperties::new_file("f".into(), "text/plain".into(), 5, 99, vec![1; 32], Some(("image/webp".into(), vec![2])));
    p.is_hidden = true;
    assert_eq!(FileProperties::from_cbor(&p.to_cbor()).unwrap(), p);
    let d = FileProperties::new_directory("d".into(), 7);
    assert_eq!(FileProperties::from_cbor(&d.to_cbor()).unwrap(), d);
    assert_eq!(FileProperties::empty_subsequent_chunk().name, ".subsequent-dir-chunk");
}

#[test]
fn nodes_round_trip() {
    let next = RelativeCapability::subsequent_chunk(vec![4; 32], None, key(1));
    let base = FromBase { parent_or_data: key(2), signer: None, next_chunk: next };
    assert_eq!(FromBase::from_cbor(&base.to_cbor(), &any_format()).unwrap(), base);
    let parent = FromParent { parent_link: None, properties: FileProperties::new_directory("d".into(), 7) };
    assert_eq!(FromParent::from_cbor(&parent.to_cbor(), &any_format()).unwrap(), parent);
    let padded = |b: u8| PaddedCipherText { cipher_text: key(b) };
    let node = CryptreeNode::new(true, vec![CborObject::Null], padded(1), padded(2), CborObject::Long(3));
    assert_eq!(CryptreeNode::from_cbor(&node.to_cbor(), None, &any_format()).unwrap(), node);
}

#[test]
fn padding_is_a_multiple_of_the_block() {
    let secret = CborObject::Str("hello".into());
    let padded = pad_block(&secret, 16);
    assert_eq!(padded.len() % 16, 0);
    assert_eq!(CborObject::from_bytes(&padded).unwrap(), secret);
}

fn hash(b: &[u8]) -> Vec<u8> {
    let mut h = vec![0u8; 32];
    for (i, x) in b.iter().enumerate() {
        h[i % 32] = h[i % 32].wrapping_mul(31).wrapping_add(*x);
    }
    h
}

fn tree(hashes: &[Vec<u8>]) -> HashTree {
    let mut b = TreeBuilder::start(hashes).unwrap();
    loop {
        match b.next().unwrap() {
            TreeStep::Root(bytes) => return b.with_root(hash(&bytes)),
            TreeStep::Level(lists) => {
                let hs: Vec<Vec<u8>> = lists.iter().map(|l| hash(l)).collect();
                b = b.with_level(&hs);
            }
        }
    }
}

#[test]
fn hash_trees_have_branches() {
    let one = tree(&[vec![1u8; 32]]);
    assert_eq!(one.level1.len(), 1);
    let b = one.branch(0);
    assert_eq!(b.root_hash, one.root_hash);
    assert_eq!(HashBranch::from_cbor(&b.to_cbor()).unwrap(), b);
    let many: Vec<Vec<u8>> = (0..1025u32).map(|i| vec![(i % 251) as u8; 32]).collect();
    let t = tree(&many);
    assert_eq!(t.level1.len(), 2);
    assert_eq!(t.branch(1024).level1, Some(t.level1[1].dup()));
    assert_eq!(RootHash::from_cbor(&t.root_hash.to_cbor()).unwrap(), t.root_hash);
    let l = ChunkHashList { chunk_hashes: vec![1; 32] };
    assert_eq!(ChunkHashList::from_cbor(&l.to_cbor()).unwrap(), l);
    assert!(TreeBuilder::start(&[]).is_err());
}

#[test]
fn numbers_as_text() {
    assert_eq!(decimal_i64(-120), "-120");
    assert_eq!(parse_i64("-120"), Some(-120));
    assert_eq!(parse_i64("9223372036854775808"), None);
    assert_eq!(parse_i64("x"), None);
    assert_eq!(utf8_text(vec![0xc3, 0xa9]), Some("é".to_string()));
    assert_eq!(utf8_text(vec![0xc3]), None);
}
