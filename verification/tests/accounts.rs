use peergos_fs::account::{
    check_enrolled, delete_mfa_url, enable_totp_url, endpoint_to_sign, endpoint_url, offered_credential, parse_bool,
    register_key_url, second_factors, totp_text,
};
use peergos_fs::admin::{
    admin_url, approve_url, pending_requests, pending_url, waitlist_url, AllowedSignups, LabelledSignedSpaceRequest, VersionInfo,
};
use peergos_fs::capability::AbsoluteCapability;
use peergos_fs::cbor::CborObject;
use peergos_fs::context::links::{check_own_space, link_capabilities, link_item, link_payload, member_now, remint, single_item, LinkMint};
use peergos_fs::context::quota::{parse_cbor_long, payment_url, quota_url, request_url, usage_url};
use peergos_fs::context::{
    enter_shared, find_deepest, shared_directory, Access, Attempt, LinkMember, LinkProperties, PaymentProperties, Revocation,
    SecretLinkSummary, Share, SpaceRequest, UserContext,
};
use peergos_fs::incoming::update::{
    children_step, nothing_new, CapabilityWithPath, FriendUpdate, ListStep, MirrorLookup, MirrorStep, NewCaps,
};
use peergos_fs::incoming::{group_uid_from_path, CapsInDirectory, ChildElement};
use peergos_fs::login::{
    bats_url, check_password_change, data_for_password_change, known_owner, live_target, login_url, mirror_bat,
    new_login_data, on_first_reply, on_password_change, on_second_reply, opened_entry_points, read_key_hash,
    request_to_sign, serialize_string, set_login_url, signing_key, time_to_sign, AccountData, EntryPoint, EntryPoints,
    LoggedInUser, LoginReply, ScryptParams,
};
use peergos_fs::opaque::{BatWithId, Formats, Kind, Opaque, Refusal};
use peergos_fs::{Error, ProcessedCaps};

fn key(b: u8) -> Opaque {
    Opaque { cbor: CborObject::ByteString(vec![b]) }
}

fn any_format() -> Formats {
    Formats::none_refused()
}

fn cap(b: u8) -> AbsoluteCapability {
    AbsoluteCapability::new(key(1), key(2), vec![b; 32], None, key(3), Some(key(4))).unwrap()
}

fn user() -> LoggedInUser {
    LoggedInUser {
        username: "bob".into(),
        identity: key(1),
        signer: key(2),
        root_key: key(3),
        boxer: None,
        entries: vec![
            EntryPoint { pointer: cap(7), owner_name: "eve".into() },
            EntryPoint { pointer: cap(8), owner_name: "bob".into() },
        ],
        mirror_bat: Some(BatWithId { bat: key(6), id: key(5) }),
    }
}

fn writer_data() -> CborObject {
    let algo = CborObject::map()
        .put("m", CborObject::Long(17))
        .put("c", CborObject::Long(8))
        .put("p", CborObject::Long(1))
        .put("o", CborObject::Long(96))
        .put("s", CborObject::Str("salt".into()))
        .build();
    CborObject::map().put("controller", CborObject::Long(1)).put("algorithm", algo).build()
}

#[test]
fn login_keys_are_derived() {
    let a = ScryptParams::from_writer_data(&writer_data()).unwrap();
    assert_eq!((a.memory_cost, a.cpu_cost, a.parallelism, a.output_bytes), (17, 8, 1, 96));
    assert_eq!(a.salt("bob", "pw").unwrap(), "bobsalt");
    assert_eq!(
        a.salt("bob", "bob"),
        Err(Error::Protocol("Your password cannot be the same as your username!".into()))
    );
    let bytes: Vec<u8> = (0u8..96).collect();
    let (seed, root) = a.split_key(&bytes);
    assert_eq!(seed, (0u8..32).collect::<Vec<_>>());
    assert_eq!(root, (64u8..96).collect::<Vec<_>>());
    assert_eq!(
        ScryptParams::from_writer_data(&CborObject::Null),
        Err(Error::Protocol("No login algorithm specified in user data!".into()))
    );
    let empty = CborObject::map().put("algorithm", CborObject::map().build()).build();
    assert_eq!(ScryptParams::from_writer_data(&empty), Err(Error::Cbor("scrypt missing 'm'".into())));
}

#[test]
fn accounts_are_looked_up() {
    assert_eq!(serialize_string("é"), vec![0, 0, 0, 1, 0xc3, 0xa9]);
    assert_eq!(read_key_hash(&[], &any_format()).unwrap(), None);
    assert_eq!(read_key_hash(&[0], &any_format()).unwrap(), None);
    assert_eq!(read_key_hash(&[1, 0, 0], &any_format()), Err(Error::Protocol("truncated getPublicKey response".into())));
    assert_eq!(read_key_hash(&[1, 0, 0, 0, 2, 5], &any_format()), Err(Error::Protocol("truncated getPublicKey key bytes".into())));
    assert_eq!(read_key_hash(&[1, 0, 0, 0, 1, 5], &any_format()).unwrap(), Some(Opaque { cbor: CborObject::Long(5) }));
    assert_eq!(known_owner("x", None), Err(Error::Protocol("Unknown username: x".into())));
    assert_eq!(live_target(None), Err(Error::Protocol("User has been deleted".into())));
    let d = AccountData::from_block(Some(&writer_data()), &any_format()).unwrap();
    assert_eq!(d.legacy, None);
    assert_eq!(AccountData::from_block(None, &any_format()).map(|_| ()), Err(Error::Protocol("writer data block missing".into())));
    assert_eq!(
        AccountData::from_block(Some(&CborObject::Null), &any_format()).map(|_| ()),
        Err(Error::Cbor("WriterData missing 'controller'".into()))
    );
}

#[test]
fn logins_are_answered() {
    assert_eq!(
        login_url("bob", &[1], &[2], Some(&[3])),
        "peergos/v0/login/getLogin?username=bob&author=01&auth=02&proxy=false&mfa=03"
    );
    let granted = CborObject::map().put("a", CborObject::Boolean(true)).put("r", CborObject::Long(1)).build();
    let asked = CborObject::map().put("a", CborObject::Boolean(false)).put("r", CborObject::Long(2)).build();
    assert_eq!(on_first_reply(&granted, false, &any_format()).unwrap(), LoginReply::Granted(CborObject::Long(1)));
    assert_eq!(on_first_reply(&asked, true, &any_format()).unwrap(), LoginReply::Challenge(CborObject::Long(2)));
    assert_eq!(
        on_first_reply(&asked, false, &any_format()),
        Err(Error::Protocol("Account requires multi-factor authentication".into()))
    );
    assert_eq!(on_first_reply(&CborObject::Null, true, &any_format()), Err(Error::Cbor("LoginResponse missing 'r'".into())));
    assert_eq!(on_second_reply(&granted).unwrap(), CborObject::Long(1));
    assert_eq!(on_second_reply(&asked), Err(Error::Protocol("Multi-factor authentication failed".into())));
    assert_eq!(opened_entry_points(None), Err(Error::Protocol("Incorrect username or password".into())));
}

#[test]
fn entry_points_are_parsed() {
    let e = EntryPoint { pointer: cap(1), owner_name: "bob".into() };
    assert_eq!(EntryPoint::from_cbor(&e.to_cbor(), &any_format()).unwrap(), e);
    let all = CborObject::map()
        .put("e", CborObject::List(vec![e.to_cbor()]))
        .put("i", CborObject::Long(3))
        .build();
    let p = EntryPoints::from_cbor(&all, &any_format()).unwrap();
    assert_eq!(p.entries, vec![e]);
    assert_eq!(p.identity, Some(Opaque { cbor: CborObject::Long(3) }));
    assert_eq!(EntryPoints::from_cbor(&CborObject::Null, &any_format()), Err(Error::Cbor("EntryPoints missing 'e'".into())));
    let bad = CborObject::map().put("e", CborObject::List(vec![CborObject::Null])).build();
    assert_eq!(EntryPoints::from_cbor(&bad, &any_format()), Err(Error::Cbor("EntryPoint missing 'c'".into())));
    assert_eq!(signing_key(true, key(1), None).unwrap(), key(1));
    assert_eq!(signing_key(false, key(1), Some(key(2))).unwrap(), key(2));
    assert_eq!(signing_key(false, key(1), None), Err(Error::Protocol("No identity key in login data".into())));
}

#[test]
fn malformed_login_data_is_refused() {
    let of = |kind: Kind, value: &CborObject| Formats {
        refused: vec![Refusal { kind, value: value.dup(), error: Error::Crypto("malformed".into()) }],
    };
    let all = CborObject::map().put("e", CborObject::List(vec![])).put("i", CborObject::Long(3)).build();
    assert_eq!(
        EntryPoints::from_cbor(&all, &of(Kind::SigningPair, &CborObject::Long(3))),
        Err(Error::Crypto("malformed".into()))
    );
    let asked = CborObject::map().put("a", CborObject::Boolean(false)).put("r", CborObject::Long(2)).build();
    for can_answer in [false, true] {
        assert_eq!(
            on_first_reply(&asked, can_answer, &of(Kind::Challenge, &CborObject::Long(2))),
            Err(Error::Crypto("malformed".into()))
        );
    }
    assert_eq!(
        second_factors(&[0x82, 1, 7], &of(Kind::SecondFactor, &CborObject::Long(7))),
        Err(Error::Crypto("malformed".into()))
    );
    assert_eq!(
        read_key_hash(&[1, 0, 0, 0, 1, 5], &of(Kind::KeyHash, &CborObject::Long(5))),
        Err(Error::Crypto("malformed".into()))
    );
}

#[test]
fn users_have_a_home() {
    let u = user();
    assert_eq!(u.home(), Some(&cap(8)));
    assert_eq!(u.mirror_bat_id(), Some(key(5)));
}

#[test]
fn passwords_are_changed() {
    assert_eq!(check_password_change("a", "a"), Err(Error::Protocol("You must change to a different password.".into())));
    assert!(check_password_change("a", "b").is_ok());
    let legacy = CborObject::map().put("static", CborObject::Null).build();
    assert_eq!(
        data_for_password_change(Some(&legacy), &any_format()).map(|_| ()),
        Err(Error::Protocol("changing the password of a legacy account is not supported".into()))
    );
    assert_eq!(on_password_change(&[0]), Err(Error::Protocol("server rejected the password change".into())));
    assert!(on_password_change(&[1]).is_ok());
    assert_eq!(set_login_url("bob", &[0xab]), "peergos/v0/login/setLogin?username=bob&auth=ab&local=false");
    let d = CborObject::from_bytes(&new_login_data("bob", &CborObject::Null, &key(1))).unwrap();
    assert_eq!(d.text_at("u"), Some("bob".to_string()));
    assert_eq!(bats_url("bob", &[1]), "peergos/v0/bats/getUserBats?username=bob&auth=01");
    assert_eq!(mirror_bat(&CborObject::List(vec![CborObject::Long(1), CborObject::Long(2)])), Some(&CborObject::Long(2)));
    assert_eq!(mirror_bat(&CborObject::Null), None);
    assert_eq!(time_to_sign(5), vec![5]);
    assert_eq!(CborObject::from_bytes(&request_to_sign("p", 3)).unwrap().text_at("p"), Some("p".to_string()));
}

#[test]
fn second_factor_endpoints() {
    assert_eq!(endpoint_url("listMfa", "bob", &[1]), "peergos/v0/login/listMfa?username=bob&auth=01");
    assert_eq!(
        enable_totp_url("bob", &[2], &[1], "123"),
        "peergos/v0/login/enableTotp?username=bob&credid=02&auth=01&code=123"
    );
    assert_eq!(delete_mfa_url("bob", &[2], &[1]), "peergos/v0/login/deleteMfa?username=bob&credid=02&auth=01");
    assert_eq!(
        register_key_url("bob", "k", &[1]),
        "peergos/v0/login/registerWebauthnComplete?username=bob&keyname=k&auth=01"
    );
    let req = CborObject::from_bytes(&endpoint_to_sign("addTotp", 4)).unwrap();
    assert_eq!(req.text_at("p"), Some("peergos/v0/login/addTotp".to_string()));
    assert_eq!(parse_bool(&[0xf5]).unwrap(), true);
    assert_eq!(parse_bool(&[0]), Err(Error::Protocol("expected a boolean response".into())));
    assert_eq!(second_factors(&[0x81, 1], &any_format()).unwrap(), vec![CborObject::Long(1)]);
    assert_eq!(second_factors(&[0], &any_format()), Err(Error::Cbor("listMfa did not return a list".into())));
    assert_eq!(totp_text(b"x".to_vec()).unwrap(), "x");
    assert_eq!(totp_text(vec![0xff]), Err(Error::Protocol("addTotp returned non-UTF8".into())));
}

#[test]
fn admin_endpoints() {
    let r = LabelledSignedSpaceRequest { username: "bob".into(), signed_request: vec![1] };
    assert_eq!(LabelledSignedSpaceRequest::from_cbor(&r.to_cbor()).unwrap(), r);
    let list = CborObject::List(vec![r.to_cbor()]).to_bytes();
    assert_eq!(pending_requests(&list).unwrap(), vec![r]);
    assert_eq!(pending_requests(&[0]), Err(Error::Protocol("expected a CBOR list".into())));
    assert_eq!(
        LabelledSignedSpaceRequest::from_cbor(&CborObject::Null),
        Err(Error::Protocol("missing 'u' in LabelledSignedSpaceRequest".into()))
    );
    let v = CborObject::map().put("v", CborObject::Str("1.2".into())).build();
    assert_eq!(VersionInfo::from_cbor(&v), VersionInfo { version: "1.2".into(), source_version: "".into() });
    assert_eq!(VersionInfo::from_response(&v.to_bytes()).unwrap().version, "1.2");
    let s = CborObject::map().put("f", CborObject::Boolean(true)).build();
    assert_eq!(AllowedSignups::from_response(&s.to_bytes()).unwrap(), AllowedSignups { free: true, paid: false });
    assert_eq!(admin_url("version"), "peergos/v0/admin/version");
    assert_eq!(waitlist_url("e"), "peergos/v0/admin/waitlist?email=e");
    assert_eq!(pending_url("a", "i", &[1]), "peergos/v0/admin/pending?admin=a&instance=i&auth=01");
    assert_eq!(approve_url("a", "i", &[1]), "peergos/v0/admin/approve?admin=a&instance=i&req=01");
}

#[test]
fn quotas_and_payments() {
    let p = PaymentProperties {
        payment_server_url: Some("u".into()),
        client_secret: None,
        error: None,
        free_quota: 1,
        desired_quota: 2,
        annual: true,
        expiry_epoch_secs: Some(3),
        next_charge: 4,
    };
    assert_eq!(PaymentProperties::from_cbor(&p.to_cbor()), p);
    assert_eq!(PaymentProperties::from_response(&p.to_cbor().to_bytes()).unwrap(), p);
    let r = SpaceRequest { username: "bob".into(), bytes: 5, annual: false, utc_millis: 6, payment_proof: Some(vec![1]) };
    assert_eq!(CborObject::from_bytes(&r.serialize()).unwrap().bytes_at("p"), Some(vec![1]));
    assert_eq!(parse_cbor_long(&[5]).unwrap(), 5);
    assert_eq!(parse_cbor_long(&[0xf5]), Err(Error::Protocol("expected a CBOR long response".into())));
    assert_eq!(quota_url("o", &[1]), "peergos/v0/storage/quota?owner=o&auth=01");
    assert_eq!(usage_url("o", true, &[1]), "peergos/v0/storage/usage?owner=o&local=true&auth=01");
    assert_eq!(request_url("o", &[1]), "peergos/v0/storage/request?owner=o&req=01");
    assert_eq!(
        payment_url("o", false, &[1]),
        "peergos/v0/storage/payment-properties?owner=o&new-client-secret=false&auth=01"
    );
}

fn texts(v: &[&str]) -> Vec<String> {
    v.iter().map(|s| s.to_string()).collect()
}

#[test]
fn paths_are_looked_up_in_order() {
    let ctx = UserContext::from_session(user());
    let plan = ctx.get_by_path(&texts(&["eve", "bob"]), "/bob/a/b");
    assert_eq!(
        plan,
        vec![
            Attempt::Root { at: 1, rest: texts(&["a", "b"]) },
            Attempt::Home { rest: texts(&["bob", "a", "b"]) },
            Attempt::Shared { path: texts(&["bob", "a", "b"]) },
        ]
    );
    assert_eq!(ctx.get_by_path(&texts(&["bob"]), "/"), vec![Attempt::Home { rest: vec![] }]);
    assert!(ctx.may_be_shared(&texts(&["eve", "x"])));
    assert!(!ctx.may_be_shared(&texts(&["bob", "x"])));
    let link = UserContext::from_secret_link(vec![cap(1)]).unwrap();
    assert_eq!(link.get_by_path(&texts(&["r"]), "x"), vec![Attempt::Root { at: 0, rest: texts(&["x"]) }]);
    assert!(link.is_secret_link());
    assert_eq!(UserContext::from_secret_link(vec![]), Err(Error::Protocol("Secret link has no capabilities".into())));
    let many = UserContext::from_link_caps(vec![("/bob/a".into(), cap(1)), ("/bob/a/b".into(), cap(2))]);
    assert_eq!(many.get_by_path(&vec![], "/bob/a/b/c"), vec![Attempt::Mount { at: 1, rest: texts(&["c"]) }]);
    assert_eq!(many.get_by_path(&vec![], "/bob"), vec![]);
    assert_eq!(many.link_mount_paths(), texts(&["/bob/a", "/bob/a/b"]));
    assert_eq!(find_deepest(&texts(&["/x", "/x/y", "/x/y"]), &texts(&["x", "y", "z"])), Some((1, 2)));
}

#[test]
fn contexts_know_their_user() {
    let ctx = UserContext::from_session(user());
    assert_eq!(ctx.username(), Some("bob"));
    assert_eq!(ctx.home_cap().unwrap(), Some(&cap(8)));
    assert_eq!(ctx.roots().len(), 2);
    assert_eq!(ctx.roots()[0].home, Some(cap(8)));
    let link = UserContext::from_secret_link(vec![cap(1)]).unwrap();
    assert_eq!(link.require_user().map(|_| ()), Err(Error::Protocol("operation requires a signed-in user".into())));
    assert_eq!(link.home_cap(), Err(Error::Protocol("no home directory in a secret-link context".into())));
    assert_eq!(link.roots()[0].name, None);
    assert_eq!(ctx.home_relative("/bob/a/b").unwrap(), "a/b");
    assert_eq!(ctx.home_relative("bob").unwrap(), "");
    assert_eq!(ctx.home_relative("/eve/a"), Err(Error::Protocol("/eve/a is not in bob's home".into())));
}

#[test]
fn shared_paths_are_entered_at_the_deepest() {
    let shared = vec![
        CapabilityWithPath { path: "/eve/a".into(), cap: cap(1) },
        CapabilityWithPath { path: "/eve/a/b".into(), cap: cap(2) },
    ];
    let e = enter_shared(&shared, &texts(&["eve", "a", "b", "c"])).unwrap();
    assert_eq!((e.at, e.name.as_str()), (1, "b"));
    assert_eq!(e.path, texts(&["eve", "a", "b"]));
    assert_eq!(e.rest, texts(&["c"]));
    assert!(enter_shared(&shared, &texts(&["eve"])).is_none());
}

fn props(label: i64, members: &[(&str, bool)]) -> LinkProperties {
    LinkProperties {
        label,
        link_password: "p".into(),
        user_password: "".into(),
        writable: true,
        max_retrievals: None,
        expiry_epoch_secs: None,
        members: members.iter().map(|(p, w)| LinkMember { path: p.to_string(), writable: *w }).collect(),
        existing: None,
    }
}

#[test]
fn links_know_what_they_hold() {
    let s = SecretLinkSummary::new(props(1, &[("/bob/a", true), ("/eve/b", false)]), "x".into(), "bob");
    assert_eq!(s.paths(), texts(&["a", "/eve/b"]));
    assert_eq!(s.item_count(), 2);
    assert!(s.contains("/a/"));
    let old = SecretLinkSummary::new(props(1, &[]), "x".into(), "bob");
    assert_eq!(old.paths(), texts(&["x"]));
    assert_eq!(old.item_count(), 1);
    assert_eq!(props(1, &[]).lock(), None);
}

#[test]
fn membership_changes_are_planned() {
    let ctx = UserContext::from_session(user());
    let p = props(1, &[("/bob/a", true), ("/bob/b", false)]);
    let c = ctx.set_secret_link_members(&texts(&["/b/", "c"]), &texts(&["c/"]), &p).unwrap();
    assert_eq!(c.paths, texts(&["b", "c"]));
    assert_eq!(c.to_split, texts(&["c"]));
    assert_eq!(c.gone, texts(&["a"]));
    assert_eq!(
        ctx.set_secret_link_members(&vec![], &vec![], &p).map(|_| ()),
        Err(Error::Protocol("A secret link must contain at least one item!".into()))
    );
    let many: Vec<String> = (0..101).map(|i| i.to_string()).collect();
    assert_eq!(
        ctx.set_secret_link_members(&many, &vec![], &p).map(|_| ()),
        Err(Error::Protocol("A secret link can hold at most 100 items, not 101. Share a folder instead.".into()))
    );
    let nobody = UserContext::from_secret_link(vec![cap(1)]).unwrap();
    let c = nobody.set_secret_link_members(&texts(&["/b/", "c"]), &texts(&["c/"]), &p).unwrap();
    assert_eq!((c.to_split, c.gone), (texts(&["c"]), vec![]));
    assert!(nobody.set_secret_link_members(&vec![], &vec![], &p).is_err());
    let s = SecretLinkSummary::new(props(1, &[("/bob/a", true)]), "x".into(), "bob");
    assert_eq!(ctx.add_to_secret_link(&s, "/d", true).unwrap(), (texts(&["a", "d"]), texts(&["a", "d"])));
    assert_eq!(ctx.add_to_secret_link(&s, "/a", true), Err(Error::Protocol("a is already in this link.".into())));
    assert_eq!(ctx.add_to_secret_link(&s, "/", true), Err(Error::Protocol("No file given to add to this link.".into())));
    assert_eq!(ctx.delete_secret_link(&vec![props(1, &[("/bob/a", true)])], "z", 1).unwrap(), texts(&["a", "z"]));
    assert_eq!(single_item("a", true), (texts(&["a"]), texts(&["a"])));
    let minted = props(1, &[("/bob/a", true)]).minted(vec![LinkMember { path: "/bob/b".into(), writable: false }], vec![7]);
    assert_eq!((minted.members[0].path.as_str(), minted.existing.as_deref()), ("/bob/b", Some(&[7u8][..])));
    assert_eq!(minted.dup(), minted);
}

#[test]
fn items_are_found_before_the_user_is_asked_for() {
    let ctx = UserContext::from_session(user());
    let nobody = UserContext::from_secret_link(vec![cap(1)]).unwrap();
    let (dir, file) = (cap(1), cap(2));
    for c in [&ctx, &nobody] {
        assert_eq!(
            c.split_into_own_writing_space("a/b", None, None),
            Err(Error::Protocol("no parent directory for a/b".into()))
        );
        assert_eq!(
            c.split_into_own_writing_space("a/b", Some(&dir), None),
            Err(Error::Protocol("no file at a/b".into()))
        );
    }
    assert_eq!(ctx.split_into_own_writing_space("a/b", Some(&dir), Some(&file)).unwrap(), Some(key(5)));
    let not_signed_in = nobody.require_user().map(|_| ()).unwrap_err();
    assert_eq!(nobody.split_into_own_writing_space("a/b", Some(&dir), Some(&file)), Err(not_signed_in.dup()));
    assert_eq!(nobody.mint_link(texts(&["a"]), vec![]), Err(not_signed_in));
    let mint = ctx.mint_link(texts(&["a"]), vec![]).unwrap();
    assert_eq!((mint.username.as_str(), mint.next().map(|s| s.as_str())), ("bob", Some("a")));
}

#[test]
fn links_are_listed_once() {
    let ctx = UserContext::from_session(user());
    let shares = vec![
        ("".to_string(), vec![("a".to_string(), vec![props(1, &[])])]),
        ("d".to_string(), vec![("b".to_string(), vec![props(1, &[("/bob/a", true)]), props(2, &[])])]),
    ];
    let all = ctx.get_all_secret_links(&shares).unwrap();
    assert_eq!(all.len(), 2);
    assert_eq!(all[0].props.members.len(), 1);
    assert_eq!(all[0].recorded_under, "d/b");
    assert_eq!(all[1].props.label, 2);
}

#[test]
fn links_are_minted() {
    let mut m = LinkMint::start("bob", &key(1), texts(&["a", "b"]), texts(&["b"]));
    assert_eq!(m.next().map(|s| s.as_str()), Some("a"));
    m.on_file(Some(&cap(1))).unwrap();
    m.on_file(Some(&cap(2))).unwrap();
    assert_eq!(m.next(), None);
    let (caps, members) = m.finish();
    assert!(!caps[0].is_writable());
    assert!(caps[1].is_writable());
    assert_eq!(members[1], LinkMember { path: "/bob/b".into(), writable: true });
    assert_eq!(link_item("bob", &key(1), "a", None, false), Err(Error::Protocol("Couldn't retrieve a".into())));
    let ro = cap(1).read_only();
    assert_eq!(link_item("bob", &key(1), "a", Some(&ro), true), Err(Error::Protocol("a is not writable".into())));
    assert!(link_item("bob", &key(9), "a", Some(&ro), false).is_err());
    assert_eq!(check_own_space(&key(1), &key(2), &key(3)).unwrap(), true);
    assert_eq!(check_own_space(&key(1), &key(2), &key(2)).unwrap(), false);
    assert!(check_own_space(&key(1), &key(2), &key(1)).is_err());
    assert_eq!(remint("bob", &props(1, &[]), "/a/").unwrap(), (texts(&["a"]), texts(&["a"])));
    assert_eq!(
        remint("bob", &props(1, &[("/eve/x", true)]), "a"),
        Err(Error::Protocol("/eve/x is not in bob's home".into()))
    );
    assert_eq!(member_now("/bob/a".into(), &ro), LinkMember { path: "/bob/a".into(), writable: false });
}

#[test]
fn links_hold_their_items() {
    assert_eq!(link_payload(&vec![cap(1)]), cap(1).to_cbor());
    assert_eq!(link_payload(&vec![cap(1), cap(2)]), CborObject::List(vec![cap(1).to_cbor(), cap(2).to_cbor()]));
    for caps in [vec![], vec![cap(1)], vec![cap(1), cap(2).read_only()]] {
        assert_eq!(link_capabilities(&link_payload(&caps), &any_format()).unwrap(), caps);
    }
    assert_eq!(link_capabilities(&CborObject::Null, &any_format()), Err(Error::Cbor("cap missing 'o'".into())));
    let list = CborObject::List(vec![cap(1).to_cbor(), CborObject::Null]);
    assert_eq!(link_capabilities(&list, &any_format()), Err(Error::Cbor("cap missing 'o'".into())));
}

#[test]
fn accounts_are_asked_for_what_they_have() {
    let ctx = UserContext::from_session(user());
    assert_eq!(ctx.delete_account().unwrap(), &cap(8));
    assert_eq!(ctx.mirror_on_this_server().unwrap(), BatWithId { bat: key(6), id: key(5) });
    assert_eq!(ctx.get_mirror_bat().unwrap(), Some(BatWithId { bat: key(6), id: key(5) }));
    assert_eq!(ctx.delete_secret_link_from(&texts(&["/a/b/", "c"])).unwrap(), texts(&["a/b", "c"]));
    let bare = UserContext::from_session(LoggedInUser { entries: vec![], mirror_bat: None, ..user() });
    assert_eq!(bare.delete_account(), Err(Error::Protocol("no home directory".into())));
    assert_eq!(bare.get_mirror_bat().unwrap(), None);
    assert_eq!(bare.mirror_on_this_server(), Err(Error::Protocol("You need a mirror bat!".into())));
    let link = UserContext::from_secret_link(vec![cap(1)]).unwrap();
    assert!(link.delete_account().is_err());
    assert!(link.mirror_on_this_server().is_err());
    assert!(link.delete_secret_link_from(&vec![]).is_err());
}

#[test]
fn followers_lose_everything_that_was_shared() {
    let ctx = UserContext::from_session(user());
    let share = |d: &str, c: &str, access: Access| Share { dir_path: d.into(), child: c.into(), access };
    let shares = vec![share("a", "x", Access::Read), share("", "y", Access::Write)];
    let r = ctx.remove_follower("eve", &shares).unwrap();
    assert_eq!(r.len(), 2);
    assert_eq!(r[0], Revocation { share: share("a", "x", Access::Read), revoked: texts(&["eve"]) });
    assert_eq!(r[1].share, shares[1]);
    assert!(UserContext::from_secret_link(vec![cap(1)]).unwrap().remove_follower("eve", &shares).is_err());
    assert_eq!(shared_directory("a", Some(cap(1))).unwrap(), cap(1));
    assert_eq!(shared_directory("a", None), Err(Error::Protocol("shared dir a not found".into())));
}

#[test]
fn shared_directories_are_entered_for_a_listing() {
    assert_eq!(children_step(Some(cap(1)), true, 2), ListStep::Enter(cap(1), 2));
    assert_eq!(children_step(None, true, 2), ListStep::Descend);
    assert_eq!(children_step(None, false, 0), ListStep::Nothing);
    let mut d = CapsInDirectory::new();
    d.add_child("f", cap(1), "eve");
    d.add_child("g", cap(2), "eve");
    assert_eq!(d.named_caps(), vec![("f".to_string(), cap(1)), ("g".to_string(), cap(2))]);
}

#[test]
fn second_factors_are_answered() {
    assert_eq!(check_enrolled(true), Ok(()));
    assert_eq!(check_enrolled(false), Err(Error::Protocol("server rejected the TOTP enrollment code".into())));
    assert_eq!(offered_credential(Some(vec![1]), false).unwrap(), vec![1]);
    assert_eq!(offered_credential(None, false), Err(Error::Protocol("server did not offer a TOTP factor".into())));
    assert_eq!(offered_credential(None, true), Err(Error::Protocol("server did not offer a WebAuthn factor".into())));
}

#[test]
fn incoming_capabilities_are_mirrored() {
    let mut d = CapsInDirectory::new();
    d.add_child("f", cap(1).read_only(), "bob");
    d.add_child("f", cap(1), "eve");
    d.add_child("f", cap(1).read_only(), "eve");
    assert_eq!(d.get_child("f"), Some(cap(1)));
    assert_eq!(CapsInDirectory::from_cbor(&d.to_cbor(), &any_format()).unwrap(), d);
    let e = ChildElement { name: "n".into(), cap: cap(2), sharers: texts(&["a"]) };
    assert_eq!(ChildElement::from_cbor(&e.to_cbor(), &any_format()).unwrap(), e);
    assert_eq!(group_uid_from_path("/bob/shared/.g"), Some(".g".to_string()));
    assert_eq!(group_uid_from_path("/bob/shared/g"), None);
    assert!(nothing_new(true, Some(&None), &None));
    assert!(!nothing_new(false, Some(&None), &None));
}

#[test]
fn friends_are_updated() {
    let shared = |p: &str, b: u8| CapabilityWithPath { path: p.into(), cap: cap(b) };
    let mut u = FriendUpdate::start(ProcessedCaps::new(), vec![], &vec![]);
    u.on_direct(NewCaps::of(vec![shared("/bob/x", 1), shared("/bob/shared/.g", 2)], 10, vec![], 0));
    assert_eq!(u.content.len(), 1);
    assert_eq!(u.group_dirs.len(), 1);
    u.on_group(".g", NewCaps::of(vec![shared("/bob/y", 3)], 4, vec![], 0));
    assert_eq!(u.content.len(), 2);
    assert_eq!(u.updated.read_caps, 2);
    assert_eq!(u.updated.group(".g").read_caps, 1);
    assert_eq!(ProcessedCaps::from_cbor(&u.updated.to_cbor()), u.updated);
}

#[test]
fn mirrors_are_searched() {
    let mut l = MirrorLookup::start(2);
    let dir = cap(1).read_only();
    assert_eq!(l.on_level(Some(dir.dup()), true), MirrorStep::Descend);
    assert_eq!(l.on_level(None, false), MirrorStep::Enter(dir, 1));
    assert_eq!(l.on_entered(None), MirrorStep::NotFound);
    let mut l = MirrorLookup::start(2);
    assert_eq!(l.on_level(Some(cap(1)), true), MirrorStep::Enter(cap(1), 1));
    let mut l = MirrorLookup::start(1);
    assert_eq!(l.on_level(Some(cap(5)), false), MirrorStep::Found(cap(5)));
}
