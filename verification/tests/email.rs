use peergos_fs::cbor::CborObject;
use peergos_fs::email::bridge::{address_json, all_attachments, extension, new_attachment, outbox_names};
use peergos_fs::email::client::{
    account_path, attachment_source, email_address, email_filename, email_source, is_email_file, load, open_email,
    parse_email_json, pending_path, private_attachment, setup_dirs, LoadStep,
};
use peergos_fs::email::{Attachment, EmailMessage, SourcedAsymmetricCipherText};
use peergos_fs::hex::{to_hex, uuid, uuid_v4};
use peergos_fs::opaque::{Formats, Kind, Opaque, Refusal};
use peergos_fs::Error;

fn any_format() -> Formats {
    Formats::none_refused()
}

#[test]
fn parse_email_json_test() {
    assert_eq!(
        parse_email_json("{ \"email\": \"user@example.com\"}"),
        Some("user@example.com".to_string())
    );
    assert_eq!(parse_email_json("nope"), None);
}

#[test]
fn email_json_needs_a_quoted_value() {
    assert_eq!(parse_email_json("\"email\""), None);
    assert_eq!(parse_email_json("\"email\":"), None);
    assert_eq!(parse_email_json("\"email\": \"open"), None);
}

#[test]
fn client_reads_what_the_bridge_writes() {
    let text = address_json("user@example.com");
    assert_eq!(text, "{ \"email\": \"user@example.com\" }");
    assert_eq!(email_address(Some(text.into_bytes())).unwrap(), Some("user@example.com".to_string()));
    assert_eq!(email_address(None).unwrap(), None);
    assert_eq!(email_address(Some(vec![0xff])), Err(Error::Protocol("email.json not UTF-8".into())));
}

#[test]
fn uuid_v4_format() {
    for seed in [0u8, 0x5a, 0xff] {
        let u = uuid_v4(&[seed; 16]);
        assert_eq!(u.len(), 36);
        assert_eq!(u.chars().nth(14), Some('4')); // version nibble
        assert!(matches!(u.as_bytes()[19], b'8' | b'9' | b'a' | b'b')); // variant bits
    }
}

#[test]
fn hex_and_ids_are_lower_case() {
    assert_eq!(to_hex(&[0x00, 0x9f, 0xAB]), "009fab");
    let b: Vec<u8> = (0u8..16).collect();
    assert_eq!(uuid(&b), "00010203-0405-0607-0809-0a0b0c0d0e0f");
    assert_eq!(uuid_v4(&b), "00010203-0405-4607-8809-0a0b0c0d0e0f");
}

#[test]
fn attachment_round_trip() {
    let a = Attachment::new("test.pdf", 1024, "application/pdf", "uuid-123");
    let cbor = a.to_cbor();
    let decoded = Attachment::from_cbor(&cbor).unwrap();
    assert_eq!(a, decoded);
}

#[test]
fn attachments_that_are_none_are_refused() {
    assert_eq!(Attachment::from_cbor(&CborObject::Null), Err(Error::Cbor("Attachment not a map".into())));
    assert_eq!(
        Attachment::from_cbor(&CborObject::map().build()),
        Err(Error::Cbor("Attachment missing 'f'".into()))
    );
}

#[test]
fn email_message_round_trip() {
    let msg = EmailMessage {
        id: "id-1".into(),
        msg_id: "msgid-1".into(),
        from: "alice@example.com".into(),
        subject: "Hello".into(),
        created: 1700000000,
        to: vec!["bob@example.com".into()],
        cc: vec![],
        bcc: vec![],
        content: "Hi Bob!".into(),
        unread: true,
        star: false,
        attachments: vec![Attachment::new("file.txt", 100, "text/plain", "att-1")],
        ical_event: String::new(),
        replying_to_email: None,
        forwarding_to_email: None,
        send_error: None,
    };
    let cbor = msg.to_cbor();
    let decoded = EmailMessage::from_cbor(&cbor).unwrap();
    assert_eq!(msg, decoded);
}

#[test]
fn email_mime_tag_prefix() {
    let msg = EmailMessage::new("id", "from@x.com", "subj", vec![], "body", 0);
    let bytes = msg.serialize();
    // First two bytes: cbor array(2) + long(18) = [0x82, 0x12]
    assert_eq!(bytes[0], 0x82);
    assert_eq!(bytes[1], 18);
}

#[test]
fn nested_reply_round_trip() {
    let inner = EmailMessage::new("inner", "bob@x.com", "Re: Hi", vec![], "original", 0);
    let outer = EmailMessage {
        replying_to_email: Some(Box::new(inner.dup())),
        ..EmailMessage::new("outer", "alice@x.com", "Re: Re: Hi", vec![], "reply", 0)
    };
    let cbor = outer.to_cbor();
    let decoded = EmailMessage::from_cbor(&cbor).unwrap();
    assert_eq!(decoded.replying_to_email.as_ref().unwrap().id, "inner");
}

#[test]
fn messages_that_are_none_are_refused() {
    let list = |v: Vec<CborObject>| CborObject::List(v);
    let err = |c: &CborObject| EmailMessage::from_cbor(c).unwrap_err();
    assert_eq!(err(&CborObject::Null), Error::Cbor("EmailMessage not a list".into()));
    assert_eq!(err(&list(vec![])), Error::Cbor("EmailMessage missing mime tag".into()));
    assert_eq!(err(&list(vec![CborObject::Long(17)])), Error::Cbor("bad EmailMessage mime tag: 17".into()));
    assert_eq!(err(&list(vec![CborObject::Long(18)])), Error::Cbor("EmailMessage missing body map".into()));
    let body = CborObject::map().put("v", CborObject::Str("2".into())).build();
    assert_eq!(
        err(&list(vec![CborObject::Long(18), body])),
        Error::Cbor("unsupported EmailMessage version: 2".into())
    );
}

#[test]
fn messages_are_changed_in_copies() {
    let msg = EmailMessage::new("id", "me", "subj", vec!["you".into()], "body", 5);
    let sent = msg.prepare("mid".into(), "me@x".into(), 9);
    assert_eq!((sent.msg_id.as_str(), sent.from.as_str(), sent.created), ("mid", "me@x", 9));
    assert_eq!(sent.to, msg.to);
    let failed = sent.with_error("no route");
    assert_eq!(failed.send_error, Some("no route".to_string()));
    let with = failed.with_attachments(vec![Attachment::new("a.txt", 1, "text/plain", "u")]);
    assert_eq!(with.attachments.len(), 1);
    assert_eq!(with.send_error, failed.send_error);
}

#[test]
fn messages_read_back_from_bytes() {
    let msg = EmailMessage::new("id", "me", "subj", vec!["you".into()], "body", 5);
    assert_eq!(open_email(Some(msg.serialize())), Some(msg));
    assert_eq!(open_email(None), None);
    assert_eq!(open_email(Some(vec![0xff])), None);
}

#[test]
fn cbor_round_trip() {
    let key = Opaque { cbor: CborObject::ByteString(vec![1, 2, 3]) };
    let ct = SourcedAsymmetricCipherText::new(key, b"test".to_vec());
    let cbor = ct.to_cbor();
    let decoded = SourcedAsymmetricCipherText::from_cbor(&cbor, &any_format()).unwrap();
    assert_eq!(decoded, ct);
    assert_eq!(decoded.cipher_text, b"test");
}

#[test]
fn envelopes_round_trip() {
    let key = Opaque { cbor: CborObject::ByteString(vec![1, 2, 3]) };
    let e = SourcedAsymmetricCipherText::new(key, vec![9, 9]);
    assert_eq!(SourcedAsymmetricCipherText::from_file(&e.serialize(), &any_format()).unwrap(), e);
    let none = CborObject::map().build();
    assert_eq!(
        SourcedAsymmetricCipherText::from_cbor(&none, &any_format()),
        Err(Error::Cbor("SourcedAsymmetricCipherText missing 'k'".into()))
    );
    let no_text = CborObject::map().put("k", CborObject::Null).build();
    assert_eq!(
        SourcedAsymmetricCipherText::from_cbor(&no_text, &any_format()),
        Err(Error::Cbor("SourcedAsymmetricCipherText missing 'c'".into()))
    );
}

#[test]
fn email_paths() {
    assert_eq!(account_path("inbox"), "default/inbox");
    assert_eq!(setup_dirs().len(), 10);
    assert_eq!(setup_dirs()[9], "default/pending/sent/attachments");
    assert_eq!(email_filename("7"), "7.cbor");
    assert!(is_email_file("7.cbor"));
    assert!(!is_email_file("attachments"));
    assert_eq!(
        attachment_source("inbox", "u1"),
        ("default/pending/inbox/attachments/u1".to_string(), "default/pending/inbox/attachments".to_string())
    );
    assert_eq!(private_attachment("u1"), "default/attachments/u1");
    assert_eq!(email_source("sent"), "default/pending/sent");
    assert_eq!(pending_path(Some("bob")).unwrap(), "/bob/.apps/email/data/default/pending");
    assert_eq!(pending_path(None), Err(Error::Protocol("requires signed-in user".into())));
}

#[test]
fn the_client_is_loaded_or_set_up() {
    let pair = CborObject::List(vec![CborObject::Long(1), CborObject::Long(2)]);
    let file = || Some(pair.to_bytes());
    assert_eq!(load(false, false, None, &any_format()).unwrap(), LoadStep::Initialise);
    assert_eq!(load(true, true, None, &any_format()).unwrap(), LoadStep::Initialise);
    assert_eq!(load(true, true, file(), &any_format()).unwrap(), LoadStep::Load(Opaque { cbor: pair.dup() }));
    assert_eq!(load(true, false, None, &any_format()), Err(Error::Protocol("default email dir missing".into())));
    assert_eq!(load(true, true, Some(vec![0xff]), &any_format()), Err(Error::Cbor("invalid cbor".into())));
    let refused = Refusal { kind: Kind::BoxingPair, value: pair.dup(), error: Error::Crypto("no pair".into()) };
    assert_eq!(load(true, true, file(), &Formats { refused: vec![refused] }), Err(Error::Crypto("no pair".into())));
}

#[test]
fn bridge_sorts_the_outbox() {
    let children = vec![("1.cbor".to_string(), false), ("attachments".to_string(), true)];
    assert_eq!(outbox_names(&children), vec!["1.cbor".to_string()]);
}

#[test]
fn attachments_go_along_with_what_is_forwarded() {
    let a = Attachment::new("a", 1, "t", "ua");
    let b = Attachment::new("b", 1, "t", "ub");
    let inner = EmailMessage::new("i", "f", "s", vec![], "c", 0).with_attachments(vec![b]);
    let mut outer = EmailMessage::new("o", "f", "s", vec![], "c", 0).with_attachments(vec![a]);
    outer.forwarding_to_email = Some(Box::new(inner));
    let all: Vec<String> = all_attachments(&outer).into_iter().map(|x| x.uuid).collect();
    assert_eq!(all, vec!["ua".to_string(), "ub".to_string()]);
}

#[test]
fn received_attachments_keep_their_extension() {
    assert_eq!(extension("a.tar.gz"), "gz");
    assert_eq!(extension("none"), "");
    let a = new_attachment("x.png", 3, "image/png", &[0u8; 16]);
    assert_eq!(a.uuid, "00000000-0000-4000-8000-000000000000.png");
}
