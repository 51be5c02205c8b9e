//! Email messages and attachments.
//!
//! A message is the list `[18, map]`, where 18 is [`CBOR_PEERGOS_EMAIL_INT`].
use vstd::prelude::*;
use crate::cbor::{
    bool_or, bool_or_else, long_or, long_or_zero, opt_text_cbor,
    items, list_or_empty, map_get, map_put, map_put_opt, no_items, text_or, text_or_empty, CborObject, CborValue,
};
use crate::cbor_codec::{encode, lemma_round_trip, parse, representable};
use crate::error::{agrees, cbor_error, cbor_error_of, error_is, opt, Fault, Result};
use crate::incoming::{dup_texts, lemma_texts_round_trip, texts_cbor, texts_from, texts_of_cbor, texts_to_cbor};
use crate::paths::texts;
use crate::text::{decimal_i64, decimal_int, same_text};

verus! {

broadcast use crate::cbor::group_cbor;

/// The mime type tag that leads every serialized email.
pub const CBOR_PEERGOS_EMAIL_INT: i64 = 18;

/// The version of the format.
pub const VERSION_1: &'static str = "1";

/// An email attachment.
#[derive(Debug, PartialEq, Eq)]
pub struct Attachment {
    pub filename: String,
    pub size: i64,
    pub mime_type: String,
    pub uuid: String,
}

/// The content of an [`Attachment`].
pub ghost struct AttachmentView {
    pub filename: Seq<char>,
    pub size: int,
    pub mime_type: Seq<char>,
    pub uuid: Seq<char>,
}

impl View for Attachment {
    type V = AttachmentView;

    open spec fn view(&self) -> AttachmentView {
        AttachmentView { filename: self.filename@, size: self.size as int, mime_type: self.mime_type@, uuid: self.uuid@ }
    }
}

/// The contents of a list of attachments.
pub open spec fn attachments(v: Seq<Attachment>) -> Seq<AttachmentView> {
    Seq::new(v.len(), |i: int| v[i]@)
}

/// The CBOR of an attachment.
pub open spec fn attachment_cbor(a: AttachmentView) -> CborValue {
    let m = map_put(Seq::empty(), "f"@, CborValue::Str(a.filename));
    let m = map_put(m, "s"@, CborValue::Long(a.size));
    let m = map_put(m, "t"@, CborValue::Str(a.mime_type));
    CborValue::Mapping(map_put(m, "u"@, CborValue::Str(a.uuid)))
}

/// The attachment that a value describes.
pub open spec fn attachment_from(v: CborValue) -> core::result::Result<AttachmentView, Fault> {
    if !(v is Mapping) {
        Err(Fault::Cbor("Attachment not a map"@))
    } else {
        match v.text_at("f"@) {
            None => Err(Fault::Cbor("Attachment missing 'f'"@)),
            Some(filename) => Ok(
                AttachmentView {
                    filename,
                    size: long_or_zero(v, "s"@),
                    mime_type: text_or_empty(v, "t"@),
                    uuid: text_or_empty(v, "u"@),
                },
            ),
        }
    }
}

impl Attachment {
    pub fn new(filename: &str, size: i64, mime_type: &str, uuid: &str) -> (r: Attachment)
        ensures
            r@ == (AttachmentView { filename: filename@, size: size as int, mime_type: mime_type@, uuid: uuid@ }),
    {
        Attachment { filename: filename.to_owned(), size, mime_type: mime_type.to_owned(), uuid: uuid.to_owned() }
    }

    pub fn to_cbor(&self) -> (r: CborObject)
        ensures
            r@ == attachment_cbor(self@),
    {
        CborObject::map().put("f", CborObject::Str(self.filename.clone())).put("s", CborObject::Long(self.size)).put(
            "t",
            CborObject::Str(self.mime_type.clone()),
        ).put("u", CborObject::Str(self.uuid.clone())).build()
    }

    pub fn from_cbor(cbor: &CborObject) -> (r: Result<Attachment>)
        ensures
            agrees(r, attachment_from(cbor@)),
    {
        if cbor.as_map().is_none() {
            return Err(cbor_error("Attachment not a map"));
        }
        match cbor.text_at("f") {
            None => Err(cbor_error("Attachment missing 'f'")),
            Some(filename) => Ok(
                Attachment { filename, size: long_or(cbor, "s"), mime_type: text_or(cbor, "t"), uuid: text_or(cbor, "u") },
            ),
        }
    }

    /// A copy of this attachment.
    pub fn dup(&self) -> (r: Attachment)
        ensures
            r@ == self@,
    {
        Attachment {
            filename: self.filename.clone(),
            size: self.size,
            mime_type: self.mime_type.clone(),
            uuid: self.uuid.clone(),
        }
    }
}

/// A copy of a list of attachments.
pub fn dup_attachments(v: &Vec<Attachment>) -> (r: Vec<Attachment>)
    ensures
        attachments(r@) == attachments(v@),
{
    let mut out: Vec<Attachment> = Vec::new();
    for i in 0..v.len()
        invariant
            out.len() == i,
            forall|k: int| 0 <= k < i ==> (#[trigger] out[k])@ == v[k]@,
    {
        out.push(v[i].dup());
    }
    proof {
        assert(attachments(out@) =~= attachments(v@));
    }
    out
}

/// An attachment is read back from its CBOR as it was.
pub proof fn law_attachment_round_trip(a: AttachmentView)
    ensures
        attachment_from(attachment_cbor(a)) == Ok::<AttachmentView, Fault>(a),
{
    reveal_strlit("f");
    reveal_strlit("s");
    reveal_strlit("t");
    reveal_strlit("u");
    assert("f"@[0] == 'f' && "s"@[0] == 's' && "t"@[0] == 't' && "u"@[0] == 'u');
}

/// The CBOR of attachments.
pub open spec fn attachments_cbor(v: Seq<AttachmentView>) -> Seq<CborValue> {
    Seq::new(v.len(), |i: int| attachment_cbor(v[i]))
}

/// The attachments that a list describes, up to the first that is none.
pub open spec fn attachments_from(v: Seq<CborValue>) -> core::result::Result<Seq<AttachmentView>, Fault>
    decreases v.len(),
{
    if v.len() == 0 {
        Ok(Seq::empty())
    } else {
        match (attachments_from(v.drop_last()), attachment_from(v.last())) {
            (Err(f), _) => Err(f),
            (_, Err(f)) => Err(f),
            (Ok(s), Ok(a)) => Ok(s.push(a)),
        }
    }
}

proof fn lemma_attachments_fail(v: Seq<CborValue>, n: int)
    requires
        0 <= n <= v.len(),
        attachments_from(v.take(n)) is Err,
    ensures
        attachments_from(v) == attachments_from(v.take(n)),
    decreases v.len(),
{
    if n < v.len() {
        assert(v.drop_last().take(n) =~= v.take(n));
        lemma_attachments_fail(v.drop_last(), n);
    } else {
        assert(v.take(n) =~= v);
    }
}

fn read_attachments(list: &Vec<CborObject>) -> (r: Result<Vec<Attachment>>)
    ensures
        match attachments_from(items(list@)) {
            Ok(s) => r is Ok && attachments(r->Ok_0@) == s,
            Err(f) => r is Err && error_is(r->Err_0, f),
        },
{
    let ghost all = items(list@);
    let mut out: Vec<Attachment> = Vec::new();
    proof {
        assert(all.take(0) =~= Seq::empty());
        assert(attachments(out@) =~= Seq::empty());
    }
    for i in 0..list.len()
        invariant
            all == items(list@),
            attachments_from(all.take(i as int)) == Ok::<Seq<AttachmentView>, Fault>(attachments(out@)),
    {
        let ghost before = attachments(out@);
        proof {
            assert(all.take(i as int + 1).drop_last() =~= all.take(i as int));
            assert(all.take(i as int + 1).last() == list[i as int]@);
        }
        match Attachment::from_cbor(&list[i]) {
            Ok(c) => {
                let ghost cv = c@;
                out.push(c);
                proof {
                    assert(attachments(out@) =~= before.push(cv));
                }
            },
            Err(e) => {
                proof {
                    lemma_attachments_fail(all, i as int + 1);
                }
                return Err(e);
            },
        }
    }
    proof {
        assert(all.take(all.len() as int) =~= all);
    }
    Ok(out)
}

proof fn lemma_attachments_round_trip(v: Seq<AttachmentView>)
    ensures
        attachments_from(attachments_cbor(v)) == Ok::<Seq<AttachmentView>, Fault>(v),
    decreases v.len(),
{
    let c = attachments_cbor(v);
    if v.len() > 0 {
        let init = v.drop_last();
        lemma_attachments_round_trip(init);
        assert(c.drop_last() =~= attachments_cbor(init));
        law_attachment_round_trip(v.last());
        assert(init.push(v.last()) =~= v);
    } else {
        assert(attachments_from(c) == Ok::<Seq<AttachmentView>, Fault>(Seq::empty()));
        assert(v =~= Seq::empty());
    }
}

/// An email message.
#[derive(Debug, PartialEq, Eq)]
pub struct EmailMessage {
    pub id: String,
    pub msg_id: String,
    pub from: String,
    pub subject: String,
    /// Seconds since the epoch.
    pub created: i64,
    pub to: Vec<String>,
    pub cc: Vec<String>,
    pub bcc: Vec<String>,
    pub content: String,
    pub unread: bool,
    pub star: bool,
    pub attachments: Vec<Attachment>,
    pub ical_event: String,
    pub replying_to_email: Option<Box<EmailMessage>>,
    pub forwarding_to_email: Option<Box<EmailMessage>>,
    pub send_error: Option<String>,
}

/// The content of an [`EmailMessage`].
pub ghost struct EmailView {
    pub id: Seq<char>,
    pub msg_id: Seq<char>,
    pub from: Seq<char>,
    pub subject: Seq<char>,
    pub created: int,
    pub to: Seq<Seq<char>>,
    pub cc: Seq<Seq<char>>,
    pub bcc: Seq<Seq<char>>,
    pub content: Seq<char>,
    pub unread: bool,
    pub star: bool,
    pub attachments: Seq<AttachmentView>,
    pub ical_event: Seq<char>,
    pub replying_to_email: Option<Box<EmailView>>,
    pub forwarding_to_email: Option<Box<EmailView>>,
    pub send_error: Option<Seq<char>>,
}

impl View for EmailMessage {
    type V = EmailView;

    open spec fn view(&self) -> EmailView {
        self.value()
    }
}

impl EmailMessage {
    /// What this message says.
    pub open spec fn value(self) -> EmailView
        decreases self,
    {
        EmailView {
            id: self.id@,
            msg_id: self.msg_id@,
            from: self.from@,
            subject: self.subject@,
            created: self.created as int,
            to: texts(self.to@),
            cc: texts(self.cc@),
            bcc: texts(self.bcc@),
            content: self.content@,
            unread: self.unread,
            star: self.star,
            attachments: attachments(self.attachments@),
            ical_event: self.ical_event@,
            replying_to_email: match self.replying_to_email {
                Some(m) => Some(Box::new(m.value())),
                None => None,
            },
            forwarding_to_email: match self.forwarding_to_email {
                Some(m) => Some(Box::new(m.value())),
                None => None,
            },
            send_error: opt(self.send_error),
        }
    }
}

/// What an optional message says.
pub open spec fn opt_email(m: Option<Box<EmailMessage>>) -> Option<Box<EmailView>> {
    match m {
        Some(m) => Some(Box::new(m@)),
        None => None,
    }
}

/// The entries of a message that every message has.
pub open spec fn email_entries(m: EmailView) -> Seq<(Seq<char>, CborValue)> {
    let e = map_put(Seq::empty(), "v"@, CborValue::Str(VERSION_1@));
    let e = map_put(e, "i"@, CborValue::Str(m.id));
    let e = map_put(e, "m"@, CborValue::Str(m.msg_id));
    let e = map_put(e, "f"@, CborValue::Str(m.from));
    let e = map_put(e, "h"@, CborValue::Str(m.subject));
    let e = map_put(e, "t"@, CborValue::Long(m.created));
    let e = map_put(e, "d"@, texts_cbor(m.to));
    let e = map_put(e, "c"@, texts_cbor(m.cc));
    let e = map_put(e, "b"@, texts_cbor(m.bcc));
    let e = map_put(e, "z"@, CborValue::Str(m.content));
    let e = map_put(e, "u"@, CborValue::Boolean(m.unread));
    let e = map_put(e, "s"@, CborValue::Boolean(m.star));
    let e = map_put(e, "a"@, CborValue::List(attachments_cbor(m.attachments)));
    map_put(e, "e"@, CborValue::Str(m.ical_event))
}

/// The CBOR of a message.
pub open spec fn email_cbor(m: EmailView) -> CborValue
    decreases m,
{
    let replying = match m.replying_to_email {
        Some(r) => Some(email_cbor(*r)),
        None => None,
    };
    let forwarding = match m.forwarding_to_email {
        Some(o) => Some(email_cbor(*o)),
        None => None,
    };
    let e = map_put_opt(email_entries(m), "r"@, replying);
    let e = map_put_opt(e, "o"@, forwarding);
    let e = map_put_opt(e, "x"@, opt_text_cbor(m.send_error));
    CborValue::List(seq![CborValue::Long(CBOR_PEERGOS_EMAIL_INT as int), CborValue::Mapping(e)])
}

/// The message that a map describes, given those that it replies to and forwards.
pub open spec fn email_body(
    m: CborValue,
    attachments: Seq<AttachmentView>,
    replying_to_email: Option<Box<EmailView>>,
    forwarding_to_email: Option<Box<EmailView>>,
) -> EmailView {
    EmailView {
        id: text_or_empty(m, "i"@),
        msg_id: text_or_empty(m, "m"@),
        from: text_or_empty(m, "f"@),
        subject: text_or_empty(m, "h"@),
        created: long_or_zero(m, "t"@),
        to: texts_from(list_or_empty(m, "d"@)),
        cc: texts_from(list_or_empty(m, "c"@)),
        bcc: texts_from(list_or_empty(m, "b"@)),
        content: text_or_empty(m, "z"@),
        unread: bool_or_else(m, "u"@, true),
        star: bool_or_else(m, "s"@, false),
        attachments,
        ical_event: text_or_empty(m, "e"@),
        replying_to_email,
        forwarding_to_email,
        send_error: m.text_at("x"@),
    }
}

/// The message that a value describes.
pub open spec fn email_from(v: CborValue) -> core::result::Result<EmailView, Fault>
    decreases v,
{
    match v {
        CborValue::List(l) => if l.len() == 0 || !(l[0] is Long) {
            Err(Fault::Cbor("EmailMessage missing mime tag"@))
        } else if l[0]->Long_0 != CBOR_PEERGOS_EMAIL_INT {
            Err(Fault::Cbor("bad EmailMessage mime tag: "@ + decimal_int(l[0]->Long_0)))
        } else if l.len() < 2 {
            Err(Fault::Cbor("EmailMessage missing body map"@))
        } else {
            let m = l[1];
            let replying = match m {
                CborValue::Mapping(e) => email_at(e, "r"@),
                _ => Ok(None),
            };
            let forwarding = match m {
                CborValue::Mapping(e) => email_at(e, "o"@),
                _ => Ok(None),
            };
            if text_or_empty(m, "v"@) != VERSION_1@ {
                Err(Fault::Cbor("unsupported EmailMessage version: "@ + text_or_empty(m, "v"@)))
            } else {
                match attachments_from(list_or_empty(m, "a"@)) {
                    Err(f) => Err(f),
                    Ok(a) => match replying {
                        Err(f) => Err(f),
                        Ok(r) => match forwarding {
                            Err(f) => Err(f),
                            Ok(o) => Ok(email_body(m, a, r, o)),
                        },
                    },
                }
            }
        },
        _ => Err(Fault::Cbor("EmailMessage not a list"@)),
    }
}

/// The message that the entries of a map hold under `key`, if any.
pub open spec fn email_at(e: Seq<(Seq<char>, CborValue)>, key: Seq<char>) -> core::result::Result<
    Option<Box<EmailView>>,
    Fault,
>
    decreases e,
{
    if e.len() == 0 {
        Ok(None)
    } else if e[0].0 == key {
        match email_from(e[0].1) {
            Ok(m) => Ok(Some(Box::new(m))),
            Err(f) => Err(f),
        }
    } else {
        email_at(e.skip(1), key)
    }
}

proof fn lemma_email_at(e: Seq<(Seq<char>, CborValue)>, key: Seq<char>)
    ensures
        email_at(e, key) == match map_get(e, key) {
            Some(v) => match email_from(v) {
                Ok(m) => Ok(Some(Box::new(m))),
                Err(f) => Err(f),
            },
            None => Ok(None),
        },
    decreases e.len(),
{
    if e.len() > 0 && e[0].0 != key {
        lemma_email_at(e.skip(1), key);
    }
}

/// The texts under `key`.
fn string_list(m: &CborObject, key: &str) -> (r: Vec<String>)
    ensures
        texts(r@) == texts_from(list_or_empty(m@, key@)),
{
    let none = no_items();
    texts_of_cbor(
        match m.get(key) {
            Some(CborObject::List(l)) => l,
            _ => &none,
        },
    )
}

/// The message under `key`, if there is one.
fn read_email(m: &CborObject, key: &str) -> (r: Result<Option<Box<EmailMessage>>>)
    ensures
        match m@ {
            CborValue::Mapping(e) => match email_at(e, key@) {
                Ok(x) => r is Ok && opt_email(r->Ok_0) == x,
                Err(f) => r is Err && error_is(r->Err_0, f),
            },
            _ => r is Ok && r->Ok_0 is None,
        },
    decreases m,
{
    proof {
        match m@ {
            CborValue::Mapping(e) => {
                lemma_email_at(e, key@);
            },
            _ => {},
        }
    }
    match m.get(key) {
        None => Ok(None),
        Some(c) => match EmailMessage::from_cbor(c) {
            Ok(x) => Ok(Some(Box::new(x))),
            Err(e) => Err(e),
        },
    }
}

/// A copy of an optional message.
fn dup_email(m: &Option<Box<EmailMessage>>) -> (r: Option<Box<EmailMessage>>)
    ensures
        opt_email(r) == opt_email(*m),
    decreases m,
{
    match m {
        None => None,
        Some(x) => Some(Box::new(x.dup())),
    }
}

/// A copy of an optional text.
fn dup_text(s: &Option<String>) -> (r: Option<String>)
    ensures
        opt(r) == opt(*s),
{
    match s {
        None => None,
        Some(x) => Some(x.clone()),
    }
}

impl EmailMessage {
    /// A new message, written at `created`, with sensible defaults.
    pub fn new(id: &str, from: &str, subject: &str, to: Vec<String>, content: &str, created: i64) -> (r: EmailMessage)
        ensures
            r@ == (EmailView {
                id: id@,
                msg_id: Seq::empty(),
                from: from@,
                subject: subject@,
                created: created as int,
                to: texts(to@),
                cc: Seq::empty(),
                bcc: Seq::empty(),
                content: content@,
                unread: true,
                star: false,
                attachments: Seq::empty(),
                ical_event: Seq::empty(),
                replying_to_email: None,
                forwarding_to_email: None,
                send_error: None,
            }),
    {
        let r = EmailMessage {
            id: id.to_owned(),
            msg_id: String::new(),
            from: from.to_owned(),
            subject: subject.to_owned(),
            created,
            to,
            cc: Vec::new(),
            bcc: Vec::new(),
            content: content.to_owned(),
            unread: true,
            star: false,
            attachments: Vec::new(),
            ical_event: String::new(),
            replying_to_email: None,
            forwarding_to_email: None,
            send_error: None,
        };
        proof {
            assert(r@.cc =~= Seq::empty());
            assert(r@.bcc =~= Seq::empty());
            assert(r@.attachments =~= Seq::empty());
        }
        r
    }

    /// A copy of this message.
    pub fn dup(&self) -> (r: EmailMessage)
        ensures
            r@ == self@,
        decreases self,
    {
        EmailMessage {
            id: self.id.clone(),
            msg_id: self.msg_id.clone(),
            from: self.from.clone(),
            subject: self.subject.clone(),
            created: self.created,
            to: dup_texts(&self.to),
            cc: dup_texts(&self.cc),
            bcc: dup_texts(&self.bcc),
            content: self.content.clone(),
            unread: self.unread,
            star: self.star,
            attachments: dup_attachments(&self.attachments),
            ical_event: self.ical_event.clone(),
            replying_to_email: dup_email(&self.replying_to_email),
            forwarding_to_email: dup_email(&self.forwarding_to_email),
            send_error: dup_text(&self.send_error),
        }
    }

    /// Prepare the message for sending: set the message id, from address, and timestamp.
    pub fn prepare(&self, generated_msg_id: String, from_email: String, sent_time: i64) -> (r: EmailMessage)
        ensures
            r@ == (EmailView {
                msg_id: generated_msg_id@,
                from: from_email@,
                created: sent_time as int,
                ..self@
            }),
    {
        let mut m = self.dup();
        m.msg_id = generated_msg_id;
        m.from = from_email;
        m.created = sent_time;
        m
    }

    /// A copy with replaced attachments.
    pub fn with_attachments(&self, new_attachments: Vec<Attachment>) -> (r: EmailMessage)
        ensures
            r@ == (EmailView { attachments: attachments(new_attachments@), ..self@ }),
    {
        let mut m = self.dup();
        m.attachments = new_attachments;
        m
    }

    /// A copy with a send error set.
    pub fn with_error(&self, error: &str) -> (r: EmailMessage)
        ensures
            r@ == (EmailView { send_error: Some(error@), ..self@ }),
    {
        let mut m = self.dup();
        m.send_error = Some(error.to_owned());
        m
    }

    /// The list of the mime type tag and the map of the message.
    #[verifier::rlimit(80)]
    pub fn to_cbor(&self) -> (r: CborObject)
        ensures
            r@ == email_cbor(self@),
        decreases self,
    {
        let mut list: Vec<CborObject> = Vec::new();
        for i in 0..self.attachments.len()
            invariant
                list.len() == i,
                forall|k: int| 0 <= k < i ==> (#[trigger] list[k])@ == attachment_cbor(self.attachments[k]@),
        {
            list.push(self.attachments[i].to_cbor());
        }
        proof {
            assert(items(list@) =~= attachments_cbor(self@.attachments));
        }
        let replying = match &self.replying_to_email {
            Some(r) => Some(r.to_cbor()),
            None => None,
        };
        let forwarding = match &self.forwarding_to_email {
            Some(o) => Some(o.to_cbor()),
            None => None,
        };
        let send_error = match &self.send_error {
            Some(x) => Some(CborObject::Str(x.clone())),
            None => None,
        };
        let m = CborObject::map().put("v", CborObject::Str(VERSION_1.to_owned())).put(
            "i",
            CborObject::Str(self.id.clone()),
        ).put("m", CborObject::Str(self.msg_id.clone())).put("f", CborObject::Str(self.from.clone())).put(
            "h",
            CborObject::Str(self.subject.clone()),
        ).put("t", CborObject::Long(self.created)).put("d", texts_to_cbor(&self.to)).put("c", texts_to_cbor(&self.cc)).put(
            "b",
            texts_to_cbor(&self.bcc),
        ).put("z", CborObject::Str(self.content.clone())).put("u", CborObject::Boolean(self.unread)).put(
            "s",
            CborObject::Boolean(self.star),
        ).put("a", CborObject::List(list)).put("e", CborObject::Str(self.ical_event.clone())).put_opt("r", replying).put_opt(
            "o",
            forwarding,
        ).put_opt("x", send_error).build();
        let mut r: Vec<CborObject> = Vec::new();
        r.push(CborObject::Long(CBOR_PEERGOS_EMAIL_INT));
        r.push(m);
        proof {
            assert(items(r@) =~= seq![CborValue::Long(CBOR_PEERGOS_EMAIL_INT as int), m@]);
        }
        CborObject::List(r)
    }

    #[verifier::rlimit(80)]
    pub fn from_cbor(cbor: &CborObject) -> (r: Result<EmailMessage>)
        ensures
            agrees(r, email_from(cbor@)),
        decreases cbor,
    {
        let list = match cbor {
            CborObject::List(l) => l,
            _ => {
                return Err(cbor_error("EmailMessage not a list"));
            },
        };
        let ghost lv = items(list@);
        proof {
            assert(*list == cbor->List_0);
            assert(lv.len() == list@.len());
        }
        if list.len() == 0 {
            return Err(cbor_error("EmailMessage missing mime tag"));
        }
        proof {
            assert(lv[0] == list[0]@);
        }
        match list[0].as_long() {
            Some(n) => {
                if n != CBOR_PEERGOS_EMAIL_INT {
                    return Err(cbor_error_of("bad EmailMessage mime tag: ", decimal_i64(n).as_str()));
                }
            },
            None => {
                return Err(cbor_error("EmailMessage missing mime tag"));
            },
        }
        if list.len() < 2 {
            return Err(cbor_error("EmailMessage missing body map"));
        }
        let m = &list[1];
        proof {
            assert(lv[1] == list[1]@);
            assert(decreases_to!(*list => list[1]));
        }
        let version = text_or(m, "v");
        if !same_text(version.as_str(), VERSION_1) {
            return Err(cbor_error_of("unsupported EmailMessage version: ", version.as_str()));
        }
        let none = no_items();
        let attachments = match read_attachments(
            match m.get("a") {
                Some(CborObject::List(l)) => l,
                _ => &none,
            },
        ) {
            Ok(a) => a,
            Err(e) => {
                return Err(e);
            },
        };
        let replying_to_email = match read_email(m, "r") {
            Ok(x) => x,
            Err(e) => {
                return Err(e);
            },
        };
        let forwarding_to_email = match read_email(m, "o") {
            Ok(x) => x,
            Err(e) => {
                return Err(e);
            },
        };
        Ok(
            EmailMessage {
                id: text_or(m, "i"),
                msg_id: text_or(m, "m"),
                from: text_or(m, "f"),
                subject: text_or(m, "h"),
                created: long_or(m, "t"),
                to: string_list(m, "d"),
                cc: string_list(m, "c"),
                bcc: string_list(m, "b"),
                content: text_or(m, "z"),
                unread: bool_or(m, "u", true),
                star: bool_or(m, "s", false),
                attachments,
                ical_event: text_or(m, "e"),
                replying_to_email,
                forwarding_to_email,
                send_error: m.text_at("x"),
            },
        )
    }

    /// The bytes of this message.
    pub fn serialize(&self) -> (r: Vec<u8>)
        ensures
            r@ == encode(email_cbor(self@)),
    {
        self.to_cbor().to_bytes()
    }
}

/// The keys of a message's map are all different.
proof fn lemma_keys()
    ensures
        ({
            let k = seq![
                "v"@, "i"@, "m"@, "f"@, "h"@, "t"@, "d"@, "c"@, "b"@, "z"@, "u"@, "s"@, "a"@, "e"@, "r"@, "o"@, "x"@,
            ];
            forall|i: int, j: int| 0 <= i < j < 17 ==> #[trigger] k[i] != #[trigger] k[j]
        }),
{
    reveal_strlit("v");
    reveal_strlit("i");
    reveal_strlit("m");
    reveal_strlit("f");
    reveal_strlit("h");
    reveal_strlit("t");
    reveal_strlit("d");
    reveal_strlit("c");
    reveal_strlit("b");
    reveal_strlit("z");
    reveal_strlit("u");
    reveal_strlit("s");
    reveal_strlit("a");
    reveal_strlit("e");
    reveal_strlit("r");
    reveal_strlit("o");
    reveal_strlit("x");
    let k = seq![
        "v"@, "i"@, "m"@, "f"@, "h"@, "t"@, "d"@, "c"@, "b"@, "z"@, "u"@, "s"@, "a"@, "e"@, "r"@, "o"@, "x"@,
    ];
    let c = seq!['v', 'i', 'm', 'f', 'h', 't', 'd', 'c', 'b', 'z', 'u', 's', 'a', 'e', 'r', 'o', 'x'];
    assert forall|i: int| 0 <= i < 17 implies (#[trigger] k[i]).len() == 1 && k[i][0] == c[i] by {}
    assert forall|i: int, j: int| 0 <= i < j < 17 implies #[trigger] k[i] != #[trigger] k[j] by {
        assert(k[i][0] == c[i] && k[j][0] == c[j]);
    }
}

/// A message is read back from its CBOR as it was, with the messages that it replies to
/// and forwards.
#[verifier::rlimit(90)]
pub proof fn law_email_round_trip(m: EmailView)
    ensures
        email_from(email_cbor(m)) == Ok::<EmailView, Fault>(m),
    decreases m,
{
    let k = seq![
        "v"@, "i"@, "m"@, "f"@, "h"@, "t"@, "d"@, "c"@, "b"@, "z"@, "u"@, "s"@, "a"@, "e"@, "r"@, "o"@, "x"@,
    ];
    lemma_keys();
    assert(k[0] == "v"@ && k[1] == "i"@ && k[2] == "m"@ && k[3] == "f"@ && k[4] == "h"@ && k[5] == "t"@ && k[6] == "d"@
        && k[7] == "c"@ && k[8] == "b"@ && k[9] == "z"@ && k[10] == "u"@ && k[11] == "s"@ && k[12] == "a"@ && k[13]
        == "e"@ && k[14] == "r"@ && k[15] == "o"@ && k[16] == "x"@);
    if m.replying_to_email is Some {
        law_email_round_trip(*m.replying_to_email->Some_0);
    }
    if m.forwarding_to_email is Some {
        law_email_round_trip(*m.forwarding_to_email->Some_0);
    }
    lemma_attachments_round_trip(m.attachments);
    lemma_texts_round_trip(m.to);
    lemma_texts_round_trip(m.cc);
    lemma_texts_round_trip(m.bcc);
    let b = email_cbor(m)->List_0[1];
    let e = b->Mapping_0;
    lemma_email_at(e, "r"@);
    lemma_email_at(e, "o"@);
    assert(map_get(e, "v"@) == Some(CborValue::Str(VERSION_1@)));
    assert(map_get(e, "a"@) == Some(CborValue::List(attachments_cbor(m.attachments))));
    assert(email_body(b, m.attachments, m.replying_to_email, m.forwarding_to_email) == m);
}

/// A message is read back from its bytes as it was.
pub proof fn law_email_is_read_back(m: EmailView)
    requires
        representable(email_cbor(m)),
    ensures
        parse(encode(email_cbor(m))) is Some,
        email_from(parse(encode(email_cbor(m)))->Some_0.0) == Ok::<EmailView, Fault>(m),
{
    lemma_round_trip(email_cbor(m), Seq::empty());
    assert(encode(email_cbor(m)) + Seq::<u8>::empty() =~= encode(email_cbor(m)));
    law_email_round_trip(m);
}

/// Where an attachment keeps its parts.
pub proof fn law_attachment_fields(a: AttachmentView)
    ensures
        attachment_cbor(a).get("f"@) == Some(CborValue::Str(a.filename)),
        attachment_cbor(a).get("s"@) == Some(CborValue::Long(a.size)),
        attachment_cbor(a).get("t"@) == Some(CborValue::Str(a.mime_type)),
        attachment_cbor(a).get("u"@) == Some(CborValue::Str(a.uuid)),
{
    reveal_strlit("f");
    reveal_strlit("s");
    reveal_strlit("t");
    reveal_strlit("u");
    assert("f"@[0] == 'f' && "s"@[0] == 's' && "t"@[0] == 't' && "u"@[0] == 'u');
}

/// Where a message keeps its parts: behind its tag, with its version, and what it does not have it
/// leaves out.
#[verifier::rlimit(90)]
pub proof fn law_email_fields(m: EmailView)
    ensures
        email_cbor(m) matches CborValue::List(l) && l.len() == 2 && l[0] == CborValue::Long(18) && {
            let e = l[1];
            &&& e.get("v"@) == Some(CborValue::Str("1"@))
            &&& e.get("i"@) == Some(CborValue::Str(m.id))
            &&& e.get("m"@) == Some(CborValue::Str(m.msg_id))
            &&& e.get("f"@) == Some(CborValue::Str(m.from))
            &&& e.get("h"@) == Some(CborValue::Str(m.subject))
            &&& e.get("t"@) == Some(CborValue::Long(m.created))
            &&& e.get("d"@) == Some(texts_cbor(m.to))
            &&& e.get("c"@) == Some(texts_cbor(m.cc))
            &&& e.get("b"@) == Some(texts_cbor(m.bcc))
            &&& e.get("z"@) == Some(CborValue::Str(m.content))
            &&& e.get("u"@) == Some(CborValue::Boolean(m.unread))
            &&& e.get("s"@) == Some(CborValue::Boolean(m.star))
            &&& e.get("a"@) == Some(CborValue::List(attachments_cbor(m.attachments)))
            &&& e.get("e"@) == Some(CborValue::Str(m.ical_event))
            &&& m.replying_to_email matches Some(r) ==> e.get("r"@) == Some(email_cbor(*r))
            &&& m.replying_to_email is None ==> e.get("r"@) is None
            &&& m.forwarding_to_email matches Some(o) ==> e.get("o"@) == Some(email_cbor(*o))
            &&& m.forwarding_to_email is None ==> e.get("o"@) is None
            &&& e.get("x"@) == opt_text_cbor(m.send_error)
        },
{
    reveal_strlit("v");
    reveal_strlit("i");
    reveal_strlit("m");
    reveal_strlit("f");
    reveal_strlit("h");
    reveal_strlit("t");
    reveal_strlit("d");
    reveal_strlit("c");
    reveal_strlit("b");
    reveal_strlit("z");
    reveal_strlit("u");
    reveal_strlit("s");
    reveal_strlit("a");
    reveal_strlit("e");
    reveal_strlit("r");
    reveal_strlit("o");
    reveal_strlit("x");
    assert("v"@[0] == 'v' && "i"@[0] == 'i' && "m"@[0] == 'm' && "f"@[0] == 'f' && "h"@[0] == 'h' && "t"@[0] == 't' && "d"@[0] == 'd' && "c"@[0] == 'c' && "b"@[0] == 'b' && "z"@[0] == 'z' && "u"@[0] == 'u' && "s"@[0] == 's' && "a"@[0] == 'a' && "e"@[0] == 'e' && "r"@[0] == 'r' && "o"@[0] == 'o' && "x"@[0] == 'x');
}

/// What is read of a message comes from its fields. One that does not say so is unread and has no
/// star; what else is missing is empty.
pub proof fn law_email_is_read_field_by_field(v: CborValue)
    ensures
        email_from(v) matches Ok(m) ==> (v matches CborValue::List(l) && l.len() >= 2 && l[0] == CborValue::Long(18) && {
            let e = l[1];
            &&& e.text_at("v"@) == Some("1"@)
            &&& e.text_at("i"@) matches Some(s) ==> m.id == s
            &&& e.text_at("m"@) matches Some(s) ==> m.msg_id == s
            &&& e.text_at("f"@) matches Some(s) ==> m.from == s
            &&& e.text_at("h"@) matches Some(s) ==> m.subject == s
            &&& e.text_at("z"@) matches Some(s) ==> m.content == s
            &&& e.text_at("e"@) matches Some(s) ==> m.ical_event == s
            &&& m.send_error == e.text_at("x"@)
            &&& e.long_at("t"@) matches Some(t) ==> m.created == t
            &&& e.bool_at("u"@) matches Some(b) ==> m.unread == b
            &&& e.bool_at("u"@) is None ==> m.unread
            &&& e.bool_at("s"@) matches Some(b) ==> m.star == b
            &&& e.bool_at("s"@) is None ==> !m.star
            &&& e.list_at("d"@) matches Some(d) ==> m.to == texts_from(d)
            &&& e.list_at("c"@) matches Some(d) ==> m.cc == texts_from(d)
            &&& e.list_at("b"@) matches Some(d) ==> m.bcc == texts_from(d)
            &&& e.get("i"@) is None ==> m.id.len() == 0
            &&& e.get("m"@) is None ==> m.msg_id.len() == 0
            &&& e.get("f"@) is None ==> m.from.len() == 0
            &&& e.get("h"@) is None ==> m.subject.len() == 0
            &&& e.get("z"@) is None ==> m.content.len() == 0
            &&& e.get("e"@) is None ==> m.ical_event.len() == 0
            &&& e.get("t"@) is None ==> m.created == 0
            &&& e.get("a"@) is None ==> m.attachments.len() == 0
        }),
{
    reveal_strlit("1");
    assert("1"@.len() == 1);
}

/// An attachment is read with its name, and with what else there is of it.
pub proof fn law_attachment_is_read_field_by_field(v: CborValue)
    ensures
        attachment_from(v) matches Ok(a) ==> v.text_at("f"@) == Some(a.filename) && (v.long_at("s"@) matches Some(n)
            ==> a.size == n) && (v.text_at("t"@) matches Some(t) ==> a.mime_type == t) && (v.text_at("u"@) matches Some(u)
            ==> a.uuid == u),
        attachment_from(v) is Ok <==> v.text_at("f"@) is Some,
{
}

/// Attachments are read one by one, in their order, and none is passed over.
pub proof fn law_attachments_are_read(v: Seq<CborValue>, i: int)
    requires
        0 <= i < v.len(),
    ensures
        attachments_from(v) matches Ok(l) ==> l.len() == v.len() && attachment_from(v[i]) == Ok::<AttachmentView, Fault>(l[i]),
        attachment_from(v[i]) is Err ==> attachments_from(v) is Err,
    decreases v.len(),
{
    let init = v.drop_last();
    lemma_attachments_len(init);
    if i < init.len() {
        law_attachments_are_read(init, i);
        assert(init[i] == v[i]);
    }
}

proof fn lemma_attachments_len(v: Seq<CborValue>)
    ensures
        attachments_from(v) matches Ok(l) ==> l.len() == v.len(),
    decreases v.len(),
{
    if v.len() > 0 {
        lemma_attachments_len(v.drop_last());
    }
}

/// What is said of a message that cannot be read.
pub proof fn law_emails_that_are_refused(v: CborValue)
    ensures
        !(v is List) ==> email_from(v) == Err::<EmailView, Fault>(Fault::Cbor("EmailMessage not a list"@)),
        v matches CborValue::List(l) ==> (l.len() == 0 || !(l[0] is Long)) ==> email_from(v) == Err::<EmailView, Fault>(
            Fault::Cbor("EmailMessage missing mime tag"@),
        ),
        v matches CborValue::List(l) ==> l.len() > 0 && l[0] is Long && l[0]->Long_0 != 18 ==> email_from(v) == Err::<
            EmailView,
            Fault,
        >(Fault::Cbor("bad EmailMessage mime tag: "@ + decimal_int(l[0]->Long_0))),
        v matches CborValue::List(l) ==> l.len() == 1 && l[0] == CborValue::Long(18) ==> email_from(v) == Err::<
            EmailView,
            Fault,
        >(Fault::Cbor("EmailMessage missing body map"@)),
        v matches CborValue::List(l) ==> l.len() >= 2 && l[0] == CborValue::Long(18) && text_or_empty(l[1], "v"@) != "1"@
            ==> email_from(v) == Err::<EmailView, Fault>(
            Fault::Cbor("unsupported EmailMessage version: "@ + text_or_empty(l[1], "v"@)),
        ),
        !(v is Mapping) ==> attachment_from(v) == Err::<AttachmentView, Fault>(Fault::Cbor("Attachment not a map"@)),
        v is Mapping && v.text_at("f"@) is None ==> attachment_from(v) == Err::<AttachmentView, Fault>(
            Fault::Cbor("Attachment missing 'f'"@),
        ),
{
}

} // verus!
