//! A mail message as the bridge reads it: header fields in order, bodies and attachments.
use crate::mail_scan::{is_safely_nested, is_safely_read, without_nesting};
#[allow(unused_imports)]
use crate::mail_scan::{nests_safely, reads_safely, unnested};
use crate::text::{chars_of, copy_option, same_text};
#[allow(unused_imports)]
use crate::text::{opt_view, views};
use mail_parser::HeaderValue::{Address, Text, TextList};
use mail_parser::{MessageParser, MimeHeaders};
use std::borrow::Cow;
use vstd::prelude::*;

verus! {

/// One address of a header field.
#[derive(Debug)]
pub struct Mailbox {
    pub name: Option<String>,
    pub address: Option<String>,
}

pub ghost struct MailboxView {
    pub name: Option<Seq<char>>,
    pub address: Option<Seq<char>>,
}

impl View for Mailbox {
    type V = MailboxView;

    open spec fn view(&self) -> MailboxView {
        MailboxView { name: opt_view(self.name), address: opt_view(self.address) }
    }
}

/// The value of a header field.
#[derive(Debug)]
pub enum FieldValue {
    Text(String),
    TextList(Vec<String>),
    /// Addresses in groups. An address outside of any group is a group of its own.
    Addresses(Vec<Vec<Mailbox>>),
    /// Anything else, and nothing.
    Other,
}

pub ghost enum FieldView {
    Text(Seq<char>),
    TextList(Seq<Seq<char>>),
    Addresses(Seq<Seq<MailboxView>>),
    Other,
}

pub open spec fn group_view(group: Seq<Mailbox>) -> Seq<MailboxView> {
    group.map_values(|m: Mailbox| m@)
}

pub open spec fn groups_view(groups: Seq<Vec<Mailbox>>) -> Seq<Seq<MailboxView>> {
    groups.map_values(|g: Vec<Mailbox>| group_view(g@))
}

impl View for FieldValue {
    type V = FieldView;

    open spec fn view(&self) -> FieldView {
        match *self {
            FieldValue::Text(t) => FieldView::Text(t@),
            FieldValue::TextList(l) => FieldView::TextList(views(l@)),
            FieldValue::Addresses(g) => FieldView::Addresses(groups_view(g@)),
            FieldValue::Other => FieldView::Other,
        }
    }
}

/// A header field.
#[derive(Debug)]
pub struct HeaderField {
    pub name: String,
    pub value: FieldValue,
}

pub ghost struct HeaderView {
    pub name: Seq<char>,
    pub value: FieldView,
}

impl View for HeaderField {
    type V = HeaderView;

    open spec fn view(&self) -> HeaderView {
        HeaderView { name: self.name@, value: self.value@ }
    }
}

pub open spec fn headers_view(headers: Seq<HeaderField>) -> Seq<HeaderView> {
    headers.map_values(|h: HeaderField| h@)
}

/// An attachment as it stands in a message: its name, the two parts of its media type, its bytes.
#[derive(Debug)]
pub struct AttachmentPart {
    pub name: Option<String>,
    pub main_type: Option<String>,
    pub sub_type: Option<String>,
    pub data: Vec<u8>,
}

pub ghost struct PartView {
    pub name: Option<Seq<char>>,
    pub main_type: Option<Seq<char>>,
    pub sub_type: Option<Seq<char>>,
    pub data: Seq<u8>,
}

impl View for AttachmentPart {
    type V = PartView;

    open spec fn view(&self) -> PartView {
        PartView {
            name: opt_view(self.name),
            main_type: opt_view(self.main_type),
            sub_type: opt_view(self.sub_type),
            data: self.data@,
        }
    }
}

pub open spec fn parts_view(parts: Seq<AttachmentPart>) -> Seq<PartView> {
    parts.map_values(|p: AttachmentPart| p@)
}

/// A mail message.
#[derive(Debug)]
pub struct MailMessage {
    pub headers: Vec<HeaderField>,
    /// The time in the Date field, in seconds since 1970.
    pub date: Option<i64>,
    pub body_text: Option<String>,
    pub body_html: Option<String>,
    pub attachments: Vec<AttachmentPart>,
}

pub ghost struct MailView {
    pub headers: Seq<HeaderView>,
    pub date: Option<i64>,
    pub body_text: Option<Seq<char>>,
    pub body_html: Option<Seq<char>>,
    pub attachments: Seq<PartView>,
}

impl View for MailMessage {
    type V = MailView;

    open spec fn view(&self) -> MailView {
        MailView {
            headers: headers_view(self.headers@),
            date: self.date,
            body_text: opt_view(self.body_text),
            body_html: opt_view(self.body_html),
            attachments: parts_view(self.attachments@),
        }
    }
}

/// The header fields that `MessageParser::parse` finds in the bytes of a message, in order; `None`
/// where it finds no message.
pub uninterp spec fn parsed_headers(raw: Seq<u8>) -> Option<Seq<HeaderView>>;

/// What `Message::date` gives for the message in these bytes, in seconds since 1970.
pub uninterp spec fn parsed_date(raw: Seq<u8>) -> Option<i64>;

/// What `Message::body_text` gives as the first body of the message in these bytes.
pub uninterp spec fn parsed_text(raw: Seq<u8>) -> Option<Seq<char>>;

/// What `Message::body_html` gives as the first body of the message in these bytes.
pub uninterp spec fn parsed_html(raw: Seq<u8>) -> Option<Seq<char>>;

/// What `Message::attachments` gives for the message in these bytes.
pub uninterp spec fn parsed_attachments(raw: Seq<u8>) -> Seq<PartView>;

/// The bytes may be given to the parser, which on others can overflow the stack, or stop the program
/// where its assertions and overflow checks are compiled in: it opens messages within messages
/// without a bound, and frees them one within the other; it loses count where one begins directly with
/// another; and it computes below zero at an empty body and at the smallest number.
pub open spec fn parseable(raw: Seq<u8>) -> bool {
    nests_safely(raw) && reads_safely(raw)
}

/// Calls `mail_parser::MessageParser::parse` and `Message::headers`. The fields depend on the bytes
/// alone; there are none where the bytes are no message.
/// Bytes on which it can fail are kept from it.
#[verifier::external_body]
fn parse_headers(raw: &[u8]) -> (r: Option<Vec<HeaderField>>)
    requires
        parseable(raw@),
    ensures
        match r {
            Some(h) => parsed_headers(raw@) == Some(headers_view(h@)),
            None => parsed_headers(raw@) is None,
        },
{
    MessageParser::default().parse(raw).map(|m| m.headers().iter().map(|h| HeaderField {
        name: h.name().to_owned(),
        value: match h.value.clone() {
            Text(t) => FieldValue::Text(t.into()),
            TextList(l) => FieldValue::TextList(l.into_iter().map(Cow::into).collect()),
            Address(a) => FieldValue::Addresses(
                a.into_group().into_iter().map(|g| g.addresses.into_iter().map(|a|
                    Mailbox { name: a.name.map(Cow::into), address: a.address.map(Cow::into) },
                ).collect()).collect(),
            ),
            _ => FieldValue::Other,
        },
    }).collect())
}

/// Calls `mail_parser::MessageParser::parse`, `Message::date` and `DateTime::to_timestamp`. The time
/// depends on the bytes alone.
/// Bytes on which it can fail are kept from it.
#[verifier::external_body]
fn parse_date(raw: &[u8]) -> (r: Option<i64>)
    requires
        parseable(raw@),
    ensures
        r == parsed_date(raw@),
{
    MessageParser::default().parse(raw)?.date().map(|d| d.to_timestamp())
}

/// Calls `mail_parser::MessageParser::parse` and `Message::body_text`. The body depends on the bytes
/// alone.
/// Bytes on which it can fail are kept from it.
#[verifier::external_body]
fn parse_text(raw: &[u8]) -> (r: Option<String>)
    requires
        parseable(raw@),
    ensures
        opt_view(r) == parsed_text(raw@),
{
    MessageParser::default().parse(raw)?.body_text(0).map(Cow::into_owned)
}

/// Calls `mail_parser::MessageParser::parse` and `Message::body_html`. The body depends on the bytes
/// alone.
/// Bytes on which it can fail are kept from it.
#[verifier::external_body]
fn parse_html(raw: &[u8]) -> (r: Option<String>)
    requires
        parseable(raw@),
    ensures
        opt_view(r) == parsed_html(raw@),
{
    MessageParser::default().parse(raw)?.body_html(0).map(Cow::into_owned)
}

/// Calls `mail_parser::MessageParser::parse` and `Message::attachments`. The attachments depend on
/// the bytes alone; there are none where the bytes are no message.
/// Bytes on which it can fail are kept from it.
#[verifier::external_body]
fn parse_attachments(raw: &[u8]) -> (r: Vec<AttachmentPart>)
    requires
        parseable(raw@),
    ensures
        parsed_attachments(raw@) == parts_view(r@),
{
    MessageParser::default().parse(raw).map(|m| m.attachments().map(|p| AttachmentPart {
        name: p.attachment_name().map(str::to_owned),
        main_type: p.content_type().map(|t| t.ctype().to_owned()),
        sub_type: p.content_type().and_then(|t| t.subtype().map(str::to_owned)),
        data: p.contents().to_vec(),
    }).collect()).unwrap_or_default()
}

/// The message in bytes that the parser can read, if they hold one.
pub open spec fn parsed_message(raw: Seq<u8>) -> Option<MailView> {
    match parsed_headers(raw) {
        Some(headers) => Some(
            MailView {
                headers,
                date: parsed_date(raw),
                body_text: parsed_text(raw),
                body_html: parsed_html(raw),
                attachments: parsed_attachments(raw),
            },
        ),
        None => None,
    }
}

/// The bytes that the parser is given: those of the mail, unless the messages within it are nested in
/// a way that it cannot follow; then the types of these are spoiled first.
pub open spec fn given_bytes(raw: Seq<u8>) -> Seq<u8> {
    if nests_safely(raw) {
        raw
    } else {
        unnested(raw)
    }
}

/// The subtype that was spoiled, or any other as it is.
pub open spec fn restored_subtype(name: Option<Seq<char>>) -> Option<Seq<char>> {
    match name {
        Some(n) => if n == "xfc822"@ {
            Some("rfc822"@)
        } else if n == "xlobal"@ {
            Some("global"@)
        } else {
            Some(n)
        },
        None => None,
    }
}

pub open spec fn restored_part(part: PartView) -> PartView {
    PartView { sub_type: restored_subtype(part.sub_type), ..part }
}

/// A message read from spoiled bytes, with the types of its attachments as they were.
pub open spec fn restored(mail: MailView) -> MailView {
    MailView {
        attachments: mail.attachments.map_values(|p: PartView| restored_part(p)),
        ..mail
    }
}

/// The message in the bytes of a mail, if they hold one that can be read.
pub open spec fn message_of(raw: Seq<u8>) -> Option<MailView> {
    if !reads_safely(given_bytes(raw)) {
        None
    } else if nests_safely(raw) {
        parsed_message(raw)
    } else {
        match parsed_message(unnested(raw)) {
            Some(mail) => Some(restored(mail)),
            None => None,
        }
    }
}

fn restore_part(part: &AttachmentPart) -> (r: AttachmentPart)
    ensures
        r@ == restored_part(part@),
{
    let sub_type: Option<String> = match &part.sub_type {
        Some(name) => {
            if same_text(name.as_str(), "xfc822") {
                Some("rfc822".to_owned())
            } else if same_text(name.as_str(), "xlobal") {
                Some("global".to_owned())
            } else {
                Some(name.clone())
            }
        },
        None => None,
    };
    let mut data: Vec<u8> = Vec::new();
    data.extend_from_slice(part.data.as_slice());
    assert(data@ =~= part.data@);
    AttachmentPart {
        name: copy_option(&part.name),
        main_type: copy_option(&part.main_type),
        sub_type,
        data,
    }
}

fn restore(mail: MailMessage) -> (r: MailMessage)
    ensures
        r@ == restored(mail@),
{
    let mut parts: Vec<AttachmentPart> = Vec::new();
    let mut i: usize = 0;
    while i < mail.attachments.len()
        invariant
            i <= mail.attachments@.len(),
            parts@.len() == i,
            forall|k: int|
                0 <= k < i ==> (#[trigger] parts@[k])@ == restored_part(mail.attachments@[k]@),
        decreases mail.attachments@.len() - i,
    {
        parts.push(restore_part(&mail.attachments[i]));
        i += 1;
    }
    let ghost before = mail@;
    let r = MailMessage {
        headers: mail.headers,
        date: mail.date,
        body_text: mail.body_text,
        body_html: mail.body_html,
        attachments: parts,
    };
    assert(r@.attachments =~= restored(before).attachments);
    r
}

fn read_parts(raw: &[u8]) -> (r: Option<MailMessage>)
    requires
        parseable(raw@),
    ensures
        match r {
            Some(m) => parsed_message(raw@) == Some(m@),
            None => parsed_message(raw@) is None,
        },
{
    match parse_headers(raw) {
        Some(headers) => Some(
            MailMessage {
                headers,
                date: parse_date(raw),
                body_text: parse_text(raw),
                body_html: parse_html(raw),
                attachments: parse_attachments(raw),
            },
        ),
        None => None,
    }
}

/// Reads the message in the bytes of a mail. Messages within it whose nesting the parser cannot follow
/// are read as attachments like any other.
pub fn read_mail(raw: &[u8]) -> (r: Option<MailMessage>)
    ensures
        match r {
            Some(m) => message_of(raw@) == Some(m@),
            None => message_of(raw@) is None,
        },
{
    if is_safely_nested(raw) {
        if is_safely_read(raw) {
            return read_parts(raw);
        }
        return None;
    }
    let spoiled = without_nesting(raw);
    if !is_safely_read(spoiled.as_slice()) {
        return None;
    }
    match read_parts(spoiled.as_slice()) {
        Some(mail) => Some(restore(mail)),
        None => None,
    }
}

/// A letter in lower case, if it is an ASCII letter.
pub open spec fn ascii_lower(c: char) -> char {
    if 'A' <= c <= 'Z' {
        (c as u32 + 32) as char
    } else {
        c
    }
}

/// Two names of header fields are the same but for the case of ASCII letters.
pub open spec fn same_name(a: Seq<char>, b: Seq<char>) -> bool {
    a.map_values(|c: char| ascii_lower(c)) == b.map_values(|c: char| ascii_lower(c))
}

/// A letter in lower case, if it is an ASCII letter.
pub fn lower(c: char) -> (r: char)
    ensures
        r == ascii_lower(c),
{
    if 'A' <= c && c <= 'Z' {
        ((c as u32 + 32) as u8) as char
    } else {
        c
    }
}

/// Whether two names of header fields are the same but for the case of ASCII letters.
pub fn is_same_name(a: &str, b: &str) -> (r: bool)
    ensures
        r == same_name(a@, b@),
{
    let v = chars_of(a);
    let w = chars_of(b);
    let ghost x = a@.map_values(|c: char| ascii_lower(c));
    let ghost y = b@.map_values(|c: char| ascii_lower(c));
    if v.len() != w.len() {
        assert(x.len() != y.len());
        return false;
    }
    let mut i: usize = 0;
    while i < v.len()
        invariant
            v@ == a@,
            w@ == b@,
            v@.len() == w@.len(),
            x == a@.map_values(|c: char| ascii_lower(c)),
            y == b@.map_values(|c: char| ascii_lower(c)),
            i <= v@.len(),
            forall|k: int| 0 <= k < i ==> x[k] == y[k],
        decreases v@.len() - i,
    {
        if lower(v[i]) != lower(w[i]) {
            assert(x[i as int] != y[i as int]);
            return false;
        }
        i += 1;
    }
    assert(x =~= y);
    true
}

/// The value of the last field with the given name.
pub open spec fn last_field(headers: Seq<HeaderView>, name: Seq<char>) -> Option<FieldView>
    decreases headers.len(),
{
    if headers.len() == 0 {
        None
    } else if same_name(headers.last().name, name) {
        Some(headers.last().value)
    } else {
        last_field(headers.drop_last(), name)
    }
}

/// The value of the last field with the given name.
pub fn find_last_field<'a>(headers: &'a Vec<HeaderField>, name: &str) -> (r: Option<&'a FieldValue>)
    ensures
        match r {
            Some(v) => last_field(headers_view(headers@), name@) == Some(v@),
            None => last_field(headers_view(headers@), name@) is None,
        },
{
    let ghost all = headers_view(headers@);
    let mut i: usize = headers.len();
    assert(all.take(i as int) =~= all);
    while i > 0
        invariant
            all == headers_view(headers@),
            i <= headers@.len(),
            last_field(all, name@) == last_field(all.take(i as int), name@),
        decreases i,
    {
        assert(all.take(i as int).last() == headers@[i - 1]@);
        if is_same_name(headers[i - 1].name.as_str(), name) {
            return Some(&headers[i - 1].value);
        }
        assert(all.take(i as int).drop_last() =~= all.take(i - 1));
        i -= 1;
    }
    None
}

/// The text of a field: of a list of texts, the last.
pub open spec fn field_text(value: Option<FieldView>) -> Option<Seq<char>> {
    match value {
        Some(FieldView::Text(t)) => Some(t),
        Some(FieldView::TextList(l)) => if l.len() > 0 {
            Some(l.last())
        } else {
            None
        },
        _ => None,
    }
}

/// The text of the last field with the given name.
pub fn text_of_field(headers: &Vec<HeaderField>, name: &str) -> (r: Option<String>)
    ensures
        opt_view(r) == field_text(last_field(headers_view(headers@), name@)),
{
    match find_last_field(headers, name) {
        Some(FieldValue::Text(t)) => Some(t.clone()),
        Some(FieldValue::TextList(l)) => {
            if l.len() > 0 {
                Some(l[l.len() - 1].clone())
            } else {
                None
            }
        },
        _ => None,
    }
}

} // verus!
