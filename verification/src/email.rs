//! Mail taken from the mailbox: reading it, telling list mail from other mail, and finding its
//! thread.
use crate::config::{LimitsConfig, MailingListConfig};
use crate::dates::date_from_seconds;
#[allow(unused_imports)]
use crate::dates::is_date;
use crate::db::Db;
use crate::html_clean::html_to_plain;
#[allow(unused_imports)]
use crate::html_clean::plain_of;
use crate::mail::{
    find_last_field, is_same_name, read_mail, text_of_field, AttachmentPart, FieldValue,
    HeaderField, MailMessage,
};
#[allow(unused_imports)]
use crate::mail::{
    ascii_lower, field_text, group_view, groups_view, headers_view, last_field, message_of, parts_view,
    same_name, FieldView, HeaderView, MailView, MailboxView, PartView,
};
#[allow(unused_imports)]
use crate::records::DbView;
use crate::text::{
    chars_of, contains_text, copy_option, decimal_text, ends_with, list_contains, same_text,
    starts_with, strip_leading, strip_trailing, text_between, trim, words, CharClass,
};
#[allow(unused_imports)]
use crate::text::{
    decimal, drop_leading, drop_trailing, occurs, opt_view, text_words, trimmed, views,
};
use vstd::prelude::*;
#[allow(unused_imports)]
use vstd::utf8::{char_is_scalar, encode_scalar, encode_utf8};

verus! {

/// A message as it came from the mail server.
#[derive(Debug, Clone)]
pub struct RawEmail {
    pub uid: u32,
    pub mailbox: String,
    pub raw: Vec<u8>,
}

/// An attachment to be posted.
#[derive(Debug, Clone)]
pub struct Attachment {
    pub filename: String,
    pub content_type: String,
    pub data: Vec<u8>,
}

pub ghost struct AttachmentView {
    pub filename: Seq<char>,
    pub content_type: Seq<char>,
    pub data: Seq<u8>,
}

impl View for Attachment {
    type V = AttachmentView;

    open spec fn view(&self) -> AttachmentView {
        AttachmentView {
            filename: self.filename@,
            content_type: self.content_type@,
            data: self.data@,
        }
    }
}

pub open spec fn attachments_view(list: Seq<Attachment>) -> Seq<AttachmentView> {
    list.map_values(|a: Attachment| a@)
}

/// A message that has been read.
#[derive(Debug, Clone)]
pub struct ParsedEmail {
    pub uid: u32,
    pub mailbox: String,
    pub message_id: String,
    pub in_reply_to: Option<String>,
    /// Oldest first.
    pub references: Vec<String>,
    pub subject: String,
    pub from_name: Option<String>,
    pub from_email: String,
    /// Seconds since 1970.
    pub date: Option<i64>,
    pub list_id: Option<String>,
    pub body_plain: Option<String>,
    pub body_html: Option<String>,
    pub attachments: Vec<Attachment>,
    /// Message-ID of the root of the thread, once it has been looked up.
    pub thread_root: Option<String>,
    /// `matrix` for mail that the bridge itself sent.
    pub bridge_origin: Option<String>,
}

pub ghost struct EmailView {
    pub uid: u32,
    pub mailbox: Seq<char>,
    pub message_id: Seq<char>,
    pub in_reply_to: Option<Seq<char>>,
    pub references: Seq<Seq<char>>,
    pub subject: Seq<char>,
    pub from_name: Option<Seq<char>>,
    pub from_email: Seq<char>,
    pub date: Option<i64>,
    pub list_id: Option<Seq<char>>,
    pub body_plain: Option<Seq<char>>,
    pub body_html: Option<Seq<char>>,
    pub attachments: Seq<AttachmentView>,
    pub thread_root: Option<Seq<char>>,
    pub bridge_origin: Option<Seq<char>>,
}

impl View for ParsedEmail {
    type V = EmailView;

    open spec fn view(&self) -> EmailView {
        EmailView {
            uid: self.uid,
            mailbox: self.mailbox@,
            message_id: self.message_id@,
            in_reply_to: opt_view(self.in_reply_to),
            references: views(self.references@),
            subject: self.subject@,
            from_name: opt_view(self.from_name),
            from_email: self.from_email@,
            date: self.date,
            list_id: opt_view(self.list_id),
            body_plain: opt_view(self.body_plain),
            body_html: opt_view(self.body_html),
            attachments: attachments_view(self.attachments@),
            thread_root: opt_view(self.thread_root),
            bridge_origin: opt_view(self.bridge_origin),
        }
    }
}

/// A mail that cannot be read.
#[derive(Debug)]
pub enum EmailError {
    /// The bytes of the message with this UID, so many of them, are no mail message.
    NoMessage(u32, usize),
}

/// What `str::to_lowercase` makes of a text.
pub uninterp spec fn lowercase(s: Seq<char>) -> Seq<char>;

/// `str::to_lowercase` depends on the text alone, and on ASCII text it changes the letters from `A`
/// to `Z` only.
pub assume_specification[ str::to_lowercase ](s: &str) -> (r: String)
    ensures
        r@ == lowercase(s@),
        (forall|i: int| 0 <= i < s@.len() ==> (#[trigger] s@[i]) as u32 <= 0x7F) ==> r@
            == s@.map_values(|c: char| ascii_lower(c)),
;

/// A message identifier without white space around it and without its angle brackets.
pub open spec fn clean_id(id: Seq<char>) -> Seq<char> {
    drop_trailing(drop_leading(trimmed(id), CharClass::Only('<')), CharClass::Only('>'))
}

/// A message identifier without white space around it and without its angle brackets.
pub fn clean_message_id(id: &str) -> (r: String)
    ensures
        r@ == clean_id(id@),
{
    let inner = strip_leading(trim(id).as_str(), &CharClass::Only('<'));
    strip_trailing(inner.as_str(), &CharClass::Only('>'))
}

/// The first address of the first group that has one.
pub open spec fn first_mailbox(groups: Seq<Seq<MailboxView>>) -> Option<MailboxView>
    decreases groups.len(),
{
    if groups.len() == 0 {
        None
    } else if groups.first().len() > 0 {
        Some(groups.first().first())
    } else {
        first_mailbox(groups.drop_first())
    }
}

/// The name and the address of the sender, from the last From field.
pub open spec fn sender_of(headers: Seq<HeaderView>) -> (Option<Seq<char>>, Seq<char>) {
    match last_field(headers, "From"@) {
        Some(FieldView::Addresses(groups)) => match first_mailbox(groups) {
            Some(m) => (
                m.name,
                match m.address {
                    Some(a) => a,
                    None => "unknown"@,
                },
            ),
            None => (None, "unknown"@),
        },
        _ => (None, "unknown"@),
    }
}

/// The name and the address of the sender.
pub fn extract_from(headers: &Vec<HeaderField>) -> (r: (Option<String>, String))
    ensures
        (opt_view(r.0), r.1@) == sender_of(headers_view(headers@)),
{
    match find_last_field(headers, "From") {
        Some(FieldValue::Addresses(groups)) => {
            let ghost all = groups_view(groups@);
            let mut i: usize = 0;
            assert(all.skip(0) =~= all);
            while i < groups.len()
                invariant
                    all == groups_view(groups@),
                    i <= groups@.len(),
                    first_mailbox(all) == first_mailbox(all.skip(i as int)),
                    last_field(headers_view(headers@), "From"@) == Some(FieldView::Addresses(all)),
                decreases groups@.len() - i,
            {
                assert(all.skip(i as int).first() == group_view(groups@[i as int]@));
                if groups[i].len() > 0 {
                    let m = &groups[i][0];
                    assert(all.skip(i as int).first().first() == m@);
                    let address: String = match &m.address {
                        Some(a) => a.clone(),
                        None => "unknown".to_owned(),
                    };
                    return (copy_option(&m.name), address);
                }
                assert(all.skip(i as int).drop_first() =~= all.skip(i + 1));
                i += 1;
            }
            assert(all.skip(i as int).len() == 0);
            (None, "unknown".to_owned())
        },
        _ => (None, "unknown".to_owned()),
    }
}

/// The cleaned identifiers of `list` in order, without those of which nothing is left.
pub open spec fn clean_ids(list: Seq<Seq<char>>) -> Seq<Seq<char>>
    decreases list.len(),
{
    if list.len() == 0 {
        seq![]
    } else {
        let id = clean_id(list.last());
        if id.len() > 0 {
            clean_ids(list.drop_last()).push(id)
        } else {
            clean_ids(list.drop_last())
        }
    }
}

/// The identifiers in one References field.
pub open spec fn reference_ids(value: FieldView) -> Seq<Seq<char>> {
    match value {
        FieldView::Text(t) => clean_ids(text_words(t)),
        FieldView::TextList(l) => clean_ids(l),
        _ => seq![],
    }
}

/// The identifiers in all References fields.
pub open spec fn references_of(headers: Seq<HeaderView>) -> Seq<Seq<char>>
    decreases headers.len(),
{
    if headers.len() == 0 {
        seq![]
    } else if same_name(headers.last().name, "References"@) {
        references_of(headers.drop_last()) + reference_ids(headers.last().value)
    } else {
        references_of(headers.drop_last())
    }
}

/// Appends the cleaned identifiers of a list.
fn append_clean_ids(out: &mut Vec<String>, list: &Vec<String>)
    ensures
        views(final(out)@) == views(old(out)@) + clean_ids(views(list@)),
{
    let ghost before = views(out@);
    let ghost all = views(list@);
    let mut i: usize = 0;
    assert(views(out@) =~= before + clean_ids(all.take(0)));
    while i < list.len()
        invariant
            all == views(list@),
            i <= list@.len(),
            views(out@) == before + clean_ids(all.take(i as int)),
        decreases list@.len() - i,
    {
        let id = clean_message_id(list[i].as_str());
        let ghost so_far = views(out@);
        assert(all.take(i + 1).drop_last() =~= all.take(i as int));
        if !id.as_str().is_empty() {
            out.push(id);
            assert(views(out@) =~= so_far.push(id@));
            assert(views(out@) =~= before + clean_ids(all.take(i + 1)));
        }
        i += 1;
    }
    assert(all.take(i as int) =~= all);
}

/// The cleaned identifiers of a list in order, without those of which nothing is left.
pub fn clean_id_list(list: &Vec<String>) -> (r: Vec<String>)
    ensures
        views(r@) == clean_ids(views(list@)),
{
    let mut out: Vec<String> = Vec::new();
    append_clean_ids(&mut out, list);
    assert(views(Seq::<String>::empty()) + clean_ids(views(list@)) =~= clean_ids(views(list@)));
    out
}

/// The identifiers in all References fields, oldest first.
pub fn extract_references(headers: &Vec<HeaderField>) -> (r: Vec<String>)
    ensures
        views(r@) == references_of(headers_view(headers@)),
{
    let ghost all = headers_view(headers@);
    let mut out: Vec<String> = Vec::new();
    let mut i: usize = 0;
    assert(views(out@) =~= references_of(all.take(0)));
    while i < headers.len()
        invariant
            all == headers_view(headers@),
            i <= headers@.len(),
            views(out@) == references_of(all.take(i as int)),
        decreases headers@.len() - i,
    {
        let ghost so_far = views(out@);
        proof {
            assert(all.take(i + 1).drop_last() =~= all.take(i as int));
            assert(all.take(i + 1).last() == headers@[i as int]@);
        }
        if is_same_name(headers[i].name.as_str(), "References") {
            match &headers[i].value {
                FieldValue::Text(t) => {
                    let list = words(t.as_str());
                    append_clean_ids(&mut out, &list);
                },
                FieldValue::TextList(l) => {
                    append_clean_ids(&mut out, l);
                },
                _ => {
                    assert(so_far + Seq::<Seq<char>>::empty() =~= so_far);
                },
            }
        }
        i += 1;
    }
    assert(all.take(i as int) =~= all);
    out
}

/// The identifier in one In-Reply-To field: of a list, the first.
pub open spec fn reply_id(value: FieldView) -> Option<Seq<char>> {
    let id = match value {
        FieldView::Text(t) => clean_id(t),
        FieldView::TextList(l) => if l.len() > 0 {
            clean_id(l.first())
        } else {
            seq![]
        },
        _ => seq![],
    };
    if id.len() > 0 {
        Some(id)
    } else {
        None
    }
}

/// The identifier in the first In-Reply-To field that has one.
pub open spec fn in_reply_to_of(headers: Seq<HeaderView>) -> Option<Seq<char>>
    decreases headers.len(),
{
    if headers.len() == 0 {
        None
    } else if same_name(headers.first().name, "In-Reply-To"@) && reply_id(
        headers.first().value,
    ) is Some {
        reply_id(headers.first().value)
    } else {
        in_reply_to_of(headers.drop_first())
    }
}

fn reply_id_text(value: &FieldValue) -> (r: Option<String>)
    ensures
        opt_view(r) == reply_id(value@),
{
    let id: String = match value {
        FieldValue::Text(t) => clean_message_id(t.as_str()),
        FieldValue::TextList(l) => {
            if l.len() > 0 {
                clean_message_id(l[0].as_str())
            } else {
                String::new()
            }
        },
        _ => String::new(),
    };
    if id.as_str().is_empty() {
        None
    } else {
        Some(id)
    }
}

/// The identifier of the message that this one answers.
pub fn extract_in_reply_to(headers: &Vec<HeaderField>) -> (r: Option<String>)
    ensures
        opt_view(r) == in_reply_to_of(headers_view(headers@)),
{
    let ghost all = headers_view(headers@);
    let mut i: usize = 0;
    assert(all.skip(0) =~= all);
    while i < headers.len()
        invariant
            all == headers_view(headers@),
            i <= headers@.len(),
            in_reply_to_of(all) == in_reply_to_of(all.skip(i as int)),
        decreases headers@.len() - i,
    {
        assert(all.skip(i as int).first() == headers@[i as int]@);
        assert(all.skip(i as int).drop_first() =~= all.skip(i + 1));
        if is_same_name(headers[i].name.as_str(), "In-Reply-To") {
            let id = reply_id_text(&headers[i].value);
            if id.is_some() {
                return id;
            }
        }
        i += 1;
    }
    assert(all.skip(i as int).len() == 0);
    None
}

/// The mark of the bridge's own mail: the last X-Bridge-Origin field, where it holds a text.
pub open spec fn bridge_origin_of(headers: Seq<HeaderView>) -> Option<Seq<char>> {
    match last_field(headers, "X-Bridge-Origin"@) {
        Some(FieldView::Text(t)) => present(lowercase(trimmed(t))),
        _ => None,
    }
}

/// A text, unless it is empty.
pub open spec fn present(s: Seq<char>) -> Option<Seq<char>> {
    if s.len() > 0 {
        Some(s)
    } else {
        None
    }
}

/// A text, unless it is empty.
pub fn unless_empty(s: String) -> (r: Option<String>)
    ensures
        opt_view(r) == present(s@),
{
    if s.as_str().is_empty() {
        None
    } else {
        Some(s)
    }
}

/// The mark of the bridge's own mail, in lower case.
pub fn extract_bridge_origin(headers: &Vec<HeaderField>) -> (r: Option<String>)
    ensures
        opt_view(r) == bridge_origin_of(headers_view(headers@)),
{
    match find_last_field(headers, "X-Bridge-Origin") {
        Some(FieldValue::Text(t)) => unless_empty(trim(t.as_str()).as_str().to_lowercase()),
        _ => None,
    }
}

/// The identifier in one List-Id field: its text, or the first address that it holds.
pub open spec fn list_id_in(value: FieldView) -> Option<Seq<char>> {
    match value {
        FieldView::Text(t) => Some(t),
        FieldView::Addresses(groups) => if groups.len() > 0 && groups.first().len() > 0 {
            groups.first().first().address
        } else {
            None
        },
        _ => None,
    }
}

/// The identifier in the first List-Id field that has one.
pub open spec fn list_id_of(headers: Seq<HeaderView>) -> Option<Seq<char>>
    decreases headers.len(),
{
    if headers.len() == 0 {
        None
    } else if same_name(headers.first().name, "List-Id"@) && list_id_in(
        headers.first().value,
    ) is Some {
        list_id_in(headers.first().value)
    } else {
        list_id_of(headers.drop_first())
    }
}

fn list_id_text(value: &FieldValue) -> (r: Option<String>)
    ensures
        opt_view(r) == list_id_in(value@),
{
    match value {
        FieldValue::Text(t) => Some(t.clone()),
        FieldValue::Addresses(groups) => {
            if groups.len() > 0 && groups[0].len() > 0 {
                assert(groups_view(groups@).first().first() == groups@[0]@[0]@);
                copy_option(&groups[0][0].address)
            } else {
                None
            }
        },
        _ => None,
    }
}

/// The identifier of the mailing list that the message came through.
pub fn extract_list_id(headers: &Vec<HeaderField>) -> (r: Option<String>)
    ensures
        opt_view(r) == list_id_of(headers_view(headers@)),
{
    let ghost all = headers_view(headers@);
    let mut i: usize = 0;
    assert(all.skip(0) =~= all);
    while i < headers.len()
        invariant
            all == headers_view(headers@),
            i <= headers@.len(),
            list_id_of(all) == list_id_of(all.skip(i as int)),
        decreases headers@.len() - i,
    {
        assert(all.skip(i as int).first() == headers@[i as int]@);
        assert(all.skip(i as int).drop_first() =~= all.skip(i + 1));
        if is_same_name(headers[i].name.as_str(), "List-Id") {
            let id = list_id_text(&headers[i].value);
            if id.is_some() {
                return id;
            }
        }
        i += 1;
    }
    assert(all.skip(i as int).len() == 0);
    None
}

/// The number of bytes of a character in UTF-8.
pub open spec fn char_width(c: char) -> nat {
    if (c as u32) < 0x80 {
        1
    } else if (c as u32) < 0x800 {
        2
    } else if (c as u32) < 0x10000 {
        3
    } else {
        4
    }
}

/// The number of bytes of a text in UTF-8.
pub open spec fn byte_length(s: Seq<char>) -> nat
    decreases s.len(),
{
    if s.len() == 0 {
        0
    } else {
        byte_length(s.drop_last()) + char_width(s.last())
    }
}

/// The longest prefix of a text that takes at most `max` bytes in UTF-8.
pub open spec fn byte_prefix(s: Seq<char>, max: nat) -> Seq<char>
    decreases s.len(),
{
    if s.len() == 0 || byte_length(s) <= max {
        s
    } else {
        byte_prefix(s.drop_last(), max)
    }
}

proof fn lemma_byte_length_grows(s: Seq<char>, n: int)
    requires
        0 <= n <= s.len(),
    ensures
        byte_length(s.take(n)) <= byte_length(s),
    decreases s.len(),
{
    if n < s.len() {
        lemma_byte_length_grows(s.drop_last(), n);
        assert(s.drop_last().take(n) =~= s.take(n));
    } else {
        assert(s.take(n) =~= s);
    }
}

/// A prefix that fits, while the next longer one does not, is the longest that fits.
proof fn lemma_byte_prefix(s: Seq<char>, n: int, max: nat)
    requires
        0 <= n <= s.len(),
        byte_length(s.take(n)) <= max,
        n < s.len() ==> byte_length(s.take(n + 1)) > max,
    ensures
        byte_prefix(s, max) == s.take(n),
    decreases s.len(),
{
    if n < s.len() {
        lemma_byte_length_grows(s, n + 1);
        let t = s.drop_last();
        assert(t.take(n) =~= s.take(n));
        if n < t.len() {
            assert(t.take(n + 1) =~= s.take(n + 1));
        }
        lemma_byte_prefix(t, n, max);
    } else {
        assert(s.take(n) =~= s);
    }
}

/// The longest prefix of a text that takes at most `max` bytes, and whether that is all of it.
fn cut_to_bytes(s: &str, max: usize) -> (r: (String, bool))
    ensures
        r.0@ == byte_prefix(s@, max as nat),
        r.1 == (byte_length(s@) <= max),
{
    let v = chars_of(s);
    let mut total: u128 = 0;
    let mut i: usize = 0;
    assert(v@.take(0) =~= Seq::<char>::empty());
    while i < v.len()
        invariant
            v@ == s@,
            i <= v@.len(),
            total == byte_length(v@.take(i as int)),
            total <= max,
        decreases v@.len() - i,
    {
        let n: u32 = v[i] as u32;
        let width: u128 = if n < 0x80 {
            1
        } else if n < 0x800 {
            2
        } else if n < 0x10000 {
            3
        } else {
            4
        };
        assert(v@.take(i + 1).drop_last() =~= v@.take(i as int));
        if total + width > max as u128 {
            proof {
                lemma_byte_prefix(s@, i as int, max as nat);
                lemma_byte_length_grows(s@, i + 1);
            }
            assert(v@.subrange(0, i as int) =~= s@.take(i as int));
            return (text_between(&v, 0, i), false);
        }
        total = total + width;
        i += 1;
    }
    assert(v@.take(i as int) =~= s@);
    (s.to_owned(), true)
}

/// A plain body cut to `max` bytes, with a note where something is missing.
pub open spec fn limited_plain(body: Option<Seq<char>>, max: nat) -> Option<Seq<char>> {
    match body {
        Some(s) => if byte_length(s) > max {
            Some(byte_prefix(s, max) + "\n[truncated]"@)
        } else {
            Some(s)
        },
        None => None,
    }
}

/// An HTML body cut to `max` bytes.
pub open spec fn limited_html(body: Option<Seq<char>>, max: nat) -> Option<Seq<char>> {
    match body {
        Some(s) => Some(byte_prefix(s, max)),
        None => None,
    }
}

fn limit_plain(body: &Option<String>, max: usize) -> (r: Option<String>)
    ensures
        opt_view(r) == limited_plain(opt_view(*body), max as nat),
{
    match body {
        Some(s) => {
            let cut = cut_to_bytes(s.as_str(), max);
            let mut text = cut.0;
            if !cut.1 {
                text.append("\n[truncated]");
            }
            Some(text)
        },
        None => None,
    }
}

fn limit_html(body: &Option<String>, max: usize) -> (r: Option<String>)
    ensures
        opt_view(r) == limited_html(opt_view(*body), max as nat),
{
    match body {
        Some(s) => Some(cut_to_bytes(s.as_str(), max).0),
        None => None,
    }
}

/// The attachment made of a part of the message.
pub open spec fn attachment_of(part: PartView) -> AttachmentView {
    AttachmentView {
        filename: match part.name {
            Some(n) => n,
            None => "attachment"@,
        },
        content_type: match part.main_type {
            Some(t) => t + "/"@ + (match part.sub_type {
                Some(s) => s,
                None => "octet-stream"@,
            }),
            None => "application/octet-stream"@,
        },
        data: part.data,
    }
}

/// The attachments made of the parts that are not larger than `max`, in order.
pub open spec fn kept_attachments(parts: Seq<PartView>, max: nat) -> Seq<AttachmentView>
    decreases parts.len(),
{
    if parts.len() == 0 {
        seq![]
    } else if parts.last().data.len() <= max {
        kept_attachments(parts.drop_last(), max).push(attachment_of(parts.last()))
    } else {
        kept_attachments(parts.drop_last(), max)
    }
}

fn copy_bytes(data: &Vec<u8>) -> (r: Vec<u8>)
    ensures
        r@ == data@,
{
    let mut out: Vec<u8> = Vec::new();
    let mut i: usize = 0;
    while i < data.len()
        invariant
            i <= data@.len(),
            out@ == data@.take(i as int),
        decreases data@.len() - i,
    {
        out.push(data[i]);
        assert(data@.take(i + 1) =~= data@.take(i as int).push(data@[i as int]));
        i += 1;
    }
    assert(data@.take(i as int) =~= data@);
    out
}

fn make_attachment(part: &AttachmentPart) -> (r: Attachment)
    ensures
        r@ == attachment_of(part@),
{
    let filename: String = match &part.name {
        Some(n) => n.clone(),
        None => "attachment".to_owned(),
    };
    let content_type: String = match &part.main_type {
        Some(t) => {
            let mut s = t.clone();
            s.append("/");
            match &part.sub_type {
                Some(sub) => s.append(sub.as_str()),
                None => s.append("octet-stream"),
            }
            s
        },
        None => "application/octet-stream".to_owned(),
    };
    Attachment { filename, content_type, data: copy_bytes(&part.data) }
}

/// The attachments that are not larger than the limit.
fn keep_attachments(parts: &Vec<AttachmentPart>, max: usize) -> (r: Vec<Attachment>)
    ensures
        attachments_view(r@) == kept_attachments(parts_view(parts@), max as nat),
{
    let ghost all = parts_view(parts@);
    let mut out: Vec<Attachment> = Vec::new();
    let mut i: usize = 0;
    assert(attachments_view(out@) =~= kept_attachments(all.take(0), max as nat));
    while i < parts.len()
        invariant
            all == parts_view(parts@),
            i <= parts@.len(),
            attachments_view(out@) == kept_attachments(all.take(i as int), max as nat),
        decreases parts@.len() - i,
    {
        let ghost so_far = attachments_view(out@);
        proof {
            assert(all.take(i + 1).drop_last() =~= all.take(i as int));
            assert(all.take(i + 1).last() == parts@[i as int]@);
        }
        if parts[i].data.len() <= max {
            let a = make_attachment(&parts[i]);
            out.push(a);
            assert(attachments_view(out@) =~= so_far.push(a@));
        }
        i += 1;
    }
    assert(all.take(i as int) =~= all);
    out
}

/// The identifier of a message: that of its Message-ID field, or one made of its UID.
pub open spec fn message_id_of(headers: Seq<HeaderView>, uid: u32) -> Seq<char> {
    let id = match field_text(last_field(headers, "Message-ID"@)) {
        Some(t) => clean_id(t),
        None => seq![],
    };
    if id.len() > 0 {
        id
    } else {
        "uid-"@ + decimal(uid as nat)
    }
}

/// The time of a message, if it is one that a date can have.
pub open spec fn valid_date(date: Option<i64>) -> Option<i64> {
    match date {
        Some(secs) => if is_date(secs) {
            Some(secs)
        } else {
            None
        },
        None => None,
    }
}

/// What is read of a mail message.
pub open spec fn email_of(uid: u32, mailbox: Seq<char>, mail: MailView, limits: LimitsConfig) -> EmailView {
    EmailView {
        uid,
        mailbox,
        message_id: message_id_of(mail.headers, uid),
        in_reply_to: in_reply_to_of(mail.headers),
        references: references_of(mail.headers),
        subject: match field_text(last_field(mail.headers, "Subject"@)) {
            Some(t) => t,
            None => "(no subject)"@,
        },
        from_name: sender_of(mail.headers).0,
        from_email: sender_of(mail.headers).1,
        date: valid_date(mail.date),
        list_id: list_id_of(mail.headers),
        body_plain: limited_plain(mail.body_text, limits.body_limit() as nat),
        body_html: limited_html(mail.body_html, limits.body_limit() as nat),
        attachments: kept_attachments(mail.attachments, limits.attachment_limit() as nat),
        thread_root: None,
        bridge_origin: bridge_origin_of(mail.headers),
    }
}

/// Takes what the bridge needs from a mail message.
pub fn assemble(uid: u32, mailbox: &str, mail: &MailMessage, limits: &LimitsConfig) -> (r:
    ParsedEmail)
    ensures
        r@ == email_of(uid, mailbox@, mail@, *limits),
{
    let headers = &mail.headers;
    let found: String = match text_of_field(headers, "Message-ID") {
        Some(t) => clean_message_id(t.as_str()),
        None => String::new(),
    };
    let message_id: String = if found.as_str().is_empty() {
        "uid-".to_owned().concat(decimal_text(uid as u64).as_str())
    } else {
        found
    };
    let subject: String = match text_of_field(headers, "Subject") {
        Some(t) => t,
        None => "(no subject)".to_owned(),
    };
    let sender = extract_from(headers);
    let date: Option<i64> = match mail.date {
        Some(secs) => date_from_seconds(secs),
        None => None,
    };
    let max_body: usize = limits.effective_max_body_bytes();
    ParsedEmail {
        uid,
        mailbox: mailbox.to_owned(),
        message_id,
        in_reply_to: extract_in_reply_to(headers),
        references: extract_references(headers),
        subject,
        from_name: sender.0,
        from_email: sender.1,
        date,
        list_id: extract_list_id(headers),
        body_plain: limit_plain(&mail.body_text, max_body),
        body_html: limit_html(&mail.body_html, max_body),
        attachments: keep_attachments(&mail.attachments, limits.effective_max_attachment_bytes()),
        thread_root: None,
        bridge_origin: extract_bridge_origin(headers),
    }
}

/// Reads a message that came from the mail server.
pub fn parse(raw: &RawEmail, limits: &LimitsConfig) -> (r: Result<ParsedEmail, EmailError>)
    ensures
        match message_of(raw.raw@) {
            Some(mail) => r matches Ok(email) && email@ == email_of(
                raw.uid,
                raw.mailbox@,
                mail,
                *limits,
            ),
            None => r matches Err(EmailError::NoMessage(uid, n)) && uid == raw.uid && n
                == raw.raw@.len(),
        },
{
    match read_mail(raw.raw.as_slice()) {
        Some(mail) => Ok(assemble(raw.uid, raw.mailbox.as_str(), &mail, limits)),
        None => Err(EmailError::NoMessage(raw.uid, raw.raw.len())),
    }
}

proof fn lemma_byte_length_first(c: char, s: Seq<char>)
    ensures
        byte_length(seq![c] + s) == char_width(c) + byte_length(s),
    decreases s.len(),
{
    let whole = seq![c] + s;
    if s.len() == 0 {
        assert(whole.drop_last() =~= Seq::<char>::empty());
        assert(byte_length(Seq::<char>::empty()) == 0);
    } else {
        assert(whole.drop_last() =~= seq![c] + s.drop_last());
        lemma_byte_length_first(c, s.drop_last());
    }
}

/// The length that limits apply to is that of the UTF-8 encoding.
pub proof fn law_byte_length_is_utf8(s: Seq<char>)
    ensures
        byte_length(s) == encode_utf8(s).len(),
    decreases s.len(),
{
    if s.len() > 0 {
        law_byte_length_is_utf8(s.drop_first());
        lemma_byte_length_first(s.first(), s.drop_first());
        assert(s =~= seq![s.first()] + s.drop_first());
        reveal_with_fuel(encode_utf8, 2);
        let c: char = s.first();
        char_is_scalar(c);
        assert(encode_scalar(c as u32).len() == char_width(c));
    }
}

/// A body is cut to no more bytes than the limit, and what is kept is its beginning.
pub proof fn law_body_fits_limit(s: Seq<char>, max: nat)
    ensures
        byte_length(byte_prefix(s, max)) <= max,
        byte_prefix(s, max).is_prefix_of(s),
        byte_length(s) <= max ==> byte_prefix(s, max) == s,
    decreases s.len(),
{
    if s.len() > 0 && byte_length(s) > max {
        law_body_fits_limit(s.drop_last(), max);
        let cut = byte_prefix(s.drop_last(), max);
        assert(cut == s.drop_last().subrange(0, cut.len() as int));
        assert(cut =~= s.subrange(0, cut.len() as int));
    } else {
        assert(s =~= s.subrange(0, s.len() as int));
    }
}

/// No attachment that is kept is larger than the limit.
pub proof fn law_attachments_fit_limit(parts: Seq<PartView>, max: nat)
    ensures
        forall|i: int|
            0 <= i < kept_attachments(parts, max).len() ==> (#[trigger] kept_attachments(
                parts,
                max,
            )[i]).data.len() <= max,
        (forall|i: int| 0 <= i < parts.len() ==> (#[trigger] parts[i]).data.len() <= max)
            ==> kept_attachments(parts, max) == parts.map_values(|p: PartView| attachment_of(p)),
    decreases parts.len(),
{
    if parts.len() > 0 {
        law_attachments_fit_limit(parts.drop_last(), max);
        let rest = kept_attachments(parts.drop_last(), max);
        assert forall|i: int| 0 <= i < kept_attachments(parts, max).len() implies (
        #[trigger] kept_attachments(parts, max)[i]).data.len() <= max by {
            if i < rest.len() {
                assert(kept_attachments(parts, max)[i] == rest[i]);
            }
        }
        let mapped = parts.map_values(|p: PartView| attachment_of(p));
        assert(mapped =~= parts.drop_last().map_values(|p: PartView| attachment_of(p)).push(
            attachment_of(parts.last()),
        ));
        if forall|i: int| 0 <= i < parts.len() ==> (#[trigger] parts[i]).data.len() <= max {
            assert forall|i: int| 0 <= i < parts.drop_last().len() implies (
            #[trigger] parts.drop_last()[i]).data.len() <= max by {
                assert(parts.drop_last()[i] == parts[i]);
            }
            assert(parts[parts.len() - 1].data.len() <= max);
        }
    } else {
        assert(kept_attachments(parts, max) =~= parts.map_values(
            |p: PartView| attachment_of(p),
        ));
    }
}

/// A message always has an identifier.
pub proof fn law_message_id_is_present(headers: Seq<HeaderView>, uid: u32)
    ensures
        message_id_of(headers, uid).len() > 0,
{
    reveal_strlit("uid-");
}

/// An address in lower case belongs to a domain in lower case.
pub open spec fn in_domain(email_lower: Seq<char>, domain_lower: Seq<char>) -> bool {
    ("@"@ + domain_lower).is_suffix_of(email_lower)
}

/// Whether an address in lower case belongs to a domain in lower case.
pub fn sender_in_domain(email_lower: &str, domain_lower: &str) -> (r: bool)
    ensures
        r == in_domain(email_lower@, domain_lower@),
{
    let suffix = "@".to_owned().concat(domain_lower);
    ends_with(email_lower, suffix.as_str())
}

pub open spec fn list_id_matches(email: EmailView, config: MailingListConfig) -> bool {
    match (email.list_id, config.list_id) {
        (Some(id), Some(wanted)) => occurs(id, wanted@),
        _ => false,
    }
}

pub open spec fn domain_matches(email: EmailView, config: MailingListConfig) -> bool {
    match config.sender_domains {
        Some(domains) => exists|i: int|
            0 <= i < domains@.len() && in_domain(
                lowercase(email.from_email),
                lowercase(#[trigger] domains@[i]@),
            ),
        None => false,
    }
}

pub open spec fn sender_matches(email: EmailView, config: MailingListConfig) -> bool {
    match config.sender_emails {
        Some(emails) => exists|i: int|
            0 <= i < emails@.len() && lowercase(email.from_email) == lowercase(
                #[trigger] emails@[i]@,
            ),
        None => false,
    }
}

pub open spec fn subject_matches(email: EmailView, config: MailingListConfig) -> bool {
    match config.subject_prefix {
        Some(prefix) => prefix@.is_prefix_of(email.subject),
        None => false,
    }
}

/// Mail of the list: one of the configured rules fits it.
pub open spec fn is_list_mail(email: EmailView, config: MailingListConfig) -> bool {
    ||| list_id_matches(email, config)
    ||| domain_matches(email, config)
    ||| sender_matches(email, config)
    ||| subject_matches(email, config)
}

fn any_domain(email_lower: &str, domains: &Vec<String>) -> (r: bool)
    ensures
        r == exists|i: int|
            0 <= i < domains@.len() && in_domain(email_lower@, lowercase(#[trigger] domains@[i]@)),
{
    let mut i: usize = 0;
    while i < domains.len()
        invariant
            i <= domains@.len(),
            forall|k: int|
                0 <= k < i ==> !in_domain(email_lower@, lowercase(#[trigger] domains@[k]@)),
        decreases domains@.len() - i,
    {
        let domain = domains[i].as_str().to_lowercase();
        if sender_in_domain(email_lower, domain.as_str()) {
            assert(in_domain(email_lower@, lowercase(domains@[i as int]@)));
            return true;
        }
        i += 1;
    }
    false
}

fn any_sender(email_lower: &str, emails: &Vec<String>) -> (r: bool)
    ensures
        r == exists|i: int|
            0 <= i < emails@.len() && email_lower@ == lowercase(#[trigger] emails@[i]@),
{
    let mut i: usize = 0;
    while i < emails.len()
        invariant
            i <= emails@.len(),
            forall|k: int| 0 <= k < i ==> email_lower@ != lowercase(#[trigger] emails@[k]@),
        decreases emails@.len() - i,
    {
        let address = emails[i].as_str().to_lowercase();
        if same_text(email_lower, address.as_str()) {
            assert(email_lower@ == lowercase(emails@[i as int]@));
            return true;
        }
        i += 1;
    }
    false
}

/// Whether a mail came through the list.
pub fn is_mailing_list_email(parsed: &ParsedEmail, config: &MailingListConfig) -> (r: bool)
    ensures
        r == is_list_mail(parsed@, *config),
{
    if let Some(id) = &parsed.list_id {
        if let Some(wanted) = &config.list_id {
            if contains_text(id.as_str(), wanted.as_str()) {
                return true;
            }
        }
    }
    let email_lower = parsed.from_email.as_str().to_lowercase();
    if let Some(domains) = &config.sender_domains {
        if any_domain(email_lower.as_str(), domains) {
            return true;
        }
    }
    if let Some(emails) = &config.sender_emails {
        if any_sender(email_lower.as_str(), emails) {
            return true;
        }
    }
    if let Some(prefix) = &config.subject_prefix {
        if starts_with(parsed.subject.as_str(), prefix.as_str()) {
            return true;
        }
    }
    false
}

/// Without any rule no mail counts as list mail.
pub proof fn law_no_rule_no_list_mail(email: EmailView, config: MailingListConfig)
    requires
        config.list_id is None,
        config.sender_domains is None,
        config.sender_emails is None,
        config.subject_prefix is None,
    ensures
        !is_list_mail(email, config),
{
}

/// `list` in order, each text at its first place only.
pub open spec fn first_places(list: Seq<Seq<char>>) -> Seq<Seq<char>>
    decreases list.len(),
{
    if list.len() == 0 {
        seq![]
    } else {
        let rest = first_places(list.drop_last());
        if rest.contains(list.last()) {
            rest
        } else {
            rest.push(list.last())
        }
    }
}

/// Each text of a list once, in the order of the first places.
pub fn distinct_texts(list: &Vec<String>) -> (r: Vec<String>)
    ensures
        views(r@) == first_places(views(list@)),
{
    let ghost all = views(list@);
    let mut out: Vec<String> = Vec::new();
    let mut i: usize = 0;
    assert(views(out@) =~= first_places(all.take(0)));
    while i < list.len()
        invariant
            all == views(list@),
            i <= list@.len(),
            views(out@) == first_places(all.take(i as int)),
        decreases list@.len() - i,
    {
        let ghost so_far = views(out@);
        assert(all.take(i + 1).drop_last() =~= all.take(i as int));
        if !list_contains(&out, list[i].as_str()) {
            out.push(list[i].clone());
            assert(views(out@) =~= so_far.push(all[i as int]));
        }
        i += 1;
    }
    assert(all.take(i as int) =~= all);
    out
}

/// The first places hold the texts of the list, and none of them twice.
pub proof fn law_first_places_are_distinct(list: Seq<Seq<char>>)
    ensures
        first_places(list).no_duplicates(),
        forall|s: Seq<char>| #[trigger] first_places(list).contains(s) <==> list.contains(s),
    decreases list.len(),
{
    if list.len() > 0 {
        let head = list.drop_last();
        let rest = first_places(head);
        law_first_places_are_distinct(head);
        assert forall|s: Seq<char>| #[trigger] first_places(list).contains(s) <==> list.contains(s) by {
            assert(rest.contains(s) <==> head.contains(s));
            assert(rest.contains(list.last()) <==> head.contains(list.last()));
            assert(list =~= head.push(list.last()));
            assert(rest.push(list.last()).contains(s) <==> rest.contains(s) || s == list.last()) by {
                lemma_push_contains(rest, list.last(), s);
            }
            lemma_push_contains(head, list.last(), s);
        }
    }
}

proof fn lemma_push_contains(list: Seq<Seq<char>>, last: Seq<char>, s: Seq<char>)
    ensures
        list.push(last).contains(s) <==> list.contains(s) || s == last,
{
    if list.contains(s) {
        let i = list.index_of(s);
        assert(list.push(last)[i] == s);
    }
    if s == last {
        assert(list.push(last)[list.len() as int] == s);
    }
    if list.push(last).contains(s) {
        let i = list.push(last).index_of(s);
        if i < list.len() {
            assert(list[i] == s);
        }
    }
}

/// The messages in whose thread a mail may stand, most likely first: the one that it answers, then
/// its references from the newest to the oldest.
pub open spec fn candidates_of(email: EmailView) -> Seq<Seq<char>> {
    let head = match email.in_reply_to {
        Some(id) => seq![id],
        None => seq![],
    };
    first_places(head + email.references.reverse())
}

/// The messages in whose thread a mail may stand, most likely first.
pub fn thread_candidates(parsed: &ParsedEmail) -> (r: Vec<String>)
    ensures
        views(r@) == candidates_of(parsed@),
{
    let mut out: Vec<String> = Vec::new();
    let ghost head = match parsed@.in_reply_to {
        Some(id) => seq![id],
        None => Seq::<Seq<char>>::empty(),
    };
    let ghost refs = parsed@.references;
    let ghost all = head + refs.reverse();
    if let Some(id) = &parsed.in_reply_to {
        out.push(id.clone());
        proof {
            reveal_with_fuel(first_places, 2);
            assert(views(out@) =~= seq![id@]);
            assert(head.drop_last() =~= Seq::<Seq<char>>::empty());
            assert(first_places(head) =~= seq![id@]);
        }
    } else {
        assert(views(out@) =~= first_places(head));
    }
    assert(all.take(head.len() as int) =~= head);
    let n: usize = parsed.references.len();
    let mut i: usize = n;
    while i > 0
        invariant
            n == parsed.references@.len(),
            refs == views(parsed.references@),
            all == head + refs.reverse(),
            i <= n,
            views(out@) == first_places(all.take(head.len() + (n - i))),
        decreases i,
    {
        let ghost so_far = views(out@);
        let ghost at = head.len() + (n - i);
        proof {
            assert(all.take(at + 1).drop_last() =~= all.take(at));
            assert(all.take(at + 1).last() == refs[i - 1]);
        }
        let id = &parsed.references[i - 1];
        if !list_contains(&out, id.as_str()) {
            out.push(id.clone());
            assert(views(out@) =~= so_far.push(id@));
        }
        i -= 1;
    }
    assert(all.take(head.len() + n) =~= all);
    out
}

/// The thread root of the first of the candidates that has a thread mapping.
pub open spec fn root_among(candidates: Seq<Seq<char>>, db: DbView) -> Option<Seq<char>>
    decreases candidates.len(),
{
    if candidates.len() == 0 {
        None
    } else if db.threads.contains_key(candidates.first()) {
        Some(db.threads[candidates.first()].thread_root_id)
    } else {
        root_among(candidates.drop_first(), db)
    }
}

/// A mail with its thread, as far as that is known.
pub open spec fn threaded(email: EmailView, db: DbView) -> EmailView {
    EmailView { thread_root: root_among(candidates_of(email), db), ..email }
}

/// Finds the thread of a mail among the threads that are known.
pub fn reconstruct_thread(parsed: &mut ParsedEmail, db: &Db)
    ensures
        final(parsed)@ == threaded(old(parsed)@, db@),
        final(parsed)@ == (EmailView {
            thread_root: root_among(candidates_of(old(parsed)@), db@),
            ..old(parsed)@
        }),
{
    let candidates = thread_candidates(parsed);
    let ghost all = views(candidates@);
    let ghost before = parsed@;
    let mut i: usize = 0;
    assert(all.skip(0) =~= all);
    while i < candidates.len()
        invariant
            all == views(candidates@),
            all == candidates_of(before),
            before == old(parsed)@,
            before == parsed@,
            i <= candidates@.len(),
            root_among(all, db@) == root_among(all.skip(i as int), db@),
        decreases candidates@.len() - i,
    {
        assert(all.skip(i as int).first() == candidates@[i as int]@);
        assert(all.skip(i as int).drop_first() =~= all.skip(i + 1));
        if let Some(thread) = db.get_thread_root(candidates[i].as_str()) {
            parsed.thread_root = Some(thread.1);
            return ;
        }
        i += 1;
    }
    assert(all.skip(i as int).len() == 0);
    parsed.thread_root = None;
}

/// A mail that answers a known message joins the thread of that message, whatever its references
/// say.
pub proof fn law_answer_joins_thread(email: EmailView, db: DbView)
    requires
        email.in_reply_to is Some,
        db.threads.contains_key(email.in_reply_to->0),
    ensures
        root_among(candidates_of(email), db) == Some(
            db.threads[email.in_reply_to->0].thread_root_id,
        ),
{
    let id = email.in_reply_to->0;
    let all = seq![id] + email.references.reverse();
    lemma_first_places_head(all);
}

proof fn lemma_first_places_head(list: Seq<Seq<char>>)
    requires
        list.len() > 0,
    ensures
        first_places(list).len() > 0,
        first_places(list).first() == list.first(),
    decreases list.len(),
{
    if list.len() > 1 {
        lemma_first_places_head(list.drop_last());
        assert(list.drop_last().first() == list.first());
    } else {
        assert(list.drop_last() =~= Seq::<Seq<char>>::empty());
        assert(first_places(Seq::<Seq<char>>::empty()) == Seq::<Seq<char>>::empty());
    }
}

/// A mail none of whose candidates is known begins a thread; one of whose candidates is known joins
/// a thread.
pub proof fn law_thread_found_iff_known(candidates: Seq<Seq<char>>, db: DbView)
    ensures
        root_among(candidates, db) is Some <==> exists|i: int|
            0 <= i < candidates.len() && db.threads.contains_key(#[trigger] candidates[i]),
    decreases candidates.len(),
{
    if candidates.len() > 0 {
        let rest = candidates.drop_first();
        law_thread_found_iff_known(rest, db);
        if db.threads.contains_key(candidates.first()) {
            assert(db.threads.contains_key(candidates[0]));
        } else {
            if exists|i: int|
                0 <= i < rest.len() && db.threads.contains_key(#[trigger] rest[i]) {
                let i = choose|i: int|
                    0 <= i < rest.len() && db.threads.contains_key(#[trigger] rest[i]);
                assert(db.threads.contains_key(candidates[i + 1]));
            }
            if exists|i: int|
                0 <= i < candidates.len() && db.threads.contains_key(#[trigger] candidates[i]) {
                let i = choose|i: int|
                    0 <= i < candidates.len() && db.threads.contains_key(#[trigger] candidates[i]);
                assert(rest[i - 1] == candidates[i]);
            }
        }
    }
}

/// The plain body: the one in the mail, or one made of the HTML body.
pub open spec fn plain_body_of(email: EmailView) -> Seq<char> {
    match email.body_plain {
        Some(plain) => plain,
        None => match email.body_html {
            Some(html) => plain_of(html),
            None => seq![],
        },
    }
}

/// The plain body: the one in the mail, or one made of the HTML body.
pub fn get_plain_body(email: &ParsedEmail) -> (r: String)
    ensures
        r@ == plain_body_of(email@),
{
    if let Some(plain) = &email.body_plain {
        return plain.clone();
    }
    if let Some(html) = &email.body_html {
        return html_to_plain(html.as_str());
    }
    String::new()
}

} // verus!
