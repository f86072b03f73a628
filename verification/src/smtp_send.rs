//! Mail made of Matrix messages.
use crate::config::SmtpConfig;
use crate::dates::{current_timestamp, header_date};
#[allow(unused_imports)]
use crate::dates::{header_pattern, is_date, utc_text};
use crate::email::{clean_id_list, clean_message_id, distinct_texts};
#[allow(unused_imports)]
use crate::email::{clean_id, clean_ids, first_places, law_first_places_are_distinct};
use crate::encoding::encode_lines;
#[allow(unused_imports)]
use crate::encoding::{base64_bytes, base64_text, without_breaks, wrapped};
use crate::format::starts_with_re;
#[allow(unused_imports)]
use crate::format::begins_with_re;
use crate::text::{chars_of, is_control, join_texts, list_contains, text_between, trim};
#[allow(unused_imports)]
use crate::text::{
    drop_leading, in_class, is_control_char, joined, lemma_drop_leading, lemma_drop_trailing,
    one_line, position, trimmed, views, CharClass,
};
use lettre::Address;
use uuid::Uuid;
#[allow(unused_imports)]
use vstd::utf8::encode_utf8;
use vstd::prelude::*;

verus! {

/// A Matrix message on its way to the mailing list.
#[derive(Debug)]
pub struct SmtpReply {
    /// The sender's name in the From field.
    pub display_name: String,
    /// The sender's Matrix ID, shown beside the name and above the body.
    pub sender_matrix_id: String,
    /// The identifier of the mail that is answered, without angle brackets; empty for a new thread.
    pub in_reply_to: String,
    /// Identifiers of older mails of the thread, oldest first.
    pub references: Vec<String>,
    pub subject: String,
    pub body: String,
    /// Made beforehand, so that it can be recorded before anything is sent.
    pub our_message_id: String,
}

pub ghost struct ReplyView {
    pub display_name: Seq<char>,
    pub sender_matrix_id: Seq<char>,
    pub in_reply_to: Seq<char>,
    pub references: Seq<Seq<char>>,
    pub subject: Seq<char>,
    pub body: Seq<char>,
    pub our_message_id: Seq<char>,
}

impl View for SmtpReply {
    type V = ReplyView;

    open spec fn view(&self) -> ReplyView {
        ReplyView {
            display_name: self.display_name@,
            sender_matrix_id: self.sender_matrix_id@,
            in_reply_to: self.in_reply_to@,
            references: views(self.references@),
            subject: self.subject@,
            body: self.body@,
            our_message_id: self.our_message_id@,
        }
    }
}

pub open spec fn is_hex_digit(c: char) -> bool {
    '0' <= c <= '9' || 'a' <= c <= 'f'
}

/// The text of a random UUID: groups of 8, 4, 4, 4 and 12 hexadecimal digits, the third of which
/// begins with a 4.
pub open spec fn is_uuid(s: Seq<char>) -> bool {
    &&& s.len() == 36
    &&& s[14] == '4'
    &&& forall|i: int|
        0 <= i < 36 ==> if i == 8 || i == 13 || i == 18 || i == 23 {
            #[trigger] s[i] == '-'
        } else {
            is_hex_digit(s[i])
        }
}

/// The Message-ID made of a UUID.
pub open spec fn bridge_id(uuid: Seq<char>) -> Seq<char> {
    uuid + "@email-bridge.local"@
}

/// Calls `uuid::Uuid::new_v4` and writes the result as text. The digits are random; only the shape
/// of the text is claimed.
#[verifier::external_body]
fn random_uuid() -> (text: String)
    ensures
        is_uuid(text@),
{
    Uuid::new_v4().to_string()
}

/// The Message-ID made of a UUID.
pub fn bridge_message_id(uuid: &str) -> (r: String)
    ensures
        r@ == bridge_id(uuid@),
{
    uuid.to_owned().concat("@email-bridge.local")
}

fn new_message_id() -> (r: String)
    ensures
        exists|uuid: Seq<char>| is_uuid(uuid) && r@ == #[trigger] bridge_id(uuid),
{
    let uuid = random_uuid();
    bridge_message_id(uuid.as_str())
}

impl SmtpReply {
    /// A reply in a mail thread, under a new Message-ID.
    pub fn new(
        display_name: String,
        sender_matrix_id: String,
        in_reply_to: String,
        references: Vec<String>,
        subject: String,
        body: String,
    ) -> (r: Self)
        ensures
            exists|uuid: Seq<char>|
                {
                    &&& is_uuid(uuid)
                    &&& r@ == (ReplyView {
                        display_name: display_name@,
                        sender_matrix_id: sender_matrix_id@,
                        in_reply_to: in_reply_to@,
                        references: views(references@),
                        subject: subject@,
                        body: body@,
                        our_message_id: #[trigger] bridge_id(uuid),
                    })
                },
    {
        let our_message_id = new_message_id();
        SmtpReply {
            display_name,
            sender_matrix_id,
            in_reply_to,
            references,
            subject,
            body,
            our_message_id,
        }
    }

    /// The first mail of a thread, under a new Message-ID.
    pub fn new_thread(
        display_name: String,
        sender_matrix_id: String,
        subject: String,
        body: String,
    ) -> (r: Self)
        ensures
            exists|uuid: Seq<char>|
                {
                    &&& is_uuid(uuid)
                    &&& r@ == (ReplyView {
                        display_name: display_name@,
                        sender_matrix_id: sender_matrix_id@,
                        in_reply_to: seq![],
                        references: seq![],
                        subject: subject@,
                        body: body@,
                        our_message_id: #[trigger] bridge_id(uuid),
                    })
                },
    {
        let r = SmtpReply::new(
            display_name,
            sender_matrix_id,
            String::new(),
            Vec::new(),
            subject,
            body,
        );
        assert(views(Seq::<String>::empty()) =~= Seq::<Seq<char>>::empty());
        r
    }

    /// Whether the mail answers another.
    pub fn is_thread_reply(&self) -> (r: bool)
        ensures
            r == answers(self@),
    {
        !trim(self.in_reply_to.as_str()).as_str().is_empty()
    }
}

/// The mail answers another.
pub open spec fn answers(reply: ReplyView) -> bool {
    trimmed(reply.in_reply_to).len() > 0
}

/// A message identifier without white space around it and without its angle brackets.
pub fn strip_angle_brackets(s: &str) -> (r: String)
    ensures
        r@ == clean_id(s@),
{
    clean_message_id(s)
}

/// `s` without control characters.
pub open spec fn without_controls(s: Seq<char>) -> Seq<char>
    decreases s.len(),
{
    if s.len() == 0 {
        seq![]
    } else if is_control_char(s.last()) {
        without_controls(s.drop_last())
    } else {
        without_controls(s.drop_last()).push(s.last())
    }
}

/// The first `n` characters of `s`, or all of them.
pub open spec fn first_chars(s: Seq<char>, n: int) -> Seq<char> {
    if s.len() <= n {
        s
    } else {
        s.take(n)
    }
}

/// A text as it may stand in a header field: without control characters, without white space at its
/// ends, and cut to 64 characters.
pub open spec fn header_value(s: Seq<char>) -> Seq<char> {
    first_chars(trimmed(without_controls(s)), 64)
}

fn remove_controls(s: &str) -> (r: String)
    ensures
        r@ == without_controls(s@),
{
    let v = chars_of(s);
    let mut out = String::new();
    let mut i: usize = 0;
    while i < v.len()
        invariant
            v@ == s@,
            i <= v@.len(),
            out@ == without_controls(v@.take(i as int)),
        decreases v@.len() - i,
    {
        assert(v@.take(i + 1).drop_last() =~= v@.take(i as int));
        if !is_control(v[i]) {
            out.push(v[i]);
        }
        i += 1;
    }
    assert(v@.take(i as int) =~= v@);
    out
}

/// A text made fit for a header field.
pub fn sanitize_header_value(s: &str) -> (r: String)
    ensures
        r@ == header_value(s@),
{
    let clean = trim(remove_controls(s).as_str());
    let v = chars_of(clean.as_str());
    if v.len() <= 64 {
        clean
    } else {
        assert(v@.subrange(0, 64) =~= v@.take(64));
        text_between(&v, 0, 64)
    }
}

/// What stands in the From field beside the address.
pub open spec fn from_display(reply: ReplyView) -> Seq<char> {
    let name = header_value(reply.display_name);
    let id = without_controls(reply.sender_matrix_id);
    if id.len() == 0 {
        name
    } else {
        name + " (Matrix: "@ + id + ")"@
    }
}

/// The body with the lines that say who wrote it.
pub open spec fn attributed_body(reply: ReplyView) -> Seq<char> {
    if without_controls(reply.sender_matrix_id).len() == 0 {
        reply.body
    } else {
        "[Bridged from Matrix]\nUser: "@ + reply.display_name + "\nMatrix ID: "@
            + reply.sender_matrix_id + "\n---\n\n"@ + reply.body
    }
}

/// The subject of the mail: that of a reply begins with `Re:`.
pub open spec fn mail_subject(reply: ReplyView) -> Seq<char> {
    if answers(reply) && !begins_with_re(reply.subject, ':') {
        header_value("Re: "@ + reply.subject)
    } else {
        header_value(reply.subject)
    }
}

/// The identifiers of the References field: the older mails, each of them once, and last the one
/// that is answered.
pub open spec fn reference_chain(reply: ReplyView) -> Seq<Seq<char>> {
    let older = first_places(clean_ids(reply.references));
    let parent = clean_id(reply.in_reply_to);
    if parent.len() > 0 && !older.contains(parent) {
        older.push(parent)
    } else {
        older
    }
}

/// Identifiers in angle brackets.
pub open spec fn bracketed(ids: Seq<Seq<char>>) -> Seq<Seq<char>> {
    ids.map_values(|id: Seq<char>| "<"@ + id + ">"@)
}

/// The fields that tie a reply to its thread.
pub open spec fn thread_fields(reply: ReplyView) -> Seq<Seq<char>> {
    let chain = joined(bracketed(reference_chain(reply)), " "@);
    if !answers(reply) {
        seq![]
    } else if chain.len() > 0 {
        seq!["In-Reply-To: <"@ + clean_id(reply.in_reply_to) + ">"@, "References: "@ + chain]
    } else {
        seq!["In-Reply-To: <"@ + clean_id(reply.in_reply_to) + ">"@]
    }
}

/// The header fields of the mail in order, given the text of its date.
pub open spec fn header_fields(config: SmtpConfig, reply: ReplyView, date: Seq<char>) -> Seq<
    Seq<char>,
> {
    seq![
        "From: "@ + from_display(reply) + " <"@ + config.from_address@ + ">"@,
        "To: "@ + config.list_address@,
        "Reply-To: "@ + config.list_address@,
        "Subject: "@ + mail_subject(reply),
        "Date: "@ + date,
        "Message-ID: <"@ + reply.our_message_id + ">"@,
    ] + thread_fields(reply) + seq![
        "MIME-Version: 1.0"@,
        "Content-Type: text/plain; charset=utf-8"@,
        "Content-Transfer-Encoding: base64"@,
        "X-Bridge-Origin: matrix"@,
    ]
}

/// A mail made of its header fields and the lines of its encoded body.
pub open spec fn mail_text(fields: Seq<Seq<char>>, body_lines: Seq<char>) -> Seq<char> {
    joined(fields, "\r\n"@) + "\r\n\r\n"@ + body_lines + "\r\n"@
}

/// The mail that is handed to the mail server.
pub open spec fn raw_mail(config: SmtpConfig, reply: ReplyView, now: i64) -> Seq<char> {
    mail_text(
        header_fields(config, reply, utc_text(now, header_pattern())),
        wrapped(base64_text(encode_utf8(attributed_body(reply)))),
    )
}

/// `before`, `middle` and `after` in a row.
fn between(before: &str, middle: &str, after: &str) -> (r: String)
    ensures
        r@ == before@ + middle@ + after@,
{
    let mut s = before.to_owned();
    s.append(middle);
    s.append(after);
    s
}

fn build_from_display(reply: &SmtpReply) -> (r: String)
    ensures
        r@ == from_display(reply@),
{
    let name = sanitize_header_value(reply.display_name.as_str());
    let id = remove_controls(reply.sender_matrix_id.as_str());
    if id.as_str().is_empty() {
        name
    } else {
        let mut s = name;
        s.append(" (Matrix: ");
        s.append(id.as_str());
        s.append(")");
        s
    }
}

fn build_body(reply: &SmtpReply) -> (r: String)
    ensures
        r@ == attributed_body(reply@),
{
    let id = remove_controls(reply.sender_matrix_id.as_str());
    if id.as_str().is_empty() {
        reply.body.clone()
    } else {
        let mut s = "[Bridged from Matrix]\nUser: ".to_owned();
        s.append(reply.display_name.as_str());
        s.append("\nMatrix ID: ");
        s.append(reply.sender_matrix_id.as_str());
        s.append("\n---\n\n");
        s.append(reply.body.as_str());
        s
    }
}

fn build_subject(reply: &SmtpReply) -> (r: String)
    ensures
        r@ == mail_subject(reply@),
{
    if reply.is_thread_reply() && !starts_with_re(reply.subject.as_str()) {
        let subject = "Re: ".to_owned().concat(reply.subject.as_str());
        sanitize_header_value(subject.as_str())
    } else {
        sanitize_header_value(reply.subject.as_str())
    }
}

fn build_chain(reply: &SmtpReply) -> (r: Vec<String>)
    ensures
        views(r@) == reference_chain(reply@),
{
    let mut ids = distinct_texts(&clean_id_list(&reply.references));
    let ghost older = views(ids@);
    let parent = strip_angle_brackets(reply.in_reply_to.as_str());
    if !parent.as_str().is_empty() && !list_contains(&ids, parent.as_str()) {
        ids.push(parent);
        assert(views(ids@) =~= older.push(parent@));
    }
    ids
}

fn bracket_all(ids: &Vec<String>) -> (r: Vec<String>)
    ensures
        views(r@) == bracketed(views(ids@)),
{
    let mut out: Vec<String> = Vec::new();
    let mut i: usize = 0;
    while i < ids.len()
        invariant
            i <= ids@.len(),
            out@.len() == i,
            forall|k: int| 0 <= k < i ==> (#[trigger] out@[k])@ == "<"@ + ids@[k]@ + ">"@,
        decreases ids@.len() - i,
    {
        out.push(between("<", ids[i].as_str(), ">"));
        i += 1;
    }
    assert(views(out@) =~= bracketed(views(ids@)));
    out
}

/// The header fields of a mail, given the text of its date.
fn build_headers(config: &SmtpConfig, reply: &SmtpReply, date: &str) -> (r: Vec<String>)
    ensures
        views(r@) == header_fields(*config, reply@, date@),
{
    let mut h: Vec<String> = Vec::new();
    let mut from = "From: ".to_owned();
    from.append(build_from_display(reply).as_str());
    from.append(" <");
    from.append(config.from_address.as_str());
    from.append(">");
    h.push(from);
    h.push("To: ".to_owned().concat(config.list_address.as_str()));
    h.push("Reply-To: ".to_owned().concat(config.list_address.as_str()));
    h.push("Subject: ".to_owned().concat(build_subject(reply).as_str()));
    h.push("Date: ".to_owned().concat(date));
    h.push(between("Message-ID: <", reply.our_message_id.as_str(), ">"));
    let ghost first = views(h@);
    if reply.is_thread_reply() {
        let parent = strip_angle_brackets(reply.in_reply_to.as_str());
        h.push(between("In-Reply-To: <", parent.as_str(), ">"));
        let chain = join_texts(&bracket_all(&build_chain(reply)), " ");
        if !chain.as_str().is_empty() {
            h.push("References: ".to_owned().concat(chain.as_str()));
        }
    }
    assert(views(h@) =~= first + thread_fields(reply@));
    let ghost middle = views(h@);
    h.push("MIME-Version: 1.0".to_owned());
    h.push("Content-Type: text/plain; charset=utf-8".to_owned());
    h.push("Content-Transfer-Encoding: base64".to_owned());
    h.push("X-Bridge-Origin: matrix".to_owned());
    proof {
        assert(views(h@) =~= middle + seq![
            "MIME-Version: 1.0"@,
            "Content-Type: text/plain; charset=utf-8"@,
            "Content-Transfer-Encoding: base64"@,
            "X-Bridge-Origin: matrix"@,
        ]);
        assert(views(h@) =~= header_fields(*config, reply@, date@));
    }
    h
}

/// The body of the mail reads back, once the line breaks are taken out and base64 is decoded, as the
/// UTF-8 text of the message below its attribution; the breaks are those of the wrapping alone.
pub open spec fn body_reads_back(reply: ReplyView) -> bool {
    let data = encode_utf8(attributed_body(reply));
    &&& base64_bytes(without_breaks(wrapped(base64_text(data)))) == Some(data)
    &&& without_breaks(wrapped(base64_text(data))) == base64_text(data)
    &&& one_line(base64_text(data))
}

/// The mail for a Matrix message, sent at the given time. Its body reads back as the message below
/// its attribution.
pub fn build_raw_email_at(config: &SmtpConfig, reply: &SmtpReply, now: i64) -> (r: String)
    requires
        is_date(now),
    ensures
        r@ == raw_mail(*config, reply@, now),
        one_line(utc_text(now, header_pattern())),
        body_reads_back(reply@),
{
    let date = header_date(now);
    let headers = build_headers(config, reply, date.as_str());
    let body = build_body(reply);
    let lines = encode_lines(body.as_str().as_bytes());
    let mut raw = join_texts(&headers, "\r\n");
    raw.append("\r\n\r\n");
    raw.append(lines.as_str());
    raw.append("\r\n");
    raw
}

/// The mail for a Matrix message, sent now. Its body reads back as the message below its
/// attribution.
pub fn build_raw_email(config: &SmtpConfig, reply: &SmtpReply) -> (r: String)
    ensures
        exists|now: i64|
            {
                &&& is_date(now)
                &&& one_line(utc_text(now, header_pattern()))
                &&& r@ == #[trigger] raw_mail(*config, reply@, now)
            },
        body_reads_back(reply@),
{
    let now: i64 = current_timestamp();
    build_raw_email_at(config, reply, now)
}

/// Whether `lettre::Address::from_str` accepts a text.
pub uninterp spec fn address_parses(s: Seq<char>) -> bool;

/// Calls `<lettre::Address as FromStr>::from_str`. The answer depends on the text alone; an accepted
/// text holds an at sign.
#[verifier::external_body]
fn parse_address(s: &str) -> (ok: bool)
    ensures
        ok == address_parses(s@),
        ok ==> s@.contains('@'),
{
    s.parse::<Address>().is_ok()
}

/// A mail with the addresses of its envelope.
#[derive(Debug)]
pub struct Outgoing {
    pub from: String,
    pub to: String,
    pub raw: String,
}

/// Why a mail is not sent.
#[derive(Debug)]
pub enum SmtpError {
    /// The sending address is no mail address.
    InvalidFromAddress(String),
    /// The address of the list is no mail address.
    InvalidListAddress(String),
}

/// The sender and the receiver of mail: the bridge and the list.
pub open spec fn envelope_of(config: SmtpConfig) -> (Seq<char>, Seq<char>) {
    (config.from_address@, config.list_address@)
}

/// The mail and its envelope for a Matrix message, sent now.
pub fn prepare_send(config: &SmtpConfig, reply: &SmtpReply) -> (r: Result<Outgoing, SmtpError>)
    ensures
        match r {
            Ok(mail) => {
                &&& address_parses(config.from_address@)
                &&& address_parses(config.list_address@)
                &&& (mail.from@, mail.to@) == envelope_of(*config)
                &&& mail.from@ == config.from_address@
                &&& mail.to@ == config.list_address@
                &&& exists|now: i64|
                    {
                        &&& is_date(now)
                        &&& one_line(utc_text(now, header_pattern()))
                        &&& mail.raw@ == #[trigger] raw_mail(*config, reply@, now)
                    }
                &&& body_reads_back(reply@)
            },
            Err(SmtpError::InvalidFromAddress(a)) => a@ == config.from_address@ && !address_parses(
                config.from_address@,
            ),
            Err(SmtpError::InvalidListAddress(a)) => a@ == config.list_address@ && address_parses(
                config.from_address@,
            ) && !address_parses(config.list_address@),
        },
{
    let raw = build_raw_email(config, reply);
    if !parse_address(config.from_address.as_str()) {
        return Err(SmtpError::InvalidFromAddress(config.from_address.clone()));
    }
    if !parse_address(config.list_address.as_str()) {
        return Err(SmtpError::InvalidListAddress(config.list_address.clone()));
    }
    Ok(Outgoing { from: config.from_address.clone(), to: config.list_address.clone(), raw })
}

/// The text holds no control character.
pub open spec fn no_controls(s: Seq<char>) -> bool {
    forall|i: int| 0 <= i < s.len() ==> !is_control_char(#[trigger] s[i])
}

proof fn lemma_without_controls(s: Seq<char>)
    ensures
        no_controls(without_controls(s)),
    decreases s.len(),
{
    if s.len() > 0 {
        lemma_without_controls(s.drop_last());
    }
}

/// Trimming keeps a piece of the text.
proof fn lemma_trimmed_piece(s: Seq<char>)
    ensures
        exists|from: int|
            0 <= from <= from + trimmed(s).len() <= s.len() && trimmed(s) == #[trigger] s.subrange(
                from,
                from + trimmed(s).len(),
            ),
{
    let a = drop_leading(s, CharClass::White);
    lemma_drop_leading(s, CharClass::White);
    lemma_drop_trailing(a, CharClass::White);
    let from = s.len() - a.len();
    assert(trimmed(s) =~= s.subrange(from, from + trimmed(s).len()));
}

/// A header value holds no control character, so in particular no line break, and at most 64
/// characters.
pub proof fn law_header_value_is_safe(s: Seq<char>)
    ensures
        no_controls(header_value(s)),
        one_line(header_value(s)),
        header_value(s).len() <= 64,
{
    let clean = without_controls(s);
    lemma_without_controls(s);
    lemma_trimmed_piece(clean);
    let from = choose|from: int|
        0 <= from <= from + trimmed(clean).len() <= clean.len() && trimmed(clean)
            == #[trigger] clean.subrange(from, from + trimmed(clean).len());
    assert forall|i: int| 0 <= i < header_value(s).len() implies !is_control_char(
        #[trigger] header_value(s)[i],
    ) && header_value(s)[i] != '\r' && header_value(s)[i] != '\n' by {
        assert(header_value(s)[i] == trimmed(clean)[i]);
        assert(trimmed(clean)[i] == clean[from + i]);
    }
}

proof fn lemma_one_line_add(a: Seq<char>, b: Seq<char>)
    requires
        one_line(a),
        one_line(b),
    ensures
        one_line(a + b),
{
    assert forall|i: int| 0 <= i < (a + b).len() implies #[trigger] (a + b)[i] != '\r' && (a + b)[i]
        != '\n' by {
        if i < a.len() {
            assert((a + b)[i] == a[i]);
        } else {
            assert((a + b)[i] == b[i - a.len()]);
        }
    }
}

proof fn lemma_one_line_clean_id(id: Seq<char>)
    requires
        one_line(id),
    ensures
        one_line(clean_id(id)),
{
    let t = trimmed(id);
    let u = drop_leading(t, CharClass::Only('<'));
    lemma_trimmed_piece(id);
    let from = choose|from: int|
        0 <= from <= from + t.len() <= id.len() && t == #[trigger] id.subrange(
            from,
            from + t.len(),
        );
    lemma_drop_leading(t, CharClass::Only('<'));
    lemma_drop_trailing(u, CharClass::Only('>'));
    let c = clean_id(id);
    assert forall|i: int| 0 <= i < c.len() implies #[trigger] c[i] != '\r' && c[i] != '\n' by {
        assert(c[i] == u[i]);
        assert(u[i] == t[i + (t.len() - u.len())]);
        assert(t[i + (t.len() - u.len())] == id[from + i + (t.len() - u.len())]);
    }
}

proof fn lemma_one_line_ids(list: Seq<Seq<char>>)
    requires
        forall|i: int| 0 <= i < list.len() ==> one_line(#[trigger] list[i]),
    ensures
        forall|i: int| 0 <= i < clean_ids(list).len() ==> one_line(#[trigger] clean_ids(list)[i]),
    decreases list.len(),
{
    if list.len() > 0 {
        assert forall|i: int| 0 <= i < list.drop_last().len() implies one_line(
            #[trigger] list.drop_last()[i],
        ) by {
            assert(list.drop_last()[i] == list[i]);
        }
        lemma_one_line_ids(list.drop_last());
        assert(one_line(list[list.len() - 1]));
        lemma_one_line_clean_id(list.last());
        let head = clean_ids(list.drop_last());
        assert forall|i: int| 0 <= i < clean_ids(list).len() implies one_line(
            #[trigger] clean_ids(list)[i],
        ) by {
            if i < head.len() {
                assert(clean_ids(list)[i] == head[i]);
            }
        }
    }
}

proof fn lemma_one_line_joined(list: Seq<Seq<char>>, separator: Seq<char>)
    requires
        one_line(separator),
        forall|i: int| 0 <= i < list.len() ==> one_line(#[trigger] list[i]),
    ensures
        one_line(joined(list, separator)),
    decreases list.len(),
{
    if list.len() == 1 {
        assert(one_line(list[0]));
    } else if list.len() > 1 {
        let head = list.drop_last();
        assert forall|i: int| 0 <= i < head.len() implies one_line(#[trigger] head[i]) by {
            assert(head[i] == list[i]);
        }
        lemma_one_line_joined(head, separator);
        assert(one_line(list[list.len() - 1]));
        lemma_one_line_add(joined(head, separator), separator);
        lemma_one_line_add(joined(head, separator) + separator, list.last());
    }
}

proof fn lemma_one_line_display(reply: ReplyView)
    ensures
        one_line(from_display(reply)),
{
    let id = without_controls(reply.sender_matrix_id);
    law_header_value_is_safe(reply.display_name);
    lemma_without_controls(reply.sender_matrix_id);
    reveal_strlit(" (Matrix: ");
    reveal_strlit(")");
    assert forall|i: int| 0 <= i < id.len() implies #[trigger] id[i] != '\r' && id[i] != '\n' by {
        assert(!is_control_char(id[i]));
    }
    let name = header_value(reply.display_name);
    lemma_one_line_add(name, " (Matrix: "@);
    lemma_one_line_add(name + " (Matrix: "@, id);
    lemma_one_line_add(name + " (Matrix: "@ + id, ")"@);
}

proof fn lemma_one_line_chain(reply: ReplyView)
    requires
        one_line(reply.in_reply_to),
        forall|i: int| 0 <= i < reply.references.len() ==> one_line(#[trigger] reply.references[i]),
    ensures
        one_line(joined(bracketed(reference_chain(reply)), " "@)),
{
    lemma_one_line_clean_id(reply.in_reply_to);
    lemma_one_line_ids(reply.references);
    law_first_places_are_distinct(clean_ids(reply.references));
    let chain = reference_chain(reply);
    let older = first_places(clean_ids(reply.references));
    let list = bracketed(chain);
    reveal_strlit("<");
    reveal_strlit(">");
    reveal_strlit(" ");
    assert forall|i: int| 0 <= i < list.len() implies one_line(#[trigger] list[i]) by {
        if i < older.len() {
            assert(chain[i] == older[i]);
            assert(older.contains(older[i]));
            assert(clean_ids(reply.references).contains(older[i]));
        }
        assert(one_line(chain[i]));
        lemma_one_line_add("<"@, chain[i]);
        lemma_one_line_add("<"@ + chain[i], ">"@);
    }
    lemma_one_line_joined(list, " "@);
}

/// Whatever the sender's name, the sender's Matrix ID, the subject and the body hold, every header
/// field of the mail is a single line, and none is empty, provided that the configured addresses, the
/// identifiers and the date are single lines.
pub proof fn law_header_fields_are_lines(config: SmtpConfig, reply: ReplyView, date: Seq<char>)
    requires
        one_line(config.from_address@),
        one_line(config.list_address@),
        one_line(reply.our_message_id),
        one_line(reply.in_reply_to),
        forall|i: int| 0 <= i < reply.references.len() ==> one_line(#[trigger] reply.references[i]),
        one_line(date),
    ensures
        forall|i: int|
            0 <= i < header_fields(config, reply, date).len() ==> one_line(
                #[trigger] header_fields(config, reply, date)[i],
            ) && header_fields(config, reply, date)[i].len() > 0,
{
    let fields = header_fields(config, reply, date);
    let from = config.from_address@;
    let list = config.list_address@;
    let display = from_display(reply);
    let parent = clean_id(reply.in_reply_to);
    let chain = joined(bracketed(reference_chain(reply)), " "@);
    reveal_strlit("From: ");
    reveal_strlit(" <");
    reveal_strlit(">");
    reveal_strlit("To: ");
    reveal_strlit("Reply-To: ");
    reveal_strlit("Subject: ");
    reveal_strlit("Date: ");
    reveal_strlit("Message-ID: <");
    reveal_strlit("In-Reply-To: <");
    reveal_strlit("References: ");
    reveal_strlit("MIME-Version: 1.0");
    reveal_strlit("Content-Type: text/plain; charset=utf-8");
    reveal_strlit("Content-Transfer-Encoding: base64");
    reveal_strlit("X-Bridge-Origin: matrix");
    lemma_one_line_display(reply);
    lemma_one_line_add("From: "@, display);
    lemma_one_line_add("From: "@ + display, " <"@);
    lemma_one_line_add("From: "@ + display + " <"@, from);
    lemma_one_line_add("From: "@ + display + " <"@ + from, ">"@);
    lemma_one_line_add("To: "@, list);
    lemma_one_line_add("Reply-To: "@, list);
    law_header_value_is_safe("Re: "@ + reply.subject);
    law_header_value_is_safe(reply.subject);
    lemma_one_line_add("Subject: "@, mail_subject(reply));
    lemma_one_line_add("Date: "@, date);
    lemma_one_line_add("Message-ID: <"@, reply.our_message_id);
    lemma_one_line_add("Message-ID: <"@ + reply.our_message_id, ">"@);
    lemma_one_line_clean_id(reply.in_reply_to);
    lemma_one_line_add("In-Reply-To: <"@, parent);
    lemma_one_line_add("In-Reply-To: <"@ + parent, ">"@);
    lemma_one_line_chain(reply);
    lemma_one_line_add("References: "@, chain);
    let threads = thread_fields(reply);
    assert forall|i: int| 0 <= i < fields.len() implies one_line(#[trigger] fields[i])
        && fields[i].len() > 0 by {
        if 6 <= i < 6 + threads.len() {
            assert(fields[i] == threads[i - 6]);
        }
    }
}

proof fn lemma_no_empty_line(list: Seq<Seq<char>>)
    requires
        forall|i: int| 0 <= i < list.len() ==> one_line(#[trigger] list[i]) && list[i].len() > 0,
    ensures
        ({
            let s = joined(list, "\r\n"@);
            forall|i: int|
                0 <= i < s.len() && #[trigger] s[i] == '\r' ==> i + 2 < s.len() && s[i + 2] != '\r'
        }),
    decreases list.len(),
{
    reveal_strlit("\r\n");
    let s = joined(list, "\r\n"@);
    if list.len() == 1 {
        assert(one_line(list[0]));
    } else if list.len() > 1 {
        let head = list.drop_last();
        let h = joined(head, "\r\n"@);
        let last = list[list.len() - 1];
        assert forall|i: int| 0 <= i < head.len() implies one_line(#[trigger] head[i])
            && head[i].len() > 0 by {
            assert(head[i] == list[i]);
        }
        lemma_no_empty_line(head);
        assert(one_line(last) && last.len() > 0);
        assert forall|i: int| 0 <= i < s.len() && #[trigger] s[i] == '\r' implies i + 2 < s.len()
            && s[i + 2] != '\r' by {
            if i < h.len() {
                assert(h[i] == s[i]);
                assert(s[i + 2] == h[i + 2]);
            } else if i == h.len() {
                assert(s[i + 2] == last[0]);
            } else if i == h.len() + 1 {
                assert(s[i] == "\r\n"@[1]);
            } else {
                assert(s[i] == last[i - h.len() - 2]);
            }
        }
    }
}

proof fn lemma_first_position(s: Seq<char>, pattern: Seq<char>, n: int)
    requires
        0 <= n <= s.len(),
        pattern.is_prefix_of(s.skip(n)),
        forall|i: int| 0 <= i < n ==> !pattern.is_prefix_of(#[trigger] s.skip(i)),
    ensures
        position(s, pattern) == Some(n),
    decreases n,
{
    assert(s.skip(0) =~= s);
    if n > 0 {
        let t = s.drop_first();
        assert(!pattern.is_prefix_of(s.skip(0)));
        assert forall|i: int| 0 <= i < n - 1 implies !pattern.is_prefix_of(#[trigger] t.skip(i)) by {
            assert(t.skip(i) =~= s.skip(i + 1));
        }
        assert(t.skip(n - 1) =~= s.skip(n));
        lemma_first_position(t, pattern, n - 1);
    }
}

/// The first empty line of a mail whose header fields are single lines, none of them empty, is the
/// one after its last field: what stands in a field cannot end the header.
pub proof fn law_header_ends_at_first_empty_line(fields: Seq<Seq<char>>, body_lines: Seq<char>)
    requires
        forall|i: int| 0 <= i < fields.len() ==> one_line(#[trigger] fields[i]) && fields[i].len() > 0,
    ensures
        position(mail_text(fields, body_lines), "\r\n\r\n"@) == Some(
            joined(fields, "\r\n"@).len() as int,
        ),
{
    let h = joined(fields, "\r\n"@);
    let s = mail_text(fields, body_lines);
    let p = "\r\n\r\n"@;
    let n = h.len() as int;
    reveal_strlit("\r\n\r\n");
    reveal_strlit("\r\n");
    lemma_no_empty_line(fields);
    assert(s =~= h + (p + body_lines + "\r\n"@));
    assert(s.skip(n).subrange(0, p.len() as int) =~= p);
    assert forall|i: int| 0 <= i < n implies !p.is_prefix_of(#[trigger] s.skip(i)) by {
        if p.is_prefix_of(s.skip(i)) {
            assert(s.skip(i).subrange(0, 4) =~= p);
            assert(s.skip(i).subrange(0, 4)[0] == s[i]);
            assert(s.skip(i).subrange(0, 4)[2] == s[i + 2]);
            assert(h[i] == s[i]);
            assert(h[i + 2] == s[i + 2]);
        }
    }
    lemma_first_position(s, p, n);
}

/// The identifier that the bridge gives to a mail stays on one line.
pub proof fn law_bridge_id_is_line(uuid: Seq<char>)
    requires
        is_uuid(uuid),
    ensures
        one_line(bridge_id(uuid)),
        !bridge_id(uuid).contains('<'),
        !bridge_id(uuid).contains('>'),
{
    reveal_strlit("@email-bridge.local");
    let id = bridge_id(uuid);
    assert forall|i: int| 0 <= i < id.len() implies #[trigger] id[i] != '\r' && id[i] != '\n' && id[i]
        != '<' && id[i] != '>' by {
        if i < 36 {
            assert(id[i] == uuid[i]);
        } else {
            assert(id[i] == "@email-bridge.local"@[i - 36]);
        }
    }
}

/// Every mail of the bridge carries the mark by which the bridge knows its own mail again.
pub proof fn law_mail_is_marked(config: SmtpConfig, reply: ReplyView, date: Seq<char>)
    ensures
        header_fields(config, reply, date).contains("X-Bridge-Origin: matrix"@),
        header_fields(config, reply, date).last() == "X-Bridge-Origin: matrix"@,
{
    let fields = header_fields(config, reply, date);
    assert(fields[fields.len() - 1] == "X-Bridge-Origin: matrix"@);
}

/// A reply's chain of references holds each of the references given to it and the mail that it
/// answers, nothing else and nothing twice. It begins with the references in their order and ends
/// with the mail that is answered, unless that stands in it already.
pub proof fn law_chain_holds_parent(reply: ReplyView)
    ensures
        reference_chain(reply).no_duplicates(),
        clean_id(reply.in_reply_to).len() > 0 ==> reference_chain(reply).contains(
            clean_id(reply.in_reply_to),
        ),
        forall|id: Seq<char>| #[trigger]
            reference_chain(reply).contains(id) <==> clean_ids(reply.references).contains(id) || (
            id.len() > 0 && id == clean_id(reply.in_reply_to)),
        first_places(clean_ids(reply.references)).is_prefix_of(reference_chain(reply)),
{
    let all = clean_ids(reply.references);
    let older = first_places(all);
    let parent = clean_id(reply.in_reply_to);
    let chain = reference_chain(reply);
    law_first_places_are_distinct(all);
    assert(chain.subrange(0, older.len() as int) =~= older);
    if parent.len() > 0 && !older.contains(parent) {
        assert(chain[older.len() as int] == parent);
        assert forall|id: Seq<char>| #[trigger] chain.contains(id) <==> older.contains(id) || id
            == parent by {
            if older.contains(id) {
                let i = older.index_of(id);
                assert(chain[i] == id);
            }
            if chain.contains(id) {
                let i = chain.index_of(id);
                if i < older.len() {
                    assert(older[i] == id);
                }
            }
        }
    }
}

proof fn lemma_without_controls_start(s: Seq<char>)
    requires
        s.len() >= 3,
        !is_control_char(s[0]),
        !is_control_char(s[1]),
        !is_control_char(s[2]),
    ensures
        without_controls(s).len() >= 3,
        without_controls(s)[0] == s[0],
        without_controls(s)[1] == s[1],
        without_controls(s)[2] == s[2],
    decreases s.len(),
{
    if s.len() > 3 {
        lemma_without_controls_start(s.drop_last());
    } else {
        let a = s.drop_last();
        let b = a.drop_last();
        let c = b.drop_last();
        assert(c.len() == 0);
        assert(without_controls(c) == Seq::<char>::empty());
        assert(without_controls(b) == without_controls(c).push(s[0]));
        assert(without_controls(a) == without_controls(b).push(s[1]));
    }
}

proof fn lemma_re_survives(s: Seq<char>)
    requires
        begins_with_re(s, ':'),
    ensures
        begins_with_re(header_value(s), ':'),
{
    lemma_without_controls_start(s);
    let t = without_controls(s);
    let a = drop_leading(t, CharClass::White);
    lemma_drop_leading(t, CharClass::White);
    if a.len() < t.len() {
        assert(in_class(CharClass::White, t[0]));
    }
    assert(a =~= t);
    lemma_drop_trailing(a, CharClass::White);
    let r = trimmed(t);
    if r.len() < 3 {
        assert(in_class(CharClass::White, a[2]));
    }
    assert(r[0] == t[0] && r[1] == t[1] && r[2] == t[2]);
}

/// The subject of a mail that answers another begins with `Re:`.
pub proof fn law_answer_is_marked_re(reply: ReplyView)
    requires
        answers(reply),
    ensures
        begins_with_re(mail_subject(reply), ':'),
{
    if begins_with_re(reply.subject, ':') {
        lemma_re_survives(reply.subject);
    } else {
        reveal_strlit("Re: ");
        assert(begins_with_re("Re: "@ + reply.subject, ':'));
        lemma_re_survives("Re: "@ + reply.subject);
    }
}

} // verus!
