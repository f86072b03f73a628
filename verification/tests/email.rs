use email_bot::config::{LimitsConfig, MailingListConfig};
use email_bot::db::Db;
use email_bot::email::{
    assemble, clean_message_id, extract_bridge_origin, extract_from, extract_in_reply_to,
    extract_list_id, extract_references, get_plain_body, is_mailing_list_email, parse,
    reconstruct_thread, sender_in_domain, thread_candidates, unless_empty, EmailError, ParsedEmail,
    RawEmail,
};
use email_bot::mail::{
    find_last_field, is_same_name, read_mail, text_of_field, AttachmentPart, FieldValue,
    HeaderField, MailMessage, Mailbox,
};
use email_bot::mail_scan::{is_safely_nested, is_safely_read, without_nesting};

fn make_limits() -> LimitsConfig {
    LimitsConfig {
        max_attachment_bytes: Some(1024 * 1024),
        max_body_bytes: Some(512 * 1024),
        max_quote_lines: Some(5),
    }
}

fn raw_email(uid: u32, bytes: &[u8]) -> RawEmail {
    RawEmail { uid, mailbox: "INBOX".to_owned(), raw: bytes.to_vec() }
}

fn blank_email() -> ParsedEmail {
    ParsedEmail {
        uid: 1,
        mailbox: "INBOX".to_owned(),
        message_id: "id".to_owned(),
        in_reply_to: None,
        references: vec![],
        subject: "Test".to_owned(),
        from_name: None,
        from_email: "user@example.com".to_owned(),
        date: None,
        list_id: None,
        body_plain: None,
        body_html: None,
        attachments: vec![],
        thread_root: None,
        bridge_origin: None,
    }
}

fn text_field(name: &str, value: &str) -> HeaderField {
    HeaderField { name: name.to_owned(), value: FieldValue::Text(value.to_owned()) }
}

fn mailbox(name: Option<&str>, address: Option<&str>) -> Mailbox {
    Mailbox { name: name.map(str::to_owned), address: address.map(str::to_owned) }
}

#[test]
fn test_clean_message_id_strips_brackets() {
    assert_eq!(clean_message_id("<abc@example.com>"), "abc@example.com");
    assert_eq!(clean_message_id("abc@example.com"), "abc@example.com");
    assert_eq!(clean_message_id("  <abc@def>  "), "abc@def");
}

#[test]
fn test_parse_minimal_email() {
    let raw = raw_email(
        1,
        b"From: test@example.com\r\nTo: dest@example.com\r\nSubject: Hello\r\nMessage-ID: <test123@example.com>\r\n\r\nBody text here.",
    );
    let limits = make_limits();
    let parsed = parse(&raw, &limits).unwrap();
    assert_eq!(parsed.message_id, "test123@example.com");
    assert_eq!(parsed.subject, "Hello");
    assert_eq!(parsed.from_email, "test@example.com");
    assert!(parsed.body_plain.as_deref().unwrap_or("").contains("Body text here."));
}

#[test]
fn test_parse_empty_body() {
    let raw = raw_email(
        2,
        b"From: test@example.com\r\nSubject: Empty\r\nMessage-ID: <empty@example.com>\r\n\r\n",
    );
    let limits = make_limits();
    let parsed = parse(&raw, &limits).unwrap();
    assert_eq!(parsed.subject, "Empty");
    let body = parsed.body_plain.as_deref().unwrap_or("");
    assert!(body.is_empty() || body.len() < 5);
}

#[test]
fn test_parse_missing_headers() {
    let raw = raw_email(3, b"From: nobody@example.com\r\n\r\nContent here");
    let limits = make_limits();
    let parsed = parse(&raw, &limits).unwrap();
    assert_eq!(parsed.subject, "(no subject)");
    assert!(parsed.message_id.starts_with("uid-"));
    assert_eq!(parsed.message_id, "uid-3");
}

#[test]
fn test_is_mailing_list_email_list_id() {
    let mut email = blank_email();
    email.list_id = Some("<mylist.lists.example.com>".to_owned());
    let config = MailingListConfig {
        list_id: Some("mylist.lists.example.com".to_owned()),
        sender_domains: None,
        sender_emails: None,
        subject_prefix: None,
    };
    assert!(is_mailing_list_email(&email, &config));
}

#[test]
fn test_is_mailing_list_email_sender_domain() {
    let mut email = blank_email();
    email.from_email = "bot@lists.example.com".to_owned();
    let config = MailingListConfig {
        list_id: None,
        sender_domains: Some(vec!["lists.example.com".to_owned()]),
        sender_emails: None,
        subject_prefix: None,
    };
    assert!(is_mailing_list_email(&email, &config));
}

#[test]
fn test_is_mailing_list_email_subject_prefix() {
    let mut email = blank_email();
    email.subject = "[mylist] Hello everyone".to_owned();
    let config = MailingListConfig {
        list_id: None,
        sender_domains: None,
        sender_emails: None,
        subject_prefix: Some("[mylist]".to_owned()),
    };
    assert!(is_mailing_list_email(&email, &config));
}

#[test]
fn test_is_not_mailing_list_email() {
    let mut email = blank_email();
    email.subject = "Personal email".to_owned();
    email.from_email = "friend@gmail.com".to_owned();
    let config = MailingListConfig {
        list_id: Some("mylist".to_owned()),
        sender_domains: Some(vec!["lists.example.com".to_owned()]),
        sender_emails: None,
        subject_prefix: Some("[mylist]".to_owned()),
    };
    assert!(!is_mailing_list_email(&email, &config));
}

#[test]
fn sender_rules_ignore_case() {
    let mut email = blank_email();
    email.from_email = "Bot@Lists.Example.COM".to_owned();
    let mut config = MailingListConfig::default();
    assert!(!is_mailing_list_email(&email, &config));
    config.sender_domains = Some(vec!["other.org".to_owned(), "LISTS.example.com".to_owned()]);
    assert!(is_mailing_list_email(&email, &config));
    config.sender_domains = Some(vec!["example.com".to_owned()]);
    assert!(!is_mailing_list_email(&email, &config));
    config.sender_emails = Some(vec!["bot@lists.example.com".to_owned()]);
    assert!(is_mailing_list_email(&email, &config));
    assert!(sender_in_domain("a@b.c", "b.c"));
    assert!(!sender_in_domain("a@x.b.c", "b.c"));
}

#[test]
fn a_whole_message_is_read() {
    let raw = raw_email(
        9,
        b"From: Alice Example <alice@example.com>\r\n\
To: list@example.org\r\n\
Subject: First\r\n\
Subject: Second\r\n\
Date: Thu, 21 May 2026 14:30:00 +0000\r\n\
Message-ID: <three@example.com>\r\n\
In-Reply-To: <two@example.com>\r\n\
References: <one@example.com> <two@example.com>\r\n\
List-Id: My list <mylist.example.org>\r\n\
X-Bridge-Origin: MATRIX\r\n\
MIME-Version: 1.0\r\n\
Content-Type: multipart/mixed; boundary=\"b\"\r\n\
\r\n\
--b\r\n\
Content-Type: text/plain; charset=utf-8\r\n\
\r\n\
Hello there\r\n\
--b\r\n\
Content-Type: image/png; name=\"pic.png\"\r\n\
Content-Disposition: attachment; filename=\"pic.png\"\r\n\
Content-Transfer-Encoding: base64\r\n\
\r\n\
AAEC\r\n\
--b--\r\n",
    );
    let parsed = parse(&raw, &make_limits()).unwrap();
    assert_eq!(parsed.uid, 9);
    assert_eq!(parsed.mailbox, "INBOX");
    assert_eq!(parsed.subject, "Second");
    assert_eq!(parsed.from_name.as_deref(), Some("Alice Example"));
    assert_eq!(parsed.from_email, "alice@example.com");
    assert_eq!(parsed.date, Some(1779373800));
    assert_eq!(parsed.message_id, "three@example.com");
    assert_eq!(parsed.in_reply_to.as_deref(), Some("two@example.com"));
    assert_eq!(
        parsed.references,
        vec!["one@example.com".to_owned(), "two@example.com".to_owned()]
    );
    assert_eq!(parsed.list_id.as_deref(), Some("mylist.example.org"));
    assert_eq!(parsed.bridge_origin.as_deref(), Some("matrix"));
    assert!(parsed.body_plain.as_deref().unwrap().contains("Hello there"));
    assert!(parsed.thread_root.is_none());
    assert_eq!(parsed.attachments.len(), 1);
    assert_eq!(parsed.attachments[0].filename, "pic.png");
    assert_eq!(parsed.attachments[0].content_type, "image/png");
    assert_eq!(parsed.attachments[0].data, vec![0, 1, 2]);
}

#[test]
fn html_mail_has_an_html_body() {
    let raw = raw_email(
        4,
        b"From: a@example.com\r\nContent-Type: text/html\r\n\r\n<p>Hi <b>you</b></p>",
    );
    let parsed = parse(&raw, &make_limits()).unwrap();
    assert_eq!(parsed.body_html.as_deref(), Some("<p>Hi <b>you</b></p>"));
    assert!(parsed.body_plain.as_deref().unwrap().contains("Hi you"));
}

#[test]
fn bytes_that_are_no_message_are_an_error() {
    let raw = raw_email(5, b"");
    match parse(&raw, &make_limits()) {
        Err(EmailError::NoMessage(uid, n)) => assert_eq!((uid, n), (5, 0)),
        Ok(_) => panic!("expected an error"),
    }
}

#[test]
fn field_names_ignore_case_and_the_last_field_counts() {
    assert!(is_same_name("X-Bridge-Origin", "x-bridge-ORIGIN"));
    assert!(!is_same_name("Subject", "Subjects"));
    assert!(!is_same_name("a-b", "a_b"));
    let headers = vec![text_field("Subject", "one"), text_field("SUBJECT", "two")];
    assert_eq!(text_of_field(&headers, "subject").as_deref(), Some("two"));
    assert!(find_last_field(&headers, "From").is_none());
    let list = vec![HeaderField {
        name: "Message-ID".to_owned(),
        value: FieldValue::TextList(vec!["a".to_owned(), "b".to_owned()]),
    }];
    assert_eq!(text_of_field(&list, "Message-ID").as_deref(), Some("b"));
    let none = vec![HeaderField { name: "Date".to_owned(), value: FieldValue::Other }];
    assert_eq!(text_of_field(&none, "Date"), None);
}

#[test]
fn the_sender_is_the_first_address() {
    let groups = vec![
        vec![],
        vec![mailbox(Some("A"), None), mailbox(None, Some("b@x"))],
    ];
    let headers = vec![HeaderField {
        name: "From".to_owned(),
        value: FieldValue::Addresses(groups),
    }];
    assert_eq!(extract_from(&headers), (Some("A".to_owned()), "unknown".to_owned()));
    let headers = vec![HeaderField {
        name: "From".to_owned(),
        value: FieldValue::Addresses(vec![vec![mailbox(None, Some("b@x"))]]),
    }];
    assert_eq!(extract_from(&headers), (None, "b@x".to_owned()));
    assert_eq!(extract_from(&vec![]), (None, "unknown".to_owned()));
    assert_eq!(
        extract_from(&vec![text_field("From", "x@y")]),
        (None, "unknown".to_owned())
    );
}

#[test]
fn references_come_from_all_fields() {
    let headers = vec![
        text_field("References", " <a> <>  b\t"),
        text_field("Subject", "<x>"),
        HeaderField {
            name: "References".to_owned(),
            value: FieldValue::TextList(vec!["<c>".to_owned(), " ".to_owned()]),
        },
    ];
    assert_eq!(
        extract_references(&headers),
        vec!["a".to_owned(), "b".to_owned(), "c".to_owned()]
    );
}

#[test]
fn the_first_usable_in_reply_to_counts() {
    let headers = vec![
        text_field("In-Reply-To", " <> "),
        HeaderField {
            name: "In-Reply-To".to_owned(),
            value: FieldValue::TextList(vec!["<p>".to_owned(), "<q>".to_owned()]),
        },
        text_field("In-Reply-To", "<r>"),
    ];
    assert_eq!(extract_in_reply_to(&headers).as_deref(), Some("p"));
    assert_eq!(extract_in_reply_to(&vec![]), None);
}

#[test]
fn the_list_id_is_text_or_address() {
    assert_eq!(
        extract_list_id(&vec![text_field("List-ID", "a.b")]).as_deref(),
        Some("a.b")
    );
    let headers = vec![
        HeaderField { name: "List-Id".to_owned(), value: FieldValue::Addresses(vec![]) },
        HeaderField {
            name: "List-Id".to_owned(),
            value: FieldValue::Addresses(vec![vec![mailbox(Some("My"), Some("my.list"))]]),
        },
    ];
    assert_eq!(extract_list_id(&headers).as_deref(), Some("my.list"));
    assert_eq!(extract_list_id(&vec![]), None);
}

#[test]
fn the_bridge_mark_is_lowered_and_trimmed() {
    assert_eq!(
        extract_bridge_origin(&vec![text_field("X-Bridge-Origin", " Matrix ")]).as_deref(),
        Some("matrix")
    );
    assert_eq!(extract_bridge_origin(&vec![text_field("X-Bridge-Origin", "  ")]), None);
    assert_eq!(extract_bridge_origin(&vec![]), None);
    assert_eq!(unless_empty(String::new()), None);
}

#[test]
fn bodies_are_cut_at_character_boundaries() {
    let mail = MailMessage {
        headers: vec![],
        date: None,
        body_text: Some("aé€x".to_owned()),
        body_html: Some("aé€x".to_owned()),
        attachments: vec![],
    };
    let cut = |max: usize| {
        let limits = LimitsConfig {
            max_attachment_bytes: None,
            max_body_bytes: Some(max),
            max_quote_lines: None,
        };
        let parsed = assemble(1, "INBOX", &mail, &limits);
        (parsed.body_plain.unwrap(), parsed.body_html.unwrap())
    };
    assert_eq!(cut(7), ("aé€x".to_owned(), "aé€x".to_owned()));
    assert_eq!(cut(6), ("aé€\n[truncated]".to_owned(), "aé€".to_owned()));
    assert_eq!(cut(5), ("aé\n[truncated]".to_owned(), "aé".to_owned()));
    assert_eq!(cut(2), ("a\n[truncated]".to_owned(), "a".to_owned()));
    assert_eq!(cut(0), ("\n[truncated]".to_owned(), String::new()));
}

#[test]
fn large_attachments_are_left_out() {
    let part = |name: Option<&str>, kind: Option<(&str, Option<&str>)>, n: usize| AttachmentPart {
        name: name.map(str::to_owned),
        main_type: kind.map(|k| k.0.to_owned()),
        sub_type: kind.and_then(|k| k.1.map(str::to_owned)),
        data: vec![7; n],
    };
    let mail = MailMessage {
        headers: vec![],
        date: None,
        body_text: None,
        body_html: None,
        attachments: vec![
            part(Some("a"), Some(("image", Some("png"))), 3),
            part(Some("b"), Some(("text", None)), 4),
            part(None, None, 0),
        ],
    };
    let limits = LimitsConfig {
        max_attachment_bytes: Some(3),
        max_body_bytes: None,
        max_quote_lines: None,
    };
    let parsed = assemble(1, "INBOX", &mail, &limits);
    assert_eq!(parsed.attachments.len(), 2);
    assert_eq!(parsed.attachments[0].content_type, "image/png");
    assert_eq!(parsed.attachments[1].filename, "attachment");
    assert_eq!(parsed.attachments[1].content_type, "application/octet-stream");
    let all = assemble(1, "INBOX", &mail, &make_limits());
    assert_eq!(all.attachments[1].content_type, "text/octet-stream");
    assert_eq!(all.from_email, "unknown");
    assert!(all.date.is_none());
}

#[test]
fn dates_outside_of_the_calendar_are_dropped() {
    let mail = |secs: i64| MailMessage {
        headers: vec![],
        date: Some(secs),
        body_text: None,
        body_html: None,
        attachments: vec![],
    };
    assert_eq!(assemble(1, "I", &mail(5), &make_limits()).date, Some(5));
    assert_eq!(assemble(1, "I", &mail(i64::MAX), &make_limits()).date, None);
}

#[test]
fn raw_bytes_are_read_field_by_field() {
    let mail = read_mail(b"From: A <a@x>\r\nX-Odd: v\r\n\r\nbody").unwrap();
    assert_eq!(mail.headers.len(), 2);
    assert_eq!(mail.headers[0].name, "From");
    assert_eq!(mail.headers[1].name, "X-Odd");
    assert!(mail.attachments.is_empty());
    assert!(mail.body_text.unwrap().contains("body"));
    assert!(read_mail(b"").is_none());
}

fn with_attached(part: &str) -> String {
    format!(
        "From: a@x\r\nSubject: s\r\nMessage-ID: <m@x>\r\nContent-Type: multipart/mixed; boundary=\"B\"\r\n\r\n\
--B\r\nContent-Type: text/plain\r\n\r\nhello\r\n--B\r\n{part}\r\n--B--\r\n"
    )
}

#[test]
fn attached_messages_are_followed() {
    let raw = with_attached(
        "Content-Type: message/rfc822; name=\"old.eml\"\r\nContent-Transfer-Encoding: 7bit\r\n\r\nSubject: old\r\n\
Content-Type: text/plain\r\nContent-Transfer-Encoding: quoted-printable\r\n\r\nold text=21",
    );
    assert!(is_safely_nested(raw.as_bytes()));
    let mail = read_mail(raw.as_bytes()).unwrap();
    assert!(mail.body_text.unwrap().starts_with("hello"));
    assert_eq!(mail.attachments.len(), 1);
    assert_eq!(mail.attachments[0].main_type.as_deref(), Some("message"));
    assert_eq!(mail.attachments[0].sub_type.as_deref(), Some("rfc822"));
    assert_eq!(mail.attachments[0].name.as_deref(), Some("old.eml"));
    assert!(mail.attachments[0].data.starts_with(b"Subject: old"));
}

#[test]
fn encoded_messages_are_plain_attachments() {
    let raw = with_attached(
        "Content-Type: message/rfc822; name=\"old.eml\"\r\nContent-Transfer-Encoding: base64\r\n\r\nU3ViamVjdDogb2xkDQoNCm9sZCB0ZXh0",
    );
    assert!(!is_safely_nested(raw.as_bytes()));
    let mail = read_mail(raw.as_bytes()).unwrap();
    assert!(mail.body_text.unwrap().starts_with("hello"));
    assert_eq!(mail.attachments.len(), 1);
    assert_eq!(mail.attachments[0].sub_type.as_deref(), Some("rfc822"));
    assert_eq!(mail.attachments[0].name.as_deref(), Some("old.eml"));
    assert_eq!(mail.attachments[0].data, b"Subject: old\r\n\r\nold text");
    let hidden = raw.replace("base64", "=?us-ascii?b?YmFzZTY0?=");
    assert!(!is_safely_nested(hidden.as_bytes()));
}

#[test]
fn messages_directly_within_messages_are_plain_attachments() {
    let raw = with_attached(
        "Content-Type: message/rfc822\r\n\r\nContent-Type: message/rfc822\r\n\r\nSubject: x\r\n\r\ny",
    );
    assert!(!is_safely_nested(raw.as_bytes()));
    let mail = read_mail(raw.as_bytes()).unwrap();
    assert_eq!(mail.attachments.len(), 1);
    assert!(mail.attachments[0].data.starts_with(b"Content-Type: message/xfc822\r\n\r\nSubject: x"));
    let deep = "Content-Type: message/rfc822\n\n".repeat(40_000);
    assert!(!is_safely_nested(deep.as_bytes()));
    assert_eq!(read_mail(deep.as_bytes()).unwrap().headers.len(), 1);
}

#[test]
fn too_many_messages_are_plain_attachments() {
    let part = "Content-Type: message/rfc822\r\n\r\nSubject: x\r\n\r\ny\r\n--B\r\n";
    assert!(is_safely_nested(with_attached(&part.repeat(500)).as_bytes()));
    assert!(!is_safely_nested(with_attached(&part.repeat(501)).as_bytes()));
    assert_eq!(read_mail(with_attached(&part.repeat(501)).as_bytes()).unwrap().attachments.len(), 501);
}

#[test]
fn digests_are_read_as_parts() {
    let raw = b"Subject: s\r\nContent-Type: multipart/digest; boundary=B\r\n\r\n--B\r\n\r\nSubject: x\r\n\r\ny\r\n--B--\r\n";
    assert!(!is_safely_nested(raw));
    let mail = read_mail(raw).unwrap();
    assert!(mail.body_text.unwrap().contains("Subject: x"));
    assert!(mail.attachments.is_empty());
    let spoiled = without_nesting(raw);
    assert_eq!(spoiled, String::from_utf8_lossy(raw).replace("/digest", "/xigest").into_bytes());
}

#[test]
fn types_of_messages_are_found_where_they_can_stand() {
    let safe = |text: &str| is_safely_nested(text.as_bytes());
    assert!(!safe("Content-Type: multipart/digest\n"));
    assert!(!safe("con Tent-type : multipart (c) / (d) \"DIGEST\" ; a=b"));
    assert!(!safe("Content-Type: multipart\n /digest;"));
    assert!(safe("Content-Type: multipart/digester\n"));
    assert!(safe("Content-Type: text/plain\n\nmultipart/digest\n"));
    assert!(safe("message/rfc822\n\nmessage/rfc822\n"));
    assert!(!safe("Content-Type: message/rfc822\n\nContent-Type: message/rfc822\n"));
    let zone = "Date: Mon, 1 Jan 2024 00:00:00 UT\nContent-Type: message/global\n\nx";
    assert!(!safe(zone));
    assert!(safe(&zone.replace("UT", "GMT")));
    assert!(safe(&zone.replace("global", "other")));
}

#[test]
fn what_stops_the_parser_is_not_read() {
    let path = "Received: from a by b; Mon, 1 Jan 2024 00:00:00 -9223372036854775808\r\nSubject: s\r\n\r\nx";
    assert!(!is_safely_read(path.as_bytes()));
    assert!(read_mail(path.as_bytes()).is_none());
    assert!(!is_safely_read(path.replace("-92", "-0092").as_bytes()));
    assert!(is_safely_read(path.replace("Received", "X-Received-For").as_bytes()));
    let body = path.replace("\r\n\r\nx", "\r\n\r\n-9223372036854775808").replace(":00 -9223372036854775808", ":00 -0100");
    assert!(read_mail(body.as_bytes()).unwrap().body_text.unwrap().contains("-9223372036854775808"));
    let empty = with_attached("Content-Type: text/plain\r\nContent-Transfer-Encoding: quoted-printable\r\n\r\n=41=");
    assert!(!is_safely_read(empty.as_bytes()));
    assert!(read_mail(empty.as_bytes()).is_none());
    let short = empty.replace("=41=", "abc=");
    assert!(is_safely_read(short.as_bytes()));
    assert!(read_mail(short.as_bytes()).is_some());
    assert!(parse(&raw_email(1, path.as_bytes()), &make_limits()).is_err());
}

#[test]
fn candidates_run_from_parent_to_oldest() {
    let mut email = blank_email();
    email.in_reply_to = Some("c".to_owned());
    email.references = vec!["a".to_owned(), "b".to_owned(), "c".to_owned(), "a".to_owned()];
    assert_eq!(
        thread_candidates(&email),
        vec!["c".to_owned(), "a".to_owned(), "b".to_owned()]
    );
    email.in_reply_to = None;
    assert_eq!(
        thread_candidates(&email),
        vec!["a".to_owned(), "c".to_owned(), "b".to_owned()]
    );
}

#[test]
fn the_thread_of_the_nearest_known_message_is_taken() {
    let mut db = Db::new();
    db.store_thread("a", "$a", "a", "INBOX", 0);
    db.store_thread("b", "$b", "other", "INBOX", 0);
    let mut email = blank_email();
    email.in_reply_to = Some("unknown".to_owned());
    email.references = vec!["a".to_owned(), "b".to_owned()];
    reconstruct_thread(&mut email, &db);
    assert_eq!(email.thread_root.as_deref(), Some("other"));
    email.in_reply_to = Some("a".to_owned());
    reconstruct_thread(&mut email, &db);
    assert_eq!(email.thread_root.as_deref(), Some("a"));
    email.in_reply_to = None;
    email.references = vec!["x".to_owned()];
    reconstruct_thread(&mut email, &db);
    assert_eq!(email.thread_root, None);
}

#[test]
fn the_plain_body_falls_back_to_html() {
    let mut email = blank_email();
    assert_eq!(get_plain_body(&email), "");
    email.body_html = Some("<p>Hi</p>".to_owned());
    assert_eq!(get_plain_body(&email).trim(), "Hi");
    email.body_plain = Some("plain".to_owned());
    assert_eq!(get_plain_body(&email), "plain");
}
