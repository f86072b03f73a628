use email_bot::config::SmtpConfig;
use email_bot::dates::{current_timestamp, date_from_seconds, header_date, short_date};
use email_bot::encoding::{decode_data, encode_data, encode_lines, wrap_lines};
use email_bot::smtp_send::{
    bridge_message_id, build_raw_email, build_raw_email_at, prepare_send, sanitize_header_value,
    strip_angle_brackets, SmtpError, SmtpReply,
};

fn config() -> SmtpConfig {
    SmtpConfig {
        host: "smtp.example.org".to_owned(),
        port: 587,
        username: "bot".to_owned(),
        from_address: "bot@example.org".to_owned(),
        list_address: "list@lists.example.org".to_owned(),
        require_smtps: false,
        allow_new_threads_from_matrix: false,
        list_confirmation_timeout_secs: None,
    }
}

fn reply() -> SmtpReply {
    let mut r = SmtpReply::new(
        "Alice".to_owned(),
        "@alice:example.org".to_owned(),
        "parent@example.org".to_owned(),
        vec!["<root@example.org>".to_owned(), " ".to_owned()],
        "Topic".to_owned(),
        "Hello".to_owned(),
    );
    r.our_message_id = "ours@email-bridge.local".to_owned();
    r
}

#[test]
fn reply_mail_is_built() {
    let raw = build_raw_email_at(&config(), &reply(), 1779373800);
    let body = "[Bridged from Matrix]\nUser: Alice\nMatrix ID: @alice:example.org\n---\n\nHello";
    let expected = format!(
        "From: Alice (Matrix: @alice:example.org) <bot@example.org>\r\n\
To: list@lists.example.org\r\n\
Reply-To: list@lists.example.org\r\n\
Subject: Re: Topic\r\n\
Date: Thu, 21 May 2026 14:30:00 +0000\r\n\
Message-ID: <ours@email-bridge.local>\r\n\
In-Reply-To: <parent@example.org>\r\n\
References: <root@example.org> <parent@example.org>\r\n\
MIME-Version: 1.0\r\n\
Content-Type: text/plain; charset=utf-8\r\n\
Content-Transfer-Encoding: base64\r\n\
X-Bridge-Origin: matrix\r\n\
\r\n\
{}\r\n",
        encode_lines(body.as_bytes())
    );
    assert_eq!(raw, expected);
}

#[test]
fn first_mail_of_a_thread_has_no_thread_fields() {
    let mut first = SmtpReply::new_thread(
        "Bob".to_owned(),
        String::new(),
        "Topic".to_owned(),
        "Hello".to_owned(),
    );
    assert!(!first.is_thread_reply());
    first.our_message_id = "x@y".to_owned();
    let raw = build_raw_email_at(&config(), &first, 0);
    assert!(raw.starts_with("From: Bob <bot@example.org>\r\n"));
    assert!(raw.contains("\r\nSubject: Topic\r\n"));
    assert!(!raw.contains("In-Reply-To"));
    assert!(!raw.contains("References"));
    assert!(raw.ends_with("\r\n\r\nSGVsbG8=\r\n"));
}

#[test]
fn subject_of_a_reply_is_marked_once() {
    let mut r = reply();
    r.subject = "RE: Topic".to_owned();
    assert!(build_raw_email_at(&config(), &r, 0).contains("\r\nSubject: RE: Topic\r\n"));
}

#[test]
fn header_fields_stay_on_one_line() {
    let mut r = reply();
    r.display_name = "Eve\r\nBcc: x@y".to_owned();
    r.subject = "a\nb\r\nc".to_owned();
    r.sender_matrix_id = "@eve\n:x".to_owned();
    let raw = build_raw_email_at(&config(), &r, 0);
    let head = raw.split("\r\n\r\n").next().unwrap();
    assert_eq!(head.split("\r\n").count(), 12);
    assert!(head.starts_with("From: EveBcc: x@y (Matrix: @eve:x) <bot@example.org>\r\n"));
    assert!(head.contains("\r\nSubject: Re: abc\r\n"));
}

#[test]
fn the_first_empty_line_ends_the_header() {
    let mut r = reply();
    r.display_name = "Eve\r\n\r\nx".to_owned();
    r.subject = "a\r\n\r\nb".to_owned();
    r.body = "c\r\n\r\nd".to_owned();
    for raw in [build_raw_email(&config(), &r), prepare_send(&config(), &r).unwrap().raw] {
        let end = raw.find("\r\n\r\n").unwrap();
        assert!(raw[..end].ends_with("\r\nX-Bridge-Origin: matrix"));
        assert!(!raw[end + 4..].contains("\r\n\r\n"));
    }
}

#[test]
fn parent_is_not_repeated_in_references() {
    let mut r = reply();
    r.references = vec!["parent@example.org".to_owned()];
    let raw = build_raw_email_at(&config(), &r, 0);
    assert!(raw.contains("\r\nReferences: <parent@example.org>\r\n"));
    r.in_reply_to = "<>".to_owned();
    r.references = vec![];
    let raw = build_raw_email_at(&config(), &r, 0);
    assert!(raw.contains("\r\nIn-Reply-To: <>\r\nMIME-Version"));
}

#[test]
fn references_are_not_repeated() {
    let mut r = reply();
    r.in_reply_to = "<b@x>".to_owned();
    r.references = vec!["a@x".to_owned(), "a@x".to_owned()];
    let raw = build_raw_email_at(&config(), &r, 0);
    assert!(raw.contains("\r\nIn-Reply-To: <b@x>\r\nReferences: <a@x> <b@x>\r\n"));
    r.references = ["<a@x>", "b@x", " a@x ", "c@x", "<b@x>"].map(str::to_owned).to_vec();
    let raw = build_raw_email_at(&config(), &r, 0);
    assert!(raw.contains("\r\nReferences: <a@x> <b@x> <c@x>\r\n"));
}

fn decoded_body(raw: &str) -> String {
    let body: String = raw.split("\r\n\r\n").nth(1).unwrap().split("\r\n").collect();
    String::from_utf8(decode_data(&body).unwrap()).unwrap()
}

#[test]
fn every_way_to_a_mail_keeps_its_body() {
    let mut r = reply();
    r.body = "a\r\n\r\nb ".repeat(40);
    let expected =
        format!("[Bridged from Matrix]\nUser: Alice\nMatrix ID: @alice:example.org\n---\n\n{}", r.body);
    assert_eq!(decoded_body(&build_raw_email_at(&config(), &r, 0)), expected);
    assert_eq!(decoded_body(&build_raw_email(&config(), &r)), expected);
    assert_eq!(decoded_body(&prepare_send(&config(), &r).unwrap().raw), expected);
}

#[test]
fn body_reads_back_from_the_mail() {
    let mut r = reply();
    r.body = "ä€😀 ".repeat(60);
    let raw = build_raw_email_at(&config(), &r, 0);
    let body = raw.split("\r\n\r\n").nth(1).unwrap();
    assert!(body.split("\r\n").all(|line| line.len() <= 76));
    let joined: String = body.split("\r\n").collect();
    let decoded = String::from_utf8(decode_data(&joined).unwrap()).unwrap();
    assert_eq!(
        decoded,
        format!("[Bridged from Matrix]\nUser: Alice\nMatrix ID: @alice:example.org\n---\n\n{}", r.body)
    );
}

#[test]
fn current_mail_has_a_current_date() {
    let before = current_timestamp();
    let raw = build_raw_email(&config(), &reply());
    let after = current_timestamp();
    let candidates: Vec<String> = (before..=after)
        .map(|t| format!("\r\nDate: {}\r\n", header_date(t)))
        .collect();
    assert!(candidates.iter().any(|line| raw.contains(line.as_str())));
}

#[test]
fn new_mail_gets_a_fresh_identifier() {
    let a = SmtpReply::new_thread(String::new(), String::new(), String::new(), String::new());
    let b = SmtpReply::new_thread(String::new(), String::new(), String::new(), String::new());
    assert_ne!(a.our_message_id, b.our_message_id);
    let uuid = a.our_message_id.strip_suffix("@email-bridge.local").unwrap();
    assert_eq!(uuid.len(), 36);
    for (i, c) in uuid.chars().enumerate() {
        if i == 8 || i == 13 || i == 18 || i == 23 {
            assert_eq!(c, '-');
        } else {
            assert!(c.is_ascii_hexdigit() && !c.is_ascii_uppercase());
        }
    }
    assert_eq!(uuid.chars().nth(14), Some('4'));
    assert_eq!(bridge_message_id("x"), "x@email-bridge.local");
}

#[test]
fn replies_are_told_from_first_mails() {
    let mut r = reply();
    assert!(r.is_thread_reply());
    r.in_reply_to = " \t".to_owned();
    assert!(!r.is_thread_reply());
}

#[test]
fn header_values_are_cleaned_and_cut() {
    assert_eq!(sanitize_header_value("  a\u{7}b\u{85}  "), "ab");
    assert_eq!(sanitize_header_value(&"é".repeat(70)), "é".repeat(64));
    assert_eq!(sanitize_header_value("\r\n"), "");
    assert_eq!(strip_angle_brackets(" <<a@b>> "), "a@b");
}

#[test]
fn envelopes_need_valid_addresses() {
    let mail = prepare_send(&config(), &reply()).unwrap();
    assert_eq!(mail.from, "bot@example.org");
    assert_eq!(mail.to, "list@lists.example.org");
    assert!(mail.raw.contains("Message-ID: <ours@email-bridge.local>"));
    let mut bad = config();
    bad.list_address = "nobody".to_owned();
    assert!(matches!(
        prepare_send(&bad, &reply()),
        Err(SmtpError::InvalidListAddress(a)) if a == "nobody"
    ));
    bad.from_address = "no one@".to_owned();
    assert!(matches!(
        prepare_send(&bad, &reply()),
        Err(SmtpError::InvalidFromAddress(a)) if a == "no one@"
    ));
}

#[test]
fn base64_goes_both_ways() {
    assert_eq!(encode_data(b"Hello"), "SGVsbG8=");
    assert_eq!(encode_data(b""), "");
    assert_eq!(decode_data("SGVsbG8="), Some(b"Hello".to_vec()));
    assert_eq!(decode_data("SGVsbG8"), None);
    assert_eq!(decode_data("*"), None);
    let bytes: Vec<u8> = (0..=255).collect();
    assert_eq!(decode_data(&encode_data(&bytes)), Some(bytes));
}

#[test]
fn lines_are_wrapped_at_76() {
    let long = "x".repeat(160);
    let wrapped = wrap_lines(&long);
    let lengths: Vec<usize> = wrapped.split("\r\n").map(str::len).collect();
    assert_eq!(lengths, vec![76, 76, 8]);
    assert_eq!(wrap_lines(&"y".repeat(76)), "y".repeat(76));
    assert_eq!(wrap_lines(""), "");
    assert_eq!(encode_lines(b"Hello"), "SGVsbG8=");
}

#[test]
fn dates_have_two_forms() {
    assert_eq!(short_date(1779373800), "Thu 21 May 14:30");
    assert_eq!(header_date(0), "Thu, 01 Jan 1970 00:00:00 +0000");
    assert_eq!(date_from_seconds(0), Some(0));
    assert_eq!(date_from_seconds(i64::MIN), None);
    assert!(current_timestamp() > 1_700_000_000);
}
