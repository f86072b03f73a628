use chrono::TimeZone;
use email_bot::config::LimitsConfig;
use email_bot::email::ParsedEmail;
use email_bot::format::{
    build_html, build_html_body, build_plain, clean_subject, collapse_quotes, count_re_prefix,
    format_date, format_email, format_sender, html_escape, plain_to_html, starts_with_re,
    strip_one_re, wrap_html_body,
};
use email_bot::html_clean::{
    html_to_plain, rendering_or_empty, sanitize_html, strip_tags_fallback,
};
use email_bot::html_scan::{is_renderable, tame};

fn mail() -> ParsedEmail {
    ParsedEmail {
        uid: 1,
        mailbox: "INBOX".to_owned(),
        message_id: "id".to_owned(),
        in_reply_to: None,
        references: vec![],
        subject: "[list] News & more".to_owned(),
        from_name: Some("Alice".to_owned()),
        from_email: "alice@example.com".to_owned(),
        date: Some(1779373800),
        list_id: None,
        body_plain: Some("Hello\n> a\n> b\n> c\nBye".to_owned()),
        body_html: None,
        attachments: vec![],
        thread_root: None,
        bridge_origin: None,
    }
}

fn two_quote_lines() -> LimitsConfig {
    LimitsConfig { max_attachment_bytes: None, max_body_bytes: None, max_quote_lines: Some(2) }
}

#[test]
fn test_format_sender_with_name() {
    assert_eq!(
        format_sender(Some("Alice"), "alice@example.com"),
        "Alice <alice@example.com>"
    );
}

#[test]
fn test_format_sender_without_name() {
    assert_eq!(format_sender(None, "alice@example.com"), "alice@example.com");
}

#[test]
fn test_format_sender_empty_name() {
    assert_eq!(format_sender(Some(""), "alice@example.com"), "alice@example.com");
}

#[test]
fn test_clean_subject_strips_list_prefix() {
    assert_eq!(clean_subject("[mylist] Hello world"), "Hello world");
    assert_eq!(clean_subject("[mylist] [sub] Hello world"), "Hello world");
}

#[test]
fn test_clean_subject_strips_multiple_re() {
    assert_eq!(clean_subject("Re: Re: Re: Hello"), "Hello");
    assert_eq!(clean_subject("RE: RE: Test subject"), "Test subject");
}

#[test]
fn test_clean_subject_single_re_kept() {
    let result = clean_subject("Re: Hello");
    assert_eq!(result, "Re: Hello");
}

#[test]
fn test_clean_subject_list_and_re() {
    assert_eq!(clean_subject("[list] Re: Hello"), "Re: Hello");
}

#[test]
fn test_collapse_quotes_under_limit() {
    let text = "> line 1\n> line 2\nRegular text";
    let out = collapse_quotes(text, 5);
    assert!(out.contains("> line 1"));
    assert!(out.contains("> line 2"));
    assert!(out.contains("Regular text"));
    assert!(!out.contains("more lines quoted"));
}

#[test]
fn test_collapse_quotes_over_limit() {
    let text = "> q1\n> q2\n> q3\n> q4\n> q5\n> q6\n> q7\nRegular";
    let out = collapse_quotes(text, 3);
    assert!(out.contains("> q1"));
    assert!(out.contains("> q2"));
    assert!(out.contains("> q3"));
    assert!(out.contains("4 more lines quoted"));
    assert!(!out.contains("> q4"));
}

#[test]
fn test_collapse_quotes_no_quotes() {
    let text = "Line 1\nLine 2\nLine 3";
    let out = collapse_quotes(text, 5);
    assert_eq!(out, text);
}

#[test]
fn test_format_date_none() {
    assert_eq!(format_date(None), "(unknown date)");
}

#[test]
fn test_format_date_some() {
    let dt = chrono::Utc.with_ymd_and_hms(2026, 5, 21, 14, 30, 0).unwrap();
    let out = format_date(Some(dt.timestamp()));
    assert!(out.contains("21"));
    assert!(out.contains("14:30"));
    assert_eq!(out, "Thu 21 May 14:30");
}

#[test]
fn test_sanitize_strips_script() {
    let dirty = r#"<p>Hello</p><script>alert('xss')</script>"#;
    let clean = sanitize_html(dirty);
    assert!(!clean.contains("<script>"));
    assert!(clean.contains("Hello"));
    assert_eq!(clean, "<p>Hello</p>");
}

#[test]
fn test_html_to_plain_basic() {
    let html = "<p>Hello <strong>world</strong>!</p>";
    let plain = html_to_plain(html);
    assert!(plain.contains("Hello"));
    assert!(plain.contains("world"));
    assert!(!plain.contains("<p>"));
}

#[test]
fn test_strip_tags_fallback_entities() {
    let html = "<p>A &amp; B &lt;tag&gt;</p>";
    let plain = strip_tags_fallback(html);
    assert!(plain.contains("A & B <tag>"));
}

#[test]
fn stripped_tags_leave_text_and_decode_in_order() {
    assert_eq!(strip_tags_fallback("a<b>c>d<e"), "acd");
    assert_eq!(strip_tags_fallback("&amp;lt;"), "<");
    assert_eq!(strip_tags_fallback("&quot;&#39;&nbsp;&gt;"), "\"' >");
    assert_eq!(strip_tags_fallback("plain"), "plain");
}

#[test]
fn escaped_text_is_read_back() {
    for text in ["a < b > c \"d\" 'e'", "", "<<>>\"\"", "R & D", "&amp;", "&&lt", "& lt;"] {
        assert_eq!(strip_tags_fallback(&html_escape(text)), text);
    }
    assert_eq!(strip_tags_fallback(&html_escape("&lt;")), "<");
}

#[test]
fn ordinary_tables_and_lists_are_rendered() {
    let table = "<table><tr><td rowspan=\"1\" colspan=\"2\">a</td></tr><tr><td>b</td><td>c</td></tr></table>";
    assert!(is_renderable(table));
    let plain = html_to_plain(table);
    assert!(plain.contains('─') && plain.contains('│'));
    let list = "<ol start=\"7\"><li>x</li><li>y</li></ol>";
    assert!(is_renderable(list));
    assert!(html_to_plain(list).contains("8. y"));
    assert!(is_renderable("<pre>a\tb</pre><p>rowspan colspan start pre</p>"));
    assert!(is_renderable("<ul><li>x</li></ul><blockquote><pre>\ty</pre></blockquote>"));
    assert!(html_to_plain("<blockquote><pre>a\n  b</pre></blockquote>").contains(">   b"));
    assert!(is_renderable("caf&#233; &#x1F600; &nbsp; \u{1F600}"));
    assert!(html_to_plain("<p>caf&#233;</p>").contains("café"));
    assert!(is_renderable("<p>a&#18446744073709559821;b</p>"));
    assert!(is_renderable("<td colspan=999999999 rowspan=1>"));
    assert!(is_renderable("<ol start=-99999999999999999>"));
    assert!(html_to_plain("<ol start=999999999999999999><li>a</li></ol>").contains("999999999999999999. a"));
}

#[test]
fn cells_over_two_rows_are_rendered() {
    let mut seed: u64 = 7;
    let mut next = |n: u64| {
        seed = seed.wrapping_mul(6364136223846793005).wrapping_add(1442695040888963407);
        (seed >> 33) % n
    };
    for _ in 0..400 {
        let mut html = String::new();
        for _ in 0..2 {
            html.push_str("<table>");
            for _ in 0..1 + next(3) {
                html.push_str("<tr>");
                for _ in 0..next(4) {
                    let text = ["", "a", "bb bb", "cccccccccccccccccccc"][next(4) as usize];
                    let span = 1 + next(2);
                    html.push_str(&format!("<td rowspan={span}>{text}</td>"));
                }
                html.push_str("</tr>");
            }
            html.push_str("</table>");
        }
        assert!(is_renderable(&html));
        html_to_plain(&html);
    }
    let plain = html_to_plain("<table><tr><td rowspan=2>x</td><td>y</td></tr><tr><td>z</td></tr></table>");
    assert!(plain.contains('x') && plain.contains('y') && plain.contains('z'));
}

#[test]
fn what_cannot_be_rendered_is_tamed() {
    let cases = [
        ("<table><tr><td rowspan=2 colspan=2>a</td></tr></table>", "a"),
        ("<table><tr><td ROWSPAN = '3'>a</td></tr></table>", "a"),
        ("<table><tr><td rowspan=&#51;>a</td></tr></table>", "a"),
        ("<table><tr><td colspan=\"18446744073709551615\">a &amp; b</td></tr></table>", "a & b"),
        ("<ol start=9223372036854775807><li>a</li><li>b</li></ol>", "1. a\n2. b"),
        ("<table><tr><td><blockquote><pre>a\tb</pre></blockquote></td></tr></table>", "> a b"),
        ("<p>a\u{200D}b</p>", "ab\n"),
        ("<p>\u{2764}\u{FE0F} hi</p>", "\u{2764} hi\n"),
        ("<p>a&#8205;b</p>", "ab\n"),
        ("<p>a&#X200d;b</p>", "ab\n"),
        ("<p>a&#65039 b</p>", "a b\n"),
        ("<p>a&#00000000000000000000000000008205;b</p>", "ab\n"),
        ("<p>a&zwj;b</p>", "ab\n"),
        ("<p>\u{1F44D}\u{1F3FD}</p>", "\u{1F44D}\n"),
    ];
    for (html, text) in cases {
        assert!(!is_renderable(html), "{html}");
        assert!(is_renderable(&tame(html)), "{html}");
        let plain = html_to_plain(html);
        assert!(plain.contains(text), "{html}: {plain}");
    }
    assert_eq!(tame("<td ROWSPAN=3 colspan=1234567890><PRE>"), "<td _OWSPAN=3 _olspan=1234567890><PRE>");
    assert_eq!(tame("<Pre><ul><ul><ul><ul>"), "<xre><ul><ul><ul><ul>");
    assert_eq!(tame("<p>plain</p>"), "<p>plain</p>");
}

#[test]
fn what_cannot_be_tamed_loses_its_tags() {
    let html = "<p>\u{644}\u{627} &amp; b</p>";
    assert!(!is_renderable(html));
    assert!(!is_renderable(&tame(html)));
    assert_eq!(html_to_plain(html), "\u{644}\u{627} & b");
}

#[test]
fn failed_rendering_is_empty() {
    assert_eq!(rendering_or_empty(None), "");
    assert_eq!(rendering_or_empty(Some("x".to_owned())), "x");
}

#[test]
fn dates_out_of_range_are_unknown() {
    assert_eq!(format_date(Some(i64::MAX)), "(unknown date)");
    assert_eq!(format_date(Some(8210266876800)), "(unknown date)");
    assert_eq!(format_date(Some(8210266876799)), "Mon 31 Dec 23:59");
    assert_eq!(format_date(Some(-8334601228801)), "(unknown date)");
    assert_ne!(format_date(Some(-8334601228800)), "(unknown date)");
    assert_eq!(format_date(Some(0)), "Thu 01 Jan 00:00");
}

#[test]
fn quotes_collapse_run_by_run() {
    assert_eq!(
        collapse_quotes("a\n> 1\n> 2\n> 3\nb\n> 4\n> 5", 2),
        "a\n> 1\n> 2\n[... 1 more lines quoted]\nb\n> 4\n> 5"
    );
    assert_eq!(collapse_quotes("> 1\n> 2", 0), "[... 2 more lines quoted]");
    assert_eq!(collapse_quotes("", 3), "");
    assert_eq!(collapse_quotes("a\r\nb\n", 3), "a\nb");
    assert_eq!(collapse_quotes(" > not at the start", 0), " > not at the start");
}

#[test]
fn collapsing_twice_changes_nothing_more() {
    let once = collapse_quotes("> 1\n> 2\n> 3\nx\n> 4\n> 5\n> 6\n> 7", 2);
    assert_eq!(collapse_quotes(&once, 2), once);
    for text in ["", "\n", "a", "a\r", "> 1\n> 2\n> 3", "a\r\nb\r\n"] {
        let once = collapse_quotes(text, 1);
        assert_eq!(collapse_quotes(&once, 1), once);
    }
    let ends_blank = collapse_quotes("a\n\n", 1);
    assert_eq!(ends_blank, "a\n");
    assert_eq!(collapse_quotes(&ends_blank, 1), "a");
}

#[test]
fn short_quotes_and_other_text_are_kept() {
    for text in ["a\n\nb", "a\r", "", "> 1\n> 2\nx\n> 3", "a > b\n >c"] {
        assert_eq!(collapse_quotes(text, 2), text);
    }
}

#[test]
fn each_run_of_quotes_is_one_block() {
    let html = plain_to_html("> <b>1\n> \"2\"\n</blockquote>\n>3\n\n>>4\n>5\n>6", 2);
    assert_eq!(html.matches("<blockquote>").count(), 3);
    assert_eq!(html.matches("</blockquote>\n").count(), 3);
    let tags: Vec<&str> = html
        .split('<')
        .skip(1)
        .map(|t| t.split('>').next().unwrap())
        .filter(|t| t.ends_with("blockquote"))
        .collect();
    assert_eq!(
        tags,
        vec![
            "blockquote",
            "/blockquote",
            "blockquote",
            "/blockquote",
            "blockquote",
            "/blockquote"
        ]
    );
    assert!(html.contains("&lt;b&gt;1<br>") && html.contains("&lt;/blockquote&gt;<br>"));
}

#[test]
fn reply_prefixes_are_counted_and_stripped() {
    assert_eq!(count_re_prefix("Re: RE:re: x"), 3);
    assert_eq!(count_re_prefix("Re[2]: Re: x"), 2);
    assert_eq!(count_re_prefix("Re[2 x"), 0);
    assert_eq!(count_re_prefix("Regarding"), 0);
    assert_eq!(strip_one_re("Re[2]:  x ").as_deref(), Some("x"));
    assert_eq!(strip_one_re("rE: Re: x").as_deref(), Some("Re: x"));
    assert_eq!(strip_one_re("x"), None);
    assert!(starts_with_re("RE: x"));
    assert!(!starts_with_re("Re[2]: x"));
    assert!(!starts_with_re("R"));
}

#[test]
fn subjects_keep_what_is_not_a_prefix() {
    assert_eq!(clean_subject("  Re[2]: Re: [tag] x "), "[tag] x");
    assert_eq!(clean_subject("[open bracket"), "[open bracket");
    assert_eq!(clean_subject("[a][b]"), "");
    assert_eq!(clean_subject("Hello [world]"), "Hello [world]");
    assert_eq!(count_re_prefix(&clean_subject("Re: Re: Re[3]: x")), 0);
}

#[test]
fn escaping_covers_four_characters() {
    assert_eq!(html_escape("a & b < c > d \" e '"), "a &amp; b &lt; c &gt; d &quot; e '");
    assert_eq!(html_escape("&amp;"), "&amp;amp;");
    assert_eq!(html_escape(""), "");
}

#[test]
fn plain_text_becomes_html() {
    assert_eq!(
        plain_to_html("Hi <you>\n\n> > one\n>two\n>three\nBye", 2),
        "Hi &lt;you&gt;<br>\n<br>\n<blockquote>&gt; one<br>\ntwo<br>\n<em>[... 1 more lines quoted]</em><br>\n</blockquote>\nBye<br>\n"
    );
    assert_eq!(plain_to_html("", 2), "");
}

#[test]
fn html_body_of_the_mail_is_preferred() {
    assert_eq!(wrap_html_body(Some("<p>x</p>".to_owned()), "plain", 2), "<div><p>x</p></div>");
    assert_eq!(wrap_html_body(None, "plain", 2), "plain<br>\n");
    let mut email = mail();
    email.body_html = Some("<p onclick=\"x\">y</p><script>z</script>".to_owned());
    assert_eq!(build_html_body(&email, "plain", 2), "<div><p>y</p></div>");
}

#[test]
fn new_mail_is_formatted() {
    let (plain, html) = format_email(&mail(), &two_quote_lines());
    assert_eq!(
        plain,
        "📧 News & more\nFrom: Alice <alice@example.com> · Thu 21 May 14:30\n\nHello\n> a\n> b\n[... 1 more lines quoted]\nBye"
    );
    assert_eq!(
        html,
        "📧 <strong>News &amp; more</strong><br>\n<em>Alice &lt;alice@example.com&gt;</em> · <em>Thu 21 May 14:30</em><br><br>\nHello<br>\n<blockquote>a<br>\nb<br>\n</blockquote>\n[... 1 more lines quoted]<br>\nBye<br>\n"
    );
}

#[test]
fn reply_mail_is_formatted_as_reply() {
    let mut email = mail();
    email.thread_root = Some("root".to_owned());
    email.date = None;
    email.from_name = None;
    email.body_plain = None;
    email.body_html = Some("<p>Hi</p>".to_owned());
    let (plain, html) = format_email(&email, &LimitsConfig::default());
    assert!(plain.starts_with("↩️ Re: News & more\nFrom: alice@example.com · (unknown date)\n\n"));
    assert!(plain.contains("Hi"));
    assert_eq!(
        html,
        "↩️ <strong>Re: News &amp; more</strong><br>\n<em>alice@example.com</em> · <em>(unknown date)</em><br><br>\n<div><p>Hi</p></div>"
    );
}

#[test]
fn forms_are_put_together() {
    assert_eq!(build_plain(true, "s", "f", "d", "b"), "↩️ Re: s\nFrom: f · d\n\nb");
    assert_eq!(
        build_html(false, "<s>", "f", "d", "<b>"),
        "📧 <strong>&lt;s&gt;</strong><br>\n<em>f</em> · <em>d</em><br><br>\n<b>"
    );
}
