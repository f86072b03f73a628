//! What holds of mail as it is shown in a room.
#[allow(unused_imports)]
use crate::config::LimitsConfig;
#[allow(unused_imports)]
use crate::dates::{is_date, utc_text};
#[allow(unused_imports)]
use crate::email::{plain_body_of, EmailView};
#[allow(unused_imports)]
use crate::format::{
    after_re, at_most, begins_with_re, cleaned_subject, collapsed, collapsed_body, collapsed_text,
    cut_run, date_text, escaped, escaped_char, html_body, html_form, html_line, html_lines,
    html_quote_line, html_quote_lines, html_run, is_quote, lemma_escaped_first, lemma_trimmed,
    omission, plain_form, quote_run, re_count, reveal_entities, safe_html_of, sender_text,
    shown_html, shown_plain,
    without_list_prefix, without_re,
};
#[allow(unused_imports)]
use crate::html_clean::{entities_decoded, or_empty, outside_tags, sanitized};
#[allow(unused_imports)]
use crate::text::{
    decimal, drop_leading, drop_trailing, in_class, is_white, joined, lemma_drop_leading,
    lemma_drop_trailing, lemma_position_occurs, occurs, position, replaced, text_lines, trimmed,
    CharClass,
};
#[allow(unused_imports)]
use crate::text_laws::{
    all_white, law_leading_character_is_dropped, law_replacing, law_search_finds_the_first,
    law_trimming_cuts_white_ends, law_trimming_finds_the_core,
};
use vstd::prelude::*;

verus! {

/// A line is quoted exactly if it begins with `>`.
pub proof fn law_quote_begins_with_mark(line: Seq<char>)
    ensures
        is_quote(line) <==> line.len() > 0 && line[0] == '>',
{
}

proof fn lemma_run_length(run: Seq<Seq<char>>, after: Seq<Seq<char>>)
    requires
        forall|i: int| 0 <= i < run.len() ==> is_quote(#[trigger] run[i]),
        after.len() > 0 ==> !is_quote(after[0]),
    ensures
        quote_run(run + after) == run.len(),
    decreases run.len(),
{
    let all = run + after;
    if run.len() > 0 {
        let rest = run.drop_first();
        assert(is_quote(run[0]));
        assert forall|i: int| 0 <= i < rest.len() implies is_quote(#[trigger] rest[i]) by {
            assert(rest[i] == run[i + 1]);
        }
        lemma_run_length(rest, after);
        assert(all.drop_first() =~= rest + after);
        assert(all.first() == run[0]);
    } else {
        assert(all =~= after);
    }
}

/// A line that is not quoted is shown as it is. Of quoted lines that follow each other as many as
/// allowed are shown, the first of them, and after them the number of those that are not.
pub proof fn law_collapsing(
    line: Seq<char>,
    run: Seq<Seq<char>>,
    after: Seq<Seq<char>>,
    max: nat,
)
    requires
        line.len() == 0 || line[0] != '>',
        forall|i: int| 0 <= i < run.len() ==> (#[trigger] run[i]).len() > 0 && run[i][0] == '>',
        run.len() > 0,
        after.len() > 0 ==> after[0].len() == 0 || after[0][0] != '>',
    ensures
        collapsed(Seq::<Seq<char>>::empty(), max) == Seq::<Seq<char>>::empty(),
        collapsed(seq![line] + after, max) == seq![line] + collapsed(after, max),
        run.len() <= max ==> collapsed(run + after, max) == run + collapsed(after, max),
        run.len() > max ==> collapsed(run + after, max) == run.take(max as int) + seq![
            "[... "@ + decimal((run.len() - max) as nat) + " more lines quoted]"@,
        ] + collapsed(after, max),
{
    let first = seq![line] + after;
    assert(first.first() == line);
    assert(first.drop_first() =~= after);
    assert(quote_run(first) == 0);
    assert forall|i: int| 0 <= i < run.len() implies is_quote(#[trigger] run[i]) by {
        assert(run[i].len() > 0 && run[i][0] == '>');
    }
    lemma_run_length(run, after);
    let all = run + after;
    let n = run.len() as int;
    assert(all.take(n) =~= run);
    assert(all.skip(n) =~= after);
    if run.len() > max {
        assert(cut_run(run, max) =~= run.take(max as int) + seq![
            "[... "@ + decimal((run.len() - max) as nat) + " more lines quoted]"@,
        ]);
    }
}

/// A collapsed text is its collapsed lines, with a line feed between neighbours.
pub proof fn law_collapsed_text_is_its_lines(text: Seq<char>, max: nat)
    ensures
        collapsed_text(text, max) == joined(collapsed(text_lines(text), max), seq!['\n']),
{
    reveal_strlit("\n");
    assert("\n"@ =~= seq!['\n']);
}

/// A reply prefix is `re` in any case and a colon, or `re` and a number in square brackets before the
/// colon. What follows it is the subject without it and without white space at its ends. A text that
/// does not begin so has no prefix.
pub proof fn law_reply_prefix(r: char, e: char, number: Seq<char>, rest: Seq<char>, s: Seq<char>)
    requires
        r == 'r' || r == 'R',
        e == 'e' || e == 'E',
        !number.contains(']'),
    ensures
        after_re(seq![r, e, ':'] + rest) == Some(trimmed(rest)),
        after_re(seq![r, e, '['] + number + seq![']', ':'] + rest) == Some(trimmed(rest)),
        s.len() < 3 || !(s[0] == 'r' || s[0] == 'R') || !(s[1] == 'e' || s[1] == 'E') || !(s[2] == ':'
            || s[2] == '[') ==> after_re(s) is None,
{
    let a = seq![r, e, ':'] + rest;
    assert(a.skip(3) =~= rest);
    let head = seq![r, e, '['] + number;
    let b = head + seq![']', ':'] + rest;
    reveal_strlit("]:");
    assert("]:"@ =~= seq![']', ':']);
    let n = head.len() as int;
    assert(b[0] == r && b[1] == e && b[2] == '[');
    assert(b.subrange(n, n + 2) =~= "]:"@);
    law_search_finds_the_first(b, "]:"@);
    match position(b, "]:"@) {
        Some(i) => {
            if i < n {
                assert(b.subrange(i, i + 2)[0] == b[i]);
                assert(b[i] == head[i]);
                if i >= 3 {
                    assert(head[i] == number[i - 3]);
                    assert(number.contains(number[i - 3]));
                }
            }
            if n < i {
                assert(b.subrange(n, n + 2) != "]:"@);
            }
            assert(i == n);
            assert(b.skip(n + 2) =~= rest);
        },
        None => {
            assert(b.subrange(n, n + 2) != "]:"@);
        },
    }
}

/// Reply prefixes are counted, and taken off, one after the other.
pub proof fn law_reply_prefixes_are_counted(s: Seq<char>)
    ensures
        after_re(s) is None ==> re_count(s) == 0 && without_re(s) == s,
        after_re(s) is Some ==> re_count(s) == 1 + re_count(after_re(s)->0) && without_re(s)
            == without_re(after_re(s)->0),
{
}

proof fn lemma_trim_after(head: Seq<char>, rest: Seq<char>)
    requires
        head.len() > 0,
        !is_white(head.first()),
        !is_white(head.last()),
    ensures
        trimmed(head + rest).len() >= head.len(),
        trimmed(head + rest).take(head.len() as int) == head,
        trimmed(trimmed(head + rest).skip(head.len() as int)) == trimmed(rest),
{
    let s = head + rest;
    let n = head.len() as int;
    let none = Seq::<char>::empty();
    law_trimming_cuts_white_ends(rest);
    let (p, q) = choose|p: int, q: int|
        {
            &&& 0 <= p <= q <= rest.len()
            &&& trimmed(rest) == #[trigger] rest.subrange(p, q)
            &&& forall|k: int| 0 <= k < p || q <= k < rest.len() ==> is_white(#[trigger] rest[k])
            &&& p < q ==> !is_white(rest[p]) && !is_white(rest[q - 1])
        };
    lemma_white_outside(rest, p, q);
    if p < q {
        let core = head + rest.take(q);
        assert(core.first() == head.first());
        assert(core.last() == rest[q - 1]);
        assert(s =~= none + core + rest.skip(q));
        law_trimming_finds_the_core(none, core, rest.skip(q));
        assert(core.take(n) =~= head);
        assert(core.skip(n) =~= rest.take(q));
        let inner = rest.subrange(p, q);
        assert(rest.take(q) =~= rest.take(p) + inner + none);
        assert(inner.first() == rest[p] && inner.last() == rest[q - 1]);
        law_trimming_finds_the_core(rest.take(p), inner, none);
    } else {
        assert(rest =~= rest.take(p) + rest.skip(q));
        assert(all_white(rest));
        assert(s =~= none + head + rest);
        law_trimming_finds_the_core(none, head, rest);
        assert(head.take(n) =~= head);
        assert(head.skip(n) =~= none);
        assert(none + none + none =~= none);
        law_trimming_finds_the_core(none, none, none);
        assert(trimmed(rest) =~= none);
    }
}

proof fn lemma_white_outside(s: Seq<char>, p: int, q: int)
    requires
        0 <= p <= q <= s.len(),
        forall|k: int| 0 <= k < p || q <= k < s.len() ==> is_white(#[trigger] s[k]),
    ensures
        all_white(s.take(p)),
        all_white(s.skip(q)),
        p == q ==> all_white(s),
{
    assert forall|k: int| 0 <= k < p implies is_white(#[trigger] s.take(p)[k]) by {
        assert(s.take(p)[k] == s[k]);
    }
    assert forall|k: int| 0 <= k < s.len() - q implies is_white(#[trigger] s.skip(q)[k]) by {
        assert(s.skip(q)[k] == s[q + k]);
    }
}

/// A name in square brackets before the subject is taken off, up to its first closing bracket, and the
/// rest is shown as it would be alone, whatever brackets it holds.
pub proof fn law_list_prefix_is_taken_off(name: Seq<char>, rest: Seq<char>)
    requires
        !name.contains(']'),
    ensures
        cleaned_subject(seq!['['] + name + seq![']'] + rest) == cleaned_subject(rest),
{
    let head = seq!['['] + name + seq![']'];
    let whole = head + rest;
    assert(seq!['['] + name + seq![']'] + rest =~= whole);
    let n = head.len() as int;
    assert(head.first() == '[' && head.last() == ']');
    lemma_trim_after(head, rest);
    let t = trimmed(whole);
    reveal_strlit("]");
    assert("]"@ =~= seq![']']);
    assert forall|k: int| 0 <= k < n implies t[k] == head[k] by {
        assert(t.take(n)[k] == t[k]);
    }
    assert(t.subrange(n - 1, n) =~= "]"@);
    law_search_finds_the_first(t, "]"@);
    match position(t, "]"@) {
        Some(i) => {
            if i < n - 1 {
                assert(t.subrange(i, i + 1)[0] == t[i]);
                if i > 0 {
                    assert(head[i] == name[i - 1]);
                    assert(name.contains(name[i - 1]));
                }
            }
            if n - 1 < i {
                assert(t.subrange(n - 1, n - 1 + 1) != "]"@);
            }
            assert(i == n - 1);
            assert(t[0] == '[');
            assert(without_list_prefix(t) == without_list_prefix(trimmed(t.skip(n))));
        },
        None => {
            assert(t.subrange(n - 1, n - 1 + 1) != "]"@);
        },
    }
}

/// A subject without a name in brackets before it keeps a single reply prefix and loses repeated ones;
/// white space at its ends does not count.
pub proof fn law_subject_without_list_prefix(a: Seq<char>, core: Seq<char>, b: Seq<char>)
    requires
        all_white(a),
        all_white(b),
        core.len() > 0,
        !is_white(core.first()) && !is_white(core.last()),
        core.first() != '[',
    ensures
        re_count(core) <= 1 ==> cleaned_subject(a + core + b) == core,
        re_count(core) > 1 ==> cleaned_subject(a + core + b) == trimmed(without_re(core)),
{
    law_trimming_finds_the_core(a, core, b);
    let none = Seq::<char>::empty();
    assert(none + core + none =~= core);
    law_trimming_finds_the_core(none, core, none);
}

/// Of a subject with a name in brackets before it there is shown what follows, without white space at
/// its ends, if that neither begins with a bracket nor repeats a reply prefix.
pub proof fn law_subject_after_list_prefix(name: Seq<char>, rest: Seq<char>)
    requires
        !name.contains(']'),
        trimmed(rest).len() == 0 || trimmed(rest)[0] != '[',
        re_count(trimmed(rest)) <= 1,
    ensures
        cleaned_subject(seq!['['] + name + seq![']'] + rest) == trimmed(rest),
{
    law_list_prefix_is_taken_off(name, rest);
    lemma_trimmed(rest);
}

/// An opening bracket that is never closed is no prefix.
pub proof fn law_open_bracket_is_kept(core: Seq<char>)
    requires
        core.len() > 0,
        core.first() == '[',
        !is_white(core.last()),
        !core.contains(']'),
    ensures
        cleaned_subject(core) == core,
{
    let none = Seq::<char>::empty();
    assert(none + core + none =~= core);
    law_trimming_finds_the_core(none, core, none);
    reveal_strlit("]");
    law_search_finds_the_first(core, "]"@);
    if let Some(i) = position(core, "]"@) {
        assert(core.subrange(i, i + 1)[0] == core[i]);
        assert(core.contains(core[i]));
    }
    assert(after_re(core) is None);
}

/// A sender is shown by name and address, or by address alone.
pub proof fn law_sender_is_shown(name: Seq<char>, email: Seq<char>)
    ensures
        name.len() > 0 ==> sender_text(Some(name), email) == name + " <"@ + email + ">"@,
        sender_text(Some(Seq::<char>::empty()), email) == email,
        sender_text(None, email) == email,
{
}

/// Texts are escaped character by character: the ampersand, the angle brackets and the quotation mark
/// as entities, every other character as itself.
pub proof fn law_escaping(a: Seq<char>, b: Seq<char>, c: char)
    ensures
        escaped(a + b) == escaped(a) + escaped(b),
        c != '&' && c != '<' && c != '>' && c != '"' ==> escaped(seq![c]) == seq![c],
        escaped(seq!['&']) == "&amp;"@,
        escaped(seq!['<']) == "&lt;"@,
        escaped(seq!['>']) == "&gt;"@,
        escaped(seq!['"']) == "&quot;"@,
    decreases b.len(),
{
    lemma_escaped_one(c);
    lemma_escaped_one('&');
    lemma_escaped_one('<');
    lemma_escaped_one('>');
    lemma_escaped_one('"');
    if b.len() == 0 {
        assert(a + b =~= a);
        assert(escaped(a) + escaped(b) =~= escaped(a));
    } else {
        assert((a + b).drop_last() =~= a + b.drop_last());
        law_escaping(a, b.drop_last(), c);
        assert(escaped(a + b) =~= escaped(a) + escaped(b));
    }
}

proof fn lemma_escaped_one(c: char)
    ensures
        escaped(seq![c]) == escaped_char(c),
{
    assert(seq![c].drop_last() =~= Seq::<char>::empty());
    assert(escaped(Seq::<char>::empty()) == Seq::<char>::empty());
    assert(escaped(seq![c]) =~= escaped_char(c));
}

/// A quoted line in HTML is its text without the marks of quotation and without white space at its
/// ends, escaped, with a break after it.
pub proof fn law_quoted_line_in_html(
    marks: Seq<char>,
    a: Seq<char>,
    core: Seq<char>,
    b: Seq<char>,
)
    requires
        forall|i: int| 0 <= i < marks.len() ==> #[trigger] marks[i] == '>',
        all_white(a),
        all_white(b),
        core.len() > 0,
        !is_white(core.first()) && !is_white(core.last()),
        a.len() > 0 || core.first() != '>',
    ensures
        html_quote_line(marks + (a + core + b)) == escaped(core) + "<br>\n"@,
{
    let rest = a + core + b;
    let line = marks + rest;
    law_leading_character_is_dropped(line, '>');
    let i = choose|i: int|
        {
            &&& 0 <= i <= line.len()
            &&& drop_leading(line, CharClass::Only('>')) == #[trigger] line.skip(i)
            &&& forall|k: int| 0 <= k < i ==> #[trigger] line[k] == '>'
            &&& i < line.len() ==> line[i] != '>'
        };
    let n = marks.len() as int;
    assert(rest[0] != '>') by {
        if a.len() > 0 {
            assert(rest[0] == a[0]);
            assert(is_white(a[0]));
            assert(!is_white('>'));
        } else {
            assert(rest[0] == core[0]);
        }
    }
    assert(line[n] == rest[0]);
    if i < n {
        assert(line[i] == marks[i]);
    }
    assert(i == n);
    assert(line.skip(n) =~= rest);
    law_trimming_finds_the_core(a, core, b);
}

/// A line that is not quoted is escaped, with a break after it. Quoted lines that follow each other
/// stand in one block: as many as allowed, the first of them, and after them the number of those that
/// are not shown. The lines after it are shown likewise.
pub proof fn law_lines_in_html(
    line: Seq<char>,
    run: Seq<Seq<char>>,
    after: Seq<Seq<char>>,
    max: nat,
)
    requires
        line.len() == 0 || line[0] != '>',
        forall|i: int| 0 <= i < run.len() ==> (#[trigger] run[i]).len() > 0 && run[i][0] == '>',
        run.len() > 0,
        after.len() > 0 ==> after[0].len() == 0 || after[0][0] != '>',
    ensures
        html_lines(Seq::<Seq<char>>::empty(), max) == Seq::<char>::empty(),
        html_lines(seq![line] + after, max) == escaped(line) + "<br>\n"@ + html_lines(after, max),
        run.len() <= max ==> html_lines(run + after, max) == "<blockquote>"@ + html_quote_lines(run)
            + "</blockquote>\n"@ + html_lines(after, max),
        run.len() > max ==> html_lines(run + after, max) == "<blockquote>"@ + html_quote_lines(
            run.take(max as int),
        ) + "<em>[... "@ + decimal((run.len() - max) as nat) + " more lines quoted]</em><br>\n"@
            + "</blockquote>\n"@ + html_lines(after, max),
{
    let first = seq![line] + after;
    assert(first.first() == line);
    assert(first.drop_first() =~= after);
    assert(quote_run(first) == 0);
    assert forall|i: int| 0 <= i < run.len() implies is_quote(#[trigger] run[i]) by {
        assert(run[i].len() > 0 && run[i][0] == '>');
    }
    lemma_run_length(run, after);
    let all = run + after;
    let n = run.len() as int;
    assert(all.take(n) =~= run);
    assert(all.skip(n) =~= after);
    let rest = html_lines(after, max);
    if run.len() <= max {
        assert(run.take(n) =~= run);
        assert(html_lines(all, max) =~= "<blockquote>"@ + html_quote_lines(run)
            + "</blockquote>\n"@ + rest);
    } else {
        let count = decimal((run.len() - max) as nat);
        reveal_strlit("<em>");
        reveal_strlit("[... ");
        reveal_strlit("<em>[... ");
        reveal_strlit(" more lines quoted]");
        reveal_strlit("</em><br>\n");
        reveal_strlit(" more lines quoted]</em><br>\n");
        assert("<em>"@ + "[... "@ =~= "<em>[... "@);
        assert(" more lines quoted]"@ + "</em><br>\n"@ =~= " more lines quoted]</em><br>\n"@);
        let body = "<blockquote>"@ + html_quote_lines(run.take(max as int));
        assert(html_lines(all, max) =~= body + "<em>"@ + "[... "@ + count + " more lines quoted]"@
            + "</em><br>\n"@ + "</blockquote>\n"@ + rest);
        assert(body + "<em>"@ + "[... "@ =~= body + ("<em>"@ + "[... "@));
        let head = body + "<em>[... "@ + count;
        assert(head + " more lines quoted]"@ + "</em><br>\n"@ =~= head + (" more lines quoted]"@
            + "</em><br>\n"@));
    }
}

/// Quoted lines stand in HTML one after the other.
pub proof fn law_quoted_lines_in_a_row(a: Seq<Seq<char>>, b: Seq<Seq<char>>, line: Seq<char>)
    ensures
        html_quote_lines(a + b) == html_quote_lines(a) + html_quote_lines(b),
        html_quote_lines(seq![line]) == html_quote_line(line),
    decreases b.len(),
{
    assert(seq![line].drop_last() =~= Seq::<Seq<char>>::empty());
    assert(html_quote_lines(Seq::<Seq<char>>::empty()) == Seq::<char>::empty());
    assert(html_quote_lines(seq![line]) =~= html_quote_line(line));
    if b.len() == 0 {
        assert(a + b =~= a);
        assert(html_quote_lines(a) + html_quote_lines(b) =~= html_quote_lines(a));
    } else {
        assert((a + b).drop_last() =~= a + b.drop_last());
        law_quoted_lines_in_a_row(a, b.drop_last(), line);
        assert(html_quote_lines(a + b) =~= html_quote_lines(a) + html_quote_lines(b));
    }
}

/// A date that is one is shown as day, month and time; any other is unknown.
pub proof fn law_date_is_shown(secs: i64)
    ensures
        is_date(secs) ==> date_text(Some(secs)) == utc_text(secs, "%a %d %b %H:%M"@),
        !is_date(secs) ==> date_text(Some(secs)) == "(unknown date)"@,
        date_text(None) == "(unknown date)"@,
{
}

/// The HTML body of a mail that has HTML is that, sanitized, in one block; that of any other is its
/// plain text in HTML.
pub proof fn law_html_body(email: EmailView, html: Seq<char>, plain: Seq<char>, max: nat)
    ensures
        email.body_html == Some(html) ==> safe_html_of(email) == Some(sanitized(html)),
        email.body_html is None ==> safe_html_of(email) is None,
        html_body(Some(html), plain, max) == "<div>"@ + html + "</div>"@,
        html_body(None, plain, max) == html_lines(text_lines(plain), max),
{
}

/// The plain form of a mail is a mark, its subject, its sender, its date and its whole body, and only
/// the mark tells a reply from a new mail.
pub proof fn law_plain_form(
    subject: Seq<char>,
    sender: Seq<char>,
    date: Seq<char>,
    body: Seq<char>,
)
    ensures
        plain_form(false, subject, sender, date, body) == "📧 "@ + subject + "\nFrom: "@ + sender
            + " · "@ + date + "\n\n"@ + body,
        plain_form(true, subject, sender, date, body) == "↩️ Re: "@ + subject + "\nFrom: "@ + sender
            + " · "@ + date + "\n\n"@ + body,
{
}

/// The HTML form of a mail is its plain form with the head escaped and set off, and the body as it is.
pub proof fn law_html_form(subject: Seq<char>, sender: Seq<char>, date: Seq<char>, body: Seq<char>)
    ensures
        html_form(false, subject, sender, date, body) == "📧 <strong>"@ + escaped(subject)
            + "</strong><br>\n<em>"@ + escaped(sender) + "</em> · <em>"@ + escaped(date)
            + "</em><br><br>\n"@ + body,
        html_form(true, subject, sender, date, body) == "↩️ <strong>Re: "@ + escaped(subject)
            + "</strong><br>\n<em>"@ + escaped(sender) + "</em> · <em>"@ + escaped(date)
            + "</em><br><br>\n"@ + body,
{
}

/// The body that is shown is the mail's plain body, with quotations cut to the configured number of
/// lines.
pub proof fn law_shown_body(email: EmailView, limits: LimitsConfig)
    ensures
        collapsed_body(email, limits) == collapsed_text(
            plain_body_of(email),
            limits.quote_limit() as nat,
        ),
        limits.max_quote_lines is Some ==> limits.quote_limit() == limits.max_quote_lines->0,
        limits.max_quote_lines is None ==> limits.quote_limit() == 5,
        limits.max_body_bytes is Some ==> limits.body_limit() == limits.max_body_bytes->0,
        limits.max_body_bytes is None ==> limits.body_limit() == 512 * 1024,
        limits.max_attachment_bytes is Some ==> limits.attachment_limit()
            == limits.max_attachment_bytes->0,
        limits.max_attachment_bytes is None ==> limits.attachment_limit() == 10 * 1024 * 1024,
{
}

proof fn lemma_outside(a: Seq<char>, b: Seq<char>)
    requires
        !a.contains('<'),
        !a.contains('>'),
    ensures
        outside_tags(a + b, false) == a + outside_tags(b, false),
        outside_tags(a + seq!['>'] + b, true) == outside_tags(b, false),
    decreases a.len(),
{
    if a.len() > 0 {
        let t = a.drop_first();
        assert(a.contains(a[0]));
        assert forall|c: char| t.contains(c) implies a.contains(c) by {
            let i = t.index_of(c);
            assert(a[i + 1] == c);
        }
        lemma_outside(t, b);
        assert((a + b).drop_first() =~= t + b);
        assert((a + b).first() == a[0]);
        assert(outside_tags(a + b, false) =~= a + outside_tags(b, false));
        let x = a + seq!['>'] + b;
        assert(x.drop_first() =~= t + seq!['>'] + b);
        assert(x.first() == a[0]);
    } else {
        assert(a + b =~= b);
        assert(a + outside_tags(b, false) =~= outside_tags(b, false));
        let x = a + seq!['>'] + b;
        assert(x.first() == '>');
        assert(x.drop_first() =~= b);
    }
}

/// A tag is left out and the text around it is kept.
pub proof fn law_tag_is_left_out(text: Seq<char>, tag: Seq<char>, rest: Seq<char>)
    requires
        !text.contains('<') && !text.contains('>'),
        !tag.contains('<') && !tag.contains('>'),
    ensures
        outside_tags(text + seq!['<'] + tag + seq!['>'] + rest, false) == text + outside_tags(
            rest,
            false,
        ),
{
    let inner = tag + seq!['>'] + rest;
    let b = seq!['<'] + inner;
    assert(text + seq!['<'] + tag + seq!['>'] + rest =~= text + b);
    lemma_outside(text, b);
    assert(b.first() == '<');
    assert(b.drop_first() =~= inner);
    lemma_outside(tag, rest);
}

/// A rendering is shown as it is, and where there is none nothing is shown.
pub proof fn law_rendering_or_nothing(s: Seq<char>)
    ensures
        or_empty(Some(s)) == s,
        or_empty(None).len() == 0,
{
}

/// A text with a single ampersand changes only where the pattern stands at it.
proof fn lemma_one_ampersand(a: Seq<char>, tail: Seq<char>, p: Seq<char>, w: Seq<char>)
    requires
        p.len() > 0 && p[0] == '&',
        tail.len() > 0 && tail[0] == '&',
        forall|i: int| 0 <= i < a.len() ==> #[trigger] a[i] != '&',
        forall|i: int| 1 <= i < tail.len() ==> #[trigger] tail[i] != '&',
    ensures
        !p.is_prefix_of(tail) ==> replaced(a + tail, p, w) == a + tail,
        p.is_prefix_of(tail) ==> replaced(a + tail, p, w) == a + w + tail.skip(p.len() as int),
{
    let s = a + tail;
    let n = a.len() as int;
    law_replacing(s, p, w);
    law_search_finds_the_first(s, p);
    let rest = tail.skip(p.len() as int);
    if let Some(i) = position(s, p) {
        assert(s.subrange(i, i + p.len())[0] == s[i]);
        if i < n {
            assert(s[i] == a[i]);
        }
        if i > n {
            assert(s[i] == tail[i - n]);
        }
        assert(s.subrange(n, n + p.len()) =~= tail.subrange(0, p.len() as int));
        assert(s.take(n) =~= a);
        assert(s.skip(n + p.len()) =~= rest);
        law_replacing(rest, p, w);
        law_search_finds_the_first(rest, p);
        if let Some(j) = position(rest, p) {
            assert(rest.subrange(j, j + p.len())[0] == rest[j]);
            assert(rest[j] == tail[j + p.len()]);
        }
    } else if p.is_prefix_of(tail) {
        assert(s.subrange(n, n + p.len()) =~= tail.subrange(0, p.len() as int));
    }
}

proof fn lemma_no_ampersand(s: Seq<char>, p: Seq<char>, w: Seq<char>)
    requires
        p.len() > 0 && p[0] == '&',
        forall|i: int| 0 <= i < s.len() ==> #[trigger] s[i] != '&',
    ensures
        replaced(s, p, w) == s,
{
    law_replacing(s, p, w);
    law_search_finds_the_first(s, p);
    if let Some(i) = position(s, p) {
        assert(s.subrange(i, i + p.len())[0] == s[i]);
    }
}

/// The entities of the angle brackets, the quotation marks and the blank are decoded where they stand,
/// and the text around them is kept.
pub proof fn law_entities_are_decoded(a: Seq<char>, b: Seq<char>)
    requires
        !a.contains('&'),
        !b.contains('&'),
    ensures
        entities_decoded(a + "&lt;"@ + b) == a + seq!['<'] + b,
        entities_decoded(a + "&gt;"@ + b) == a + seq!['>'] + b,
        entities_decoded(a + "&quot;"@ + b) == a + seq!['"'] + b,
        entities_decoded(a + "&#39;"@ + b) == a + seq!['\''] + b,
        entities_decoded(a + "&nbsp;"@ + b) == a + seq![' '] + b,
{
    lemma_entity(a, b, 1);
    lemma_entity(a, b, 2);
    lemma_entity(a, b, 3);
    lemma_entity(a, b, 4);
    lemma_entity(a, b, 5);
}

spec fn entity(k: int) -> Seq<char> {
    if k == 0 {
        "&amp;"@
    } else if k == 1 {
        "&lt;"@
    } else if k == 2 {
        "&gt;"@
    } else if k == 3 {
        "&quot;"@
    } else if k == 4 {
        "&#39;"@
    } else {
        "&nbsp;"@
    }
}

spec fn meaning(k: int) -> Seq<char> {
    if k == 0 {
        "&"@
    } else if k == 1 {
        "<"@
    } else if k == 2 {
        ">"@
    } else if k == 3 {
        "\""@
    } else if k == 4 {
        "'"@
    } else {
        " "@
    }
}

proof fn reveal_all_entities()
    ensures
        "&amp;"@ == seq!['&', 'a', 'm', 'p', ';'],
        "&lt;"@ == seq!['&', 'l', 't', ';'],
        "&gt;"@ == seq!['&', 'g', 't', ';'],
        "&quot;"@ == seq!['&', 'q', 'u', 'o', 't', ';'],
        "&#39;"@ == seq!['&', '#', '3', '9', ';'],
        "&nbsp;"@ == seq!['&', 'n', 'b', 's', 'p', ';'],
        "<"@ == seq!['<'],
        ">"@ == seq!['>'],
        "\""@ == seq!['"'],
        "'"@ == seq!['\''],
        " "@ == seq![' '],
{
    reveal_entities();
    reveal_strlit("&#39;");
    reveal_strlit("&nbsp;");
    reveal_strlit("<");
    reveal_strlit(">");
    reveal_strlit("\"");
    reveal_strlit("'");
    reveal_strlit(" ");
    assert("&#39;"@ =~= seq!['&', '#', '3', '9', ';']);
    assert("&nbsp;"@ =~= seq!['&', 'n', 'b', 's', 'p', ';']);
    assert("<"@ =~= seq!['<']);
    assert(">"@ =~= seq!['>']);
    assert("\""@ =~= seq!['"']);
    assert("'"@ =~= seq!['\'']);
    assert(" "@ =~= seq![' ']);
}

/// One step of the decoding, on a text with one entity.
proof fn lemma_entity_step(a: Seq<char>, b: Seq<char>, k: int, step: int)
    requires
        !a.contains('&'),
        !b.contains('&'),
        0 <= k <= 5,
        0 <= step <= 5,
    ensures
        step != k ==> replaced(a + entity(k) + b, entity(step), meaning(step)) == a + entity(k) + b,
        step == k && k > 0 ==> replaced(a + entity(k) + b, entity(step), meaning(step)) == a
            + meaning(k) + b,
        k > 0 ==> replaced(a + meaning(k) + b, entity(step), meaning(step)) == a + meaning(k) + b,
{
    reveal_all_entities();
    let e = entity(k);
    let tail = e + b;
    assert(a + e + b =~= a + tail);
    assert forall|i: int| 0 <= i < a.len() implies #[trigger] a[i] != '&' by {
        assert(a.contains(a[i]));
    }
    assert forall|i: int| 1 <= i < tail.len() implies #[trigger] tail[i] != '&' by {
        if i < e.len() {
            assert(tail[i] == e[i]);
        } else {
            assert(tail[i] == b[i - e.len()]);
            assert(b.contains(b[i - e.len()]));
        }
    }
    lemma_one_ampersand(a, tail, entity(step), meaning(step));
    assert(tail[1] == e[1]);
    if step != k {
        if entity(step).is_prefix_of(tail) {
            assert(tail.subrange(0, entity(step).len() as int) =~= entity(step));
            assert(tail.subrange(0, entity(step).len() as int)[1] == tail[1]);
        }
    } else {
        assert(tail.subrange(0, e.len() as int) =~= e);
        assert(tail.skip(e.len() as int) =~= b);
    }
    if k > 0 {
        let plain = a + meaning(k) + b;
        assert forall|i: int| 0 <= i < plain.len() implies #[trigger] plain[i] != '&' by {
            if i < a.len() {
                assert(plain[i] == a[i]);
            } else if i > a.len() {
                assert(plain[i] == b[i - a.len() - 1]);
                assert(b.contains(b[i - a.len() - 1]));
            } else {
                assert(plain[i] == meaning(k)[0]);
            }
        }
        lemma_no_ampersand(plain, entity(step), meaning(step));
    }
}

proof fn lemma_entity(a: Seq<char>, b: Seq<char>, k: int)
    requires
        !a.contains('&'),
        !b.contains('&'),
        1 <= k <= 5,
    ensures
        entities_decoded(a + entity(k) + b) == a + meaning(k) + b,
        meaning(1) == seq!['<'],
        meaning(2) == seq!['>'],
        meaning(3) == seq!['"'],
        meaning(4) == seq!['\''],
        meaning(5) == seq![' '],
{
    reveal_all_entities();
    lemma_entity_step(a, b, k, 0);
    lemma_entity_step(a, b, k, 1);
    lemma_entity_step(a, b, k, 2);
    lemma_entity_step(a, b, k, 3);
    lemma_entity_step(a, b, k, 4);
    lemma_entity_step(a, b, k, 5);
}

/// The entity of the ampersand is decoded to it, unless what follows would then be an entity itself.
pub proof fn law_ampersand_is_decoded(a: Seq<char>, b: Seq<char>)
    requires
        !a.contains('&'),
        !b.contains('&'),
        b.len() == 0 || (b[0] != 'l' && b[0] != 'g' && b[0] != 'q' && b[0] != '#' && b[0] != 'n'),
    ensures
        entities_decoded(a + "&amp;"@ + b) == a + seq!['&'] + b,
{
    reveal_all_entities();
    reveal_strlit("&");
    assert("&"@ =~= seq!['&']);
    let tail = seq!['&', 'a', 'm', 'p', ';'] + b;
    let after = seq!['&'] + b;
    assert(a + "&amp;"@ + b =~= a + tail);
    assert forall|i: int| 0 <= i < a.len() implies #[trigger] a[i] != '&' by {
        assert(a.contains(a[i]));
    }
    assert forall|i: int| 1 <= i < tail.len() implies #[trigger] tail[i] != '&' by {
        if i >= 5 {
            assert(tail[i] == b[i - 5]);
            assert(b.contains(b[i - 5]));
        }
    }
    assert forall|i: int| 1 <= i < after.len() implies #[trigger] after[i] != '&' by {
        assert(after[i] == b[i - 1]);
        assert(b.contains(b[i - 1]));
    }
    lemma_one_ampersand(a, tail, "&amp;"@, "&"@);
    assert(tail.subrange(0, 5) =~= "&amp;"@);
    assert(tail.skip(5) =~= b);
    assert(a + "&"@ + b =~= a + after);
    lemma_bare_ampersand(a, b, 1);
    lemma_bare_ampersand(a, b, 2);
    lemma_bare_ampersand(a, b, 3);
    lemma_bare_ampersand(a, b, 4);
    lemma_bare_ampersand(a, b, 5);
    assert(a + seq!['&'] + b =~= a + after);
}

proof fn lemma_bare_ampersand(a: Seq<char>, b: Seq<char>, step: int)
    requires
        !a.contains('&'),
        !b.contains('&'),
        b.len() == 0 || (b[0] != 'l' && b[0] != 'g' && b[0] != 'q' && b[0] != '#' && b[0] != 'n'),
        1 <= step <= 5,
    ensures
        replaced(a + (seq!['&'] + b), entity(step), meaning(step)) == a + (seq!['&'] + b),
{
    reveal_all_entities();
    let after = seq!['&'] + b;
    assert forall|i: int| 0 <= i < a.len() implies #[trigger] a[i] != '&' by {
        assert(a.contains(a[i]));
    }
    assert forall|i: int| 1 <= i < after.len() implies #[trigger] after[i] != '&' by {
        assert(after[i] == b[i - 1]);
        assert(b.contains(b[i - 1]));
    }
    lemma_one_ampersand(a, after, entity(step), meaning(step));
    let p = entity(step);
    if p.is_prefix_of(after) {
        assert(after.subrange(0, p.len() as int) =~= p);
        assert(after.subrange(0, p.len() as int)[1] == after[1]);
        assert(after[1] == b[0]);
    }
}

/// A mail is shown with its cleaned subject, its sender, its date and its body with quotations cut; one
/// whose thread is known is shown as a reply.
pub proof fn law_mail_is_shown(email: EmailView, limits: LimitsConfig)
    ensures
        email.thread_root is Some ==> shown_plain(email, limits) == "↩️ Re: "@ + cleaned_subject(
            email.subject,
        ) + "\nFrom: "@ + sender_text(email.from_name, email.from_email) + " · "@ + date_text(
            email.date,
        ) + "\n\n"@ + collapsed_body(email, limits),
        email.thread_root is None ==> shown_plain(email, limits) == "📧 "@ + cleaned_subject(
            email.subject,
        ) + "\nFrom: "@ + sender_text(email.from_name, email.from_email) + " · "@ + date_text(
            email.date,
        ) + "\n\n"@ + collapsed_body(email, limits),
        ({
            let body = html_body(
                safe_html_of(email),
                collapsed_body(email, limits),
                limits.quote_limit() as nat,
            );
            let head = escaped(cleaned_subject(email.subject)) + "</strong><br>\n<em>"@ + escaped(
                sender_text(email.from_name, email.from_email),
            ) + "</em> · <em>"@ + escaped(date_text(email.date)) + "</em><br><br>\n"@;
            &&& email.thread_root is Some ==> shown_html(email, limits) == "↩️ <strong>Re: "@ + head
                + body
            &&& email.thread_root is None ==> shown_html(email, limits) == "📧 <strong>"@ + head + body
        }),
{
    let body = html_body(
        safe_html_of(email),
        collapsed_body(email, limits),
        limits.quote_limit() as nat,
    );
    let head = escaped(cleaned_subject(email.subject)) + "</strong><br>\n<em>"@ + escaped(
        sender_text(email.from_name, email.from_email),
    ) + "</em> · <em>"@ + escaped(date_text(email.date)) + "</em><br><br>\n"@;
    assert(email.thread_root is Some ==> shown_html(email, limits) =~= "↩️ <strong>Re: "@ + head + body);
    assert(email.thread_root is None ==> shown_html(email, limits) =~= "📧 <strong>"@ + head + body);
}

/// The times that are dates lie in one stretch, which holds all of the common era from 1970 on.
pub proof fn law_dates_lie_together(a: i64, b: i64, c: i64)
    ensures
        is_date(a) && is_date(c) && a <= b <= c ==> is_date(b),
        0 <= a <= 253402300799 ==> is_date(a),
{
}

} // verus!
