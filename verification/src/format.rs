//! Mail as it is shown in a room: a plain and an HTML form.
use crate::config::LimitsConfig;
use crate::dates::{date_from_seconds, short_date};
#[allow(unused_imports)]
use crate::dates::{is_date, short_pattern, utc_text};
use crate::email::{get_plain_body, ParsedEmail};
#[allow(unused_imports)]
use crate::email::{plain_body_of, EmailView};
use crate::html_clean::sanitize_html;
#[allow(unused_imports)]
use crate::html_clean::sanitized;
use crate::text::{
    chars_of, decimal_text, find_text, join_texts, lines, strip_leading, text_from, trim, CharClass,
};
#[allow(unused_imports)]
use crate::text::{
    decimal, drop_leading, drop_trailing, joined, joins_plainly, law_joined_lines_are_read_back,
    law_lines_hold_no_line_feed, law_lines_join_back, lemma_decimal_value, lemma_drop_leading,
    lemma_drop_trailing, lemma_joined_breaks_are_plain, lemma_lines_join_plainly,
    lemma_position_occurs, opt_str_view, opt_view, plain_breaks, position, text_lines, trimmed,
    views,
};
use vstd::prelude::*;

verus! {

/// A quoted line.
pub open spec fn is_quote(line: Seq<char>) -> bool {
    line.len() > 0 && line.first() == '>'
}

/// The number of quoted lines at the start.
pub open spec fn quote_run(list: Seq<Seq<char>>) -> nat
    decreases list.len(),
{
    if list.len() > 0 && is_quote(list.first()) {
        1 + quote_run(list.drop_first())
    } else {
        0
    }
}

pub open spec fn at_most(n: nat, max: nat) -> nat {
    if n <= max {
        n
    } else {
        max
    }
}

/// The words that stand for quoted lines that are not shown.
pub open spec fn omission(n: nat) -> Seq<char> {
    "[... "@ + decimal(n) + " more lines quoted]"@
}

/// A run of quoted lines cut to `max` lines, with a note of how many are missing.
pub open spec fn cut_run(run: Seq<Seq<char>>, max: nat) -> Seq<Seq<char>> {
    if run.len() <= max {
        run
    } else {
        run.take(max as int).push(omission((run.len() - max) as nat))
    }
}

/// The lines with every run of quoted lines cut to `max` lines.
pub open spec fn collapsed(list: Seq<Seq<char>>, max: nat) -> Seq<Seq<char>>
    decreases list.len(),
    via collapsed_shrinks
{
    let n = quote_run(list);
    if list.len() == 0 {
        seq![]
    } else if n == 0 {
        seq![list.first()] + collapsed(list.drop_first(), max)
    } else {
        cut_run(list.take(n as int), max) + collapsed(list.skip(n as int), max)
    }
}

#[via_fn]
proof fn collapsed_shrinks(list: Seq<Seq<char>>, max: nat) {
    lemma_quote_run(list);
}

proof fn lemma_quote_run(list: Seq<Seq<char>>)
    ensures
        quote_run(list) <= list.len(),
        forall|i: int| 0 <= i < quote_run(list) ==> is_quote(#[trigger] list[i]),
        quote_run(list) < list.len() ==> !is_quote(list[quote_run(list) as int]),
    decreases list.len(),
{
    if list.len() > 0 && is_quote(list.first()) {
        let rest = list.drop_first();
        lemma_quote_run(rest);
        assert forall|i: int| 0 <= i < quote_run(list) implies is_quote(#[trigger] list[i]) by {
            if i > 0 {
                assert(rest[i - 1] == list[i]);
            }
        }
    }
}

fn is_quoted(line: &str) -> (r: bool)
    ensures
        r == is_quote(line@),
{
    let v = chars_of(line);
    v.len() > 0 && v[0] == '>'
}

/// The end of the run of quoted lines that begins at `from`.
fn run_end(list: &Vec<String>, from: usize) -> (end: usize)
    requires
        from <= list@.len(),
    ensures
        from <= end <= list@.len(),
        quote_run(views(list@).skip(from as int)) == end - from,
{
    let ghost all = views(list@);
    let mut i: usize = from;
    while i < list.len() && is_quoted(list[i].as_str())
        invariant
            all == views(list@),
            from <= i <= list@.len(),
            quote_run(all.skip(from as int)) == (i - from) + quote_run(all.skip(i as int)),
        decreases list@.len() - i,
    {
        assert(all.skip(i as int).drop_first() =~= all.skip(i + 1));
        assert(all.skip(i as int).first() == list@[i as int]@);
        i += 1;
    }
    i
}

fn omission_text(n: usize) -> (r: String)
    ensures
        r@ == omission(n as nat),
{
    let mut s = "[... ".to_owned();
    s.append(decimal_text(n as u64).as_str());
    s.append(" more lines quoted]");
    s
}

/// The text with every run of quoted lines cut to `max` lines.
pub open spec fn collapsed_text(text: Seq<char>, max: nat) -> Seq<char> {
    joined(collapsed(text_lines(text), max), "\n"@)
}

/// The text with every run of quoted lines cut to `max_lines` lines, each followed by a note of how
/// many lines are missing.
pub fn collapse_quotes(text: &str, max_lines: usize) -> (r: String)
    ensures
        r@ == collapsed_text(text@, max_lines as nat),
{
    let list = lines(text);
    let ghost all = views(list@);
    let ghost max = max_lines as nat;
    let mut out: Vec<String> = Vec::new();
    let mut i: usize = 0;
    assert(all.skip(0) =~= all);
    assert(views(out@) + collapsed(all, max) =~= collapsed(all, max));
    while i < list.len()
        invariant
            all == views(list@),
            max == max_lines,
            i <= list@.len(),
            collapsed(all, max) == views(out@) + collapsed(all.skip(i as int), max),
        decreases list@.len() - i,
    {
        let ghost rest = all.skip(i as int);
        let ghost before = views(out@);
        let end: usize = run_end(&list, i);
        if end == i {
            out.push(list[i].clone());
            i += 1;
            proof {
                let tail = collapsed(all.skip(i as int), max);
                assert(rest.drop_first() =~= all.skip(i as int));
                assert(views(out@) =~= before.push(rest.first()));
                assert(views(out@) + tail =~= before + (seq![rest.first()] + tail));
            }
        } else {
            let ghost run = rest.take(end - i);
            let total: usize = end - i;
            let shown: usize = if total <= max_lines {
                total
            } else {
                max_lines
            };
            let mut k: usize = 0;
            while k < shown
                invariant
                    all == views(list@),
                    i < end <= list@.len(),
                    rest == all.skip(i as int),
                    run == rest.take(end - i),
                    k <= shown <= end - i,
                    views(out@) == before + run.take(k as int),
                decreases shown - k,
            {
                let ghost so_far = views(out@);
                out.push(list[i + k].clone());
                proof {
                    assert(run[k as int] == list@[i + k]@);
                    assert(views(out@) =~= so_far.push(run[k as int]));
                    assert(run.take(k + 1) =~= run.take(k as int).push(run[k as int]));
                    assert(views(out@) =~= before + run.take(k + 1));
                }
                k += 1;
            }
            if total > shown {
                let ghost so_far = views(out@);
                out.push(omission_text(total - shown));
                assert(views(out@) =~= so_far.push(omission((total - shown) as nat)));
            }
            proof {
                let tail = collapsed(all.skip(end as int), max);
                assert(views(out@) =~= before + cut_run(run, max));
                assert(rest.skip(end - i) =~= all.skip(end as int));
                assert(views(out@) + tail =~= before + (cut_run(run, max) + tail));
            }
            i = end;
        }
    }
    assert(all.skip(i as int).len() == 0);
    assert(views(out@) + collapsed(all.skip(i as int), max) =~= views(out@));
    join_texts(&out, "\n")
}

/// At no place do more than `max` quoted lines follow each other in the collapsed lines.
pub proof fn law_quotes_are_cut(list: Seq<Seq<char>>, max: nat, at: int)
    requires
        0 <= at <= collapsed(list, max).len(),
    ensures
        quote_run(collapsed(list, max).skip(at)) <= max,
    decreases list.len(),
{
    let n = quote_run(list);
    let all = collapsed(list, max);
    lemma_quote_run(list);
    if list.len() == 0 {
    } else if n == 0 {
        let tail = collapsed(list.drop_first(), max);
        if at == 0 {
            assert(all.skip(0).first() == list.first());
        } else {
            assert(all.skip(at) =~= tail.skip(at - 1));
            law_quotes_are_cut(list.drop_first(), max, at - 1);
        }
    } else {
        let run = list.take(n as int);
        let cut = cut_run(run, max);
        let rest = list.skip(n as int);
        let tail = collapsed(rest, max);
        lemma_quote_run(rest);
        if at >= cut.len() {
            assert(all.skip(at) =~= tail.skip(at - cut.len()));
            law_quotes_are_cut(rest, max, at - cut.len());
        } else {
            // The run ends with a note, with the end of the text, or with a line that is no quote.
            let stop = at_most(n, max) as int;
            if n > max {
                reveal_strlit("[... ");
                assert(all[stop] == omission((n - max) as nat));
                assert(all[stop].first() == '[');
            } else if rest.len() > 0 {
                assert(rest[0] == list[n as int]);
                assert(quote_run(rest) == 0);
                assert(all[stop] == rest[0]);
            } else {
                assert(tail.len() == 0);
            }
            lemma_quote_run(all.skip(at));
            if at <= stop && quote_run(all.skip(at)) > stop - at {
                assert(all.skip(at)[stop - at] == all[stop]);
            }
        }
    }
}

/// Lines none of which is quoted stay as they are.
pub proof fn law_unquoted_lines_are_kept(list: Seq<Seq<char>>, max: nat)
    requires
        forall|i: int| 0 <= i < list.len() ==> !is_quote(#[trigger] list[i]),
    ensures
        collapsed(list, max) == list,
    decreases list.len(),
{
    if list.len() > 0 {
        let rest = list.drop_first();
        assert forall|i: int| 0 <= i < rest.len() implies !is_quote(#[trigger] rest[i]) by {
            assert(rest[i] == list[i + 1]);
        }
        law_unquoted_lines_are_kept(rest, max);
        assert(is_quote(list[0]) == false);
        assert(collapsed(list, max) =~= list);
    }
}

/// Lines in which no run of quoted lines is longer than `max` stay as they are.
pub proof fn law_short_quotes_are_kept(list: Seq<Seq<char>>, max: nat)
    requires
        forall|at: int| 0 <= at <= list.len() ==> quote_run(#[trigger] list.skip(at)) <= max,
    ensures
        collapsed(list, max) == list,
    decreases list.len(),
{
    if list.len() > 0 {
        let n = quote_run(list);
        lemma_quote_run(list);
        assert(list.skip(0) =~= list);
        let step = if n == 0 {
            1int
        } else {
            n as int
        };
        let rest = list.skip(step);
        assert(list.drop_first() =~= list.skip(1));
        assert forall|at: int| 0 <= at <= rest.len() implies quote_run(#[trigger] rest.skip(at))
            <= max by {
            assert(rest.skip(at) =~= list.skip(step + at));
        }
        law_short_quotes_are_kept(rest, max);
        assert(collapsed(list, max) =~= list);
    }
}

/// Collapsing lines that are collapsed already changes nothing.
pub proof fn law_collapsing_twice_is_once(list: Seq<Seq<char>>, max: nat)
    ensures
        collapsed(collapsed(list, max), max) == collapsed(list, max),
{
    let once = collapsed(list, max);
    assert forall|at: int| 0 <= at <= once.len() implies quote_run(#[trigger] once.skip(at))
        <= max by {
        law_quotes_are_cut(list, max, at);
    }
    law_short_quotes_are_kept(once, max);
}

/// A text in which no line is quoted keeps its lines; if they are parted by line feeds alone, it
/// stays as it is.
pub proof fn law_unquoted_text_is_kept(text: Seq<char>, max: nat)
    requires
        forall|i: int| 0 <= i < text_lines(text).len() ==> !is_quote(#[trigger] text_lines(text)[i]),
    ensures
        collapsed_text(text, max) == joined(text_lines(text), "\n"@),
        plain_breaks(text) ==> collapsed_text(text, max) == text,
{
    law_unquoted_lines_are_kept(text_lines(text), max);
    if plain_breaks(text) {
        law_lines_join_back(text);
    }
}

/// A text in which no run of quoted lines is longer than `max` keeps its lines; if they are parted by
/// line feeds alone, it stays as it is.
pub proof fn law_short_quoted_text_is_kept(text: Seq<char>, max: nat)
    requires
        forall|at: int|
            0 <= at <= text_lines(text).len() ==> quote_run(#[trigger] text_lines(text).skip(at))
                <= max,
    ensures
        collapsed_text(text, max) == joined(text_lines(text), "\n"@),
        plain_breaks(text) ==> collapsed_text(text, max) == text,
{
    law_short_quotes_are_kept(text_lines(text), max);
    if plain_breaks(text) {
        law_lines_join_back(text);
    }
}

/// The note of an omission holds no line feed and no character with a meaning in HTML.
proof fn lemma_omission_is_plain(n: nat)
    ensures
        !omission(n).contains('\n'),
        is_inert(omission(n)),
{
    lemma_decimal_value(n);
    reveal_strlit("[... ");
    reveal_strlit(" more lines quoted]");
    let s = omission(n);
    let d = decimal(n);
    assert forall|i: int| 0 <= i < s.len() implies {
        &&& #[trigger] s[i] != '<'
        &&& s[i] != '>'
        &&& s[i] != '"'
        &&& s[i] != '\n'
    } by {
        if i < 5 {
            assert(s[i] == "[... "@[i]);
        } else if i < 5 + d.len() {
            assert(s[i] == d[i - 5]);
        } else {
            assert(s[i] == " more lines quoted]"@[i - 5 - d.len()]);
        }
    }
}

proof fn lemma_collapsed_holds_no_line_feed(list: Seq<Seq<char>>, max: nat)
    requires
        forall|i: int| 0 <= i < list.len() ==> !(#[trigger] list[i]).contains('\n'),
    ensures
        forall|i: int|
            0 <= i < collapsed(list, max).len() ==> !(#[trigger] collapsed(list, max)[i]).contains(
                '\n',
            ),
    decreases list.len(),
{
    let n = quote_run(list);
    let all = collapsed(list, max);
    lemma_quote_run(list);
    if list.len() > 0 {
        let step = if n == 0 {
            1int
        } else {
            n as int
        };
        let rest = list.skip(step);
        let head = if n == 0 {
            seq![list.first()]
        } else {
            cut_run(list.take(step), max)
        };
        assert(list.drop_first() =~= list.skip(1));
        assert forall|i: int| 0 <= i < rest.len() implies !(#[trigger] rest[i]).contains('\n') by {
            assert(rest[i] == list[i + step]);
        }
        lemma_collapsed_holds_no_line_feed(rest, max);
        assert(all == head + collapsed(rest, max));
        if n > max {
            lemma_omission_is_plain((n - max) as nat);
        }
        assert forall|i: int| 0 <= i < all.len() implies !(#[trigger] all[i]).contains('\n') by {
            if i >= head.len() {
                assert(all[i] == collapsed(rest, max)[i - head.len()]);
            } else if n == 0 || n <= max || i < max {
                assert(all[i] == list[i]);
            } else {
                assert(all[i] == omission((n - max) as nat));
            }
        }
    }
}

proof fn lemma_collapsed_joins_plainly(list: Seq<Seq<char>>, max: nat)
    requires
        joins_plainly(list),
    ensures
        joins_plainly(collapsed(list, max)),
        list.len() > 0 ==> collapsed(list, max).len() > 0,
    decreases list.len(),
{
    let n = quote_run(list);
    let all = collapsed(list, max);
    lemma_quote_run(list);
    if list.len() > 0 {
        let step = if n == 0 {
            1int
        } else {
            n as int
        };
        let rest = list.skip(step);
        let head = if n == 0 {
            seq![list.first()]
        } else {
            cut_run(list.take(step), max)
        };
        let tail = collapsed(rest, max);
        assert(list.drop_first() =~= list.skip(1));
        assert forall|i: int| 0 <= i < rest.len() - 1 implies (#[trigger] rest[i]).len() == 0
            || rest[i].last() != '\r' by {
            assert(rest[i] == list[i + step]);
        }
        if rest.len() > 0 {
            assert(rest.last() == list.last());
        }
        lemma_collapsed_joins_plainly(rest, max);
        assert(all == head + tail);
        if n > max {
            lemma_omission_is_plain((n - max) as nat);
            reveal_strlit(" more lines quoted]");
            let note = omission((n - max) as nat);
            assert(note.last() == " more lines quoted]"@.last());
        }
        if rest.len() == 0 {
            assert(tail.len() == 0);
            assert(all.last() == head.last());
        } else {
            assert(all.last() == tail.last());
        }
        assert forall|i: int| 0 <= i < all.len() - 1 implies (#[trigger] all[i]).len() == 0
            || all[i].last() != '\r' by {
            if i >= head.len() {
                assert(all[i] == tail[i - head.len()]);
            } else if n == 0 || n <= max || i < max {
                assert(all[i] == list[i]);
                assert(i < list.len() - 1);
            } else {
                assert(all[i] == omission((n - max) as nat));
            }
        }
    }
}

/// Of a text whose lines are parted by line feeds alone, so are those of the collapsed text;
/// collapsing it once more changes nothing.
pub proof fn law_plain_breaks_stay_plain(text: Seq<char>, max: nat)
    requires
        plain_breaks(text),
    ensures
        plain_breaks(collapsed_text(text, max)),
        collapsed_text(collapsed_text(text, max), max) == collapsed_text(text, max),
{
    lemma_lines_join_plainly(text);
    lemma_collapsed_joins_plainly(text_lines(text), max);
    law_lines_hold_no_line_feed(text);
    lemma_collapsed_holds_no_line_feed(text_lines(text), max);
    lemma_joined_breaks_are_plain(collapsed(text_lines(text), max));
    law_collapsing_text_twice_is_once(text, max);
}

/// Collapsing a text that is collapsed already changes nothing, if the lines of the collapsed text
/// are parted by line feeds alone. A line feed at its end, or a carriage return before one, is lost
/// when it is read as lines again.
pub proof fn law_collapsing_text_twice_is_once(text: Seq<char>, max: nat)
    requires
        plain_breaks(collapsed_text(text, max)),
    ensures
        collapsed_text(collapsed_text(text, max), max) == collapsed_text(text, max),
{
    let list = collapsed(text_lines(text), max);
    let once = collapsed_text(text, max);
    if once.len() > 0 {
        law_lines_hold_no_line_feed(text);
        lemma_collapsed_holds_no_line_feed(text_lines(text), max);
        law_joined_lines_are_read_back(list);
        law_collapsing_twice_is_once(text_lines(text), max);
    } else {
        assert(text_lines(once) == Seq::<Seq<char>>::empty());
        assert(collapsed(text_lines(once), max) == Seq::<Seq<char>>::empty());
        assert(once =~= Seq::<char>::empty());
    }
}

/// `s` begins with `re` in any case, followed by `mark`.
pub open spec fn begins_with_re(s: Seq<char>, mark: char) -> bool {
    &&& s.len() >= 3
    &&& s[0] == 'r' || s[0] == 'R'
    &&& s[1] == 'e' || s[1] == 'E'
    &&& s[2] == mark
}

/// What follows one `Re:` or `Re[2]:` at the start of `s`, if it begins with one.
pub open spec fn after_re(s: Seq<char>) -> Option<Seq<char>> {
    if begins_with_re(s, ':') {
        Some(trimmed(s.skip(3)))
    } else if begins_with_re(s, '[') {
        match position(s, "]:"@) {
            Some(i) => Some(trimmed(s.skip(i + 2))),
            None => None,
        }
    } else {
        None
    }
}

/// The number of reply prefixes at the start of `s`.
pub open spec fn re_count(s: Seq<char>) -> nat
    decreases s.len(),
    via re_count_shrinks
{
    match after_re(s) {
        Some(rest) => 1 + re_count(rest),
        None => 0,
    }
}

#[via_fn]
proof fn re_count_shrinks(s: Seq<char>) {
    lemma_after_re(s);
}

/// `s` without all the reply prefixes at its start.
pub open spec fn without_re(s: Seq<char>) -> Seq<char>
    decreases s.len(),
    via without_re_shrinks
{
    match after_re(s) {
        Some(rest) => without_re(rest),
        None => s,
    }
}

#[via_fn]
proof fn without_re_shrinks(s: Seq<char>) {
    lemma_after_re(s);
}

/// `s` without the list prefixes in square brackets at its start.
pub open spec fn without_list_prefix(s: Seq<char>) -> Seq<char>
    decreases s.len(),
    via without_list_prefix_shrinks
{
    if s.len() > 0 && s[0] == '[' {
        match position(s, "]"@) {
            Some(i) => without_list_prefix(trimmed(s.skip(i + 1))),
            None => s,
        }
    } else {
        s
    }
}

#[via_fn]
proof fn without_list_prefix_shrinks(s: Seq<char>) {
    if let Some(i) = position(s, "]"@) {
        lemma_position_occurs(s, "]"@);
        reveal_strlit("]");
        lemma_trimmed(s.skip(i + 1));
    }
}

/// The subject as it is shown: without list prefixes, and without reply prefixes where there is more
/// than one.
pub open spec fn cleaned_subject(subject: Seq<char>) -> Seq<char> {
    let s = without_list_prefix(trimmed(subject));
    if re_count(s) > 1 {
        trimmed(without_re(s))
    } else {
        trimmed(s)
    }
}

/// Trimming does not lengthen a text, leaves no white space at its ends, and does nothing the second
/// time.
pub proof fn lemma_trimmed(s: Seq<char>)
    ensures
        trimmed(s).len() <= s.len(),
        trimmed(trimmed(s)) == trimmed(s),
{
    let a = drop_leading(s, CharClass::White);
    lemma_drop_leading(s, CharClass::White);
    lemma_drop_trailing(a, CharClass::White);
    let t = trimmed(s);
    if t.len() > 0 {
        assert(t.first() == a.first());
        assert(drop_leading(t, CharClass::White) == t);
        assert(drop_trailing(t, CharClass::White) == t);
    }
}

proof fn lemma_after_re(s: Seq<char>)
    ensures
        after_re(s) matches Some(rest) ==> rest.len() < s.len() && trimmed(rest) == rest,
{
    reveal_strlit("]:");
    lemma_position_occurs(s, "]:"@);
    if begins_with_re(s, ':') {
        lemma_trimmed(s.skip(3));
    } else if begins_with_re(s, '[') {
        if let Some(i) = position(s, "]:"@) {
            lemma_trimmed(s.skip(i + 2));
        }
    }
}

fn re_mark(s: &str) -> (r: Option<char>)
    ensures
        match r {
            Some(mark) => begins_with_re(s@, mark) && (mark == ':' || mark == '['),
            None => !begins_with_re(s@, ':') && !begins_with_re(s@, '['),
        },
{
    let v = chars_of(s);
    if v.len() >= 3 && (v[0] == 'r' || v[0] == 'R') && (v[1] == 'e' || v[1] == 'E') && (v[2] == ':'
        || v[2] == '[') {
        Some(v[2])
    } else {
        None
    }
}

/// Whether a subject begins with `Re:` in any case.
pub fn starts_with_re(s: &str) -> (r: bool)
    ensures
        r == begins_with_re(s@, ':'),
{
    match re_mark(s) {
        Some(mark) => mark == ':',
        None => false,
    }
}

/// The subject after one reply prefix, if it begins with one.
pub fn strip_one_re(s: &str) -> (r: Option<String>)
    ensures
        match r {
            Some(rest) => after_re(s@) == Some(rest@),
            None => after_re(s@) is None,
        },
{
    proof {
        reveal_strlit("]:");
    }
    match re_mark(s) {
        Some(mark) => {
            if mark == ':' {
                Some(trim(text_from(s, 3).as_str()))
            } else {
                match find_text(s, "]:") {
                    Some(i) => Some(trim(text_from(s, i + 2).as_str())),
                    None => None,
                }
            }
        },
        None => None,
    }
}

/// The number of reply prefixes at the start of a subject.
pub fn count_re_prefix(s: &str) -> (count: usize)
    ensures
        count == re_count(s@),
{
    let length: usize = chars_of(s).len();
    let mut count: usize = 0;
    let mut rest: String = s.to_owned();
    loop
        invariant
            re_count(s@) == count + re_count(rest@),
            count + rest@.len() <= length,
        decreases rest@.len(),
    {
        proof {
            lemma_after_re(rest@);
        }
        match strip_one_re(rest.as_str()) {
            Some(shorter) => {
                count += 1;
                rest = shorter;
            },
            None => {
                return count;
            },
        }
    }
}

/// The subject without list prefixes and without repeated reply prefixes. A single reply prefix is
/// kept.
pub fn clean_subject(subject: &str) -> (r: String)
    ensures
        r@ == cleaned_subject(subject@),
{
    proof {
        reveal_strlit("]");
    }
    let mut s: String = trim(subject);
    loop
        invariant
            "]"@.len() == 1,
            without_list_prefix(trimmed(subject@)) == without_list_prefix(s@),
        ensures
            s@ == without_list_prefix(trimmed(subject@)),
        decreases s@.len(),
    {
        let v = chars_of(s.as_str());
        if v.len() == 0 || v[0] != '[' {
            break;
        }
        match find_text(s.as_str(), "]") {
            Some(end) => {
                proof {
                    lemma_trimmed(s@.skip(end + 1));
                }
                s = trim(text_from(s.as_str(), end + 1).as_str());
            },
            None => {
                break;
            },
        }
    }
    let prefixes: usize = count_re_prefix(s.as_str());
    if prefixes > 1 {
        let ghost whole = s@;
        loop
            invariant
                without_re(whole) == without_re(s@),
            ensures
                s@ == without_re(whole),
            decreases s@.len(),
        {
            proof {
                lemma_after_re(s@);
            }
            match strip_one_re(s.as_str()) {
                Some(shorter) => {
                    s = shorter;
                },
                None => {
                    break;
                },
            }
        }
    }
    trim(s.as_str())
}

proof fn lemma_without_re(s: Seq<char>)
    ensures
        after_re(without_re(s)) is None,
        trimmed(s) == s ==> trimmed(without_re(s)) == without_re(s),
    decreases s.len(),
{
    lemma_after_re(s);
    if let Some(rest) = after_re(s) {
        lemma_without_re(rest);
    }
}

proof fn lemma_without_list_prefix(s: Seq<char>)
    requires
        trimmed(s) == s,
    ensures
        trimmed(without_list_prefix(s)) == without_list_prefix(s),
    decreases s.len(),
{
    if s.len() > 0 && s[0] == '[' {
        if let Some(i) = position(s, "]"@) {
            lemma_position_occurs(s, "]"@);
            reveal_strlit("]");
            lemma_trimmed(s.skip(i + 1));
            lemma_without_list_prefix(trimmed(s.skip(i + 1)));
        }
    }
}

/// A cleaned subject has at most one reply prefix and no white space at its ends.
pub proof fn law_subject_has_one_re_at_most(subject: Seq<char>)
    ensures
        re_count(cleaned_subject(subject)) <= 1,
        trimmed(cleaned_subject(subject)) == cleaned_subject(subject),
{
    lemma_trimmed(subject);
    let s = without_list_prefix(trimmed(subject));
    lemma_without_list_prefix(trimmed(subject));
    lemma_without_re(s);
    lemma_trimmed(s);
    lemma_trimmed(without_re(s));
    if re_count(s) > 1 {
        assert(re_count(without_re(s)) == 0);
    }
}

/// A subject without brackets at its start and without repeated reply prefixes is only trimmed.
pub proof fn law_plain_subject_is_kept(subject: Seq<char>)
    requires
        trimmed(subject).len() == 0 || trimmed(subject)[0] != '[',
        re_count(trimmed(subject)) <= 1,
    ensures
        cleaned_subject(subject) == trimmed(subject),
{
    lemma_trimmed(subject);
}

/// The sender as `Name <address>`, or the address where there is no name.
pub open spec fn sender_text(name: Option<Seq<char>>, email: Seq<char>) -> Seq<char> {
    match name {
        Some(n) => if n.len() > 0 {
            n + " <"@ + email + ">"@
        } else {
            email
        },
        None => email,
    }
}

/// The sender as `Name <address>`, or the address where there is no name.
pub fn format_sender(name: Option<&str>, email: &str) -> (r: String)
    ensures
        r@ == sender_text(opt_str_view(name), email@),
{
    match name {
        Some(n) => {
            if n.is_empty() {
                email.to_owned()
            } else {
                let mut s = n.to_owned();
                s.append(" <");
                s.append(email);
                s.append(">");
                s
            }
        },
        None => email.to_owned(),
    }
}

/// A character as it is written in HTML.
pub open spec fn escaped_char(c: char) -> Seq<char> {
    if c == '&' {
        "&amp;"@
    } else if c == '<' {
        "&lt;"@
    } else if c == '>' {
        "&gt;"@
    } else if c == '"' {
        "&quot;"@
    } else {
        seq![c]
    }
}

/// A text as it is written in HTML.
pub open spec fn escaped(s: Seq<char>) -> Seq<char>
    decreases s.len(),
{
    if s.len() == 0 {
        seq![]
    } else {
        escaped(s.drop_last()) + escaped_char(s.last())
    }
}

/// A text as it is written in HTML.
pub fn html_escape(s: &str) -> (r: String)
    ensures
        r@ == escaped(s@),
{
    let v = chars_of(s);
    let mut out = String::new();
    let mut i: usize = 0;
    while i < v.len()
        invariant
            v@ == s@,
            i <= v@.len(),
            out@ == escaped(v@.take(i as int)),
        decreases v@.len() - i,
    {
        let c: char = v[i];
        assert(v@.take(i + 1).drop_last() =~= v@.take(i as int));
        if c == '&' {
            out.append("&amp;");
        } else if c == '<' {
            out.append("&lt;");
        } else if c == '>' {
            out.append("&gt;");
        } else if c == '"' {
            out.append("&quot;");
        } else {
            assert(out@.push(c) =~= out@ + seq![c]);
            out.push(c);
        }
        i += 1;
    }
    assert(v@.take(i as int) =~= v@);
    out
}

pub proof fn lemma_escaped_first(c: char, s: Seq<char>)
    ensures
        escaped(seq![c] + s) == escaped_char(c) + escaped(s),
    decreases s.len(),
{
    let whole = seq![c] + s;
    if s.len() == 0 {
        assert(whole.drop_last() =~= Seq::<char>::empty());
        assert(escaped(Seq::<char>::empty()) == Seq::<char>::empty());
        assert(escaped(whole) =~= escaped_char(c) + escaped(s));
    } else {
        assert(whole.drop_last() =~= seq![c] + s.drop_last());
        lemma_escaped_first(c, s.drop_last());
        assert(escaped(whole) =~= escaped_char(c) + escaped(s));
    }
}

pub proof fn reveal_entities()
    ensures
        "&amp;"@ == seq!['&', 'a', 'm', 'p', ';'],
        "&lt;"@ == seq!['&', 'l', 't', ';'],
        "&gt;"@ == seq!['&', 'g', 't', ';'],
        "&quot;"@ == seq!['&', 'q', 'u', 'o', 't', ';'],
{
    reveal_strlit("&amp;");
    reveal_strlit("&lt;");
    reveal_strlit("&gt;");
    reveal_strlit("&quot;");
    assert("&amp;"@ =~= seq!['&', 'a', 'm', 'p', ';']);
    assert("&lt;"@ =~= seq!['&', 'l', 't', ';']);
    assert("&gt;"@ =~= seq!['&', 'g', 't', ';']);
    assert("&quot;"@ =~= seq!['&', 'q', 'u', 'o', 't', ';']);
}

/// The text holds no character that begins or ends a tag or an attribute's value.
pub open spec fn is_inert(s: Seq<char>) -> bool {
    forall|i: int|
        0 <= i < s.len() ==> {
            &&& #[trigger] s[i] != '<'
            &&& s[i] != '>'
            &&& s[i] != '"'
        }
}

/// Escaped text holds no character that begins or ends a tag or an attribute's value.
pub proof fn law_escaped_text_is_inert(s: Seq<char>)
    ensures
        is_inert(escaped(s)),
    decreases s.len(),
{
    if s.len() > 0 {
        law_escaped_text_is_inert(s.drop_last());
        reveal_entities();
        let head = escaped(s.drop_last());
        let tail = escaped_char(s.last());
        assert forall|i: int| 0 <= i < escaped(s).len() implies {
            &&& #[trigger] escaped(s)[i] != '<'
            &&& escaped(s)[i] != '>'
            &&& escaped(s)[i] != '"'
        } by {
            if i < head.len() {
                assert(escaped(s)[i] == head[i]);
            } else {
                assert(escaped(s)[i] == tail[i - head.len()]);
            }
        }
    }
}

proof fn lemma_same_first_escape(c: char, d: char, s: Seq<char>, t: Seq<char>)
    requires
        escaped_char(c) + s == escaped_char(d) + t,
    ensures
        c == d,
        s == t,
{
    reveal_entities();
    let x = escaped_char(c) + s;
    let y = escaped_char(d) + t;
    assert(x[0] == escaped_char(c)[0]);
    assert(y[0] == escaped_char(d)[0]);
    if x[0] == '&' {
        assert(x[1] == escaped_char(c)[1]);
        assert(y[1] == escaped_char(d)[1]);
    }
    assert(c == d);
    let n = escaped_char(c).len() as int;
    assert(x.skip(n) =~= s);
    assert(y.skip(n) =~= t);
}

/// Escaping loses nothing: two texts that are written alike in HTML are the same text.
pub proof fn law_escaping_is_faithful(s: Seq<char>, t: Seq<char>)
    requires
        escaped(s) == escaped(t),
    ensures
        s == t,
    decreases s.len() + t.len(),
{
    reveal_entities();
    if s.len() > 0 {
        assert(s =~= seq![s.first()] + s.drop_first());
        lemma_escaped_first(s.first(), s.drop_first());
        assert(escaped(s).len() > 0);
    }
    if t.len() > 0 {
        assert(t =~= seq![t.first()] + t.drop_first());
        lemma_escaped_first(t.first(), t.drop_first());
        assert(escaped(t).len() > 0);
    }
    if s.len() > 0 && t.len() > 0 {
        lemma_same_first_escape(
            s.first(),
            t.first(),
            escaped(s.drop_first()),
            escaped(t.drop_first()),
        );
        law_escaping_is_faithful(s.drop_first(), t.drop_first());
    } else {
        assert(s =~= t);
    }
}

/// A line outside of quotations in HTML.
pub open spec fn html_line(line: Seq<char>) -> Seq<char> {
    escaped(line) + "<br>\n"@
}

/// A quoted line in HTML, without the marks of quotation.
pub open spec fn html_quote_line(line: Seq<char>) -> Seq<char> {
    html_line(trimmed(drop_leading(line, CharClass::Only('>'))))
}

/// Quoted lines in HTML, one after the other.
pub open spec fn html_quote_lines(run: Seq<Seq<char>>) -> Seq<char>
    decreases run.len(),
{
    if run.len() == 0 {
        seq![]
    } else {
        html_quote_lines(run.drop_last()) + html_quote_line(run.last())
    }
}

/// A run of quoted lines in HTML, cut to `max` lines.
pub open spec fn html_run(run: Seq<Seq<char>>, max: nat) -> Seq<char> {
    let shown = run.take(at_most(run.len(), max) as int);
    let note = if run.len() > max {
        "<em>"@ + omission((run.len() - max) as nat) + "</em><br>\n"@
    } else {
        seq![]
    };
    "<blockquote>"@ + html_quote_lines(shown) + note + "</blockquote>\n"@
}

/// Lines in HTML, with every run of quoted lines as one block.
pub open spec fn html_lines(list: Seq<Seq<char>>, max: nat) -> Seq<char>
    decreases list.len(),
    via html_lines_shrinks
{
    let n = quote_run(list);
    if list.len() == 0 {
        seq![]
    } else if n == 0 {
        html_line(list.first()) + html_lines(list.drop_first(), max)
    } else {
        html_run(list.take(n as int), max) + html_lines(list.skip(n as int), max)
    }
}

#[via_fn]
proof fn html_lines_shrinks(list: Seq<Seq<char>>, max: nat) {
    lemma_quote_run(list);
}

fn html_line_text(line: &str) -> (r: String)
    ensures
        r@ == html_line(line@),
{
    let mut s = html_escape(line);
    s.append("<br>\n");
    s
}

/// The HTML of the run of quoted lines from `from` up to `end`.
fn html_run_text(list: &Vec<String>, from: usize, end: usize, max_quote: usize) -> (r: String)
    requires
        from <= end <= list@.len(),
    ensures
        r@ == html_run(views(list@).subrange(from as int, end as int), max_quote as nat),
{
    let ghost run = views(list@).subrange(from as int, end as int);
    let total: usize = end - from;
    let shown: usize = if total <= max_quote {
        total
    } else {
        max_quote
    };
    let mut s = "<blockquote>".to_owned();
    let mut k: usize = 0;
    assert(run.take(0) =~= Seq::<Seq<char>>::empty());
    assert(s@ + html_quote_lines(run.take(0)) =~= s@);
    while k < shown
        invariant
            run == views(list@).subrange(from as int, end as int),
            from <= end <= list@.len(),
            k <= shown <= end - from,
            s@ == "<blockquote>"@ + html_quote_lines(run.take(k as int)),
        decreases shown - k,
    {
        let unquoted = strip_leading(list[from + k].as_str(), &CharClass::Only('>'));
        let line = html_line_text(trim(unquoted.as_str()).as_str());
        proof {
            assert(run[k as int] == list@[from + k]@);
            assert(run.take(k + 1).drop_last() =~= run.take(k as int));
            assert(s@ + line@ =~= "<blockquote>"@ + html_quote_lines(run.take(k + 1)));
        }
        s.append(line.as_str());
        k += 1;
    }
    let ghost body = s@;
    if total > shown {
        s.append("<em>");
        s.append(omission_text(total - shown).as_str());
        s.append("</em><br>\n");
        assert(s@ =~= body + ("<em>"@ + omission((total - shown) as nat) + "</em><br>\n"@));
    } else {
        assert(s@ =~= body + Seq::<char>::empty());
    }
    s.append("</blockquote>\n");
    s
}

/// Plain text in HTML: a break after each line, a block for each run of quoted lines, and of each
/// run at most `max_quote` lines.
pub fn plain_to_html(text: &str, max_quote: usize) -> (r: String)
    ensures
        r@ == html_lines(text_lines(text@), max_quote as nat),
{
    let list = lines(text);
    let ghost all = views(list@);
    let ghost max = max_quote as nat;
    let mut out = String::new();
    let mut i: usize = 0;
    assert(all.skip(0) =~= all);
    assert(out@ + html_lines(all, max) =~= html_lines(all, max));
    while i < list.len()
        invariant
            all == views(list@),
            max == max_quote,
            i <= list@.len(),
            html_lines(all, max) == out@ + html_lines(all.skip(i as int), max),
        decreases list@.len() - i,
    {
        let ghost rest = all.skip(i as int);
        let ghost before = out@;
        let end: usize = run_end(&list, i);
        if end == i {
            out.append(html_line_text(list[i].as_str()).as_str());
            i += 1;
            proof {
                let tail = html_lines(all.skip(i as int), max);
                assert(rest.drop_first() =~= all.skip(i as int));
                assert(out@ + tail =~= before + (html_line(rest.first()) + tail));
            }
        } else {
            out.append(html_run_text(&list, i, end, max_quote).as_str());
            proof {
                let run = rest.take(end - i);
                let tail = html_lines(all.skip(end as int), max);
                assert(run =~= all.subrange(i as int, end as int));
                assert(rest.skip(end - i) =~= all.skip(end as int));
                assert(out@ + tail =~= before + (html_run(run, max) + tail));
            }
            i = end;
        }
    }
    assert(all.skip(i as int).len() == 0);
    assert(out@ + html_lines(all.skip(i as int), max) =~= out@);
    out
}

/// What HTML made of plain text consists of.
pub ghost enum HtmlPiece {
    /// Text, as it is written in HTML.
    Text(Seq<char>),
    Break,
    QuoteOpen,
    QuoteClose,
    NoteOpen,
    NoteClose,
}

/// How a piece is written.
pub open spec fn piece_text(piece: HtmlPiece) -> Seq<char> {
    match piece {
        HtmlPiece::Text(t) => t,
        HtmlPiece::Break => "<br>\n"@,
        HtmlPiece::QuoteOpen => "<blockquote>"@,
        HtmlPiece::QuoteClose => "</blockquote>\n"@,
        HtmlPiece::NoteOpen => "<em>"@,
        HtmlPiece::NoteClose => "</em>"@,
    }
}

/// Pieces written one after the other.
pub open spec fn pieces_text(pieces: Seq<HtmlPiece>) -> Seq<char>
    decreases pieces.len(),
{
    if pieces.len() == 0 {
        seq![]
    } else {
        pieces_text(pieces.drop_last()) + piece_text(pieces.last())
    }
}

pub open spec fn line_pieces(line: Seq<char>) -> Seq<HtmlPiece> {
    seq![HtmlPiece::Text(escaped(line)), HtmlPiece::Break]
}

/// The pieces of quoted lines, without the marks of quotation.
pub open spec fn quote_pieces(run: Seq<Seq<char>>) -> Seq<HtmlPiece>
    decreases run.len(),
{
    if run.len() == 0 {
        seq![]
    } else {
        quote_pieces(run.drop_last()) + line_pieces(
            trimmed(drop_leading(run.last(), CharClass::Only('>'))),
        )
    }
}

/// The pieces of the note after a run that is cut.
pub open spec fn note_pieces(run: Seq<Seq<char>>, max: nat) -> Seq<HtmlPiece> {
    if run.len() > max {
        seq![
            HtmlPiece::NoteOpen,
            HtmlPiece::Text(omission((run.len() - max) as nat)),
            HtmlPiece::NoteClose,
            HtmlPiece::Break,
        ]
    } else {
        seq![]
    }
}

pub open spec fn run_pieces(run: Seq<Seq<char>>, max: nat) -> Seq<HtmlPiece> {
    seq![HtmlPiece::QuoteOpen] + quote_pieces(run.take(at_most(run.len(), max) as int))
        + note_pieces(run, max) + seq![HtmlPiece::QuoteClose]
}

/// The pieces of lines in HTML.
pub open spec fn html_pieces(list: Seq<Seq<char>>, max: nat) -> Seq<HtmlPiece>
    decreases list.len(),
    via html_pieces_shrink
{
    let n = quote_run(list);
    if list.len() == 0 {
        seq![]
    } else if n == 0 {
        line_pieces(list.first()) + html_pieces(list.drop_first(), max)
    } else {
        run_pieces(list.take(n as int), max) + html_pieces(list.skip(n as int), max)
    }
}

#[via_fn]
proof fn html_pieces_shrink(list: Seq<Seq<char>>, max: nat) {
    lemma_quote_run(list);
}

proof fn lemma_pieces_add(a: Seq<HtmlPiece>, b: Seq<HtmlPiece>)
    ensures
        pieces_text(a + b) == pieces_text(a) + pieces_text(b),
    decreases b.len(),
{
    if b.len() == 0 {
        assert(a + b =~= a);
        assert(pieces_text(a) + pieces_text(b) =~= pieces_text(a));
    } else {
        assert((a + b).drop_last() =~= a + b.drop_last());
        lemma_pieces_add(a, b.drop_last());
        assert(pieces_text(a + b) =~= pieces_text(a) + pieces_text(b));
    }
}

proof fn lemma_one_piece(piece: HtmlPiece)
    ensures
        pieces_text(seq![piece]) == piece_text(piece),
{
    assert(seq![piece].drop_last() =~= Seq::<HtmlPiece>::empty());
    assert(pieces_text(Seq::<HtmlPiece>::empty()) == Seq::<char>::empty());
    assert(pieces_text(seq![piece]) =~= piece_text(piece));
}

proof fn lemma_line_pieces(line: Seq<char>)
    ensures
        pieces_text(line_pieces(line)) == html_line(line),
{
    let a = seq![HtmlPiece::Text(escaped(line))];
    let b = seq![HtmlPiece::Break];
    assert(line_pieces(line) =~= a + b);
    lemma_pieces_add(a, b);
    lemma_one_piece(HtmlPiece::Text(escaped(line)));
    lemma_one_piece(HtmlPiece::Break);
}

proof fn lemma_quote_pieces(run: Seq<Seq<char>>)
    ensures
        pieces_text(quote_pieces(run)) == html_quote_lines(run),
    decreases run.len(),
{
    if run.len() > 0 {
        let line = trimmed(drop_leading(run.last(), CharClass::Only('>')));
        lemma_quote_pieces(run.drop_last());
        lemma_pieces_add(quote_pieces(run.drop_last()), line_pieces(line));
        lemma_line_pieces(line);
    }
}

proof fn lemma_run_pieces(run: Seq<Seq<char>>, max: nat)
    ensures
        pieces_text(run_pieces(run, max)) == html_run(run, max),
{
    let shown = run.take(at_most(run.len(), max) as int);
    let open = seq![HtmlPiece::QuoteOpen];
    let close = seq![HtmlPiece::QuoteClose];
    let note = note_pieces(run, max);
    lemma_quote_pieces(shown);
    lemma_one_piece(HtmlPiece::QuoteOpen);
    lemma_one_piece(HtmlPiece::QuoteClose);
    if run.len() > max {
        let words = omission((run.len() - max) as nat);
        let a = seq![HtmlPiece::NoteOpen];
        let b = seq![HtmlPiece::Text(words)];
        let c = seq![HtmlPiece::NoteClose];
        let d = seq![HtmlPiece::Break];
        lemma_one_piece(HtmlPiece::NoteOpen);
        lemma_one_piece(HtmlPiece::Text(words));
        lemma_one_piece(HtmlPiece::NoteClose);
        lemma_one_piece(HtmlPiece::Break);
        lemma_pieces_add(a, b);
        lemma_pieces_add(a + b, c);
        lemma_pieces_add(a + b + c, d);
        assert(note =~= a + b + c + d);
        reveal_strlit("</em>");
        reveal_strlit("<br>\n");
        reveal_strlit("</em><br>\n");
        assert("</em>"@ + "<br>\n"@ =~= "</em><br>\n"@);
        assert(pieces_text(note) =~= "<em>"@ + words + "</em><br>\n"@);
    }
    lemma_pieces_add(open, quote_pieces(shown));
    lemma_pieces_add(open + quote_pieces(shown), note);
    lemma_pieces_add(open + quote_pieces(shown) + note, close);
}

/// HTML made of plain lines consists of the tags that the lines call for and of texts; none of the
/// texts holds a character that begins or ends a tag, so that no markup comes from the lines.
pub proof fn law_lines_bring_no_markup(list: Seq<Seq<char>>, max: nat)
    ensures
        html_lines(list, max) == pieces_text(html_pieces(list, max)),
        forall|i: int|
            0 <= i < html_pieces(list, max).len() ==> (#[trigger] html_pieces(list, max)[i] matches
                HtmlPiece::Text(t) ==> is_inert(t)),
    decreases list.len(),
{
    let n = quote_run(list);
    let all = html_pieces(list, max);
    lemma_quote_run(list);
    if list.len() == 0 {
    } else if n == 0 {
        let head = line_pieces(list.first());
        let rest = html_pieces(list.drop_first(), max);
        law_lines_bring_no_markup(list.drop_first(), max);
        law_escaped_text_is_inert(list.first());
        lemma_line_pieces(list.first());
        lemma_pieces_add(head, rest);
        assert(all == head + rest);
        assert forall|i: int| 0 <= i < all.len() implies (#[trigger] all[i] matches HtmlPiece::Text(t)
            ==> is_inert(t)) by {
            if i >= head.len() {
                assert(all[i] == rest[i - head.len()]);
            } else {
                assert(all[i] == head[i]);
            }
        }
    } else {
        let run = list.take(n as int);
        let head = run_pieces(run, max);
        let rest = html_pieces(list.skip(n as int), max);
        law_lines_bring_no_markup(list.skip(n as int), max);
        lemma_run_pieces(run, max);
        lemma_inert_run(run, max);
        lemma_pieces_add(head, rest);
        assert(all == head + rest);
        assert forall|i: int| 0 <= i < all.len() implies (#[trigger] all[i] matches HtmlPiece::Text(t)
            ==> is_inert(t)) by {
            if i >= head.len() {
                assert(all[i] == rest[i - head.len()]);
            } else {
                assert(all[i] == head[i]);
            }
        }
    }
}

proof fn lemma_inert_quotes(run: Seq<Seq<char>>)
    ensures
        forall|i: int|
            0 <= i < quote_pieces(run).len() ==> (#[trigger] quote_pieces(run)[i] matches
                HtmlPiece::Text(t) ==> is_inert(t)),
    decreases run.len(),
{
    if run.len() > 0 {
        let line = trimmed(drop_leading(run.last(), CharClass::Only('>')));
        let head = quote_pieces(run.drop_last());
        let all = quote_pieces(run);
        lemma_inert_quotes(run.drop_last());
        law_escaped_text_is_inert(line);
        assert(all == head + line_pieces(line));
        assert forall|i: int| 0 <= i < all.len() implies (#[trigger] all[i] matches HtmlPiece::Text(t)
            ==> is_inert(t)) by {
            if i < head.len() {
                assert(all[i] == head[i]);
            } else {
                assert(all[i] == line_pieces(line)[i - head.len()]);
            }
        }
    }
}

proof fn lemma_inert_run(run: Seq<Seq<char>>, max: nat)
    ensures
        forall|i: int|
            0 <= i < run_pieces(run, max).len() ==> (#[trigger] run_pieces(run, max)[i] matches
                HtmlPiece::Text(t) ==> is_inert(t)),
{
    let quoted = quote_pieces(run.take(at_most(run.len(), max) as int));
    let note = note_pieces(run, max);
    let all = run_pieces(run, max);
    lemma_inert_quotes(run.take(at_most(run.len(), max) as int));
    if run.len() > max {
        lemma_omission_is_plain((run.len() - max) as nat);
    }
    assert forall|i: int| 0 <= i < all.len() implies (#[trigger] all[i] matches HtmlPiece::Text(t)
        ==> is_inert(t)) by {
        if i == 0 {
            assert(all[i] == HtmlPiece::QuoteOpen);
        } else if i < 1 + quoted.len() {
            assert(all[i] == quoted[i - 1]);
        } else if i < 1 + quoted.len() + note.len() {
            assert(all[i] == note[i - 1 - quoted.len()]);
        } else {
            assert(all[i] == HtmlPiece::QuoteClose);
        }
    }
}

/// The tags of quotation among pieces, in order: `true` where one opens a block, `false` where one
/// closes it.
pub open spec fn quote_tags(pieces: Seq<HtmlPiece>) -> Seq<bool>
    decreases pieces.len(),
{
    if pieces.len() == 0 {
        seq![]
    } else {
        let head = quote_tags(pieces.drop_last());
        match pieces.last() {
            HtmlPiece::QuoteOpen => head.push(true),
            HtmlPiece::QuoteClose => head.push(false),
            _ => head,
        }
    }
}

/// `n` pairs of a tag that opens a block and one that closes it.
pub open spec fn tag_pairs(n: nat) -> Seq<bool> {
    Seq::new(2 * n, |i: int| i % 2 == 0)
}

/// The number of runs of quoted lines: of quoted lines that follow no quoted line. `inside` says
/// whether the list follows one.
pub open spec fn run_count(list: Seq<Seq<char>>, inside: bool) -> nat
    decreases list.len(),
{
    if list.len() == 0 {
        0
    } else {
        let rest = run_count(list.drop_first(), is_quote(list.first()));
        if is_quote(list.first()) && !inside {
            1 + rest
        } else {
            rest
        }
    }
}

proof fn lemma_run_is_counted_once(list: Seq<Seq<char>>)
    ensures
        run_count(list, true) == run_count(list.skip(quote_run(list) as int), false),
    decreases list.len(),
{
    lemma_quote_run(list);
    if list.len() > 0 && is_quote(list.first()) {
        let rest = list.drop_first();
        lemma_quote_run(rest);
        lemma_run_is_counted_once(rest);
        assert(rest.skip(quote_run(rest) as int) =~= list.skip(quote_run(list) as int));
    } else {
        assert(list.skip(0) =~= list);
    }
}

proof fn lemma_tags_add(a: Seq<HtmlPiece>, b: Seq<HtmlPiece>)
    ensures
        quote_tags(a + b) == quote_tags(a) + quote_tags(b),
    decreases b.len(),
{
    if b.len() == 0 {
        assert(a + b =~= a);
        assert(quote_tags(a) + quote_tags(b) =~= quote_tags(a));
    } else {
        assert((a + b).drop_last() =~= a + b.drop_last());
        lemma_tags_add(a, b.drop_last());
        assert(quote_tags(a + b) =~= quote_tags(a) + quote_tags(b));
    }
}

proof fn lemma_no_tags(pieces: Seq<HtmlPiece>)
    requires
        forall|i: int|
            0 <= i < pieces.len() ==> !(#[trigger] pieces[i] is QuoteOpen) && !(pieces[i]
                is QuoteClose),
    ensures
        quote_tags(pieces) == Seq::<bool>::empty(),
    decreases pieces.len(),
{
    if pieces.len() > 0 {
        let head = pieces.drop_last();
        assert forall|i: int| 0 <= i < head.len() implies !(#[trigger] head[i] is QuoteOpen) && !(
        head[i] is QuoteClose) by {
            assert(head[i] == pieces[i]);
        }
        lemma_no_tags(head);
        assert(!(pieces[pieces.len() - 1] is QuoteOpen));
    }
}

proof fn lemma_quote_pieces_have_no_tags(run: Seq<Seq<char>>)
    ensures
        quote_tags(quote_pieces(run)) == Seq::<bool>::empty(),
    decreases run.len(),
{
    if run.len() > 0 {
        let line = trimmed(drop_leading(run.last(), CharClass::Only('>')));
        lemma_quote_pieces_have_no_tags(run.drop_last());
        lemma_no_tags(line_pieces(line));
        lemma_tags_add(quote_pieces(run.drop_last()), line_pieces(line));
        assert(quote_tags(quote_pieces(run)) =~= Seq::<bool>::empty());
    }
}

proof fn lemma_run_has_one_pair(run: Seq<Seq<char>>, max: nat)
    ensures
        quote_tags(run_pieces(run, max)) == seq![true, false],
{
    let shown = run.take(at_most(run.len(), max) as int);
    let open = seq![HtmlPiece::QuoteOpen];
    let close = seq![HtmlPiece::QuoteClose];
    let note = note_pieces(run, max);
    lemma_quote_pieces_have_no_tags(shown);
    lemma_no_tags(note);
    lemma_tags_add(open, quote_pieces(shown));
    lemma_tags_add(open + quote_pieces(shown), note);
    lemma_tags_add(open + quote_pieces(shown) + note, close);
    assert(open.drop_last() =~= Seq::<HtmlPiece>::empty());
    assert(close.drop_last() =~= Seq::<HtmlPiece>::empty());
    assert(quote_tags(Seq::<HtmlPiece>::empty()) == Seq::<bool>::empty());
    assert(quote_tags(open) =~= seq![true]);
    assert(quote_tags(close) =~= seq![false]);
    assert(quote_tags(run_pieces(run, max)) =~= seq![true, false]);
}

/// In HTML made of plain lines the tags of quotation stand in pairs, each block is closed before the
/// next is opened, and there is one block for each run of quoted lines.
pub proof fn law_each_run_is_one_block(list: Seq<Seq<char>>, max: nat)
    ensures
        quote_tags(html_pieces(list, max)) == tag_pairs(run_count(list, false)),
    decreases list.len(),
{
    let n = quote_run(list);
    lemma_quote_run(list);
    if list.len() == 0 {
        assert(quote_tags(html_pieces(list, max)) =~= tag_pairs(0));
    } else if n == 0 {
        law_each_run_is_one_block(list.drop_first(), max);
        lemma_no_tags(line_pieces(list.first()));
        lemma_tags_add(line_pieces(list.first()), html_pieces(list.drop_first(), max));
        assert(quote_tags(html_pieces(list, max)) =~= tag_pairs(run_count(list, false)));
    } else {
        let rest = list.skip(n as int);
        law_each_run_is_one_block(rest, max);
        lemma_run_has_one_pair(list.take(n as int), max);
        lemma_tags_add(run_pieces(list.take(n as int), max), html_pieces(rest, max));
        lemma_run_is_counted_once(list.drop_first());
        assert(list.drop_first().skip(n - 1) =~= rest);
        assert(run_count(list, false) == 1 + run_count(rest, false));
        assert(quote_tags(html_pieces(list, max)) =~= tag_pairs(run_count(list, false)));
    }
}

/// The text of a date in a room.
pub open spec fn date_text(date: Option<i64>) -> Seq<char> {
    match date {
        Some(secs) => if is_date(secs) {
            utc_text(secs, short_pattern())
        } else {
            "(unknown date)"@
        },
        None => "(unknown date)"@,
    }
}

/// A date, given in seconds since 1970, as `Thu 21 May 14:30`.
pub fn format_date(date: Option<i64>) -> (r: String)
    ensures
        r@ == date_text(date),
{
    match date {
        Some(secs) => match date_from_seconds(secs) {
            Some(valid) => short_date(valid),
            None => "(unknown date)".to_owned(),
        },
        None => "(unknown date)".to_owned(),
    }
}

/// The HTML body: the sanitized one of the mail, or one made of its plain text.
pub open spec fn html_body(
    safe_html: Option<Seq<char>>,
    plain_collapsed: Seq<char>,
    max: nat,
) -> Seq<char> {
    match safe_html {
        Some(html) => "<div>"@ + html + "</div>"@,
        None => html_lines(text_lines(plain_collapsed), max),
    }
}

/// The HTML body for a mail's own HTML, which is sanitized already, if it has one.
pub fn wrap_html_body(safe_html: Option<String>, plain_collapsed: &str, max_quote: usize) -> (r:
    String)
    ensures
        r@ == html_body(opt_view(safe_html), plain_collapsed@, max_quote as nat),
{
    match safe_html {
        Some(html) => {
            let mut s = "<div>".to_owned();
            s.append(html.as_str());
            s.append("</div>");
            s
        },
        None => plain_to_html(plain_collapsed, max_quote),
    }
}

/// The sanitized HTML of a mail, if it has HTML.
pub open spec fn safe_html_of(email: EmailView) -> Option<Seq<char>> {
    match email.body_html {
        Some(html) => Some(sanitized(html)),
        None => None,
    }
}

/// The HTML body of a mail.
pub fn build_html_body(email: &ParsedEmail, plain_collapsed: &str, max_quote: usize) -> (r: String)
    ensures
        r@ == html_body(safe_html_of(email@), plain_collapsed@, max_quote as nat),
{
    let safe: Option<String> = match &email.body_html {
        Some(html) => Some(sanitize_html(html.as_str())),
        None => None,
    };
    wrap_html_body(safe, plain_collapsed, max_quote)
}

/// The plain form of a mail.
pub open spec fn plain_form(
    is_reply: bool,
    subject: Seq<char>,
    sender: Seq<char>,
    date: Seq<char>,
    body: Seq<char>,
) -> Seq<char> {
    let prefix = if is_reply {
        "↩️ Re: "@
    } else {
        "📧 "@
    };
    prefix + subject + "\nFrom: "@ + sender + " · "@ + date + "\n\n"@ + body
}

/// The HTML form of a mail: a head made of escaped texts, and the body as it is given.
pub open spec fn html_form(
    is_reply: bool,
    subject: Seq<char>,
    sender: Seq<char>,
    date: Seq<char>,
    body: Seq<char>,
) -> Seq<char> {
    let prefix = if is_reply {
        "↩️ <strong>Re: "@
    } else {
        "📧 <strong>"@
    };
    prefix + escaped(subject) + "</strong><br>\n<em>"@ + escaped(sender) + "</em> · <em>"@ + escaped(
        date,
    ) + "</em><br><br>\n"@ + body
}

/// Puts the plain form of a mail together.
pub fn build_plain(is_reply: bool, subject: &str, sender: &str, date: &str, body: &str) -> (r:
    String)
    ensures
        r@ == plain_form(is_reply, subject@, sender@, date@, body@),
{
    let mut s: String = if is_reply {
        "↩️ Re: ".to_owned()
    } else {
        "📧 ".to_owned()
    };
    s.append(subject);
    s.append("\nFrom: ");
    s.append(sender);
    s.append(" · ");
    s.append(date);
    s.append("\n\n");
    s.append(body);
    s
}

/// Puts the HTML form of a mail together.
pub fn build_html(is_reply: bool, subject: &str, sender: &str, date: &str, body: &str) -> (r: String)
    ensures
        r@ == html_form(is_reply, subject@, sender@, date@, body@),
{
    let mut s: String = if is_reply {
        "↩️ <strong>Re: ".to_owned()
    } else {
        "📧 <strong>".to_owned()
    };
    s.append(html_escape(subject).as_str());
    s.append("</strong><br>\n<em>");
    s.append(html_escape(sender).as_str());
    s.append("</em> · <em>");
    s.append(html_escape(date).as_str());
    s.append("</em><br><br>\n");
    s.append(body);
    s
}

/// The plain body of a mail with its quotations cut.
pub open spec fn collapsed_body(email: EmailView, limits: LimitsConfig) -> Seq<char> {
    collapsed_text(plain_body_of(email), limits.quote_limit() as nat)
}

/// The plain form of a mail as it is posted.
pub open spec fn shown_plain(email: EmailView, limits: LimitsConfig) -> Seq<char> {
    plain_form(
        email.thread_root is Some,
        cleaned_subject(email.subject),
        sender_text(email.from_name, email.from_email),
        date_text(email.date),
        collapsed_body(email, limits),
    )
}

/// The HTML form of a mail as it is posted.
pub open spec fn shown_html(email: EmailView, limits: LimitsConfig) -> Seq<char> {
    html_form(
        email.thread_root is Some,
        cleaned_subject(email.subject),
        sender_text(email.from_name, email.from_email),
        date_text(email.date),
        html_body(
            safe_html_of(email),
            collapsed_body(email, limits),
            limits.quote_limit() as nat,
        ),
    )
}

/// The plain and the HTML form of a mail, as it is posted to a room. A mail with a known thread is
/// shown as a reply.
pub fn format_email(email: &ParsedEmail, limits: &LimitsConfig) -> (r: (String, String))
    ensures
        r.0@ == shown_plain(email@, *limits),
        r.1@ == shown_html(email@, *limits),
        r.0@ == plain_form(
            email@.thread_root is Some,
            cleaned_subject(email@.subject),
            sender_text(email@.from_name, email@.from_email),
            date_text(email@.date),
            collapsed_body(email@, *limits),
        ),
        r.1@ == html_form(
            email@.thread_root is Some,
            cleaned_subject(email@.subject),
            sender_text(email@.from_name, email@.from_email),
            date_text(email@.date),
            html_body(
                safe_html_of(email@),
                collapsed_body(email@, *limits),
                limits.quote_limit() as nat,
            ),
        ),
{
    let max_quote: usize = limits.effective_max_quote_lines();
    let is_reply: bool = email.thread_root.is_some();
    let subject = clean_subject(email.subject.as_str());
    let name: Option<&str> = match &email.from_name {
        Some(n) => Some(n.as_str()),
        None => None,
    };
    let sender = format_sender(name, email.from_email.as_str());
    let date = format_date(email.date);
    let body = collapse_quotes(get_plain_body(email).as_str(), max_quote);
    let body_html = build_html_body(email, body.as_str(), max_quote);
    let plain = build_plain(
        is_reply,
        subject.as_str(),
        sender.as_str(),
        date.as_str(),
        body.as_str(),
    );
    let html = build_html(
        is_reply,
        subject.as_str(),
        sender.as_str(),
        date.as_str(),
        body_html.as_str(),
    );
    (plain, html)
}

} // verus!
