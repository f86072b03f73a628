//! What holds of trimming, searching, lines, words and numbers.
#[allow(unused_imports)]
use crate::text::{
    decimal, digits_value, drop_leading, drop_trailing, in_class, is_blank, is_control_char, is_digit,
    is_white, joined, lemma_decimal_value, lemma_drop_leading, lemma_drop_trailing,
    lemma_joined_first, lemma_line_length, lemma_position_occurs, line_length, occurs, opt_view,
    parsed_u32, position, replaced, text_lines, text_words, trimmed, unsigned_part, views,
    without_return, word_length, CharClass,
};
use vstd::prelude::*;

verus! {

/// All characters are white space.
pub open spec fn all_white(s: Seq<char>) -> bool {
    forall|i: int| 0 <= i < s.len() ==> is_white(#[trigger] s[i])
}

/// No character is white space.
pub open spec fn none_white(s: Seq<char>) -> bool {
    forall|i: int| 0 <= i < s.len() ==> !is_white(#[trigger] s[i])
}

/// Of the ASCII characters the blank, and those from tab to carriage return, are white space; letters,
/// digits and marks are not.
pub proof fn law_white_space(c: char)
    ensures
        is_white(' ') && is_white('\t') && is_white('\n') && is_white('\r'),
        '!' <= c <= '~' ==> !is_white(c),
        is_white(c) && (c as u32) < 0x80 ==> c == ' ' || 9 <= c as u32 <= 13,
{
}

/// Line breaks, tabs, the null character and the delete character are control characters; what can be
/// printed in ASCII is not.
pub proof fn law_control_characters(c: char)
    ensures
        is_control_char('\n') && is_control_char('\r') && is_control_char('\t') && is_control_char(
            '\0',
        ) && is_control_char('\x7F'),
        ' ' <= c <= '~' ==> !is_control_char(c),
        c as u32 >= 0xA0 ==> !is_control_char(c),
{
}

/// A trimmed text is the piece of the text between the white space at its two ends: what is cut off is
/// white space, and the piece begins and ends with something else.
pub proof fn law_trimming_cuts_white_ends(s: Seq<char>)
    ensures
        exists|i: int, j: int|
            {
                &&& 0 <= i <= j <= s.len()
                &&& trimmed(s) == #[trigger] s.subrange(i, j)
                &&& forall|k: int| 0 <= k < i || j <= k < s.len() ==> is_white(#[trigger] s[k])
                &&& i < j ==> !is_white(s[i]) && !is_white(s[j - 1])
            },
{
    let a = drop_leading(s, CharClass::White);
    lemma_drop_leading(s, CharClass::White);
    lemma_drop_trailing(a, CharClass::White);
    let i = s.len() - a.len();
    let j = i + trimmed(s).len();
    assert(trimmed(s) =~= s.subrange(i, j));
    assert forall|k: int| 0 <= k < i || j <= k < s.len() implies is_white(#[trigger] s[k]) by {
        if k < i {
            assert(in_class(CharClass::White, s[k]));
        } else {
            assert(a[k - i] == s[k]);
            assert(in_class(CharClass::White, a[k - i]));
        }
    }
    if i < j {
        assert(a.first() == s[i]);
        assert(trimmed(s).last() == s[j - 1]);
    }
}

/// White space around a text that neither begins nor ends with any is what trimming takes off.
pub proof fn law_trimming_finds_the_core(a: Seq<char>, core: Seq<char>, b: Seq<char>)
    requires
        all_white(a),
        all_white(b),
        core.len() > 0 ==> !is_white(core.first()) && !is_white(core.last()),
    ensures
        trimmed(a + core + b) == core,
{
    let s = a + core + b;
    law_trimming_cuts_white_ends(s);
    let (i, j) = choose|i: int, j: int|
        {
            &&& 0 <= i <= j <= s.len()
            &&& trimmed(s) == #[trigger] s.subrange(i, j)
            &&& forall|k: int| 0 <= k < i || j <= k < s.len() ==> is_white(#[trigger] s[k])
            &&& i < j ==> !is_white(s[i]) && !is_white(s[j - 1])
        };
    let n = a.len() as int;
    let m = n + core.len();
    assert forall|k: int| 0 <= k < s.len() && (k < n || k >= m) implies is_white(
        #[trigger] s[k],
    ) by {
        if k < n {
            assert(s[k] == a[k]);
        } else {
            assert(s[k] == b[k - m]);
        }
    }
    if core.len() > 0 {
        assert(s[n] == core.first());
        assert(s[m - 1] == core.last());
        assert(i <= n && m <= j);
        assert(i == n && j == m);
        assert(s.subrange(n, m) =~= core);
    } else {
        assert(i == j);
        assert(s.subrange(i, j) =~= core);
    }
}

/// A text is blank exactly if it holds nothing but white space.
pub proof fn law_blank_is_white(s: Seq<char>)
    ensures
        is_blank(s) <==> all_white(s),
{
    law_trimming_cuts_white_ends(s);
    if all_white(s) {
        assert(s + Seq::<char>::empty() + Seq::<char>::empty() =~= s);
        law_trimming_finds_the_core(s, Seq::empty(), Seq::empty());
    }
}

/// Dropping one character from the start of a text takes off all of its first occurrences and nothing
/// else.
pub proof fn law_leading_character_is_dropped(s: Seq<char>, c: char)
    ensures
        exists|i: int|
            {
                &&& 0 <= i <= s.len()
                &&& drop_leading(s, CharClass::Only(c)) == #[trigger] s.skip(i)
                &&& forall|k: int| 0 <= k < i ==> #[trigger] s[k] == c
                &&& i < s.len() ==> s[i] != c
            },
{
    let class = CharClass::Only(c);
    lemma_drop_leading(s, class);
    let i = s.len() - drop_leading(s, class).len();
    assert(drop_leading(s, class) == s.skip(i));
    assert forall|k: int| 0 <= k < i implies #[trigger] s[k] == c by {
        assert(in_class(class, s[k]));
    }
}

/// Where a pattern is found it stands, and it stands nowhere before; where none is found it stands
/// nowhere.
pub proof fn law_search_finds_the_first(s: Seq<char>, p: Seq<char>)
    ensures
        match position(s, p) {
            Some(i) => {
                &&& 0 <= i <= s.len() - p.len()
                &&& s.subrange(i, i + p.len()) == p
                &&& forall|j: int| 0 <= j < i ==> #[trigger] s.subrange(j, j + p.len()) != p
            },
            None => forall|j: int|
                0 <= j <= s.len() - p.len() ==> #[trigger] s.subrange(j, j + p.len()) != p,
        },
{
    lemma_position_occurs(s, p);
}

/// A text holds a pattern exactly if it is the pattern with something before and after it.
pub proof fn law_occurrence(s: Seq<char>, p: Seq<char>, a: Seq<char>, b: Seq<char>)
    ensures
        occurs(a + p + b, p),
        occurs(s, p) ==> exists|x: Seq<char>, y: Seq<char>| s == #[trigger] (x + p + y),
{
    let whole = a + p + b;
    assert(whole.subrange(a.len() as int, a.len() as int + p.len()) =~= p);
    if occurs(s, p) {
        let i = choose|i: int|
            0 <= i <= s.len() - p.len() && #[trigger] s.subrange(i, i + p.len()) == p;
        assert(s =~= s.take(i) + p + s.skip(i + p.len()));
    }
}

/// Replacing goes from one occurrence to the next: what stands before the first is kept, and the rest
/// is replaced likewise. A text without the pattern is kept.
pub proof fn law_replacing(s: Seq<char>, p: Seq<char>, w: Seq<char>)
    requires
        p.len() > 0,
    ensures
        match position(s, p) {
            Some(i) => replaced(s, p, w) == s.take(i) + w + replaced(s.skip(i + p.len()), p, w),
            None => replaced(s, p, w) == s,
        },
    decreases s.len(),
{
    if s.len() > 0 && !p.is_prefix_of(s) {
        let t = s.drop_first();
        law_replacing(t, p, w);
        match position(t, p) {
            Some(i) => {
                lemma_position_occurs(t, p);
                assert(t.skip(i + p.len()) =~= s.skip(i + 1 + p.len()));
                assert(replaced(s, p, w) =~= s.take(i + 1) + w + replaced(
                    s.skip(i + 1 + p.len()),
                    p,
                    w,
                ));
            },
            None => {
                assert(replaced(s, p, w) =~= s);
            },
        }
    } else if s.len() > 0 {
        assert(s.take(0) + w =~= w);
        assert(s.skip(0 + p.len() as int) =~= s.skip(p.len() as int));
    }
}

/// Lists are put together end to end with the separator between them.
pub proof fn law_joining(a: Seq<Seq<char>>, b: Seq<Seq<char>>, separator: Seq<char>, one: Seq<char>)
    ensures
        joined(Seq::<Seq<char>>::empty(), separator) == Seq::<char>::empty(),
        joined(seq![one], separator) == one,
        a.len() > 0 && b.len() > 0 ==> joined(a + b, separator) == joined(a, separator) + separator
            + joined(b, separator),
    decreases a.len(),
{
    if a.len() == 1 && b.len() > 0 {
        assert(a =~= seq![a[0]]);
        lemma_joined_first(a[0], b, separator);
    } else if a.len() > 1 && b.len() > 0 {
        let rest = a.drop_first();
        law_joining(rest, b, separator, one);
        lemma_joined_first(a[0], rest, separator);
        lemma_joined_first(a[0], rest + b, separator);
        assert(seq![a[0]] + rest =~= a);
        assert(seq![a[0]] + (rest + b) =~= a + b);
        assert(a[0] + separator + (joined(rest, separator) + separator + joined(b, separator))
            =~= a[0] + separator + joined(rest, separator) + separator + joined(b, separator));
    }
}

proof fn lemma_length_of_line(line: Seq<char>, rest: Seq<char>)
    requires
        forall|i: int| 0 <= i < line.len() ==> #[trigger] line[i] != '\n',
        rest.len() > 0 ==> rest[0] == '\n',
    ensures
        line_length(line + rest) == line.len(),
{
    let s = line + rest;
    lemma_line_length(s);
    let n = line_length(s) as int;
    if n < line.len() {
        assert(s[n] == line[n]);
    }
    if n > line.len() {
        assert(s[line.len() as int] == rest[0]);
    }
}

/// A text up to a line feed is a line, less a carriage return before the line feed, and what follows
/// is read likewise. What has no line feed is one line, and nothing is no line.
pub proof fn law_reading_lines(line: Seq<char>, rest: Seq<char>)
    requires
        forall|i: int| 0 <= i < line.len() ==> #[trigger] line[i] != '\n',
    ensures
        text_lines(Seq::<char>::empty()) == Seq::<Seq<char>>::empty(),
        line.len() > 0 ==> text_lines(line) == seq![line],
        line.len() == 0 || line.last() != '\r' ==> text_lines(line + seq!['\n'] + rest) == seq![line]
            + text_lines(rest),
        text_lines(line + seq!['\r'] + seq!['\n'] + rest) == seq![line] + text_lines(rest),
{
    let none = Seq::<char>::empty();
    assert(line + none =~= line);
    lemma_length_of_line(line, none);
    let s = line + seq!['\n'] + rest;
    assert(s =~= line + (seq!['\n'] + rest));
    lemma_length_of_line(line, seq!['\n'] + rest);
    assert(s.take(line.len() as int) =~= line);
    assert(s.skip(line.len() as int + 1) =~= rest);
    let full = line + seq!['\r'];
    let t = full + seq!['\n'] + rest;
    assert(t =~= full + (seq!['\n'] + rest));
    assert forall|i: int| 0 <= i < full.len() implies #[trigger] full[i] != '\n' by {
        if i < line.len() {
            assert(full[i] == line[i]);
        }
    }
    lemma_length_of_line(full, seq!['\n'] + rest);
    assert(t.take(full.len() as int) =~= full);
    assert(t.skip(full.len() as int + 1) =~= rest);
    assert(full.drop_last() =~= line);
    assert(line.len() > 0 ==> text_lines(line) =~= seq![line]);
}

proof fn lemma_length_of_word(word: Seq<char>, rest: Seq<char>)
    requires
        none_white(word),
        rest.len() > 0 ==> is_white(rest[0]),
    ensures
        word_length(word + rest) == word.len(),
    decreases word.len(),
{
    if word.len() > 0 {
        let w = word.drop_first();
        assert(!is_white(word[0]));
        assert forall|i: int| 0 <= i < w.len() implies !is_white(#[trigger] w[i]) by {
            assert(w[i] == word[i + 1]);
        }
        lemma_length_of_word(w, rest);
        assert((word + rest).drop_first() =~= w + rest);
    } else {
        assert(word + rest =~= rest);
    }
}

/// Words are what stands between white space: a text up to white space is a word, white space before
/// a word does not count, and what follows is read likewise.
pub proof fn law_reading_words(word: Seq<char>, space: char, rest: Seq<char>)
    requires
        none_white(word),
        is_white(space),
    ensures
        text_words(Seq::<char>::empty()) == Seq::<Seq<char>>::empty(),
        text_words(seq![space] + rest) == text_words(rest),
        word.len() > 0 ==> text_words(word) == seq![word],
        word.len() > 0 ==> text_words(word + seq![space] + rest) == seq![word] + text_words(rest),
{
    let none = Seq::<char>::empty();
    assert(drop_leading(none, CharClass::White) == none);
    let s = seq![space] + rest;
    assert(s.drop_first() =~= rest);
    assert(s.first() == space);
    assert(drop_leading(s, CharClass::White) == drop_leading(rest, CharClass::White));
    if word.len() > 0 {
        assert(!is_white(word[0]));
        assert(drop_leading(word, CharClass::White) == word);
        assert(word + none =~= word);
        lemma_length_of_word(word, none);
        assert(word.take(word.len() as int) =~= word);
        assert(word.skip(word.len() as int) =~= none);
        assert(text_words(none) == Seq::<Seq<char>>::empty());
        assert(text_words(word) =~= seq![word]);
        let t = word + seq![space] + rest;
        assert(t =~= word + (seq![space] + rest));
        assert(t.first() == word[0]);
        assert(drop_leading(t, CharClass::White) == t);
        lemma_length_of_word(word, seq![space] + rest);
        assert(t.take(word.len() as int) =~= word);
        assert(t.skip(word.len() as int) =~= s);
        assert(text_words(s) =~= text_words(rest));
    }
}

/// A number in decimal ends with its last digit, after what the number without it is in decimal; a
/// number below ten is its digit.
pub proof fn law_decimal_digits(n: nat, d: nat)
    requires
        d < 10,
    ensures
        decimal(d).len() == 1 && decimal(d)[0] as u32 == 48 + d,
        n > 0 ==> decimal((n * 10 + d) as nat) == decimal(n) + decimal(d),
{
    if n > 0 {
        let m = (n * 10 + d) as nat;
        assert(m / 10 == n && m % 10 == d && m >= 10) by (nonlinear_arith)
            requires
                n > 0,
                d < 10,
                m == n * 10 + d,
        ;
        assert(decimal(m) =~= decimal(n) + decimal(d));
    }
}

/// A number that is written in decimal is read as that number, with or without a plus sign before it;
/// only digits after an optional plus sign are read as a number at all.
pub proof fn law_numbers_are_read_back(n: u32, s: Seq<char>)
    ensures
        parsed_u32(decimal(n as nat)) == Some(n),
        parsed_u32(seq!['+'] + decimal(n as nat)) == Some(n),
        parsed_u32(s) is Some ==> s.len() > 0 && forall|i: int|
            0 <= i < s.len() ==> '0' <= #[trigger] s[i] <= '9' || (i == 0 && s[i] == '+'),
{
    let d = decimal(n as nat);
    lemma_decimal_value(n as nat);
    assert(is_digit(d[0]));
    assert(unsigned_part(d) == d);
    let p = seq!['+'] + d;
    assert(p.drop_first() =~= d);
    assert(unsigned_part(p) == d);
    if parsed_u32(s) is Some {
        let u = unsigned_part(s);
        assert forall|i: int| 0 <= i < s.len() implies '0' <= #[trigger] s[i] <= '9' || (i == 0
            && s[i] == '+') by {
            if s[0] == '+' {
                if i > 0 {
                    assert(u[i - 1] == s[i]);
                    assert(is_digit(u[i - 1]));
                }
            } else {
                assert(is_digit(u[i]));
            }
        }
    }
}

/// The views of a list are the views of its entries, in their places.
pub proof fn law_views_are_entrywise(list: Seq<String>, s: Option<String>)
    ensures
        views(list).len() == list.len(),
        forall|i: int| 0 <= i < list.len() ==> #[trigger] views(list)[i] == list[i]@,
        s matches Some(t) ==> opt_view(s) == Some(t@),
        s is None ==> opt_view(s) is None,
{
}

} // verus!
