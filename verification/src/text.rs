//! Text as sequences of characters: trimming, lines, words, search and decimal numbers.
use vstd::prelude::*;

verus! {

/// `String::push` appends one character at the end.
pub assume_specification[ String::push ](s: &mut String, c: char)
    ensures
        final(s)@ == old(s)@.push(c),
;

/// A class of characters that trimming removes.
pub enum CharClass {
    /// Unicode white space.
    White,
    /// One given character.
    Only(char),
}

/// The characters with the Unicode property `White_Space`.
pub open spec fn is_white(c: char) -> bool {
    ||| 0x09 <= c as u32 <= 0x0D
    ||| c as u32 == 0x20
    ||| c as u32 == 0x85
    ||| c as u32 == 0xA0
    ||| c as u32 == 0x1680
    ||| 0x2000 <= c as u32 <= 0x200A
    ||| c as u32 == 0x2028
    ||| c as u32 == 0x2029
    ||| c as u32 == 0x202F
    ||| c as u32 == 0x205F
    ||| c as u32 == 0x3000
}

/// The characters of the Unicode general category `Cc`.
pub open spec fn is_control_char(c: char) -> bool {
    ||| c as u32 <= 0x1F
    ||| 0x7F <= c as u32 <= 0x9F
}

pub open spec fn in_class(class: CharClass, c: char) -> bool {
    match class {
        CharClass::White => is_white(c),
        CharClass::Only(d) => c == d,
    }
}

/// `s` without the longest prefix whose characters all lie in `class`.
pub open spec fn drop_leading(s: Seq<char>, class: CharClass) -> Seq<char>
    decreases s.len(),
{
    if s.len() > 0 && in_class(class, s.first()) {
        drop_leading(s.drop_first(), class)
    } else {
        s
    }
}

/// `s` without the longest suffix whose characters all lie in `class`.
pub open spec fn drop_trailing(s: Seq<char>, class: CharClass) -> Seq<char>
    decreases s.len(),
{
    if s.len() > 0 && in_class(class, s.last()) {
        drop_trailing(s.drop_last(), class)
    } else {
        s
    }
}

/// `s` without white space at either end.
pub open spec fn trimmed(s: Seq<char>) -> Seq<char> {
    drop_trailing(drop_leading(s, CharClass::White), CharClass::White)
}

/// `s` consists of white space alone.
pub open spec fn is_blank(s: Seq<char>) -> bool {
    trimmed(s).len() == 0
}

/// The position of the first occurrence of `pattern` in `s`.
pub open spec fn position(s: Seq<char>, pattern: Seq<char>) -> Option<int>
    decreases s.len(),
{
    if pattern.is_prefix_of(s) {
        Some(0)
    } else if s.len() == 0 {
        None
    } else {
        match position(s.drop_first(), pattern) {
            Some(i) => Some(i + 1),
            None => None,
        }
    }
}

/// `pattern` occurs in `s`.
pub open spec fn occurs(s: Seq<char>, pattern: Seq<char>) -> bool {
    exists|i: int|
        0 <= i <= s.len() - pattern.len() && #[trigger] s.subrange(i, i + pattern.len()) == pattern
}

/// `s` with every occurrence of `pattern`, taken from the left without overlap, replaced.
pub open spec fn replaced(s: Seq<char>, pattern: Seq<char>, with: Seq<char>) -> Seq<char>
    decreases s.len(),
{
    if s.len() == 0 || pattern.len() == 0 {
        s
    } else if pattern.is_prefix_of(s) {
        with + replaced(s.skip(pattern.len() as int), pattern, with)
    } else {
        seq![s.first()] + replaced(s.drop_first(), pattern, with)
    }
}

/// The number of characters before the first line feed.
pub open spec fn line_length(s: Seq<char>) -> nat
    decreases s.len(),
{
    if s.len() == 0 || s.first() == '\n' {
        0
    } else {
        1 + line_length(s.drop_first())
    }
}

/// A line that a line feed ended, without a carriage return before that line feed.
pub open spec fn without_return(line: Seq<char>) -> Seq<char> {
    if line.len() > 0 && line.last() == '\r' {
        line.drop_last()
    } else {
        line
    }
}

/// The lines of `s`. A line ends at `\n` or `\r\n`; the text after the last line feed is a line
/// unless it is empty.
pub open spec fn text_lines(s: Seq<char>) -> Seq<Seq<char>>
    decreases s.len(),
    via text_lines_shrink
{
    let n = line_length(s) as int;
    if s.len() == 0 {
        seq![]
    } else if n < s.len() {
        seq![without_return(s.take(n))] + text_lines(s.skip(n + 1))
    } else {
        seq![s]
    }
}

#[via_fn]
proof fn text_lines_shrink(s: Seq<char>) {
    lemma_line_length(s);
}

/// The number of characters before the first white space.
pub open spec fn word_length(s: Seq<char>) -> nat
    decreases s.len(),
{
    if s.len() == 0 || is_white(s.first()) {
        0
    } else {
        1 + word_length(s.drop_first())
    }
}

/// The maximal runs of characters other than white space, in order.
pub open spec fn text_words(s: Seq<char>) -> Seq<Seq<char>>
    decreases s.len(),
    via text_words_shrink
{
    let t = drop_leading(s, CharClass::White);
    let n = word_length(t) as int;
    if t.len() == 0 {
        seq![]
    } else {
        seq![t.take(n)] + text_words(t.skip(n))
    }
}

#[via_fn]
proof fn text_words_shrink(s: Seq<char>) {
    let t = drop_leading(s, CharClass::White);
    lemma_drop_leading(s, CharClass::White);
    lemma_word_length(t);
}

/// The texts of `list` in order with `separator` between neighbours.
pub open spec fn joined(list: Seq<Seq<char>>, separator: Seq<char>) -> Seq<char>
    decreases list.len(),
{
    if list.len() == 0 {
        seq![]
    } else if list.len() == 1 {
        list[0]
    } else {
        joined(list.drop_last(), separator) + separator + list.last()
    }
}

pub open spec fn digit_char(d: nat) -> char {
    (48 + d) as char
}

/// `n` in decimal, without leading zeros.
pub open spec fn decimal(n: nat) -> Seq<char>
    decreases n,
{
    if n < 10 {
        seq![digit_char(n)]
    } else {
        decimal(n / 10).push(digit_char(n % 10))
    }
}

pub open spec fn is_digit(c: char) -> bool {
    '0' <= c <= '9'
}

/// The number that a sequence of decimal digits denotes.
pub open spec fn digits_value(s: Seq<char>) -> nat
    decreases s.len(),
{
    if s.len() == 0 {
        0
    } else {
        digits_value(s.drop_last()) * 10 + (s.last() as nat - 48) as nat
    }
}

/// `s` without a plus sign at its start.
pub open spec fn unsigned_part(s: Seq<char>) -> Seq<char> {
    if s.len() > 0 && s[0] == '+' {
        s.drop_first()
    } else {
        s
    }
}

/// The number that `s` denotes in decimal, with an optional plus sign, if it fits in 32 bits.
pub open spec fn parsed_u32(s: Seq<char>) -> Option<u32> {
    let d = unsigned_part(s);
    if d.len() > 0 && (forall|i: int| 0 <= i < d.len() ==> is_digit(#[trigger] d[i]))
        && digits_value(d) <= u32::MAX {
        Some(digits_value(d) as u32)
    } else {
        None
    }
}

/// The view of an optional text.
pub open spec fn opt_str_view(s: Option<&str>) -> Option<Seq<char>> {
    match s {
        Some(t) => Some(t@),
        None => None,
    }
}

/// The views of a list of strings.
pub open spec fn views(list: Seq<String>) -> Seq<Seq<char>> {
    list.map_values(|s: String| s@)
}

/// The view of an optional string.
pub open spec fn opt_view(s: Option<String>) -> Option<Seq<char>> {
    match s {
        Some(t) => Some(t@),
        None => None,
    }
}

pub proof fn lemma_line_length(s: Seq<char>)
    ensures
        line_length(s) <= s.len(),
        forall|i: int| 0 <= i < line_length(s) ==> s[i] != '\n',
        line_length(s) < s.len() ==> s[line_length(s) as int] == '\n',
    decreases s.len(),
{
    if s.len() > 0 && s.first() != '\n' {
        let t = s.drop_first();
        lemma_line_length(t);
        assert forall|i: int| 0 <= i < line_length(s) implies s[i] != '\n' by {
            if i > 0 {
                assert(t[i - 1] == s[i]);
            }
        }
    }
}

pub proof fn lemma_word_length(s: Seq<char>)
    ensures
        word_length(s) <= s.len(),
        s.len() > 0 && !is_white(s.first()) ==> word_length(s) > 0,
    decreases s.len(),
{
    if s.len() > 0 && !is_white(s.first()) {
        lemma_word_length(s.drop_first());
    }
}

/// Dropping leading characters leaves a suffix that does not begin with one of them.
pub proof fn lemma_drop_leading(s: Seq<char>, class: CharClass)
    ensures
        drop_leading(s, class).len() <= s.len(),
        drop_leading(s, class) == s.skip(s.len() - drop_leading(s, class).len()),
        drop_leading(s, class).len() > 0 ==> !in_class(class, drop_leading(s, class).first()),
        forall|i: int|
            0 <= i < s.len() - drop_leading(s, class).len() ==> in_class(class, #[trigger] s[i]),
    decreases s.len(),
{
    if s.len() > 0 && in_class(class, s.first()) {
        let t = s.drop_first();
        lemma_drop_leading(t, class);
        let r = drop_leading(t, class);
        assert(r == s.skip(s.len() - r.len())) by {
            assert(t.skip(t.len() - r.len()) =~= s.skip(s.len() - r.len()));
        }
        assert forall|i: int| 0 <= i < s.len() - r.len() implies in_class(
            class,
            #[trigger] s[i],
        ) by {
            if i > 0 {
                assert(t[i - 1] == s[i]);
            }
        }
    } else {
        assert(s =~= s.skip(0));
    }
}

/// Dropping trailing characters leaves a prefix that does not end with one of them.
pub proof fn lemma_drop_trailing(s: Seq<char>, class: CharClass)
    ensures
        drop_trailing(s, class).len() <= s.len(),
        drop_trailing(s, class) == s.take(drop_trailing(s, class).len() as int),
        drop_trailing(s, class).len() > 0 ==> !in_class(class, drop_trailing(s, class).last()),
        forall|i: int|
            drop_trailing(s, class).len() <= i < s.len() ==> in_class(class, #[trigger] s[i]),
    decreases s.len(),
{
    if s.len() > 0 && in_class(class, s.last()) {
        let t = s.drop_last();
        lemma_drop_trailing(t, class);
        let r = drop_trailing(t, class);
        assert(t.take(r.len() as int) =~= s.take(r.len() as int));
        assert forall|i: int| r.len() <= i < s.len() implies in_class(class, #[trigger] s[i]) by {
            if i < t.len() {
                assert(t[i] == s[i]);
            }
        }
    } else {
        assert(s =~= s.take(s.len() as int));
    }
}

/// The characters of `s`.
pub fn chars_of(s: &str) -> (v: Vec<char>)
    ensures
        v@ == s@,
{
    let mut v: Vec<char> = Vec::new();
    for c in it: s.chars()
        invariant
            it.seq() == s@,
            v@ == s@.take(it.index()),
    {
        v.push(c);
        assert(s@.take(it.index() + 1) =~= s@.take(it.index()).push(c));
    }
    assert(s@.take(s@.len() as int) =~= s@);
    v
}

/// The text of the characters of `v` from position `from` up to `to`.
pub fn text_between(v: &Vec<char>, from: usize, to: usize) -> (s: String)
    requires
        from <= to <= v@.len(),
    ensures
        s@ == v@.subrange(from as int, to as int),
{
    let mut s = String::new();
    let mut i: usize = from;
    while i < to
        invariant
            from <= i <= to <= v@.len(),
            s@ == v@.subrange(from as int, i as int),
        decreases to - i,
    {
        s.push(v[i]);
        assert(v@.subrange(from as int, i as int + 1) =~= v@.subrange(from as int, i as int).push(
            v@[i as int],
        ));
        i += 1;
    }
    s
}

/// Whether two texts are equal.
pub fn same_text(a: &str, b: &str) -> (r: bool)
    ensures
        r == (a@ == b@),
{
    a.to_owned() == b.to_owned()
}

/// Whether `c` is Unicode white space.
pub fn is_white_char(c: char) -> (r: bool)
    ensures
        r == is_white(c),
{
    let n: u32 = c as u32;
    (0x09 <= n && n <= 0x0D) || n == 0x20 || n == 0x85 || n == 0xA0 || n == 0x1680 || (0x2000 <= n
        && n <= 0x200A) || n == 0x2028 || n == 0x2029 || n == 0x202F || n == 0x205F || n == 0x3000
}

/// Whether `c` is a control character.
pub fn is_control(c: char) -> (r: bool)
    ensures
        r == is_control_char(c),
{
    let n: u32 = c as u32;
    n <= 0x1F || (0x7F <= n && n <= 0x9F)
}

fn class_has(class: &CharClass, c: char) -> (r: bool)
    ensures
        r == in_class(*class, c),
{
    match class {
        CharClass::White => is_white_char(c),
        CharClass::Only(d) => c == *d,
    }
}

/// The first position at or after `from` whose character is not in `class`.
pub fn skip_class(v: &Vec<char>, from: usize, class: &CharClass) -> (i: usize)
    requires
        from <= v@.len(),
    ensures
        from <= i <= v@.len(),
        drop_leading(v@.skip(from as int), *class) == v@.skip(i as int),
{
    let mut i: usize = from;
    while i < v.len() && class_has(class, v[i])
        invariant
            from <= i <= v@.len(),
            drop_leading(v@.skip(from as int), *class) == drop_leading(v@.skip(i as int), *class),
        decreases v@.len() - i,
    {
        assert(v@.skip(i as int).drop_first() =~= v@.skip(i as int + 1));
        i += 1;
    }
    i
}

/// The end of `v[from..]` once its trailing characters in `class` are dropped.
fn trailing_end(v: &Vec<char>, from: usize, class: &CharClass) -> (j: usize)
    requires
        from <= v@.len(),
    ensures
        from <= j <= v@.len(),
        drop_trailing(v@.skip(from as int), *class) == v@.subrange(from as int, j as int),
{
    let mut j: usize = v.len();
    assert(v@.skip(from as int) =~= v@.subrange(from as int, j as int));
    while from < j && class_has(class, v[j - 1])
        invariant
            from <= j <= v@.len(),
            drop_trailing(v@.skip(from as int), *class) == drop_trailing(
                v@.subrange(from as int, j as int),
                *class,
            ),
        decreases j,
    {
        assert(v@.subrange(from as int, j as int).drop_last() =~= v@.subrange(
            from as int,
            j as int - 1,
        ));
        j -= 1;
    }
    j
}

/// `s` without its leading characters in `class`.
pub fn strip_leading(s: &str, class: &CharClass) -> (r: String)
    ensures
        r@ == drop_leading(s@, *class),
{
    let v = chars_of(s);
    assert(v@.skip(0) =~= v@);
    let i: usize = skip_class(&v, 0, class);
    assert(v@.skip(i as int) =~= v@.subrange(i as int, v@.len() as int));
    text_between(&v, i, v.len())
}

/// `s` without its trailing characters in `class`.
pub fn strip_trailing(s: &str, class: &CharClass) -> (r: String)
    ensures
        r@ == drop_trailing(s@, *class),
{
    let v = chars_of(s);
    assert(v@.skip(0) =~= v@);
    let j: usize = trailing_end(&v, 0, class);
    text_between(&v, 0, j)
}

/// `s` without leading white space.
pub fn trim_start(s: &str) -> (r: String)
    ensures
        r@ == drop_leading(s@, CharClass::White),
{
    strip_leading(s, &CharClass::White)
}

/// `s` without white space at either end.
pub fn trim(s: &str) -> (r: String)
    ensures
        r@ == trimmed(s@),
{
    let v = chars_of(s);
    assert(v@.skip(0) =~= v@);
    let i: usize = skip_class(&v, 0, &CharClass::White);
    let j: usize = trailing_end(&v, i, &CharClass::White);
    text_between(&v, i, j)
}

/// The lines of the text are parted by line feeds alone: it ends with none, and none of them follows
/// a carriage return.
pub open spec fn plain_breaks(s: Seq<char>) -> bool {
    &&& s.len() > 0 ==> s.last() != '\n'
    &&& forall|i: int| 0 <= i < s.len() - 1 && #[trigger] s[i] == '\r' ==> s[i + 1] != '\n'
}

proof fn lemma_plain_breaks_after(s: Seq<char>, n: int)
    requires
        plain_breaks(s),
        0 <= n <= s.len(),
    ensures
        plain_breaks(s.skip(n)),
{
    let t = s.skip(n);
    if t.len() > 0 {
        assert(t.last() == s.last());
    }
    assert forall|i: int| 0 <= i < t.len() - 1 && #[trigger] t[i] == '\r' implies t[i + 1]
        != '\n' by {
        assert(t[i] == s[i + n]);
        assert(t[i + 1] == s[i + n + 1]);
    }
}

pub proof fn lemma_joined_first(first: Seq<char>, rest: Seq<Seq<char>>, separator: Seq<char>)
    requires
        rest.len() > 0,
    ensures
        joined(seq![first] + rest, separator) == first + separator + joined(rest, separator),
    decreases rest.len(),
{
    let all = seq![first] + rest;
    if rest.len() == 1 {
        assert(all.drop_last() =~= seq![first]);
        assert(joined(seq![first], separator) == first);
    } else {
        lemma_joined_first(first, rest.drop_last(), separator);
        assert(all.drop_last() =~= seq![first] + rest.drop_last());
        assert(joined(all, separator) =~= first + separator + joined(rest, separator));
    }
}

/// A text whose lines are parted by line feeds alone is its lines put together again.
pub proof fn law_lines_join_back(s: Seq<char>)
    requires
        plain_breaks(s),
    ensures
        joined(text_lines(s), "\n"@) == s,
    decreases s.len(),
{
    lemma_line_length(s);
    reveal_strlit("\n");
    let n = line_length(s) as int;
    if s.len() > 0 && n < s.len() {
        let rest = s.skip(n + 1);
        lemma_plain_breaks_after(s, n + 1);
        law_lines_join_back(rest);
        assert(s[n] == '\n');
        assert(rest.len() > 0);
        assert(text_lines(rest).len() > 0);
        if n > 0 {
            assert(s.take(n).last() == s[n - 1]);
            assert(s[n - 1] == '\r' ==> s[n - 1 + 1] != '\n');
        }
        assert(without_return(s.take(n)) == s.take(n));
        lemma_joined_first(s.take(n), text_lines(rest), "\n"@);
        assert(s.take(n) + "\n"@ + rest =~= s);
    }
}

/// Lines that are parted by line feeds alone once they are put together: the last is not empty, and
/// none but the last ends with a carriage return.
pub open spec fn joins_plainly(list: Seq<Seq<char>>) -> bool {
    &&& list.len() > 0 ==> list.last().len() > 0
    &&& forall|i: int|
        0 <= i < list.len() - 1 ==> (#[trigger] list[i]).len() == 0 || list[i].last() != '\r'
}

/// The lines of a text that are parted by line feeds alone.
pub proof fn lemma_lines_join_plainly(s: Seq<char>)
    requires
        plain_breaks(s),
    ensures
        joins_plainly(text_lines(s)),
        s.len() > 0 ==> text_lines(s).len() > 0,
    decreases s.len(),
{
    lemma_line_length(s);
    let n = line_length(s) as int;
    if s.len() > 0 && n < s.len() {
        let rest = s.skip(n + 1);
        let all = text_lines(s);
        lemma_plain_breaks_after(s, n + 1);
        lemma_lines_join_plainly(rest);
        assert(s[n] == '\n');
        assert(rest.len() > 0);
        if n > 0 {
            assert(s.take(n).last() == s[n - 1]);
            assert(s[n - 1] == '\r' ==> s[n - 1 + 1] != '\n');
        }
        assert(all.last() == text_lines(rest).last());
        assert forall|i: int| 0 <= i < all.len() - 1 implies (#[trigger] all[i]).len() == 0
            || all[i].last() != '\r' by {
            if i > 0 {
                assert(all[i] == text_lines(rest)[i - 1]);
            }
        }
    }
}

/// Lines that join plainly make a text whose lines are parted by line feeds alone.
pub proof fn lemma_joined_breaks_are_plain(list: Seq<Seq<char>>)
    requires
        joins_plainly(list),
        forall|i: int| 0 <= i < list.len() ==> !(#[trigger] list[i]).contains('\n'),
    ensures
        plain_breaks(joined(list, "\n"@)),
    decreases list.len(),
{
    let s = joined(list, "\n"@);
    reveal_strlit("\n");
    if list.len() == 1 {
        assert(!list[0].contains('\n'));
        assert forall|i: int| 0 <= i < s.len() implies #[trigger] s[i] != '\n' by {
            assert(list[0].contains(s[i]));
        }
    } else if list.len() > 1 {
        let line = list[0];
        let rest = list.drop_first();
        let n = line.len() as int;
        assert(list =~= seq![line] + rest);
        lemma_joined_first(line, rest, "\n"@);
        let tail = joined(rest, "\n"@);
        assert forall|i: int| 0 <= i < rest.len() implies !(#[trigger] rest[i]).contains('\n') by {
            assert(rest[i] == list[i + 1]);
        }
        assert forall|i: int| 0 <= i < rest.len() - 1 implies (#[trigger] rest[i]).len() == 0
            || rest[i].last() != '\r' by {
            assert(rest[i] == list[i + 1]);
        }
        assert(rest.last() == list.last());
        lemma_joined_breaks_are_plain(rest);
        assert(tail.len() > 0);
        assert(s =~= line + "\n"@ + tail);
        assert(s.last() == tail.last());
        assert(!list[0].contains('\n'));
        assert forall|i: int| 0 <= i < s.len() - 1 && #[trigger] s[i] == '\r' implies s[i + 1]
            != '\n' by {
            if i < n - 1 {
                assert(s[i + 1] == line[i + 1]);
                assert(line.contains(line[i + 1]));
            } else if i == n - 1 {
                assert(s[i] == line.last());
            } else if i > n {
                assert(s[i] == tail[i - n - 1]);
                assert(s[i + 1] == tail[i - n - 1 + 1]);
            }
        }
    }
}

proof fn lemma_line_length_of(line: Seq<char>, rest: Seq<char>)
    requires
        !line.contains('\n'),
        rest.len() > 0 ==> rest.first() == '\n',
    ensures
        line_length(line + rest) == line.len(),
    decreases line.len(),
{
    if line.len() > 0 {
        let tail = line.drop_first();
        assert(line.contains(line[0]));
        assert forall|c: char| tail.contains(c) implies line.contains(c) by {
            let i = tail.index_of(c);
            assert(line[i + 1] == c);
        }
        lemma_line_length_of(tail, rest);
        assert((line + rest).drop_first() =~= tail + rest);
    } else {
        assert(line + rest =~= rest);
    }
}

/// Lines put together are read as the same lines, if no line feed stands in them and they are
/// parted by line feeds alone.
pub proof fn law_joined_lines_are_read_back(list: Seq<Seq<char>>)
    requires
        forall|i: int| 0 <= i < list.len() ==> !(#[trigger] list[i]).contains('\n'),
        plain_breaks(joined(list, "\n"@)),
        list.len() > 0 ==> joined(list, "\n"@).len() > 0,
    ensures
        text_lines(joined(list, "\n"@)) == list,
    decreases list.len(),
{
    let s = joined(list, "\n"@);
    reveal_strlit("\n");
    if list.len() == 1 {
        assert(!list[0].contains('\n'));
        assert(list[0] + Seq::<char>::empty() =~= list[0]);
        lemma_line_length_of(list[0], Seq::empty());
        assert(text_lines(s) =~= list);
    } else if list.len() > 1 {
        let line = list[0];
        let rest = list.drop_first();
        let n = line.len() as int;
        assert(list =~= seq![line] + rest);
        lemma_joined_first(line, rest, "\n"@);
        let tail = joined(rest, "\n"@);
        assert(s =~= line + ("\n"@ + tail));
        lemma_line_length_of(line, "\n"@ + tail);
        assert(s.take(n) =~= line);
        assert(s.skip(n + 1) =~= tail);
        assert(s[n] == '\n');
        if tail.len() == 0 {
            assert(s.last() == s[n]);
        }
        if n > 0 {
            assert(line.last() == s[n - 1]);
            assert(s[n - 1] == '\r' ==> s[n - 1 + 1] != '\n');
        }
        lemma_plain_breaks_after(s, n + 1);
        assert forall|i: int| 0 <= i < rest.len() implies !(#[trigger] rest[i]).contains('\n') by {
            assert(rest[i] == list[i + 1]);
        }
        law_joined_lines_are_read_back(rest);
        assert(text_lines(s) =~= list);
    }
}

/// No line feed stands in a line.
pub proof fn law_lines_hold_no_line_feed(s: Seq<char>)
    ensures
        forall|i: int| 0 <= i < text_lines(s).len() ==> !(#[trigger] text_lines(s)[i]).contains('\n'),
    decreases s.len(),
{
    lemma_line_length(s);
    let n = line_length(s) as int;
    let all = text_lines(s);
    if s.len() > 0 {
        assert forall|c: char| without_return(s.take(n)).contains(c) implies c != '\n' by {
            let line = without_return(s.take(n));
            let i = line.index_of(c);
            assert(line[i] == s[i]);
        }
        if n < s.len() {
            let rest = s.skip(n + 1);
            law_lines_hold_no_line_feed(rest);
            assert forall|i: int| 0 <= i < all.len() implies !(#[trigger] all[i]).contains('\n') by {
                if i > 0 {
                    assert(all[i] == text_lines(rest)[i - 1]);
                }
            }
        } else {
            assert forall|c: char| s.contains(c) implies c != '\n' by {
                let i = s.index_of(c);
                assert(s[i] == c);
            }
        }
    }
}

/// The text stays on one line.
pub open spec fn one_line(s: Seq<char>) -> bool {
    forall|i: int| 0 <= i < s.len() ==> #[trigger] s[i] != '\r' && s[i] != '\n'
}

/// Whether `pattern` stands in `v` at position `at`.
pub fn stands_at(v: &Vec<char>, at: usize, pattern: &Vec<char>) -> (r: bool)
    requires
        at <= v@.len(),
    ensures
        r == pattern@.is_prefix_of(v@.skip(at as int)),
{
    let n: usize = v.len();
    if pattern.len() > n - at {
        return false;
    }
    let mut k: usize = 0;
    while k < pattern.len()
        invariant
            n == v@.len(),
            k <= pattern@.len() <= n - at,
            forall|m: int| 0 <= m < k ==> pattern@[m] == v@[at + m],
        decreases pattern@.len() - k,
    {
        if pattern[k] != v[at + k] {
            assert(v@.skip(at as int).subrange(0, pattern@.len() as int)[k as int] != pattern@[k as int]);
            return false;
        }
        k += 1;
    }
    assert(pattern@ =~= v@.skip(at as int).subrange(0, pattern@.len() as int));
    true
}

/// Whether `s` begins with `prefix`.
pub fn starts_with(s: &str, prefix: &str) -> (r: bool)
    ensures
        r == prefix@.is_prefix_of(s@),
{
    let v = chars_of(s);
    let p = chars_of(prefix);
    assert(v@.skip(0) =~= v@);
    stands_at(&v, 0, &p)
}

/// Whether `s` ends with `suffix`.
pub fn ends_with(s: &str, suffix: &str) -> (r: bool)
    ensures
        r == suffix@.is_suffix_of(s@),
{
    let v = chars_of(s);
    let p = chars_of(suffix);
    if p.len() > v.len() {
        return false;
    }
    let at: usize = v.len() - p.len();
    assert(v@.skip(at as int) =~= v@.subrange(at as int, v@.len() as int));
    assert(v@.skip(at as int).subrange(0, p@.len() as int) =~= v@.skip(at as int));
    stands_at(&v, at, &p)
}

fn find_chars(v: &Vec<char>, pattern: &Vec<char>) -> (r: Option<usize>)
    ensures
        match r {
            Some(i) => position(v@, pattern@) == Some(i as int) && i + pattern@.len() <= v@.len(),
            None => position(v@, pattern@) is None,
        },
{
    let mut i: usize = 0;
    assert(v@.skip(0) =~= v@);
    loop
        invariant
            i <= v@.len(),
            position(v@, pattern@) == (match position(v@.skip(i as int), pattern@) {
                Some(k) => Some(k + i),
                None => None,
            }),
        decreases v@.len() - i,
    {
        if stands_at(v, i, pattern) {
            return Some(i);
        }
        if i == v.len() {
            return None;
        }
        assert(v@.skip(i as int).drop_first() =~= v@.skip(i as int + 1));
        i += 1;
    }
}

/// The position, counted in characters, of the first occurrence of `pattern` in `s`.
pub fn find_text(s: &str, pattern: &str) -> (r: Option<usize>)
    ensures
        match r {
            Some(i) => {
                &&& position(s@, pattern@) == Some(i as int)
                &&& i + pattern@.len() <= s@.len()
                &&& i + pattern@.len() <= usize::MAX
            },
            None => position(s@, pattern@) is None,
        },
{
    let v = chars_of(s);
    let p = chars_of(pattern);
    assert(v.len() <= usize::MAX);
    find_chars(&v, &p)
}

/// The characters of `s` from position `from` on.
pub fn text_from(s: &str, from: usize) -> (r: String)
    requires
        from <= s@.len(),
    ensures
        r@ == s@.skip(from as int),
{
    let v = chars_of(s);
    assert(v@.skip(from as int) =~= v@.subrange(from as int, v@.len() as int));
    text_between(&v, from, v.len())
}

/// `position` finds a pattern exactly where it occurs.
pub proof fn lemma_position_occurs(s: Seq<char>, pattern: Seq<char>)
    ensures
        position(s, pattern) is Some <==> occurs(s, pattern),
        position(s, pattern) matches Some(i) ==> 0 <= i <= s.len() - pattern.len() && s.subrange(
            i,
            i + pattern.len(),
        ) == pattern,
        position(s, pattern) matches Some(i) ==> forall|j: int|
            0 <= j < i ==> #[trigger] s.subrange(j, j + pattern.len()) != pattern,
    decreases s.len(),
{
    if pattern.is_prefix_of(s) {
        assert(s.subrange(0, 0int + pattern.len()) == pattern);
    } else if s.len() > 0 {
        let t = s.drop_first();
        lemma_position_occurs(t, pattern);
        assert forall|j: int| 0 <= j <= t.len() - pattern.len() implies #[trigger] t.subrange(
            j,
            j + pattern.len(),
        ) == s.subrange(j + 1, j + 1 + pattern.len()) by {
            assert(t.subrange(j, j + pattern.len()) =~= s.subrange(j + 1, j + 1 + pattern.len()));
        }
        if let Some(i) = position(t, pattern) {
            assert(t.subrange(i, i + pattern.len()) == pattern);
            assert(s.subrange(i + 1, i + 1 + pattern.len()) == pattern);
            assert forall|j: int| 0 <= j < i + 1 implies #[trigger] s.subrange(
                j,
                j + pattern.len(),
            ) != pattern by {
                if j > 0 {
                    assert(t.subrange(j - 1, j - 1 + pattern.len()) != pattern);
                }
            }
        } else if occurs(s, pattern) {
            let j = choose|j: int|
                0 <= j <= s.len() - pattern.len() && #[trigger] s.subrange(j, j + pattern.len())
                    == pattern;
            if j > 0 {
                assert(t.subrange(j - 1, j - 1 + pattern.len()) == pattern);
            }
        }
    } else {
        if occurs(s, pattern) {
            let j = choose|j: int|
                0 <= j <= s.len() - pattern.len() && #[trigger] s.subrange(j, j + pattern.len())
                    == pattern;
            assert(pattern =~= s);
            assert(s.subrange(0, 0) =~= s);
        }
    }
}

/// Whether `pattern` occurs in `s`.
pub fn contains_text(s: &str, pattern: &str) -> (r: bool)
    ensures
        r == occurs(s@, pattern@),
{
    proof {
        lemma_position_occurs(s@, pattern@);
    }
    find_text(s, pattern).is_some()
}

/// `s` with every occurrence of `pattern` replaced by `with`, from the left.
pub fn replace_text(s: &str, pattern: &str, with: &str) -> (r: String)
    requires
        pattern@.len() > 0,
    ensures
        r@ == replaced(s@, pattern@, with@),
{
    let v = chars_of(s);
    let p = chars_of(pattern);
    let mut out = String::new();
    let mut i: usize = 0;
    assert(v@.skip(0) =~= v@);
    assert(out@ + replaced(v@, p@, with@) =~= replaced(v@, p@, with@));
    while i < v.len()
        invariant
            p@.len() > 0,
            i <= v@.len(),
            replaced(v@, p@, with@) == out@ + replaced(v@.skip(i as int), p@, with@),
        decreases v@.len() - i,
    {
        let ghost rest = v@.skip(i as int);
        if stands_at(&v, i, &p) {
            proof {
                assert(rest.skip(p@.len() as int) =~= v@.skip(i + p@.len()));
                assert((out@ + with@) + replaced(v@.skip(i + p@.len()), p@, with@) =~= out@ + (with@
                    + replaced(v@.skip(i + p@.len()), p@, with@)));
            }
            out.append(with);
            i += p.len();
        } else {
            proof {
                assert(rest.drop_first() =~= v@.skip(i + 1));
                assert(out@.push(v@[i as int]) + replaced(v@.skip(i + 1), p@, with@) =~= out@ + (
                seq![rest.first()] + replaced(v@.skip(i + 1), p@, with@)));
            }
            out.push(v[i]);
            i += 1;
        }
    }
    assert(v@.skip(i as int).len() == 0);
    assert(out@ + v@.skip(i as int) =~= out@);
    out
}

/// The lines of `s`.
pub fn lines(s: &str) -> (r: Vec<String>)
    ensures
        views(r@) == text_lines(s@),
{
    let v = chars_of(s);
    let mut out: Vec<String> = Vec::new();
    let mut i: usize = 0;
    assert(v@.skip(0) =~= v@);
    assert(views(out@) + text_lines(v@) =~= text_lines(v@));
    while i < v.len()
        invariant
            i <= v@.len(),
            text_lines(v@) == views(out@) + text_lines(v@.skip(i as int)),
        decreases v@.len() - i,
    {
        let ghost rest = v@.skip(i as int);
        let ghost before = out@;
        let mut j: usize = i;
        while j < v.len() && v[j] != '\n'
            invariant
                i <= j <= v@.len(),
                line_length(v@.skip(i as int)) == (j - i) + line_length(v@.skip(j as int)),
            decreases v@.len() - j,
        {
            assert(v@.skip(j as int).drop_first() =~= v@.skip(j as int + 1));
            j += 1;
        }
        assert(line_length(rest) == j - i);
        assert(rest.take(j - i) =~= v@.subrange(i as int, j as int));
        if j < v.len() {
            let end: usize = if j > i && v[j - 1] == '\r' {
                j - 1
            } else {
                j
            };
            let line = text_between(&v, i, end);
            assert(line@ =~= without_return(v@.subrange(i as int, j as int)));
            out.push(line);
            proof {
                assert(rest.skip(j - i + 1) =~= v@.skip(j as int + 1));
                assert(views(out@) =~= views(before).push(line@));
                assert(views(out@) + text_lines(v@.skip(j as int + 1)) =~= views(before) + (seq![
                    line@,
                ] + text_lines(v@.skip(j as int + 1))));
            }
            i = j + 1;
        } else {
            let line = text_between(&v, i, j);
            out.push(line);
            proof {
                assert(line@ =~= rest);
                assert(views(out@) =~= views(before).push(line@));
                assert(text_lines(v@.skip(j as int)) =~= Seq::<Seq<char>>::empty());
                assert(views(out@) + text_lines(v@.skip(j as int)) =~= views(before) + seq![rest]);
            }
            i = j;
        }
    }
    assert(views(out@) + text_lines(v@.skip(i as int)) =~= views(out@));
    out
}

/// The words of `s`, that is its maximal runs of characters other than white space.
pub fn words(s: &str) -> (r: Vec<String>)
    ensures
        views(r@) == text_words(s@),
{
    let v = chars_of(s);
    let mut out: Vec<String> = Vec::new();
    let mut i: usize = 0;
    assert(v@.skip(0) =~= v@);
    assert(views(out@) + text_words(v@) =~= text_words(v@));
    loop
        invariant
            v@ == s@,
            i <= v@.len(),
            text_words(v@) == views(out@) + text_words(v@.skip(i as int)),
        decreases v@.len() - i,
    {
        let ghost before = out@;
        let start: usize = skip_class(&v, i, &CharClass::White);
        let ghost t = v@.skip(start as int);
        if start == v.len() {
            assert(text_words(v@.skip(i as int)) =~= Seq::<Seq<char>>::empty());
            assert(views(out@) + text_words(v@.skip(i as int)) =~= views(out@));
            return out;
        }
        proof {
            lemma_drop_leading(v@.skip(i as int), CharClass::White);
            lemma_word_length(t);
        }
        let mut j: usize = start;
        while j < v.len() && !is_white_char(v[j])
            invariant
                start <= j <= v@.len(),
                word_length(v@.skip(start as int)) == (j - start) + word_length(v@.skip(j as int)),
            decreases v@.len() - j,
        {
            assert(v@.skip(j as int).drop_first() =~= v@.skip(j as int + 1));
            j += 1;
        }
        let word = text_between(&v, start, j);
        out.push(word);
        proof {
            assert(t.take(j - start) =~= word@);
            assert(t.skip(j - start) =~= v@.skip(j as int));
            assert(views(out@) =~= views(before).push(word@));
            assert(views(out@) + text_words(v@.skip(j as int)) =~= views(before) + (seq![word@]
                + text_words(v@.skip(j as int))));
        }
        i = j;
    }
}

/// The texts of `list` in order with `separator` between neighbours.
pub fn join_texts(list: &Vec<String>, separator: &str) -> (r: String)
    ensures
        r@ == joined(views(list@), separator@),
{
    let mut out = String::new();
    let mut i: usize = 0;
    let ghost all = views(list@);
    while i < list.len()
        invariant
            i <= list@.len(),
            all == views(list@),
            out@ == joined(all.take(i as int), separator@),
        decreases list@.len() - i,
    {
        assert(all.take(i + 1).drop_last() =~= all.take(i as int));
        if i > 0 {
            out.append(separator);
        }
        out.append(list[i].as_str());
        assert(out@ =~= joined(all.take(i + 1), separator@));
        i += 1;
    }
    assert(all.take(i as int) =~= all);
    out
}

/// `n` in decimal.
pub fn decimal_text(n: u64) -> (r: String)
    ensures
        r@ == decimal(n as nat),
    decreases n,
{
    let digit: u8 = 48 + (n % 10) as u8;
    let c: char = digit as char;
    assert(c == digit_char((n % 10) as nat));
    let mut s = if n < 10 {
        String::new()
    } else {
        decimal_text(n / 10)
    };
    s.push(c);
    assert(n < 10 ==> s@ =~= seq![c]);
    s
}

proof fn lemma_digits_value_grows(s: Seq<char>, n: int)
    requires
        0 <= n <= s.len(),
    ensures
        digits_value(s.take(n)) <= digits_value(s),
    decreases s.len() - n,
{
    if n < s.len() {
        lemma_digits_value_grows(s, n + 1);
        assert(s.take(n + 1).drop_last() =~= s.take(n));
    } else {
        assert(s.take(n) =~= s);
    }
}

/// A number written in decimal denotes itself.
pub proof fn lemma_decimal_value(n: nat)
    ensures
        decimal(n).len() > 0,
        forall|i: int| 0 <= i < decimal(n).len() ==> is_digit(#[trigger] decimal(n)[i]),
        digits_value(decimal(n)) == n,
    decreases n,
{
    if n < 10 {
        assert(decimal(n).drop_last() =~= Seq::<char>::empty());
        assert(decimal(n).last() == digit_char(n));
        assert(digits_value(Seq::<char>::empty()) == 0);
    } else {
        lemma_decimal_value(n / 10);
        assert(decimal(n).drop_last() =~= decimal(n / 10));
        assert(decimal(n).last() == digit_char(n % 10));
    }
}

/// The number that `s` denotes in decimal, as `str::parse` reads it.
pub fn parse_u32(s: &str) -> (r: Option<u32>)
    ensures
        r == parsed_u32(s@),
{
    let v = chars_of(s);
    let start: usize = if v.len() > 0 && v[0] == '+' {
        1
    } else {
        0
    };
    let ghost d = v@.skip(start as int);
    assert(d =~= unsigned_part(s@));
    if start == v.len() {
        return None;
    }
    let mut value: u64 = 0;
    let mut i: usize = start;
    assert(d.take(0) =~= Seq::<char>::empty());
    while i < v.len()
        invariant
            start <= i <= v@.len(),
            d == v@.skip(start as int),
            d == unsigned_part(s@),
            d.len() > 0,
            forall|k: int| 0 <= k < i - start ==> is_digit(#[trigger] d[k]),
            value == digits_value(d.take(i - start)),
            value <= u32::MAX,
        decreases v@.len() - i,
    {
        let c: char = v[i];
        assert(c == d[i - start]);
        if !('0' <= c && c <= '9') {
            assert(!is_digit(d[i - start]));
            return None;
        }
        let digit: u64 = (c as u32 - 48) as u64;
        value = value * 10 + digit;
        proof {
            assert(d.take(i + 1 - start).drop_last() =~= d.take(i - start));
            lemma_digits_value_grows(d, i + 1 - start);
        }
        if value > 4294967295 {
            return None;
        }
        i += 1;
    }
    assert(d.take(i - start) =~= d);
    Some(value as u32)
}

/// An owned copy of an optional text.
pub fn owned_option(s: Option<&str>) -> (r: Option<String>)
    ensures
        opt_view(r) == opt_str_view(s),
{
    match s {
        Some(t) => Some(t.to_owned()),
        None => None,
    }
}

/// A copy of an optional string.
pub fn copy_option(s: &Option<String>) -> (r: Option<String>)
    ensures
        opt_view(r) == opt_view(*s),
{
    match s {
        Some(t) => Some(t.as_str().to_owned()),
        None => None,
    }
}

/// Whether `list` holds the text `s`.
pub fn list_contains(list: &Vec<String>, s: &str) -> (r: bool)
    ensures
        r == views(list@).contains(s@),
{
    let mut i: usize = 0;
    while i < list.len()
        invariant
            i <= list@.len(),
            forall|k: int| 0 <= k < i ==> views(list@)[k] != s@,
        decreases list@.len() - i,
    {
        if same_text(list[i].as_str(), s) {
            assert(views(list@)[i as int] == s@);
            return true;
        }
        i += 1;
    }
    false
}

} // verus!
