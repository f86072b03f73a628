//! HTML that may be given to the renderer of plain text, `html2text`, without it failing.
//!
//! The renderer stops the program, or does not come back, on some documents: on tables with cells
//! over several rows, on numbers that are too large, on preformatted text in blocks that have no
//! width left, and on characters whose width depends on their neighbours. A document is held to be
//! safe if it shows no sign of any of them. One that is not can be tamed.
use crate::mail::lower;
#[allow(unused_imports)]
use crate::mail::ascii_lower;
use crate::text::{chars_of, contains_text, skip_class, stands_at, CharClass};
#[allow(unused_imports)]
use crate::text::{drop_leading, occurs};
use vstd::prelude::*;

verus! {

/// `s` with its ASCII letters in lower case.
pub open spec fn lowered(s: Seq<char>) -> Seq<char> {
    s.map_values(|c: char| ascii_lower(c))
}

/// A character that can stand in a number, whether its digits are written out or as character
/// references.
pub open spec fn is_number_char(c: char) -> bool {
    ||| '0' <= c <= '9'
    ||| 'a' <= c <= 'z'
    ||| 'A' <= c <= 'Z'
    ||| c == '&'
    ||| c == '#'
    ||| c == ';'
    ||| c == '+'
    ||| c == '-'
}

/// The number of such characters at the start.
pub open spec fn number_length(s: Seq<char>) -> nat
    decreases s.len(),
{
    if s.len() > 0 && is_number_char(s.first()) {
        1 + number_length(s.drop_first())
    } else {
        0
    }
}

/// `s` without a quotation mark at its start.
pub open spec fn without_quote(s: Seq<char>) -> Seq<char> {
    if s.len() > 0 && (s.first() == '"' || s.first() == '\'') {
        s.drop_first()
    } else {
        s
    }
}

/// The number that the attribute `name` is given at the start of `s`, as it is written; it is empty
/// where the value is no number.
pub open spec fn attribute_number(s: Seq<char>, name: Seq<char>) -> Option<Seq<char>> {
    let t = drop_leading(s.skip(name.len() as int), CharClass::White);
    if name.is_prefix_of(s) && t.len() > 0 && t.first() == '=' {
        let v = without_quote(drop_leading(t.drop_first(), CharClass::White));
        Some(v.take(number_length(v) as int))
    } else {
        None
    }
}

/// At the start of `s` the attribute `name` is given a number of more than `max` characters.
pub open spec fn long_number_at(s: Seq<char>, name: Seq<char>, max: nat) -> bool {
    attribute_number(s, name) matches Some(v) && v.len() > max
}

/// Somewhere in `s` the attribute `name` is given a number of more than `max` characters.
pub open spec fn has_long_number(s: Seq<char>, name: Seq<char>, max: nat) -> bool {
    exists|i: int| 0 <= i < s.len() && long_number_at(#[trigger] s.skip(i), name, max)
}

/// At the start of `s` the attribute `name` is given a number that is none of the digits in `except`.
pub open spec fn other_number_at(s: Seq<char>, name: Seq<char>, except: Seq<char>) -> bool {
    attribute_number(s, name) matches Some(v) && v.len() > 0 && !(v.len() == 1 && except.contains(
        v[0],
    ))
}

/// Somewhere in `s` the attribute `name` is given a number that is none of the digits in `except`.
pub open spec fn has_other_number(s: Seq<char>, name: Seq<char>, except: Seq<char>) -> bool {
    exists|i: int| 0 <= i < s.len() && other_number_at(#[trigger] s.skip(i), name, except)
}

/// A cell spans rows in a way that the renderer may lose count of: more than two, or two where cells
/// span columns too.
pub open spec fn spans_rows(s: Seq<char>) -> bool {
    ||| has_other_number(s, "rowspan"@, "012"@)
    ||| has_other_number(s, "rowspan"@, "01"@) && has_other_number(s, "colspan"@, "1"@)
}

pub open spec fn is_code_digit(c: char, base: nat) -> bool {
    '0' <= c <= '9' || (base == 16 && 'a' <= c <= 'f')
}

pub open spec fn code_digit(c: char) -> nat {
    if c <= '9' {
        (c as nat - 48) as nat
    } else {
        (c as nat - 87) as nat
    }
}

/// The number of digits at the start.
pub open spec fn code_length(s: Seq<char>, base: nat) -> nat
    decreases s.len(),
{
    if s.len() > 0 && is_code_digit(s.first(), base) {
        1 + code_length(s.drop_first(), base)
    } else {
        0
    }
}

/// The number that digits denote.
pub open spec fn code_value(digits: Seq<char>, base: nat) -> nat
    decreases digits.len(),
{
    if digits.len() == 0 {
        0
    } else {
        code_value(digits.drop_last(), base) * base + code_digit(digits.last())
    }
}

/// The base and the place of the digits of the numeric character reference that begins `s`.
pub open spec fn reference_base(s: Seq<char>) -> (nat, int) {
    if s.len() > 2 && s[2] == 'x' {
        (16, 3)
    } else {
        (10, 2)
    }
}

/// The number of the character that a numeric reference at the start of `s` stands for.
pub open spec fn reference(s: Seq<char>) -> Option<nat> {
    let base = reference_base(s).0;
    let d = s.skip(reference_base(s).1);
    let n = code_length(d, base);
    if s.len() >= 2 && s[0] == '&' && s[1] == '#' && n > 0 {
        Some(code_value(d.take(n as int), base))
    } else {
        None
    }
}

/// A character beside which another may take more or less room than alone: the zero width joiner,
/// the variation selectors, the skin tones, the Arabic letters of the group of lam, and a few more.
/// No sequence in which the widths do not add up is without one of these.
pub open spec fn changes_width(code: nat) -> bool {
    ||| code == 0x644
    ||| 0x6B5 <= code <= 0x6B8
    ||| code == 0x76A
    ||| code == 0x8A6
    ||| code == 0x8C7
    ||| code == 0x17D2
    ||| code == 0x200D
    ||| code == 0x2D7F
    ||| 0xA4FC <= code <= 0xA4FD
    ||| 0xFE00 <= code <= 0xFE0F
    ||| 0x16D63 <= code <= 0x16D6A
    ||| 0x1F3FB <= code <= 0x1F3FF
}

/// `s` begins with such a character, or with a reference to one.
pub open spec fn width_changes_at(s: Seq<char>) -> bool {
    ||| changes_width(s.first() as u32 as nat)
    ||| reference(s) matches Some(code) && changes_width(code)
}

/// Such a character stands in `s`, written out, by its number or by its name.
pub open spec fn has_width_changes(s: Seq<char>) -> bool {
    ||| exists|i: int| 0 <= i < s.len() && width_changes_at(#[trigger] s.skip(i))
    ||| occurs(s, "&zwj;"@)
}

/// `s` begins with the tag of an element that is rendered in a narrower block than what stands around
/// it.
pub open spec fn indents_at(s: Seq<char>) -> bool {
    ||| "<blockquote"@.is_prefix_of(s)
    ||| "<ul"@.is_prefix_of(s)
    ||| "<ol"@.is_prefix_of(s)
    ||| "<dd"@.is_prefix_of(s)
    ||| s.len() >= 3 && s[0] == '<' && s[1] == 'h' && '1' <= s[2] <= '6'
}

/// The number of such tags from `at` on.
pub open spec fn indent_count(s: Seq<char>, at: int) -> nat
    decreases s.len() - at,
{
    if at >= s.len() {
        0
    } else if indents_at(s.skip(at)) {
        1 + indent_count(s, at + 1)
    } else {
        indent_count(s, at + 1)
    }
}

/// Preformatted text may stand in a block that has no width left: within a narrow cell, or within
/// more than three blocks, each of which takes 22 columns at most.
pub open spec fn squeezes_text(s: Seq<char>) -> bool {
    &&& occurs(s, "<pre"@)
    &&& (indent_count(s, 0) > 3 || (indent_count(s, 0) > 0 && occurs(s, "<table"@)))
}

/// The document may be given to the renderer:
/// - its characters can be counted;
/// - no cell spans rows so that the renderer may lose count of them;
/// - the numbers of columns that cells span, and those with which lists begin, can be added up;
/// - preformatted text always has some width;
/// - the width of a text is the sum of the widths of its characters.
pub open spec fn renderable(html: Seq<char>) -> bool {
    let s = lowered(html);
    &&& s.len() <= 0x7FFF_FFFF
    &&& !spans_rows(s)
    &&& !has_long_number(s, "colspan"@, 9)
    &&& !has_long_number(s, "start"@, 18)
    &&& !squeezes_text(s)
    &&& !has_width_changes(s)
}

/// A character that takes no room of its own, and without which a text reads on: a joiner, a
/// variation selector or a skin tone.
pub open spec fn is_modifier(code: nat) -> bool {
    ||| code == 0x200D
    ||| 0xFE00 <= code <= 0xFE0F
    ||| 0x1F3FB <= code <= 0x1F3FF
}

/// The place after the numeric reference that begins at `at`.
pub open spec fn reference_end(s: Seq<char>, at: int) -> int {
    let t = s.skip(at);
    let digits = at + reference_base(t).1;
    let end = digits + code_length(s.skip(digits), reference_base(t).0);
    if 0 <= end < s.len() && s[end] == ';' {
        end + 1
    } else {
        end
    }
}

/// A character of a tamed document, whose text in lower case is `low`: the names of attributes that
/// the renderer cannot follow are spoiled, and so are the tags of preformatted text if `pre` is set.
pub open spec fn tamed_char(html: Seq<char>, low: Seq<char>, at: int, rows: bool, pre: bool) -> char {
    let s = low.skip(at);
    if (rows && other_number_at(s, "rowspan"@, "01"@)) || long_number_at(s, "colspan"@, 9)
        || long_number_at(s, "start"@, 18) {
        '_'
    } else if pre && at > 0 && low[at - 1] == '<' && "pre"@.is_prefix_of(s) {
        'x'
    } else {
        html[at]
    }
}

/// The document from `at` on without modifiers, and with what the renderer cannot follow spoiled.
pub open spec fn tamed_from(html: Seq<char>, low: Seq<char>, at: int, rows: bool, pre: bool) -> Seq<
    char,
>
    decreases html.len() - at,
{
    if !(0 <= at < html.len()) {
        seq![]
    } else if is_modifier(low[at] as u32 as nat) {
        tamed_from(html, low, at + 1, rows, pre)
    } else if (reference(low.skip(at)) matches Some(code) && is_modifier(code)) && at
        < reference_end(low, at) <= html.len() {
        tamed_from(html, low, reference_end(low, at), rows, pre)
    } else if "&zwj;"@.is_prefix_of(low.skip(at)) && at + 5 <= html.len() {
        tamed_from(html, low, at + 5, rows, pre)
    } else {
        seq![tamed_char(html, low, at, rows, pre)] + tamed_from(html, low, at + 1, rows, pre)
    }
}

/// The document with what the renderer cannot follow taken out or spoiled.
pub open spec fn tamed(html: Seq<char>) -> Seq<char> {
    let low = lowered(html);
    tamed_from(html, low, 0, spans_rows(low), squeezes_text(low))
}

fn lowered_text(s: &str) -> (r: String)
    ensures
        r@ == lowered(s@),
{
    let v = chars_of(s);
    let mut out = String::new();
    let mut i: usize = 0;
    assert(lowered(v@.take(0)) =~= Seq::<char>::empty());
    while i < v.len()
        invariant
            v@ == s@,
            i <= v@.len(),
            out@ == lowered(v@.take(i as int)),
        decreases v@.len() - i,
    {
        assert(lowered(v@.take(i + 1)) =~= lowered(v@.take(i as int)).push(
            ascii_lower(v@[i as int]),
        ));
        out.push(lower(v[i]));
        i += 1;
    }
    assert(v@.take(i as int) =~= v@);
    out
}

fn may_stand_in_number(c: char) -> (r: bool)
    ensures
        r == is_number_char(c),
{
    ('0' <= c && c <= '9') || ('a' <= c && c <= 'z') || ('A' <= c && c <= 'Z') || c == '&' || c
        == '#' || c == ';' || c == '+' || c == '-'
}

/// Where the number that the attribute `name` is given at `at` begins and ends.
fn number_at(v: &Vec<char>, at: usize, name: &Vec<char>) -> (r: Option<(usize, usize)>)
    requires
        at <= v@.len(),
    ensures
        match r {
            Some((from, to)) => {
                &&& from <= to <= v@.len()
                &&& attribute_number(v@.skip(at as int), name@) == Some(
                    v@.subrange(from as int, to as int),
                )
            },
            None => attribute_number(v@.skip(at as int), name@) is None,
        },
{
    let ghost s = v@.skip(at as int);
    if !stands_at(v, at, name) {
        return None;
    }
    let n: usize = v.len();
    let after: usize = at + name.len();
    assert(s.skip(name@.len() as int) =~= v@.skip(after as int));
    let sign: usize = skip_class(v, after, &CharClass::White);
    if sign == n || v[sign] != '=' {
        return None;
    }
    assert(v@.skip(sign as int).drop_first() =~= v@.skip(sign + 1));
    let value: usize = skip_class(v, sign + 1, &CharClass::White);
    let from: usize = if value < v.len() && (v[value] == '"' || v[value] == '\'') {
        assert(v@.skip(value as int).drop_first() =~= v@.skip(value + 1));
        value + 1
    } else {
        value
    };
    let mut to: usize = from;
    while to < v.len() && may_stand_in_number(v[to])
        invariant
            from <= to <= v@.len(),
            number_length(v@.skip(from as int)) == (to - from) + number_length(v@.skip(to as int)),
        decreases v@.len() - to,
    {
        assert(v@.skip(to as int).drop_first() =~= v@.skip(to + 1));
        to += 1;
    }
    assert(v@.skip(from as int).take(to - from) =~= v@.subrange(from as int, to as int));
    Some((from, to))
}

fn finds_long_number(v: &Vec<char>, name: &str, max: usize) -> (r: bool)
    ensures
        r == has_long_number(v@, name@, max as nat),
{
    let word = chars_of(name);
    let mut i: usize = 0;
    while i < v.len()
        invariant
            word@ == name@,
            i <= v@.len(),
            forall|k: int| 0 <= k < i ==> !long_number_at(#[trigger] v@.skip(k), name@, max as nat),
        decreases v@.len() - i,
    {
        if is_long_number(v, i, &word, max) {
            assert(long_number_at(v@.skip(i as int), name@, max as nat));
            return true;
        }
        i += 1;
    }
    false
}

/// Whether the attribute `name` is given at `at` a number that is none of the digits in `except`.
fn is_other_number(v: &Vec<char>, at: usize, name: &Vec<char>, except: &Vec<char>) -> (r: bool)
    requires
        at <= v@.len(),
    ensures
        r == other_number_at(v@.skip(at as int), name@, except@),
{
    match number_at(v, at, name) {
        Some((from, to)) => {
            let ghost number = v@.subrange(from as int, to as int);
            if to == from {
                return false;
            }
            assert(number[0] == v@[from as int]);
            !(to - from == 1 && contains_char(except, v[from]))
        },
        None => false,
    }
}

fn contains_char(list: &Vec<char>, c: char) -> (r: bool)
    ensures
        r == list@.contains(c),
{
    let mut i: usize = 0;
    while i < list.len()
        invariant
            i <= list@.len(),
            forall|k: int| 0 <= k < i ==> list@[k] != c,
        decreases list@.len() - i,
    {
        if list[i] == c {
            assert(list@[i as int] == c);
            return true;
        }
        i += 1;
    }
    false
}

fn finds_other_number(v: &Vec<char>, name: &str, except: &str) -> (r: bool)
    ensures
        r == has_other_number(v@, name@, except@),
{
    let word = chars_of(name);
    let digits = chars_of(except);
    let mut i: usize = 0;
    while i < v.len()
        invariant
            word@ == name@,
            digits@ == except@,
            i <= v@.len(),
            forall|k: int| 0 <= k < i ==> !other_number_at(#[trigger] v@.skip(k), name@, except@),
        decreases v@.len() - i,
    {
        if is_other_number(v, i, &word, &digits) {
            assert(other_number_at(v@.skip(i as int), name@, except@));
            return true;
        }
        i += 1;
    }
    false
}

fn is_long_number(v: &Vec<char>, at: usize, name: &Vec<char>, max: usize) -> (r: bool)
    requires
        at <= v@.len(),
    ensures
        r == long_number_at(v@.skip(at as int), name@, max as nat),
{
    match number_at(v, at, name) {
        Some((from, to)) => to - from > max,
        None => false,
    }
}

/// The number of a character, or the first number beyond all of them.
spec fn capped(code: nat) -> nat {
    if code < 0x110000 {
        code
    } else {
        0x110000
    }
}

fn digit_of(c: char, base: u64) -> (r: Option<u64>)
    ensures
        match r {
            Some(d) => is_code_digit(c, base as nat) && d == code_digit(c) && d < 16,
            None => !is_code_digit(c, base as nat),
        },
{
    if '0' <= c && c <= '9' {
        Some((c as u32 - 48) as u64)
    } else if base == 16 && 'a' <= c && c <= 'f' {
        Some((c as u32 - 87) as u64)
    } else {
        None
    }
}

/// The number of the character that a numeric reference at `at` stands for, and the place after the
/// reference.
fn reference_at(v: &Vec<char>, at: usize) -> (r: Option<(u64, usize)>)
    requires
        at <= v@.len(),
    ensures
        match r {
            Some((code, end)) => {
                &&& reference(v@.skip(at as int)) is Some
                &&& code == capped(reference(v@.skip(at as int))->0)
                &&& end == reference_end(v@, at as int)
                &&& at < end <= v@.len()
            },
            None => reference(v@.skip(at as int)) is None,
        },
{
    let ghost s = v@.skip(at as int);
    let n: usize = v.len();
    if n - at < 2 || v[at] != '&' || v[at + 1] != '#' {
        return None;
    }
    let hex: bool = n - at > 2 && v[at + 2] == 'x';
    let base: u64 = if hex {
        16
    } else {
        10
    };
    let from: usize = if hex {
        at + 3
    } else {
        at + 2
    };
    let ghost d = v@.skip(from as int);
    assert(s.skip(reference_base(s).1) =~= d);
    let mut code: u64 = 0;
    let mut to: usize = from;
    assert(d.take(0) =~= Seq::<char>::empty());
    while to < n
        invariant
            n == v@.len(),
            from <= to <= n,
            d == v@.skip(from as int),
            base == 10 || base == 16,
            code_length(d, base as nat) == (to - from) + code_length(v@.skip(to as int), base as nat),
            code == capped(code_value(d.take(to - from), base as nat)),
        ensures
            from <= to <= n,
            code_length(d, base as nat) == to - from,
            code == capped(code_value(d.take(to - from), base as nat)),
        decreases n - to,
    {
        let ghost rest = v@.skip(to as int);
        assert(rest.drop_first() =~= v@.skip(to + 1));
        match digit_of(v[to], base) {
            Some(digit) => {
                let ghost so_far = code_value(d.take(to - from), base as nat);
                proof {
                    assert(d.take(to + 1 - from).drop_last() =~= d.take(to - from));
                    assert(d.take(to + 1 - from).last() == v@[to as int]);
                    assert(so_far >= 0x110000 ==> so_far * (base as nat) >= 0x110000)
                        by (nonlinear_arith)
                        requires
                            base == 10 || base == 16,
                    ;
                }
                let next: u64 = code * base + digit;
                code = if next < 0x110000 {
                    next
                } else {
                    0x110000
                };
                to += 1;
            },
            None => {
                break;
            },
        }
    }
    if to == from {
        return None;
    }
    if to < n && v[to] == ';' {
        Some((code, to + 1))
    } else {
        Some((code, to))
    }
}

fn is_width_changing(code: u64) -> (r: bool)
    ensures
        r == changes_width(code as nat),
{
    code == 0x644 || (0x6B5 <= code && code <= 0x6B8) || code == 0x76A || code == 0x8A6 || code
        == 0x8C7 || code == 0x17D2 || code == 0x200D || code == 0x2D7F || (0xA4FC <= code && code
        <= 0xA4FD) || (0xFE00 <= code && code <= 0xFE0F) || (0x16D63 <= code && code <= 0x16D6A) || (
    0x1F3FB <= code && code <= 0x1F3FF)
}

fn finds_width_change(v: &Vec<char>) -> (r: bool)
    ensures
        r == exists|i: int| 0 <= i < v@.len() && width_changes_at(#[trigger] v@.skip(i)),
{
    let mut i: usize = 0;
    while i < v.len()
        invariant
            i <= v@.len(),
            forall|k: int| 0 <= k < i ==> !width_changes_at(#[trigger] v@.skip(k)),
        decreases v@.len() - i,
    {
        let ghost s = v@.skip(i as int);
        assert(s.first() == v@[i as int]);
        let c: char = v[i];
        let own: bool = is_width_changing(c as u32 as u64);
        let referenced: bool = match reference_at(v, i) {
            Some((code, _)) => is_width_changing(code),
            None => false,
        };
        if own || referenced {
            assert(width_changes_at(s));
            return true;
        }
        i += 1;
    }
    false
}

fn is_modifying(code: u64) -> (r: bool)
    ensures
        r == is_modifier(code as nat),
{
    code == 0x200D || (0xFE00 <= code && code <= 0xFE0F) || (0x1F3FB <= code && code <= 0x1F3FF)
}

/// The words that tell the tags of indented blocks.
struct BlockTags {
    quote: Vec<char>,
    bullets: Vec<char>,
    numbers: Vec<char>,
    details: Vec<char>,
}

impl BlockTags {
    spec fn holds(self) -> bool {
        &&& self.quote@ == "<blockquote"@
        &&& self.bullets@ == "<ul"@
        &&& self.numbers@ == "<ol"@
        &&& self.details@ == "<dd"@
    }

    fn new() -> (r: Self)
        ensures
            r.holds(),
    {
        BlockTags {
            quote: chars_of("<blockquote"),
            bullets: chars_of("<ul"),
            numbers: chars_of("<ol"),
            details: chars_of("<dd"),
        }
    }
}

fn is_indenting(v: &Vec<char>, at: usize, tags: &BlockTags) -> (r: bool)
    requires
        at < v@.len(),
        tags.holds(),
    ensures
        r == indents_at(v@.skip(at as int)),
{
    let header: bool = v.len() - at >= 3 && v[at] == '<' && v[at + 1] == 'h' && '1' <= v[at + 2]
        && v[at + 2] <= '6';
    header || stands_at(v, at, &tags.quote) || stands_at(v, at, &tags.bullets) || stands_at(
        v,
        at,
        &tags.numbers,
    ) || stands_at(v, at, &tags.details)
}

fn count_indents(v: &Vec<char>) -> (count: usize)
    ensures
        count == indent_count(v@, 0),
{
    let tags = BlockTags::new();
    let mut count: usize = 0;
    let mut i: usize = 0;
    while i < v.len()
        invariant
            tags.holds(),
            count <= i <= v@.len(),
            indent_count(v@, 0) == count + indent_count(v@, i as int),
        decreases v@.len() - i,
    {
        if is_indenting(v, i, &tags) {
            count += 1;
        }
        i += 1;
    }
    count
}

fn is_squeezing(text: &str, v: &Vec<char>) -> (r: bool)
    requires
        v@ == text@,
    ensures
        r == squeezes_text(text@),
{
    if !contains_text(text, "<pre") {
        return false;
    }
    let count: usize = count_indents(v);
    count > 3 || (count > 0 && contains_text(text, "<table"))
}

fn is_row_spanning(v: &Vec<char>) -> (r: bool)
    ensures
        r == spans_rows(v@),
{
    finds_other_number(v, "rowspan", "012") || (finds_other_number(v, "rowspan", "01")
        && finds_other_number(v, "colspan", "1"))
}

/// Whether the document may be given to the renderer.
pub fn is_renderable(html: &str) -> (r: bool)
    ensures
        r == renderable(html@),
{
    let text = lowered_text(html);
    let s = text.as_str();
    let v = chars_of(s);
    if v.len() > 0x7FFF_FFFF || is_row_spanning(&v) || finds_long_number(&v, "colspan", 9)
        || finds_long_number(&v, "start", 18) {
        return false;
    }
    !finds_width_change(&v) && !contains_text(s, "&zwj;") && !is_squeezing(s, &v)
}

/// The names that a document is tamed by.
struct TamedNames {
    rows: Vec<char>,
    columns: Vec<char>,
    first: Vec<char>,
    pre: Vec<char>,
    joiner: Vec<char>,
    allowed: Vec<char>,
}

impl TamedNames {
    spec fn holds(self) -> bool {
        &&& self.rows@ == "rowspan"@
        &&& self.columns@ == "colspan"@
        &&& self.first@ == "start"@
        &&& self.pre@ == "pre"@
        &&& self.joiner@ == "&zwj;"@
        &&& self.allowed@ == "01"@
    }

    fn new() -> (r: Self)
        ensures
            r.holds(),
    {
        TamedNames {
            rows: chars_of("rowspan"),
            columns: chars_of("colspan"),
            first: chars_of("start"),
            pre: chars_of("pre"),
            joiner: chars_of("&zwj;"),
            allowed: chars_of("01"),
        }
    }
}

fn tame_char(
    v: &Vec<char>,
    low: &Vec<char>,
    at: usize,
    rows: bool,
    pre: bool,
    names: &TamedNames,
) -> (r: char)
    requires
        v@.len() == low@.len(),
        at < v@.len(),
        names.holds(),
    ensures
        r == tamed_char(v@, low@, at as int, rows, pre),
{
    if (rows && is_other_number(low, at, &names.rows, &names.allowed)) || is_long_number(
        low,
        at,
        &names.columns,
        9,
    ) || is_long_number(low, at, &names.first, 18) {
        return '_';
    }
    if pre && at > 0 && low[at - 1] == '<' && stands_at(low, at, &names.pre) {
        return 'x';
    }
    v[at]
}

/// The document with what the renderer cannot follow taken out or spoiled.
pub fn tame(html: &str) -> (r: String)
    ensures
        r@ == tamed(html@),
{
    let text = lowered_text(html);
    let low = chars_of(text.as_str());
    let v = chars_of(html);
    let rows: bool = is_row_spanning(&low);
    let pre: bool = is_squeezing(text.as_str(), &low);
    let names = TamedNames::new();
    let mut out = String::new();
    let mut i: usize = 0;
    proof {
        reveal_strlit("&zwj;");
    }
    assert(out@ + tamed_from(v@, low@, 0, rows, pre) =~= tamed_from(v@, low@, 0, rows, pre));
    while i < v.len()
        invariant
            names.holds(),
            "&zwj;"@.len() == 5,
            v@.len() == low@.len(),
            i <= v@.len(),
            tamed_from(v@, low@, 0, rows, pre) == out@ + tamed_from(
                v@,
                low@,
                i as int,
                rows,
                pre,
            ),
        decreases v@.len() - i,
    {
        let c: char = low[i];
        if is_modifying(c as u32 as u64) {
            i += 1;
            continue;
        }
        if let Some((code, end)) = reference_at(&low, i) {
            if is_modifying(code) {
                i = end;
                continue;
            }
        }
        if stands_at(&low, i, &names.joiner) {
            i += 5;
            continue;
        }
        let t: char = tame_char(&v, &low, i, rows, pre, &names);
        proof {
            let rest = tamed_from(v@, low@, i + 1, rows, pre);
            assert(out@.push(t) + rest =~= out@ + (seq![t] + rest));
        }
        out.push(t);
        i += 1;
    }
    assert(out@ + tamed_from(v@, low@, i as int, rows, pre) =~= out@);
    out
}

} // verus!
