//! Mail that may be given to the parser of messages, `mail_parser`, without it failing.
//!
//! The parser opens a message within a message wherever a part names the type of one, without a
//! bound, and stops the program where they are nested too deep, where they stand directly in one
//! another, and at a few numbers and line ends that it does not expect. Here is told, from the bytes
//! alone, when none of that can happen.
#[allow(unused_imports)]
use crate::mail::ascii_lower;
use crate::mail::lower;
use crate::text::chars_of;
use vstd::prelude::*;

verus! {

/// Bytes that are passed over in a row.
#[derive(Clone, Copy)]
pub enum ByteClass {
    /// What the parser passes over around the name of a subtype.
    Quiet,
    Return,
    /// White space within a line.
    Space,
    /// White space between the name of a field and its value, which may stand on the next line.
    Blank,
    Zero,
}

pub open spec fn in_bytes(class: ByteClass, c: char) -> bool {
    match class {
        ByteClass::Quiet => c == ' ' || c == '\t' || c == '\r' || c == '"' || c == '\\',
        ByteClass::Return => c == '\r',
        ByteClass::Space => c == ' ' || c == '\t' || c == '\r' || c == '\x0C',
        ByteClass::Blank => c == ' ' || c == '\t' || c == '\r' || c == '\n',
        ByteClass::Zero => c == '0',
    }
}

fn is_in(class: ByteClass, c: char) -> (r: bool)
    ensures
        r == in_bytes(class, c),
{
    match class {
        ByteClass::Quiet => c == ' ' || c == '\t' || c == '\r' || c == '"' || c == '\\',
        ByteClass::Return => c == '\r',
        ByteClass::Space => c == ' ' || c == '\t' || c == '\r' || c == '\x0C',
        ByteClass::Blank => c == ' ' || c == '\t' || c == '\r' || c == '\n',
        ByteClass::Zero => c == '0',
    }
}

/// The place after the bytes of the class that begin at `at`.
pub open spec fn past(raw: Seq<u8>, at: int, class: ByteClass) -> int
    decreases raw.len() - at,
{
    if 0 <= at < raw.len() && in_bytes(class, raw[at] as char) {
        past(raw, at + 1, class)
    } else {
        at
    }
}

/// The place of the last byte before `at` that is not of the class; negative if there is none.
pub open spec fn last_before(raw: Seq<u8>, at: int, class: ByteClass) -> int
    decreases at,
{
    if 0 < at <= raw.len() && in_bytes(class, raw[at - 1] as char) {
        last_before(raw, at - 1, class)
    } else {
        at - 1
    }
}

/// `word`, which is in lower case, stands at `at` in any case.
pub open spec fn begins(raw: Seq<u8>, at: int, word: Seq<char>) -> bool {
    &&& 0 <= at
    &&& at + word.len() <= raw.len()
    &&& forall|k: int| 0 <= k < word.len() ==> ascii_lower(raw[at + k] as char) == #[trigger] word[k]
}

fn skip(raw: &[u8], at: usize, class: ByteClass) -> (r: usize)
    requires
        at <= raw@.len(),
    ensures
        r == past(raw@, at as int, class),
        at <= r <= raw@.len(),
{
    let mut i: usize = at;
    while i < raw.len() && is_in(class, raw[i] as char)
        invariant
            at <= i <= raw@.len(),
            past(raw@, at as int, class) == past(raw@, i as int, class),
        decreases raw@.len() - i,
    {
        i += 1;
    }
    i
}

fn begins_at(raw: &[u8], at: usize, word: &Vec<char>) -> (r: bool)
    requires
        at <= raw@.len(),
    ensures
        r == begins(raw@, at as int, word@),
{
    let n: usize = raw.len();
    if word.len() > n - at {
        return false;
    }
    let mut k: usize = 0;
    while k < word.len()
        invariant
            n == raw@.len(),
            at + word@.len() <= n,
            k <= word@.len(),
            forall|j: int| 0 <= j < k ==> ascii_lower(raw@[at + j] as char) == #[trigger] word@[j],
        decreases word@.len() - k,
    {
        if lower(raw[at + k] as char) != word[k] {
            assert(ascii_lower(raw@[at + k] as char) != word@[k as int]);
            return false;
        }
        k += 1;
    }
    true
}

/// The subtype `word` may stand at `at`: after a slash or a comment, and up to the end of the line, a
/// parameter or a comment.
pub open spec fn subtype_at(raw: Seq<u8>, at: int, word: Seq<char>) -> bool {
    let before = last_before(raw, at, ByteClass::Quiet);
    let end = past(raw, at + word.len(), ByteClass::Quiet);
    &&& begins(raw, at, word)
    &&& 0 <= before < raw.len()
    &&& raw[before] as char == '/' || raw[before] as char == ')'
    &&& 0 <= end < raw.len()
    &&& raw[end] as char == ';' || raw[end] as char == '(' || raw[end] as char == '\n'
}

/// The place after the colon of the field whose name goes on at `at` with `name`, white space within
/// it left aside.
pub open spec fn field_end(raw: Seq<u8>, at: int, name: Seq<char>) -> Option<int>
    decreases raw.len() - at,
{
    if !(0 <= at < raw.len()) {
        None
    } else if name.len() > 0 && ascii_lower(raw[at] as char) == name.first() {
        field_end(raw, at + 1, name.drop_first())
    } else if in_bytes(ByteClass::Space, raw[at] as char) {
        field_end(raw, at + 1, name)
    } else if name.len() == 0 && raw[at] as char == ':' {
        Some(at + 1)
    } else {
        None
    }
}

/// The place after the colon of the field `name` that begins at `at`.
pub open spec fn field_at(raw: Seq<u8>, at: int, name: Seq<char>) -> Option<int> {
    if 0 <= at < raw.len() && name.len() > 0 && ascii_lower(raw[at] as char) == name.first() {
        field_end(raw, at, name)
    } else {
        None
    }
}

/// The place of the line feed that ends the field whose value holds `at`: the next after which no
/// continuation line follows.
pub open spec fn value_end(raw: Seq<u8>, at: int) -> int
    decreases raw.len() - at,
{
    if !(0 <= at < raw.len()) {
        at
    } else if raw[at] as char == '\n' && !(at + 1 < raw.len() && (raw[at + 1] as char == ' '
        || raw[at + 1] as char == '\t')) {
        at
    } else {
        value_end(raw, at + 1)
    }
}

/// The end of the value of the last field up to `at` that gives the type of a part.
pub open spec fn type_end(raw: Seq<u8>, at: int) -> int
    decreases at + 1,
{
    if at < 0 {
        0
    } else {
        match field_at(raw, at, "content-type"@) {
            Some(value) => value_end(raw, value),
            None => type_end(raw, at - 1),
        }
    }
}

/// The place is in a field that gives the type of a part.
pub open spec fn in_type(raw: Seq<u8>, at: int) -> bool {
    at < type_end(raw, at)
}

/// The type of a message within a message may stand at `at`.
pub open spec fn message_at(raw: Seq<u8>, at: int) -> bool {
    in_type(raw, at) && (subtype_at(raw, at, "rfc822"@) || subtype_at(raw, at, "global"@))
}

/// The type of a part that holds messages without naming their type may stand at `at`.
pub open spec fn digest_at(raw: Seq<u8>, at: int) -> bool {
    in_type(raw, at) && subtype_at(raw, at, "digest"@)
}

/// A type at which the parser may open a message may stand at `at`.
pub open spec fn nested_at(raw: Seq<u8>, at: int) -> bool {
    message_at(raw, at) || digest_at(raw, at)
}

/// The number of places from `at` on where the type of a message may stand.
pub open spec fn message_count(raw: Seq<u8>, at: int) -> nat
    decreases raw.len() - at,
{
    if at >= raw.len() {
        0
    } else if message_at(raw, at) {
        1 + message_count(raw, at + 1)
    } else {
        message_count(raw, at + 1)
    }
}

/// An empty line begins after the line feed at `at`, which ends a header.
pub open spec fn separates(raw: Seq<u8>, at: int) -> bool {
    let next = past(raw, at + 1, ByteClass::Return);
    &&& 0 <= at < raw.len()
    &&& raw[at] as char == '\n'
    &&& 0 <= next < raw.len()
    &&& raw[next] as char == '\n'
}

/// From `at` on the type of a message stands in the same or the next section after another, sections
/// being parted by empty lines: then the one message may begin directly with the other. `near` is the
/// number of sections for which the last such type still counts.
pub open spec fn crowded(raw: Seq<u8>, at: int, near: nat) -> bool
    decreases raw.len() - at,
{
    if at >= raw.len() {
        false
    } else if message_at(raw, at) {
        near > 0 || crowded(raw, at + 1, 2)
    } else if separates(raw, at) && near > 0 {
        crowded(raw, at + 1, (near - 1) as nat)
    } else {
        crowded(raw, at + 1, near)
    }
}

/// A field begins at `at` by which a part may be encoded: its value is the name of an encoding, or
/// begins with an encoded word.
pub open spec fn coded_at(raw: Seq<u8>, at: int) -> bool {
    match field_at(raw, at, "content-transfer-encoding"@) {
        Some(end) => {
            let value = past(raw, end, ByteClass::Blank);
            ||| begins(raw, value, "base64"@)
            ||| begins(raw, value, "quoted-printable"@)
            ||| begins(raw, value, "=?"@)
        },
        None => false,
    }
}

/// From `at` on the type of a message and an encoding stand in the same section: what is encoded
/// cannot be told from the bytes. `marked` and `coded` say what the section has already.
pub open spec fn coded_message(raw: Seq<u8>, at: int, marked: bool, coded: bool) -> bool
    decreases raw.len() - at,
{
    if at >= raw.len() {
        false
    } else {
        let m = marked || message_at(raw, at);
        let c = coded || coded_at(raw, at);
        if m && c {
            true
        } else if separates(raw, at) {
            coded_message(raw, at + 1, false, false)
        } else {
            coded_message(raw, at + 1, m, c)
        }
    }
}

pub open spec fn is_letter(c: char) -> bool {
    'a' <= c <= 'z' || 'A' <= c <= 'Z'
}

/// A word begins with the letter at `at`, in a value that begins at `from`.
pub open spec fn word_begins(raw: Seq<u8>, at: int, from: int) -> bool {
    &&& 1 <= from <= at < raw.len()
    &&& is_letter(raw[at] as char)
    &&& !is_letter(raw[at - 1] as char)
}

/// A date begins at `at` that ends with a time zone of one or two letters. The parser takes three
/// bytes for it, and the end of the line with them.
pub open spec fn short_zone_at(raw: Seq<u8>, at: int) -> bool {
    match field_at(raw, at, "date"@) {
        Some(from) => {
            let end = value_end(raw, from);
            end < raw.len() && (word_begins(raw, end - 1, from) || word_begins(raw, end - 2, from))
        },
        None => false,
    }
}

/// At `at` something stands after which a message may begin unseen.
pub open spec fn hides_messages(raw: Seq<u8>, at: int) -> bool {
    digest_at(raw, at) || short_zone_at(raw, at)
}

/// The most messages within a message that are followed.
pub const NESTING: usize = 500;

/// Messages within a message are no danger: there are none, or there are not too many, each of them
/// names its type, none is encoded, and none begins directly with another; and headers end where
/// they seem to.
pub open spec fn nests_safely(raw: Seq<u8>) -> bool {
    ||| forall|i: int| 0 <= i < raw.len() ==> !#[trigger] nested_at(raw, i)
    ||| {
        &&& forall|i: int| 0 <= i < raw.len() ==> !#[trigger] hides_messages(raw, i)
        &&& message_count(raw, 0) <= NESTING
        &&& !crowded(raw, 0, 0)
        &&& !coded_message(raw, 0, false, false)
    }
}

/// The bytes with the types at which the parser would open a message spoiled, so that a message
/// within the message is an attachment like any other.
pub open spec fn unnested(raw: Seq<u8>) -> Seq<u8> {
    Seq::new(
        raw.len(),
        |i: int|
            if nested_at(raw, i) {
                120u8
            } else {
                raw[i]
            },
    )
}

/// From `at` on the smallest number of 64 bits stands in a field of the path of the mail; `inside`
/// says whether such a field goes on at `at`.
pub open spec fn extreme_number(raw: Seq<u8>, at: int, inside: bool) -> bool
    decreases raw.len() - at,
{
    if !(0 <= at < raw.len()) {
        false
    } else {
        let here = inside || field_at(raw, at, "received"@) is Some;
        if here && raw[at] as char == '-' && begins(
            raw,
            past(raw, at + 1, ByteClass::Zero),
            "9223372036854775808"@,
        ) {
            true
        } else {
            extreme_number(raw, at + 1, here && value_end(raw, at) != at)
        }
    }
}

/// A body begins at `at`: after an empty line.
pub open spec fn body_at(raw: Seq<u8>, at: int) -> bool {
    let line = last_before(raw, at - 1, ByteClass::Space);
    &&& 1 <= at <= raw.len()
    &&& raw[at - 1] as char == '\n'
    &&& 0 <= line < raw.len()
    &&& raw[line] as char == '\n'
}

/// The bytes from `at` on are read as one byte at most, if `room` is given, or as none, and end with
/// a line break that does not count, before two hyphens.
pub open spec fn empty_before_boundary(raw: Seq<u8>, at: int, room: bool) -> bool
    decreases raw.len() - at,
{
    if !(0 <= at < raw.len()) {
        false
    } else if in_bytes(ByteClass::Space, raw[at] as char) {
        empty_before_boundary(raw, at + 1, room)
    } else if raw[at] as char == '=' {
        let next = past(raw, at + 1, ByteClass::Space);
        if !(at < next < raw.len()) {
            false
        } else if raw[next] as char == '\n' {
            begins(raw, next + 1, "--"@) || empty_before_boundary(raw, next + 1, room)
        } else {
            let last = past(raw, next + 1, ByteClass::Return);
            room && next < last < raw.len() && empty_before_boundary(raw, last + 1, false)
        }
    } else {
        room && empty_before_boundary(raw, at + 1, false)
    }
}

/// The bytes of a mail hold no number and no body that stops the parser, and can be counted.
pub open spec fn reads_safely(raw: Seq<u8>) -> bool {
    &&& raw.len() <= 0x7FFF_FFFF
    &&& !extreme_number(raw, 0, false)
    &&& forall|i: int|
        0 <= i <= raw.len() ==> !(#[trigger] body_at(raw, i) && empty_before_boundary(raw, i, true))
}

/// What the scans look for, and where it counts.
struct Marks {
    rfc822: Vec<char>,
    global: Vec<char>,
    digest: Vec<char>,
    /// Which places are in a field that gives the type of a part.
    typed: Vec<bool>,
}

impl Marks {
    spec fn holds(self, raw: Seq<u8>) -> bool {
        &&& self.rfc822@ == "rfc822"@
        &&& self.global@ == "global"@
        &&& self.digest@ == "digest"@
        &&& self.typed@.len() == raw.len()
        &&& forall|i: int| 0 <= i < raw.len() ==> #[trigger] self.typed@[i] == in_type(raw, i)
    }

    fn new(raw: &[u8]) -> (r: Self)
        ensures
            r.holds(raw@),
    {
        Marks {
            rfc822: chars_of("rfc822"),
            global: chars_of("global"),
            digest: chars_of("digest"),
            typed: typed_places(raw),
        }
    }
}

fn skip_back(raw: &[u8], at: usize, class: ByteClass) -> (r: Option<usize>)
    requires
        at <= raw@.len(),
    ensures
        match r {
            Some(i) => i == last_before(raw@, at as int, class) && i < at,
            None => last_before(raw@, at as int, class) < 0,
        },
{
    let mut i: usize = at;
    while i > 0 && is_in(class, raw[i - 1] as char)
        invariant
            i <= at <= raw@.len(),
            last_before(raw@, at as int, class) == last_before(raw@, i as int, class),
        decreases i,
    {
        i -= 1;
    }
    if i > 0 {
        Some(i - 1)
    } else {
        None
    }
}

fn is_subtype(raw: &[u8], at: usize, word: &Vec<char>) -> (r: bool)
    requires
        at <= raw@.len(),
    ensures
        r == subtype_at(raw@, at as int, word@),
{
    if !begins_at(raw, at, word) {
        return false;
    }
    let n: usize = raw.len();
    let end: usize = skip(raw, at + word.len(), ByteClass::Quiet);
    let ended: bool = end < n && (raw[end] as char == ';' || raw[end] as char == '(' || raw[end] as char
        == '\n');
    match skip_back(raw, at, ByteClass::Quiet) {
        Some(before) => ended && (raw[before] as char == '/' || raw[before] as char == ')'),
        None => false,
    }
}

fn is_message(raw: &[u8], at: usize, marks: &Marks) -> (r: bool)
    requires
        at < raw@.len(),
        marks.holds(raw@),
    ensures
        r == message_at(raw@, at as int),
{
    marks.typed[at] && (is_subtype(raw, at, &marks.rfc822) || is_subtype(raw, at, &marks.global))
}

fn is_digest(raw: &[u8], at: usize, marks: &Marks) -> (r: bool)
    requires
        at < raw@.len(),
        marks.holds(raw@),
    ensures
        r == digest_at(raw@, at as int),
{
    marks.typed[at] && is_subtype(raw, at, &marks.digest)
}

fn is_nested(raw: &[u8], at: usize, marks: &Marks) -> (r: bool)
    requires
        at < raw@.len(),
        marks.holds(raw@),
    ensures
        r == nested_at(raw@, at as int),
{
    is_message(raw, at, marks) || is_digest(raw, at, marks)
}

fn is_separator(raw: &[u8], at: usize) -> (r: bool)
    requires
        at < raw@.len(),
    ensures
        r == separates(raw@, at as int),
{
    if raw[at] as char != '\n' {
        return false;
    }
    let next: usize = skip(raw, at + 1, ByteClass::Return);
    next < raw.len() && raw[next] as char == '\n'
}

fn find_field(raw: &[u8], at: usize, name: &Vec<char>) -> (r: Option<usize>)
    requires
        at <= raw@.len(),
    ensures
        match r {
            Some(end) => field_at(raw@, at as int, name@) == Some(end as int) && at < end
                <= raw@.len(),
            None => field_at(raw@, at as int, name@) is None,
        },
{
    if at >= raw.len() || name.len() == 0 || lower(raw[at] as char) != name[0] {
        return None;
    }
    let mut i: usize = at;
    let mut k: usize = 0;
    assert(name@.skip(0) =~= name@);
    while i < raw.len()
        invariant
            at <= i <= raw@.len(),
            k <= name@.len(),
            field_at(raw@, at as int, name@) == field_end(raw@, i as int, name@.skip(k as int)),
        decreases raw@.len() - i,
    {
        let c: char = raw[i] as char;
        let ghost rest = name@.skip(k as int);
        if k < name.len() && lower(c) == name[k] {
            assert(rest.drop_first() =~= name@.skip(k + 1));
            k += 1;
        } else if is_in(ByteClass::Space, c) {
        } else if k == name.len() && c == ':' {
            return Some(i + 1);
        } else {
            return None;
        }
        i += 1;
    }
    None
}

fn is_coded(raw: &[u8], at: usize, name: &Vec<char>, values: &Vec<Vec<char>>) -> (r: bool)
    requires
        at <= raw@.len(),
        name@ == "content-transfer-encoding"@,
        values@.len() == 3,
        values@[0]@ == "base64"@,
        values@[1]@ == "quoted-printable"@,
        values@[2]@ == "=?"@,
    ensures
        r == coded_at(raw@, at as int),
{
    match find_field(raw, at, name) {
        Some(end) => {
            let value: usize = skip(raw, end, ByteClass::Blank);
            begins_at(raw, value, &values[0]) || begins_at(raw, value, &values[1]) || begins_at(
                raw,
                value,
                &values[2],
            )
        },
        None => false,
    }
}

fn ends_value(raw: &[u8], at: usize) -> (r: bool)
    requires
        at < raw@.len(),
    ensures
        r == (value_end(raw@, at as int) == at),
{
    proof {
        if at + 1 <= raw@.len() {
            lemma_value_end(raw@, at + 1);
        }
    }
    if raw[at] as char != '\n' {
        return false;
    }
    !(at + 1 < raw.len() && (raw[at + 1] as char == ' ' || raw[at + 1] as char == '\t'))
}

proof fn lemma_value_end(raw: Seq<u8>, at: int)
    requires
        0 <= at <= raw.len(),
    ensures
        at <= value_end(raw, at) <= raw.len(),
    decreases raw.len() - at,
{
    if at < raw.len() {
        lemma_value_end(raw, at + 1);
    }
}

fn find_value_end(raw: &[u8], at: usize) -> (r: usize)
    requires
        at <= raw@.len(),
    ensures
        r == value_end(raw@, at as int),
        at <= r <= raw@.len(),
{
    let mut i: usize = at;
    while i < raw.len() && !ends_value(raw, i)
        invariant
            at <= i <= raw@.len(),
            value_end(raw@, at as int) == value_end(raw@, i as int),
        decreases raw@.len() - i,
    {
        i += 1;
    }
    i
}

fn is_word_start(raw: &[u8], at: usize, from: usize) -> (r: bool)
    requires
        at < raw@.len(),
    ensures
        r == word_begins(raw@, at as int, from as int),
{
    if from == 0 || at < from {
        return false;
    }
    let c: char = raw[at] as char;
    let b: char = raw[at - 1] as char;
    (('a' <= c && c <= 'z') || ('A' <= c && c <= 'Z')) && !(('a' <= b && b <= 'z') || ('A' <= b && b
        <= 'Z'))
}

/// A place in the value that holds `at`, and the end of that value. `end` is the end of the value that
/// holds `known`, and is not looked for again where the two are one.
fn cached_value_end(raw: &[u8], at: usize, known: usize, end: usize) -> (r: (usize, usize))
    requires
        known <= at <= raw@.len(),
        known <= end <= raw@.len(),
        end == value_end(raw@, known as int),
    ensures
        r.0 <= at <= r.1 <= raw@.len(),
        r.1 == value_end(raw@, at as int),
        r.1 == value_end(raw@, r.0 as int),
{
    if at <= end {
        proof {
            lemma_same_value(raw@, known as int, at as int);
        }
        (known, end)
    } else {
        (at, find_value_end(raw, at))
    }
}

fn typed_places(raw: &[u8]) -> (r: Vec<bool>)
    ensures
        r@.len() == raw@.len(),
        forall|i: int| 0 <= i < raw@.len() ==> #[trigger] r@[i] == in_type(raw@, i),
{
    let name = chars_of("content-type");
    let mut known: usize = 0;
    let mut end: usize = find_value_end(raw, 0);
    let mut last: usize = 0;
    let mut out: Vec<bool> = Vec::new();
    let mut i: usize = 0;
    assert(type_end(raw@, -1) == 0);
    while i < raw.len()
        invariant
            name@ == "content-type"@,
            known <= end <= raw@.len(),
            end == value_end(raw@, known as int),
            known <= raw@.len(),
            i <= raw@.len(),
            last == type_end(raw@, i - 1),
            out@.len() == i,
            forall|k: int| 0 <= k < i ==> #[trigger] out@[k] == in_type(raw@, k),
        decreases raw@.len() - i,
    {
        if let Some(value) = find_field(raw, i, &name) {
            if known <= value {
                let found = cached_value_end(raw, value, known, end);
                known = found.0;
                end = found.1;
                last = end;
            } else {
                last = find_value_end(raw, value);
            }
        }
        out.push(i < last);
        i += 1;
    }
    out
}

fn is_short_zone(raw: &[u8], from: usize, end: usize) -> (r: bool)
    requires
        1 <= from <= end <= raw@.len(),
    ensures
        r == (end < raw@.len() && (word_begins(raw@, end - 1, from as int) || word_begins(
            raw@,
            end - 2,
            from as int,
        ))),
{
    if end >= raw.len() {
        return false;
    }
    is_word_start(raw, end - 1, from) || (end >= 2 && is_word_start(raw, end - 2, from))
}

proof fn lemma_same_value(raw: Seq<u8>, from: int, at: int)
    requires
        0 <= from <= at <= value_end(raw, from),
        at <= raw.len(),
    ensures
        value_end(raw, at) == value_end(raw, from),
    decreases at - from,
{
    if from < at {
        lemma_same_value(raw, from + 1, at);
    }
}

fn has_nested(raw: &[u8], marks: &Marks) -> (r: bool)
    requires
        marks.holds(raw@),
    ensures
        r == exists|i: int| 0 <= i < raw@.len() && #[trigger] nested_at(raw@, i),
{
    let mut i: usize = 0;
    while i < raw.len()
        invariant
            marks.holds(raw@),
            i <= raw@.len(),
            forall|k: int| 0 <= k < i ==> !#[trigger] nested_at(raw@, k),
        decreases raw@.len() - i,
    {
        if is_nested(raw, i, marks) {
            return true;
        }
        i += 1;
    }
    false
}

fn has_hidden(raw: &[u8], marks: &Marks) -> (r: bool)
    requires
        marks.holds(raw@),
    ensures
        r == exists|i: int| 0 <= i < raw@.len() && #[trigger] hides_messages(raw@, i),
{
    let name = chars_of("date");
    let mut known: usize = 0;
    let mut end: usize = find_value_end(raw, 0);
    let mut i: usize = 0;
    while i < raw.len()
        invariant
            marks.holds(raw@),
            name@ == "date"@,
            known <= raw@.len(),
            i <= raw@.len(),
            known <= end <= raw@.len(),
            end == value_end(raw@, known as int),
            forall|k: int| 0 <= k < i ==> !#[trigger] hides_messages(raw@, k),
        decreases raw@.len() - i,
    {
        let mut zone: bool = false;
        if let Some(from) = find_field(raw, i, &name) {
            if known <= from {
                let found = cached_value_end(raw, from, known, end);
                known = found.0;
                end = found.1;
                zone = is_short_zone(raw, from, end);
            } else {
                zone = is_short_zone(raw, from, find_value_end(raw, from));
            }
        }
        if is_digest(raw, i, marks) || zone {
            assert(hides_messages(raw@, i as int));
            return true;
        }
        i += 1;
    }
    false
}

/// Whether there are too many messages within the message, or one begins directly with another.
fn nests_badly(raw: &[u8], marks: &Marks) -> (r: bool)
    requires
        marks.holds(raw@),
    ensures
        r == (message_count(raw@, 0) > NESTING || crowded(raw@, 0, 0)),
{
    let mut count: usize = 0;
    let mut near: usize = 0;
    let mut close: bool = false;
    let mut i: usize = 0;
    while i < raw.len()
        invariant
            marks.holds(raw@),
            i <= raw@.len(),
            count <= i,
            near <= 2,
            message_count(raw@, 0) == count + message_count(raw@, i as int),
            crowded(raw@, 0, 0) == (close || crowded(raw@, i as int, near as nat)),
        decreases raw@.len() - i,
    {
        if is_message(raw, i, marks) {
            count += 1;
            close = close || near > 0;
            near = 2;
        } else if near > 0 && is_separator(raw, i) {
            near -= 1;
        }
        i += 1;
    }
    count > NESTING || close
}

fn codes_message(raw: &[u8], marks: &Marks) -> (r: bool)
    requires
        marks.holds(raw@),
    ensures
        r == coded_message(raw@, 0, false, false),
{
    let name = chars_of("content-transfer-encoding");
    let mut values: Vec<Vec<char>> = Vec::new();
    values.push(chars_of("base64"));
    values.push(chars_of("quoted-printable"));
    values.push(chars_of("=?"));
    let mut marked: bool = false;
    let mut coded: bool = false;
    let mut i: usize = 0;
    while i < raw.len()
        invariant
            marks.holds(raw@),
            name@ == "content-transfer-encoding"@,
            values@.len() == 3,
            values@[0]@ == "base64"@,
            values@[1]@ == "quoted-printable"@,
            values@[2]@ == "=?"@,
            i <= raw@.len(),
            coded_message(raw@, 0, false, false) == coded_message(raw@, i as int, marked, coded),
        decreases raw@.len() - i,
    {
        marked = is_message(raw, i, marks) || marked;
        coded = is_coded(raw, i, &name, &values) || coded;
        if marked && coded {
            return true;
        }
        if is_separator(raw, i) {
            marked = false;
            coded = false;
        }
        i += 1;
    }
    false
}

/// Whether messages within a message are no danger.
pub fn is_safely_nested(raw: &[u8]) -> (r: bool)
    ensures
        r == nests_safely(raw@),
{
    let marks = Marks::new(raw);
    if !has_nested(raw, &marks) {
        return true;
    }
    !has_hidden(raw, &marks) && !nests_badly(raw, &marks) && !codes_message(raw, &marks)
}

/// The bytes with the types at which the parser would open a message spoiled.
pub fn without_nesting(raw: &[u8]) -> (r: Vec<u8>)
    ensures
        r@ == unnested(raw@),
        nests_safely(r@),
{
    let marks = Marks::new(raw);
    let mut out: Vec<u8> = Vec::new();
    let mut i: usize = 0;
    while i < raw.len()
        invariant
            marks.holds(raw@),
            i <= raw@.len(),
            out@ == unnested(raw@).take(i as int),
        decreases raw@.len() - i,
    {
        let ghost so_far = out@;
        if is_nested(raw, i, &marks) {
            out.push(120);
        } else {
            out.push(raw[i]);
        }
        assert(out@ =~= unnested(raw@).take(i + 1));
        i += 1;
    }
    assert(unnested(raw@).take(i as int) =~= unnested(raw@));
    proof {
        law_unnested_is_safe(raw@);
    }
    out
}

proof fn lemma_past_unnested(raw: Seq<u8>, at: int)
    requires
        0 <= at,
        ({
            let end = past(unnested(raw), at, ByteClass::Quiet);
            end < raw.len() && unnested(raw)[end] != 120u8
        }),
    ensures
        past(raw, at, ByteClass::Quiet) == past(unnested(raw), at, ByteClass::Quiet),
        at <= past(raw, at, ByteClass::Quiet),
    decreases raw.len() - at,
{
    let u = unnested(raw);
    if at < raw.len() && in_bytes(ByteClass::Quiet, u[at] as char) {
        lemma_past_unnested(raw, at + 1);
    }
}

proof fn lemma_before_unnested(raw: Seq<u8>, at: int)
    requires
        0 <= at <= raw.len(),
        ({
            let before = last_before(unnested(raw), at, ByteClass::Quiet);
            before >= 0 && unnested(raw)[before] != 120u8
        }),
    ensures
        last_before(raw, at, ByteClass::Quiet) == last_before(unnested(raw), at, ByteClass::Quiet),
        last_before(raw, at, ByteClass::Quiet) < at,
    decreases at,
{
    let u = unnested(raw);
    if at > 0 && in_bytes(ByteClass::Quiet, u[at - 1] as char) {
        lemma_before_unnested(raw, at - 1);
    }
}

/// Spoiled bytes are letters that do not stand in the name of the field.
proof fn lemma_spoiled_letters(raw: Seq<u8>, at: int)
    requires
        0 <= at < raw.len(),
        unnested(raw)[at] != raw[at],
    ensures
        unnested(raw)[at] == 120u8,
        ({
            let c = ascii_lower(raw[at] as char);
            c == 'r' || c == 'g' || c == 'd'
        }),
{
    lemma_words();
    assert(nested_at(raw, at));
    if subtype_at(raw, at, "rfc822"@) {
        assert(ascii_lower(raw[at + 0] as char) == "rfc822"@[0]);
    } else if subtype_at(raw, at, "global"@) {
        assert(ascii_lower(raw[at + 0] as char) == "global"@[0]);
    } else {
        assert(ascii_lower(raw[at + 0] as char) == "digest"@[0]);
    }
}

proof fn lemma_field_unnested(raw: Seq<u8>, at: int, name: Seq<char>)
    requires
        forall|k: int|
            0 <= k < name.len() ==> {
                &&& #[trigger] name[k] != 'r'
                &&& name[k] != 'g'
                &&& name[k] != 'd'
                &&& name[k] != 'x'
            },
    ensures
        field_end(unnested(raw), at, name) == field_end(raw, at, name),
    decreases raw.len() - at,
{
    let u = unnested(raw);
    if 0 <= at < raw.len() {
        let rest = name.drop_first();
        if name.len() > 0 {
            assert forall|k: int| 0 <= k < rest.len() implies {
                &&& #[trigger] rest[k] != 'r'
                &&& rest[k] != 'g'
                &&& rest[k] != 'd'
                &&& rest[k] != 'x'
            } by {
                assert(rest[k] == name[k + 1]);
            }
            lemma_field_unnested(raw, at + 1, rest);
            assert(name[0] == name.first());
        }
        lemma_field_unnested(raw, at + 1, name);
        if u[at] != raw[at] {
            lemma_spoiled_letters(raw, at);
        }
    }
}

proof fn lemma_value_unnested(raw: Seq<u8>, at: int)
    ensures
        value_end(unnested(raw), at) == value_end(raw, at),
    decreases raw.len() - at,
{
    let u = unnested(raw);
    if 0 <= at < raw.len() {
        lemma_value_unnested(raw, at + 1);
        if u[at] != raw[at] {
            lemma_spoiled_letters(raw, at);
        }
        if at + 1 < raw.len() && u[at + 1] != raw[at + 1] {
            lemma_spoiled_letters(raw, at + 1);
        }
    }
}

proof fn lemma_type_unnested(raw: Seq<u8>, at: int)
    requires
        at < raw.len(),
    ensures
        type_end(unnested(raw), at) == type_end(raw, at),
    decreases at + 1,
{
    if at >= 0 {
        let name = "content-type"@;
        reveal_strlit("content-type");
        lemma_field_unnested(raw, at, name);
        if unnested(raw)[at] != raw[at] {
            lemma_spoiled_letters(raw, at);
        }
        if let Some(value) = field_at(raw, at, name) {
            lemma_value_unnested(raw, value);
        }
        lemma_type_unnested(raw, at - 1);
    }
}

proof fn lemma_subtype_unnested(raw: Seq<u8>, at: int, word: Seq<char>)
    requires
        subtype_at(unnested(raw), at, word),
        word.len() > 0,
        forall|k: int| 0 <= k < word.len() ==> #[trigger] word[k] != 'x',
    ensures
        subtype_at(raw, at, word),
        !nested_at(raw, at),
        0 <= at < raw.len(),
{
    let u = unnested(raw);
    assert forall|k: int| 0 <= k < word.len() implies ascii_lower(raw[at + k] as char)
        == #[trigger] word[k] && u[at + k] == raw[at + k] by {
        assert(ascii_lower(u[at + k] as char) == word[k]);
    }
    assert(word[0] != 'x');
    assert(u[at + 0] == raw[at + 0]);
    lemma_past_unnested(raw, at + word.len());
    lemma_before_unnested(raw, at);
    assert(ascii_lower(u[at + 0] as char) == word[0]);
}

proof fn lemma_subtype_is_spoiled(raw: Seq<u8>, at: int, word: Seq<char>)
    requires
        word.len() > 0,
        forall|k: int| 0 <= k < word.len() ==> #[trigger] word[k] != 'x',
        in_type(raw, at) && subtype_at(raw, at, word) ==> nested_at(raw, at),
    ensures
        !(in_type(unnested(raw), at) && subtype_at(unnested(raw), at, word)),
{
    if in_type(unnested(raw), at) && subtype_at(unnested(raw), at, word) {
        lemma_subtype_unnested(raw, at, word);
        lemma_type_unnested(raw, at);
    }
}

proof fn lemma_words()
    ensures
        "rfc822"@.len() == 6,
        "global"@.len() == 6,
        "digest"@.len() == 6,
        forall|k: int| 0 <= k < 6 ==> #[trigger] "rfc822"@[k] != 'x',
        forall|k: int| 0 <= k < 6 ==> #[trigger] "global"@[k] != 'x',
        forall|k: int| 0 <= k < 6 ==> #[trigger] "digest"@[k] != 'x',
        "rfc822"@[0] == 'r',
        "global"@[0] == 'g',
        "digest"@[0] == 'd',
{
    reveal_strlit("rfc822");
    reveal_strlit("global");
    reveal_strlit("digest");
}

/// Once the types of messages are spoiled, nothing is nested.
pub proof fn law_unnested_is_safe(raw: Seq<u8>)
    ensures
        nests_safely(unnested(raw)),
        unnested(raw).len() == raw.len(),
{
    let u = unnested(raw);
    lemma_words();
    assert forall|i: int| 0 <= i < u.len() implies !#[trigger] nested_at(u, i) by {
        lemma_subtype_is_spoiled(raw, i, "rfc822"@);
        lemma_subtype_is_spoiled(raw, i, "global"@);
        lemma_subtype_is_spoiled(raw, i, "digest"@);
    }
}

fn has_extreme_number(raw: &[u8]) -> (r: bool)
    ensures
        r == extreme_number(raw@, 0, false),
{
    let name = chars_of("received");
    let digits = chars_of("9223372036854775808");
    let mut inside: bool = false;
    let mut i: usize = 0;
    while i < raw.len()
        invariant
            name@ == "received"@,
            digits@ == "9223372036854775808"@,
            i <= raw@.len(),
            extreme_number(raw@, 0, false) == extreme_number(raw@, i as int, inside),
        decreases raw@.len() - i,
    {
        let here: bool = inside || find_field(raw, i, &name).is_some();
        if here && raw[i] as char == '-' {
            let first: usize = skip(raw, i + 1, ByteClass::Zero);
            if begins_at(raw, first, &digits) {
                return true;
            }
        }
        inside = here && !ends_value(raw, i);
        i += 1;
    }
    false
}

fn is_body(raw: &[u8], at: usize) -> (r: bool)
    requires
        at <= raw@.len(),
    ensures
        r == body_at(raw@, at as int),
{
    if at == 0 || raw[at - 1] as char != '\n' {
        return false;
    }
    match skip_back(raw, at - 1, ByteClass::Space) {
        Some(line) => raw[line] as char == '\n',
        None => false,
    }
}

fn is_empty_before_boundary(raw: &[u8], at: usize, hyphens: &Vec<char>) -> (r: bool)
    requires
        at <= raw@.len(),
        hyphens@ == "--"@,
    ensures
        r == empty_before_boundary(raw@, at as int, true),
{
    let mut i: usize = at;
    let mut room: bool = true;
    while i < raw.len()
        invariant
            hyphens@ == "--"@,
            at <= i <= raw@.len(),
            empty_before_boundary(raw@, at as int, true) == empty_before_boundary(
                raw@,
                i as int,
                room,
            ),
        decreases raw@.len() - i,
    {
        let c: char = raw[i] as char;
        if is_in(ByteClass::Space, c) {
            i += 1;
        } else if c == '=' {
            let next: usize = skip(raw, i + 1, ByteClass::Space);
            if next >= raw.len() {
                return false;
            }
            if raw[next] as char == '\n' {
                if begins_at(raw, next + 1, hyphens) {
                    return true;
                }
                i = next + 1;
            } else {
                let last: usize = skip(raw, next + 1, ByteClass::Return);
                if !room || last >= raw.len() {
                    return false;
                }
                room = false;
                i = last + 1;
            }
        } else {
            if !room {
                return false;
            }
            room = false;
            i += 1;
        }
    }
    false
}

/// Whether the bytes of a mail hold nothing else that stops the parser.
pub fn is_safely_read(raw: &[u8]) -> (r: bool)
    ensures
        r == reads_safely(raw@),
{
    if raw.len() > 0x7FFF_FFFF || has_extreme_number(raw) {
        return false;
    }
    let hyphens = chars_of("--");
    let mut i: usize = 0;
    while i <= raw.len()
        invariant
            hyphens@ == "--"@,
            raw@.len() <= 0x7FFF_FFFF,
            i <= raw@.len() + 1,
            forall|k: int|
                0 <= k < i ==> !(#[trigger] body_at(raw@, k) && empty_before_boundary(raw@, k, true)),
        decreases raw@.len() + 1 - i,
    {
        if is_body(raw, i) && is_empty_before_boundary(raw, i, &hyphens) {
            return false;
        }
        i += 1;
    }
    true
}

} // verus!
