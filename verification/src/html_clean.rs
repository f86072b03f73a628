//! HTML made harmless, and HTML made plain.
#[allow(unused_imports)]
use crate::format::{
    escaped, escaped_char, is_inert, law_escaped_text_is_inert, lemma_escaped_first, reveal_entities,
};
use crate::html_scan::{is_renderable, tame};
#[allow(unused_imports)]
use crate::html_scan::{renderable, tamed};
use crate::text::{chars_of, replace_text};
#[allow(unused_imports)]
use crate::text::{occurs, opt_view, replaced};
use vstd::prelude::*;

verus! {

/// What `ammonia::clean` makes of an HTML text.
pub uninterp spec fn sanitized(html: Seq<char>) -> Seq<char>;

/// What `html2text::from_read` makes of an HTML text and a width, `None` where it fails.
pub uninterp spec fn rendered(html: Seq<char>, width: usize) -> Option<Seq<char>>;

/// Calls `ammonia::clean`: HTML with the tags and attributes outside of its default lists taken out.
/// The result depends on the text alone.
#[verifier::external_body]
fn clean_html(html: &str) -> (r: String)
    ensures
        r@ == sanitized(html@),
{
    ammonia::clean(html)
}

/// Calls `html2text::from_read`: the text of an HTML document, wrapped at a width. The result, and
/// whether there is one, depend on the text and the width alone. A document outside of
/// `renderable` is kept from it: on cells over several rows, on numbers that are too large, on
/// preformatted text in a block without width, and on text whose width is not the sum of the widths
/// of its characters, the call can stop the program or not return. The claim is made for a width of
/// 80 columns only.
#[verifier::external_body]
fn render_html(html: &str, width: usize) -> (r: Option<String>)
    requires
        renderable(html@),
        width == 80,
    ensures
        opt_view(r) == rendered(html@, width),
{
    html2text::from_read(html.as_bytes(), width).ok()
}

/// HTML that is safe to show in a room.
pub fn sanitize_html(html: &str) -> (r: String)
    ensures
        r@ == sanitized(html@),
{
    clean_html(html)
}

/// The rendering, or nothing where it failed.
pub open spec fn or_empty(rendering: Option<Seq<char>>) -> Seq<char> {
    match rendering {
        Some(s) => s,
        None => seq![],
    }
}

/// The plain text for a rendering that may have failed.
pub fn rendering_or_empty(rendering: Option<String>) -> (r: String)
    ensures
        r@ == or_empty(opt_view(rendering)),
{
    match rendering {
        Some(s) => s,
        None => String::new(),
    }
}

/// The characters outside of tags. `in_tag` says whether `s` begins inside of one.
pub open spec fn outside_tags(s: Seq<char>, in_tag: bool) -> Seq<char>
    decreases s.len(),
{
    if s.len() == 0 {
        seq![]
    } else if s.first() == '<' {
        outside_tags(s.drop_first(), true)
    } else if s.first() == '>' {
        outside_tags(s.drop_first(), false)
    } else if in_tag {
        outside_tags(s.drop_first(), in_tag)
    } else {
        seq![s.first()] + outside_tags(s.drop_first(), in_tag)
    }
}

/// `s` with six entities decoded, one after the other.
pub open spec fn entities_decoded(s: Seq<char>) -> Seq<char> {
    let a = replaced(s, "&amp;"@, "&"@);
    let b = replaced(a, "&lt;"@, "<"@);
    let c = replaced(b, "&gt;"@, ">"@);
    let d = replaced(c, "&quot;"@, "\""@);
    let e = replaced(d, "&#39;"@, "'"@);
    replaced(e, "&nbsp;"@, " "@)
}

/// HTML without its tags and with the basic entities decoded.
pub fn strip_tags_fallback(html: &str) -> (r: String)
    ensures
        r@ == entities_decoded(outside_tags(html@, false)),
{
    let v = chars_of(html);
    let mut text = String::new();
    let mut in_tag: bool = false;
    let mut i: usize = 0;
    assert(v@.skip(0) =~= v@);
    assert(text@ + outside_tags(v@, false) =~= outside_tags(v@, false));
    while i < v.len()
        invariant
            v@ == html@,
            i <= v@.len(),
            outside_tags(html@, false) == text@ + outside_tags(v@.skip(i as int), in_tag),
        decreases v@.len() - i,
    {
        let c: char = v[i];
        let ghost rest = v@.skip(i as int);
        assert(rest.drop_first() =~= v@.skip(i + 1));
        if c == '<' {
            in_tag = true;
        } else if c == '>' {
            in_tag = false;
        } else if !in_tag {
            let ghost tail = outside_tags(v@.skip(i + 1), in_tag);
            assert(text@.push(c) + tail =~= text@ + (seq![c] + tail));
            text.push(c);
        }
        i += 1;
    }
    assert(v@.skip(i as int).len() == 0);
    assert(text@ + outside_tags(v@.skip(i as int), in_tag) =~= text@);
    proof {
        reveal_strlit("&amp;");
        reveal_strlit("&lt;");
        reveal_strlit("&gt;");
        reveal_strlit("&quot;");
        reveal_strlit("&#39;");
        reveal_strlit("&nbsp;");
    }
    let text = replace_text(text.as_str(), "&amp;", "&");
    let text = replace_text(text.as_str(), "&lt;", "<");
    let text = replace_text(text.as_str(), "&gt;", ">");
    let text = replace_text(text.as_str(), "&quot;", "\"");
    let text = replace_text(text.as_str(), "&#39;", "'");
    replace_text(text.as_str(), "&nbsp;", " ")
}

/// The plain text of an HTML body: its rendering, 80 columns wide, or nothing where that fails. A
/// document that the renderer cannot be given is tamed; if it still cannot be given, the plain text
/// is what stands outside of its tags.
pub open spec fn plain_of(html: Seq<char>) -> Seq<char> {
    if renderable(html) {
        or_empty(rendered(html, 80))
    } else if renderable(tamed(html)) {
        or_empty(rendered(tamed(html), 80))
    } else {
        entities_decoded(outside_tags(html, false))
    }
}

/// The plain text of an HTML body, 80 columns wide; empty where the renderer fails. A document that
/// the renderer cannot be given is tamed first, or else loses its tags.
pub fn html_to_plain(html: &str) -> (r: String)
    ensures
        r@ == plain_of(html@),
{
    if is_renderable(html) {
        return rendering_or_empty(render_html(html, 80));
    }
    let quiet = tame(html);
    if is_renderable(quiet.as_str()) {
        rendering_or_empty(render_html(quiet.as_str(), 80))
    } else {
        strip_tags_fallback(html)
    }
}

/// What is left of HTML once its tags are gone holds no angle bracket, before entities are decoded.
pub proof fn law_no_brackets_outside_tags(s: Seq<char>, in_tag: bool)
    ensures
        !outside_tags(s, in_tag).contains('<'),
        !outside_tags(s, in_tag).contains('>'),
    decreases s.len(),
{
    if s.len() > 0 {
        law_no_brackets_outside_tags(s.drop_first(), true);
        law_no_brackets_outside_tags(s.drop_first(), false);
        let rest = outside_tags(s.drop_first(), in_tag);
        assert forall|c: char| (seq![s.first()] + rest).contains(c) implies c == s.first()
            || rest.contains(c) by {
            let joined = seq![s.first()] + rest;
            let i = joined.index_of(c);
            assert(joined[i] == c);
            if i > 0 {
                assert(rest[i - 1] == c);
            }
        }
    }
}

/// Text without angle brackets has no tags to lose.
pub proof fn law_untagged_text_is_kept(s: Seq<char>)
    requires
        !s.contains('<'),
        !s.contains('>'),
    ensures
        outside_tags(s, false) == s,
    decreases s.len(),
{
    if s.len() > 0 {
        let t = s.drop_first();
        assert(s.contains(s[0]));
        assert forall|c: char| t.contains(c) implies s.contains(c) by {
            let i = t.index_of(c);
            assert(s[i + 1] == c);
        }
        law_untagged_text_is_kept(t);
        assert(outside_tags(s, false) =~= s);
    } else {
        assert(outside_tags(s, false) =~= s);
    }
}

/// A character as it is written in HTML, with the first `n` of `&`, `<`, `>` and `"` as they are.
spec fn part_char(c: char, n: int) -> Seq<char> {
    if (c == '&' && n >= 1) || (c == '<' && n >= 2) || (c == '>' && n >= 3) || (c == '"' && n
        >= 4) {
        seq![c]
    } else {
        escaped_char(c)
    }
}

spec fn part_escaped(s: Seq<char>, n: int) -> Seq<char>
    decreases s.len(),
{
    if s.len() == 0 {
        seq![]
    } else {
        part_char(s.first(), n) + part_escaped(s.drop_first(), n)
    }
}

/// None of the characters is one that escaping changes.
spec fn is_unchanged(s: Seq<char>) -> bool {
    forall|i: int|
        0 <= i < s.len() ==> {
            &&& #[trigger] s[i] != '&'
            &&& s[i] != '<'
            &&& s[i] != '>'
            &&& s[i] != '"'
        }
}

/// What stands unchanged at the start of escaped text stood at the start of the text.
proof fn lemma_unchanged_start(q: Seq<char>, s: Seq<char>, n: int)
    requires
        is_unchanged(q),
        q.is_prefix_of(part_escaped(s, n)),
    ensures
        q.is_prefix_of(s),
    decreases q.len(),
{
    let e = part_escaped(s, n);
    if q.len() > 0 {
        reveal_entities();
        assert(s.len() > 0);
        let c = s.first();
        assert(q[0] == e[0]);
        assert(e[0] == part_char(c, n)[0]);
        assert(part_char(c, n) == seq![c]);
        let r = q.drop_first();
        let t = s.drop_first();
        assert(e.drop_first() =~= part_escaped(t, n));
        assert forall|i: int| 0 <= i < r.len() implies {
            &&& #[trigger] r[i] != '&'
            &&& r[i] != '<'
            &&& r[i] != '>'
            &&& r[i] != '"'
        } by {
            assert(r[i] == q[i + 1]);
        }
        assert(r =~= e.drop_first().subrange(0, r.len() as int)) by {
            assert(q =~= e.subrange(0, q.len() as int));
            assert forall|i: int| 0 <= i < r.len() implies r[i] == e.drop_first()[i] by {
                assert(r[i] == q[i + 1]);
                assert(q[i + 1] == e[i + 1]);
            }
        }
        lemma_unchanged_start(r, t, n);
        assert(r =~= t.subrange(0, r.len() as int));
        assert forall|i: int| 0 <= i < q.len() implies q[i] == s[i] by {
            if i > 0 {
                assert(q[i] == r[i - 1]);
                assert(r[i - 1] == t[i - 1]);
            }
        }
        assert(q =~= s.subrange(0, q.len() as int));
    } else {
        assert(q =~= s.subrange(0, 0));
    }
}

proof fn lemma_occurs_nowhere(s: Seq<char>, pattern: Seq<char>)
    requires
        !occurs(s, pattern),
    ensures
        !pattern.is_prefix_of(s),
        s.len() > 0 ==> !occurs(s.drop_first(), pattern),
{
    if pattern.is_prefix_of(s) {
        assert(s.subrange(0, 0int + pattern.len()) == pattern);
    }
    if s.len() > 0 {
        let t = s.drop_first();
        if occurs(t, pattern) {
            let i = choose|i: int|
                0 <= i <= t.len() - pattern.len() && #[trigger] t.subrange(i, i + pattern.len())
                    == pattern;
            assert(s.subrange(i + 1, i + 1 + pattern.len()) =~= t.subrange(i, i + pattern.len()));
        }
    }
}

proof fn lemma_replaced_nothing(s: Seq<char>, pattern: Seq<char>, with: Seq<char>)
    requires
        !occurs(s, pattern),
    ensures
        replaced(s, pattern, with) == s,
    decreases s.len(),
{
    if s.len() > 0 {
        lemma_occurs_nowhere(s, pattern);
        lemma_replaced_nothing(s.drop_first(), pattern, with);
        assert(replaced(s, pattern, with) =~= s);
    }
}

proof fn lemma_replaced_passes(t: Seq<char>, rest: Seq<char>, pattern: Seq<char>, with: Seq<char>)
    requires
        pattern.len() > 0,
        forall|i: int| 0 <= i < t.len() ==> #[trigger] t[i] != pattern[0],
    ensures
        replaced(t + rest, pattern, with) == t + replaced(rest, pattern, with),
    decreases t.len(),
{
    if t.len() == 0 {
        assert(t + rest =~= rest);
        assert(t + replaced(rest, pattern, with) =~= replaced(rest, pattern, with));
    } else {
        let u = t.drop_first();
        assert forall|i: int| 0 <= i < u.len() implies #[trigger] u[i] != pattern[0] by {
            assert(u[i] == t[i + 1]);
        }
        lemma_replaced_passes(u, rest, pattern, with);
        let s = t + rest;
        assert(s[0] == t[0]);
        assert(!pattern.is_prefix_of(s));
        assert(s.drop_first() =~= u + rest);
        assert(replaced(s, pattern, with) =~= t + replaced(rest, pattern, with));
    }
}

/// An entity, or a character other than `&`, is replaced if it is the pattern, and stays otherwise.
proof fn lemma_replaced_char(e: Seq<char>, rest: Seq<char>, pattern: Seq<char>, with: Seq<char>)
    requires
        pattern.len() >= 2,
        pattern[0] == '&',
        e.len() > 0,
        forall|i: int| 1 <= i < e.len() ==> #[trigger] e[i] != '&',
        e == pattern || e[0] != '&' || (e.len() >= 2 && e[1] != pattern[1]),
    ensures
        replaced(e + rest, pattern, with) == (if e == pattern {
            with
        } else {
            e
        }) + replaced(rest, pattern, with),
{
    let s = e + rest;
    if e == pattern {
        assert(s.subrange(0, pattern.len() as int) =~= pattern);
        assert(s.skip(pattern.len() as int) =~= rest);
    } else if e[0] != '&' {
        lemma_replaced_passes(e, rest, pattern, with);
    } else {
        let t = e.drop_first();
        assert forall|i: int| 0 <= i < t.len() implies #[trigger] t[i] != pattern[0] by {
            assert(t[i] == e[i + 1]);
        }
        lemma_replaced_passes(t, rest, pattern, with);
        assert(s[1] == e[1]);
        assert(!pattern.is_prefix_of(s));
        assert(s.drop_first() =~= t + rest);
        assert(replaced(s, pattern, with) =~= e + replaced(rest, pattern, with));
    }
}

/// To replace `pattern` by `with` decodes the entity that comes next.
spec fn decodes(n: int, pattern: Seq<char>, with: Seq<char>) -> bool {
    ||| pattern == "&amp;"@ && with == "&"@ && n == 0
    ||| pattern == "&lt;"@ && with == "<"@ && n == 1
    ||| pattern == "&gt;"@ && with == ">"@ && n == 2
    ||| pattern == "&quot;"@ && with == "\""@ && n == 3
}

/// Decoding one entity in text in which `n` are decoded already.
proof fn lemma_decode_step(s: Seq<char>, n: int, pattern: Seq<char>, with: Seq<char>)
    requires
        n > 0 ==> !occurs(s, pattern),
        decodes(n, pattern, with),
    ensures
        replaced(part_escaped(s, n), pattern, with) == part_escaped(s, n + 1),
    decreases s.len(),
{
    if s.len() > 0 {
        let c = s.first();
        let t = s.drop_first();
        if n > 0 {
            lemma_occurs_nowhere(s, pattern);
        }
        lemma_decode_step(t, n, pattern, with);
        reveal_entities();
        reveal_strlit("&");
        reveal_strlit("<");
        reveal_strlit(">");
        reveal_strlit("\"");
        assert("&"@ =~= seq!['&']);
        assert("<"@ =~= seq!['<']);
        assert(">"@ =~= seq!['>']);
        assert("\""@ =~= seq!['"']);
        let e = part_char(c, n);
        let rest = part_escaped(t, n);
        if c == '&' && n > 0 {
            let whole = e + rest;
            let q = pattern.drop_first();
            assert(whole.drop_first() =~= rest);
            if pattern.is_prefix_of(whole) {
                assert(pattern =~= whole.subrange(0, pattern.len() as int));
                assert forall|i: int| 0 <= i < q.len() implies q[i] == rest[i] by {
                    assert(q[i] == pattern[i + 1]);
                    assert(pattern[i + 1] == whole[i + 1]);
                }
                assert(q =~= rest.subrange(0, q.len() as int));
                lemma_unchanged_start(q, t, n);
                assert(q =~= t.subrange(0, q.len() as int));
                assert forall|i: int| 0 <= i < pattern.len() implies pattern[i] == s[i] by {
                    if i > 0 {
                        assert(pattern[i] == q[i - 1]);
                        assert(q[i - 1] == t[i - 1]);
                    }
                }
                assert(pattern =~= s.subrange(0, pattern.len() as int));
            }
            assert(replaced(whole, pattern, with) == seq!['&'] + replaced(rest, pattern, with));
        } else {
            assert(e != pattern ==> e[0] != '&' || (e.len() >= 2 && e[1] != pattern[1]));
            lemma_replaced_char(e, rest, pattern, with);
            if e == pattern {
                assert(e[1] == pattern[1]);
                assert(part_char(c, n + 1) == with);
            } else {
                assert(part_char(c, n + 1) == e);
            }
        }
    }
}

proof fn lemma_part_escaped_ends(s: Seq<char>)
    ensures
        part_escaped(s, 0) == escaped(s),
        part_escaped(s, 4) == s,
    decreases s.len(),
{
    if s.len() > 0 {
        let t = s.drop_first();
        lemma_part_escaped_ends(t);
        assert(s =~= seq![s.first()] + t);
        lemma_escaped_first(s.first(), t);
        assert(part_escaped(s, 4) =~= s);
    } else {
        assert(part_escaped(s, 4) =~= s);
    }
}

/// Text that was escaped reads as before once tags are taken out and entities are decoded, unless
/// one of the entities that are decoded after `&amp;` stood in it.
pub proof fn law_escaped_text_is_read_back(s: Seq<char>)
    requires
        !occurs(s, "&lt;"@),
        !occurs(s, "&gt;"@),
        !occurs(s, "&quot;"@),
        !occurs(s, "&#39;"@),
        !occurs(s, "&nbsp;"@),
    ensures
        entities_decoded(outside_tags(escaped(s), false)) == s,
{
    let e = escaped(s);
    law_escaped_text_is_inert(s);
    assert(!e.contains('<'));
    assert(!e.contains('>'));
    law_untagged_text_is_kept(e);
    lemma_part_escaped_ends(s);
    lemma_decode_step(s, 0, "&amp;"@, "&"@);
    lemma_decode_step(s, 1, "&lt;"@, "<"@);
    lemma_decode_step(s, 2, "&gt;"@, ">"@);
    lemma_decode_step(s, 3, "&quot;"@, "\""@);
    lemma_replaced_nothing(s, "&#39;"@, "'"@);
    lemma_replaced_nothing(s, "&nbsp;"@, " "@);
}

/// Text without an ampersand that was escaped reads as before once tags are taken out and entities
/// are decoded.
pub proof fn law_text_without_ampersand_is_read_back(s: Seq<char>)
    requires
        !s.contains('&'),
    ensures
        entities_decoded(outside_tags(escaped(s), false)) == s,
{
    reveal_strlit("&lt;");
    reveal_strlit("&gt;");
    reveal_strlit("&quot;");
    reveal_strlit("&#39;");
    reveal_strlit("&nbsp;");
    assert forall|p: Seq<char>| p.len() > 0 && p[0] == '&' implies !#[trigger] occurs(s, p) by {
        if occurs(s, p) {
            let i = choose|i: int|
                0 <= i <= s.len() - p.len() && #[trigger] s.subrange(i, i + p.len()) == p;
            assert(s.subrange(i, i + p.len())[0] == s[i]);
            assert(s.contains(s[i]));
        }
    }
    law_escaped_text_is_read_back(s);
}

} // verus!
