//! What holds of the scans before documents are rendered and mail is parsed.
#[allow(unused_imports)]
use crate::html_clean::{entities_decoded, or_empty, outside_tags, plain_of, rendered};
#[allow(unused_imports)]
use crate::html_scan::{
    attribute_number, changes_width, has_long_number, has_other_number, has_width_changes, is_modifier,
    long_number_at, lowered, other_number_at, reference, renderable, spans_rows, squeezes_text, tamed,
    tamed_char, tamed_from, width_changes_at,
};
#[allow(unused_imports)]
use crate::mail::{ascii_lower, given_bytes, message_of, parsed_message, restored_subtype};
#[allow(unused_imports)]
use crate::mail_scan::{
    body_at, crowded, empty_before_boundary, extreme_number, last_before, message_at, message_count,
    nested_at, nests_safely, past, reads_safely, separates, subtype_at, unnested, ByteClass,
    NESTING,
};
#[allow(unused_imports)]
use crate::text::{drop_leading, lemma_drop_leading, occurs, CharClass};
use vstd::prelude::*;

verus! {

/// The document has no attributes, no references, no preformatted text and no character whose width
/// depends on its neighbours.
pub open spec fn is_plain_document(html: Seq<char>) -> bool {
    &&& html.len() <= 0x7FFF_FFFF
    &&& forall|i: int|
        0 <= i < html.len() ==> #[trigger] html[i] != '=' && html[i] != '&' && !changes_width(
            ascii_lower(html[i]) as u32 as nat,
        )
    &&& !occurs(lowered(html), "<pre"@)
}

proof fn lemma_no_number(s: Seq<char>, name: Seq<char>)
    requires
        forall|i: int| 0 <= i < s.len() ==> #[trigger] s[i] != '=',
    ensures
        attribute_number(s, name) is None,
{
    if name.is_prefix_of(s) {
        let after = s.skip(name.len() as int);
        let t = drop_leading(after, CharClass::White);
        lemma_drop_leading(after, CharClass::White);
        if t.len() > 0 {
            let k = after.len() - t.len();
            assert(t.first() == after[k]);
            assert(after[k] == s[name.len() + k]);
        }
    }
}

proof fn lemma_plain_characters(html: Seq<char>)
    requires
        is_plain_document(html),
    ensures
        forall|i: int|
            0 <= i < html.len() ==> #[trigger] lowered(html)[i] != '=' && lowered(html)[i] != '&'
                && !changes_width(lowered(html)[i] as u32 as nat),
        lowered(html).len() == html.len(),
{
    let s = lowered(html);
    assert forall|i: int| 0 <= i < html.len() implies #[trigger] s[i] != '=' && s[i] != '&'
        && !changes_width(s[i] as u32 as nat) by {
        assert(s[i] == ascii_lower(html[i]));
        assert(html[i] != '=' && html[i] != '&');
    }
}

/// A plain document is rendered as it is, and taming leaves it as it is.
pub proof fn law_plain_document_is_rendered(html: Seq<char>)
    requires
        is_plain_document(html),
    ensures
        renderable(html),
        plain_of(html) == or_empty(rendered(html, 80)),
        tamed(html) == html,
{
    let s = lowered(html);
    lemma_plain_characters(html);
    assert forall|i: int, name: Seq<char>| 0 <= i <= s.len() implies (#[trigger] attribute_number(
        s.skip(i),
        name,
    )) is None by {
        let t = s.skip(i);
        assert forall|k: int| 0 <= k < t.len() implies #[trigger] t[k] != '=' by {
            assert(t[k] == s[i + k]);
        }
        lemma_no_number(t, name);
    }
    assert forall|i: int| 0 <= i < s.len() implies !width_changes_at(#[trigger] s.skip(i)) by {
        assert(s.skip(i)[0] == s[i]);
        assert(s.skip(i).first() == s[i]);
    }
    assert(!occurs(s, "&zwj;"@)) by {
        reveal_strlit("&zwj;");
        let p = "&zwj;"@;
        if occurs(s, p) {
            let i = choose|i: int|
                0 <= i <= s.len() - p.len() && #[trigger] s.subrange(i, i + p.len()) == p;
            assert(s.subrange(i, i + p.len())[0] == s[i]);
        }
    }
    assert(!has_width_changes(s));
    assert(!spans_rows(s)) by {
        assert forall|i: int, name: Seq<char>, except: Seq<char>| 0 <= i < s.len() implies
            !#[trigger] other_number_at(s.skip(i), name, except) by {
            assert(attribute_number(s.skip(i), name) is None);
        }
    }
    assert forall|i: int, name: Seq<char>, max: nat| 0 <= i < s.len() implies
        !#[trigger] long_number_at(s.skip(i), name, max) by {
        assert(attribute_number(s.skip(i), name) is None);
    }
    assert(!has_long_number(s, "colspan"@, 9));
    assert(!has_long_number(s, "start"@, 18));
    lemma_tame_nothing(html, 0, spans_rows(s), squeezes_text(s));
    assert(html.skip(0) =~= html);
}

proof fn lemma_tame_nothing(html: Seq<char>, at: int, rows: bool, pre: bool)
    requires
        is_plain_document(html),
        0 <= at <= html.len(),
        !pre,
    ensures
        tamed_from(html, lowered(html), at, rows, pre) == html.skip(at),
    decreases html.len() - at,
{
    let low = lowered(html);
    lemma_plain_characters(html);
    if at < html.len() {
        lemma_tame_nothing(html, at + 1, rows, pre);
        let t = low.skip(at);
        assert(t[0] == low[at]);
        assert forall|k: int| 0 <= k < t.len() implies #[trigger] t[k] != '=' by {
            assert(t[k] == low[at + k]);
        }
        lemma_no_number(t, "rowspan"@);
        lemma_no_number(t, "colspan"@);
        lemma_no_number(t, "start"@);
        assert(!changes_width(low[at] as u32 as nat));
        assert(!is_modifier(low[at] as u32 as nat));
        assert(reference(t) is None);
        reveal_strlit("&zwj;");
        if "&zwj;"@.is_prefix_of(t) {
            assert(t.subrange(0, 5)[0] == t[0]);
        }
        assert(tamed_char(html, low, at, rows, pre) == html[at]);
        assert(html.skip(at) =~= seq![html[at]] + html.skip(at + 1));
    } else {
        assert(html.skip(at) =~= Seq::<char>::empty());
    }
}

/// A document with a character whose width depends on its neighbours is kept from the renderer; so is
/// one that is too long to count.
pub proof fn law_changing_characters_are_kept_out(html: Seq<char>, i: int)
    ensures
        0 <= i < html.len() && changes_width(ascii_lower(html[i]) as u32 as nat) ==> !renderable(html),
        html.len() > 0x7FFF_FFFF ==> !renderable(html),
{
    let s = lowered(html);
    assert(s.len() == html.len());
    if 0 <= i < html.len() && changes_width(ascii_lower(html[i]) as u32 as nat) {
        assert(s.skip(i).first() == s[i]);
        assert(width_changes_at(s.skip(i)));
    }
}

/// A document that the renderer cannot be given is tamed, and if that does not help its text is what
/// stands outside of its tags.
pub proof fn law_other_documents(html: Seq<char>)
    requires
        !renderable(html),
    ensures
        renderable(tamed(html)) ==> plain_of(html) == or_empty(rendered(tamed(html), 80)),
        !renderable(tamed(html)) ==> plain_of(html) == entities_decoded(outside_tags(html, false)),
{
}

/// Mail in which no slash and no closing parenthesis stands names no type and is parsed as it is, if
/// it is not too long and has neither hyphens nor equals signs that could mislead the parser.
pub proof fn law_simple_mail_is_parsed(raw: Seq<u8>)
    requires
        raw.len() <= 0x7FFF_FFFF,
        forall|i: int|
            0 <= i < raw.len() ==> #[trigger] raw[i] as char != '/' && raw[i] as char != ')'
                && raw[i] as char != '-',
    ensures
        nests_safely(raw),
        reads_safely(raw),
        message_of(raw) == parsed_message(raw),
{
    assert forall|i: int| 0 <= i < raw.len() implies !#[trigger] nested_at(raw, i) by {}
    lemma_no_extreme(raw, 0, false);
    assert forall|i: int| 0 <= i <= raw.len() implies !(#[trigger] body_at(raw, i)
        && empty_before_boundary(raw, i, true)) by {
        lemma_no_boundary(raw, i, true);
    }
}

proof fn lemma_no_extreme(raw: Seq<u8>, at: int, inside: bool)
    requires
        forall|i: int| 0 <= i < raw.len() ==> #[trigger] raw[i] as char != '-',
        0 <= at,
    ensures
        !extreme_number(raw, at, inside),
    decreases raw.len() - at,
{
    if at < raw.len() {
        assert(raw[at] as char != '-');
        lemma_no_extreme(raw, at + 1, true);
        lemma_no_extreme(raw, at + 1, false);
    }
}

proof fn lemma_no_boundary(raw: Seq<u8>, at: int, room: bool)
    requires
        forall|i: int| 0 <= i < raw.len() ==> #[trigger] raw[i] as char != '-',
    ensures
        !empty_before_boundary(raw, at, room),
    decreases raw.len() - at,
{
    if 0 <= at < raw.len() {
        reveal_strlit("--");
        let next = past(raw, at + 1, ByteClass::Space);
        let last = past(raw, next + 1, ByteClass::Return);
        lemma_no_boundary(raw, at + 1, room);
        lemma_no_boundary(raw, at + 1, false);
        if at < next < raw.len() {
            lemma_no_boundary(raw, next + 1, room);
            if crate::mail_scan::begins(raw, next + 1, "--"@) {
                assert("--"@[0] == '-');
                assert(ascii_lower(raw[next + 1 + 0] as char) == "--"@[0]);
                assert(raw[next + 1] as char != '-');
            }
            if next < last < raw.len() {
                lemma_no_boundary(raw, last + 1, false);
            }
        }
    }
}

/// Spoiling changes nothing but the first letters of types at which the parser would open a message,
/// and it leaves mail without such types as it is.
pub proof fn law_spoiling_is_sparing(raw: Seq<u8>, i: int)
    requires
        0 <= i < raw.len(),
    ensures
        unnested(raw).len() == raw.len(),
        !nested_at(raw, i) ==> unnested(raw)[i] == raw[i],
        nested_at(raw, i) ==> unnested(raw)[i] as char == 'x',
        (forall|k: int| 0 <= k < raw.len() ==> !#[trigger] nested_at(raw, k)) ==> given_bytes(raw)
            == raw,
{
}

/// The type of a message that stands in the same section as another, with no empty line between them,
/// makes the nesting unsafe; so do too many of them.
pub proof fn law_crowded_messages_are_unsafe(raw: Seq<u8>, i: int, j: int)
    requires
        0 <= i < j < raw.len(),
        message_at(raw, i),
        message_at(raw, j),
        forall|k: int| i < k < j ==> !#[trigger] separates(raw, k),
    ensures
        !nests_safely(raw),
{
    assert(nested_at(raw, i));
    lemma_crowd(raw, 0, 0, i, j);
}

proof fn lemma_crowd(raw: Seq<u8>, at: int, near: nat, i: int, j: int)
    requires
        0 <= at <= i < j < raw.len(),
        message_at(raw, i),
        message_at(raw, j),
        forall|k: int| i < k < j ==> !#[trigger] separates(raw, k),
    ensures
        crowded(raw, at, near),
    decreases i - at,
{
    if at < i {
        if message_at(raw, at) {
            lemma_crowd(raw, at + 1, 2, i, j);
        } else if separates(raw, at) && near > 0 {
            lemma_crowd(raw, at + 1, (near - 1) as nat, i, j);
        } else {
            lemma_crowd(raw, at + 1, near, i, j);
        }
    } else {
        lemma_crowd_reaches(raw, i + 1, j, i);
    }
}

proof fn lemma_crowd_reaches(raw: Seq<u8>, at: int, j: int, i: int)
    requires
        0 <= i < at <= j < raw.len(),
        message_at(raw, j),
        forall|k: int| i < k < j ==> !#[trigger] separates(raw, k),
    ensures
        crowded(raw, at, 2),
    decreases j - at,
{
    if at < j && !message_at(raw, at) {
        assert(!separates(raw, at));
        lemma_crowd_reaches(raw, at + 1, j, i);
    }
}

/// Attachments of spoiled types have their types back, and all others keep theirs.
pub proof fn law_types_are_restored(name: Seq<char>)
    ensures
        restored_subtype(Some("xfc822"@)) == Some("rfc822"@),
        restored_subtype(Some("xlobal"@)) == Some("global"@),
        name != "xfc822"@ && name != "xlobal"@ ==> restored_subtype(Some(name)) == Some(name),
        restored_subtype(None) is None,
{
    reveal_strlit("xfc822");
    reveal_strlit("xlobal");
    assert("xfc822"@[1] != "xlobal"@[1]);
}

} // verus!
