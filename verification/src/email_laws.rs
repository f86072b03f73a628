//! What holds of mail that is read, and of the rules that tell list mail from other mail.
#[allow(unused_imports)]
use crate::config::{LimitsConfig, MailingListConfig};
#[allow(unused_imports)]
use crate::dates::is_date;
#[allow(unused_imports)]
use crate::email::{
    attachment_of, bridge_origin_of, byte_length, byte_prefix, candidates_of, clean_id, clean_ids,
    domain_matches, email_of, first_mailbox, first_places, in_domain, in_reply_to_of, is_list_mail,
    kept_attachments, law_first_places_are_distinct, limited_html, limited_plain, list_id_in,
    list_id_of, lowercase, message_id_of, plain_body_of, reference_ids, references_of, reply_id,
    root_among, threaded, sender_matches, sender_of, AttachmentView, EmailView,
};
#[allow(unused_imports)]
use crate::html_clean::{or_empty, plain_of, rendered};
#[allow(unused_imports)]
use crate::html_scan::renderable;
#[allow(unused_imports)]
use crate::mail::{
    ascii_lower, field_text, given_bytes, last_field, message_of, parsed_attachments, parsed_date,
    parsed_headers, parsed_html, parsed_text, same_name, FieldView, HeaderView, MailView, MailboxView,
    PartView,
};
#[allow(unused_imports)]
use crate::mail_scan::{nests_safely, reads_safely};
#[allow(unused_imports)]
use crate::records::DbView;
#[allow(unused_imports)]
use crate::text::{
    decimal, drop_leading, drop_trailing, in_class, is_white, lemma_drop_leading,
    lemma_drop_trailing, occurs, text_words, trimmed, CharClass,
};
#[allow(unused_imports)]
use crate::text_laws::{
    all_white, law_occurrence, law_trimming_cuts_white_ends, law_trimming_finds_the_core,
};
use vstd::prelude::*;

verus! {

/// Names of fields are the same if they have as many characters, and each of them is the other's but
/// for the case of an ASCII letter.
pub proof fn law_field_names(a: Seq<char>, b: Seq<char>, c: char)
    ensures
        same_name(a, b) <==> a.len() == b.len() && forall|i: int|
            0 <= i < a.len() ==> ascii_lower(#[trigger] a[i]) == ascii_lower(b[i]),
        'A' <= c <= 'Z' ==> ascii_lower(c) as u32 == c as u32 + 32,
        !('A' <= c <= 'Z') ==> ascii_lower(c) == c,
{
    let x = a.map_values(|c: char| ascii_lower(c));
    let y = b.map_values(|c: char| ascii_lower(c));
    assert(x.len() == a.len() && y.len() == b.len());
    if same_name(a, b) {
        assert(x == y);
        assert forall|i: int| 0 <= i < a.len() implies ascii_lower(#[trigger] a[i]) == ascii_lower(
            b[i],
        ) by {
            assert(x[i] == y[i]);
        }
    }
    if a.len() == b.len() && forall|i: int|
        0 <= i < a.len() ==> ascii_lower(#[trigger] a[i]) == ascii_lower(b[i]) {
        assert(x =~= y);
    }
}

/// The field that is found has the name, and no later field has it; where none is found none has it.
pub proof fn law_last_field_wins(headers: Seq<HeaderView>, name: Seq<char>)
    ensures
        match last_field(headers, name) {
            Some(value) => exists|i: int|
                {
                    &&& 0 <= i < headers.len()
                    &&& (#[trigger] headers[i]).value == value
                    &&& same_name(headers[i].name, name)
                    &&& forall|j: int|
                        i < j < headers.len() ==> !same_name((#[trigger] headers[j]).name, name)
                },
            None => forall|j: int|
                0 <= j < headers.len() ==> !same_name((#[trigger] headers[j]).name, name),
        },
    decreases headers.len(),
{
    if headers.len() > 0 {
        let head = headers.drop_last();
        let n = headers.len() - 1;
        law_last_field_wins(head, name);
        if same_name(headers[n].name, name) {
            assert(headers[n].value == headers.last().value);
        } else {
            match last_field(head, name) {
                Some(value) => {
                    let i = choose|i: int|
                        {
                            &&& 0 <= i < head.len()
                            &&& (#[trigger] head[i]).value == value
                            &&& same_name(head[i].name, name)
                            &&& forall|j: int|
                                i < j < head.len() ==> !same_name((#[trigger] head[j]).name, name)
                        };
                    assert(headers[i] == head[i]);
                    assert forall|j: int| i < j < headers.len() implies !same_name(
                        (#[trigger] headers[j]).name,
                        name,
                    ) by {
                        if j < n {
                            assert(head[j] == headers[j]);
                        }
                    }
                },
                None => {
                    assert forall|j: int| 0 <= j < headers.len() implies !same_name(
                        (#[trigger] headers[j]).name,
                        name,
                    ) by {
                        if j < n {
                            assert(head[j] == headers[j]);
                        }
                    }
                },
            }
        }
    }
}

/// The text of a field is its text, or the last of its texts; other values have none.
pub proof fn law_text_of_a_field(t: Seq<char>, list: Seq<Seq<char>>)
    ensures
        field_text(Some(FieldView::Text(t))) == Some(t),
        field_text(Some(FieldView::TextList(list.push(t)))) == Some(t),
        field_text(Some(FieldView::TextList(Seq::<Seq<char>>::empty()))) is None,
        field_text(Some(FieldView::Other)) is None,
        field_text(None) is None,
{
}

/// Mail that the parser can read as it is, is read as it is.
pub proof fn law_safe_mail_is_read_whole(raw: Seq<u8>)
    requires
        nests_safely(raw),
        reads_safely(raw),
    ensures
        given_bytes(raw) == raw,
        parsed_headers(raw) is None ==> message_of(raw) is None,
        parsed_headers(raw) is Some ==> {
            &&& message_of(raw) is Some
            &&& message_of(raw)->0.headers == parsed_headers(raw)->0
            &&& message_of(raw)->0.date == parsed_date(raw)
            &&& message_of(raw)->0.body_text == parsed_text(raw)
            &&& message_of(raw)->0.body_html == parsed_html(raw)
            &&& message_of(raw)->0.attachments == parsed_attachments(raw)
        },
{
}

/// An identifier that is neither empty nor begins or ends with white space or its own brackets is what
/// is left of it in angle brackets, with white space around them.
pub proof fn law_brackets_are_taken_off(a: Seq<char>, core: Seq<char>, b: Seq<char>)
    requires
        all_white(a),
        all_white(b),
        core.len() > 0,
        !is_white(core.first()) && core.first() != '<',
        !is_white(core.last()) && core.last() != '>',
    ensures
        clean_id(a + core + b) == core,
        clean_id(a + (seq!['<'] + core + seq!['>']) + b) == core,
{
    law_trimming_finds_the_core(a, core, b);
    lemma_clean_core(core);
    let full = seq!['<'] + core + seq!['>'];
    law_trimming_finds_the_core(a, full, b);
    let open = CharClass::Only('<');
    let close = CharClass::Only('>');
    assert(full.drop_first() =~= core + seq!['>']);
    assert(full.first() == '<');
    let t = core + seq!['>'];
    assert(t.first() == core.first());
    assert(drop_leading(t, open) == t);
    assert(drop_leading(full, open) == t);
    assert(t.drop_last() =~= core);
    assert(t.last() == '>');
    assert(drop_trailing(core, close) == core);
    assert(drop_trailing(t, close) == core);
}

proof fn lemma_clean_core(core: Seq<char>)
    requires
        core.len() > 0,
        core.first() != '<',
        core.last() != '>',
    ensures
        drop_leading(core, CharClass::Only('<')) == core,
        drop_trailing(core, CharClass::Only('>')) == core,
{
}

/// A cleaned identifier is a piece of the text; what is cut off is white space or the bracket of that
/// end, and no bracket of that end is left.
pub proof fn law_cleaning_cuts_brackets_only(id: Seq<char>)
    ensures
        exists|i: int, j: int|
            {
                &&& 0 <= i <= j <= id.len()
                &&& clean_id(id) == #[trigger] id.subrange(i, j)
                &&& forall|k: int| 0 <= k < i ==> is_white(#[trigger] id[k]) || id[k] == '<'
                    || id[k] == '>'
                &&& forall|k: int| j <= k < id.len() ==> is_white(#[trigger] id[k]) || id[k] == '>'
            },
        clean_id(id).len() > 0 ==> clean_id(id).first() != '<' && clean_id(id).last() != '>',
{
    let t = trimmed(id);
    let open = CharClass::Only('<');
    let close = CharClass::Only('>');
    let u = drop_leading(t, open);
    law_trimming_cuts_white_ends(id);
    let (i, j) = choose|i: int, j: int|
        {
            &&& 0 <= i <= j <= id.len()
            &&& t == #[trigger] id.subrange(i, j)
            &&& forall|k: int| 0 <= k < i || j <= k < id.len() ==> is_white(#[trigger] id[k])
            &&& i < j ==> !is_white(id[i]) && !is_white(id[j - 1])
        };
    lemma_drop_leading(t, open);
    lemma_drop_trailing(u, close);
    let p = i + (t.len() - u.len());
    let q = p + clean_id(id).len();
    assert(clean_id(id) =~= id.subrange(p, q));
    assert forall|k: int| 0 <= k < p implies is_white(#[trigger] id[k]) || id[k] == '<' || id[k]
        == '>' by {
        if k >= i {
            assert(t[k - i] == id[k]);
            assert(in_class(open, t[k - i]));
        }
    }
    assert forall|k: int| q <= k < id.len() implies is_white(#[trigger] id[k]) || id[k] == '>' by {
        if k < j {
            assert(u[k - p] == t[k - i]);
            assert(t[k - i] == id[k]);
            assert(in_class(close, u[k - p]));
        }
    }
    if clean_id(id).len() > 0 {
        assert(clean_id(id).first() == u.first());
        assert(!in_class(open, u.first()));
        assert(!in_class(close, clean_id(id).last()));
    }
}

/// The identifiers of two lists in a row are those of the one and then those of the other. Of a single
/// text its identifier is kept, unless nothing is left of it.
pub proof fn law_identifiers_in_a_row(a: Seq<Seq<char>>, b: Seq<Seq<char>>, one: Seq<char>)
    ensures
        clean_ids(a + b) == clean_ids(a) + clean_ids(b),
        clean_ids(seq![one]) == (if clean_id(one).len() > 0 {
            seq![clean_id(one)]
        } else {
            Seq::<Seq<char>>::empty()
        }),
    decreases b.len(),
{
    assert(seq![one].drop_last() =~= Seq::<Seq<char>>::empty());
    assert(clean_ids(Seq::<Seq<char>>::empty()) == Seq::<Seq<char>>::empty());
    assert(clean_ids(seq![one]) =~= (if clean_id(one).len() > 0 {
        seq![clean_id(one)]
    } else {
        Seq::<Seq<char>>::empty()
    }));
    if b.len() == 0 {
        assert(a + b =~= a);
        assert(clean_ids(a) + clean_ids(b) =~= clean_ids(a));
    } else {
        assert((a + b).drop_last() =~= a + b.drop_last());
        law_identifiers_in_a_row(a, b.drop_last(), one);
        assert(clean_ids(a + b) =~= clean_ids(a) + clean_ids(b));
    }
}

/// The references of a header are those of its References fields in their order: of a text, its words;
/// of a list, its texts. Other fields have none.
pub proof fn law_references_in_a_row(
    a: Seq<HeaderView>,
    b: Seq<HeaderView>,
    field: HeaderView,
    t: Seq<char>,
    list: Seq<Seq<char>>,
)
    ensures
        references_of(a + b) == references_of(a) + references_of(b),
        !same_name(field.name, "References"@) ==> references_of(seq![field]) == Seq::<
            Seq<char>,
        >::empty(),
        same_name(field.name, "References"@) && field.value == FieldView::Text(t) ==> references_of(
            seq![field],
        ) == clean_ids(text_words(t)),
        same_name(field.name, "References"@) && field.value == FieldView::TextList(list)
            ==> references_of(seq![field]) == clean_ids(list),
    decreases b.len(),
{
    let none = Seq::<HeaderView>::empty();
    assert(seq![field].drop_last() =~= none);
    assert(references_of(none) == Seq::<Seq<char>>::empty());
    assert(Seq::<Seq<char>>::empty() + reference_ids(field.value) =~= reference_ids(field.value));
    if b.len() == 0 {
        assert(a + b =~= a);
        assert(references_of(a) + references_of(b) =~= references_of(a));
    } else {
        assert((a + b).drop_last() =~= a + b.drop_last());
        law_references_in_a_row(a, b.drop_last(), field, t, list);
        assert(references_of(a + b) =~= references_of(a) + references_of(b));
    }
}

/// The identifier in a field of answers: that of its text, or of the first of its texts, if anything
/// is left of it.
pub proof fn law_answered_identifier(t: Seq<char>, rest: Seq<Seq<char>>)
    ensures
        clean_id(t).len() > 0 ==> reply_id(FieldView::Text(t)) == Some(clean_id(t)),
        clean_id(t).len() > 0 ==> reply_id(FieldView::TextList(seq![t] + rest)) == Some(clean_id(t)),
        clean_id(t).len() == 0 ==> reply_id(FieldView::Text(t)) is None,
        reply_id(FieldView::Other) is None,
{
    assert((seq![t] + rest).first() == t);
}

/// A mail answers the message of its first In-Reply-To field that has an identifier; without such a
/// field it answers none.
pub proof fn law_first_answer_counts(headers: Seq<HeaderView>)
    ensures
        match in_reply_to_of(headers) {
            Some(id) => exists|i: int|
                {
                    &&& 0 <= i < headers.len()
                    &&& reply_id((#[trigger] headers[i]).value) == Some(id)
                    &&& same_name(headers[i].name, "In-Reply-To"@)
                    &&& forall|j: int|
                        0 <= j < i && same_name((#[trigger] headers[j]).name, "In-Reply-To"@)
                            ==> reply_id(headers[j].value) is None
                },
            None => forall|j: int|
                0 <= j < headers.len() && same_name((#[trigger] headers[j]).name, "In-Reply-To"@)
                    ==> reply_id(headers[j].value) is None,
        },
    decreases headers.len(),
{
    if headers.len() > 0 {
        let rest = headers.drop_first();
        law_first_answer_counts(rest);
        if same_name(headers[0].name, "In-Reply-To"@) && reply_id(headers[0].value) is Some {
            assert(reply_id(headers[0].value) == in_reply_to_of(headers));
        } else {
            match in_reply_to_of(rest) {
                Some(id) => {
                    let i = choose|i: int|
                        {
                            &&& 0 <= i < rest.len()
                            &&& reply_id((#[trigger] rest[i]).value) == Some(id)
                            &&& same_name(rest[i].name, "In-Reply-To"@)
                            &&& forall|j: int|
                                0 <= j < i && same_name((#[trigger] rest[j]).name, "In-Reply-To"@)
                                    ==> reply_id(rest[j].value) is None
                        };
                    assert(headers[i + 1] == rest[i]);
                    assert forall|j: int|
                        0 <= j < i + 1 && same_name(
                            (#[trigger] headers[j]).name,
                            "In-Reply-To"@,
                        ) implies reply_id(headers[j].value) is None by {
                        if j > 0 {
                            assert(rest[j - 1] == headers[j]);
                        }
                    }
                },
                None => {
                    assert forall|j: int|
                        0 <= j < headers.len() && same_name(
                            (#[trigger] headers[j]).name,
                            "In-Reply-To"@,
                        ) implies reply_id(headers[j].value) is None by {
                        if j > 0 {
                            assert(rest[j - 1] == headers[j]);
                        }
                    }
                },
            }
        }
    }
}

/// A mail comes through the list of its first List-Id field that has an identifier: the text of the
/// field, or the address of the first mailbox in its first group.
pub proof fn law_first_list_id_counts(headers: Seq<HeaderView>)
    ensures
        match list_id_of(headers) {
            Some(id) => exists|i: int|
                {
                    &&& 0 <= i < headers.len()
                    &&& list_id_in((#[trigger] headers[i]).value) == Some(id)
                    &&& same_name(headers[i].name, "List-Id"@)
                    &&& forall|j: int|
                        0 <= j < i && same_name((#[trigger] headers[j]).name, "List-Id"@)
                            ==> list_id_in(headers[j].value) is None
                },
            None => forall|j: int|
                0 <= j < headers.len() && same_name((#[trigger] headers[j]).name, "List-Id"@)
                    ==> list_id_in(headers[j].value) is None,
        },
    decreases headers.len(),
{
    if headers.len() > 0 {
        let rest = headers.drop_first();
        law_first_list_id_counts(rest);
        if same_name(headers[0].name, "List-Id"@) && list_id_in(headers[0].value) is Some {
            assert(list_id_in(headers[0].value) == list_id_of(headers));
        } else {
            match list_id_of(rest) {
                Some(id) => {
                    let i = choose|i: int|
                        {
                            &&& 0 <= i < rest.len()
                            &&& list_id_in((#[trigger] rest[i]).value) == Some(id)
                            &&& same_name(rest[i].name, "List-Id"@)
                            &&& forall|j: int|
                                0 <= j < i && same_name((#[trigger] rest[j]).name, "List-Id"@)
                                    ==> list_id_in(rest[j].value) is None
                        };
                    assert(headers[i + 1] == rest[i]);
                    assert forall|j: int|
                        0 <= j < i + 1 && same_name(
                            (#[trigger] headers[j]).name,
                            "List-Id"@,
                        ) implies list_id_in(headers[j].value) is None by {
                        if j > 0 {
                            assert(rest[j - 1] == headers[j]);
                        }
                    }
                },
                None => {
                    assert forall|j: int|
                        0 <= j < headers.len() && same_name(
                            (#[trigger] headers[j]).name,
                            "List-Id"@,
                        ) implies list_id_in(headers[j].value) is None by {
                        if j > 0 {
                            assert(rest[j - 1] == headers[j]);
                        }
                    }
                },
            }
        }
    }
}

/// The identifier in a List-Id field.
pub proof fn law_identifier_of_a_list(
    t: Seq<char>,
    first: MailboxView,
    group: Seq<MailboxView>,
    groups: Seq<Seq<MailboxView>>,
)
    ensures
        list_id_in(FieldView::Text(t)) == Some(t),
        list_id_in(FieldView::Addresses(seq![seq![first] + group] + groups)) == first.address,
        list_id_in(FieldView::Other) is None,
{
    let all = seq![seq![first] + group] + groups;
    assert(all.first() == seq![first] + group);
    assert(all.first().first() == first);
}

/// The first mailbox is that of the first group that is not empty.
pub proof fn law_first_mailbox(groups: Seq<Seq<MailboxView>>)
    ensures
        match first_mailbox(groups) {
            Some(m) => exists|i: int|
                {
                    &&& 0 <= i < groups.len()
                    &&& (#[trigger] groups[i]).len() > 0
                    &&& groups[i][0] == m
                    &&& forall|j: int| 0 <= j < i ==> (#[trigger] groups[j]).len() == 0
                },
            None => forall|j: int| 0 <= j < groups.len() ==> (#[trigger] groups[j]).len() == 0,
        },
    decreases groups.len(),
{
    if groups.len() > 0 {
        let rest = groups.drop_first();
        law_first_mailbox(rest);
        if groups[0].len() == 0 {
            match first_mailbox(rest) {
                Some(m) => {
                    let i = choose|i: int|
                        {
                            &&& 0 <= i < rest.len()
                            &&& (#[trigger] rest[i]).len() > 0
                            &&& rest[i][0] == m
                            &&& forall|j: int| 0 <= j < i ==> (#[trigger] rest[j]).len() == 0
                        };
                    assert(groups[i + 1] == rest[i]);
                    assert forall|j: int| 0 <= j < i + 1 implies (#[trigger] groups[j]).len()
                        == 0 by {
                        if j > 0 {
                            assert(rest[j - 1] == groups[j]);
                        }
                    }
                },
                None => {
                    assert forall|j: int| 0 <= j < groups.len() implies (#[trigger] groups[j]).len()
                        == 0 by {
                        if j > 0 {
                            assert(rest[j - 1] == groups[j]);
                        }
                    }
                },
            }
        } else {
            assert(groups[0][0] == groups.first().first());
        }
    }
}

/// The sender is the first mailbox of the last From field, under its name and its address; where there
/// is no such field, no mailbox or no address, the address is unknown.
pub proof fn law_sender(headers: Seq<HeaderView>, groups: Seq<Seq<MailboxView>>, m: MailboxView)
    ensures
        last_field(headers, "From"@) == Some(FieldView::Addresses(groups)) && first_mailbox(groups)
            == Some(m) ==> sender_of(headers).0 == m.name && (m.address matches Some(a) ==> sender_of(
            headers,
        ).1 == a) && (m.address is None ==> sender_of(headers).1 == "unknown"@),
        last_field(headers, "From"@) is None ==> sender_of(headers) == (
            None::<Seq<char>>,
            "unknown"@,
        ),
{
}

/// The bridge's mark is read without the white space around it and in lower case, and only from a
/// text.
pub proof fn law_mark_of_the_bridge(headers: Seq<HeaderView>, t: Seq<char>)
    ensures
        last_field(headers, "X-Bridge-Origin"@) == Some(FieldView::Text(t)) && lowercase(
            trimmed(t),
        ).len() > 0 ==> bridge_origin_of(headers) == Some(lowercase(trimmed(t))),
        last_field(headers, "X-Bridge-Origin"@) is None ==> bridge_origin_of(headers) is None,
{
}

/// A cut body is as long as the limit allows: with one more character it would be over it.
pub proof fn law_body_is_not_cut_more(s: Seq<char>, max: nat)
    ensures
        byte_prefix(s, max).len() < s.len() ==> byte_length(
            s.take(byte_prefix(s, max).len() as int + 1),
        ) > max,
    decreases s.len(),
{
    if s.len() > 0 && byte_length(s) > max {
        let t = s.drop_last();
        law_body_is_not_cut_more(t, max);
        let n = byte_prefix(t, max).len() as int;
        lemma_prefix_length(t, max);
        if n < t.len() {
            assert(t.take(n + 1) =~= s.take(n + 1));
        } else {
            assert(s.take(n + 1) =~= s);
        }
    }
}

proof fn lemma_prefix_length(s: Seq<char>, max: nat)
    ensures
        byte_prefix(s, max).len() <= s.len(),
    decreases s.len(),
{
    if s.len() > 0 && byte_length(s) > max {
        lemma_prefix_length(s.drop_last(), max);
    }
}

/// A body within the limit is kept whole. A longer plain body is its beginning and a note that
/// something is missing; a longer HTML body is its beginning alone.
pub proof fn law_bodies_within_limit(s: Seq<char>, max: nat)
    ensures
        byte_length(s) <= max ==> limited_plain(Some(s), max) == Some(s) && limited_html(
            Some(s),
            max,
        ) == Some(s),
        byte_length(s) > max ==> limited_plain(Some(s), max) == Some(
            byte_prefix(s, max) + "\n[truncated]"@,
        ) && limited_html(Some(s), max) == Some(byte_prefix(s, max)),
        limited_plain(None, max) is None,
        limited_html(None, max) is None,
{
}

/// The attachments of two lists in a row are those of the one and then those of the other; of a single
/// part there is one exactly if it is within the limit, with its bytes.
pub proof fn law_attachments_in_a_row(a: Seq<PartView>, b: Seq<PartView>, part: PartView, max: nat)
    ensures
        kept_attachments(a + b, max) == kept_attachments(a, max) + kept_attachments(b, max),
        part.data.len() > max ==> kept_attachments(seq![part], max) == Seq::<
            AttachmentView,
        >::empty(),
        part.data.len() <= max ==> kept_attachments(seq![part], max) == seq![attachment_of(part)],
    decreases b.len(),
{
    assert(seq![part].drop_last() =~= Seq::<PartView>::empty());
    assert(kept_attachments(Seq::<PartView>::empty(), max) == Seq::<AttachmentView>::empty());
    if part.data.len() <= max {
        assert(kept_attachments(seq![part], max) =~= seq![attachment_of(part)]);
    }
    if b.len() == 0 {
        assert(a + b =~= a);
        assert(kept_attachments(a, max) + kept_attachments(b, max) =~= kept_attachments(a, max));
    } else {
        assert((a + b).drop_last() =~= a + b.drop_last());
        law_attachments_in_a_row(a, b.drop_last(), part, max);
        assert(kept_attachments(a + b, max) =~= kept_attachments(a, max) + kept_attachments(b, max));
    }
}

/// An attachment has the bytes of its part, its name or `attachment`, and its media type: the two
/// parts of it with a slash between them, and `octet-stream` for what is missing.
pub proof fn law_attachment_of_a_part(part: PartView)
    ensures
        attachment_of(part).data == part.data,
        part.name is Some ==> attachment_of(part).filename == part.name->0,
        part.name is None ==> attachment_of(part).filename == "attachment"@,
        part.main_type is Some && part.sub_type is Some ==> attachment_of(part).content_type
            == part.main_type->0 + "/"@ + part.sub_type->0,
        part.main_type is Some && part.sub_type is None ==> attachment_of(part).content_type
            == part.main_type->0 + "/"@ + "octet-stream"@,
        part.main_type is None ==> attachment_of(part).content_type == "application/octet-stream"@,
{
}

/// What is read of a mail: the texts of its last Message-ID and Subject fields, its sender, answers,
/// references, list and mark, its date if it is one, its bodies and attachments within the limits, and
/// no thread yet.
pub proof fn law_email_is_read_field_by_field(
    uid: u32,
    mailbox: Seq<char>,
    mail: MailView,
    limits: LimitsConfig,
    t: Seq<char>,
)
    ensures
        ({
            let e = email_of(uid, mailbox, mail, limits);
            &&& e.uid == uid
            &&& e.mailbox == mailbox
            &&& field_text(last_field(mail.headers, "Message-ID"@)) == Some(t) && clean_id(t).len()
                > 0 ==> e.message_id == clean_id(t)
            &&& field_text(last_field(mail.headers, "Message-ID"@)) is None ==> e.message_id
                == "uid-"@ + decimal(uid as nat)
            &&& field_text(last_field(mail.headers, "Subject"@)) == Some(t) ==> e.subject == t
            &&& field_text(last_field(mail.headers, "Subject"@)) is None ==> e.subject
                == "(no subject)"@
            &&& e.in_reply_to == in_reply_to_of(mail.headers)
            &&& e.references == references_of(mail.headers)
            &&& e.from_name == sender_of(mail.headers).0
            &&& e.from_email == sender_of(mail.headers).1
            &&& e.list_id == list_id_of(mail.headers)
            &&& e.bridge_origin == bridge_origin_of(mail.headers)
            &&& mail.date is Some && is_date(mail.date->0) ==> e.date == mail.date
            &&& mail.date is None ==> e.date is None
            &&& mail.body_text == Some(t) && byte_length(t) <= limits.body_limit() ==> e.body_plain
                == Some(t)
            &&& mail.body_html == Some(t) && byte_length(t) <= limits.body_limit() ==> e.body_html
                == Some(t)
            &&& mail.body_text is None ==> e.body_plain is None
            &&& mail.body_html is None ==> e.body_html is None
            &&& e.attachments == kept_attachments(
                mail.attachments,
                limits.attachment_limit() as nat,
            )
            &&& e.thread_root is None
        }),
{
}

/// An address belongs to a domain exactly if it is something, an at sign and the domain: neither a
/// longer domain nor the domain alone will do.
pub proof fn law_domain_of_an_address(user: Seq<char>, domain: Seq<char>, address: Seq<char>)
    ensures
        in_domain(user + seq!['@'] + domain, domain),
        in_domain(address, domain) ==> {
            &&& address.len() > domain.len()
            &&& address[address.len() - domain.len() - 1] == '@'
            &&& address.skip(address.len() - domain.len()) == domain
        },
{
    reveal_strlit("@");
    assert("@"@ =~= seq!['@']);
    let suffix = "@"@ + domain;
    let whole = user + seq!['@'] + domain;
    assert(whole.subrange(whole.len() - suffix.len(), whole.len() as int) =~= suffix);
    if in_domain(address, domain) {
        let n = address.len() - suffix.len();
        let end = address.subrange(n, address.len() as int);
        assert(end =~= suffix);
        assert(end[0] == address[n]);
        assert(suffix[0] == '@');
        assert(address.skip(n + 1) =~= domain) by {
            assert forall|k: int| 0 <= k < domain.len() implies address.skip(n + 1)[k]
                == domain[k] by {
                assert(end[k + 1] == address[n + 1 + k]);
                assert(suffix[k + 1] == domain[k]);
            }
        }
    }
}

/// A configured list identifier that does not occur in the mail's List-Id makes no list mail of it,
/// nor does it where the mail has none, if no other rule is configured. It does where it occurs.
pub proof fn law_mail_of_another_list_is_not_taken(
    email: EmailView,
    config: MailingListConfig,
    wanted: String,
)
    requires
        config.list_id == Some(wanted),
        config.sender_domains is None,
        config.sender_emails is None,
        config.subject_prefix is None,
    ensures
        email.list_id is None ==> !is_list_mail(email, config),
        email.list_id is Some && (forall|a: Seq<char>, b: Seq<char>|
            email.list_id->0 != #[trigger] (a + wanted@ + b)) ==> !is_list_mail(email, config),
        email.list_id is Some && (exists|a: Seq<char>, b: Seq<char>|
            email.list_id->0 == #[trigger] (a + wanted@ + b)) ==> is_list_mail(email, config),
{
    if let Some(id) = email.list_id {
        law_occurrence(id, wanted@, Seq::empty(), Seq::empty());
        if exists|a: Seq<char>, b: Seq<char>| id == #[trigger] (a + wanted@ + b) {
            let (a, b) = choose|a: Seq<char>, b: Seq<char>| id == #[trigger] (a + wanted@ + b);
            law_occurrence(id, wanted@, a, b);
        }
    }
}

/// With sender addresses as the only rule, mail is list mail exactly if its sender is one of them but
/// for the case of letters.
pub proof fn law_only_listed_senders_are_taken(
    email: EmailView,
    config: MailingListConfig,
    emails: Vec<String>,
)
    requires
        config.list_id is None,
        config.sender_domains is None,
        config.sender_emails == Some(emails),
        config.subject_prefix is None,
    ensures
        is_list_mail(email, config) <==> exists|i: int|
            0 <= i < emails@.len() && lowercase(email.from_email) == lowercase(
                #[trigger] emails@[i]@,
            ),
{
    if is_list_mail(email, config) {
        assert(sender_matches(email, config));
    }
    if exists|i: int|
        0 <= i < emails@.len() && lowercase(email.from_email) == lowercase(#[trigger] emails@[i]@) {
        let i = choose|i: int|
            0 <= i < emails@.len() && lowercase(email.from_email) == lowercase(
                #[trigger] emails@[i]@,
            );
        let list = config.sender_emails->0;
        assert(list == emails);
        assert(lowercase(email.from_email) == lowercase(list@[i]@));
        assert(sender_matches(email, config));
    }
}

/// With sender domains as the only rule, mail is list mail exactly if its sender's address, in lower
/// case, is something, an at sign and one of the domains in lower case.
pub proof fn law_only_listed_domains_are_taken(
    email: EmailView,
    config: MailingListConfig,
    domains: Vec<String>,
)
    requires
        config.list_id is None,
        config.sender_domains == Some(domains),
        config.sender_emails is None,
        config.subject_prefix is None,
    ensures
        is_list_mail(email, config) ==> exists|i: int, user: Seq<char>|
            0 <= i < domains@.len() && lowercase(email.from_email) == #[trigger] (user + seq!['@']
                + lowercase(domains@[i]@)),
        forall|i: int, user: Seq<char>|
            0 <= i < domains@.len() && lowercase(email.from_email) == #[trigger] (user + seq!['@']
                + lowercase(domains@[i]@)) ==> is_list_mail(email, config),
{
    let from = lowercase(email.from_email);
    if is_list_mail(email, config) {
        let i = choose|i: int|
            0 <= i < domains@.len() && in_domain(from, lowercase(#[trigger] domains@[i]@));
        let d = lowercase(domains@[i]@);
        law_domain_of_an_address(Seq::empty(), d, from);
        let user = from.take(from.len() - d.len() - 1);
        assert(from =~= user + seq!['@'] + d) by {
            assert forall|k: int| 0 <= k < from.len() implies from[k] == (user + seq!['@'] + d)[k] by {
                if k >= from.len() - d.len() {
                    assert(from.skip(from.len() - d.len())[k - (from.len() - d.len())] == from[k]);
                }
            }
        }
    }
    assert forall|i: int, user: Seq<char>|
        0 <= i < domains@.len() && from == #[trigger] (user + seq!['@'] + lowercase(
            domains@[i]@,
        )) implies is_list_mail(email, config) by {
        law_domain_of_an_address(user, lowercase(domains@[i]@), from);
        let list = config.sender_domains->0;
        assert(list == domains);
        assert(in_domain(from, lowercase(list@[i]@)));
        assert(domain_matches(email, config));
    }
}

/// With a subject prefix as the only rule, mail is list mail exactly if its subject begins with it.
pub proof fn law_only_prefixed_subjects_are_taken(
    email: EmailView,
    config: MailingListConfig,
    prefix: String,
)
    requires
        config.list_id is None,
        config.sender_domains is None,
        config.sender_emails is None,
        config.subject_prefix == Some(prefix),
    ensures
        is_list_mail(email, config) <==> email.subject.len() >= prefix@.len() && email.subject.take(
            prefix@.len() as int,
        ) == prefix@,
{
    if email.subject.len() >= prefix@.len() {
        assert(email.subject.take(prefix@.len() as int) =~= email.subject.subrange(
            0,
            prefix@.len() as int,
        ));
    }
}

/// Mail is list mail exactly if it would be under one of the four rules alone.
pub proof fn law_one_rule_suffices(email: EmailView, config: MailingListConfig)
    ensures
        is_list_mail(email, config) <==> {
            ||| is_list_mail(
                email,
                MailingListConfig {
                    sender_domains: None,
                    sender_emails: None,
                    subject_prefix: None,
                    ..config
                },
            )
            ||| is_list_mail(
                email,
                MailingListConfig {
                    list_id: None,
                    sender_emails: None,
                    subject_prefix: None,
                    ..config
                },
            )
            ||| is_list_mail(
                email,
                MailingListConfig {
                    list_id: None,
                    sender_domains: None,
                    subject_prefix: None,
                    ..config
                },
            )
            ||| is_list_mail(
                email,
                MailingListConfig {
                    list_id: None,
                    sender_domains: None,
                    sender_emails: None,
                    ..config
                },
            )
        },
{
}

/// A text that is new to a list comes last among the first places, and one that is not changes
/// nothing.
pub proof fn law_first_places_grow(list: Seq<Seq<char>>, s: Seq<char>)
    ensures
        first_places(Seq::<Seq<char>>::empty()) == Seq::<Seq<char>>::empty(),
        list.contains(s) ==> first_places(list.push(s)) == first_places(list),
        !list.contains(s) ==> first_places(list.push(s)) == first_places(list).push(s),
{
    law_first_places_are_distinct(list);
    assert(list.push(s).drop_last() =~= list);
}

/// The candidates of a mail are the message that it answers and its references, each once: the message
/// that it answers first, then its references from the newest to the oldest.
pub proof fn law_candidates(email: EmailView, id: Seq<char>)
    ensures
        candidates_of(email).no_duplicates(),
        candidates_of(email).contains(id) <==> email.in_reply_to == Some(id)
            || email.references.contains(id),
        email.in_reply_to is None && email.references.no_duplicates() ==> candidates_of(email)
            == email.references.reverse(),
        email.in_reply_to == Some(id) && email.references.no_duplicates()
            && !email.references.contains(id) ==> candidates_of(email) == seq![id]
            + email.references.reverse(),
{
    let head = match email.in_reply_to {
        Some(i) => seq![i],
        None => Seq::<Seq<char>>::empty(),
    };
    let back = email.references.reverse();
    let all = head + back;
    law_first_places_are_distinct(all);
    assert(all.contains(id) <==> email.in_reply_to == Some(id) || email.references.contains(id)) by {
        if email.references.contains(id) {
            let k = email.references.index_of(id);
            assert(all[head.len() + (email.references.len() - 1 - k)] == id);
        }
        if email.in_reply_to == Some(id) {
            assert(all[0] == id);
        }
        if all.contains(id) {
            let k = all.index_of(id);
            if k >= head.len() {
                assert(email.references[email.references.len() - 1 - (k - head.len())] == id);
            }
        }
    }
    if email.references.no_duplicates() {
        assert(back.no_duplicates());
        if email.in_reply_to is None {
            assert(all =~= back);
            lemma_distinct_places(all);
        } else if email.in_reply_to == Some(id) && !email.references.contains(id) {
            assert forall|i: int, j: int| 0 <= i < j < all.len() implies all[i] != all[j] by {
                let m = email.references.len();
                if i == 0 {
                    assert(all[j] == email.references[m - j]);
                    assert(email.references.contains(email.references[m - j]));
                } else {
                    assert(all[i] == back[i - 1]);
                    assert(all[j] == back[j - 1]);
                }
            }
            lemma_distinct_places(all);
        }
    }
}

proof fn lemma_distinct_places(list: Seq<Seq<char>>)
    requires
        list.no_duplicates(),
    ensures
        first_places(list) == list,
    decreases list.len(),
{
    if list.len() > 0 {
        let head = list.drop_last();
        lemma_distinct_places(head);
        if head.contains(list.last()) {
            let i = head.index_of(list.last());
            assert(list[i] == list[list.len() - 1]);
        }
        assert(first_places(list) =~= list);
    } else {
        assert(first_places(list) =~= list);
    }
}

/// The thread of the first candidate that is known is taken, whatever those after it say.
pub proof fn law_nearest_thread_is_taken(candidates: Seq<Seq<char>>, db: DbView, i: int)
    requires
        0 <= i < candidates.len(),
        db.threads.contains_key(candidates[i]),
        forall|j: int| 0 <= j < i ==> !db.threads.contains_key(#[trigger] candidates[j]),
    ensures
        root_among(candidates, db) == Some(db.threads[candidates[i]].thread_root_id),
    decreases candidates.len(),
{
    if i > 0 {
        let rest = candidates.drop_first();
        assert(!db.threads.contains_key(candidates[0]));
        assert forall|j: int| 0 <= j < i - 1 implies !db.threads.contains_key(#[trigger] rest[j]) by {
            assert(rest[j] == candidates[j + 1]);
        }
        law_nearest_thread_is_taken(rest, db, i - 1);
    }
}

/// The plain body is the mail's own; one that has only HTML is shown as its rendering, and one that
/// has neither is empty.
pub proof fn law_plain_body(email: EmailView, t: Seq<char>)
    ensures
        email.body_plain == Some(t) ==> plain_body_of(email) == t,
        email.body_plain is None && email.body_html == Some(t) && renderable(t) && rendered(t, 80)
            == Some(t) ==> plain_body_of(email) == t,
        email.body_plain is None && email.body_html == Some(t) && renderable(t) && rendered(t, 80)
            is Some ==> plain_body_of(email) == rendered(t, 80)->0,
        email.body_plain is None && email.body_html is None ==> plain_body_of(email).len() == 0,
{
}

/// Looking up the thread of a mail sets its thread and nothing else. A mail that answers a known one
/// belongs to its thread; one of whose candidates none is known has no thread.
pub proof fn law_thread_is_looked_up(email: EmailView, db: DbView, id: Seq<char>)
    ensures
        ({
            let t = threaded(email, db);
            &&& t.uid == email.uid && t.mailbox == email.mailbox && t.message_id == email.message_id
            &&& t.in_reply_to == email.in_reply_to && t.references == email.references
            &&& t.subject == email.subject && t.from_name == email.from_name && t.from_email
                == email.from_email && t.date == email.date && t.list_id == email.list_id
            &&& t.body_plain == email.body_plain && t.body_html == email.body_html && t.attachments
                == email.attachments && t.bridge_origin == email.bridge_origin
            &&& email.in_reply_to == Some(id) && db.threads.contains_key(id) ==> t.thread_root == Some(
                db.threads[id].thread_root_id,
            )
            &&& (forall|x: Seq<char>| #[trigger]
                candidates_of(email).contains(x) ==> !db.threads.contains_key(x)) ==> t.thread_root
                is None
        }),
{
    if email.in_reply_to == Some(id) && db.threads.contains_key(id) {
        crate::email::law_answer_joins_thread(email, db);
    }
    if forall|x: Seq<char>| #[trigger]
        candidates_of(email).contains(x) ==> !db.threads.contains_key(x) {
        crate::email::law_thread_found_iff_known(candidates_of(email), db);
        if root_among(candidates_of(email), db) is Some {
            let i = choose|i: int|
                0 <= i < candidates_of(email).len() && db.threads.contains_key(
                    #[trigger] candidates_of(email)[i],
                );
            assert(candidates_of(email).contains(candidates_of(email)[i]));
        }
    }
}

} // verus!
