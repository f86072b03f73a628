//! What holds of the mail that the bridge sends.
#[allow(unused_imports)]
use crate::config::SmtpConfig;
#[allow(unused_imports)]
use crate::dates::{header_pattern, short_pattern, utc_text};
#[allow(unused_imports)]
use crate::email::clean_id;
#[allow(unused_imports)]
use crate::encoding::{base64_bytes, base64_text, without_breaks, wrapped};
#[allow(unused_imports)]
use crate::format::begins_with_re;
#[allow(unused_imports)]
use crate::smtp_send::{
    answers, attributed_body, body_reads_back, bracketed, bridge_id, envelope_of, first_chars,
    from_display, header_fields, header_value, law_header_ends_at_first_empty_line, mail_subject,
    mail_text, raw_mail, reference_chain, thread_fields, without_controls, ReplyView,
};
#[allow(unused_imports)]
use crate::text::{is_control_char, is_white, joined, one_line, position, trimmed};
#[allow(unused_imports)]
use crate::text_laws::{all_white, law_blank_is_white, law_trimming_finds_the_core};
use vstd::prelude::*;
#[allow(unused_imports)]
use vstd::utf8::encode_utf8;

verus! {

/// The text of a mail ends with the whole message. Before it stands nothing, if the sender has no
/// Matrix ID; else four lines that name the sender, and an empty line.
pub proof fn law_mail_carries_the_whole_message(reply: ReplyView)
    ensures
        attributed_body(reply).len() >= reply.body.len(),
        attributed_body(reply).skip(attributed_body(reply).len() - reply.body.len()) == reply.body,
        (forall|i: int|
            0 <= i < reply.sender_matrix_id.len() ==> is_control_char(
                #[trigger] reply.sender_matrix_id[i],
            )) ==> attributed_body(reply) == reply.body,
        (exists|i: int|
            0 <= i < reply.sender_matrix_id.len() && !is_control_char(
                #[trigger] reply.sender_matrix_id[i],
            )) ==> attributed_body(reply).take(attributed_body(reply).len() - reply.body.len())
            == "[Bridged from Matrix]\nUser: "@ + reply.display_name + "\nMatrix ID: "@
            + reply.sender_matrix_id + "\n---\n\n"@,
{
    let all = attributed_body(reply);
    law_controls_are_left_out(reply.sender_matrix_id, Seq::empty(), 'a');
    lemma_controls_members(reply.sender_matrix_id);
    let head = "[Bridged from Matrix]\nUser: "@ + reply.display_name + "\nMatrix ID: "@
        + reply.sender_matrix_id + "\n---\n\n"@;
    if without_controls(reply.sender_matrix_id).len() == 0 {
        assert(all.skip(0) =~= reply.body);
    } else {
        assert(all =~= head + reply.body);
        assert(all.skip(all.len() - reply.body.len()) =~= reply.body);
        assert(all.take(all.len() - reply.body.len()) =~= head);
    }
}

proof fn lemma_controls_members(s: Seq<char>)
    ensures
        without_controls(s).len() == 0 <==> forall|i: int|
            0 <= i < s.len() ==> is_control_char(#[trigger] s[i]),
    decreases s.len(),
{
    if s.len() > 0 {
        let t = s.drop_last();
        lemma_controls_members(t);
        if without_controls(s).len() == 0 {
            assert forall|i: int| 0 <= i < s.len() implies is_control_char(#[trigger] s[i]) by {
                if i < t.len() {
                    assert(t[i] == s[i]);
                }
            }
        }
        if forall|i: int| 0 <= i < s.len() ==> is_control_char(#[trigger] s[i]) {
            assert forall|i: int| 0 <= i < t.len() implies is_control_char(#[trigger] t[i]) by {
                assert(t[i] == s[i]);
            }
            assert(is_control_char(s[s.len() - 1]));
        }
    }
}

/// After the first empty line of a mail stands its encoded text and the end of the last line, and
/// nothing else.
pub proof fn law_body_follows_the_header(
    config: SmtpConfig,
    reply: ReplyView,
    now: i64,
)
    requires
        forall|i: int|
            0 <= i < header_fields(config, reply, utc_text(now, header_pattern())).len()
                ==> one_line(
                #[trigger] header_fields(config, reply, utc_text(now, header_pattern()))[i],
            ) && header_fields(config, reply, utc_text(now, header_pattern()))[i].len() > 0,
    ensures
        ({
            let raw = raw_mail(config, reply, now);
            let fields = header_fields(config, reply, utc_text(now, header_pattern()));
            position(raw, "\r\n\r\n"@) matches Some(end) && raw.take(end) == joined(fields, "\r\n"@)
                && raw.skip(end + 4) == wrapped(base64_text(encode_utf8(attributed_body(reply))))
                + "\r\n"@
        }),
{
    let fields = header_fields(config, reply, utc_text(now, header_pattern()));
    let body = wrapped(base64_text(encode_utf8(attributed_body(reply))));
    let raw = raw_mail(config, reply, now);
    law_header_ends_at_first_empty_line(fields, body);
    reveal_strlit("\r\n\r\n");
    let h = joined(fields, "\r\n"@);
    assert(raw =~= h + "\r\n\r\n"@ + (body + "\r\n"@));
    assert(raw.take(h.len() as int) =~= h);
    assert(raw.skip(h.len() as int + 4) =~= body + "\r\n"@);
}

/// Control characters are left out and all others are kept, in their order.
pub proof fn law_controls_are_left_out(a: Seq<char>, b: Seq<char>, c: char)
    ensures
        without_controls(a + b) == without_controls(a) + without_controls(b),
        is_control_char(c) ==> without_controls(seq![c]) == Seq::<char>::empty(),
        !is_control_char(c) ==> without_controls(seq![c]) == seq![c],
    decreases b.len(),
{
    assert(seq![c].drop_last() =~= Seq::<char>::empty());
    assert(without_controls(Seq::<char>::empty()) == Seq::<char>::empty());
    assert(!is_control_char(c) ==> without_controls(seq![c]) =~= seq![c]);
    if b.len() == 0 {
        assert(a + b =~= a);
        assert(without_controls(a) + without_controls(b) =~= without_controls(a));
    } else {
        assert((a + b).drop_last() =~= a + b.drop_last());
        law_controls_are_left_out(a, b.drop_last(), c);
        assert(without_controls(a + b) =~= without_controls(a) + without_controls(b));
    }
}

proof fn lemma_no_controls_to_leave_out(s: Seq<char>)
    requires
        forall|i: int| 0 <= i < s.len() ==> !is_control_char(#[trigger] s[i]),
    ensures
        without_controls(s) == s,
    decreases s.len(),
{
    if s.len() > 0 {
        let t = s.drop_last();
        assert forall|i: int| 0 <= i < t.len() implies !is_control_char(#[trigger] t[i]) by {
            assert(t[i] == s[i]);
        }
        lemma_no_controls_to_leave_out(t);
        assert(!is_control_char(s[s.len() - 1]));
        assert(without_controls(s) =~= s);
    } else {
        assert(without_controls(s) =~= s);
    }
}

/// A text without control characters and without white space at its ends stands in a header field as
/// it is, up to 64 characters; white space around it is left out.
pub proof fn law_proper_value_is_kept(a: Seq<char>, core: Seq<char>, b: Seq<char>)
    requires
        all_white(a),
        all_white(b),
        forall|i: int| 0 <= i < (a + core + b).len() ==> !is_control_char(#[trigger] (a + core + b)[i]),
        core.len() > 0,
        !is_white(core.first()) && !is_white(core.last()),
    ensures
        core.len() <= 64 ==> header_value(a + core + b) == core,
        core.len() > 64 ==> header_value(a + core + b) == core.take(64),
{
    lemma_no_controls_to_leave_out(a + core + b);
    law_trimming_finds_the_core(a, core, b);
}

/// The From field names the sender and, if there is one, their Matrix ID in brackets after it.
pub proof fn law_from_field_names_the_sender(reply: ReplyView)
    ensures
        without_controls(reply.sender_matrix_id).len() == 0 ==> from_display(reply) == header_value(
            reply.display_name,
        ),
        without_controls(reply.sender_matrix_id).len() > 0 ==> from_display(reply) == header_value(
            reply.display_name,
        ) + " (Matrix: "@ + without_controls(reply.sender_matrix_id) + ")"@,
{
}

/// A mail answers another exactly if the identifier of the other holds more than white space.
pub proof fn law_which_mail_answers(reply: ReplyView)
    ensures
        answers(reply) <==> !all_white(reply.in_reply_to),
{
    law_blank_is_white(reply.in_reply_to);
}

/// The subject of the mail is that of the message. A mark of a reply is put before it only where the
/// mail answers another and the subject has none.
pub proof fn law_subject_is_marked_once(reply: ReplyView)
    ensures
        !answers(reply) ==> mail_subject(reply) == header_value(reply.subject),
        answers(reply) && begins_with_re(reply.subject, ':') ==> mail_subject(reply)
            == header_value(reply.subject),
        answers(reply) && !begins_with_re(reply.subject, ':') ==> mail_subject(reply)
            == header_value("Re: "@ + reply.subject),
{
}

/// Identifiers are put in angle brackets, each in its place.
pub proof fn law_identifiers_in_brackets(ids: Seq<Seq<char>>)
    ensures
        bracketed(ids).len() == ids.len(),
        forall|i: int|
            0 <= i < ids.len() ==> #[trigger] bracketed(ids)[i] == seq!['<'] + ids[i] + seq!['>'],
{
    reveal_strlit("<");
    reveal_strlit(">");
    assert("<"@ =~= seq!['<']);
    assert(">"@ =~= seq!['>']);
}

/// A mail that answers another names it, and lists the thread if it has one; one that begins a thread
/// does neither.
pub proof fn law_fields_of_a_thread(reply: ReplyView)
    ensures
        !answers(reply) ==> thread_fields(reply).len() == 0,
        answers(reply) ==> {
            &&& thread_fields(reply).len() > 0
            &&& thread_fields(reply)[0] == "In-Reply-To: <"@ + clean_id(reply.in_reply_to) + ">"@
        },
        answers(reply) && reference_chain(reply).len() > 0 ==> {
            &&& thread_fields(reply).len() == 2
            &&& thread_fields(reply)[1] == "References: "@ + joined(
                bracketed(reference_chain(reply)),
                " "@,
            )
        },
        answers(reply) && reference_chain(reply).len() == 0 ==> thread_fields(reply).len() == 1,
{
    let chain = reference_chain(reply);
    let list = bracketed(chain);
    law_identifiers_in_brackets(chain);
    if chain.len() > 0 {
        assert(list[list.len() - 1].len() > 0);
        assert(joined(list, " "@).len() > 0);
    }
}

/// Every mail has its sender, the list as its receiver and as the address for answers, its subject,
/// date and identifier, then the fields of its thread, and at the end how it is encoded and where it
/// comes from.
pub proof fn law_fields_of_a_mail(config: SmtpConfig, reply: ReplyView, date: Seq<char>)
    ensures
        ({
            let f = header_fields(config, reply, date);
            let n = thread_fields(reply).len() as int;
            &&& f.len() == 10 + n
            &&& f[0] == "From: "@ + from_display(reply) + " <"@ + config.from_address@ + ">"@
            &&& f[1] == "To: "@ + config.list_address@
            &&& f[2] == "Reply-To: "@ + config.list_address@
            &&& f[3] == "Subject: "@ + mail_subject(reply)
            &&& f[4] == "Date: "@ + date
            &&& f[5] == "Message-ID: <"@ + reply.our_message_id + ">"@
            &&& f.subrange(6, 6 + n) == thread_fields(reply)
            &&& f[6 + n] == "MIME-Version: 1.0"@
            &&& f[7 + n] == "Content-Type: text/plain; charset=utf-8"@
            &&& f[8 + n] == "Content-Transfer-Encoding: base64"@
            &&& f[9 + n] == "X-Bridge-Origin: matrix"@
        }),
{
    let f = header_fields(config, reply, date);
    let n = thread_fields(reply).len() as int;
    assert(f.subrange(6, 6 + n) =~= thread_fields(reply));
}

/// The identifier of a mail is the random part and the name of the bridge.
pub proof fn law_identifier_of_a_mail(uuid: Seq<char>)
    ensures
        bridge_id(uuid) == uuid + "@email-bridge.local"@,
{
}

/// Lines are broken after 76 characters, and only where more follow.
pub proof fn law_lines_are_broken_at_76(line: Seq<char>, rest: Seq<char>)
    ensures
        line.len() <= 76 ==> wrapped(line) == line,
        line.len() == 76 && rest.len() > 0 ==> wrapped(line + rest) == line + seq!['\r', '\n']
            + wrapped(rest),
{
    reveal_strlit("\r\n");
    assert("\r\n"@ =~= seq!['\r', '\n']);
    if line.len() == 76 && rest.len() > 0 {
        assert((line + rest).take(76) =~= line);
        assert((line + rest).skip(76) =~= rest);
    }
}

/// Taking out line breaks keeps everything else, in its order.
pub proof fn law_breaks_are_taken_out(a: Seq<char>, b: Seq<char>, c: char)
    ensures
        without_breaks(a + b) == without_breaks(a) + without_breaks(b),
        c == '\r' || c == '\n' ==> without_breaks(seq![c]) == Seq::<char>::empty(),
        c != '\r' && c != '\n' ==> without_breaks(seq![c]) == seq![c],
{
    let keep = |c: char| c != '\r' && c != '\n';
    Seq::filter_distributes_over_add(a, b, keep);
    reveal_with_fuel(Seq::filter, 2);
    let one = seq![c];
    assert(one.drop_last() =~= Seq::<char>::empty());
    assert(one =~= Seq::<char>::empty().push(c));
    assert(Seq::<char>::empty().filter(keep) =~= Seq::<char>::empty());
    if keep(c) {
        assert(one.filter(keep) =~= one);
    } else {
        assert(one.filter(keep) =~= Seq::<char>::empty());
    }
}

/// Dates in a header and in a room are written in these forms.
pub proof fn law_forms_of_a_date(secs: i64)
    ensures
        utc_text(secs, header_pattern()) == utc_text(secs, "%a, %d %b %Y %H:%M:%S +0000"@),
        utc_text(secs, short_pattern()) == utc_text(secs, "%a %d %b %H:%M"@),
{
}

/// Mail goes from the configured address to the list.
pub proof fn law_envelope(config: SmtpConfig)
    ensures
        envelope_of(config).0 == config.from_address@,
        envelope_of(config).1 == config.list_address@,
{
}

/// What stands after the first empty line of a mail is, with the line breaks taken out and base64
/// decoded, the UTF-8 form of the text of the mail.
pub proof fn law_mail_reads_back(config: SmtpConfig, reply: ReplyView, now: i64)
    requires
        body_reads_back(reply),
        forall|i: int|
            0 <= i < header_fields(config, reply, utc_text(now, header_pattern())).len()
                ==> one_line(
                #[trigger] header_fields(config, reply, utc_text(now, header_pattern()))[i],
            ) && header_fields(config, reply, utc_text(now, header_pattern()))[i].len() > 0,
    ensures
        ({
            let raw = raw_mail(config, reply, now);
            position(raw, "\r\n\r\n"@) matches Some(end) && base64_bytes(
                without_breaks(raw.skip(end + 4)),
            ) == Some(encode_utf8(attributed_body(reply)))
        }),
{
    law_body_follows_the_header(config, reply, now);
    let body = wrapped(base64_text(encode_utf8(attributed_body(reply))));
    reveal_strlit("\r\n");
    assert("\r\n"@ =~= seq!['\r'] + seq!['\n']);
    law_breaks_are_taken_out(seq!['\r'], seq!['\n'], '\r');
    law_breaks_are_taken_out(body, "\r\n"@, '\n');
    assert(without_breaks(body + "\r\n"@) =~= without_breaks(body));
}

} // verus!
