//! What holds of Matrix messages that become mail.
#[allow(unused_imports)]
use crate::matrix_ids::{colon_index, localpart_of, server_of};
#[allow(unused_imports)]
use crate::matrix_reply::{
    after_first_attempt, after_pending, ancestors, answered_route, begins_thread, decision,
    dedup_reason, from_text, is_reply_quote, may_write, own_lines, recorded_root, recorded_subject,
    reply_body, reply_draft, reply_of, root_reason, screened, send_after, shown_name, thread_draft,
    unquoted, up_to_text, with_new, with_new_option, without, DraftView, Lookup, MessageEvent,
    ReplyState, SendAction, SendEvent, SendState, SkipReason, ThreadRelation,
};
#[allow(unused_imports)]
use crate::records::{DbView, RecordView, RouteRecord, SmtpStatus};
#[allow(unused_imports)]
use crate::smtp_send::ReplyView;
#[allow(unused_imports)]
use crate::text::{
    drop_leading, in_class, is_blank, is_white, joined, lemma_drop_leading, plain_breaks, text_lines,
    views, CharClass,
};
#[allow(unused_imports)]
use crate::text_laws::{all_white, law_blank_is_white};
use vstd::prelude::*;

verus! {

/// A line is quoted exactly if its first character other than white space is `>`, and a blank or
/// nothing at all follows that.
pub proof fn law_quoted_line(line: Seq<char>)
    ensures
        is_reply_quote(line) <==> exists|i: int|
            {
                &&& 0 <= i < line.len()
                &&& #[trigger] line[i] == '>'
                &&& i + 1 == line.len() || line[i + 1] == ' '
                &&& forall|k: int| 0 <= k < i ==> is_white(#[trigger] line[k])
            },
{
    let t = drop_leading(line, CharClass::White);
    lemma_drop_leading(line, CharClass::White);
    let n = line.len() - t.len();
    reveal_strlit("> ");
    reveal_strlit(">");
    assert("> "@ =~= seq!['>', ' ']);
    assert(">"@ =~= seq!['>']);
    assert forall|k: int| 0 <= k < n implies is_white(#[trigger] line[k]) by {
        assert(in_class(CharClass::White, line[k]));
    }
    if t.len() > 0 {
        assert(t[0] == line[n]);
        assert(!in_class(CharClass::White, t[0]));
    }
    if t.len() > 1 {
        assert(t[1] == line[n + 1]);
    }
    if is_reply_quote(line) {
        if "> "@.is_prefix_of(t) {
            assert(t.subrange(0, 2) =~= "> "@);
            assert(t.subrange(0, 2)[0] == t[0]);
            assert(t.subrange(0, 2)[1] == t[1]);
        } else {
            assert(t[0] == '>');
        }
        assert(line[n] == '>');
    }
    if exists|i: int|
        {
            &&& 0 <= i < line.len()
            &&& #[trigger] line[i] == '>'
            &&& i + 1 == line.len() || line[i + 1] == ' '
            &&& forall|k: int| 0 <= k < i ==> is_white(#[trigger] line[k])
        } {
        let i = choose|i: int|
            {
                &&& 0 <= i < line.len()
                &&& #[trigger] line[i] == '>'
                &&& i + 1 == line.len() || line[i + 1] == ' '
                &&& forall|k: int| 0 <= k < i ==> is_white(#[trigger] line[k])
            };
        assert(!is_white('>'));
        if i < n {
            assert(is_white(line[i]));
        }
        if n < i {
            assert(is_white(line[n]));
        }
        assert(i == n);
        if i + 1 == line.len() {
            assert(t =~= ">"@);
        } else {
            assert(t.subrange(0, 2) =~= "> "@);
        }
    }
}

/// Quoted lines are left out and all others are kept, in their order: of two lists in a row there is
/// left what is left of the one and then what is left of the other.
pub proof fn law_quotes_are_left_out(a: Seq<Seq<char>>, b: Seq<Seq<char>>, line: Seq<char>)
    ensures
        unquoted(a + b) == unquoted(a) + unquoted(b),
        unquoted(Seq::<Seq<char>>::empty()) == Seq::<Seq<char>>::empty(),
        is_reply_quote(line) ==> unquoted(seq![line]) == Seq::<Seq<char>>::empty(),
        !is_reply_quote(line) ==> unquoted(seq![line]) == seq![line],
    decreases b.len(),
{
    assert(seq![line].drop_last() =~= Seq::<Seq<char>>::empty());
    assert(unquoted(Seq::<Seq<char>>::empty()) == Seq::<Seq<char>>::empty());
    assert(!is_reply_quote(line) ==> unquoted(seq![line]) =~= seq![line]);
    if b.len() == 0 {
        assert(a + b =~= a);
        assert(unquoted(a) + unquoted(b) =~= unquoted(a));
    } else {
        assert((a + b).drop_last() =~= a + b.drop_last());
        law_quotes_are_left_out(a, b.drop_last(), line);
        assert(unquoted(a + b) =~= unquoted(a) + unquoted(b));
    }
}

/// A line whose first character other than white space is not `>` is kept in its place, whatever else
/// it holds and whatever lines stand before and after it.
pub proof fn law_own_line_is_kept(
    before: Seq<Seq<char>>,
    line: Seq<char>,
    after: Seq<Seq<char>>,
    i: int,
)
    requires
        0 <= i < line.len(),
        line[i] != '>',
        !is_white(line[i]),
        forall|k: int| 0 <= k < i ==> is_white(#[trigger] line[k]),
    ensures
        unquoted(before + seq![line] + after) == unquoted(before) + seq![line] + unquoted(after),
{
    law_quoted_line(line);
    if is_reply_quote(line) {
        let j = choose|j: int|
            {
                &&& 0 <= j < line.len()
                &&& #[trigger] line[j] == '>'
                &&& j + 1 == line.len() || line[j + 1] == ' '
                &&& forall|k: int| 0 <= k < j ==> is_white(#[trigger] line[k])
            };
        assert(!is_white('>'));
        if j < i {
            assert(is_white(line[j]));
        }
        if i < j {
            assert(is_white(line[i]));
        }
    }
    law_quotes_are_left_out(before + seq![line], after, line);
    law_quotes_are_left_out(before, seq![line], line);
}

/// The sender's own lines are the lines that are not quoted, from the first to the last that is not
/// blank.
pub proof fn law_own_lines_are_the_middle(raw: Seq<char>)
    ensures
        ({
            let all = unquoted(text_lines(raw));
            exists|i: int, j: int|
                {
                    &&& 0 <= i <= j <= all.len()
                    &&& own_lines(raw) == #[trigger] all.subrange(i, j)
                    &&& forall|k: int|
                        0 <= k < i || j <= k < all.len() ==> all_white(#[trigger] all[k])
                    &&& i < j ==> !all_white(all[i]) && !all_white(all[j - 1])
                }
        }),
{
    let all = unquoted(text_lines(raw));
    let b = from_text(all);
    lemma_start(all);
    lemma_end(b);
    let i = all.len() - b.len();
    let j = i + own_lines(raw).len();
    assert(own_lines(raw) =~= all.subrange(i, j));
    assert forall|k: int| 0 <= k < i || j <= k < all.len() implies all_white(#[trigger] all[k]) by {
        law_blank_is_white(all[k]);
        if k >= j {
            assert(b[k - i] == all[k]);
        }
    }
    if i < j {
        law_blank_is_white(all[i]);
        law_blank_is_white(all[j - 1]);
        assert(b[0] == all[i]);
        assert(own_lines(raw).last() == all[j - 1]);
    }
}

proof fn lemma_start(list: Seq<Seq<char>>)
    ensures
        from_text(list).len() <= list.len(),
        from_text(list) == list.skip(list.len() - from_text(list).len()),
        from_text(list).len() > 0 ==> !is_blank(from_text(list)[0]),
        forall|k: int|
            0 <= k < list.len() - from_text(list).len() ==> is_blank(#[trigger] list[k]),
    decreases list.len(),
{
    if list.len() > 0 && is_blank(list.first()) {
        let t = list.drop_first();
        lemma_start(t);
        let r = from_text(t);
        assert(r =~= list.skip(list.len() - r.len()));
        assert forall|k: int| 0 <= k < list.len() - r.len() implies is_blank(#[trigger] list[k]) by {
            if k > 0 {
                assert(t[k - 1] == list[k]);
            }
        }
    } else {
        assert(list =~= list.skip(0));
    }
}

proof fn lemma_end(list: Seq<Seq<char>>)
    ensures
        up_to_text(list).len() <= list.len(),
        up_to_text(list) == list.take(up_to_text(list).len() as int),
        up_to_text(list).len() > 0 ==> !is_blank(up_to_text(list).last()),
        forall|k: int| up_to_text(list).len() <= k < list.len() ==> is_blank(#[trigger] list[k]),
    decreases list.len(),
{
    if list.len() > 0 && is_blank(list.last()) {
        let t = list.drop_last();
        lemma_end(t);
        let r = up_to_text(t);
        assert(r =~= list.take(r.len() as int));
        assert forall|k: int| r.len() <= k < list.len() implies is_blank(#[trigger] list[k]) by {
            if k < t.len() {
                assert(t[k] == list[k]);
            }
        }
    } else {
        assert(list =~= list.take(list.len() as int));
    }
}

/// What a reply says is its own lines, with a line feed between neighbours.
pub proof fn law_reply_is_its_own_lines(raw: Seq<char>)
    ensures
        reply_body(raw) == joined(own_lines(raw), seq!['\n']),
{
    reveal_strlit("\n");
    assert("\n"@ =~= seq!['\n']);
}

/// A reply to an event of its thread answers the mail of that event, if there is one and the event is
/// not the root; any other answers the mail of the root.
pub proof fn law_answered_mail(thread: ThreadRelation, specific: Lookup, route: RouteRecord, id: String)
    ensures
        thread.in_reply_to is None ==> answered_route(thread, specific) is None,
        !(specific is Found) ==> answered_route(thread, specific) is None,
        thread.in_reply_to == Some(id) && id@ == thread.root_event_id@ ==> answered_route(
            thread,
            specific,
        ) is None,
        thread.in_reply_to == Some(id) && id@ != thread.root_event_id@ && specific
            == Lookup::Found(route) ==> answered_route(thread, specific) == Some(route@),
{
}

/// The older mails are the root of the mail thread, the mail of the root event and the root of the
/// thread of the event that is answered, as far as they are known, other than the answered mail; and
/// nothing else.
pub proof fn law_ancestors_are_these(
    root: RecordView,
    specific: Option<RecordView>,
    in_reply_to: Seq<char>,
    x: Seq<char>,
)
    ensures
        ancestors(root, specific, in_reply_to).contains(x) <==> x != in_reply_to && {
            ||| root.thread_root_email_message_id == Some(x)
            ||| root.email_message_id == x
            ||| specific is Some && specific->0.thread_root_email_message_id == Some(x)
        },
{
    let a = with_new_option(Seq::<Seq<char>>::empty(), root.thread_root_email_message_id);
    let b = with_new(a, root.email_message_id);
    let c = match specific {
        Some(s) => with_new_option(b, s.thread_root_email_message_id),
        None => b,
    };
    if let Some(r) = root.thread_root_email_message_id {
        lemma_new_member(Seq::empty(), r, x);
    }
    lemma_new_member(a, root.email_message_id, x);
    if let Some(s) = specific {
        if let Some(t) = s.thread_root_email_message_id {
            lemma_new_member(b, t, x);
        }
    }
    lemma_without_member(c, in_reply_to, x);
}

proof fn lemma_new_member(list: Seq<Seq<char>>, id: Seq<char>, x: Seq<char>)
    ensures
        with_new(list, id).contains(x) <==> list.contains(x) || x == id,
{
    let r = list.push(id);
    assert(r[list.len() as int] == id);
    if list.contains(x) {
        let i = list.index_of(x);
        assert(r[i] == x);
    }
    if r.contains(x) {
        let i = r.index_of(x);
        if i < list.len() {
            assert(list[i] == x);
        }
    }
}

proof fn lemma_without_member(list: Seq<Seq<char>>, id: Seq<char>, x: Seq<char>)
    ensures
        without(list, id).contains(x) <==> list.contains(x) && x != id,
    decreases list.len(),
{
    if list.len() > 0 {
        let head = list.drop_last();
        let rest = without(head, id);
        lemma_without_member(head, id, x);
        assert(list =~= head.push(list.last()));
        let p = head.push(list.last());
        assert(p.contains(x) <==> head.contains(x) || x == list.last()) by {
            assert(p[head.len() as int] == list.last());
            if head.contains(x) {
                let i = head.index_of(x);
                assert(p[i] == x);
            }
            if p.contains(x) {
                let i = p.index_of(x);
                if i < head.len() {
                    assert(head[i] == x);
                }
            }
        }
        let q = rest.push(list.last());
        assert(q.contains(x) <==> rest.contains(x) || x == list.last()) by {
            assert(q[rest.len() as int] == list.last());
            if rest.contains(x) {
                let i = rest.index_of(x);
                assert(q[i] == x);
            }
            if q.contains(x) {
                let i = q.index_of(x);
                if i < rest.len() {
                    assert(rest[i] == x);
                }
            }
        }
    }
}

/// The older mails come oldest first: the root of the mail thread, the mail of the root event, the root
/// of the other thread.
pub proof fn law_ancestors_in_order(
    root: RecordView,
    specific: RecordView,
    in_reply_to: Seq<char>,
    a: Seq<char>,
    b: Seq<char>,
    c: Seq<char>,
)
    requires
        root.thread_root_email_message_id == Some(a),
        root.email_message_id == b,
        specific.thread_root_email_message_id == Some(c),
        a != b && b != c && a != c,
        in_reply_to != a && in_reply_to != b && in_reply_to != c,
    ensures
        ancestors(root, Some(specific), in_reply_to) == seq![a, b, c],
        ancestors(root, None, in_reply_to) == seq![a, b],
{
    let none = Seq::<Seq<char>>::empty();
    let one = with_new(none, a);
    assert(one =~= seq![a]);
    let two = with_new(one, b);
    assert(two =~= seq![a, b]) by {
        assert(!one.contains(b));
    }
    let three = with_new(two, c);
    assert(!two.contains(c)) by {
        if two.contains(c) {
            let i = two.index_of(c);
            assert(two[i] == a || two[i] == b);
        }
    }
    assert(three =~= seq![a, b, c]);
    reveal_with_fuel(without, 4);
    assert(two.drop_last() =~= one);
    assert(one.drop_last() =~= none);
    assert(three.drop_last() =~= two);
    assert(without(none, in_reply_to) == none);
    assert(without(one, in_reply_to) =~= seq![a]);
    assert(without(two, in_reply_to) =~= seq![a, b]);
    assert(without(three, in_reply_to) =~= seq![a, b, c]);
}

/// A sender is named as the room names them, or else by the local part of their ID.
pub proof fn law_sender_is_named(name: Seq<char>, user: Seq<char>)
    ensures
        shown_name(Some(name), user) == name,
        shown_name(None, user) == localpart_of(user),
{
}

/// The local part of an identifier is what stands between its first character and its first colon, and
/// its server what stands after that colon.
pub proof fn law_parts_of_an_identifier(sigil: char, local: Seq<char>, server: Seq<char>)
    requires
        sigil != ':',
        !local.contains(':'),
    ensures
        localpart_of(seq![sigil] + local + seq![':'] + server) == local,
        server_of(seq![sigil] + local + seq![':'] + server) == Some(server),
        server_of(seq![sigil] + local) is None,
{
    let head = seq![sigil] + local;
    let id = head + seq![':'] + server;
    assert forall|i: int| 0 <= i < head.len() implies #[trigger] head[i] != ':' by {
        if i > 0 {
            assert(head[i] == local[i - 1]);
            assert(local.contains(local[i - 1]));
        }
    }
    assert(id =~= head + (seq![':'] + server));
    lemma_colon(head, seq![':'] + server);
    assert(id.subrange(1, head.len() as int) =~= local);
    assert(id.skip(head.len() as int + 1) =~= server);
    assert(head + Seq::<char>::empty() =~= head);
    lemma_colon(head, Seq::empty());
}

proof fn lemma_colon(head: Seq<char>, rest: Seq<char>)
    requires
        forall|i: int| 0 <= i < head.len() ==> #[trigger] head[i] != ':',
        rest.len() > 0 ==> rest[0] == ':',
    ensures
        colon_index(head + rest) == head.len(),
    decreases head.len(),
{
    if head.len() > 0 {
        let t = head.drop_first();
        assert(head[0] != ':');
        assert forall|i: int| 0 <= i < t.len() implies #[trigger] t[i] != ':' by {
            assert(t[i] == head[i + 1]);
        }
        lemma_colon(t, rest);
        assert((head + rest).drop_first() =~= t + rest);
    } else {
        assert(head + rest =~= rest);
    }
}

/// Where users are listed, those alone may write to the list; where none is, everyone may.
pub proof fn law_who_may_write(state: ReplyState, sender: Seq<char>)
    ensures
        state.allowed_repliers@.len() == 0 ==> may_write(state, sender),
        state.allowed_repliers@.len() > 0 ==> (may_write(state, sender) <==> exists|i: int|
            0 <= i < state.allowed_repliers@.len() && #[trigger] state.allowed_repliers@[i]@
                == sender),
{
    let list = state.allowed_repliers@;
    if views(list).contains(sender) {
        let i = views(list).index_of(sender);
        assert(views(list)[i] == sender);
        assert(list[i]@ == sender);
    }
    if exists|i: int| 0 <= i < list.len() && #[trigger] list[i]@ == sender {
        let i = choose|i: int| 0 <= i < list.len() && #[trigger] list[i]@ == sender;
        assert(views(list)[i] == sender);
    }
}

/// A message that meets every condition is not passed over, and one that fails the first condition
/// that it fails is passed over for that.
pub proof fn law_why_a_message_is_passed_over(state: ReplyState, ev: MessageEvent)
    ensures
        ev.sender@ == state.bot_user_id@ ==> screened(state, ev) == Some(SkipReason::OwnMessage),
        ev.sender@ != state.bot_user_id@ && !ev.room_joined ==> screened(state, ev) == Some(
            SkipReason::RoomNotJoined,
        ),
        ev.sender@ != state.bot_user_id@ && ev.room_joined && ev.text is None ==> screened(state, ev)
            == Some(SkipReason::NotText),
        ev.sender@ != state.bot_user_id@ && ev.room_joined && ev.text is Some && ev.thread is None && !(
        state.smtp_config.allow_new_threads_from_matrix && ev.room_allowed && !ev.is_related)
            ==> screened(state, ev) == Some(SkipReason::NotInThread),
        ev.sender@ != state.bot_user_id@ && ev.room_joined && ev.text is Some && (ev.thread is Some || (
        state.smtp_config.allow_new_threads_from_matrix && ev.room_allowed && !ev.is_related))
            ==> screened(state, ev) == (if may_write(state, ev.sender@) {
            None
        } else {
            Some(SkipReason::SenderNotAllowed)
        }),
{
}

/// A message that passes the screening, was not bridged before, stands in the thread of a mail or
/// begins one, and says something becomes mail: a reply to the mail that it answers, under the subject
/// of the thread, with what the message says and the name of its sender.
pub proof fn law_proper_reply_becomes_mail(
    state: ReplyState,
    ev: MessageEvent,
    root: RouteRecord,
    specific: Lookup,
    name: Option<Seq<char>>,
)
    requires
        screened(state, ev) is None,
        ev.thread is Some,
        root@.origin == "email"@,
        reply_body(ev.text->0@).len() > 0,
    ensures
        ({
            let d = decision(state, ev, Lookup::Missing, Lookup::Found(root), specific, name);
            &&& d is Ok
            &&& d->Ok_0.body == reply_body(ev.text->0@)
            &&& d->Ok_0.sender_matrix_id == ev.sender@
            &&& d->Ok_0.display_name == shown_name(name, ev.sender@)
            &&& answered_route(ev.thread->0, specific) is None ==> d->Ok_0.in_reply_to == Some(
                root@.email_message_id,
            )
            &&& answered_route(ev.thread->0, specific) is Some ==> d->Ok_0.in_reply_to == Some(
                answered_route(ev.thread->0, specific)->0.email_message_id,
            )
            &&& d->Ok_0.references == ancestors(
                root@,
                answered_route(ev.thread->0, specific),
                d->Ok_0.in_reply_to->0,
            )
            &&& root@.subject is Some ==> d->Ok_0.subject == root@.subject->0
            &&& root@.subject is None ==> d->Ok_0.subject == "(no subject)"@
            &&& d->Ok_0.thread_root == root@.thread_root_email_message_id
            &&& d->Ok_0.thread_subject == root@.subject
        }),
{
}

/// A message that begins a thread and says something becomes mail that answers none and has no
/// references.
pub proof fn law_proper_message_begins_a_thread(
    state: ReplyState,
    ev: MessageEvent,
    root: Lookup,
    specific: Lookup,
    name: Option<Seq<char>>,
)
    requires
        screened(state, ev) is None,
        ev.thread is None,
        reply_body(ev.text->0@).len() > 0,
    ensures
        ({
            let d = decision(state, ev, Lookup::Missing, root, specific, name);
            &&& d is Ok
            &&& d->Ok_0.body == reply_body(ev.text->0@)
            &&& d->Ok_0.sender_matrix_id == ev.sender@
            &&& d->Ok_0.display_name == shown_name(name, ev.sender@)
            &&& d->Ok_0.in_reply_to is None
            &&& d->Ok_0.references.len() == 0
            &&& d->Ok_0.subject == "(no subject)"@
        }),
{
}

/// A message that passes the screening is passed over for the state of the records: it was bridged
/// before or that is not known, its thread is unknown, not a mail's or not to be found, or it says
/// nothing; in this order.
pub proof fn law_why_a_screened_message_is_passed_over(
    state: ReplyState,
    ev: MessageEvent,
    dedup: Lookup,
    root: Lookup,
    specific: Lookup,
    name: Option<Seq<char>>,
)
    ensures
        screened(state, ev) is Some ==> decision(state, ev, dedup, root, specific, name) == Err::<
            DraftView,
            SkipReason,
        >(screened(state, ev)->0),
        screened(state, ev) is None && dedup is Found ==> decision(
            state,
            ev,
            dedup,
            root,
            specific,
            name,
        ) == Err::<DraftView, SkipReason>(SkipReason::AlreadyBridged),
        screened(state, ev) is None && dedup is Failed ==> decision(
            state,
            ev,
            dedup,
            root,
            specific,
            name,
        ) == Err::<DraftView, SkipReason>(SkipReason::DedupFailed),
        screened(state, ev) is None && dedup is Missing && ev.thread is Some && root is Missing
            ==> decision(state, ev, dedup, root, specific, name) == Err::<DraftView, SkipReason>(
            SkipReason::RootUnknown,
        ),
        screened(state, ev) is None && dedup is Missing && ev.thread is Some && root is Failed
            ==> decision(state, ev, dedup, root, specific, name) == Err::<DraftView, SkipReason>(
            SkipReason::RootLookupFailed,
        ),
        screened(state, ev) is None && dedup is Missing && ev.thread is Some && (root matches
            Lookup::Found(r) && r@.origin != "email"@) ==> decision(
            state,
            ev,
            dedup,
            root,
            specific,
            name,
        ) == Err::<DraftView, SkipReason>(SkipReason::RootNotMail),
        screened(state, ev) is None && dedup is Missing && (ev.thread is None || (root matches
            Lookup::Found(r) && r@.origin == "email"@)) && reply_body(ev.text->0@).len() == 0
            ==> decision(state, ev, dedup, root, specific, name) == Err::<DraftView, SkipReason>(
            SkipReason::EmptyBody,
        ),
{
}

/// The mail of a draft is the draft under its identifier: the same sender, subject, body, answered mail
/// and references.
pub proof fn law_mail_of_a_draft(draft: DraftView, id: Seq<char>)
    ensures
        ({
            let r = reply_of(draft, id);
            &&& r.our_message_id == id
            &&& r.display_name == draft.display_name
            &&& r.sender_matrix_id == draft.sender_matrix_id
            &&& r.subject == draft.subject
            &&& r.body == draft.body
            &&& draft.in_reply_to is Some ==> r.in_reply_to == draft.in_reply_to->0
                && r.references == draft.references
            &&& draft.in_reply_to is None ==> r.in_reply_to.len() == 0 && r.references.len() == 0
        }),
{
}

/// The mail of a reply is recorded in the thread of the mail that the reply stands in, and a mail that
/// begins a thread in its own.
pub proof fn law_recorded_thread(draft: DraftView, id: Seq<char>)
    ensures
        draft.in_reply_to is Some ==> recorded_root(draft, id) == draft.thread_root
            && recorded_subject(draft) == draft.thread_subject,
        draft.in_reply_to is None ==> recorded_root(draft, id) == Some(id) && recorded_subject(draft)
            == Some(draft.subject),
{
}

/// A message whose mail is recorded has the mail to send, in its room, under the mail's identifier and
/// in the thread of the draft; a message that was recorded before stays as it is.
pub proof fn law_record_of_a_pending_mail(
    db: DbView,
    event: Seq<char>,
    room: Seq<char>,
    draft: DraftView,
    id: Seq<char>,
    payload: Seq<char>,
    now: i64,
)
    ensures
        db.routes.contains_key(event) ==> after_pending(db, event, room, draft, id, payload, now) == db,
        !db.routes.contains_key(event) ==> {
            let r = after_pending(db, event, room, draft, id, payload, now).routes[event];
            &&& after_pending(db, event, room, draft, id, payload, now).routes.contains_key(event)
            &&& r.email_message_id == id
            &&& r.room_id == Some(room)
            &&& r.smtp_payload == Some(payload)
            &&& r.smtp_status == Some(SmtpStatus::Pending)
            &&& r.origin == "matrix"@
            &&& r.created_at == now
            &&& draft.in_reply_to is Some ==> r.thread_root_email_message_id == draft.thread_root
                && r.subject == draft.thread_subject
            &&& draft.in_reply_to is None ==> r.thread_root_email_message_id == Some(id) && r.subject
                == Some(draft.subject)
        },
{
}

/// After the first attempt a mail is accepted, or has failed once and is due again after a minute.
pub proof fn law_record_of_the_first_attempt(db: DbView, event: Seq<char>, now: i64)
    requires
        now <= i64::MAX - 60,
        db.routes.contains_key(event),
        db.routes[event].smtp_status == Some(SmtpStatus::Pending),
        db.routes[event].smtp_attempts == 0,
    ensures
        ({
            let good = after_first_attempt(db, event, true, now).routes[event];
            let bad = after_first_attempt(db, event, false, now).routes[event];
            &&& good.smtp_status == Some(SmtpStatus::SmtpAccepted)
            &&& good.smtp_accepted_at == Some(now)
            &&& good.smtp_next_retry_at is None
            &&& bad.smtp_status == Some(SmtpStatus::Failed)
            &&& bad.smtp_attempts == 1
            &&& bad.smtp_next_retry_at == Some((now + 60) as i64)
            &&& good.smtp_payload == db.routes[event].smtp_payload
            &&& bad.smtp_payload == db.routes[event].smtp_payload
        }),
{
}

/// A mail is sent once it is stored, and how that ended is recorded; nothing follows a failure to store
/// it, nor the record.
pub proof fn law_course_of_a_mail(event: SendEvent)
    ensures
        send_after(SendState::ToStore, SendEvent::Stored).1 == SendAction::Send,
        event != SendEvent::Stored ==> send_after(SendState::ToStore, event).1 == SendAction::Stop,
        ({
            let sending = send_after(SendState::ToStore, SendEvent::Stored).0;
            &&& send_after(sending, SendEvent::Sent).1 == SendAction::Record(true)
            &&& send_after(sending, SendEvent::NotSent).1 == SendAction::Record(false)
            &&& event != SendEvent::Sent && event != SendEvent::NotSent ==> send_after(
                sending,
                event,
            ).1 == SendAction::Stop
            &&& send_after(send_after(sending, SendEvent::Sent).0, event).1 == SendAction::Stop
            &&& send_after(send_after(sending, SendEvent::NotSent).0, event).1 == SendAction::Stop
        }),
{
}

} // verus!
