//! Matrix messages that become mail: which of them do, and what goes into the mail.
use crate::config::SmtpConfig;
use crate::db::Db;
use crate::matrix_ids::localpart;
#[allow(unused_imports)]
use crate::matrix_ids::localpart_of;
use crate::records::RouteRecord;
#[allow(unused_imports)]
use crate::records::{
    accepted, failed, on_route, pending_route, with_pending, DbView, RecordView, RouteView,
};
use crate::smtp_send::SmtpReply;
#[allow(unused_imports)]
use crate::smtp_send::{bridge_id, is_uuid, ReplyView};
use crate::text::{
    copy_option, join_texts, lines, list_contains, same_text, starts_with, trim, trim_start,
};
#[allow(unused_imports)]
use crate::text::{
    drop_leading, is_blank, joined, opt_str_view, opt_view, text_lines, views, CharClass,
};
use vstd::prelude::*;

verus! {

/// What decides which Matrix messages become mail.
pub struct ReplyState {
    pub bot_user_id: String,
    /// Users who may write to the list; if there are none, every member of a room may.
    pub allowed_repliers: Vec<String>,
    pub smtp_config: SmtpConfig,
}

/// The place of a message in a Matrix thread.
pub struct ThreadRelation {
    /// The event that the thread hangs on.
    pub root_event_id: String,
    /// The event of the thread that the message answers.
    pub in_reply_to: Option<String>,
}

/// A message in a room.
pub struct MessageEvent {
    pub event_id: String,
    pub sender: String,
    pub room_id: String,
    /// Whether the bot is a member of the room.
    pub room_joined: bool,
    /// Whether the room is one that the bot is allowed to serve.
    pub room_allowed: bool,
    /// The body, if it is a text message.
    pub text: Option<String>,
    /// Its thread, if it stands in one.
    pub thread: Option<ThreadRelation>,
    /// Whether it is related to another event in any way.
    pub is_related: bool,
}

/// The answer of a search for a route.
pub enum Lookup {
    Found(RouteRecord),
    Missing,
    /// The search itself failed.
    Failed,
}

/// Why a message does not become mail.
#[derive(Clone, Copy, Debug, PartialEq, Eq, Structural)]
pub enum SkipReason {
    OwnMessage,
    RoomNotJoined,
    NotText,
    /// Not in a thread, and not a message that may begin one.
    NotInThread,
    SenderNotAllowed,
    AlreadyBridged,
    /// It could not be found out whether the message was bridged before.
    DedupFailed,
    RootUnknown,
    /// The thread hangs on a Matrix message, not on a mail.
    RootNotMail,
    RootLookupFailed,
    EmptyBody,
}

/// A mail to be made of a message.
pub struct Draft {
    pub display_name: String,
    pub sender_matrix_id: String,
    /// The mail that is answered; `None` for a new thread.
    pub in_reply_to: Option<String>,
    pub references: Vec<String>,
    pub subject: String,
    pub body: String,
    /// The root of the mail thread that a reply belongs to, as it is recorded.
    pub thread_root: Option<String>,
    /// The subject of the mail thread, as it is recorded.
    pub thread_subject: Option<String>,
}

pub ghost struct DraftView {
    pub display_name: Seq<char>,
    pub sender_matrix_id: Seq<char>,
    pub in_reply_to: Option<Seq<char>>,
    pub references: Seq<Seq<char>>,
    pub subject: Seq<char>,
    pub body: Seq<char>,
    pub thread_root: Option<Seq<char>>,
    pub thread_subject: Option<Seq<char>>,
}

impl View for Draft {
    type V = DraftView;

    open spec fn view(&self) -> DraftView {
        DraftView {
            display_name: self.display_name@,
            sender_matrix_id: self.sender_matrix_id@,
            in_reply_to: opt_view(self.in_reply_to),
            references: views(self.references@),
            subject: self.subject@,
            body: self.body@,
            thread_root: opt_view(self.thread_root),
            thread_subject: opt_view(self.thread_subject),
        }
    }
}

/// A line that a client quotes in front of a reply.
pub open spec fn is_reply_quote(line: Seq<char>) -> bool {
    let t = drop_leading(line, CharClass::White);
    "> "@.is_prefix_of(t) || t == ">"@
}

/// The lines that are not quoted.
pub open spec fn unquoted(list: Seq<Seq<char>>) -> Seq<Seq<char>>
    decreases list.len(),
{
    if list.len() == 0 {
        seq![]
    } else if is_reply_quote(list.last()) {
        unquoted(list.drop_last())
    } else {
        unquoted(list.drop_last()).push(list.last())
    }
}

/// The lines from the first that is not blank on.
pub open spec fn from_text(list: Seq<Seq<char>>) -> Seq<Seq<char>>
    decreases list.len(),
{
    if list.len() > 0 && is_blank(list.first()) {
        from_text(list.drop_first())
    } else {
        list
    }
}

/// The lines up to the last that is not blank.
pub open spec fn up_to_text(list: Seq<Seq<char>>) -> Seq<Seq<char>>
    decreases list.len(),
{
    if list.len() > 0 && is_blank(list.last()) {
        up_to_text(list.drop_last())
    } else {
        list
    }
}

/// The lines of a reply that are its sender's own.
pub open spec fn own_lines(raw: Seq<char>) -> Seq<Seq<char>> {
    up_to_text(from_text(unquoted(text_lines(raw))))
}

/// What a reply says, without quoted lines and without blank lines at its ends.
pub open spec fn reply_body(raw: Seq<char>) -> Seq<char> {
    joined(own_lines(raw), "\n"@)
}

fn is_blank_line(line: &str) -> (r: bool)
    ensures
        r == is_blank(line@),
{
    trim(line).as_str().is_empty()
}

fn is_quoted_reply(line: &str) -> (r: bool)
    ensures
        r == is_reply_quote(line@),
{
    let t = trim_start(line);
    starts_with(t.as_str(), "> ") || same_text(t.as_str(), ">")
}

fn drop_quotes(list: &Vec<String>) -> (r: Vec<String>)
    ensures
        views(r@) == unquoted(views(list@)),
{
    let ghost all = views(list@);
    let mut out: Vec<String> = Vec::new();
    let mut i: usize = 0;
    assert(views(out@) =~= unquoted(all.take(0)));
    while i < list.len()
        invariant
            all == views(list@),
            i <= list@.len(),
            views(out@) == unquoted(all.take(i as int)),
        decreases list@.len() - i,
    {
        let ghost so_far = views(out@);
        assert(all.take(i + 1).drop_last() =~= all.take(i as int));
        assert(all.take(i + 1).last() == list@[i as int]@);
        if !is_quoted_reply(list[i].as_str()) {
            out.push(list[i].clone());
            assert(views(out@) =~= so_far.push(list@[i as int]@));
        }
        i += 1;
    }
    assert(all.take(i as int) =~= all);
    out
}

/// What a reply says, without quoted lines and without blank lines at its ends.
pub fn sanitize_reply_body(raw: &str) -> (r: String)
    ensures
        r@ == reply_body(raw@),
{
    let list = drop_quotes(&lines(raw));
    let ghost all = views(list@);
    let n: usize = list.len();
    let mut start: usize = 0;
    assert(all.skip(0) =~= all);
    while start < n && is_blank_line(list[start].as_str())
        invariant
            all == views(list@),
            n == list@.len(),
            start <= n,
            from_text(all) == from_text(all.skip(start as int)),
        decreases n - start,
    {
        assert(all.skip(start as int).first() == list@[start as int]@);
        assert(all.skip(start as int).drop_first() =~= all.skip(start + 1));
        start += 1;
    }
    assert(start < n ==> all.skip(start as int).first() == list@[start as int]@);
    let ghost rest = all.skip(start as int);
    let mut end: usize = n;
    assert(rest =~= all.subrange(start as int, end as int));
    while start < end && is_blank_line(list[end - 1].as_str())
        invariant
            all == views(list@),
            n == list@.len(),
            start <= end <= n,
            up_to_text(rest) == up_to_text(all.subrange(start as int, end as int)),
        decreases end,
    {
        let ghost part = all.subrange(start as int, end as int);
        assert(part.last() == list@[end - 1]@);
        assert(part.drop_last() =~= all.subrange(start as int, end - 1));
        end -= 1;
    }
    let ghost own = all.subrange(start as int, end as int);
    assert(start < end ==> own.last() == list@[end - 1]@);
    let mut kept: Vec<String> = Vec::new();
    let mut i: usize = start;
    while i < end
        invariant
            all == views(list@),
            start <= i <= end <= list@.len(),
            views(kept@) == all.subrange(start as int, i as int),
        decreases end - i,
    {
        let ghost so_far = views(kept@);
        kept.push(list[i].clone());
        proof {
            assert(views(kept@) =~= so_far.push(all[i as int]));
            assert(all.subrange(start as int, i + 1) =~= all.subrange(start as int, i as int).push(
                all[i as int],
            ));
        }
        i += 1;
    }
    join_texts(&kept, "\n")
}

/// The route of the event of the thread that a reply answers, if that event is not the root and
/// belongs to a mail, whether it was made of the mail or became it; else the reply answers the mail
/// of the root.
pub open spec fn answered_route(
    thread: ThreadRelation,
    specific: Lookup,
) -> Option<RecordView> {
    match (thread.in_reply_to, specific) {
        (Some(id), Lookup::Found(r)) => if id@ != thread.root_event_id@ {
            Some(r@)
        } else {
            None
        },
        _ => None,
    }
}

/// Whether the reply names an event of its thread, other than the root, whose route is to be looked
/// up.
pub fn specific_event(thread: &ThreadRelation) -> (r: Option<&String>)
    ensures
        match r {
            Some(id) => thread.in_reply_to == Some(*id) && id@ != thread.root_event_id@,
            None => thread.in_reply_to matches Some(id) ==> id@ == thread.root_event_id@,
        },
{
    match &thread.in_reply_to {
        Some(id) => {
            if same_text(id.as_str(), thread.root_event_id.as_str()) {
                None
            } else {
                Some(id)
            }
        },
        None => None,
    }
}

/// The identifier of the mail that a reply answers, and the route that it was taken from if that is
/// not the root's.
pub fn resolve_in_reply_to<'a>(
    thread: &ThreadRelation,
    root_route: &RouteRecord,
    specific: &'a Lookup,
) -> (r: (String, Option<&'a RouteRecord>))
    ensures
        match answered_route(*thread, *specific) {
            Some(route) => r.0@ == route.email_message_id && r.1 is Some && r.1->0@ == route,
            None => r.0@ == root_route@.email_message_id && r.1 is None,
        },
{
    if let Some(id) = &thread.in_reply_to {
        if !same_text(id.as_str(), thread.root_event_id.as_str()) {
            if let Lookup::Found(route) = specific {
                return (route.email_message_id.clone(), Some(route));
            }
        }
    }
    (root_route.email_message_id.clone(), None)
}

/// `list` with `id` at its end, unless it holds `id` already.
pub open spec fn with_new(list: Seq<Seq<char>>, id: Seq<char>) -> Seq<Seq<char>> {
    if list.contains(id) {
        list
    } else {
        list.push(id)
    }
}

pub open spec fn with_new_option(list: Seq<Seq<char>>, id: Option<Seq<char>>) -> Seq<Seq<char>> {
    match id {
        Some(i) => with_new(list, i),
        None => list,
    }
}

/// `list` without `id`.
pub open spec fn without(list: Seq<Seq<char>>, id: Seq<char>) -> Seq<Seq<char>>
    decreases list.len(),
{
    if list.len() == 0 {
        seq![]
    } else if list.last() == id {
        without(list.drop_last(), id)
    } else {
        without(list.drop_last(), id).push(list.last())
    }
}

/// The older mails of the thread, oldest first, each once, without the one that is answered.
pub open spec fn ancestors(
    root: RecordView,
    specific: Option<RecordView>,
    in_reply_to: Seq<char>,
) -> Seq<Seq<char>> {
    let a = with_new_option(seq![], root.thread_root_email_message_id);
    let b = with_new(a, root.email_message_id);
    let c = match specific {
        Some(s) => with_new_option(b, s.thread_root_email_message_id),
        None => b,
    };
    without(c, in_reply_to)
}

fn push_new(list: &mut Vec<String>, id: &String)
    ensures
        views(final(list)@) == with_new(views(old(list)@), id@),
{
    let ghost before = views(list@);
    if !list_contains(list, id.as_str()) {
        list.push(id.clone());
        assert(views(list@) =~= before.push(id@));
    }
}

/// The older mails of the thread, oldest first, each once, without the one that is answered.
pub fn build_references(
    root_route: &RouteRecord,
    specific_route: Option<&RouteRecord>,
    in_reply_to_email_id: &str,
) -> (r: Vec<String>)
    ensures
        views(r@) == ancestors(
            root_route@,
            match specific_route {
                Some(s) => Some(s@),
                None => None,
            },
            in_reply_to_email_id@,
        ),
{
    let mut refs: Vec<String> = Vec::new();
    assert(views(refs@) =~= Seq::<Seq<char>>::empty());
    if let Some(root) = &root_route.thread_root_email_message_id {
        push_new(&mut refs, root);
    }
    push_new(&mut refs, &root_route.email_message_id);
    if let Some(specific) = specific_route {
        if let Some(root) = &specific.thread_root_email_message_id {
            push_new(&mut refs, root);
        }
    }
    let ghost all = views(refs@);
    let mut out: Vec<String> = Vec::new();
    let mut i: usize = 0;
    assert(views(out@) =~= without(all.take(0), in_reply_to_email_id@));
    while i < refs.len()
        invariant
            all == views(refs@),
            i <= refs@.len(),
            views(out@) == without(all.take(i as int), in_reply_to_email_id@),
        decreases refs@.len() - i,
    {
        let ghost so_far = views(out@);
        assert(all.take(i + 1).drop_last() =~= all.take(i as int));
        assert(all.take(i + 1).last() == refs@[i as int]@);
        if !same_text(refs[i].as_str(), in_reply_to_email_id) {
            out.push(refs[i].clone());
            assert(views(out@) =~= so_far.push(refs@[i as int]@));
        }
        i += 1;
    }
    assert(all.take(i as int) =~= all);
    out
}

/// The name under which a sender writes: the one that the room shows, or the local part of the ID.
pub open spec fn shown_name(display_name: Option<Seq<char>>, user_id: Seq<char>) -> Seq<char> {
    match display_name {
        Some(n) => n,
        None => localpart_of(user_id),
    }
}

/// The name under which a sender writes.
pub fn get_display_name(display_name: Option<&str>, user_id: &str) -> (r: String)
    ensures
        r@ == shown_name(opt_str_view(display_name), user_id@),
{
    match display_name {
        Some(n) => n.to_owned(),
        None => localpart(user_id),
    }
}

/// The sender may write to the list.
pub open spec fn may_write(state: ReplyState, sender: Seq<char>) -> bool {
    state.allowed_repliers@.len() == 0 || views(state.allowed_repliers@).contains(sender)
}

/// The message may begin a mail thread.
pub open spec fn begins_thread(state: ReplyState, ev: MessageEvent) -> bool {
    &&& state.smtp_config.allow_new_threads_from_matrix
    &&& ev.room_allowed
    &&& ev.thread is None
    &&& !ev.is_related
}

/// Why a message is passed over, as far as the message alone tells.
pub open spec fn screened(state: ReplyState, ev: MessageEvent) -> Option<SkipReason> {
    if ev.sender@ == state.bot_user_id@ {
        Some(SkipReason::OwnMessage)
    } else if !ev.room_joined {
        Some(SkipReason::RoomNotJoined)
    } else if ev.text is None {
        Some(SkipReason::NotText)
    } else if ev.thread is None && !begins_thread(state, ev) {
        Some(SkipReason::NotInThread)
    } else if !may_write(state, ev.sender@) {
        Some(SkipReason::SenderNotAllowed)
    } else {
        None
    }
}

/// Tells whether a message is passed over before any record is looked up, and why.
pub fn screen(state: &ReplyState, ev: &MessageEvent) -> (r: Option<SkipReason>)
    ensures
        r == screened(*state, *ev),
{
    if same_text(ev.sender.as_str(), state.bot_user_id.as_str()) {
        return Some(SkipReason::OwnMessage);
    }
    if !ev.room_joined {
        return Some(SkipReason::RoomNotJoined);
    }
    if ev.text.is_none() {
        return Some(SkipReason::NotText);
    }
    let begins: bool = state.smtp_config.allow_new_threads_from_matrix && ev.room_allowed
        && ev.thread.is_none() && !ev.is_related;
    if ev.thread.is_none() && !begins {
        return Some(SkipReason::NotInThread);
    }
    if state.allowed_repliers.len() > 0 && !list_contains(
        &state.allowed_repliers,
        ev.sender.as_str(),
    ) {
        return Some(SkipReason::SenderNotAllowed);
    }
    None
}

/// Why a message is passed over once it has been looked up whether it was bridged before.
pub open spec fn dedup_reason(dedup: Lookup) -> Option<SkipReason> {
    match dedup {
        Lookup::Found(_) => Some(SkipReason::AlreadyBridged),
        Lookup::Failed => Some(SkipReason::DedupFailed),
        Lookup::Missing => None,
    }
}

/// Why a message is passed over because of the root of its thread.
pub open spec fn root_reason(root: Lookup) -> Option<SkipReason> {
    match root {
        Lookup::Found(r) => if r@.origin == "email"@ {
            None
        } else {
            Some(SkipReason::RootNotMail)
        },
        Lookup::Missing => Some(SkipReason::RootUnknown),
        Lookup::Failed => Some(SkipReason::RootLookupFailed),
    }
}

/// The mail for a reply in the thread of the route `root`.
pub open spec fn reply_draft(
    ev: MessageEvent,
    root: RecordView,
    specific: Lookup,
    display_name: Option<Seq<char>>,
) -> DraftView {
    let answered = answered_route(ev.thread->0, specific);
    let id = match answered {
        Some(r) => r.email_message_id,
        None => root.email_message_id,
    };
    DraftView {
        display_name: shown_name(display_name, ev.sender@),
        sender_matrix_id: ev.sender@,
        in_reply_to: Some(id),
        references: ancestors(root, answered, id),
        subject: match root.subject {
            Some(s) => s,
            None => "(no subject)"@,
        },
        body: reply_body(ev.text->0@),
        thread_root: root.thread_root_email_message_id,
        thread_subject: root.subject,
    }
}

/// The mail for a message that begins a thread.
pub open spec fn thread_draft(ev: MessageEvent, display_name: Option<Seq<char>>) -> DraftView {
    DraftView {
        display_name: shown_name(display_name, ev.sender@),
        sender_matrix_id: ev.sender@,
        in_reply_to: None,
        references: seq![],
        subject: "(no subject)"@,
        body: reply_body(ev.text->0@),
        thread_root: None,
        thread_subject: None,
    }
}

/// The decision on a message: the mail to be made of it, or why it is passed over. The answers of
/// the searches for the routes of the message itself, of the root of its thread and of the event
/// that it answers are given.
pub open spec fn decision(
    state: ReplyState,
    ev: MessageEvent,
    dedup: Lookup,
    root: Lookup,
    specific: Lookup,
    display_name: Option<Seq<char>>,
) -> Result<DraftView, SkipReason> {
    if screened(state, ev) is Some {
        Err(screened(state, ev)->0)
    } else if dedup_reason(dedup) is Some {
        Err(dedup_reason(dedup)->0)
    } else if ev.thread is Some && root_reason(root) is Some {
        Err(root_reason(root)->0)
    } else if reply_body(ev.text->0@).len() == 0 {
        Err(SkipReason::EmptyBody)
    } else if ev.thread is Some {
        Ok(reply_draft(ev, root->0@, specific, display_name))
    } else {
        Ok(thread_draft(ev, display_name))
    }
}

/// Decides what becomes of a message.
pub fn decide_reply(
    state: &ReplyState,
    ev: &MessageEvent,
    dedup: &Lookup,
    root: &Lookup,
    specific: &Lookup,
    display_name: Option<&str>,
) -> (r: Result<Draft, SkipReason>)
    ensures
        match r {
            Ok(draft) => decision(*state, *ev, *dedup, *root, *specific, opt_str_view(display_name))
                == Ok::<DraftView, SkipReason>(draft@),
            Err(reason) => decision(
                *state,
                *ev,
                *dedup,
                *root,
                *specific,
                opt_str_view(display_name),
            ) == Err::<DraftView, SkipReason>(reason),
        },
{
    if let Some(reason) = screen(state, ev) {
        return Err(reason);
    }
    match dedup {
        Lookup::Found(_) => {
            return Err(SkipReason::AlreadyBridged);
        },
        Lookup::Failed => {
            return Err(SkipReason::DedupFailed);
        },
        Lookup::Missing => {},
    }
    let body: String = match &ev.text {
        Some(text) => sanitize_reply_body(text.as_str()),
        None => String::new(),
    };
    let name = get_display_name(display_name, ev.sender.as_str());
    match &ev.thread {
        Some(thread) => {
            let root_route = match root {
                Lookup::Found(route) => route,
                Lookup::Missing => {
                    return Err(SkipReason::RootUnknown);
                },
                Lookup::Failed => {
                    return Err(SkipReason::RootLookupFailed);
                },
            };
            if !same_text(root_route.origin.as_str(), "email") {
                return Err(SkipReason::RootNotMail);
            }
            if body.as_str().is_empty() {
                return Err(SkipReason::EmptyBody);
            }
            let answered = resolve_in_reply_to(thread, root_route, specific);
            let references = build_references(root_route, answered.1, answered.0.as_str());
            let subject: String = match &root_route.subject {
                Some(s) => s.clone(),
                None => "(no subject)".to_owned(),
            };
            Ok(
                Draft {
                    display_name: name,
                    sender_matrix_id: ev.sender.clone(),
                    in_reply_to: Some(answered.0),
                    references,
                    subject,
                    body,
                    thread_root: copy_option(&root_route.thread_root_email_message_id),
                    thread_subject: copy_option(&root_route.subject),
                },
            )
        },
        None => {
            if body.as_str().is_empty() {
                return Err(SkipReason::EmptyBody);
            }
            let references: Vec<String> = Vec::new();
            assert(views(references@) =~= Seq::<Seq<char>>::empty());
            Ok(
                Draft {
                    display_name: name,
                    sender_matrix_id: ev.sender.clone(),
                    in_reply_to: None,
                    references,
                    subject: "(no subject)".to_owned(),
                    body,
                    thread_root: None,
                    thread_subject: None,
                },
            )
        },
    }
}

/// The mail of a draft under a given Message-ID.
pub open spec fn reply_of(draft: DraftView, message_id: Seq<char>) -> ReplyView {
    ReplyView {
        display_name: draft.display_name,
        sender_matrix_id: draft.sender_matrix_id,
        in_reply_to: match draft.in_reply_to {
            Some(id) => id,
            None => seq![],
        },
        references: match draft.in_reply_to {
            Some(_) => draft.references,
            None => seq![],
        },
        subject: draft.subject,
        body: draft.body,
        our_message_id: message_id,
    }
}

fn copy_list(list: &Vec<String>) -> (r: Vec<String>)
    ensures
        views(r@) == views(list@),
{
    let mut out: Vec<String> = Vec::new();
    let mut i: usize = 0;
    while i < list.len()
        invariant
            i <= list@.len(),
            out@.len() == i,
            forall|k: int| 0 <= k < i ==> (#[trigger] out@[k])@ == list@[k]@,
        decreases list@.len() - i,
    {
        out.push(list[i].clone());
        i += 1;
    }
    assert(views(out@) =~= views(list@));
    out
}

/// The mail of a draft, under a new Message-ID.
pub fn make_reply(draft: &Draft) -> (r: SmtpReply)
    ensures
        exists|uuid: Seq<char>|
            is_uuid(uuid) && r@ == reply_of(draft@, #[trigger] bridge_id(uuid)),
{
    match &draft.in_reply_to {
        Some(id) => SmtpReply::new(
            draft.display_name.clone(),
            draft.sender_matrix_id.clone(),
            id.clone(),
            copy_list(&draft.references),
            draft.subject.clone(),
            draft.body.clone(),
        ),
        None => SmtpReply::new_thread(
            draft.display_name.clone(),
            draft.sender_matrix_id.clone(),
            draft.subject.clone(),
            draft.body.clone(),
        ),
    }
}

/// The thread root that is recorded for the mail of a draft: a mail that begins a thread is its own.
pub open spec fn recorded_root(draft: DraftView, message_id: Seq<char>) -> Option<Seq<char>> {
    match draft.in_reply_to {
        Some(_) => draft.thread_root,
        None => Some(message_id),
    }
}

/// The subject that is recorded for the mail of a draft.
pub open spec fn recorded_subject(draft: DraftView) -> Option<Seq<char>> {
    match draft.in_reply_to {
        Some(_) => draft.thread_subject,
        None => Some(draft.subject),
    }
}

/// The records after the mail of a draft was recorded as pending.
pub open spec fn after_pending(
    db: DbView,
    event_id: Seq<char>,
    room_id: Seq<char>,
    draft: DraftView,
    our_message_id: Seq<char>,
    payload: Seq<char>,
    now: i64,
) -> DbView {
    with_pending(
        db,
        event_id,
        pending_route(
            room_id,
            our_message_id,
            recorded_root(draft, our_message_id),
            recorded_subject(draft),
            payload,
            now,
        ),
    )
}

/// The records after the first attempt to send a mail.
pub open spec fn after_first_attempt(db: DbView, event_id: Seq<char>, sent: bool, now: i64) -> DbView {
    if sent {
        on_route(db, event_id, |r: RouteView| accepted(r, now))
    } else {
        on_route(db, event_id, |r: RouteView| failed(r, (now + 60) as i64))
    }
}

/// Records the mail of a draft as pending, before anything is sent.
pub fn record_pending(
    db: &mut Db,
    ev: &MessageEvent,
    draft: &Draft,
    our_message_id: &str,
    payload: &str,
    now: i64,
)
    ensures
        final(db)@ == after_pending(
            old(db)@,
            ev.event_id@,
            ev.room_id@,
            draft@,
            our_message_id@,
            payload@,
            now,
        ),
        final(db)@ == with_pending(
            old(db)@,
            ev.event_id@,
            pending_route(
                ev.room_id@,
                our_message_id@,
                recorded_root(draft@, our_message_id@),
                recorded_subject(draft@),
                payload@,
                now,
            ),
        ),
{
    let is_reply: bool = draft.in_reply_to.is_some();
    let root: Option<&str> = if is_reply {
        match &draft.thread_root {
            Some(r) => Some(r.as_str()),
            None => None,
        }
    } else {
        Some(our_message_id)
    };
    let subject: Option<&str> = if is_reply {
        match &draft.thread_subject {
            Some(s) => Some(s.as_str()),
            None => None,
        }
    } else {
        Some(draft.subject.as_str())
    };
    db.store_matrix_reply_pending(
        ev.event_id.as_str(),
        ev.room_id.as_str(),
        our_message_id,
        root,
        subject,
        payload,
        now,
    );
}

/// Records how the first attempt to send a mail ended. A mail that failed is due again after a
/// minute.
pub fn record_first_attempt(db: &mut Db, event_id: &str, sent: bool, now: i64)
    requires
        now <= i64::MAX - 60,
    ensures
        final(db)@ == after_first_attempt(old(db)@, event_id@, sent, now),
        final(db)@ == (if sent {
            on_route(old(db)@, event_id@, |r: RouteView| accepted(r, now))
        } else {
            on_route(old(db)@, event_id@, |r: RouteView| failed(r, (now + 60) as i64))
        }),
{
    if sent {
        db.mark_route_smtp_accepted(event_id, now);
    } else {
        db.mark_route_failed(event_id, now + 60);
    }
}

/// How far the mail of a message has come.
#[derive(Clone, Copy, Debug, PartialEq, Eq, Structural)]
pub enum SendState {
    /// It is to be recorded as pending.
    ToStore,
    /// It is recorded, and to be sent.
    ToSend,
    /// An attempt to send it was made, and is to be recorded.
    ToRecord,
    /// Nothing more is to be done.
    Over,
}

/// How the work on a mail ended that was asked for.
#[derive(Clone, Copy, Debug, PartialEq, Eq, Structural)]
pub enum SendEvent {
    Stored,
    StoreFailed,
    Sent,
    NotSent,
    /// The attempt was recorded, or could not be.
    Recorded,
}

/// What is to be done with a mail.
#[derive(Clone, Copy, Debug, PartialEq, Eq, Structural)]
pub enum SendAction {
    StorePending,
    Send,
    /// Record the attempt, and whether the mail was sent.
    Record(bool),
    Stop,
}

/// What follows an event. An event that does not belong to the work under way ends it.
pub open spec fn send_after(state: SendState, event: SendEvent) -> (SendState, SendAction) {
    match (state, event) {
        (SendState::ToStore, SendEvent::Stored) => (SendState::ToSend, SendAction::Send),
        (SendState::ToSend, SendEvent::Sent) => (SendState::ToRecord, SendAction::Record(true)),
        (SendState::ToSend, SendEvent::NotSent) => (
            SendState::ToRecord,
            SendAction::Record(false),
        ),
        _ => (SendState::Over, SendAction::Stop),
    }
}

/// A mail on its way: it is recorded as pending, sent once, and the attempt is recorded. Later
/// attempts are those of the retries.
pub struct SendRun {
    state: SendState,
}

impl View for SendRun {
    type V = SendState;

    closed spec fn view(&self) -> SendState {
        self.state
    }
}

impl SendRun {
    /// Begins with the record.
    pub fn start() -> (r: (Self, SendAction))
        ensures
            r.0@ == SendState::ToStore,
            r.1 == SendAction::StorePending,
    {
        (SendRun { state: SendState::ToStore }, SendAction::StorePending)
    }

    /// Goes on after an action ended.
    pub fn next(&mut self, event: SendEvent) -> (r: SendAction)
        ensures
            (final(self)@, r) == send_after(old(self)@, event),
    {
        match (self.state, event) {
            (SendState::ToStore, SendEvent::Stored) => {
                self.state = SendState::ToSend;
                SendAction::Send
            },
            (SendState::ToSend, SendEvent::Sent) => {
                self.state = SendState::ToRecord;
                SendAction::Record(true)
            },
            (SendState::ToSend, SendEvent::NotSent) => {
                self.state = SendState::ToRecord;
                SendAction::Record(false)
            },
            _ => {
                self.state = SendState::Over;
                SendAction::Stop
            },
        }
    }
}

/// The actions that follow one after the other when these events come.
pub open spec fn send_actions(state: SendState, events: Seq<SendEvent>) -> Seq<SendAction>
    decreases events.len(),
{
    if events.len() == 0 {
        seq![]
    } else {
        let next = send_after(state, events.first());
        seq![next.1] + send_actions(next.0, events.drop_first())
    }
}

proof fn lemma_send_over(events: Seq<SendEvent>)
    ensures
        send_actions(SendState::Over, events).len() == events.len(),
        forall|i: int|
            0 <= i < events.len() ==> #[trigger] send_actions(SendState::Over, events)[i]
                == SendAction::Stop,
    decreases events.len(),
{
    if events.len() > 0 {
        let rest = events.drop_first();
        lemma_send_over(rest);
        assert forall|i: int| 0 <= i < events.len() implies #[trigger] send_actions(
            SendState::Over,
            events,
        )[i] == SendAction::Stop by {
            if i > 0 {
                assert(send_actions(SendState::Over, events)[i] == send_actions(
                    SendState::Over,
                    rest,
                )[i - 1]);
            }
        }
    }
}

proof fn lemma_record_over(events: Seq<SendEvent>)
    ensures
        send_actions(SendState::ToRecord, events).len() == events.len(),
        forall|i: int|
            0 <= i < events.len() ==> #[trigger] send_actions(SendState::ToRecord, events)[i]
                == SendAction::Stop,
{
    if events.len() > 0 {
        let rest = events.drop_first();
        lemma_send_over(rest);
        assert forall|i: int| 0 <= i < events.len() implies #[trigger] send_actions(
            SendState::ToRecord,
            events,
        )[i] == SendAction::Stop by {
            if i > 0 {
                assert(send_actions(SendState::ToRecord, events)[i] == send_actions(
                    SendState::Over,
                    rest,
                )[i - 1]);
            }
        }
    }
}

/// Whatever happens, a mail is sent only once it has been recorded as pending, and at most once; an
/// attempt is recorded only after it was made, as what it was, and at most once. The first event is
/// how the recording as pending ended.
pub proof fn law_mail_is_recorded_before_it_is_sent(events: Seq<SendEvent>)
    ensures
        send_actions(SendState::ToStore, events).len() == events.len(),
        forall|i: int|
            0 <= i < events.len() ==> (#[trigger] send_actions(SendState::ToStore, events)[i]
                == SendAction::Send <==> i == 0 && events[0] == SendEvent::Stored),
        forall|i: int|
            0 <= i < events.len() ==> (#[trigger] send_actions(SendState::ToStore, events)[i]
                == SendAction::Record(true) <==> i == 1 && events[0] == SendEvent::Stored
                && events[1] == SendEvent::Sent),
        forall|i: int|
            0 <= i < events.len() ==> (#[trigger] send_actions(SendState::ToStore, events)[i]
                == SendAction::Record(false) <==> i == 1 && events[0] == SendEvent::Stored
                && events[1] == SendEvent::NotSent),
        forall|i: int|
            0 <= i < events.len() ==> #[trigger] send_actions(SendState::ToStore, events)[i]
                != SendAction::StorePending,
{
    let all = send_actions(SendState::ToStore, events);
    if events.len() > 0 {
        let rest = events.drop_first();
        let first = send_after(SendState::ToStore, events[0]);
        lemma_send_over(rest);
        assert(all == seq![first.1] + send_actions(first.0, rest));
        assert forall|i: int| 0 < i < all.len() implies #[trigger] all[i] == send_actions(
            first.0,
            rest,
        )[i - 1] by {}
        if events[0] == SendEvent::Stored && rest.len() > 0 {
            let last = rest.drop_first();
            let second = send_after(SendState::ToSend, rest[0]);
            let tail = send_actions(SendState::ToSend, rest);
            lemma_send_over(last);
            lemma_record_over(last);
            assert(rest[0] == events[1]);
            assert(tail == seq![second.1] + send_actions(second.0, last));
            assert(all[1] == second.1);
            assert forall|i: int| 1 < i < all.len() implies #[trigger] all[i]
                == SendAction::Stop by {
                assert(all[i] == tail[i - 1]);
                assert(tail[i - 1] == send_actions(second.0, last)[i - 2]);
            }
        } else if events[0] == SendEvent::Stored {
            assert(send_actions(SendState::ToSend, rest).len() == 0);
        }
    }
}

/// A message becomes mail only if it is a text that someone other than the bot wrote, in a room that
/// the bot has joined, by a sender who may write to the list; only if it was found not to have been
/// bridged before; and only in the thread of a mail, or as a new thread where those are allowed.
pub proof fn law_only_permitted_messages_become_mail(
    state: ReplyState,
    ev: MessageEvent,
    dedup: Lookup,
    root: Lookup,
    specific: Lookup,
    display_name: Option<Seq<char>>,
)
    requires
        decision(state, ev, dedup, root, specific, display_name) is Ok,
    ensures
        ev.sender@ != state.bot_user_id@,
        ev.room_joined,
        ev.text is Some,
        may_write(state, ev.sender@),
        dedup is Missing,
        ev.thread is Some ==> (root matches Lookup::Found(r) && r@.origin == "email"@),
        ev.thread is None ==> begins_thread(state, ev),
{
}

/// What becomes mail is signed with the ID of the Matrix user who wrote it, has a body, and answers
/// a mail exactly if it stands in a thread.
pub proof fn law_draft_names_its_sender(
    state: ReplyState,
    ev: MessageEvent,
    dedup: Lookup,
    root: Lookup,
    specific: Lookup,
    display_name: Option<Seq<char>>,
)
    requires
        decision(state, ev, dedup, root, specific, display_name) is Ok,
    ensures
        decision(state, ev, dedup, root, specific, display_name)->Ok_0.sender_matrix_id
            == ev.sender@,
        decision(state, ev, dedup, root, specific, display_name)->Ok_0.body.len() > 0,
        decision(state, ev, dedup, root, specific, display_name)->Ok_0.in_reply_to is Some
            <==> ev.thread is Some,
{
}

proof fn lemma_unquoted(list: Seq<Seq<char>>)
    ensures
        forall|i: int|
            0 <= i < unquoted(list).len() ==> !is_reply_quote(#[trigger] unquoted(list)[i]),
        (forall|i: int| 0 <= i < list.len() ==> !is_reply_quote(#[trigger] list[i])) ==> unquoted(
            list,
        ) == list,
    decreases list.len(),
{
    if list.len() > 0 {
        let head = list.drop_last();
        lemma_unquoted(head);
        if forall|i: int| 0 <= i < list.len() ==> !is_reply_quote(#[trigger] list[i]) {
            assert forall|i: int| 0 <= i < head.len() implies !is_reply_quote(
                #[trigger] head[i],
            ) by {
                assert(head[i] == list[i]);
            }
            assert(!is_reply_quote(list[list.len() - 1]));
            assert(unquoted(list) =~= list);
        }
        assert forall|i: int| 0 <= i < unquoted(list).len() implies !is_reply_quote(
            #[trigger] unquoted(list)[i],
        ) by {
            if i < unquoted(head).len() {
                assert(unquoted(list)[i] == unquoted(head)[i]);
            }
        }
    } else {
        assert(unquoted(list) =~= list);
    }
}

proof fn lemma_from_text(list: Seq<Seq<char>>)
    ensures
        from_text(list).len() <= list.len(),
        from_text(list) == list.skip(list.len() - from_text(list).len()),
        from_text(list).len() > 0 ==> !is_blank(from_text(list).first()),
    decreases list.len(),
{
    if list.len() > 0 && is_blank(list.first()) {
        lemma_from_text(list.drop_first());
        let r = from_text(list.drop_first());
        assert(r == list.drop_first().skip(list.drop_first().len() - r.len()));
        assert(r =~= list.skip(list.len() - r.len()));
    } else {
        assert(list =~= list.skip(0));
    }
}

proof fn lemma_up_to_text(list: Seq<Seq<char>>)
    ensures
        up_to_text(list).len() <= list.len(),
        up_to_text(list) == list.take(up_to_text(list).len() as int),
        up_to_text(list).len() > 0 ==> !is_blank(up_to_text(list).last()),
        list.len() > 0 && !is_blank(list.first()) ==> up_to_text(list).len() > 0,
    decreases list.len(),
{
    if list.len() > 0 && is_blank(list.last()) {
        let head = list.drop_last();
        lemma_up_to_text(head);
        let r = up_to_text(head);
        assert(r == head.take(r.len() as int));
        assert(r =~= list.take(r.len() as int));
        if list.len() > 0 && !is_blank(list.first()) {
            assert(list.len() > 1);
            assert(head.first() == list.first());
        }
    } else {
        assert(list =~= list.take(list.len() as int));
    }
}

/// The lines that are kept of a reply are none of them quoted, and the first and the last of them
/// are not blank.
pub proof fn law_reply_body_is_own(raw: Seq<char>)
    ensures
        forall|i: int| 0 <= i < own_lines(raw).len() ==> !is_reply_quote(#[trigger] own_lines(raw)[i]),
        own_lines(raw).len() > 0 ==> !is_blank(own_lines(raw).first()) && !is_blank(
            own_lines(raw).last(),
        ),
{
    let a = unquoted(text_lines(raw));
    let b = from_text(a);
    let c = up_to_text(b);
    lemma_unquoted(text_lines(raw));
    lemma_from_text(a);
    lemma_up_to_text(b);
    assert forall|i: int| 0 <= i < c.len() implies !is_reply_quote(#[trigger] c[i]) by {
        assert(c[i] == b[i]);
        assert(b[i] == a[i + (a.len() - b.len())]);
    }
    if c.len() > 0 {
        assert(c.first() == b.first());
    }
}

/// A text without quoted lines and without blank lines at its ends keeps all its lines.
pub proof fn law_own_text_is_kept(raw: Seq<char>)
    requires
        forall|i: int|
            0 <= i < text_lines(raw).len() ==> !is_reply_quote(#[trigger] text_lines(raw)[i]),
        text_lines(raw).len() > 0,
        !is_blank(text_lines(raw).first()),
        !is_blank(text_lines(raw).last()),
    ensures
        own_lines(raw) == text_lines(raw),
{
    lemma_unquoted(text_lines(raw));
}

proof fn lemma_without(list: Seq<Seq<char>>, id: Seq<char>)
    ensures
        !without(list, id).contains(id),
        forall|x: Seq<char>| #[trigger] without(list, id).contains(x) ==> list.contains(x),
        forall|x: Seq<char>| x != id && #[trigger] list.contains(x) ==> without(list, id).contains(x),
        list.no_duplicates() ==> without(list, id).no_duplicates(),
    decreases list.len(),
{
    if list.len() > 0 {
        let head = list.drop_last();
        let rest = without(head, id);
        let all = without(list, id);
        lemma_without(head, id);
        assert(list =~= head.push(list.last()));
        assert forall|x: Seq<char>| list.contains(x) <==> (head.contains(x) || x == list.last()) by {
            if head.contains(x) {
                let i = head.index_of(x);
                assert(list[i] == x);
            }
            assert(list[list.len() - 1] == list.last());
            if list.contains(x) {
                let i = list.index_of(x);
                if i < head.len() {
                    assert(head[i] == x);
                }
            }
        }
        assert forall|x: Seq<char>| all.contains(x) <==> (rest.contains(x) || (x == list.last() && x
            != id)) by {
            if rest.contains(x) {
                let i = rest.index_of(x);
                assert(all[i] == x);
            }
            if list.last() != id {
                assert(all[rest.len() as int] == list.last());
            }
            if all.contains(x) {
                let i = all.index_of(x);
                if i < rest.len() {
                    assert(rest[i] == x);
                }
            }
        }
        if list.no_duplicates() {
            assert(head.no_duplicates());
            if list.last() != id {
                assert(!head.contains(list.last())) by {
                    if head.contains(list.last()) {
                        let i = head.index_of(list.last());
                        assert(list[i] == list[list.len() - 1]);
                    }
                }
                assert(!rest.contains(list.last()));
                assert(all =~= rest.push(list.last()));
            }
        }
    }
}

/// The older mails of a thread are listed each once, and the mail that is answered is not among
/// them.
pub proof fn law_ancestors_are_distinct(
    root: RecordView,
    specific: Option<RecordView>,
    in_reply_to: Seq<char>,
)
    ensures
        ancestors(root, specific, in_reply_to).no_duplicates(),
        !ancestors(root, specific, in_reply_to).contains(in_reply_to),
        root.email_message_id != in_reply_to ==> ancestors(root, specific, in_reply_to).contains(
            root.email_message_id,
        ),
{
    let a = with_new_option(Seq::<Seq<char>>::empty(), root.thread_root_email_message_id);
    let b = with_new(a, root.email_message_id);
    let c = match specific {
        Some(s) => with_new_option(b, s.thread_root_email_message_id),
        None => b,
    };
    assert(a.no_duplicates());
    lemma_with_new(a, root.email_message_id);
    if let Some(s) = specific {
        if let Some(t) = s.thread_root_email_message_id {
            lemma_with_new(b, t);
        }
    }
    lemma_without(c, in_reply_to);
}

proof fn lemma_with_new(list: Seq<Seq<char>>, id: Seq<char>)
    requires
        list.no_duplicates(),
    ensures
        with_new(list, id).no_duplicates(),
        with_new(list, id).contains(id),
        forall|x: Seq<char>| #[trigger] list.contains(x) ==> with_new(list, id).contains(x),
{
    let r = with_new(list, id);
    if !list.contains(id) {
        assert(r[list.len() as int] == id);
        assert forall|x: Seq<char>| #[trigger] list.contains(x) implies r.contains(x) by {
            let i = list.index_of(x);
            assert(r[i] == x);
        }
    }
}

} // verus!
