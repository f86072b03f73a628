//! What holds of rooms: which of them are posted to and joined, and who gives commands in them.
#[allow(unused_imports)]
use crate::email::EmailView;
#[allow(unused_imports)]
use crate::matrix_ids::{event_id_parses, room_server_of, server_name_parses, server_of, user_id_parses};
#[allow(unused_imports)]
use crate::matrix_post::{
    after_post, media_type, posting_rooms, recorded_root, step_after, step_before, thread_event_of,
    thread_info_of, upload_of, upload_plan, with_post, RoomInfo, StepView, ThreadInfo,
};
#[allow(unused_imports)]
use crate::matrix_reply::with_new;
#[allow(unused_imports)]
use crate::records::{record_of, DbView, ThreadView};
#[allow(unused_imports)]
use crate::text::{is_white, trimmed, views};
#[allow(unused_imports)]
use crate::text_laws::{all_white, law_trimming_cuts_white_ends, law_trimming_finds_the_core};
#[allow(unused_imports)]
use crate::verify::{
    allowed_after, command, command_target, invite_action, is_command, join_after, join_servers,
    said_by, BotState, CommandView, InviteAction, JoinOutcome, JoinStep, JOIN_ATTEMPTS,
};
use vstd::prelude::*;

verus! {

/// Mail is posted to every room that the bot has joined and may serve, to no other, to each once, and
/// in the order of the list.
pub proof fn law_every_room_is_chosen(rooms: Seq<RoomInfo>)
    ensures
        forall|i: int| #[trigger]
            posting_rooms(rooms).contains(i) <==> 0 <= i < rooms.len() && rooms[i].joined
                && rooms[i].allowed,
        forall|k: int, m: int|
            0 <= k < m < posting_rooms(rooms).len() ==> #[trigger] posting_rooms(rooms)[k]
                < #[trigger] posting_rooms(rooms)[m],
    decreases rooms.len(),
{
    if rooms.len() > 0 {
        let head = rooms.drop_last();
        let n = rooms.len() - 1;
        law_every_room_is_chosen(head);
        let before = posting_rooms(head);
        let all = posting_rooms(rooms);
        assert forall|k: int| 0 <= k < before.len() implies #[trigger] before[k] < n by {
            assert(before.contains(before[k]));
        }
        assert forall|i: int| #[trigger] all.contains(i) <==> 0 <= i < rooms.len() && rooms[i].joined
            && rooms[i].allowed by {
            if i != n {
                assert(0 <= i < n ==> head[i] == rooms[i]);
                assert(all.contains(i) <==> before.contains(i)) by {
                    if before.contains(i) {
                        let k = before.index_of(i);
                        assert(all[k] == i);
                    }
                    if all.contains(i) {
                        let k = all.index_of(i);
                        assert(k < before.len());
                        assert(before[k] == i);
                    }
                }
            } else {
                if rooms[n].joined && rooms[n].allowed {
                    assert(all[before.len() as int] == n);
                }
                if all.contains(n) {
                    let k = all.index_of(n);
                    if k < before.len() {
                        assert(before[k] == n);
                    }
                }
            }
        }
        assert forall|k: int, m: int| 0 <= k < m < all.len() implies #[trigger] all[k]
            < #[trigger] all[m] by {
            assert(all[k] == before[k]);
            if m < before.len() {
                assert(all[m] == before[m]);
            }
        }
    }
}

/// The steps that follow one after the other while the posts end with these events, from the room at
/// `at` on.
pub open spec fn posting_steps(at: int, rooms: int, events: Seq<Seq<char>>) -> Seq<StepView>
    decreases events.len(),
{
    if events.len() == 0 {
        seq![]
    } else {
        let step = step_after(at, rooms, Some(events.first()));
        match step {
            StepView::Send(next) => seq![step] + posting_steps(next, rooms, events.drop_first()),
            _ => seq![step],
        }
    }
}

/// A mail that no room refuses is sent to all of them, one after the other from the first to the last,
/// and recorded once, under the event of the last; nothing is recorded before.
pub proof fn law_mail_goes_to_every_room(at: int, rooms: int, events: Seq<Seq<char>>)
    requires
        0 <= at < rooms,
        events.len() == rooms - at,
    ensures
        step_before(rooms) == StepView::Send(0),
        posting_steps(at, rooms, events).len() == rooms - at,
        forall|k: int|
            0 <= k < rooms - at - 1 ==> #[trigger] posting_steps(at, rooms, events)[k]
                == StepView::Send(at + 1 + k),
        posting_steps(at, rooms, events).last() == StepView::Record(events.last()),
    decreases events.len(),
{
    if at + 1 < rooms {
        let rest = events.drop_first();
        law_mail_goes_to_every_room(at + 1, rooms, rest);
        let tail = posting_steps(at + 1, rooms, rest);
        let all = posting_steps(at, rooms, events);
        assert(all == seq![StepView::Send(at + 1)] + tail);
        assert forall|k: int| 0 <= k < rooms - at - 1 implies #[trigger] all[k] == StepView::Send(
            at + 1 + k,
        ) by {
            if k > 0 {
                assert(all[k] == tail[k - 1]);
            }
        }
        assert(all.last() == tail.last());
    }
}

/// A room that refuses a mail ends the posting, and without a room nothing is posted.
pub proof fn law_refusal_ends_the_posting(at: int, rooms: int)
    ensures
        step_after(at, rooms, None) == StepView::Fail,
        step_before(0) == StepView::NoRoom,
{
}

/// A mail is posted in the thread of the event that its thread hangs on, if that is known and its ID is
/// well formed; else it stands alone.
pub proof fn law_thread_of_a_post(email: EmailView, db: DbView, root: Seq<char>, info: ThreadInfo)
    ensures
        email.thread_root is None ==> thread_info_of(email, db) is None,
        email.thread_root == Some(root) && !db.threads.contains_key(root) ==> thread_info_of(
            email,
            db,
        ) is None,
        email.thread_root == Some(root) && db.threads.contains_key(root) ==> thread_info_of(email, db)
            == Some(db.threads[root]),
        thread_event_of(None) is None,
        event_id_parses(info.root_event_id@) ==> thread_event_of(Some(info)) == Some(
            info.root_event_id@,
        ),
        !event_id_parses(info.root_event_id@) ==> thread_event_of(Some(info)) is None,
{
}

/// A posted mail is recorded in its thread, or as the beginning of one: the mail leads to the event and
/// the event to the mail, and nothing else in the records changes.
pub proof fn law_record_of_a_post(
    db: DbView,
    email: EmailView,
    event_id: Seq<char>,
    root: Seq<char>,
    now: i64,
    info: ThreadInfo,
    other: Seq<char>,
)
    ensures
        recorded_root(email, None) == email.message_id,
        recorded_root(email, Some(info)) == info.thread_root_id@,
        ({
            let after = with_post(db, email, event_id, root, now);
            let t = after.threads[email.message_id];
            let r = after.routes[event_id];
            &&& after.threads.contains_key(email.message_id)
            &&& t.matrix_event_id == event_id && t.thread_root_id == root && t.mailbox
                == email.mailbox && t.created_at == now
            &&& after.routes.contains_key(event_id)
            &&& r.email_message_id == email.message_id && r.thread_root_email_message_id == Some(root)
                && r.subject == Some(email.subject) && r.origin == "email"@ && r.created_at == now
            &&& r.smtp_status is None && r.smtp_attempts == 0 && r.smtp_next_retry_at is None
                && r.smtp_payload is None && r.room_id is None
            &&& other != email.message_id ==> (after.threads.contains_key(other)
                <==> db.threads.contains_key(other)) && (db.threads.contains_key(other)
                ==> after.threads[other] == db.threads[other])
            &&& other != event_id ==> (after.routes.contains_key(other)
                <==> db.routes.contains_key(other)) && (db.routes.contains_key(other)
                ==> after.routes[other] == db.routes[other])
            &&& after.seen == db.seen && after.retries == db.retries && after.meta == db.meta
        }),
{
}

/// An attachment is uploaded under its own media type, or as bytes where that cannot be read, and shown
/// as an image exactly if its main type is that of images.
pub proof fn law_attachment_is_uploaded_under_its_type(full: Seq<char>, main: Seq<char>)
    ensures
        upload_of(Some((full, main))).0 == full,
        upload_of(Some((full, main))).1 <==> main == "image"@,
        upload_of(None).0 == "application/octet-stream"@,
        !upload_of(None).1,
{
}

/// The bot joins a room exactly if it is itself invited, by someone and to a room that are allowed; an
/// invitation of someone else is left alone.
pub proof fn law_only_allowed_invitations_are_taken(
    bot: Seq<char>,
    invited: Seq<char>,
    inviter_allowed: bool,
    room_allowed: bool,
)
    ensures
        invite_action(bot, invited, inviter_allowed, room_allowed) == InviteAction::Join <==> invited
            == bot && inviter_allowed && room_allowed,
        invite_action(bot, invited, inviter_allowed, room_allowed) == InviteAction::Ignore <==> invited
            != bot,
        invite_action(bot, invited, inviter_allowed, room_allowed) == InviteAction::RejectRoom
            <==> invited == bot && inviter_allowed && !room_allowed,
{
}

/// A room is joined through the server of who invited the bot and through its own, if that is a server
/// name, and through no other.
pub proof fn law_servers_of_a_room(inviter: Option<Seq<char>>, room_id: Seq<char>, x: Seq<char>)
    ensures
        join_servers(inviter, room_id).contains(x) <==> {
            ||| inviter is Some && server_of(inviter->0) == Some(x)
            ||| server_of(room_id) == Some(x) && server_name_parses(x)
        },
{
    let all = join_servers(inviter, room_id);
    let first = match inviter {
        Some(user) => match server_of(user) {
            Some(s) => seq![s],
            None => Seq::<Seq<char>>::empty(),
        },
        None => Seq::<Seq<char>>::empty(),
    };
    if inviter is Some && server_of(inviter->0) == Some(x) {
        assert(all[0] == x);
    }
    if let Some(s) = room_server_of(room_id) {
        if first.contains(s) {
            let i = first.index_of(s);
            assert(all[i] == s);
        } else {
            assert(all[first.len() as int] == s);
        }
    }
    if all.contains(x) {
        let i = all.index_of(x);
        if i < first.len() {
            assert(first[i] == x);
        }
    }
}

/// After a failure the bot tries again, until the eighth attempt; it waits for as long as it is told,
/// then twice as long, but never more than five minutes. Success and a final refusal end the attempts.
pub proof fn law_attempts_to_join(attempt: int, delay: u64)
    requires
        1 <= attempt,
        2 <= delay <= 300,
    ensures
        join_after(attempt, delay as int, JoinOutcome::Joined).0 == JoinStep::Done,
        join_after(attempt, delay as int, JoinOutcome::Refused).0 == JoinStep::GiveUp,
        attempt >= 8 ==> join_after(attempt, delay as int, JoinOutcome::Failed).0 == JoinStep::GiveUp,
        attempt < 8 ==> {
            let next = join_after(attempt, delay as int, JoinOutcome::Failed);
            &&& next.0 == JoinStep::RetryAfter(delay)
            &&& next.1 == attempt + 1
            &&& 2 * delay <= 300 ==> next.2 == 2 * delay
            &&& 2 * delay > 300 ==> next.2 == 300
        },
{
}

/// A message is the command exactly if its text, but for white space before it, begins with the words
/// of the command and a blank, something other than white space follows, and someone other than the
/// bot wrote it in a room that the bot has joined. The user that it names is what follows.
pub proof fn law_command_is_recognised(
    state: BotState,
    sender: Seq<char>,
    a: Seq<char>,
    between: Seq<char>,
    user: Seq<char>,
    b: Seq<char>,
)
    requires
        all_white(a),
        all_white(between),
        all_white(b),
        user.len() > 0,
        !is_white(user.first()) && !is_white(user.last()),
    ensures
        ({
            let text = a + ("!reset-trust "@ + between + user) + b;
            &&& is_command(state, sender, true, Some(text)) <==> sender != state.bot_user_id@
            &&& !is_command(state, sender, false, Some(text))
            &&& command_target(text) == user
        }),
        !is_command(state, sender, true, None),
{
    reveal_strlit("!reset-trust ");
    let c = "!reset-trust "@;
    let core = c + between + user;
    assert(core.first() == '!');
    assert(core.last() == user.last());
    law_trimming_finds_the_core(a, core, b);
    assert(core.subrange(0, c.len() as int) =~= c);
    assert(core.skip(c.len() as int) =~= between + user + Seq::<char>::empty());
    law_trimming_finds_the_core(between, user, Seq::empty());
}

/// A text that does not begin with the words of the command is none.
pub proof fn law_other_texts_are_no_command(
    state: BotState,
    sender: Seq<char>,
    joined: bool,
    text: Seq<char>,
)
    requires
        is_command(state, sender, joined, Some(text)),
    ensures
        trimmed(text).len() > 13,
        trimmed(text).take(13) == "!reset-trust "@,
        joined,
        sender != state.bot_user_id@,
{
    reveal_strlit("!reset-trust ");
    let t = trimmed(text);
    assert(t.take(13) =~= t.subrange(0, 13));
    if t.len() == 13 {
        law_trimming_cuts_white_ends(text);
        let (i, j) = choose|i: int, j: int|
            {
                &&& 0 <= i <= j <= text.len()
                &&& t == #[trigger] text.subrange(i, j)
                &&& forall|k: int| 0 <= k < i || j <= k < text.len() ==> is_white(#[trigger] text[k])
                &&& i < j ==> !is_white(text[i]) && !is_white(text[j - 1])
            };
        assert(t[12] == text[j - 1]);
        assert(t.take(13)[12] == t[12]);
        assert("!reset-trust "@[12] == ' ');
    }
}

/// The command allows a user's keys to change exactly if an administrator gives it and it names a user;
/// anyone else is refused, and what is no command says nothing.
pub proof fn law_only_administrators_command(
    state: BotState,
    sender: Seq<char>,
    joined: bool,
    text: Option<Seq<char>>,
)
    ensures
        !is_command(state, sender, joined, text) ==> said_by(state, sender, joined, text)
            == CommandView::Other,
        is_command(state, sender, joined, text) && !(exists|i: int|
            0 <= i < state.admin_users@.len() && #[trigger] state.admin_users@[i]@ == sender)
            ==> said_by(state, sender, joined, text) == CommandView::NotAdmin,
        is_command(state, sender, joined, text) && (exists|i: int|
            0 <= i < state.admin_users@.len() && #[trigger] state.admin_users@[i]@ == sender)
            ==> said_by(state, sender, joined, text) == (if user_id_parses(command_target(text->0)) {
            CommandView::Allow(command_target(text->0))
        } else {
            CommandView::InvalidUser(command_target(text->0))
        }),
{
    let list = state.admin_users@;
    if views(list).contains(sender) {
        let i = views(list).index_of(sender);
        assert(views(list)[i] == sender);
        assert(list[i]@ == sender);
    }
    if exists|i: int| 0 <= i < list.len() && #[trigger] list[i]@ == sender {
        let i = choose|i: int| 0 <= i < list.len() && #[trigger] list[i]@ == sender;
        assert(views(list)[i] == sender);
    }
}

/// An entry is added to a list at its end, and only if it is not there already.
pub proof fn law_new_entry_comes_last(list: Seq<Seq<char>>, x: Seq<char>)
    ensures
        list.contains(x) ==> with_new(list, x) == list,
        !list.contains(x) ==> with_new(list, x) == list + seq![x],
{
    assert(list.push(x) =~= list + seq![x]);
}

/// A mail that is posted in a thread is recorded under the root of that thread, and one that begins a
/// thread under itself; the answers to both find their way by it.
pub proof fn law_post_is_recorded_in_its_thread(
    db: DbView,
    email: EmailView,
    event_id: Seq<char>,
    info: ThreadInfo,
    now: i64,
)
    ensures
        ({
            let inside = after_post(db, email, event_id, Some(info), now);
            let alone = after_post(db, email, event_id, None, now);
            &&& inside.threads.contains_key(email.message_id) && alone.threads.contains_key(
                email.message_id,
            )
            &&& inside.threads[email.message_id].thread_root_id == info.thread_root_id@
            &&& alone.threads[email.message_id].thread_root_id == email.message_id
            &&& inside.threads[email.message_id].matrix_event_id == event_id
            &&& alone.threads[email.message_id].matrix_event_id == event_id
            &&& inside.routes[event_id].thread_root_email_message_id == Some(info.thread_root_id@)
            &&& alone.routes[event_id].thread_root_email_message_id == Some(email.message_id)
            &&& inside.routes[event_id].email_message_id == email.message_id
            &&& alone.routes[event_id].email_message_id == email.message_id
            &&& inside.routes[event_id].subject == Some(email.subject)
            &&& inside.routes[event_id].origin == "email"@
            &&& alone.routes[event_id].origin == "email"@
        }),
{
}

/// An attachment is posted exactly if it is not larger than the limit, and as what its content type
/// says.
pub proof fn law_which_attachment_is_posted(size: nat, content_type: Seq<char>, limit: nat)
    ensures
        upload_plan(size, content_type, limit) is Some <==> size <= limit,
        size <= limit && media_type(content_type) is None ==> upload_plan(size, content_type, limit)
            == Some(("application/octet-stream"@, false)),
        size <= limit && media_type(content_type) is Some ==> upload_plan(size, content_type, limit)
            == Some(
            ((media_type(content_type)->0).0, (media_type(content_type)->0).1 == "image"@),
        ),
{
}

/// The keys of a user may change once the command allows it, and those of no one else by it.
pub proof fn law_allowed_users(before: Seq<Seq<char>>, user: Seq<char>, other: Seq<char>)
    ensures
        allowed_after(before, CommandView::Allow(user)).contains(user),
        other != user ==> (allowed_after(before, CommandView::Allow(user)).contains(other)
            <==> before.contains(other)),
        allowed_after(before, CommandView::Other) == before,
        allowed_after(before, CommandView::NotAdmin) == before,
        allowed_after(before, CommandView::InvalidUser(user)) == before,
{
    let after = allowed_after(before, CommandView::Allow(user));
    if !before.contains(user) {
        assert(after[before.len() as int] == user);
        if before.contains(other) {
            let i = before.index_of(other);
            assert(after[i] == other);
        }
        if after.contains(other) && other != user {
            let i = after.index_of(other);
            assert(before[i] == other);
        }
    }
}

} // verus!
