//! Invitations to rooms, and the command by which an administrator allows a user's keys to change.
use crate::matrix_ids::{is_user_id, room_server_name, server_name};
#[allow(unused_imports)]
use crate::matrix_ids::{room_server_of, server_of, user_id_parses};
#[allow(unused_imports)]
use crate::matrix_reply::with_new;
use crate::text::{list_contains, same_text, starts_with, text_from, trim};
#[allow(unused_imports)]
use crate::text::{opt_str_view, trimmed, views};
use vstd::prelude::*;

verus! {

/// What the bot knows of itself and of those who administer it.
pub struct BotState {
    pub bot_user_id: String,
    pub admin_users: Vec<String>,
    /// Users whose keys may change once.
    pub reset_allowed: Vec<String>,
}

/// What becomes of a change of membership in a room.
#[derive(Clone, Copy, Debug, PartialEq, Eq, Structural)]
pub enum InviteAction {
    /// It is not about the bot.
    Ignore,
    /// The invitation is refused because of who sent it.
    RejectInviter,
    /// The invitation is refused because of the room.
    RejectRoom,
    Join,
}

/// What becomes of a change of membership.
pub open spec fn invite_action(
    bot: Seq<char>,
    invited: Seq<char>,
    inviter_allowed: bool,
    room_allowed: bool,
) -> InviteAction {
    if invited != bot {
        InviteAction::Ignore
    } else if !inviter_allowed {
        InviteAction::RejectInviter
    } else if !room_allowed {
        InviteAction::RejectRoom
    } else {
        InviteAction::Join
    }
}

/// Decides on a change of membership, given whom it is about and whether the inviter and the room
/// are allowed.
pub fn decide_invite(
    state: &BotState,
    invited: &str,
    inviter_allowed: bool,
    room_allowed: bool,
) -> (r: InviteAction)
    ensures
        r == invite_action(state.bot_user_id@, invited@, inviter_allowed, room_allowed),
        r == (if invited@ != state.bot_user_id@ {
            InviteAction::Ignore
        } else if !inviter_allowed {
            InviteAction::RejectInviter
        } else if !room_allowed {
            InviteAction::RejectRoom
        } else {
            InviteAction::Join
        }),
{
    if !same_text(invited, state.bot_user_id.as_str()) {
        InviteAction::Ignore
    } else if !inviter_allowed {
        InviteAction::RejectInviter
    } else if !room_allowed {
        InviteAction::RejectRoom
    } else {
        InviteAction::Join
    }
}

/// The servers through which a room can be joined: that of the inviter, if there is one, and that of
/// the room, each once.
pub open spec fn join_servers(inviter: Option<Seq<char>>, room_id: Seq<char>) -> Seq<Seq<char>> {
    let first = match inviter {
        Some(user) => match server_of(user) {
            Some(s) => seq![s],
            None => seq![],
        },
        None => seq![],
    };
    match room_server_of(room_id) {
        Some(s) => with_new(first, s),
        None => first,
    }
}

/// The servers through which a room can be joined. For an invitation of an earlier run no inviter is
/// known.
pub fn via_servers(inviter: Option<&str>, room_id: &str) -> (r: Vec<String>)
    ensures
        views(r@) == join_servers(opt_str_view(inviter), room_id@),
{
    let mut via: Vec<String> = Vec::new();
    assert(views(via@) =~= Seq::<Seq<char>>::empty());
    if let Some(user) = inviter {
        if let Some(s) = server_name(user) {
            via.push(s);
            assert(views(via@) =~= seq![s@]);
        }
    }
    let ghost first = views(via@);
    if let Some(s) = room_server_name(room_id) {
        if !list_contains(&via, s.as_str()) {
            via.push(s);
            assert(views(via@) =~= first.push(s@));
        }
    }
    via
}

/// How an attempt to join a room ended.
#[derive(Clone, Copy, Debug, PartialEq, Eq, Structural)]
pub enum JoinOutcome {
    Joined,
    /// The failure is one that a further attempt cannot mend.
    Refused,
    Failed,
}

/// What follows an attempt to join a room.
#[derive(Clone, Copy, Debug, PartialEq, Eq, Structural)]
pub enum JoinStep {
    Done,
    GiveUp,
    /// Try again after so many seconds.
    RetryAfter(u64),
}

/// The number of attempts to join a room.
pub const JOIN_ATTEMPTS: u32 = 8;

/// What follows an attempt to join a room, given its number and the wait if it fails; and the number
/// and the wait of the attempt that is under way then.
pub open spec fn join_after(attempt: int, delay: int, outcome: JoinOutcome) -> (JoinStep, int, int) {
    match outcome {
        JoinOutcome::Joined => (JoinStep::Done, attempt, delay),
        JoinOutcome::Refused => (JoinStep::GiveUp, attempt, delay),
        JoinOutcome::Failed => if attempt >= JOIN_ATTEMPTS {
            (JoinStep::GiveUp, attempt, delay)
        } else {
            (
                JoinStep::RetryAfter(delay as u64),
                attempt + 1,
                if delay > 150 {
                    300
                } else {
                    delay * 2
                },
            )
        },
    }
}

/// The attempts to join one room.
pub struct JoinRun {
    attempt: u32,
    delay: u64,
}

impl JoinRun {
    /// The number of the attempt under way, counted from one.
    pub closed spec fn attempt(self) -> u32 {
        self.attempt
    }

    /// The seconds to wait if the attempt under way fails: two after the first, doubled with each.
    pub closed spec fn delay(self) -> u64 {
        self.delay
    }

    #[verifier::type_invariant]
    closed spec fn in_bounds(self) -> bool {
        &&& 1 <= self.attempt <= JOIN_ATTEMPTS
        &&& 2 <= self.delay <= 300
    }

    /// The first attempt.
    pub fn new() -> (r: Self)
        ensures
            r.attempt() == 1,
            r.delay() == 2,
    {
        JoinRun { attempt: 1, delay: 2 }
    }

    /// Decides what follows the attempt under way; where another follows, that one is under way
    /// then.
    pub fn next(&mut self, outcome: JoinOutcome) -> (step: JoinStep)
        ensures
            (step, final(self).attempt() as int, final(self).delay() as int) == join_after(
                old(self).attempt() as int,
                old(self).delay() as int,
                outcome,
            ),
            match outcome {
                JoinOutcome::Joined => step == JoinStep::Done,
                JoinOutcome::Refused => step == JoinStep::GiveUp,
                JoinOutcome::Failed => if old(self).attempt() >= JOIN_ATTEMPTS {
                    step == JoinStep::GiveUp
                } else {
                    &&& step == JoinStep::RetryAfter(old(self).delay())
                    &&& final(self).attempt() == old(self).attempt() + 1
                    &&& final(self).delay() == (if old(self).delay() > 150 {
                        300
                    } else {
                        old(self).delay() * 2
                    })
                },
            },
            !(step is RetryAfter) ==> *final(self) == *old(self),
    {
        proof {
            use_type_invariant(&*self);
        }
        match outcome {
            JoinOutcome::Joined => JoinStep::Done,
            JoinOutcome::Refused => JoinStep::GiveUp,
            JoinOutcome::Failed => {
                if self.attempt >= JOIN_ATTEMPTS {
                    return JoinStep::GiveUp;
                }
                let wait: u64 = self.delay;
                let longer: u64 = if wait > 150 {
                    300
                } else {
                    wait * 2
                };
                *self = JoinRun { attempt: self.attempt + 1, delay: longer };
                JoinStep::RetryAfter(wait)
            },
        }
    }
}

/// What a message says to the bot.
#[derive(Debug)]
pub enum TrustCommand {
    /// Nothing that concerns keys.
    Other,
    /// The command, from someone who may not give it.
    NotAdmin,
    /// The command, with something that is no user ID.
    InvalidUser(String),
    /// The keys of this user may change.
    Allow(String),
}

/// The text of the command.
pub open spec fn command() -> Seq<char> {
    "!reset-trust "@
}

/// The message is the command: a text in a room that the bot has joined, by someone else.
pub open spec fn is_command(state: BotState, sender: Seq<char>, room_joined: bool, text: Option<
    Seq<char>,
>) -> bool {
    &&& sender != state.bot_user_id@
    &&& room_joined
    &&& text matches Some(body) && command().is_prefix_of(trimmed(body))
}

/// The user that a command names.
pub open spec fn command_target(body: Seq<char>) -> Seq<char> {
    trimmed(trimmed(body).skip(command().len() as int))
}

pub ghost enum CommandView {
    Other,
    NotAdmin,
    InvalidUser(Seq<char>),
    Allow(Seq<char>),
}

impl View for TrustCommand {
    type V = CommandView;

    open spec fn view(&self) -> CommandView {
        match *self {
            TrustCommand::Other => CommandView::Other,
            TrustCommand::NotAdmin => CommandView::NotAdmin,
            TrustCommand::InvalidUser(user) => CommandView::InvalidUser(user@),
            TrustCommand::Allow(user) => CommandView::Allow(user@),
        }
    }
}

/// What a message says to the bot.
pub open spec fn said_by(state: BotState, sender: Seq<char>, room_joined: bool, text: Option<
    Seq<char>,
>) -> CommandView {
    if !is_command(state, sender, room_joined, text) {
        CommandView::Other
    } else if !views(state.admin_users@).contains(sender) {
        CommandView::NotAdmin
    } else if user_id_parses(command_target(text->0)) {
        CommandView::Allow(command_target(text->0))
    } else {
        CommandView::InvalidUser(command_target(text->0))
    }
}

/// Reads a message as a command to the bot.
pub fn read_command(state: &BotState, sender: &str, room_joined: bool, text: Option<&str>) -> (r:
    TrustCommand)
    ensures
        r@ == said_by(*state, sender@, room_joined, opt_str_view(text)),
        match r {
            TrustCommand::Other => !is_command(
                *state,
                sender@,
                room_joined,
                opt_str_view(text),
            ),
            TrustCommand::NotAdmin => {
                &&& is_command(*state, sender@, room_joined, opt_str_view(text))
                &&& !views(state.admin_users@).contains(sender@)
            },
            TrustCommand::InvalidUser(user) => {
                &&& is_command(*state, sender@, room_joined, opt_str_view(text))
                &&& views(state.admin_users@).contains(sender@)
                &&& user@ == command_target(text->0@)
                &&& !user_id_parses(user@)
            },
            TrustCommand::Allow(user) => {
                &&& is_command(*state, sender@, room_joined, opt_str_view(text))
                &&& views(state.admin_users@).contains(sender@)
                &&& user@ == command_target(text->0@)
                &&& user_id_parses(user@)
            },
        },
{
    if same_text(sender, state.bot_user_id.as_str()) || !room_joined {
        return TrustCommand::Other;
    }
    match text {
        Some(body) => {
            let raw = trim(body);
            if !starts_with(raw.as_str(), "!reset-trust ") {
                return TrustCommand::Other;
            }
            if !list_contains(&state.admin_users, sender) {
                return TrustCommand::NotAdmin;
            }
            proof {
                reveal_strlit("!reset-trust ");
            }
            let target = trim(text_from(raw.as_str(), 13).as_str());
            if is_user_id(target.as_str()) {
                TrustCommand::Allow(target)
            } else {
                TrustCommand::InvalidUser(target)
            }
        },
        None => TrustCommand::Other,
    }
}

/// The users whose keys may change after something was said.
pub open spec fn allowed_after(before: Seq<Seq<char>>, said: CommandView) -> Seq<Seq<char>> {
    match said {
        CommandView::Allow(user) => with_new(before, user),
        _ => before,
    }
}

impl BotState {
    /// Carries out a command: the user that it allows is noted, once.
    pub fn apply(&mut self, said: &TrustCommand)
        ensures
            final(self).bot_user_id == old(self).bot_user_id,
            final(self).admin_users == old(self).admin_users,
            views(final(self).reset_allowed@) == allowed_after(
                views(old(self).reset_allowed@),
                said@,
            ),
            views(final(self).reset_allowed@) == (match *said {
                TrustCommand::Allow(user) => with_new(views(old(self).reset_allowed@), user@),
                _ => views(old(self).reset_allowed@),
            }),
    {
        if let TrustCommand::Allow(user) = said {
            let ghost before = views(self.reset_allowed@);
            if !list_contains(&self.reset_allowed, user.as_str()) {
                self.reset_allowed.push(user.clone());
                assert(views(self.reset_allowed@) =~= before.push(user@));
            }
        }
    }
}

/// A server is asked at most once to let the bot into a room.
pub proof fn law_join_servers_are_distinct(inviter: Option<Seq<char>>, room_id: Seq<char>)
    ensures
        join_servers(inviter, room_id).no_duplicates(),
        join_servers(inviter, room_id).len() <= 2,
        inviter matches Some(user) ==> (server_of(user) matches Some(s) ==> join_servers(
            inviter,
            room_id,
        ).len() > 0 && join_servers(inviter, room_id)[0] == s),
{
}

} // verus!
