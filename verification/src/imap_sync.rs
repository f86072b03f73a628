//! Which messages of the mailbox are fetched, in which order, and what is recorded of them.
use crate::config::ImapConfig;
use crate::db::Db;
#[allow(unused_imports)]
use crate::db_laws::law_last_uid_reads_back;
use crate::email::RawEmail;
#[allow(unused_imports)]
use crate::records::{last_uid_of, with_last_uid, with_seen, DbView};
use crate::text::decimal_text;
#[allow(unused_imports)]
use crate::text::{decimal, opt_view};
use vstd::prelude::*;

verus! {

/// The address of the mail server.
pub open spec fn address_of(host: Seq<char>, port: u16) -> Seq<char> {
    host + ":"@ + decimal(port as nat)
}

/// The address of the mail server.
pub fn server_address(config: &ImapConfig) -> (r: String)
    ensures
        r@ == address_of(config.host@, config.port),
        r@ == config.host@ + ":"@ + decimal(config.port as nat),
{
    let mut s = config.host.clone();
    s.append(":");
    s.append(decimal_text(config.port as u64).as_str());
    s
}

/// Seconds to wait before the first attempt to connect again.
pub const FIRST_DELAY: u64 = 5;

/// The longest wait between attempts to connect.
pub const LONGEST_DELAY: u64 = 300;

/// The wait after a further failure: twice as long, up to the longest.
pub open spec fn longer_delay(delay: u64) -> u64 {
    if delay > 150 {
        LONGEST_DELAY
    } else {
        (delay * 2) as u64
    }
}

/// The wait after the connection ended.
pub open spec fn reconnect_delay(delay: u64, ended_in_order: bool) -> u64 {
    if ended_in_order {
        FIRST_DELAY
    } else {
        longer_delay(delay)
    }
}

/// The wait after the connection ended: the first one again if it ended in order, a longer one if it
/// failed.
pub fn next_reconnect_delay(delay: u64, ended_in_order: bool) -> (r: u64)
    ensures
        r == reconnect_delay(delay, ended_in_order),
        r == (if ended_in_order {
            FIRST_DELAY
        } else {
            longer_delay(delay)
        }),
{
    if ended_in_order {
        FIRST_DELAY
    } else if delay > 150 {
        LONGEST_DELAY
    } else {
        delay * 2
    }
}

/// What a round of the mailbox looks for.
#[derive(Clone, Copy, Debug, PartialEq, Eq, Structural)]
pub enum SyncPlan {
    /// First round: what is there is marked as seen and not fetched.
    SkipHistory,
    /// First round: the newest messages are fetched, so many of them.
    Newest(usize),
    /// The messages after this UID are fetched.
    After(u32),
}

/// What a round looks for, given the last UID that was dealt with.
pub open spec fn plan_of(config: ImapConfig, last_uid: u32) -> SyncPlan {
    if last_uid != 0 {
        SyncPlan::After(last_uid)
    } else if config.skips_history() {
        SyncPlan::SkipHistory
    } else {
        SyncPlan::Newest(config.fetch_limit())
    }
}

/// What a round looks for, given the last UID that was dealt with.
pub fn plan_sync(config: &ImapConfig, last_uid: u32) -> (r: SyncPlan)
    ensures
        r == plan_of(*config, last_uid),
        r == (if last_uid != 0 {
            SyncPlan::After(last_uid)
        } else if config.skip_initial_history == Some(false) {
            SyncPlan::Newest(
                match config.initial_fetch_limit {
                    Some(n) => n,
                    None => 50,
                },
            )
        } else {
            SyncPlan::SkipHistory
        }),
{
    if last_uid != 0 {
        SyncPlan::After(last_uid)
    } else if config.effective_skip_initial_history() {
        SyncPlan::SkipHistory
    } else {
        SyncPlan::Newest(config.effective_initial_fetch_limit())
    }
}

/// The search that a round sends to the mail server.
pub open spec fn query_of(plan: SyncPlan) -> Option<Seq<char>> {
    match plan {
        SyncPlan::After(uid) => if uid == u32::MAX {
            None
        } else {
            Some("UID "@ + decimal((uid + 1) as nat) + ":*"@)
        },
        _ => Some("ALL"@),
    }
}

/// The search that a round sends to the mail server. After the largest UID there is nothing to
/// search for.
pub fn search_query(plan: SyncPlan) -> (r: Option<String>)
    ensures
        opt_view(r) == query_of(plan),
        match plan {
            SyncPlan::After(uid) => if uid == u32::MAX {
                r is None
            } else {
                r is Some && r->0@ == "UID "@ + decimal((uid + 1) as nat) + ":*"@
            },
            _ => r is Some && r->0@ == "ALL"@,
        },
{
    match plan {
        SyncPlan::After(uid) => {
            if uid == u32::MAX {
                return None;
            }
            let mut s = "UID ".to_owned();
            s.append(decimal_text(uid as u64 + 1).as_str());
            s.append(":*");
            Some(s)
        },
        _ => Some("ALL".to_owned()),
    }
}

/// Ascending order.
pub open spec fn ascending(list: Seq<u32>) -> bool {
    forall|i: int, j: int| 0 <= i < j < list.len() ==> list[i] <= list[j]
}

/// `sorted` holds what `list` holds, in ascending order.
pub open spec fn is_sorting(sorted: Seq<u32>, list: Seq<u32>) -> bool {
    ascending(sorted) && sorted.to_multiset() == list.to_multiset()
}

/// The last `n` of a list, or all of it.
pub open spec fn last_of(list: Seq<u32>, n: nat) -> Seq<u32> {
    if list.len() > n {
        list.skip(list.len() - n)
    } else {
        list
    }
}

/// The UIDs of a list that are larger than the given one.
pub open spec fn larger(list: Seq<u32>, than: u32) -> Seq<u32> {
    list.filter(|uid: u32| uid > than)
}

/// Two ascending lists made one.
fn merge(a: &Vec<u32>, b: &Vec<u32>) -> (r: Vec<u32>)
    requires
        ascending(a@),
        ascending(b@),
    ensures
        ascending(r@),
        r@.to_multiset() == a@.to_multiset().add(b@.to_multiset()),
{
    broadcast use vstd::seq_lib::group_to_multiset_ensures;

    let mut out: Vec<u32> = Vec::new();
    let mut i: usize = 0;
    let mut j: usize = 0;
    assert(out@.to_multiset() =~= a@.take(0).to_multiset().add(b@.take(0).to_multiset()));
    while i < a.len() || j < b.len()
        invariant
            ascending(a@),
            ascending(b@),
            ascending(out@),
            i <= a@.len(),
            j <= b@.len(),
            forall|k: int, m: int| 0 <= k < out@.len() && i <= m < a@.len() ==> out@[k] <= a@[m],
            forall|k: int, m: int| 0 <= k < out@.len() && j <= m < b@.len() ==> out@[k] <= b@[m],
            out@.to_multiset() == a@.take(i as int).to_multiset().add(
                b@.take(j as int).to_multiset(),
            ),
        decreases (a@.len() - i) + (b@.len() - j),
    {
        broadcast use vstd::seq_lib::group_to_multiset_ensures;

        let ghost before = out@;
        if j >= b.len() || (i < a.len() && a[i] <= b[j]) {
            out.push(a[i]);
            proof {
                assert(a@.take(i + 1) =~= a@.take(i as int).push(a@[i as int]));
                assert(out@.to_multiset() =~= a@.take(i + 1).to_multiset().add(
                    b@.take(j as int).to_multiset(),
                ));
                if j < b@.len() {
                    assert forall|m: int| j <= m < b@.len() implies a@[i as int] <= b@[m] by {
                        if m > j {
                            assert(b@[j as int] <= b@[m]);
                        }
                    }
                }
            }
            i += 1;
        } else {
            out.push(b[j]);
            proof {
                assert(b@.take(j + 1) =~= b@.take(j as int).push(b@[j as int]));
                assert(out@.to_multiset() =~= a@.take(i as int).to_multiset().add(
                    b@.take(j + 1).to_multiset(),
                ));
                if i < a@.len() {
                    assert forall|m: int| i <= m < a@.len() implies b@[j as int] <= a@[m] by {
                        if m > i {
                            assert(a@[i as int] <= a@[m]);
                        }
                    }
                }
            }
            j += 1;
        }
    }
    assert(a@.take(i as int) =~= a@);
    assert(b@.take(j as int) =~= b@);
    out
}

/// The UIDs from `from` up to `to` in ascending order.
fn sort_part(list: &Vec<u32>, from: usize, to: usize) -> (r: Vec<u32>)
    requires
        from <= to <= list@.len(),
    ensures
        is_sorting(r@, list@.subrange(from as int, to as int)),
    decreases to - from,
{
    if to - from <= 1 {
        let mut out: Vec<u32> = Vec::new();
        if from < to {
            out.push(list[from]);
        }
        assert(out@ =~= list@.subrange(from as int, to as int));
        return out;
    }
    let middle: usize = from + (to - from) / 2;
    let r = merge(&sort_part(list, from, middle), &sort_part(list, middle, to));
    proof {
        let a = list@.subrange(from as int, middle as int);
        let b = list@.subrange(middle as int, to as int);
        assert(a + b =~= list@.subrange(from as int, to as int));
        vstd::seq_lib::lemma_multiset_commutative(a, b);
    }
    r
}

fn sort_uids(list: &Vec<u32>) -> (r: Vec<u32>)
    ensures
        is_sorting(r@, list@),
{
    assert(list@.subrange(0, list@.len() as int) =~= list@);
    sort_part(list, 0, list.len())
}

fn filter_larger(list: &Vec<u32>, than: u32) -> (r: Vec<u32>)
    ensures
        r@ == larger(list@, than),
{
    let ghost keep = |uid: u32| uid > than;
    let mut out: Vec<u32> = Vec::new();
    let mut i: usize = 0;
    proof {
        reveal(Seq::filter);
        assert(out@ =~= list@.take(0).filter(keep));
    }
    while i < list.len()
        invariant
            keep == (|uid: u32| uid > than),
            i <= list@.len(),
            out@ == list@.take(i as int).filter(keep),
        decreases list@.len() - i,
    {
        proof {
            reveal(Seq::filter);
            assert(list@.take(i + 1).drop_last() =~= list@.take(i as int));
            assert(list@.take(i + 1).last() == list@[i as int]);
        }
        if list[i] > than {
            out.push(list[i]);
        }
        i += 1;
    }
    assert(list@.take(i as int) =~= list@);
    out
}

/// `chosen` are the UIDs to fetch, in ascending order, out of those that the search found.
pub open spec fn selects(plan: SyncPlan, found: Seq<u32>, chosen: Seq<u32>) -> bool {
    match plan {
        SyncPlan::SkipHistory => chosen.len() == 0,
        SyncPlan::Newest(limit) => exists|sorted: Seq<u32>|
            #[trigger] is_sorting(sorted, found) && chosen == last_of(sorted, limit as nat),
        SyncPlan::After(last) => is_sorting(chosen, larger(found, last)),
    }
}

/// The UIDs to fetch, in ascending order, out of those that the search found.
pub fn select_uids(plan: SyncPlan, found: &Vec<u32>) -> (r: Vec<u32>)
    ensures
        selects(plan, found@, r@),
        match plan {
            SyncPlan::SkipHistory => r@.len() == 0,
            SyncPlan::Newest(limit) => exists|sorted: Seq<u32>|
                #[trigger] is_sorting(sorted, found@) && r@ == last_of(sorted, limit as nat),
            SyncPlan::After(last) => is_sorting(r@, larger(found@, last)),
        },
{
    match plan {
        SyncPlan::SkipHistory => Vec::new(),
        SyncPlan::Newest(limit) => {
            let sorted = sort_uids(found);
            let n: usize = sorted.len();
            let start: usize = if n > limit {
                n - limit
            } else {
                0
            };
            let mut out: Vec<u32> = Vec::new();
            let mut i: usize = start;
            while i < n
                invariant
                    n == sorted@.len(),
                    start <= i <= n,
                    out@ == sorted@.subrange(start as int, i as int),
                decreases n - i,
            {
                out.push(sorted[i]);
                assert(sorted@.subrange(start as int, i + 1) =~= sorted@.subrange(
                    start as int,
                    i as int,
                ).push(sorted@[i as int]));
                i += 1;
            }
            assert(out@ =~= last_of(sorted@, limit as nat));
            out
        },
        SyncPlan::After(last) => sort_uids(&filter_larger(found, last)),
    }
}

/// The records after all these messages were marked as seen.
pub open spec fn with_all_seen(db: DbView, mailbox: Seq<char>, uids: Seq<u32>, now: i64) -> DbView
    decreases uids.len(),
{
    if uids.len() == 0 {
        db
    } else {
        with_seen(with_all_seen(db, mailbox, uids.drop_last(), now), mailbox, uids.last(), None, now)
    }
}

/// The largest UID of a list.
pub open spec fn largest(uids: Seq<u32>) -> u32
    decreases uids.len(),
{
    if uids.len() == 0 {
        0
    } else if uids.last() > largest(uids.drop_last()) {
        uids.last()
    } else {
        largest(uids.drop_last())
    }
}

/// The records after the messages that were there at the first round were passed over.
pub open spec fn with_history_skipped(
    db: DbView,
    mailbox: Seq<char>,
    uids: Seq<u32>,
    now: i64,
) -> DbView {
    if uids.len() == 0 {
        db
    } else {
        with_last_uid(with_all_seen(db, mailbox, uids, now), mailbox, largest(uids))
    }
}

/// Passes over the messages that are there at the first round.
pub fn skip_history(db: &mut Db, mailbox: &str, uids: &Vec<u32>, now: i64)
    ensures
        final(db)@ == with_history_skipped(old(db)@, mailbox@, uids@, now),
{
    let ghost before = db@;
    let mut max: u32 = 0;
    let mut i: usize = 0;
    assert(uids@.take(0) =~= Seq::<u32>::empty());
    while i < uids.len()
        invariant
            i <= uids@.len(),
            db@ == with_all_seen(before, mailbox@, uids@.take(i as int), now),
            max == largest(uids@.take(i as int)),
        decreases uids@.len() - i,
    {
        proof {
            assert(uids@.take(i + 1).drop_last() =~= uids@.take(i as int));
            assert(uids@.take(i + 1).last() == uids@[i as int]);
        }
        db.mark_uid_seen(mailbox, uids[i], None, now);
        if uids[i] > max {
            max = uids[i];
        }
        i += 1;
    }
    assert(uids@.take(i as int) =~= uids@);
    if uids.len() > 0 {
        db.set_last_uid(mailbox, max);
    }
}

/// A message is fetched unless it was seen before.
pub open spec fn to_fetch(seen: Option<bool>) -> bool {
    seen != Some(true)
}

/// Whether a message is fetched, given whether it was seen before. Where that could not be found
/// out, it is.
pub fn should_fetch(seen: Option<bool>) -> (r: bool)
    ensures
        r == to_fetch(seen),
        r == (seen != Some(true)),
{
    match seen {
        Some(s) => !s,
        None => true,
    }
}

/// How the fetch of one message ended.
pub enum FetchOutcome {
    Body(Vec<u8>),
    /// The server sent no body: the message may have been deleted.
    NoBody,
    Failed,
}

/// The message to hand on after a fetch. Where there is none the round goes on with the next UID,
/// and nothing is recorded of this one.
pub fn message_from(uid: u32, mailbox: &str, outcome: FetchOutcome) -> (r: Option<RawEmail>)
    ensures
        match outcome {
            FetchOutcome::Body(bytes) => r is Some && r->0.uid == uid && r->0.mailbox@ == mailbox@
                && r->0.raw@ == bytes@,
            _ => r is None,
        },
{
    match outcome {
        FetchOutcome::Body(bytes) => Some(
            RawEmail { uid, mailbox: mailbox.to_owned(), raw: bytes },
        ),
        _ => None,
    }
}

/// What a round does next.
#[derive(Debug)]
pub enum RoundAction {
    /// Find out whether the message with this UID was seen before.
    AskSeen(u32),
    /// Fetch the message with this UID.
    Fetch(u32),
    /// Hand this message on.
    HandOn(RawEmail),
    /// Record that the message with this UID was handed on.
    Record(u32),
    /// The round is over.
    Done,
}

pub ghost enum ActionView {
    AskSeen(u32),
    Fetch(u32),
    HandOn(u32, Seq<char>, Seq<u8>),
    Record(u32),
    Done,
}

impl View for RoundAction {
    type V = ActionView;

    open spec fn view(&self) -> ActionView {
        match *self {
            RoundAction::AskSeen(uid) => ActionView::AskSeen(uid),
            RoundAction::Fetch(uid) => ActionView::Fetch(uid),
            RoundAction::HandOn(m) => ActionView::HandOn(m.uid, m.mailbox@, m.raw@),
            RoundAction::Record(uid) => ActionView::Record(uid),
            RoundAction::Done => ActionView::Done,
        }
    }
}

/// How an action of a round ended.
pub enum RoundEvent {
    /// Whether the message was seen before; `None` where that could not be found out.
    Seen(Option<bool>),
    Fetched(FetchOutcome),
    /// Whether there was someone to take the message.
    HandedOn(bool),
    Recorded,
}

/// A round: the mailbox, and the UIDs that are left. The first of them is under way.
pub ghost struct RoundView {
    pub mailbox: Seq<char>,
    pub left: Seq<u32>,
}

/// The first action for the UIDs that are left.
pub open spec fn first_action(left: Seq<u32>) -> ActionView {
    if left.len() == 0 {
        ActionView::Done
    } else {
        ActionView::AskSeen(left.first())
    }
}

/// The round once the message under way is done with.
pub open spec fn moved_on(round: RoundView) -> (RoundView, ActionView) {
    let left = round.left.drop_first();
    (RoundView { left, ..round }, first_action(left))
}

/// The round after an action ended, and what it does next. A message that was seen before, or that
/// could not be fetched, is passed over; where no one takes a message the round is over.
pub open spec fn round_after(round: RoundView, event: RoundEvent) -> (RoundView, ActionView) {
    if round.left.len() == 0 {
        (round, ActionView::Done)
    } else {
        let uid = round.left.first();
        match event {
            RoundEvent::Seen(seen) => if seen == Some(true) {
                moved_on(round)
            } else {
                (round, ActionView::Fetch(uid))
            },
            RoundEvent::Fetched(FetchOutcome::Body(bytes)) => (
                round,
                ActionView::HandOn(uid, round.mailbox, bytes@),
            ),
            RoundEvent::Fetched(_) => moved_on(round),
            RoundEvent::HandedOn(true) => (round, ActionView::Record(uid)),
            RoundEvent::HandedOn(false) => (
                RoundView { left: seq![], ..round },
                ActionView::Done,
            ),
            RoundEvent::Recorded => moved_on(round),
        }
    }
}

/// The fetches of one round, message by message.
pub struct SyncRound {
    mailbox: String,
    uids: Vec<u32>,
    at: usize,
}

impl View for SyncRound {
    type V = RoundView;

    closed spec fn view(&self) -> RoundView {
        RoundView { mailbox: self.mailbox@, left: self.uids@.skip(self.at as int) }
    }
}

impl SyncRound {
    #[verifier::type_invariant]
    closed spec fn in_bounds(self) -> bool {
        self.at <= self.uids@.len()
    }

    /// Begins a round that fetches these messages in this order.
    pub fn start(mailbox: &str, uids: Vec<u32>) -> (r: (Self, RoundAction))
        ensures
            r.0@ == (RoundView { mailbox: mailbox@, left: uids@ }),
            r.1@ == first_action(uids@),
    {
        assert(uids@.skip(0) =~= uids@);
        let round = SyncRound { mailbox: mailbox.to_owned(), uids, at: 0 };
        let action = round.action_for_next();
        (round, action)
    }

    fn action_for_next(&self) -> (r: RoundAction)
        ensures
            r@ == first_action(self@.left),
    {
        proof {
            use_type_invariant(self);
        }
        if self.at < self.uids.len() {
            RoundAction::AskSeen(self.uids[self.at])
        } else {
            RoundAction::Done
        }
    }

    /// Goes on after an action ended.
    pub fn next(&mut self, event: RoundEvent) -> (r: RoundAction)
        ensures
            (final(self)@, r@) == round_after(old(self)@, event),
    {
        proof {
            use_type_invariant(&*self);
        }
        let ghost left = self@.left;
        if self.at >= self.uids.len() {
            assert(left.len() == 0);
            return RoundAction::Done;
        }
        let uid: u32 = self.uids[self.at];
        assert(left.first() == uid);
        let goes_on: bool = match event {
            RoundEvent::Seen(seen) => {
                if should_fetch(seen) {
                    return RoundAction::Fetch(uid);
                }
                true
            },
            RoundEvent::Fetched(outcome) => {
                match message_from(uid, self.mailbox.as_str(), outcome) {
                    Some(message) => {
                        return RoundAction::HandOn(message);
                    },
                    None => true,
                }
            },
            RoundEvent::HandedOn(taken) => {
                if taken {
                    return RoundAction::Record(uid);
                }
                false
            },
            RoundEvent::Recorded => true,
        };
        if goes_on {
            self.at = self.at + 1;
            assert(self@.left =~= left.drop_first());
            self.action_for_next()
        } else {
            self.at = self.uids.len();
            assert(self@.left =~= Seq::<u32>::empty());
            RoundAction::Done
        }
    }
}

/// The records after a message was handed on.
pub open spec fn with_fetched(db: DbView, mailbox: Seq<char>, uid: u32, now: i64) -> DbView {
    with_last_uid(with_seen(db, mailbox, uid, None, now), mailbox, uid)
}

/// Records that a message was handed on.
pub fn record_fetched(db: &mut Db, mailbox: &str, uid: u32, now: i64)
    ensures
        final(db)@ == with_fetched(old(db)@, mailbox@, uid, now),
{
    db.mark_uid_seen(mailbox, uid, None, now);
    db.set_last_uid(mailbox, uid);
}

/// A message that was handed on counts as seen, and the next round begins after it.
pub proof fn law_fetched_message_is_done(db: DbView, mailbox: Seq<char>, uid: u32, now: i64)
    ensures
        with_fetched(db, mailbox, uid, now).seen.contains_key((uid, mailbox)),
        last_uid_of(with_fetched(db, mailbox, uid, now), mailbox) == uid,
{
    law_last_uid_reads_back(
        with_seen(db, mailbox, uid, None, now),
        mailbox,
        mailbox,
        uid,
    );
}

/// A message is recorded only after someone took it, and handed on only as it was fetched; the one
/// that is handed on or recorded is the one under way.
pub proof fn law_only_taken_messages_are_recorded(round: RoundView, event: RoundEvent)
    ensures
        round_after(round, event).1 matches ActionView::Record(uid) ==> event == RoundEvent::HandedOn(
            true,
        ) && round.left.len() > 0 && uid == round.left.first(),
        round_after(round, event).1 matches ActionView::HandOn(uid, mailbox, raw) ==> (event matches
        RoundEvent::Fetched(FetchOutcome::Body(bytes)) && bytes@ == raw) && round.left.len() > 0
            && uid == round.left.first() && mailbox == round.mailbox,
{
}

/// A round takes its messages in order and each at most once: what is left of it is what was left,
/// with or without the message under way, or nothing once there is no one to take messages. A
/// message that cannot be fetched does not end it.
pub proof fn law_round_goes_in_order(round: RoundView, event: RoundEvent)
    ensures
        round_after(round, event).0.mailbox == round.mailbox,
        event != RoundEvent::HandedOn(false) ==> {
            ||| round_after(round, event).0.left == round.left
            ||| round.left.len() > 0 && round_after(round, event).0.left == round.left.drop_first()
        },
        event matches RoundEvent::Fetched(FetchOutcome::Failed) && round.left.len() > 0
            ==> round_after(round, event).0.left == round.left.drop_first(),
        round_after(round, event).1 is Done <==> round_after(round, event).0.left.len() == 0,
{
}

proof fn lemma_all_seen(db: DbView, mailbox: Seq<char>, uids: Seq<u32>, now: i64)
    ensures
        forall|i: int|
            0 <= i < uids.len() ==> with_all_seen(db, mailbox, uids, now).seen.contains_key(
                (#[trigger] uids[i], mailbox),
            ),
        forall|k: (u32, Seq<char>)| #[trigger]
            db.seen.contains_key(k) ==> with_all_seen(db, mailbox, uids, now).seen.contains_key(k),
        with_all_seen(db, mailbox, uids, now).meta == db.meta,
    decreases uids.len(),
{
    if uids.len() > 0 {
        let head = uids.drop_last();
        lemma_all_seen(db, mailbox, head, now);
        assert forall|i: int| 0 <= i < uids.len() implies with_all_seen(
            db,
            mailbox,
            uids,
            now,
        ).seen.contains_key((#[trigger] uids[i], mailbox)) by {
            if i < head.len() {
                assert(head[i] == uids[i]);
            }
        }
    }
}

proof fn lemma_largest(uids: Seq<u32>)
    ensures
        forall|i: int| 0 <= i < uids.len() ==> #[trigger] uids[i] <= largest(uids),
        uids.len() > 0 ==> uids.contains(largest(uids)),
    decreases uids.len(),
{
    if uids.len() > 0 {
        let head = uids.drop_last();
        lemma_largest(head);
        assert forall|i: int| 0 <= i < uids.len() implies #[trigger] uids[i] <= largest(uids) by {
            if i < head.len() {
                assert(head[i] == uids[i]);
            }
        }
        if uids.last() > largest(head) {
            assert(uids[uids.len() - 1] == largest(uids));
        } else if head.len() > 0 {
            let i = head.index_of(largest(head));
            assert(uids[i] == largest(uids));
        } else {
            assert(uids[0] == largest(uids));
        }
    }
}

/// After the history was passed over, every message of it counts as seen, and the next round begins
/// after the newest of them.
pub proof fn law_history_is_skipped(db: DbView, mailbox: Seq<char>, uids: Seq<u32>, now: i64)
    ensures
        forall|i: int|
            0 <= i < uids.len() ==> with_history_skipped(
                db,
                mailbox,
                uids,
                now,
            ).seen.contains_key((#[trigger] uids[i], mailbox)),
        uids.len() > 0 ==> forall|i: int|
            0 <= i < uids.len() ==> #[trigger] uids[i] <= last_uid_of(
                with_history_skipped(db, mailbox, uids, now),
                mailbox,
            ),
        uids.len() > 0 ==> uids.contains(
            last_uid_of(with_history_skipped(db, mailbox, uids, now), mailbox),
        ),
{
    lemma_all_seen(db, mailbox, uids, now);
    lemma_largest(uids);
    if uids.len() > 0 {
        law_last_uid_reads_back(
            with_all_seen(db, mailbox, uids, now),
            mailbox,
            mailbox,
            largest(uids),
        );
    }
}

/// A round after the first fetches only messages that are newer than the last one dealt with, and
/// all of those that the search found.
pub proof fn law_later_rounds_fetch_newer(found: Seq<u32>, last: u32, chosen: Seq<u32>)
    requires
        is_sorting(chosen, larger(found, last)),
    ensures
        forall|uid: u32| #[trigger] chosen.contains(uid) <==> found.contains(uid) && uid > last,
{
    let kept = larger(found, last);
    let keep = |uid: u32| uid > last;
    broadcast use vstd::seq_lib::group_to_multiset_ensures;

    assert forall|uid: u32| #[trigger] chosen.contains(uid) <==> found.contains(uid) && uid
        > last by {
        assert(chosen.contains(uid) <==> chosen.to_multiset().count(uid) > 0);
        assert(kept.contains(uid) <==> kept.to_multiset().count(uid) > 0);
        if kept.contains(uid) {
            let i = kept.index_of(uid);
            assert(kept[i] == uid);
            found.lemma_filter_pred(keep, i);
            found.lemma_filter_contains_rev(keep, uid);
        }
        if found.contains(uid) && uid > last {
            let i = found.index_of(uid);
            assert(found[i] == uid);
            found.lemma_filter_contains(keep, i);
        }
    }
}

/// The wait before the next attempt to connect doubles with each failure and never leaves the range
/// from the first to the longest.
pub proof fn law_reconnect_delay_is_bounded(delay: u64)
    requires
        FIRST_DELAY <= delay <= LONGEST_DELAY,
    ensures
        FIRST_DELAY <= longer_delay(delay) <= LONGEST_DELAY,
        delay <= longer_delay(delay),
        longer_delay(delay) == (if 2 * delay < LONGEST_DELAY {
            2 * delay
        } else {
            LONGEST_DELAY as int
        }),
{
}

} // verus!
