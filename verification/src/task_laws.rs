//! What holds of the tasks in the background: fetching, intake, repetition, and their settings.
#[allow(unused_imports)]
use crate::bridge::{
    after_attempt, after_repost, backoff, incoming, intake_of, mode_of, named_config, retry_action,
    sleep_secs, timeout_of, Incoming, IntakeView, NextRetry, RetryAction, SmtpAttempt, SmtpMode,
    NOTICE_LEASE, THREAD_MAX_AGE,
};
#[allow(unused_imports)]
use crate::config::{mailbox_of, ImapConfig, MailingListConfig, SmtpConfig};
#[allow(unused_imports)]
use crate::email::{is_list_mail, threaded, EmailView};
#[allow(unused_imports)]
use crate::imap_sync::{
    address_of, ascending, first_action, is_sorting, larger, largest, last_of, law_later_rounds_fetch_newer,
    longer_delay, moved_on, plan_of, query_of, reconnect_delay, round_after, selects, to_fetch, with_all_seen,
    with_fetched, with_history_skipped, ActionView, FetchOutcome, RoundEvent, RoundView, SyncPlan,
};
#[allow(unused_imports)]
use crate::records::{
    claimable, with_seen, young_threads, DbView, RouteView, SmtpStatus, ThreadView,
};
#[allow(unused_imports)]
use crate::text::decimal;
use vstd::prelude::*;

verus! {

/// Where a setting is given it applies; where it is not, the default does: the inbox, a minute between
/// polls, fifty messages at first, and history passed over.
pub proof fn law_settings_of_the_mailbox(config: ImapConfig)
    ensures
        config.mailbox is Some ==> mailbox_of(config) == config.mailbox->0@,
        config.mailbox is None ==> mailbox_of(config) == "INBOX"@,
        config.poll_interval_secs is Some ==> config.poll_interval() == config.poll_interval_secs->0,
        config.poll_interval_secs is None ==> config.poll_interval() == 60,
        config.initial_fetch_limit is Some ==> config.fetch_limit() == config.initial_fetch_limit->0,
        config.initial_fetch_limit is None ==> config.fetch_limit() == 50,
        config.skip_initial_history is Some ==> config.skips_history()
            == config.skip_initial_history->0,
        config.skip_initial_history is None ==> config.skips_history(),
{
}

/// The words for the connection to the mail server tell whether it is encrypted from the start.
pub proof fn law_words_for_the_connection(config: SmtpConfig)
    ensures
        config.require_smtps ==> config.tls_text() == "SMTPS (implicit TLS)"@,
        !config.require_smtps ==> config.tls_text() == "STARTTLS"@,
{
}

/// Once a message was dealt with, a round looks for those after it. Before that it passes over what is
/// there, or looks for the newest, as configured.
pub proof fn law_plan_of_a_round(config: ImapConfig, last: u32)
    ensures
        last > 0 ==> plan_of(config, last) == SyncPlan::After(last),
        last == 0 && config.skips_history() ==> plan_of(config, last) == SyncPlan::SkipHistory,
        last == 0 && !config.skips_history() ==> plan_of(config, last) == SyncPlan::Newest(
            config.fetch_limit(),
        ),
{
}

/// A round asks the server for the UIDs from the one after the last on, or for all; after the largest
/// UID it asks for nothing.
pub proof fn law_query_of_a_round(last: u32, limit: usize)
    ensures
        last < u32::MAX ==> query_of(SyncPlan::After(last)) == Some(
            "UID "@ + decimal((last + 1) as nat) + ":*"@,
        ),
        query_of(SyncPlan::After(u32::MAX)) is None,
        query_of(SyncPlan::SkipHistory) == Some("ALL"@),
        query_of(SyncPlan::Newest(limit)) == Some("ALL"@),
{
}

/// A round fetches in ascending order. One after the first fetches what was found beyond the last UID;
/// a first one fetches the newest of what was found, as many as allowed; or nothing, where history is
/// passed over.
pub proof fn law_messages_of_a_round(found: Seq<u32>, chosen: Seq<u32>, last: u32, limit: usize)
    ensures
        selects(SyncPlan::SkipHistory, found, chosen) ==> chosen.len() == 0,
        selects(SyncPlan::After(last), found, chosen) ==> {
            &&& forall|i: int, j: int| 0 <= i < j < chosen.len() ==> chosen[i] <= chosen[j]
            &&& forall|uid: u32| #[trigger]
                chosen.contains(uid) <==> found.contains(uid) && uid > last
        },
        selects(SyncPlan::Newest(limit), found, chosen) ==> {
            &&& forall|i: int, j: int| 0 <= i < j < chosen.len() ==> chosen[i] <= chosen[j]
            &&& chosen.len() == (if found.len() < limit {
                found.len()
            } else {
                limit as nat
            })
            &&& forall|uid: u32| #[trigger] chosen.contains(uid) ==> found.contains(uid)
            &&& forall|x: u32, y: u32|
                #![trigger found.contains(x), chosen.contains(y)]
                found.contains(x) && !chosen.contains(x) && chosen.contains(y) ==> x <= y
        },
{
    broadcast use vstd::seq_lib::group_to_multiset_ensures;

    if selects(SyncPlan::After(last), found, chosen) {
        law_later_rounds_fetch_newer(found, last, chosen);
    }
    if selects(SyncPlan::Newest(limit), found, chosen) {
        let sorted = choose|sorted: Seq<u32>|
            #[trigger] is_sorting(sorted, found) && chosen == last_of(sorted, limit as nat);
        assert(sorted.len() == sorted.to_multiset().len());
        assert(found.len() == found.to_multiset().len());
        let n = if sorted.len() > limit {
            sorted.len() - limit
        } else {
            0
        };
        assert(chosen =~= sorted.skip(n));
        assert forall|i: int, j: int| 0 <= i < j < chosen.len() implies chosen[i] <= chosen[j] by {
            assert(chosen[i] == sorted[i + n]);
            assert(chosen[j] == sorted[j + n]);
        }
        assert forall|uid: u32| #[trigger] chosen.contains(uid) implies found.contains(uid) by {
            let i = chosen.index_of(uid);
            assert(sorted[i + n] == uid);
            assert(sorted.contains(uid));
            assert(sorted.to_multiset().count(uid) > 0);
        }
        assert forall|x: u32, y: u32|
            #![trigger found.contains(x), chosen.contains(y)]
            found.contains(x) && !chosen.contains(x) && chosen.contains(y) implies x <= y by {
            assert(found.to_multiset().count(x) > 0);
            assert(sorted.contains(x));
            let i = sorted.index_of(x);
            assert(sorted[i] == x);
            if i >= n {
                assert(chosen[i - n] == x);
            }
            let j = chosen.index_of(y);
            assert(sorted[j + n] == y);
        }
    }
}

/// A message is fetched unless it is known to have been seen before. One that was, is passed over.
pub proof fn law_unseen_messages_are_fetched(round: RoundView, seen: Option<bool>)
    requires
        round.left.len() > 0,
    ensures
        to_fetch(seen) <==> seen != Some(true),
        seen != Some(true) ==> round_after(round, RoundEvent::Seen(seen)) == (
            round,
            ActionView::Fetch(round.left[0]),
        ),
        seen == Some(true) ==> round_after(round, RoundEvent::Seen(seen)).0.left == round.left.skip(1),
{
    assert(round.left.drop_first() =~= round.left.skip(1));
}

/// A message that was fetched is handed on whole, recorded once it was taken, and then the next one is
/// asked for; where no one takes it the round is over.
pub proof fn law_course_of_a_message(round: RoundView, bytes: Vec<u8>)
    requires
        round.left.len() > 0,
    ensures
        round_after(round, RoundEvent::Fetched(FetchOutcome::Body(bytes))) == (
            round,
            ActionView::HandOn(round.left[0], round.mailbox, bytes@),
        ),
        round_after(round, RoundEvent::HandedOn(true)) == (round, ActionView::Record(round.left[0])),
        round_after(round, RoundEvent::HandedOn(false)).1 == ActionView::Done,
        round_after(round, RoundEvent::HandedOn(false)).0.left.len() == 0,
        round_after(round, RoundEvent::Recorded).0.left == round.left.skip(1),
        round_after(round, RoundEvent::Fetched(FetchOutcome::NoBody)).0.left == round.left.skip(1),
        round.left.len() > 1 ==> round_after(round, RoundEvent::Recorded).1 == ActionView::AskSeen(
            round.left[1],
        ),
        round.left.len() == 1 ==> round_after(round, RoundEvent::Recorded).1 == ActionView::Done,
{
    assert(round.left.drop_first() =~= round.left.skip(1));
}

/// A round begins with the first of its messages, or is over at once.
pub proof fn law_beginning_of_a_round(left: Seq<u32>)
    ensures
        left.len() > 0 ==> first_action(left) == ActionView::AskSeen(left[0]),
        left.len() == 0 ==> first_action(left) == ActionView::Done,
{
}

/// Passing over history, and handing a message on, mark messages of that mailbox as seen and change
/// nothing else but the last UID.
pub proof fn law_seen_marks_only(
    db: DbView,
    mailbox: Seq<char>,
    uids: Seq<u32>,
    uid: u32,
    now: i64,
    other: (u32, Seq<char>),
)
    ensures
        with_history_skipped(db, mailbox, uids, now).routes == db.routes,
        with_history_skipped(db, mailbox, uids, now).threads == db.threads,
        with_history_skipped(db, mailbox, uids, now).retries == db.retries,
        with_fetched(db, mailbox, uid, now).routes == db.routes,
        with_fetched(db, mailbox, uid, now).threads == db.threads,
        with_fetched(db, mailbox, uid, now).retries == db.retries,
        !db.seen.contains_key(other) && (other.1 != mailbox || !uids.contains(other.0))
            ==> !with_history_skipped(db, mailbox, uids, now).seen.contains_key(other),
        !db.seen.contains_key(other) && other != (uid, mailbox) ==> !with_fetched(
            db,
            mailbox,
            uid,
            now,
        ).seen.contains_key(other),
{
    lemma_marks(db, mailbox, uids, now, other);
}

proof fn lemma_marks(
    db: DbView,
    mailbox: Seq<char>,
    uids: Seq<u32>,
    now: i64,
    other: (u32, Seq<char>),
)
    ensures
        with_all_seen(db, mailbox, uids, now).routes == db.routes,
        with_all_seen(db, mailbox, uids, now).threads == db.threads,
        with_all_seen(db, mailbox, uids, now).retries == db.retries,
        !db.seen.contains_key(other) && (other.1 != mailbox || !uids.contains(other.0))
            ==> !with_all_seen(db, mailbox, uids, now).seen.contains_key(other),
    decreases uids.len(),
{
    if uids.len() > 0 {
        let head = uids.drop_last();
        lemma_marks(db, mailbox, head, now, other);
        assert(uids[uids.len() - 1] == uids.last());
        if head.contains(other.0) {
            let i = head.index_of(other.0);
            assert(uids[i] == other.0);
        }
    }
}

/// Mail is posted exactly if it bears no mark of the bridge, is not known as the bridge's own, and is
/// mail of the list; where the records could not be asked, it counts as someone else's.
pub proof fn law_which_mail_is_posted(
    email: EmailView,
    own: Option<bool>,
    config: MailingListConfig,
)
    ensures
        incoming(email, own, config) == Incoming::Post <==> email.bridge_origin != Some("matrix"@)
            && own != Some(true) && is_list_mail(email, config),
        incoming(email, own, config) == Incoming::NotListMail <==> email.bridge_origin != Some(
            "matrix"@,
        ) && own != Some(true) && !is_list_mail(email, config),
        incoming(email, own, config) == Incoming::OwnByMark <==> email.bridge_origin == Some(
            "matrix"@,
        ),
{
}

/// A posting that cannot be read is dropped, one that was tried ten times is given up, and any other is
/// posted.
pub proof fn law_which_posting_is_repeated(readable: bool, attempts: i64)
    ensures
        retry_action(readable, attempts) == RetryAction::Post <==> readable && attempts < 10,
        retry_action(readable, attempts) == RetryAction::Discard <==> !readable,
        retry_action(readable, attempts) == RetryAction::GiveUp <==> readable && attempts >= 10,
{
}

/// A posting that succeeded leaves the queue. One that failed stays in it with its payload, is counted
/// once more, and waits for as long as its number of attempts asks. Nothing else changes.
pub proof fn law_repeated_posting(db: DbView, id: i64, attempts: i64, now: i64, other: i64)
    requires
        now <= i64::MAX - 3600,
        db.retries.rows.contains_key(id),
        0 <= attempts,
        db.retries.rows[id].attempts < i64::MAX,
    ensures
        ({
            let done = after_repost(db, id, attempts, true, now);
            let again = after_repost(db, id, attempts, false, now);
            &&& !done.retries.rows.contains_key(id)
            &&& again.retries.rows.contains_key(id)
            &&& again.retries.rows[id].payload == db.retries.rows[id].payload
            &&& again.retries.rows[id].created_at == db.retries.rows[id].created_at
            &&& again.retries.rows[id].attempts == db.retries.rows[id].attempts + 1
            &&& again.retries.rows[id].next_retry_at == now + backoff(attempts)
            &&& other != id ==> (done.retries.rows.contains_key(other)
                <==> db.retries.rows.contains_key(other)) && (again.retries.rows.contains_key(other)
                <==> db.retries.rows.contains_key(other))
            &&& other != id && db.retries.rows.contains_key(other) ==> done.retries.rows[other]
                == db.retries.rows[other] && again.retries.rows[other] == db.retries.rows[other]
            &&& done.routes == db.routes && again.routes == db.routes && done.threads == db.threads
                && again.threads == db.threads && done.seen == db.seen && again.seen == db.seen
        }),
{
    crate::bridge::law_backoff_is_bounded(attempts, attempts);
}

/// A mail that is sent again is accepted, waits for as long as its number of attempts asks, or is put
/// off to the end of time where it cannot be read; it is counted in the last two cases.
pub proof fn law_repeated_sending(r: RouteView, attempts: i64, now: i64)
    requires
        now <= i64::MAX - 3600,
        0 <= attempts,
        r.smtp_status == Some(SmtpStatus::Pending) || r.smtp_status == Some(SmtpStatus::Failed),
        r.smtp_attempts < i64::MAX,
    ensures
        ({
            let sent = after_attempt(r, attempts, SmtpAttempt::Sent, now);
            let again = after_attempt(r, attempts, SmtpAttempt::Failed, now);
            let lost = after_attempt(r, attempts, SmtpAttempt::Corrupt, now);
            &&& sent.smtp_status == Some(SmtpStatus::SmtpAccepted) && sent.smtp_accepted_at == Some(now)
                && sent.smtp_next_retry_at is None && sent.smtp_attempts == r.smtp_attempts
            &&& again.smtp_status == Some(SmtpStatus::Failed) && again.smtp_next_retry_at == Some(
                (now + backoff(attempts)) as i64,
            ) && again.smtp_attempts == r.smtp_attempts + 1
            &&& lost.smtp_status == Some(SmtpStatus::Failed) && lost.smtp_next_retry_at == Some(
                i64::MAX,
            ) && lost.smtp_attempts == r.smtp_attempts + 1
            &&& sent.smtp_payload == r.smtp_payload && again.smtp_payload == r.smtp_payload
                && lost.smtp_payload == r.smtp_payload
            &&& sent.email_message_id == r.email_message_id && again.email_message_id
                == r.email_message_id && lost.email_message_id == r.email_message_id
        }),
{
    crate::bridge::law_backoff_is_bounded(attempts, attempts);
}

/// The waits are one, two, four, eight, sixteen and thirty-two minutes, and then an hour.
pub proof fn law_waits_double(attempts: i64)
    requires
        0 <= attempts < i64::MAX,
    ensures
        backoff(0) == 60,
        attempts < 5 ==> backoff((attempts + 1) as i64) == 2 * backoff(attempts),
        attempts >= 6 ==> backoff(attempts) == 3600,
        backoff(5) == 1920,
{
    vstd::arithmetic::power2::lemma2_to64();
}

/// The next look at the mails comes when the next is due, but not within the same second and not later
/// than in five minutes.
pub proof fn law_next_look(t: i64, now: i64)
    ensures
        1 <= sleep_secs(NextRetry::At(t), now) <= 300,
        1 <= t - now <= 300 ==> sleep_secs(NextRetry::At(t), now) == t - now,
        t <= now ==> sleep_secs(NextRetry::At(t), now) == 1,
        t - now > 300 ==> sleep_secs(NextRetry::At(t), now) == 300,
        sleep_secs(NextRetry::Nothing, now) == 300,
        sleep_secs(NextRetry::Unknown, now) == 300,
{
}

/// The wait for the list's copy is the configured one, as far as it can be counted, and there is none
/// where none is configured.
pub proof fn law_wait_for_the_copy(config: SmtpConfig, secs: u64)
    ensures
        config.list_confirmation_timeout_secs is None ==> timeout_of(config) is None,
        config.list_confirmation_timeout_secs == Some(secs) && secs <= i64::MAX ==> timeout_of(config)
            == Some(secs as i64),
        config.list_confirmation_timeout_secs == Some(secs) && secs > i64::MAX ==> timeout_of(config)
            == Some(i64::MAX),
{
}

/// Messages become mail exactly if a mail server is configured and its password is set.
pub proof fn law_when_messages_become_mail(configured: bool, password_set: bool)
    ensures
        mode_of(configured, password_set) == SmtpMode::Enabled <==> configured && password_set,
        mode_of(configured, password_set) == SmtpMode::PasswordMissing <==> configured
            && !password_set,
{
}

/// The configuration file is the first argument that ends in `.toml`; where there is none it has its
/// usual name.
pub proof fn law_configuration_file(args: Seq<String>, i: int)
    ensures
        (forall|k: int| 0 <= k < args.len() ==> !".toml"@.is_suffix_of((#[trigger] args[k])@))
            ==> named_config(args) == "config.toml"@,
        0 <= i < args.len() && ".toml"@.is_suffix_of(args[i]@) && (forall|k: int|
            0 <= k < i ==> !".toml"@.is_suffix_of((#[trigger] args[k])@)) ==> named_config(args)
            == args[i]@,
    decreases args.len(),
{
    if args.len() > 0 {
        let rest = args.drop_first();
        law_configuration_file(rest, i - 1);
        if forall|k: int| 0 <= k < args.len() ==> !".toml"@.is_suffix_of((#[trigger] args[k])@) {
            assert(!".toml"@.is_suffix_of(args[0]@));
            assert forall|k: int| 0 <= k < rest.len() implies !".toml"@.is_suffix_of(
                (#[trigger] rest[k])@,
            ) by {
                assert(rest[k] == args[k + 1]);
            }
        }
        if 0 < i < args.len() && ".toml"@.is_suffix_of(args[i]@) && (forall|k: int|
            0 <= k < i ==> !".toml"@.is_suffix_of((#[trigger] args[k])@)) {
            assert(!".toml"@.is_suffix_of(args[0]@));
            assert(rest[i - 1] == args[i]);
            assert forall|k: int| 0 <= k < i - 1 implies !".toml"@.is_suffix_of(
                (#[trigger] rest[k])@,
            ) by {
                assert(rest[k] == args[k + 1]);
            }
        }
    }
}

/// A mail that comes in is the bridge's own, is not the list's, or is handed on as it is, with its thread
/// looked up.
pub proof fn law_intake(
    email: EmailView,
    own: Option<bool>,
    db: DbView,
    config: MailingListConfig,
)
    ensures
        email.bridge_origin == Some("matrix"@) || own == Some(true) ==> intake_of(email, own, db, config)
            == IntakeView::Own(email.message_id),
        email.bridge_origin != Some("matrix"@) && own != Some(true) && !is_list_mail(email, config)
            ==> intake_of(email, own, db, config) == IntakeView::NotListMail,
        email.bridge_origin != Some("matrix"@) && own != Some(true) && is_list_mail(email, config)
            ==> intake_of(email, own, db, config) == IntakeView::Post(threaded(email, db)),
{
}

/// The address of the server is its name, a colon and the port in decimal.
pub proof fn law_address_of_the_server(host: Seq<char>, port: u16)
    ensures
        address_of(host, port) == host + seq![':'] + decimal(port as nat),
{
    reveal_strlit(":");
    assert(":"@ =~= seq![':']);
}

/// A connection that ended in order is renewed after five seconds; one that failed after twice the last
/// wait, and after five minutes at most.
pub proof fn law_wait_before_connecting(delay: u64)
    requires
        delay <= 300,
    ensures
        reconnect_delay(delay, true) == 5,
        2 * delay <= 300 ==> reconnect_delay(delay, false) == 2 * delay,
        2 * delay > 300 ==> reconnect_delay(delay, false) == 300,
{
}

/// A thread is forgotten when it is older than ninety days, and a claimed notice is offered again after
/// five minutes.
pub proof fn law_ages(
    threads: Map<Seq<char>, ThreadView>,
    id: Seq<char>,
    r: RouteView,
    timeout: i64,
    at: i64,
    now: i64,
)
    ensures
        young_threads(threads, THREAD_MAX_AGE, now).contains_key(id) <==> threads.contains_key(id) && now
            - threads[id].created_at <= 90 * 24 * 3600,
        r.delivery_notice_claimed_at == Some(at) && now - at < 5 * 60 ==> !claimable(
            r,
            timeout,
            NOTICE_LEASE,
            now,
        ),
        claimable(r, timeout, NOTICE_LEASE, now) && r.delivery_notice_claimed_at == Some(at) ==> now - at
            >= 5 * 60,
{
}

} // verus!
