//! What holds of the records across operations.
#[allow(unused_imports)]
use crate::records::{
    accepted, bridge_sent, claim_ranks, claimable, claimed, confirmed, confirms, failed,
    last_uid_key, last_uid_of, notice_active, notice_finished, on_route, pending_route, retriable,
    retry_ranks, smtp_due, with_failed_posting, with_last_uid, with_pending, with_queued,
    with_route, with_seen, with_thread, without_queued, young_threads, DbView, RouteView,
    SmtpStatus, ThreadView,
};
#[allow(unused_imports)]
use crate::text::{decimal, is_digit, lemma_decimal_value, unsigned_part};
use vstd::prelude::*;

verus! {

/// The mail has left the bridge.
pub open spec fn handed_over(r: RouteView) -> bool {
    ||| r.smtp_status == Some(SmtpStatus::Sent)
    ||| r.smtp_status == Some(SmtpStatus::SmtpAccepted)
    ||| r.smtp_status == Some(SmtpStatus::ListConfirmed)
    ||| r.smtp_status == Some(SmtpStatus::DeliveryUnconfirmed)
}

/// Once the list's copy has come back, no notice about the mail can be claimed, whatever the
/// timeout, the lease and the time, and one that was claimed is no longer to be sent.
pub proof fn law_confirmation_ends_notices(
    db: DbView,
    id: Seq<char>,
    at: i64,
    timeout_secs: i64,
    lease_secs: i64,
    now: i64,
)
    requires
        db.routes.contains_key(id),
    ensures
        claim_ranks(
            with_route(db, id, confirmed(db.routes[id], at)),
            timeout_secs,
            lease_secs,
            now,
        )(id) is None,
        !notice_active(confirmed(db.routes[id], at)),
{
}

/// An acceptance that is recorded after the list's copy came back, or after the wait for it ended,
/// changes nothing.
pub proof fn law_acceptance_keeps_later_states(r: RouteView, now: i64)
    requires
        r.smtp_status == Some(SmtpStatus::ListConfirmed) || r.smtp_status == Some(
            SmtpStatus::DeliveryUnconfirmed,
        ),
    ensures
        accepted(r, now) == r,
{
}

/// A copy from the list confirms a mail once: a second copy finds nothing to confirm.
pub proof fn law_confirmation_is_final(
    db: DbView,
    id: Seq<char>,
    at: i64,
    email_message_id: Seq<char>,
    event_header: Option<Seq<char>>,
)
    requires
        db.routes.contains_key(id),
    ensures
        !confirms(
            with_route(db, id, confirmed(db.routes[id], at)),
            id,
            email_message_id,
            event_header,
        ),
{
}

/// A claimed notice is not offered again before the lease is over.
pub proof fn law_claim_holds_for_lease(
    db: DbView,
    id: Seq<char>,
    timeout_secs: i64,
    lease_secs: i64,
    claimed_at: i64,
    now: i64,
)
    requires
        db.routes.contains_key(id),
        now < claimed_at + lease_secs,
    ensures
        claim_ranks(
            with_route(db, id, claimed(db.routes[id], claimed_at)),
            timeout_secs,
            lease_secs,
            now,
        )(id) is None,
{
}

/// A claimed notice that was not sent is offered again once the lease is over, or at once where the
/// claim is given back.
pub proof fn law_unsent_claim_returns(
    r: RouteView,
    timeout_secs: i64,
    lease_secs: i64,
    claimed_at: i64,
    now: i64,
)
    requires
        claimable(r, timeout_secs, lease_secs, claimed_at),
    ensures
        claimed_at + lease_secs <= now ==> claimable(
            claimed(r, claimed_at),
            timeout_secs,
            lease_secs,
            now,
        ),
        claimable(
            notice_finished(claimed(r, claimed_at), None),
            timeout_secs,
            lease_secs,
            now,
        ),
{
}

/// A notice that was sent is never offered again.
pub proof fn law_notice_is_sent_once(
    r: RouteView,
    claimed_at: i64,
    sent_at: i64,
    timeout_secs: i64,
    lease_secs: i64,
    now: i64,
)
    ensures
        !claimable(
            notice_finished(claimed(r, claimed_at), Some(sent_at)),
            timeout_secs,
            lease_secs,
            now,
        ),
{
}

/// Mail that has left the bridge is never sent again: it is not due at any time, and no operation
/// on its route takes it back to a state in which it could be. In particular a missing confirmation
/// never leads to a second sending.
pub proof fn law_no_second_sending(
    r: RouteView,
    at: i64,
    sent_at: Option<i64>,
    next_retry_at: i64,
    now: i64,
)
    ensures
        handed_over(r) ==> !smtp_due(r, now),
        handed_over(r) ==> handed_over(accepted(r, at)),
        handed_over(r) ==> failed(r, next_retry_at) == r,
        handed_over(r) ==> handed_over(notice_finished(r, sent_at)),
        handed_over(confirmed(r, at)),
        handed_over(claimed(r, at)),
        retriable(r) ==> handed_over(accepted(r, at)),
{
}

/// Mail that was tried ten times is not due any more, and a further failure does not lower the count.
pub proof fn law_ten_attempts_at_most(r: RouteView, next_retry_at: i64, now: i64)
    ensures
        r.smtp_attempts >= 10 ==> !smtp_due(r, now),
        r.smtp_attempts >= 10 ==> failed(r, next_retry_at).smtp_attempts >= 10,
        retriable(r) ==> failed(r, next_retry_at).smtp_attempts == r.smtp_attempts + 1,
{
}

/// A mail that failed is due again from the time that was set for it on, unless it has used up its
/// attempts; set to the end of time it stays parked.
pub proof fn law_failed_mail_waits(r: RouteView, next_retry_at: i64, now: i64)
    requires
        retriable(r),
    ensures
        smtp_due(failed(r, next_retry_at), now) <==> r.smtp_attempts < 9 && next_retry_at <= now,
        now < i64::MAX ==> !smtp_due(failed(r, i64::MAX), now),
{
}

/// A mail that is recorded as pending is due at once, so that a stop between the record and the
/// sending loses nothing.
pub proof fn law_pending_mail_is_due(
    room_id: Seq<char>,
    our_message_id: Seq<char>,
    thread_root: Option<Seq<char>>,
    subject: Option<Seq<char>>,
    payload: Seq<char>,
    created_at: i64,
    now: i64,
)
    ensures
        smtp_due(
            pending_route(room_id, our_message_id, thread_root, subject, payload, created_at),
            now,
        ),
{
}

/// Recording a Matrix message as pending twice is the same as recording it once.
pub proof fn law_pending_twice_is_once(
    db: DbView,
    id: Seq<char>,
    first: RouteView,
    second: RouteView,
)
    ensures
        with_pending(with_pending(db, id, first), id, second) == with_pending(db, id, first),
{
}

/// Mail that the mail server took is recognised as the bridge's own from then on, whatever
/// operation its route undergoes.
pub proof fn law_own_mail_is_recognised(
    r: RouteView,
    at: i64,
    sent_at: Option<i64>,
    next_retry_at: i64,
)
    requires
        r.origin == "matrix"@,
    ensures
        retriable(r) ==> bridge_sent(accepted(r, at), r.email_message_id),
        handed_over(r) ==> bridge_sent(accepted(r, at), r.email_message_id),
        handed_over(r) ==> bridge_sent(failed(r, next_retry_at), r.email_message_id),
        handed_over(r) ==> bridge_sent(notice_finished(r, sent_at), r.email_message_id),
        bridge_sent(confirmed(r, at), r.email_message_id),
        bridge_sent(claimed(r, at), r.email_message_id),
{
}

/// An operation on the route of one event leaves the routes of all others, and all other records,
/// as they are.
pub proof fn law_routes_are_independent(
    db: DbView,
    id: Seq<char>,
    other: Seq<char>,
    update: spec_fn(RouteView) -> RouteView,
)
    requires
        id != other,
    ensures
        on_route(db, id, update).routes.contains_key(other) == db.routes.contains_key(other),
        db.routes.contains_key(other) ==> on_route(db, id, update).routes[other]
            == db.routes[other],
        on_route(db, id, update).routes.dom() == db.routes.dom(),
        on_route(db, id, update).seen == db.seen,
        on_route(db, id, update).threads == db.threads,
        on_route(db, id, update).retries == db.retries,
        on_route(db, id, update).meta == db.meta,
{
    if db.routes.contains_key(id) {
        assert(on_route(db, id, update).routes.dom() =~= db.routes.dom());
    }
}

/// The last UID of a mailbox reads back as it was set, and that of another mailbox is unaffected.
pub proof fn law_last_uid_reads_back(
    db: DbView,
    mailbox: Seq<char>,
    other: Seq<char>,
    uid: u32,
)
    ensures
        last_uid_of(with_last_uid(db, mailbox, uid), mailbox) == uid,
        other != mailbox ==> last_uid_of(with_last_uid(db, mailbox, uid), other) == last_uid_of(
            db,
            other,
        ),
{
    let text = decimal(uid as nat);
    lemma_decimal_value(uid as nat);
    assert(unsigned_part(text) == text) by {
        assert(is_digit(text[0]));
    }
    if other != mailbox {
        let n = "last_uid:"@.len() as int;
        let a = last_uid_key(mailbox);
        let b = last_uid_key(other);
        if a == b {
            assert(a.skip(n) =~= mailbox);
            assert(b.skip(n) =~= other);
        }
    }
}

/// A message that was marked as seen is seen, and marking it again changes nothing.
pub proof fn law_seen_mark_stays(
    db: DbView,
    mailbox: Seq<char>,
    uid: u32,
    message_id: Option<Seq<char>>,
    again: Option<Seq<char>>,
    at: i64,
    now: i64,
)
    ensures
        with_seen(db, mailbox, uid, message_id, at).seen.contains_key((uid, mailbox)),
        with_seen(with_seen(db, mailbox, uid, message_id, at), mailbox, uid, again, now)
            == with_seen(db, mailbox, uid, message_id, at),
{
}

/// A thread mapping reads back as it was stored, in the place of an older one.
pub proof fn law_thread_reads_back(
    db: DbView,
    message_id: Seq<char>,
    first: ThreadView,
    second: ThreadView,
)
    ensures
        with_thread(db, message_id, first).threads.contains_key(message_id),
        with_thread(db, message_id, first).threads[message_id] == first,
        with_thread(with_thread(db, message_id, first), message_id, second) == with_thread(
            db,
            message_id,
            second,
        ),
{
    assert(with_thread(with_thread(db, message_id, first), message_id, second) =~= with_thread(
        db,
        message_id,
        second,
    ));
}

/// A queued posting is due from a minute after it was queued on, and one that failed again from the
/// time that was set for it on.
pub proof fn law_queued_posting_becomes_due(
    db: DbView,
    payload: Seq<char>,
    queued_at: i64,
    next_retry_at: i64,
    now: i64,
)
    requires
        queued_at <= i64::MAX - 60,
        db.retries.last_id < i64::MAX,
    ensures
        ({
            let id = (db.retries.last_id + 1) as i64;
            let queued = with_queued(db, payload, queued_at);
            let failed_once = with_failed_posting(queued, id, next_retry_at);
            &&& retry_ranks(queued, now)(id) is Some <==> queued_at + 60 <= now
            &&& retry_ranks(failed_once, now)(id) is Some <==> next_retry_at <= now
            &&& failed_once.retries.rows[id].payload == payload
            &&& failed_once.retries.rows[id].attempts == 1
        }),
{
}

/// Taking a posting out of the queue right after it was queued leaves the records as they were, but
/// for its identifier, which is not given out again.
pub proof fn law_acknowledged_posting_is_gone(
    db: DbView,
    payload: Seq<char>,
    queued_at: i64,
    now: i64,
)
    requires
        queued_at <= i64::MAX - 60,
        db.retries.last_id < i64::MAX,
        !db.retries.rows.contains_key((db.retries.last_id + 1) as i64),
    ensures
        ({
            let id = (db.retries.last_id + 1) as i64;
            let after = without_queued(with_queued(db, payload, queued_at), id);
            &&& after.retries.rows == db.retries.rows
            &&& after.retries.last_id == id
            &&& retry_ranks(after, now)(id) is None
        }),
{
    let id = (db.retries.last_id + 1) as i64;
    let after = without_queued(with_queued(db, payload, queued_at), id);
    assert(after.retries.rows =~= db.retries.rows);
}

/// Forgetting old thread mappings keeps every mapping that is young enough as it is, forgets every
/// other, and does nothing the second time.
pub proof fn law_young_threads_are_kept(
    threads: Map<Seq<char>, ThreadView>,
    older_than_secs: i64,
    now: i64,
    id: Seq<char>,
)
    ensures
        young_threads(threads, older_than_secs, now).contains_key(id) <==> threads.contains_key(id)
            && now - threads[id].created_at <= older_than_secs,
        young_threads(threads, older_than_secs, now).contains_key(id) ==> young_threads(
            threads,
            older_than_secs,
            now,
        )[id] == threads[id],
        young_threads(young_threads(threads, older_than_secs, now), older_than_secs, now)
            == young_threads(threads, older_than_secs, now),
{
    let once = young_threads(threads, older_than_secs, now);
    assert(young_threads(once, older_than_secs, now) =~= once);
}

} // verus!
