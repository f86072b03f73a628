//! What single operations on the records do, and which rows they pick.
#[allow(unused_imports)]
use crate::records::{
    accepted, bridge_sent, claim_rank, claim_ranks, claimable, claimed, confirmable, confirmed,
    confirms, confirms_best, earliest, empty_db, failed, is_known, is_own, last_uid_of, next_attempt,
    notice_active, notice_finished, on_route, pending_route, posted_route, record_of, retriable, retry_failed,
    retry_ranks, retry_time, smtp_due, smtp_rank, smtp_ranks, status_text, with_failed_posting,
    with_last_uid, with_pending, with_queued, with_route, with_seen, with_thread, without_queued,
    DbView, RecordView, RetryView, RouteView, SeenView, SmtpStatus, ThreadView,
};
use vstd::prelude::*;

verus! {

/// The fields of a route that say what mail it leads to are the same.
pub open spec fn same_mail(a: RouteView, b: RouteView) -> bool {
    &&& a.email_message_id == b.email_message_id
    &&& a.thread_root_email_message_id == b.thread_root_email_message_id
    &&& a.subject == b.subject
    &&& a.origin == b.origin
    &&& a.smtp_payload == b.smtp_payload
    &&& a.room_id == b.room_id
    &&& a.created_at == b.created_at
}

/// The fields of a route that say what became of its notice are the same.
pub open spec fn same_notice(a: RouteView, b: RouteView) -> bool {
    &&& a.list_confirmed_at == b.list_confirmed_at
    &&& a.delivery_unconfirmed_at == b.delivery_unconfirmed_at
    &&& a.delivery_notice_claimed_at == b.delivery_notice_claimed_at
    &&& a.delivery_notice_sent_at == b.delivery_notice_sent_at
}

/// The fields of a route that say how its sending goes are the same.
pub open spec fn same_sending(a: RouteView, b: RouteView) -> bool {
    &&& a.smtp_attempts == b.smtp_attempts
    &&& a.smtp_next_retry_at == b.smtp_next_retry_at
    &&& a.smtp_accepted_at == b.smtp_accepted_at
}

/// What is asked of a route is its mail, the root of the thread, the subject and where it comes from.
pub proof fn law_what_a_route_tells(r: RouteView)
    ensures
        record_of(r).email_message_id == r.email_message_id,
        record_of(r).thread_root_email_message_id == r.thread_root_email_message_id,
        record_of(r).subject == r.subject,
        record_of(r).origin == r.origin,
{
}

/// A new bridge has no records.
pub proof fn law_new_records_are_empty(key: Seq<char>, uid: u32, id: i64)
    ensures
        !empty_db().routes.contains_key(key),
        !empty_db().threads.contains_key(key),
        !empty_db().meta.contains_key(key),
        !empty_db().seen.contains_key((uid, key)),
        !empty_db().retries.rows.contains_key(id),
        empty_db().retries.last_id == 0,
{
}

/// The route of a posted mail leads to it, and has nothing to send; that of a message whose mail is
/// pending leads to the mail, and has it to send at once, for the first time.
pub proof fn law_new_routes(
    room: Seq<char>,
    id: Seq<char>,
    root: Option<Seq<char>>,
    subject: Option<Seq<char>>,
    payload: Seq<char>,
    origin: Seq<char>,
    now: i64,
)
    ensures
        ({
            let r = posted_route(id, root, subject, origin, now);
            let p = pending_route(room, id, root, subject, payload, now);
            &&& r.email_message_id == id && r.thread_root_email_message_id == root && r.subject
                == subject && r.origin == origin && r.created_at == now
            &&& r.smtp_status is None && r.smtp_payload is None && r.room_id is None
            &&& p.email_message_id == id && p.thread_root_email_message_id == root && p.subject
                == subject && p.origin == "matrix"@ && p.created_at == now
            &&& p.smtp_status == Some(SmtpStatus::Pending) && p.smtp_payload == Some(payload)
                && p.room_id == Some(room)
            &&& r.smtp_attempts == 0 && p.smtp_attempts == 0
            &&& r.smtp_next_retry_at is None && p.smtp_next_retry_at is None
            &&& r.smtp_accepted_at is None && p.smtp_accepted_at is None
            &&& r.list_confirmed_at is None && p.list_confirmed_at is None
            &&& r.delivery_unconfirmed_at is None && p.delivery_unconfirmed_at is None
            &&& r.delivery_notice_claimed_at is None && p.delivery_notice_claimed_at is None
            &&& r.delivery_notice_sent_at is None && p.delivery_notice_sent_at is None
        }),
{
}

/// A mail that was not handed over before is accepted at that time and has no further attempt set; any
/// other is left alone. Neither its mail nor its notices change.
pub proof fn law_acceptance(r: RouteView, now: i64)
    ensures
        r.smtp_status == Some(SmtpStatus::Pending) || r.smtp_status == Some(SmtpStatus::Failed)
            || r.smtp_status == Some(SmtpStatus::Sent) ==> {
            &&& accepted(r, now).smtp_status == Some(SmtpStatus::SmtpAccepted)
            &&& accepted(r, now).smtp_accepted_at == Some(now)
            &&& accepted(r, now).smtp_next_retry_at is None
            &&& accepted(r, now).smtp_attempts == r.smtp_attempts
        },
        r.smtp_status is None || r.smtp_status == Some(SmtpStatus::SmtpAccepted) || r.smtp_status
            == Some(SmtpStatus::ListConfirmed) || r.smtp_status == Some(
            SmtpStatus::DeliveryUnconfirmed,
        ) ==> accepted(r, now) == r,
        same_mail(accepted(r, now), r),
        same_notice(accepted(r, now), r),
{
}

/// A failed attempt is counted, and the next is set; a mail that has left the bridge, or is none of its
/// own, is left alone. Neither its mail nor its notices change.
pub proof fn law_failure(r: RouteView, at: i64)
    ensures
        r.smtp_status == Some(SmtpStatus::Pending) || r.smtp_status == Some(SmtpStatus::Failed) ==> {
            &&& failed(r, at).smtp_status == Some(SmtpStatus::Failed)
            &&& failed(r, at).smtp_next_retry_at == Some(at)
            &&& r.smtp_attempts < i64::MAX ==> failed(r, at).smtp_attempts == r.smtp_attempts + 1
            &&& r.smtp_attempts == i64::MAX ==> failed(r, at).smtp_attempts == i64::MAX
            &&& failed(r, at).smtp_accepted_at == r.smtp_accepted_at
        },
        r.smtp_status is None || r.smtp_status == Some(SmtpStatus::Sent) || r.smtp_status == Some(
            SmtpStatus::SmtpAccepted,
        ) || r.smtp_status == Some(SmtpStatus::ListConfirmed) || r.smtp_status == Some(
            SmtpStatus::DeliveryUnconfirmed,
        ) ==> failed(r, at) == r,
        same_mail(failed(r, at), r),
        same_notice(failed(r, at), r),
{
}

/// A confirmed mail is confirmed at that time, and a claim to its notice ends; nothing else of it
/// changes.
pub proof fn law_confirmation(r: RouteView, now: i64)
    ensures
        confirmed(r, now).smtp_status == Some(SmtpStatus::ListConfirmed),
        confirmed(r, now).list_confirmed_at == Some(now),
        confirmed(r, now).delivery_notice_claimed_at is None,
        confirmed(r, now).delivery_notice_sent_at == r.delivery_notice_sent_at,
        confirmed(r, now).delivery_unconfirmed_at == r.delivery_unconfirmed_at,
        same_mail(confirmed(r, now), r),
        same_sending(confirmed(r, now), r),
{
}

/// A claimed notice is claimed at that time; its mail counts as unconfirmed since it was first claimed.
pub proof fn law_claim(r: RouteView, now: i64)
    ensures
        claimed(r, now).smtp_status == Some(SmtpStatus::DeliveryUnconfirmed),
        claimed(r, now).delivery_notice_claimed_at == Some(now),
        r.delivery_unconfirmed_at is None ==> claimed(r, now).delivery_unconfirmed_at == Some(now),
        r.delivery_unconfirmed_at is Some ==> claimed(r, now).delivery_unconfirmed_at
            == r.delivery_unconfirmed_at,
        claimed(r, now).delivery_notice_sent_at == r.delivery_notice_sent_at,
        claimed(r, now).list_confirmed_at == r.list_confirmed_at,
        same_mail(claimed(r, now), r),
        same_sending(claimed(r, now), r),
{
}

/// A notice that was sent is sent at that time, and one that is given back is not sent; either way the
/// claim ends, unless the mail was confirmed meanwhile.
pub proof fn law_end_of_a_claim(r: RouteView, at: i64)
    ensures
        r.smtp_status == Some(SmtpStatus::DeliveryUnconfirmed) ==> {
            &&& notice_finished(r, Some(at)).delivery_notice_sent_at == Some(at)
            &&& notice_finished(r, None).delivery_notice_sent_at == r.delivery_notice_sent_at
            &&& notice_finished(r, Some(at)).delivery_notice_claimed_at is None
            &&& notice_finished(r, None).delivery_notice_claimed_at is None
            &&& notice_finished(r, Some(at)).smtp_status == r.smtp_status
            &&& notice_finished(r, None).smtp_status == r.smtp_status
            &&& notice_finished(r, Some(at)).delivery_unconfirmed_at == r.delivery_unconfirmed_at
        },
        r.smtp_status != Some(SmtpStatus::DeliveryUnconfirmed) ==> notice_finished(r, Some(at)) == r
            && notice_finished(r, None) == r,
        same_mail(notice_finished(r, Some(at)), r),
        same_sending(notice_finished(r, Some(at)), r),
        same_mail(notice_finished(r, None), r),
        same_sending(notice_finished(r, None), r),
{
}

/// A copy from the list confirms a message's mail exactly if it has the mail's Message-ID or names the
/// event, and the mail is the bridge's and pending, sent, accepted or unconfirmed.
pub proof fn law_which_mail_a_copy_confirms(
    db: DbView,
    id: Seq<char>,
    mail: Seq<char>,
    header: Option<Seq<char>>,
)
    ensures
        confirms(db, id, mail, header) <==> {
            &&& db.routes.contains_key(id)
            &&& db.routes[id].origin == "matrix"@
            &&& db.routes[id].smtp_status is Some
            &&& db.routes[id].smtp_status->0 != SmtpStatus::Failed
            &&& db.routes[id].smtp_status->0 != SmtpStatus::ListConfirmed
            &&& db.routes[id].email_message_id == mail || (header == Some(id) && id.len() > 0)
        },
{
}

/// A notice may be claimed exactly if it is about the bridge's own mail in a known room, was not sent,
/// is not claimed within the lease, and the mail was accepted longer ago than the wait for its copy, or
/// counts as unconfirmed already.
pub proof fn law_which_notice_may_be_claimed(r: RouteView, timeout: i64, lease: i64, now: i64)
    ensures
        claimable(r, timeout, lease, now) <==> {
            &&& r.origin == "matrix"@
            &&& r.room_id is Some
            &&& r.delivery_notice_sent_at is None
            &&& r.delivery_notice_claimed_at is Some ==> now - r.delivery_notice_claimed_at->0 >= lease
            &&& r.smtp_status == Some(SmtpStatus::DeliveryUnconfirmed) || (r.smtp_status == Some(
                SmtpStatus::SmtpAccepted,
            ) && r.smtp_accepted_at is Some && now - r.smtp_accepted_at->0 >= timeout)
        },
        notice_active(r) <==> r.smtp_status == Some(SmtpStatus::DeliveryUnconfirmed)
            && r.delivery_notice_claimed_at is Some && r.delivery_notice_sent_at is None,
{
}

/// A mail is due exactly if it is the bridge's, pending or failed, was tried less than ten times, and
/// its time has come or none is set.
pub proof fn law_which_mail_is_due(r: RouteView, now: i64)
    ensures
        retriable(r) <==> r.origin == "matrix"@ && r.smtp_attempts < 10 && (r.smtp_status == Some(
            SmtpStatus::Pending,
        ) || r.smtp_status == Some(SmtpStatus::Failed)),
        smtp_due(r, now) <==> retriable(r) && (r.smtp_next_retry_at is None || r.smtp_next_retry_at->0
            <= now),
        r.smtp_next_retry_at is Some ==> retry_time(r) == r.smtp_next_retry_at->0,
        r.smtp_next_retry_at is None ==> retry_time(r) == 0,
{
}

/// Mail that is due has the rank of its time, before all of which comes mail without a time; claimable
/// notices have the rank of the time when their mail was accepted; and postings that of their time.
/// What is not due has none.
pub proof fn law_ranks(
    db: DbView,
    id: Seq<char>,
    other: RouteView,
    posting: i64,
    timeout: i64,
    lease: i64,
    now: i64,
)
    ensures
        smtp_ranks(db, now)(id) is Some <==> db.routes.contains_key(id) && smtp_due(
            db.routes[id],
            now,
        ),
        smtp_ranks(db, now)(id) is Some && db.routes[id].smtp_next_retry_at is Some ==> smtp_ranks(
            db,
            now,
        )(id)->0 == db.routes[id].smtp_next_retry_at->0,
        db.routes[id].smtp_next_retry_at is None && other.smtp_next_retry_at is Some ==> smtp_rank(
            db.routes[id],
        ) < smtp_rank(other),
        claim_ranks(db, timeout, lease, now)(id) is Some <==> db.routes.contains_key(id) && claimable(
            db.routes[id],
            timeout,
            lease,
            now,
        ),
        claim_ranks(db, timeout, lease, now)(id) is Some && db.routes[id].smtp_accepted_at is Some
            ==> claim_ranks(db, timeout, lease, now)(id)->0 == db.routes[id].smtp_accepted_at->0,
        claim_ranks(db, timeout, lease, now)(id) is Some && db.routes[id].smtp_accepted_at is None
            ==> claim_ranks(db, timeout, lease, now)(id)->0 == db.routes[id].created_at,
        retry_ranks(db, now)(posting) is Some <==> db.retries.rows.contains_key(posting)
            && db.retries.rows[posting].next_retry_at <= now,
        retry_ranks(db, now)(posting) is Some ==> retry_ranks(db, now)(posting)->0
            == db.retries.rows[posting].next_retry_at,
{
}

/// What is picked is ranked, each once, lowest rank first and no more than the limit; nothing that is
/// left has a lower rank than what is picked, and where the limit is not reached nothing is left.
pub proof fn law_earliest_are_picked<K>(
    chosen: Seq<K>,
    rank: spec_fn(K) -> Option<int>,
    limit: nat,
    x: K,
    i: int,
    j: int,
)
    requires
        earliest(chosen, rank, limit),
        0 <= i < chosen.len(),
    ensures
        chosen.len() <= limit,
        rank(chosen[i]) is Some,
        i < j < chosen.len() ==> chosen[i] != chosen[j] && rank(chosen[i])->0 <= rank(chosen[j])->0,
        rank(x) is Some && !chosen.contains(x) ==> chosen.len() == limit && rank(chosen[i])->0 <= rank(
            x,
        )->0,
{
    let r = rank(x);
    let c = chosen[i];
    if i < j < chosen.len() {
        let d = chosen[j];
    }
}

/// Where nothing is picked though something could be, nothing is ranked.
pub proof fn law_nothing_is_left_out<K>(rank: spec_fn(K) -> Option<int>, limit: nat, x: K)
    requires
        earliest(Seq::<K>::empty(), rank, limit),
        limit > 0,
    ensures
        rank(x) is None,
{
    let r = rank(x);
}

/// The records know a mail as the bridge's own exactly if some event's mail has its Message-ID, comes
/// from Matrix and has left the bridge.
pub proof fn law_own_mail(db: DbView, mail: Seq<char>)
    ensures
        is_own(db, mail) <==> exists|id: Seq<char>|
            {
                &&& #[trigger] db.routes.contains_key(id)
                &&& db.routes[id].email_message_id == mail
                &&& db.routes[id].origin == "matrix"@
                &&& db.routes[id].smtp_status is Some
                &&& db.routes[id].smtp_status->0 != SmtpStatus::Pending
                &&& db.routes[id].smtp_status->0 != SmtpStatus::Failed
            },
{
    if is_own(db, mail) {
        let id = choose|id: Seq<char>|
            #[trigger] db.routes.contains_key(id) && bridge_sent(db.routes[id], mail);
        assert(db.routes.contains_key(id));
    }
    if exists|id: Seq<char>|
        {
            &&& #[trigger] db.routes.contains_key(id)
            &&& db.routes[id].email_message_id == mail
            &&& db.routes[id].origin == "matrix"@
            &&& db.routes[id].smtp_status is Some
            &&& db.routes[id].smtp_status->0 != SmtpStatus::Pending
            &&& db.routes[id].smtp_status->0 != SmtpStatus::Failed
        } {
        let id = choose|id: Seq<char>|
            {
                &&& #[trigger] db.routes.contains_key(id)
                &&& db.routes[id].email_message_id == mail
                &&& db.routes[id].origin == "matrix"@
                &&& db.routes[id].smtp_status is Some
                &&& db.routes[id].smtp_status->0 != SmtpStatus::Pending
                &&& db.routes[id].smtp_status->0 != SmtpStatus::Failed
            };
        assert(bridge_sent(db.routes[id], mail));
    }
}

/// Storing a route replaces that of the event; storing a pending one keeps what is there. Other routes
/// and other records stay.
pub proof fn law_stored_routes(db: DbView, id: Seq<char>, r: RouteView, other: Seq<char>)
    ensures
        with_route(db, id, r).routes.contains_key(id) && with_route(db, id, r).routes[id] == r,
        db.routes.contains_key(id) ==> with_pending(db, id, r) == db,
        !db.routes.contains_key(id) ==> with_pending(db, id, r).routes.contains_key(id)
            && with_pending(db, id, r).routes[id] == r,
        other != id ==> with_route(db, id, r).routes.contains_key(other) == db.routes.contains_key(
            other,
        ) && with_pending(db, id, r).routes.contains_key(other) == db.routes.contains_key(other),
        other != id && db.routes.contains_key(other) ==> with_route(db, id, r).routes[other]
            == db.routes[other] && with_pending(db, id, r).routes[other] == db.routes[other],
        with_route(db, id, r).threads == db.threads && with_route(db, id, r).seen == db.seen
            && with_route(db, id, r).meta == db.meta && with_route(db, id, r).retries == db.retries,
{
}

/// An update applies to the route of its event, if there is one, and changes nothing where there is
/// none.
pub proof fn law_update_of_a_route(
    db: DbView,
    id: Seq<char>,
    update: spec_fn(RouteView) -> RouteView,
)
    ensures
        db.routes.contains_key(id) ==> on_route(db, id, update).routes.contains_key(id) && on_route(
            db,
            id,
            update,
        ).routes[id] == update(db.routes[id]),
        !db.routes.contains_key(id) ==> on_route(db, id, update) == db,
{
}

/// Marks, threads and last UIDs are kept where they belong and touch nothing else.
pub proof fn law_stored_marks(
    db: DbView,
    mailbox: Seq<char>,
    uid: u32,
    message: Option<Seq<char>>,
    id: Seq<char>,
    thread: ThreadView,
    now: i64,
    other: Seq<char>,
    seen: (u32, Seq<char>),
)
    ensures
        !db.seen.contains_key((uid, mailbox)) ==> with_seen(db, mailbox, uid, message, now).seen[(
            uid,
            mailbox,
        )] == (SeenView { message_id: message, processed_at: now }),
        seen != (uid, mailbox) ==> with_seen(db, mailbox, uid, message, now).seen.contains_key(seen)
            == db.seen.contains_key(seen),
        with_seen(db, mailbox, uid, message, now).routes == db.routes && with_seen(
            db,
            mailbox,
            uid,
            message,
            now,
        ).threads == db.threads && with_seen(db, mailbox, uid, message, now).meta == db.meta
            && with_seen(db, mailbox, uid, message, now).retries == db.retries,
        other != id ==> with_thread(db, id, thread).threads.contains_key(other)
            == db.threads.contains_key(other),
        other != id && db.threads.contains_key(other) ==> with_thread(db, id, thread).threads[other]
            == db.threads[other],
        with_thread(db, id, thread).routes == db.routes && with_thread(db, id, thread).seen == db.seen
            && with_thread(db, id, thread).meta == db.meta && with_thread(db, id, thread).retries
            == db.retries,
        with_last_uid(db, mailbox, uid).routes == db.routes && with_last_uid(db, mailbox, uid).seen
            == db.seen && with_last_uid(db, mailbox, uid).threads == db.threads && with_last_uid(
            db,
            mailbox,
            uid,
        ).retries == db.retries,
        db.meta.len() == 0 && db.meta.dom().finite() ==> last_uid_of(db, mailbox) == 0,
{
    if db.meta.len() == 0 && db.meta.dom().finite() {
        assert(db.meta.dom() =~= Set::empty());
    }
}

/// A posting is queued under the next identifier with its payload, not tried yet and due after a
/// minute; taking one out, or a failure, concerns that one alone.
pub proof fn law_queue_of_postings(
    db: DbView,
    payload: Seq<char>,
    now: i64,
    id: i64,
    at: i64,
    other: i64,
)
    requires
        now <= i64::MAX - 60,
        db.retries.last_id < i64::MAX,
    ensures
        ({
            let q = with_queued(db, payload, now);
            let new = (db.retries.last_id + 1) as i64;
            &&& q.retries.last_id == new
            &&& q.retries.rows.contains_key(new)
            &&& q.retries.rows[new] == (RetryView {
                payload,
                attempts: 0,
                next_retry_at: (now + 60) as i64,
                created_at: now,
            })
            &&& other != new ==> q.retries.rows.contains_key(other) == db.retries.rows.contains_key(
                other,
            )
            &&& q.routes == db.routes && q.threads == db.threads && q.seen == db.seen && q.meta
                == db.meta
        }),
        !without_queued(db, id).retries.rows.contains_key(id),
        without_queued(db, id).retries.last_id == db.retries.last_id,
        other != id ==> without_queued(db, id).retries.rows.contains_key(other)
            == db.retries.rows.contains_key(other),
        other != id && db.retries.rows.contains_key(other) ==> without_queued(db, id).retries.rows[other]
            == db.retries.rows[other] && with_failed_posting(db, id, at).retries.rows[other]
            == db.retries.rows[other],
        !db.retries.rows.contains_key(id) ==> with_failed_posting(db, id, at) == db,
        db.retries.rows.contains_key(id) ==> {
            let row = with_failed_posting(db, id, at).retries.rows[id];
            &&& row.payload == db.retries.rows[id].payload
            &&& row.next_retry_at == at
            &&& row.created_at == db.retries.rows[id].created_at
            &&& db.retries.rows[id].attempts < i64::MAX ==> row.attempts
                == db.retries.rows[id].attempts + 1
        },
{
}

/// A stored state is known exactly if it is one of the six words for the states of a mail, or missing.
pub proof fn law_words_for_states(text: Seq<char>)
    ensures
        is_known(None),
        is_known(Some(text)) <==> text == "pending"@ || text == "failed"@ || text == "sent"@ || text
            == "smtp_accepted"@ || text == "list_confirmed"@ || text == "delivery_unconfirmed"@,
        status_text(SmtpStatus::Pending) == "pending"@,
        status_text(SmtpStatus::Failed) == "failed"@,
        status_text(SmtpStatus::Sent) == "sent"@,
        status_text(SmtpStatus::SmtpAccepted) == "smtp_accepted"@,
        status_text(SmtpStatus::ListConfirmed) == "list_confirmed"@,
        status_text(SmtpStatus::DeliveryUnconfirmed) == "delivery_unconfirmed"@,
{
    let a = status_text(SmtpStatus::Pending);
    let b = status_text(SmtpStatus::Failed);
    let c = status_text(SmtpStatus::Sent);
    let d = status_text(SmtpStatus::SmtpAccepted);
    let e = status_text(SmtpStatus::ListConfirmed);
    let f = status_text(SmtpStatus::DeliveryUnconfirmed);
}

/// A copy confirms mail with its own Message-ID before mail of the event that it names.
pub proof fn law_exact_copy_comes_first(
    db: DbView,
    id: Seq<char>,
    mail: Seq<char>,
    header: Option<Seq<char>>,
    exact: Seq<char>,
)
    requires
        confirms_best(db, id, mail, header),
    ensures
        confirms(db, id, mail, header),
        db.routes.contains_key(exact) && db.routes[exact].email_message_id == mail && confirms(
            db,
            exact,
            mail,
            header,
        ) ==> db.routes[id].email_message_id == mail,
        db.routes[id].email_message_id != mail ==> header == Some(id),
{
    if db.routes.contains_key(exact) {
        let r = db.routes[exact];
    }
}

} // verus!
