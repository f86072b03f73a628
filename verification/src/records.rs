//! The rows of the bridge's records and what the operations on them mean.
use crate::text::same_text;
#[allow(unused_imports)]
use crate::text::{decimal, opt_str_view, opt_view, parsed_u32};
use vstd::prelude::*;

verus! {

/// How far the mail made of a Matrix message has got.
#[derive(Clone, Copy, Debug, PartialEq, Eq, Structural)]
pub enum SmtpStatus {
    /// Recorded, no delivery attempt has finished.
    Pending,
    /// The last attempt failed.
    Failed,
    /// Handed over, in the records of early versions.
    Sent,
    /// Handed over to the mail server.
    SmtpAccepted,
    /// The list's copy came back.
    ListConfirmed,
    /// The list's copy did not come back in time.
    DeliveryUnconfirmed,
}

pub open spec fn status_text(s: SmtpStatus) -> Seq<char> {
    match s {
        SmtpStatus::Pending => "pending"@,
        SmtpStatus::Failed => "failed"@,
        SmtpStatus::Sent => "sent"@,
        SmtpStatus::SmtpAccepted => "smtp_accepted"@,
        SmtpStatus::ListConfirmed => "list_confirmed"@,
        SmtpStatus::DeliveryUnconfirmed => "delivery_unconfirmed"@,
    }
}

/// A status reads back from its text: no two of them have the same.
pub proof fn law_status_text_is_faithful(a: SmtpStatus, b: SmtpStatus)
    ensures
        status_text(a) == status_text(b) ==> a == b,
{
    reveal_strlit("pending");
    reveal_strlit("failed");
    reveal_strlit("sent");
    reveal_strlit("smtp_accepted");
    reveal_strlit("list_confirmed");
    reveal_strlit("delivery_unconfirmed");
    if status_text(a) == status_text(b) {
        assert(status_text(a).len() == status_text(b).len());
    }
}

impl SmtpStatus {
    /// The text that stands for the status in a record.
    pub fn text(self) -> (r: &'static str)
        ensures
            r@ == status_text(self),
    {
        match self {
            SmtpStatus::Pending => "pending",
            SmtpStatus::Failed => "failed",
            SmtpStatus::Sent => "sent",
            SmtpStatus::SmtpAccepted => "smtp_accepted",
            SmtpStatus::ListConfirmed => "list_confirmed",
            SmtpStatus::DeliveryUnconfirmed => "delivery_unconfirmed",
        }
    }

    /// The status that a text stands for.
    pub fn from_text(text: &str) -> (r: Option<SmtpStatus>)
        ensures
            match r {
                Some(s) => text@ == status_text(s),
                None => forall|s: SmtpStatus| text@ != #[trigger] status_text(s),
            },
    {
        if same_text(text, "pending") {
            Some(SmtpStatus::Pending)
        } else if same_text(text, "failed") {
            Some(SmtpStatus::Failed)
        } else if same_text(text, "sent") {
            Some(SmtpStatus::Sent)
        } else if same_text(text, "smtp_accepted") {
            Some(SmtpStatus::SmtpAccepted)
        } else if same_text(text, "list_confirmed") {
            Some(SmtpStatus::ListConfirmed)
        } else if same_text(text, "delivery_unconfirmed") {
            Some(SmtpStatus::DeliveryUnconfirmed)
        } else {
            None
        }
    }
}

/// A stored status is one that the bridge knows, or there is none. A route in another state is left
/// alone.
pub open spec fn is_known(status: Option<Seq<char>>) -> bool {
    match status {
        Some(text) => exists|s: SmtpStatus| text == #[trigger] status_text(s),
        None => true,
    }
}

/// Whether a stored status is one that the bridge knows, or there is none.
pub fn is_known_status(status: Option<&str>) -> (r: bool)
    ensures
        r == is_known(opt_str_view(status)),
{
    match status {
        Some(text) => SmtpStatus::from_text(text).is_some(),
        None => true,
    }
}

/// A message of a mailbox that has been dealt with.
#[derive(Clone, Debug)]
pub struct SeenRow {
    pub message_id: Option<String>,
    pub processed_at: i64,
}

pub ghost struct SeenView {
    pub message_id: Option<Seq<char>>,
    pub processed_at: i64,
}

impl View for SeenRow {
    type V = SeenView;

    open spec fn view(&self) -> SeenView {
        SeenView { message_id: opt_view(self.message_id), processed_at: self.processed_at }
    }
}

/// Where a mail message was posted and to which thread it belongs.
#[derive(Clone, Debug)]
pub struct ThreadRow {
    pub matrix_event_id: String,
    pub thread_root_id: String,
    pub mailbox: String,
    pub created_at: i64,
}

pub ghost struct ThreadView {
    pub matrix_event_id: Seq<char>,
    pub thread_root_id: Seq<char>,
    pub mailbox: Seq<char>,
    pub created_at: i64,
}

impl View for ThreadRow {
    type V = ThreadView;

    open spec fn view(&self) -> ThreadView {
        ThreadView {
            matrix_event_id: self.matrix_event_id@,
            thread_root_id: self.thread_root_id@,
            mailbox: self.mailbox@,
            created_at: self.created_at,
        }
    }
}

/// A posting to repeat.
#[derive(Clone, Debug)]
pub struct RetryRow {
    pub payload: String,
    pub attempts: i64,
    pub next_retry_at: i64,
    pub created_at: i64,
}

pub ghost struct RetryView {
    pub payload: Seq<char>,
    pub attempts: i64,
    pub next_retry_at: i64,
    pub created_at: i64,
}

impl View for RetryRow {
    type V = RetryView;

    open spec fn view(&self) -> RetryView {
        RetryView {
            payload: self.payload@,
            attempts: self.attempts,
            next_retry_at: self.next_retry_at,
            created_at: self.created_at,
        }
    }
}

/// The tie between a Matrix event and a mail message. Only mail made of Matrix messages has the
/// `smtp_*` and delivery fields.
#[derive(Clone, Debug)]
pub struct RouteRow {
    pub email_message_id: String,
    pub thread_root_email_message_id: Option<String>,
    pub subject: Option<String>,
    pub origin: String,
    pub smtp_status: Option<SmtpStatus>,
    pub smtp_attempts: i64,
    pub smtp_next_retry_at: Option<i64>,
    pub smtp_payload: Option<String>,
    pub room_id: Option<String>,
    pub smtp_accepted_at: Option<i64>,
    pub list_confirmed_at: Option<i64>,
    pub delivery_unconfirmed_at: Option<i64>,
    pub delivery_notice_claimed_at: Option<i64>,
    pub delivery_notice_sent_at: Option<i64>,
    pub created_at: i64,
}

pub ghost struct RouteView {
    pub email_message_id: Seq<char>,
    pub thread_root_email_message_id: Option<Seq<char>>,
    pub subject: Option<Seq<char>>,
    pub origin: Seq<char>,
    pub smtp_status: Option<SmtpStatus>,
    pub smtp_attempts: i64,
    pub smtp_next_retry_at: Option<i64>,
    pub smtp_payload: Option<Seq<char>>,
    pub room_id: Option<Seq<char>>,
    pub smtp_accepted_at: Option<i64>,
    pub list_confirmed_at: Option<i64>,
    pub delivery_unconfirmed_at: Option<i64>,
    pub delivery_notice_claimed_at: Option<i64>,
    pub delivery_notice_sent_at: Option<i64>,
    pub created_at: i64,
}

impl View for RouteRow {
    type V = RouteView;

    open spec fn view(&self) -> RouteView {
        RouteView {
            email_message_id: self.email_message_id@,
            thread_root_email_message_id: opt_view(self.thread_root_email_message_id),
            subject: opt_view(self.subject),
            origin: self.origin@,
            smtp_status: self.smtp_status,
            smtp_attempts: self.smtp_attempts,
            smtp_next_retry_at: self.smtp_next_retry_at,
            smtp_payload: opt_view(self.smtp_payload),
            room_id: opt_view(self.room_id),
            smtp_accepted_at: self.smtp_accepted_at,
            list_confirmed_at: self.list_confirmed_at,
            delivery_unconfirmed_at: self.delivery_unconfirmed_at,
            delivery_notice_claimed_at: self.delivery_notice_claimed_at,
            delivery_notice_sent_at: self.delivery_notice_sent_at,
            created_at: self.created_at,
        }
    }
}

/// What a route says of its mail message.
#[derive(Clone, Debug)]
pub struct RouteRecord {
    pub email_message_id: String,
    pub thread_root_email_message_id: Option<String>,
    pub subject: Option<String>,
    pub origin: String,
}

pub ghost struct RecordView {
    pub email_message_id: Seq<char>,
    pub thread_root_email_message_id: Option<Seq<char>>,
    pub subject: Option<Seq<char>>,
    pub origin: Seq<char>,
}

impl View for RouteRecord {
    type V = RecordView;

    open spec fn view(&self) -> RecordView {
        RecordView {
            email_message_id: self.email_message_id@,
            thread_root_email_message_id: opt_view(self.thread_root_email_message_id),
            subject: opt_view(self.subject),
            origin: self.origin@,
        }
    }
}

pub open spec fn record_of(r: RouteView) -> RecordView {
    RecordView {
        email_message_id: r.email_message_id,
        thread_root_email_message_id: r.thread_root_email_message_id,
        subject: r.subject,
        origin: r.origin,
    }
}

/// A mail message that is due to be sent again.
#[derive(Clone, Debug)]
pub struct SmtpRetryItem {
    pub matrix_event_id: String,
    pub smtp_payload: String,
    pub attempts: i64,
}

/// A route that a copy from the list confirmed, and its status before.
#[derive(Clone, Debug)]
pub struct ConfirmationMatch {
    pub matrix_event_id: String,
    pub previous_status: String,
}

/// A room to be told that the list's copy of an event's mail has not come back.
#[derive(Clone, Debug)]
pub struct DeliveryNotice {
    pub matrix_event_id: String,
    pub room_id: String,
}

/// Why an operation on the records fails.
#[derive(Clone, Copy, Debug, PartialEq, Eq, Structural)]
pub enum DbError {
    /// The largest identifier of a posting to repeat has been given out.
    RetryIdsExhausted,
    /// A mail message that is due has no payload.
    MissingPayload,
}

#[verifier::ext_equal]
pub ghost struct QueueView {
    pub rows: Map<i64, RetryView>,
    pub last_id: i64,
}

#[verifier::ext_equal]
pub ghost struct DbView {
    pub seen: Map<(u32, Seq<char>), SeenView>,
    pub threads: Map<Seq<char>, ThreadView>,
    pub retries: QueueView,
    pub meta: Map<Seq<char>, Seq<char>>,
    pub routes: Map<Seq<char>, RouteView>,
}

/// The records of a new bridge.
pub open spec fn empty_db() -> DbView {
    DbView {
        seen: Map::empty(),
        threads: Map::empty(),
        retries: QueueView { rows: Map::empty(), last_id: 0 },
        meta: Map::empty(),
        routes: Map::empty(),
    }
}

pub open spec fn with_route(db: DbView, id: Seq<char>, r: RouteView) -> DbView {
    DbView { routes: db.routes.insert(id, r), ..db }
}

/// Applies an update to the route of one event, if it has one.
pub open spec fn on_route(db: DbView, id: Seq<char>, update: spec_fn(RouteView) -> RouteView) -> DbView {
    if db.routes.contains_key(id) {
        with_route(db, id, update(db.routes[id]))
    } else {
        db
    }
}

/// The route of a mail message that was posted to a room.
pub open spec fn posted_route(
    email_message_id: Seq<char>,
    thread_root: Option<Seq<char>>,
    subject: Option<Seq<char>>,
    origin: Seq<char>,
    now: i64,
) -> RouteView {
    RouteView {
        email_message_id,
        thread_root_email_message_id: thread_root,
        subject,
        origin,
        smtp_status: None,
        smtp_attempts: 0,
        smtp_next_retry_at: None,
        smtp_payload: None,
        room_id: None,
        smtp_accepted_at: None,
        list_confirmed_at: None,
        delivery_unconfirmed_at: None,
        delivery_notice_claimed_at: None,
        delivery_notice_sent_at: None,
        created_at: now,
    }
}

/// The route of a Matrix message before its mail is sent.
pub open spec fn pending_route(
    room_id: Seq<char>,
    our_message_id: Seq<char>,
    thread_root: Option<Seq<char>>,
    subject: Option<Seq<char>>,
    payload: Seq<char>,
    now: i64,
) -> RouteView {
    RouteView {
        smtp_status: Some(SmtpStatus::Pending),
        smtp_payload: Some(payload),
        room_id: Some(room_id),
        ..posted_route(our_message_id, thread_root, subject, "matrix"@, now)
    }
}

/// The update on acceptance by the mail server: it moves a mail on that was not handed over before,
/// and leaves one that is already confirmed or unconfirmed alone.
pub open spec fn accepted(r: RouteView, now: i64) -> RouteView {
    if r.smtp_status == Some(SmtpStatus::Pending) || r.smtp_status == Some(SmtpStatus::Failed)
        || r.smtp_status == Some(SmtpStatus::Sent) {
        RouteView {
            smtp_status: Some(SmtpStatus::SmtpAccepted),
            smtp_accepted_at: Some(now),
            smtp_next_retry_at: None,
            ..r
        }
    } else {
        r
    }
}

/// One more attempt. The count stays at the largest integer.
pub open spec fn next_attempt(attempts: i64) -> i64 {
    if attempts < i64::MAX {
        (attempts + 1) as i64
    } else {
        attempts
    }
}

/// The update after a failed attempt.
pub open spec fn failed(r: RouteView, next_retry_at: i64) -> RouteView {
    if r.smtp_status == Some(SmtpStatus::Pending) || r.smtp_status == Some(SmtpStatus::Failed) {
        RouteView {
            smtp_status: Some(SmtpStatus::Failed),
            smtp_attempts: next_attempt(r.smtp_attempts),
            smtp_next_retry_at: Some(next_retry_at),
            ..r
        }
    } else {
        r
    }
}

/// The update when the list's copy comes back.
pub open spec fn confirmed(r: RouteView, now: i64) -> RouteView {
    RouteView {
        smtp_status: Some(SmtpStatus::ListConfirmed),
        list_confirmed_at: Some(now),
        delivery_notice_claimed_at: None,
        ..r
    }
}

/// The update when a delivery notice is claimed.
pub open spec fn claimed(r: RouteView, now: i64) -> RouteView {
    RouteView {
        smtp_status: Some(SmtpStatus::DeliveryUnconfirmed),
        delivery_unconfirmed_at: match r.delivery_unconfirmed_at {
            Some(t) => Some(t),
            None => Some(now),
        },
        delivery_notice_claimed_at: Some(now),
        ..r
    }
}

/// The update when a claimed notice was sent, or given back.
pub open spec fn notice_finished(r: RouteView, sent_at: Option<i64>) -> RouteView {
    if r.smtp_status == Some(SmtpStatus::DeliveryUnconfirmed) {
        RouteView {
            delivery_notice_sent_at: match sent_at {
                Some(t) => Some(t),
                None => r.delivery_notice_sent_at,
            },
            delivery_notice_claimed_at: None,
            ..r
        }
    } else {
        r
    }
}

/// The mail waits for a copy from the list, or the copy may come before anything else is recorded.
pub open spec fn confirmable(r: RouteView) -> bool {
    &&& r.origin == "matrix"@
    &&& {
        ||| r.smtp_status == Some(SmtpStatus::Pending)
        ||| r.smtp_status == Some(SmtpStatus::Sent)
        ||| r.smtp_status == Some(SmtpStatus::SmtpAccepted)
        ||| r.smtp_status == Some(SmtpStatus::DeliveryUnconfirmed)
    }
}

/// The route of `id` is one that a copy with the given Message-ID and event header confirms.
pub open spec fn confirms(
    db: DbView,
    id: Seq<char>,
    email_message_id: Seq<char>,
    event_header: Option<Seq<char>>,
) -> bool {
    &&& db.routes.contains_key(id)
    &&& confirmable(db.routes[id])
    &&& {
        ||| db.routes[id].email_message_id == email_message_id
        ||| event_header == Some(id) && id.len() > 0
    }
}

/// The route of `id` is the one that a copy confirms: of those that it could, one with the Message-ID
/// of the copy, if there is any.
pub open spec fn confirms_best(
    db: DbView,
    id: Seq<char>,
    email_message_id: Seq<char>,
    event_header: Option<Seq<char>>,
) -> bool {
    &&& confirms(db, id, email_message_id, event_header)
    &&& db.routes[id].email_message_id == email_message_id || forall|k: Seq<char>|
        #![trigger db.routes[k]]
        db.routes.contains_key(k) && confirmable(db.routes[k]) ==> db.routes[k].email_message_id
            != email_message_id
}

/// A notice about this route may be claimed.
pub open spec fn claimable(r: RouteView, timeout_secs: i64, lease_secs: i64, now: i64) -> bool {
    &&& r.origin == "matrix"@
    &&& r.room_id is Some
    &&& r.delivery_notice_sent_at is None
    &&& match r.delivery_notice_claimed_at {
        None => true,
        Some(t) => t <= now - lease_secs,
    }
    &&& {
        ||| r.smtp_status == Some(SmtpStatus::SmtpAccepted) && match r.smtp_accepted_at {
            None => false,
            Some(t) => t <= now - timeout_secs,
        }
        ||| r.smtp_status == Some(SmtpStatus::DeliveryUnconfirmed)
    }
}

/// A notice about this route was claimed and is still to be sent.
pub open spec fn notice_active(r: RouteView) -> bool {
    &&& r.smtp_status == Some(SmtpStatus::DeliveryUnconfirmed)
    &&& r.delivery_notice_claimed_at is Some
    &&& r.delivery_notice_sent_at is None
}

/// The time by which claimable notices are ordered.
pub open spec fn claim_rank(r: RouteView) -> int {
    match r.smtp_accepted_at {
        Some(t) => t as int,
        None => r.created_at as int,
    }
}

/// For each event, the rank of the notice about it, if it may be claimed.
pub open spec fn claim_ranks(
    db: DbView,
    timeout_secs: i64,
    lease_secs: i64,
    now: i64,
) -> spec_fn(Seq<char>) -> Option<int> {
    |id: Seq<char>|
        if db.routes.contains_key(id) && claimable(db.routes[id], timeout_secs, lease_secs, now) {
            Some(claim_rank(db.routes[id]))
        } else {
            None
        }
}

/// The mail may be sent, at once or later.
pub open spec fn retriable(r: RouteView) -> bool {
    &&& r.origin == "matrix"@
    &&& r.smtp_status == Some(SmtpStatus::Pending) || r.smtp_status == Some(SmtpStatus::Failed)
    &&& r.smtp_attempts < 10
}

/// The mail may be sent at time `now`.
pub open spec fn smtp_due(r: RouteView, now: i64) -> bool {
    &&& retriable(r)
    &&& match r.smtp_next_retry_at {
        None => true,
        Some(t) => t <= now,
    }
}

/// The time at which a mail may be sent next.
pub open spec fn retry_time(r: RouteView) -> i64 {
    match r.smtp_next_retry_at {
        None => 0,
        Some(t) => t,
    }
}

/// The order of mail that is due: mail without a time comes first.
pub open spec fn smtp_rank(r: RouteView) -> int {
    match r.smtp_next_retry_at {
        None => i64::MIN - 1,
        Some(t) => t as int,
    }
}

/// For each event, the rank of its mail, if that is due.
pub open spec fn smtp_ranks(db: DbView, now: i64) -> spec_fn(Seq<char>) -> Option<int> {
    |id: Seq<char>|
        if db.routes.contains_key(id) && smtp_due(db.routes[id], now) {
            Some(smtp_rank(db.routes[id]))
        } else {
            None
        }
}

/// For each posting to repeat, its time, if that has come.
pub open spec fn retry_ranks(db: DbView, now: i64) -> spec_fn(i64) -> Option<int> {
    |id: i64|
        if db.retries.rows.contains_key(id) && db.retries.rows[id].next_retry_at <= now {
            Some(db.retries.rows[id].next_retry_at as int)
        } else {
            None
        }
}

/// `chosen` are the `limit` keys of the lowest rank, lowest first, or all keys that have a rank
/// where there are no more. Which of several keys of equal rank is chosen is left open.
pub open spec fn earliest<K>(
    chosen: Seq<K>,
    rank: spec_fn(K) -> Option<int>,
    limit: nat,
) -> bool {
    &&& chosen.len() <= limit
    &&& chosen.no_duplicates()
    &&& forall|p: int| 0 <= p < chosen.len() ==> rank(#[trigger] chosen[p]) is Some
    &&& forall|p: int, q: int|
        0 <= p < q < chosen.len() ==> rank(#[trigger] chosen[p])->0 <= rank(#[trigger] chosen[q])->0
    &&& forall|k: K, p: int|
        #![trigger rank(k), chosen[p]]
        rank(k) is Some && !chosen.contains(k) && 0 <= p < chosen.len() ==> rank(chosen[p])->0
            <= rank(k)->0
    &&& chosen.len() < limit ==> forall|k: K| (#[trigger] rank(k)) is Some ==> chosen.contains(k)
}

/// The bridge sent this mail and the mail server took it.
pub open spec fn bridge_sent(r: RouteView, email_message_id: Seq<char>) -> bool {
    &&& r.email_message_id == email_message_id
    &&& r.origin == "matrix"@
    &&& {
        ||| r.smtp_status == Some(SmtpStatus::Sent)
        ||| r.smtp_status == Some(SmtpStatus::SmtpAccepted)
        ||| r.smtp_status == Some(SmtpStatus::ListConfirmed)
        ||| r.smtp_status == Some(SmtpStatus::DeliveryUnconfirmed)
    }
}

/// The records know the mail with this Message-ID as one that the bridge sent.
pub open spec fn is_own(db: DbView, email_message_id: Seq<char>) -> bool {
    exists|id: Seq<char>|
        #[trigger] db.routes.contains_key(id) && bridge_sent(db.routes[id], email_message_id)
}

/// The key under which the last UID of a mailbox is kept.
pub open spec fn last_uid_key(mailbox: Seq<char>) -> Seq<char> {
    "last_uid:"@ + mailbox
}

/// The last UID of a mailbox: 0 where there is none, or none that can be read.
pub open spec fn last_uid_of(db: DbView, mailbox: Seq<char>) -> u32 {
    if db.meta.contains_key(last_uid_key(mailbox)) {
        match parsed_u32(db.meta[last_uid_key(mailbox)]) {
            Some(uid) => uid,
            None => 0,
        }
    } else {
        0
    }
}

/// The records after the last UID of a mailbox was set.
pub open spec fn with_last_uid(db: DbView, mailbox: Seq<char>, uid: u32) -> DbView {
    DbView { meta: db.meta.insert(last_uid_key(mailbox), decimal(uid as nat)), ..db }
}

/// The records after a message was marked as seen; a mark that is there stays.
pub open spec fn with_seen(
    db: DbView,
    mailbox: Seq<char>,
    uid: u32,
    message_id: Option<Seq<char>>,
    now: i64,
) -> DbView {
    if db.seen.contains_key((uid, mailbox)) {
        db
    } else {
        DbView {
            seen: db.seen.insert((uid, mailbox), SeenView { message_id, processed_at: now }),
            ..db
        }
    }
}

/// The records after a thread mapping was stored.
pub open spec fn with_thread(db: DbView, message_id: Seq<char>, thread: ThreadView) -> DbView {
    DbView { threads: db.threads.insert(message_id, thread), ..db }
}

/// The records after a pending route was stored; a route that is there stays.
pub open spec fn with_pending(db: DbView, id: Seq<char>, r: RouteView) -> DbView {
    if db.routes.contains_key(id) {
        db
    } else {
        with_route(db, id, r)
    }
}

/// The records after a posting was queued, under the identifier after the last one, to be repeated
/// after a minute.
pub open spec fn with_queued(db: DbView, payload: Seq<char>, now: i64) -> DbView {
    let id = (db.retries.last_id + 1) as i64;
    let row = RetryView {
        payload,
        attempts: 0,
        next_retry_at: (now + 60) as i64,
        created_at: now,
    };
    DbView {
        retries: QueueView { rows: db.retries.rows.insert(id, row), last_id: id },
        ..db
    }
}

/// The records after a posting was taken out of the queue.
pub open spec fn without_queued(db: DbView, id: i64) -> DbView {
    DbView { retries: QueueView { rows: db.retries.rows.remove(id), ..db.retries }, ..db }
}

/// The records after a posting failed once more.
pub open spec fn with_failed_posting(db: DbView, id: i64, next_retry_at: i64) -> DbView {
    let rows = db.retries.rows;
    if rows.contains_key(id) {
        DbView {
            retries: QueueView {
                rows: rows.insert(id, retry_failed(rows[id], next_retry_at)),
                ..db.retries
            },
            ..db
        }
    } else {
        db
    }
}

/// The row of the queue after a failed posting.
pub open spec fn retry_failed(r: RetryView, next_retry_at: i64) -> RetryView {
    RetryView { attempts: next_attempt(r.attempts), next_retry_at, ..r }
}

/// The thread mappings younger than `older_than_secs`.
pub open spec fn young_threads(
    threads: Map<Seq<char>, ThreadView>,
    older_than_secs: i64,
    now: i64,
) -> Map<Seq<char>, ThreadView> {
    threads.restrict(
        Set::new(
            |id: Seq<char>|
                threads.contains_key(id) && threads[id].created_at >= now - older_than_secs,
        ),
    )
}

} // verus!
