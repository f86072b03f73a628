//! The bridge's records: mail already seen, thread mappings, the queue of postings to repeat, and
//! the routes that tie Matrix events to mail messages together with their delivery states.
//!
//! A `Db` holds rows in memory. A persistent store fills one with the rows that an operation
//! concerns, performs the operation, and writes the changed rows back.
use crate::records::{
    ConfirmationMatch, DbError, DeliveryNotice, RetryRow, RouteRecord, RouteRow, SeenRow,
    SmtpRetryItem, SmtpStatus, ThreadRow,
};
#[allow(unused_imports)]
use crate::records::{
    accepted, bridge_sent, claim_ranks, claimable, claimed, confirmable, confirmed, confirms,
    confirms_best, earliest, empty_db, failed, is_own, last_uid_key, last_uid_of, next_attempt,
    notice_active, notice_finished, on_route, pending_route, posted_route, record_of, retriable, retry_failed,
    retry_ranks, retry_time, smtp_ranks, status_text, with_failed_posting, with_last_uid,
    with_pending, with_queued, with_route, with_seen, with_thread, without_queued, young_threads,
    DbView, QueueView, RouteView, ThreadView,
};
use crate::table::{pick_earliest, Table};
#[allow(unused_imports)]
use crate::table::{picks_earliest, positions, rank_values};
use crate::text::{copy_option, decimal_text, owned_option, parse_u32, same_text};
#[allow(unused_imports)]
use crate::text::opt_str_view;
use vstd::prelude::*;

verus! {

/// The queue of postings to repeat. Identifiers are given out in ascending order, each once.
pub struct RetryQueue {
    rows: Table<i64, RetryRow>,
    last_id: i64,
}

impl View for RetryQueue {
    type V = QueueView;

    closed spec fn view(&self) -> QueueView {
        QueueView { rows: self.rows@, last_id: self.last_id }
    }
}

impl RetryQueue {
    #[verifier::type_invariant]
    closed spec fn bounded(self) -> bool {
        &&& 0 <= self.last_id
        &&& forall|id: i64| #[trigger] self.rows@.contains_key(id) ==> id <= self.last_id
    }

    fn new() -> (q: Self)
        ensures
            q@ == (QueueView { rows: Map::empty(), last_id: 0 }),
    {
        RetryQueue { rows: Table::new(), last_id: 0 }
    }

    fn put(&mut self, id: i64, row: RetryRow)
        ensures
            final(self)@.rows == old(self)@.rows.insert(id, row@),
            final(self)@.last_id == (if id > old(self)@.last_id {
                id
            } else {
                old(self)@.last_id
            }),
    {
        proof {
            use_type_invariant(&*self);
        }
        let mut rows: Table<i64, RetryRow> = Table::new();
        std::mem::swap(&mut rows, &mut self.rows);
        rows.put(id, row);
        if id > self.last_id {
            self.last_id = id;
        }
        self.rows = rows;
    }

    fn remove(&mut self, id: i64) -> (row: Option<RetryRow>)
        ensures
            match row {
                Some(r) => old(self)@.rows.contains_key(id) && r@ == old(self)@.rows[id],
                None => !old(self)@.rows.contains_key(id),
            },
            row is Some ==> id <= old(self)@.last_id,
            final(self)@ == (QueueView { rows: old(self)@.rows.remove(id), ..old(self)@ }),
    {
        proof {
            use_type_invariant(&*self);
        }
        let mut rows: Table<i64, RetryRow> = Table::new();
        std::mem::swap(&mut rows, &mut self.rows);
        let row = rows.remove(&id);
        self.rows = rows;
        row
    }

    /// An identifier that has not been given out, if one is left.
    fn fresh_id(&self) -> (r: Option<i64>)
        ensures
            match r {
                Some(id) => id == self@.last_id + 1 && !self@.rows.contains_key(id),
                None => self@.last_id == i64::MAX,
            },
    {
        proof {
            use_type_invariant(self);
        }
        if self.last_id < i64::MAX {
            Some(self.last_id + 1)
        } else {
            None
        }
    }
}

/// All records of the bridge.
pub struct Db {
    seen: Table<(u32, String), SeenRow>,
    threads: Table<String, ThreadRow>,
    retries: RetryQueue,
    meta: Table<String, String>,
    routes: Table<String, RouteRow>,
}

impl View for Db {
    type V = DbView;

    closed spec fn view(&self) -> DbView {
        DbView {
            seen: self.seen@,
            threads: self.threads@,
            retries: self.retries@,
            meta: self.meta@,
            routes: self.routes@,
        }
    }
}

proof fn lemma_earliest<K>(
    keys: Seq<K>,
    ranks: Seq<Option<int>>,
    picked: Seq<int>,
    rank: spec_fn(K) -> Option<int>,
    limit: nat,
)
    requires
        keys.no_duplicates(),
        ranks.len() == keys.len(),
        forall|i: int| 0 <= i < keys.len() ==> ranks[i] == rank(#[trigger] keys[i]),
        forall|k: K| (#[trigger] rank(k)) is Some ==> keys.contains(k),
        picks_earliest(ranks, picked, limit),
    ensures
        earliest(Seq::new(picked.len(), |p: int| keys[picked[p]]), rank, limit),
{
    let chosen = Seq::new(picked.len(), |p: int| keys[picked[p]]);
    assert forall|p: int| 0 <= p < chosen.len() implies rank(#[trigger] chosen[p]) is Some by {
        assert(ranks[picked[p]] is Some);
    }
    assert forall|p: int, q: int| 0 <= p < q < chosen.len() implies rank(#[trigger] chosen[p])->0
        <= rank(#[trigger] chosen[q])->0 by {
        assert(ranks[picked[p]]->0 <= ranks[picked[q]]->0);
    }
    assert(chosen.no_duplicates()) by {
        assert forall|p: int, q: int|
            0 <= p < chosen.len() && 0 <= q < chosen.len() && p != q implies chosen[p]
            != chosen[q] by {
            assert(picked[p] != picked[q]);
        }
    }
    assert forall|k: K| (#[trigger] rank(k)) is Some && picked.contains(
        keys.index_of(k),
    ) implies chosen.contains(k) by {
        let j = keys.index_of(k);
        assert(keys[j] == k);
        let p = picked.index_of(j);
        assert(picked[p] == j);
        assert(chosen[p] == k);
    }
    assert forall|k: K, p: int|
        #![trigger rank(k), chosen[p]]
        rank(k) is Some && !chosen.contains(k) && 0 <= p < chosen.len() implies rank(chosen[p])->0
        <= rank(k)->0 by {
        let j = keys.index_of(k);
        assert(keys[j] == k);
        assert(ranks[j] is Some);
        assert(ranks[picked[p]]->0 <= ranks[j]->0);
    }
    if picked.len() < limit {
        assert forall|k: K| (#[trigger] rank(k)) is Some implies chosen.contains(k) by {
            let j = keys.index_of(k);
            assert(keys[j] == k);
            assert(ranks[j] is Some);
        }
    }
}

fn status_is(r: &RouteRow, status: SmtpStatus) -> (b: bool)
    ensures
        b == (r.smtp_status == Some(status)),
{
    match r.smtp_status {
        Some(s) => s == status,
        None => false,
    }
}

fn is_confirmable(r: &RouteRow) -> (b: bool)
    ensures
        b == confirmable(r@),
{
    same_text(r.origin.as_str(), "matrix") && (status_is(r, SmtpStatus::Pending) || status_is(
        r,
        SmtpStatus::Sent,
    ) || status_is(r, SmtpStatus::SmtpAccepted) || status_is(r, SmtpStatus::DeliveryUnconfirmed))
}

fn is_claimable(r: &RouteRow, timeout_secs: i64, lease_secs: i64, now: i64) -> (b: bool)
    ensures
        b == claimable(r@, timeout_secs, lease_secs, now),
{
    let stale_claim: i128 = now as i128 - lease_secs as i128;
    let cutoff: i128 = now as i128 - timeout_secs as i128;
    let lease_over: bool = match r.delivery_notice_claimed_at {
        None => true,
        Some(t) => t as i128 <= stale_claim,
    };
    let overdue: bool = match r.smtp_accepted_at {
        None => false,
        Some(t) => t as i128 <= cutoff,
    };
    same_text(r.origin.as_str(), "matrix") && r.room_id.is_some()
        && r.delivery_notice_sent_at.is_none() && lease_over && ((status_is(
        r,
        SmtpStatus::SmtpAccepted,
    ) && overdue) || status_is(r, SmtpStatus::DeliveryUnconfirmed))
}

fn is_retriable(r: &RouteRow) -> (b: bool)
    ensures
        b == retriable(r@),
{
    same_text(r.origin.as_str(), "matrix") && (status_is(r, SmtpStatus::Pending) || status_is(
        r,
        SmtpStatus::Failed,
    )) && r.smtp_attempts < 10
}

fn attempt_after(attempts: i64) -> (r: i64)
    ensures
        r == next_attempt(attempts),
{
    if attempts < i64::MAX {
        attempts + 1
    } else {
        attempts
    }
}

fn uid_key(mailbox: &str) -> (r: String)
    ensures
        r@ == last_uid_key(mailbox@),
{
    "last_uid:".to_owned().concat(mailbox)
}

impl Db {
    /// Records without any row.
    pub fn new() -> (db: Self)
        ensures
            db@ == empty_db(),
    {
        Db {
            seen: Table::new(),
            threads: Table::new(),
            retries: RetryQueue::new(),
            meta: Table::new(),
            routes: Table::new(),
        }
    }

    /// Puts a stored mark of a message back.
    pub fn put_seen(&mut self, mailbox: &str, uid: u32, row: SeenRow)
        ensures
            final(self)@ == (DbView {
                seen: old(self)@.seen.insert((uid, mailbox@), row@),
                ..old(self)@
            }),
    {
        self.seen.put((uid, mailbox.to_owned()), row);
    }

    /// Puts a stored thread mapping back.
    pub fn put_thread(&mut self, message_id: &str, row: ThreadRow)
        ensures
            final(self)@ == with_thread(old(self)@, message_id@, row@),
    {
        self.threads.put(message_id.to_owned(), row);
    }

    /// Puts a stored posting to repeat back.
    pub fn put_retry(&mut self, id: i64, row: RetryRow)
        ensures
            final(self)@ == (DbView {
                retries: QueueView {
                    rows: old(self)@.retries.rows.insert(id, row@),
                    last_id: if id > old(self)@.retries.last_id {
                        id
                    } else {
                        old(self)@.retries.last_id
                    },
                },
                ..old(self)@
            }),
    {
        self.retries.put(id, row);
    }

    /// Puts a stored value back.
    pub fn put_meta(&mut self, key: &str, value: &str)
        ensures
            final(self)@ == (DbView { meta: old(self)@.meta.insert(key@, value@), ..old(self)@ }),
    {
        self.meta.put(key.to_owned(), value.to_owned());
    }

    /// Puts a stored route back.
    pub fn put_route(&mut self, matrix_event_id: &str, row: RouteRow)
        ensures
            final(self)@ == with_route(old(self)@, matrix_event_id@, row@),
    {
        self.routes.put(matrix_event_id.to_owned(), row);
    }

    /// The thread mapping of a mail message.
    pub fn thread(&self, message_id: &str) -> (r: Option<&ThreadRow>)
        ensures
            match r {
                Some(row) => self@.threads.contains_key(message_id@) && row@
                    == self@.threads[message_id@],
                None => !self@.threads.contains_key(message_id@),
            },
    {
        self.threads.get(&message_id.to_owned())
    }

    /// The row of a posting to repeat.
    pub fn retry(&self, id: i64) -> (r: Option<&RetryRow>)
        ensures
            match r {
                Some(row) => self@.retries.rows.contains_key(id) && row@ == self@.retries.rows[id],
                None => !self@.retries.rows.contains_key(id),
            },
    {
        self.retries.rows.get(&id)
    }

    /// The value under a key.
    pub fn meta_value(&self, key: &str) -> (r: Option<&String>)
        ensures
            match r {
                Some(v) => self@.meta.contains_key(key@) && v@ == self@.meta[key@],
                None => !self@.meta.contains_key(key@),
            },
    {
        self.meta.get(&key.to_owned())
    }

    /// The route of a Matrix event.
    pub fn route(&self, matrix_event_id: &str) -> (r: Option<&RouteRow>)
        ensures
            match r {
                Some(row) => self@.routes.contains_key(matrix_event_id@) && row@
                    == self@.routes[matrix_event_id@],
                None => !self@.routes.contains_key(matrix_event_id@),
            },
    {
        self.routes.get(&matrix_event_id.to_owned())
    }

    /// Whether a message of a mailbox has been dealt with.
    pub fn uid_seen(&self, mailbox: &str, uid: u32) -> (r: bool)
        ensures
            r == self@.seen.contains_key((uid, mailbox@)),
    {
        self.seen.get(&(uid, mailbox.to_owned())).is_some()
    }

    /// Marks a message of a mailbox as dealt with. A mark that is there stays as it is.
    pub fn mark_uid_seen(&mut self, mailbox: &str, uid: u32, message_id: Option<&str>, now: i64)
        ensures
            final(self)@ == with_seen(old(self)@, mailbox@, uid, opt_str_view(message_id), now),
    {
        if !self.uid_seen(mailbox, uid) {
            self.put_seen(
                mailbox,
                uid,
                SeenRow { message_id: owned_option(message_id), processed_at: now },
            );
        }
    }

    /// The Matrix event and the thread root of a mail message that was posted.
    pub fn get_thread_root(&self, message_id: &str) -> (r: Option<(String, String)>)
        ensures
            match r {
                Some(t) => {
                    &&& self@.threads.contains_key(message_id@)
                    &&& t.0@ == self@.threads[message_id@].matrix_event_id
                    &&& t.1@ == self@.threads[message_id@].thread_root_id
                },
                None => !self@.threads.contains_key(message_id@),
            },
    {
        match self.thread(message_id) {
            Some(row) => Some((row.matrix_event_id.clone(), row.thread_root_id.clone())),
            None => None,
        }
    }

    /// Stores the thread mapping of a mail message, in the place of an older one.
    pub fn store_thread(
        &mut self,
        message_id: &str,
        matrix_event_id: &str,
        thread_root_id: &str,
        mailbox: &str,
        now: i64,
    )
        ensures
            final(self)@ == with_thread(
                old(self)@,
                message_id@,
                (ThreadView {
                    matrix_event_id: matrix_event_id@,
                    thread_root_id: thread_root_id@,
                    mailbox: mailbox@,
                    created_at: now,
                }),
            ),
    {
        self.put_thread(
            message_id,
            ThreadRow {
                matrix_event_id: matrix_event_id.to_owned(),
                thread_root_id: thread_root_id.to_owned(),
                mailbox: mailbox.to_owned(),
                created_at: now,
            },
        );
    }

    /// The last UID that was dealt with in a mailbox, 0 if there is none.
    pub fn get_last_uid(&self, mailbox: &str) -> (uid: u32)
        ensures
            uid == last_uid_of(self@, mailbox@),
    {
        match self.meta_value(uid_key(mailbox).as_str()) {
            Some(value) => match parse_u32(value.as_str()) {
                Some(uid) => uid,
                None => 0,
            },
            None => 0,
        }
    }

    /// Sets the last UID that was dealt with in a mailbox.
    pub fn set_last_uid(&mut self, mailbox: &str, uid: u32)
        ensures
            final(self)@ == with_last_uid(old(self)@, mailbox@, uid),
    {
        let key = uid_key(mailbox);
        let value = decimal_text(uid as u64);
        self.put_meta(key.as_str(), value.as_str());
    }

    /// Queues a posting to be repeated after a minute, under a new identifier.
    pub fn push_retry(&mut self, payload_json: &str, now: i64) -> (r: Result<i64, DbError>)
        requires
            now <= i64::MAX - 60,
        ensures
            match r {
                Ok(id) => {
                    &&& id == old(self)@.retries.last_id + 1
                    &&& !old(self)@.retries.rows.contains_key(id)
                    &&& final(self)@ == with_queued(old(self)@, payload_json@, now)
                },
                Err(e) => {
                    &&& e == DbError::RetryIdsExhausted
                    &&& old(self)@.retries.last_id == i64::MAX
                    &&& final(self)@ == old(self)@
                },
            },
    {
        match self.retries.fresh_id() {
            Some(id) => {
                self.put_retry(
                    id,
                    RetryRow {
                        payload: payload_json.to_owned(),
                        attempts: 0,
                        next_retry_at: now + 60,
                        created_at: now,
                    },
                );
                Ok(id)
            },
            None => Err(DbError::RetryIdsExhausted),
        }
    }

    /// At most `limit` postings whose time has come, earliest first: identifier, payload and number
    /// of attempts. They stay in the queue.
    pub fn pop_retry(&self, limit: usize, now: i64) -> (r: Vec<(i64, String, i64)>)
        ensures
            earliest(
                Seq::new(r@.len(), |p: int| r@[p].0),
                retry_ranks(self@, now),
                limit as nat,
            ),
            forall|p: int|
                0 <= p < r@.len() ==> {
                    &&& (#[trigger] r@[p]).1@ == self@.retries.rows[r@[p].0].payload
                    &&& r@[p].2 == self@.retries.rows[r@[p].0].attempts
                },
    {
        let rows = &self.retries.rows;
        let n: usize = rows.len();
        let ghost rank = retry_ranks(self@, now);
        let mut ranks: Vec<Option<i128>> = Vec::new();
        let mut i: usize = 0;
        while i < n
            invariant
                rows@ == self@.retries.rows,
                n == rows.keys().len(),
                i <= n,
                rank == retry_ranks(self@, now),
                ranks@.len() == i,
                forall|j: int|
                    0 <= j < i ==> rank_values(ranks@)[j] == rank(#[trigger] rows.keys()[j]),
            decreases n - i,
        {
            let row = rows.row_at(i);
            let ghost before = ranks@;
            if row.next_retry_at <= now {
                ranks.push(Some(row.next_retry_at as i128));
            } else {
                ranks.push(None);
            }
            assert(rank_values(ranks@) =~= rank_values(before).push(rank(rows.keys()[i as int])));
            i += 1;
        }
        let picked = pick_earliest(&ranks, limit);
        proof {
            lemma_earliest(
                rows.keys(),
                rank_values(ranks@),
                positions(picked@),
                rank,
                limit as nat,
            );
        }
        let mut out: Vec<(i64, String, i64)> = Vec::new();
        let mut p: usize = 0;
        while p < picked.len()
            invariant
                rows@ == self@.retries.rows,
                n == rows.keys().len(),
                p <= picked@.len(),
                out@.len() == p,
                forall|q: int| 0 <= q < picked@.len() ==> #[trigger] picked@[q] < n,
                forall|q: int|
                    0 <= q < p ==> {
                        &&& (#[trigger] out@[q]).0 == rows.keys()[picked@[q] as int]
                        &&& out@[q].1@ == self@.retries.rows[out@[q].0].payload
                        &&& out@[q].2 == self@.retries.rows[out@[q].0].attempts
                    },
            decreases picked@.len() - p,
        {
            let at: usize = picked[p];
            let row = rows.row_at(at);
            out.push((*rows.key_at(at), row.payload.clone(), row.attempts));
            p += 1;
        }
        proof {
            let listed = Seq::new(out@.len(), |p: int| out@[p].0);
            let chosen = Seq::new(
                positions(picked@).len(),
                |p: int| rows.keys()[positions(picked@)[p]],
            );
            assert(listed =~= chosen);
        }
        out
    }

    /// Takes a posting out of the queue.
    pub fn ack_retry(&mut self, id: i64)
        ensures
            final(self)@ == without_queued(old(self)@, id),
    {
        let _ = self.retries.remove(id);
    }

    /// Counts a failed attempt of a posting and sets the time of the next.
    pub fn fail_retry(&mut self, id: i64, next_retry_at: i64)
        ensures
            final(self)@ == with_failed_posting(old(self)@, id, next_retry_at),
    {
        let ghost before = self@;
        match self.retries.remove(id) {
            Some(row) => {
                let row = RetryRow {
                    payload: row.payload,
                    attempts: attempt_after(row.attempts),
                    next_retry_at,
                    created_at: row.created_at,
                };
                self.retries.put(id, row);
                assert(before.retries.rows.remove(id).insert(id, row@)
                    =~= before.retries.rows.insert(id, row@));
            },
            None => {
                assert(before.retries.rows.remove(id) =~= before.retries.rows);
            },
        }
    }

    /// Stores the route of a mail message that was posted, in the place of an older route of the
    /// same event.
    pub fn store_route(
        &mut self,
        matrix_event_id: &str,
        email_message_id: &str,
        thread_root_email_message_id: Option<&str>,
        subject: Option<&str>,
        origin: &str,
        now: i64,
    )
        ensures
            final(self)@ == with_route(
                old(self)@,
                matrix_event_id@,
                posted_route(
                    email_message_id@,
                    opt_str_view(thread_root_email_message_id),
                    opt_str_view(subject),
                    origin@,
                    now,
                ),
            ),
    {
        self.put_route(
            matrix_event_id,
            RouteRow {
                email_message_id: email_message_id.to_owned(),
                thread_root_email_message_id: owned_option(thread_root_email_message_id),
                subject: owned_option(subject),
                origin: origin.to_owned(),
                smtp_status: None,
                smtp_attempts: 0,
                smtp_next_retry_at: None,
                smtp_payload: None,
                room_id: None,
                smtp_accepted_at: None,
                list_confirmed_at: None,
                delivery_unconfirmed_at: None,
                delivery_notice_claimed_at: None,
                delivery_notice_sent_at: None,
                created_at: now,
            },
        );
    }

    /// What the route of a Matrix event says of its mail message.
    pub fn get_route_by_matrix_event(&self, matrix_event_id: &str) -> (r: Option<RouteRecord>)
        ensures
            match r {
                Some(record) => self@.routes.contains_key(matrix_event_id@) && record@ == record_of(
                    self@.routes[matrix_event_id@],
                ),
                None => !self@.routes.contains_key(matrix_event_id@),
            },
    {
        match self.route(matrix_event_id) {
            Some(row) => Some(
                RouteRecord {
                    email_message_id: row.email_message_id.clone(),
                    thread_root_email_message_id: copy_option(&row.thread_root_email_message_id),
                    subject: copy_option(&row.subject),
                    origin: row.origin.clone(),
                },
            ),
            None => None,
        }
    }

    /// Stores the route of a Matrix message before its mail is sent. A route that is there stays as
    /// it is, so that an event that comes twice does no harm.
    pub fn store_matrix_reply_pending(
        &mut self,
        matrix_event_id: &str,
        room_id: &str,
        our_message_id: &str,
        thread_root_email_message_id: Option<&str>,
        subject: Option<&str>,
        smtp_payload: &str,
        now: i64,
    )
        ensures
            final(self)@ == with_pending(
                old(self)@,
                matrix_event_id@,
                pending_route(
                    room_id@,
                    our_message_id@,
                    opt_str_view(thread_root_email_message_id),
                    opt_str_view(subject),
                    smtp_payload@,
                    now,
                ),
            ),
    {
        if self.route(matrix_event_id).is_none() {
            self.put_route(
                matrix_event_id,
                RouteRow {
                    email_message_id: our_message_id.to_owned(),
                    thread_root_email_message_id: owned_option(thread_root_email_message_id),
                    subject: owned_option(subject),
                    origin: "matrix".to_owned(),
                    smtp_status: Some(SmtpStatus::Pending),
                    smtp_attempts: 0,
                    smtp_next_retry_at: None,
                    smtp_payload: Some(smtp_payload.to_owned()),
                    room_id: Some(room_id.to_owned()),
                    smtp_accepted_at: None,
                    list_confirmed_at: None,
                    delivery_unconfirmed_at: None,
                    delivery_notice_claimed_at: None,
                    delivery_notice_sent_at: None,
                    created_at: now,
                },
            );
        }
    }

    /// Records that the mail server took a mail. A status beyond that is kept.
    pub fn mark_route_smtp_accepted(&mut self, matrix_event_id: &str, now: i64)
        ensures
            final(self)@ == on_route(
                old(self)@,
                matrix_event_id@,
                |r: RouteView| accepted(r, now),
            ),
    {
        let ghost before = self@;
        let key = matrix_event_id.to_owned();
        match self.routes.remove(&key) {
            Some(row) => {
                let mut row = row;
                if status_is(&row, SmtpStatus::Pending) || status_is(&row, SmtpStatus::Failed)
                    || status_is(&row, SmtpStatus::Sent) {
                    row.smtp_status = Some(SmtpStatus::SmtpAccepted);
                    row.smtp_accepted_at = Some(now);
                    row.smtp_next_retry_at = None;
                }
                self.routes.put(key, row);
                assert(self@ =~= with_route(before, key@, row@));
            },
            None => {
                assert(self@ =~= before);
            },
        }
    }

    /// Confirms the mail of which the list's copy came back: the one with the copy's Message-ID, or
    /// where there is none, since lists may change it, the one of the event that the copy names.
    pub fn confirm_list_delivery(
        &mut self,
        email_message_id: &str,
        matrix_event_id: Option<&str>,
        now: i64,
    ) -> (r: Option<ConfirmationMatch>)
        ensures
            match r {
                Some(m) => {
                    let id = m.matrix_event_id@;
                    &&& confirms_best(
                        old(self)@,
                        id,
                        email_message_id@,
                        opt_str_view(matrix_event_id),
                    )
                    &&& confirms(old(self)@, id, email_message_id@, opt_str_view(matrix_event_id))
                    &&& old(self)@.routes[id].email_message_id == email_message_id@ || forall|
                        k: Seq<char>,
                    |
                        #![trigger old(self)@.routes[k]]
                        old(self)@.routes.contains_key(k) && confirmable(old(self)@.routes[k])
                            ==> old(self)@.routes[k].email_message_id != email_message_id@
                    &&& m.previous_status@ == status_text(old(self)@.routes[id].smtp_status->0)
                    &&& final(self)@ == with_route(
                        old(self)@,
                        id,
                        confirmed(old(self)@.routes[id], now),
                    )
                },
                None => {
                    &&& forall|k: Seq<char>|
                        !#[trigger] confirms(
                            old(self)@,
                            k,
                            email_message_id@,
                            opt_str_view(matrix_event_id),
                        )
                    &&& final(self)@ == old(self)@
                },
            },
    {
        let ghost before = self@;
        let n: usize = self.routes.len();
        let ghost keys = self.routes.keys();
        let mut found: Option<usize> = None;
        let mut i: usize = 0;
        while i < n && found.is_none()
            invariant
                before == self@,
                keys == self.routes.keys(),
                n == keys.len(),
                i <= n,
                forall|k: Seq<char>| #[trigger] before.routes.contains_key(k) <==> keys.contains(k),
                match found {
                    Some(at) => at < n && confirmable(before.routes[keys[at as int]])
                        && before.routes[keys[at as int]].email_message_id == email_message_id@,
                    None => forall|j: int|
                        0 <= j < i && confirmable(before.routes[#[trigger] keys[j]])
                            ==> before.routes[keys[j]].email_message_id != email_message_id@,
                },
            decreases n - i,
        {
            let row = self.routes.row_at(i);
            if is_confirmable(row) && same_text(row.email_message_id.as_str(), email_message_id) {
                found = Some(i);
            }
            i += 1;
        }
        let key: String = match found {
            Some(at) => {
                assert(keys.contains(keys[at as int]));
                self.routes.key_at(at).clone()
            },
            None => {
                assert forall|k: Seq<char>|
                    #![trigger before.routes[k]]
                    before.routes.contains_key(k) && confirmable(
                        before.routes[k],
                    ) implies before.routes[k].email_message_id != email_message_id@ by {
                    let j = keys.index_of(k);
                    assert(keys[j] == k);
                }
                match matrix_event_id {
                    Some(header) => {
                        if header.is_empty() {
                            assert(header@.len() == 0);
                            return None;
                        }
                        let by_event: bool = match self.routes.get(&header.to_owned()) {
                            Some(row) => is_confirmable(row),
                            None => false,
                        };
                        if !by_event {
                            return None;
                        }
                        assert(header@.len() > 0);
                        header.to_owned()
                    },
                    None => {
                        return None;
                    },
                }
            },
        };
        assert(confirms(before, key@, email_message_id@, opt_str_view(matrix_event_id)));
        match self.routes.remove(&key) {
            Some(row) => {
                let mut row = row;
                let previous: &'static str = match row.smtp_status {
                    Some(status) => status.text(),
                    None => "",
                };
                row.smtp_status = Some(SmtpStatus::ListConfirmed);
                row.list_confirmed_at = Some(now);
                row.delivery_notice_claimed_at = None;
                let matched = key.clone();
                self.routes.put(key, row);
                assert(self@ =~= with_route(before, key@, row@));
                Some(
                    ConfirmationMatch {
                        matrix_event_id: matched,
                        previous_status: previous.to_owned(),
                    },
                )
            },
            None => None,
        }
    }

    /// Claims one overdue delivery notice, the one that waits longest. A claim holds for the time
    /// of the lease, so that a second call, after a restart or by another instance, gets none.
    pub fn claim_unconfirmed_delivery(
        &mut self,
        timeout_secs: i64,
        lease_secs: i64,
        now: i64,
    ) -> (r: Option<DeliveryNotice>)
        ensures
            match r {
                Some(notice) => {
                    let id = notice.matrix_event_id@;
                    &&& earliest(
                        seq![id],
                        claim_ranks(old(self)@, timeout_secs, lease_secs, now),
                        1,
                    )
                    &&& old(self)@.routes[id].room_id == Some(notice.room_id@)
                    &&& final(self)@ == with_route(
                        old(self)@,
                        id,
                        claimed(old(self)@.routes[id], now),
                    )
                },
                None => {
                    &&& earliest(
                        Seq::<Seq<char>>::empty(),
                        claim_ranks(old(self)@, timeout_secs, lease_secs, now),
                        1,
                    )
                    &&& final(self)@ == old(self)@
                },
            },
    {
        let ghost before = self@;
        let n: usize = self.routes.len();
        let ghost keys = self.routes.keys();
        let ghost rank = claim_ranks(before, timeout_secs, lease_secs, now);
        let mut ranks: Vec<Option<i128>> = Vec::new();
        let mut i: usize = 0;
        while i < n
            invariant
                before == self@,
                keys == self.routes.keys(),
                n == keys.len(),
                i <= n,
                rank == claim_ranks(before, timeout_secs, lease_secs, now),
                ranks@.len() == i,
                forall|j: int| 0 <= j < i ==> rank_values(ranks@)[j] == rank(#[trigger] keys[j]),
            decreases n - i,
        {
            let row = self.routes.row_at(i);
            let ghost so_far = ranks@;
            if is_claimable(row, timeout_secs, lease_secs, now) {
                let since: i64 = match row.smtp_accepted_at {
                    Some(t) => t,
                    None => row.created_at,
                };
                ranks.push(Some(since as i128));
            } else {
                ranks.push(None);
            }
            assert(rank_values(ranks@) =~= rank_values(so_far).push(rank(keys[i as int])));
            i += 1;
        }
        let picked = pick_earliest(&ranks, 1);
        proof {
            lemma_earliest(keys, rank_values(ranks@), positions(picked@), rank, 1);
        }
        let ghost chosen = Seq::new(positions(picked@).len(), |p: int| keys[positions(picked@)[p]]);
        if picked.len() == 0 {
            assert(chosen =~= Seq::<Seq<char>>::empty());
            return None;
        }
        let key: String = self.routes.key_at(picked[0]).clone();
        assert(positions(picked@)[0] == picked@[0] as int);
        assert(chosen =~= seq![key@]);
        assert(rank(chosen[0]) is Some);
        match self.routes.remove(&key) {
            Some(row) => {
                let mut row = row;
                let room_id: String = match &row.room_id {
                    Some(room) => room.clone(),
                    None => String::new(),
                };
                row.smtp_status = Some(SmtpStatus::DeliveryUnconfirmed);
                if row.delivery_unconfirmed_at.is_none() {
                    row.delivery_unconfirmed_at = Some(now);
                }
                row.delivery_notice_claimed_at = Some(now);
                let matrix_event_id = key.clone();
                self.routes.put(key, row);
                assert(self@ =~= with_route(before, key@, row@));
                Some(DeliveryNotice { matrix_event_id, room_id })
            },
            None => None,
        }
    }

    fn finish_delivery_notice(&mut self, matrix_event_id: &str, sent_at: Option<i64>)
        ensures
            final(self)@ == on_route(
                old(self)@,
                matrix_event_id@,
                |r: RouteView| notice_finished(r, sent_at),
            ),
    {
        let ghost before = self@;
        let key = matrix_event_id.to_owned();
        match self.routes.remove(&key) {
            Some(row) => {
                let mut row = row;
                if status_is(&row, SmtpStatus::DeliveryUnconfirmed) {
                    if sent_at.is_some() {
                        row.delivery_notice_sent_at = sent_at;
                    }
                    row.delivery_notice_claimed_at = None;
                }
                self.routes.put(key, row);
                assert(self@ =~= with_route(before, key@, row@));
            },
            None => {
                assert(self@ =~= before);
            },
        }
    }

    /// Records that a claimed notice was sent, unless the mail was confirmed meanwhile.
    pub fn mark_delivery_notice_sent(&mut self, matrix_event_id: &str, now: i64)
        ensures
            final(self)@ == on_route(
                old(self)@,
                matrix_event_id@,
                |r: RouteView| notice_finished(r, Some(now)),
            ),
    {
        self.finish_delivery_notice(matrix_event_id, Some(now))
    }

    /// Whether a claimed notice is still to be sent.
    pub fn delivery_notice_is_active(&self, matrix_event_id: &str) -> (r: bool)
        ensures
            r == (self@.routes.contains_key(matrix_event_id@) && notice_active(
                self@.routes[matrix_event_id@],
            )),
    {
        match self.route(matrix_event_id) {
            Some(row) => status_is(row, SmtpStatus::DeliveryUnconfirmed)
                && row.delivery_notice_claimed_at.is_some()
                && row.delivery_notice_sent_at.is_none(),
            None => false,
        }
    }

    /// Gives a claimed notice back.
    pub fn release_delivery_notice(&mut self, matrix_event_id: &str)
        ensures
            final(self)@ == on_route(
                old(self)@,
                matrix_event_id@,
                |r: RouteView| notice_finished(r, None),
            ),
    {
        self.finish_delivery_notice(matrix_event_id, None)
    }

    /// Counts a failed attempt to send a mail and sets the time of the next.
    pub fn mark_route_failed(&mut self, matrix_event_id: &str, next_retry_at: i64)
        ensures
            final(self)@ == on_route(
                old(self)@,
                matrix_event_id@,
                |r: RouteView| failed(r, next_retry_at),
            ),
    {
        let ghost before = self@;
        let key = matrix_event_id.to_owned();
        match self.routes.remove(&key) {
            Some(row) => {
                let mut row = row;
                if status_is(&row, SmtpStatus::Pending) || status_is(&row, SmtpStatus::Failed) {
                    row.smtp_status = Some(SmtpStatus::Failed);
                    row.smtp_attempts = attempt_after(row.smtp_attempts);
                    row.smtp_next_retry_at = Some(next_retry_at);
                }
                self.routes.put(key, row);
                assert(self@ =~= with_route(before, key@, row@));
            },
            None => {
                assert(self@ =~= before);
            },
        }
    }

    /// At most `limit` mails that are due: those never tried first, then by the time of their next
    /// attempt. Mail tried ten times is left out. One of them without a payload is an error.
    pub fn get_failed_smtp_routes(&self, limit: usize, now: i64) -> (r: Result<
        Vec<SmtpRetryItem>,
        DbError,
    >)
        ensures
            match r {
                Ok(items) => {
                    &&& earliest(
                        Seq::new(items@.len(), |p: int| items@[p].matrix_event_id@),
                        smtp_ranks(self@, now),
                        limit as nat,
                    )
                    &&& forall|p: int|
                        0 <= p < items@.len() ==> {
                            let row = self@.routes[(#[trigger] items@[p]).matrix_event_id@];
                            &&& row.smtp_payload == Some(items@[p].smtp_payload@)
                            &&& row.smtp_attempts == items@[p].attempts
                        }
                },
                Err(e) => {
                    &&& e == DbError::MissingPayload
                    &&& exists|chosen: Seq<Seq<char>>|
                        {
                            &&& #[trigger] earliest(chosen, smtp_ranks(self@, now), limit as nat)
                            &&& exists|p: int|
                                0 <= p < chosen.len()
                                    && self@.routes[#[trigger] chosen[p]].smtp_payload is None
                        }
                },
            },
    {
        let n: usize = self.routes.len();
        let ghost keys = self.routes.keys();
        let ghost rank = smtp_ranks(self@, now);
        let mut ranks: Vec<Option<i128>> = Vec::new();
        let mut i: usize = 0;
        while i < n
            invariant
                keys == self.routes.keys(),
                n == keys.len(),
                i <= n,
                rank == smtp_ranks(self@, now),
                ranks@.len() == i,
                forall|j: int| 0 <= j < i ==> rank_values(ranks@)[j] == rank(#[trigger] keys[j]),
            decreases n - i,
        {
            let row = self.routes.row_at(i);
            let ghost so_far = ranks@;
            let mut entry: Option<i128> = None;
            if is_retriable(row) {
                match row.smtp_next_retry_at {
                    None => {
                        entry = Some(i64::MIN as i128 - 1);
                    },
                    Some(t) => {
                        if t <= now {
                            entry = Some(t as i128);
                        }
                    },
                }
            }
            ranks.push(entry);
            assert(rank_values(ranks@) =~= rank_values(so_far).push(rank(keys[i as int])));
            i += 1;
        }
        let picked = pick_earliest(&ranks, limit);
        proof {
            lemma_earliest(keys, rank_values(ranks@), positions(picked@), rank, limit as nat);
        }
        let ghost chosen = Seq::new(positions(picked@).len(), |p: int| keys[positions(picked@)[p]]);
        let mut out: Vec<SmtpRetryItem> = Vec::new();
        let mut p: usize = 0;
        while p < picked.len()
            invariant
                keys == self.routes.keys(),
                n == keys.len(),
                p <= picked@.len(),
                out@.len() == p,
                forall|q: int| 0 <= q < picked@.len() ==> #[trigger] picked@[q] < n,
                chosen == Seq::new(
                    positions(picked@).len(),
                    |p: int| keys[positions(picked@)[p]],
                ),
                earliest(chosen, smtp_ranks(self@, now), limit as nat),
                forall|q: int|
                    0 <= q < p ==> {
                        let row = self@.routes[(#[trigger] out@[q]).matrix_event_id@];
                        &&& out@[q].matrix_event_id@ == keys[picked@[q] as int]
                        &&& row.smtp_payload == Some(out@[q].smtp_payload@)
                        &&& row.smtp_attempts == out@[q].attempts
                    },
            decreases picked@.len() - p,
        {
            let at: usize = picked[p];
            let row = self.routes.row_at(at);
            match &row.smtp_payload {
                Some(payload) => {
                    out.push(
                        SmtpRetryItem {
                            matrix_event_id: self.routes.key_at(at).clone(),
                            smtp_payload: payload.clone(),
                            attempts: row.smtp_attempts,
                        },
                    );
                },
                None => {
                    assert(chosen[p as int] == keys[at as int]);
                    return Err(DbError::MissingPayload);
                },
            }
            p += 1;
        }
        proof {
            let listed = Seq::new(out@.len(), |p: int| out@[p].matrix_event_id@);
            assert(listed =~= chosen);
        }
        Ok(out)
    }

    /// The earliest time at which a mail is to be sent, where a mail never tried counts as due at
    /// time 0. Mail tried ten times is left out.
    pub fn get_next_smtp_retry_at(&self) -> (r: Option<i64>)
        ensures
            match r {
                Some(t) => {
                    &&& exists|id: Seq<char>|
                        {
                            &&& #[trigger] self@.routes.contains_key(id)
                            &&& retriable(self@.routes[id])
                            &&& retry_time(self@.routes[id]) == t
                        }
                    &&& forall|id: Seq<char>|
                        #[trigger] self@.routes.contains_key(id) && retriable(self@.routes[id])
                            ==> t <= retry_time(self@.routes[id])
                },
                None => forall|id: Seq<char>|
                    #[trigger] self@.routes.contains_key(id) ==> !retriable(self@.routes[id]),
            },
    {
        let n: usize = self.routes.len();
        let ghost keys = self.routes.keys();
        let mut least: Option<i64> = None;
        let mut i: usize = 0;
        while i < n
            invariant
                keys == self.routes.keys(),
                n == keys.len(),
                i <= n,
                match least {
                    Some(t) => {
                        &&& exists|j: int|
                            0 <= j < i && self@.routes.contains_key(#[trigger] keys[j])
                                && retriable(self@.routes[keys[j]]) && retry_time(
                                self@.routes[keys[j]],
                            ) == t
                        &&& forall|j: int|
                            0 <= j < i && retriable(self@.routes[#[trigger] keys[j]]) ==> t
                                <= retry_time(self@.routes[keys[j]])
                    },
                    None => forall|j: int|
                        0 <= j < i ==> !retriable(self@.routes[#[trigger] keys[j]]),
                },
            decreases n - i,
        {
            let row = self.routes.row_at(i);
            if is_retriable(row) {
                let at: i64 = row.smtp_next_retry_at.unwrap_or(0);
                assert(self@.routes.contains_key(keys[i as int]));
                let better: bool = match least {
                    Some(t) => at < t,
                    None => true,
                };
                if better {
                    least = Some(at);
                }
            }
            i += 1;
        }
        proof {
            assert forall|id: Seq<char>| #[trigger]
                self@.routes.contains_key(id) implies exists|j: int|
                0 <= j < n && #[trigger] keys[j] == id by {
                assert(keys.contains(id));
            }
        }
        least
    }

    /// Whether the bridge itself sent the mail with this Message-ID and the mail server took it.
    pub fn is_bridge_sent_email(&self, email_message_id: &str) -> (r: bool)
        ensures
            r == is_own(self@, email_message_id@),
    {
        let n: usize = self.routes.len();
        let ghost keys = self.routes.keys();
        let mut i: usize = 0;
        while i < n
            invariant
                keys == self.routes.keys(),
                n == keys.len(),
                i <= n,
                forall|j: int|
                    0 <= j < i ==> !bridge_sent(
                        self@.routes[#[trigger] keys[j]],
                        email_message_id@,
                    ),
            decreases n - i,
        {
            let row = self.routes.row_at(i);
            if same_text(row.email_message_id.as_str(), email_message_id) && same_text(
                row.origin.as_str(),
                "matrix",
            ) && (status_is(row, SmtpStatus::Sent) || status_is(row, SmtpStatus::SmtpAccepted)
                || status_is(row, SmtpStatus::ListConfirmed) || status_is(
                row,
                SmtpStatus::DeliveryUnconfirmed,
            )) {
                assert(self@.routes.contains_key(keys[i as int]));
                return true;
            }
            i += 1;
        }
        proof {
            assert forall|id: Seq<char>| #[trigger]
                self@.routes.contains_key(id) implies !bridge_sent(
                self@.routes[id],
                email_message_id@,
            ) by {
                let j = keys.index_of(id);
                assert(keys.contains(id));
                assert(keys[j] == id);
            }
        }
        false
    }

    /// Forgets thread mappings older than the given number of seconds and counts them.
    pub fn cleanup_old_threads(&mut self, older_than_secs: i64, now: i64) -> (deleted: usize)
        ensures
            final(self)@ == (DbView {
                threads: young_threads(old(self)@.threads, older_than_secs, now),
                ..old(self)@
            }),
            final(self)@.threads.dom().finite(),
            deleted == old(self)@.threads.dom().len() - final(self)@.threads.dom().len(),
    {
        let ghost before = self@;
        let cutoff: i128 = now as i128 - older_than_secs as i128;
        let total: usize = self.threads.len();
        let mut deleted: usize = 0;
        let mut i: usize = 0;
        while i < total - deleted
            invariant
                cutoff == now - older_than_secs,
                i <= total - deleted,
                deleted <= total,
                self.threads.keys().len() == total - deleted,
                self@ == (DbView { threads: self.threads@, ..before }),
                forall|k: Seq<char>| #[trigger]
                    self.threads@.contains_key(k) ==> before.threads.contains_key(k)
                        && self.threads@[k] == before.threads[k],
                forall|k: Seq<char>|
                    before.threads.contains_key(k) && !#[trigger] self.threads@.contains_key(k)
                        ==> before.threads[k].created_at < cutoff,
                forall|j: int|
                    0 <= j < i ==> self.threads@.contains_key(#[trigger] self.threads.keys()[j])
                        && self.threads@[self.threads.keys()[j]].created_at >= cutoff,
            decreases total - deleted - i,
        {
            let row = self.threads.row_at(i);
            if (row.created_at as i128) < cutoff {
                let _ = self.threads.remove_at(i);
                deleted += 1;
            } else {
                i += 1;
            }
        }
        let left: usize = self.threads.len();
        proof {
            assert forall|k: Seq<char>| #[trigger] self.threads@.contains_key(k) implies
                before.threads[k].created_at >= cutoff by {
                let j = self.threads.keys().index_of(k);
                assert(self.threads.keys().contains(k));
                assert(self.threads.keys()[j] == k);
            }
            assert(self.threads@ =~= young_threads(before.threads, older_than_secs, now));
        }
        deleted
    }
}

} // verus!
