//! The decisions of the bridge's background tasks: what becomes of incoming mail, of postings and
//! mails that failed, and how long to wait.
use crate::config::{MailingListConfig, SmtpConfig};
use crate::db::Db;
use crate::email::{is_mailing_list_email, reconstruct_thread, ParsedEmail};
#[allow(unused_imports)]
use crate::email::{candidates_of, is_list_mail, root_among, threaded, EmailView};
#[allow(unused_imports)]
use crate::records::{
    accepted, failed, is_own, on_route, retriable, smtp_due, with_failed_posting, without_queued,
    DbView, RouteView,
};
use crate::text::{ends_with, same_text};
#[allow(unused_imports)]
use vstd::arithmetic::power2::{lemma2_to64, lemma_pow2_strictly_increases, pow2};
use vstd::prelude::*;

verus! {

/// What becomes of a mail that came in.
#[derive(Clone, Copy, Debug, PartialEq, Eq, Structural)]
pub enum Incoming {
    /// The bridge's own mail, by the mark in its header.
    OwnByMark,
    /// The bridge's own mail, by the records.
    OwnByRecord,
    /// Not mail of the list.
    NotListMail,
    /// To be posted.
    Post,
}

/// What becomes of a mail, given whether the records know it as sent by the bridge. Where the
/// records could not be asked, the mail goes on, so that nothing is lost.
pub open spec fn incoming(
    email: EmailView,
    own_by_record: Option<bool>,
    config: MailingListConfig,
) -> Incoming {
    if email.bridge_origin == Some("matrix"@) {
        Incoming::OwnByMark
    } else if own_by_record == Some(true) {
        Incoming::OwnByRecord
    } else if !is_list_mail(email, config) {
        Incoming::NotListMail
    } else {
        Incoming::Post
    }
}

/// Decides what becomes of a mail that came in.
pub fn classify_incoming(
    email: &ParsedEmail,
    own_by_record: Option<bool>,
    config: &MailingListConfig,
) -> (r: Incoming)
    ensures
        r == incoming(email@, own_by_record, *config),
{
    let marked: bool = match &email.bridge_origin {
        Some(origin) => same_text(origin.as_str(), "matrix"),
        None => false,
    };
    if marked {
        return Incoming::OwnByMark;
    }
    let recorded: bool = match own_by_record {
        Some(own) => own,
        None => false,
    };
    if recorded {
        return Incoming::OwnByRecord;
    }
    if !is_mailing_list_email(email, config) {
        return Incoming::NotListMail;
    }
    Incoming::Post
}

/// What becomes of a mail that came in, with what is needed for it.
#[derive(Debug)]
pub enum Intake {
    /// The bridge's own mail came back from the list, under this Message-ID.
    Own(String),
    /// The mail is not the list's and is left alone.
    NotListMail,
    /// The mail is to be posted; its thread has been looked up.
    Post(ParsedEmail),
}

pub ghost enum IntakeView {
    Own(Seq<char>),
    NotListMail,
    Post(EmailView),
}

impl View for Intake {
    type V = IntakeView;

    open spec fn view(&self) -> IntakeView {
        match *self {
            Intake::Own(id) => IntakeView::Own(id@),
            Intake::NotListMail => IntakeView::NotListMail,
            Intake::Post(email) => IntakeView::Post(email@),
        }
    }
}

/// What becomes of a mail that came in, with what is needed for it.
pub open spec fn intake_of(
    email: EmailView,
    own_by_record: Option<bool>,
    db: DbView,
    config: MailingListConfig,
) -> IntakeView {
    match incoming(email, own_by_record, config) {
        Incoming::OwnByMark | Incoming::OwnByRecord => IntakeView::Own(email.message_id),
        Incoming::NotListMail => IntakeView::NotListMail,
        Incoming::Post => IntakeView::Post(threaded(email, db)),
    }
}

/// Takes in a mail: tells whether it is the bridge's own or not the list's, and finds the thread of
/// one that is to be posted.
pub fn take_in(
    email: ParsedEmail,
    own_by_record: Option<bool>,
    db: &Db,
    config: &MailingListConfig,
) -> (r: Intake)
    ensures
        r@ == intake_of(email@, own_by_record, db@, *config),
        match incoming(email@, own_by_record, *config) {
            Incoming::OwnByMark | Incoming::OwnByRecord => r is Own && r->Own_0@
                == email@.message_id,
            Incoming::NotListMail => r is NotListMail,
            Incoming::Post => r is Post && r->Post_0@ == (EmailView {
                thread_root: root_among(candidates_of(email@), db@),
                ..email@
            }),
        },
{
    let mut email = email;
    match classify_incoming(&email, own_by_record, config) {
        Incoming::OwnByMark => Intake::Own(email.message_id),
        Incoming::OwnByRecord => Intake::Own(email.message_id),
        Incoming::NotListMail => Intake::NotListMail,
        Incoming::Post => {
            reconstruct_thread(&mut email, db);
            Intake::Post(email)
        },
    }
}

/// A mail that the bridge sent and that comes back under its Message-ID is not posted, even if the
/// list took the mark out of its header.
pub proof fn law_sent_mail_is_not_posted_back(
    db: DbView,
    id: Seq<char>,
    at: i64,
    email: EmailView,
    config: MailingListConfig,
)
    requires
        db.routes.contains_key(id),
        retriable(db.routes[id]),
        email.message_id == db.routes[id].email_message_id,
    ensures
        is_own(on_route(db, id, |r: RouteView| accepted(r, at)), email.message_id),
        incoming(
            email,
            Some(is_own(on_route(db, id, |r: RouteView| accepted(r, at)), email.message_id)),
            config,
        ) != Incoming::Post,
{
    let after = on_route(db, id, |r: RouteView| accepted(r, at));
    assert(after.routes.contains_key(id));
}

/// Mail that the bridge sent itself is never posted back, whether its mark survived or the records
/// know it; and mail that is not the list's is never posted.
pub proof fn law_no_echo(email: EmailView, own_by_record: Option<bool>, config: MailingListConfig)
    ensures
        email.bridge_origin == Some("matrix"@) ==> incoming(email, own_by_record, config)
            != Incoming::Post,
        own_by_record == Some(true) ==> incoming(email, own_by_record, config) != Incoming::Post,
        !is_list_mail(email, config) ==> incoming(email, own_by_record, config) != Incoming::Post,
{
}

/// The seconds to wait after a failed attempt: a minute, doubled for each attempt before, up to an
/// hour.
pub open spec fn backoff(attempts: i64) -> int {
    if 0 <= attempts < 6 {
        60 * pow2(attempts as nat) as int
    } else {
        3600
    }
}

/// The seconds to wait after a failed attempt.
pub fn backoff_secs(attempts: i64) -> (r: i64)
    ensures
        r == backoff(attempts),
{
    proof {
        lemma2_to64();
    }
    if attempts == 0 {
        60
    } else if attempts == 1 {
        120
    } else if attempts == 2 {
        240
    } else if attempts == 3 {
        480
    } else if attempts == 4 {
        960
    } else if attempts == 5 {
        1920
    } else {
        3600
    }
}

/// The wait is at least a minute and at most an hour, and grows with the attempts.
pub proof fn law_backoff_is_bounded(a: i64, b: i64)
    requires
        0 <= a <= b,
    ensures
        60 <= backoff(a) <= 3600,
        backoff(a) <= backoff(b),
        backoff(a) == (if 60 * pow2(a as nat) < 3600 {
            60 * pow2(a as nat) as int
        } else {
            3600
        }),
{
    lemma2_to64();
    if a > 6 {
        lemma_pow2_strictly_increases(6, a as nat);
    }
}

/// What becomes of a posting whose time has come.
#[derive(Clone, Copy, Debug, PartialEq, Eq, Structural)]
pub enum RetryAction {
    /// It cannot be read: it is taken out of the queue.
    Discard,
    /// It was tried too often: it is taken out of the queue.
    GiveUp,
    /// It is posted again.
    Post,
}

/// What becomes of a posting whose time has come.
pub open spec fn retry_action(readable: bool, attempts: i64) -> RetryAction {
    if !readable {
        RetryAction::Discard
    } else if attempts >= 10 {
        RetryAction::GiveUp
    } else {
        RetryAction::Post
    }
}

/// Decides what becomes of a posting whose time has come.
pub fn decide_retry(readable: bool, attempts: i64) -> (r: RetryAction)
    ensures
        r == retry_action(readable, attempts),
        r == (if !readable {
            RetryAction::Discard
        } else if attempts >= 10 {
            RetryAction::GiveUp
        } else {
            RetryAction::Post
        }),
{
    if !readable {
        RetryAction::Discard
    } else if attempts >= 10 {
        RetryAction::GiveUp
    } else {
        RetryAction::Post
    }
}

/// The queue after a posting was tried again: without it if it succeeded, with a later time if not.
pub open spec fn after_repost(
    db: DbView,
    id: i64,
    attempts: i64,
    posted: bool,
    now: i64,
) -> DbView {
    if posted {
        without_queued(db, id)
    } else {
        with_failed_posting(db, id, (now + backoff(attempts)) as i64)
    }
}

/// Records how a posting that was tried again ended.
pub fn record_repost(db: &mut Db, id: i64, attempts: i64, posted: bool, now: i64)
    requires
        now <= i64::MAX - 3600,
    ensures
        final(db)@ == after_repost(old(db)@, id, attempts, posted, now),
{
    proof {
        lemma2_to64();
    }
    if posted {
        db.ack_retry(id);
    } else {
        let wait: i64 = backoff_secs(attempts);
        db.fail_retry(id, now + wait);
    }
}

/// How an attempt to send a mail again ended.
#[derive(Clone, Copy, Debug, PartialEq, Eq, Structural)]
pub enum SmtpAttempt {
    Sent,
    Failed,
    /// The stored mail cannot be read.
    Corrupt,
}

/// The route of a mail after an attempt to send it again. A mail that cannot be read is parked at
/// the end of time, so that it does not block the queue.
pub open spec fn after_attempt(
    r: RouteView,
    attempts: i64,
    outcome: SmtpAttempt,
    now: i64,
) -> RouteView {
    match outcome {
        SmtpAttempt::Sent => accepted(r, now),
        SmtpAttempt::Failed => failed(r, (now + backoff(attempts)) as i64),
        SmtpAttempt::Corrupt => failed(r, i64::MAX),
    }
}

/// Records how an attempt to send a mail again ended.
pub fn record_smtp_attempt(
    db: &mut Db,
    matrix_event_id: &str,
    attempts: i64,
    outcome: SmtpAttempt,
    now: i64,
)
    requires
        now <= i64::MAX - 3600,
    ensures
        final(db)@ == on_route(
            old(db)@,
            matrix_event_id@,
            |r: RouteView| after_attempt(r, attempts, outcome, now),
        ),
{
    proof {
        lemma2_to64();
    }
    let ghost before = db@;
    match outcome {
        SmtpAttempt::Sent => {
            db.mark_route_smtp_accepted(matrix_event_id, now);
        },
        SmtpAttempt::Failed => {
            let wait: i64 = backoff_secs(attempts);
            db.mark_route_failed(matrix_event_id, now + wait);
        },
        SmtpAttempt::Corrupt => {
            db.mark_route_failed(matrix_event_id, i64::MAX);
        },
    }
    assert(db@ == on_route(
        before,
        matrix_event_id@,
        |r: RouteView| after_attempt(r, attempts, outcome, now),
    ));
}

/// After an attempt a mail is not due at once again: it was sent, waits for at least a minute, or is
/// parked.
pub proof fn law_attempt_defers_mail(
    r: RouteView,
    attempts: i64,
    outcome: SmtpAttempt,
    now: i64,
    later: i64,
)
    requires
        retriable(r),
        0 <= attempts,
        now <= i64::MAX - 3600,
        later < now + 60,
        later < i64::MAX,
    ensures
        !smtp_due(after_attempt(r, attempts, outcome, now), later),
{
    law_backoff_is_bounded(attempts, attempts);
}

/// The answer to the question when the next mail is to be sent.
#[derive(Clone, Copy, Debug, PartialEq, Eq, Structural)]
pub enum NextRetry {
    Nothing,
    At(i64),
    /// The records could not be asked.
    Unknown,
}

/// The seconds until the next look at the mails to send: until the next is due, but at least one and
/// at most five minutes.
pub open spec fn sleep_secs(next: NextRetry, now: i64) -> int {
    match next {
        NextRetry::At(t) => if t - now < 1 {
            1
        } else if t - now > 300 {
            300
        } else {
            t - now
        },
        _ => 300,
    }
}

/// The seconds until the next look at the mails to send.
pub fn smtp_sleep_secs(next: NextRetry, now: i64) -> (r: u64)
    ensures
        r == sleep_secs(next, now),
{
    match next {
        NextRetry::At(t) => {
            let left: i128 = t as i128 - now as i128;
            if left < 1 {
                1
            } else if left > 300 {
                300
            } else {
                left as u64
            }
        },
        _ => 300,
    }
}

/// Seconds to wait where the mails to send could not be fetched.
pub const QUEUE_ERROR_DELAY: u64 = 30;

/// Seconds between two looks at the postings to repeat.
pub const RETRY_INTERVAL: u64 = 300;

/// How many postings, or mails, are taken up at a time.
pub const BATCH: usize = 10;

/// Seconds between two clean-ups of thread mappings.
pub const CLEANUP_INTERVAL: u64 = 86400;

/// The age in seconds beyond which thread mappings are forgotten: ninety days.
pub const THREAD_MAX_AGE: i64 = 7776000;

/// Seconds for which a claimed delivery notice belongs to its claimant.
pub const NOTICE_LEASE: i64 = 300;

/// The seconds after which a room is told that the list's copy did not come back.
pub open spec fn timeout_of(config: SmtpConfig) -> Option<i64> {
    match config.list_confirmation_timeout_secs {
        Some(secs) => Some(
            if secs <= i64::MAX {
                secs as i64
            } else {
                i64::MAX
            },
        ),
        None => None,
    }
}

/// The seconds after which a room is told that the list's copy did not come back; `None` where no
/// one is to be told.
pub fn confirmation_timeout(config: &SmtpConfig) -> (r: Option<i64>)
    ensures
        r == timeout_of(*config),
        match config.list_confirmation_timeout_secs {
            Some(secs) => r == Some(
                if secs <= i64::MAX {
                    secs as i64
                } else {
                    i64::MAX
                },
            ),
            None => r is None,
        },
{
    match config.list_confirmation_timeout_secs {
        Some(secs) => {
            if secs <= i64::MAX as u64 {
                Some(secs as i64)
            } else {
                Some(i64::MAX)
            }
        },
        None => None,
    }
}

/// Whether Matrix messages become mail.
#[derive(Clone, Copy, Debug, PartialEq, Eq, Structural)]
pub enum SmtpMode {
    Enabled,
    /// The mail server is configured, but its password is not set.
    PasswordMissing,
    NotConfigured,
}

/// Whether Matrix messages become mail.
pub open spec fn mode_of(configured: bool, password_set: bool) -> SmtpMode {
    if !configured {
        SmtpMode::NotConfigured
    } else if password_set {
        SmtpMode::Enabled
    } else {
        SmtpMode::PasswordMissing
    }
}

/// Tells whether Matrix messages become mail.
pub fn smtp_mode(configured: bool, password_set: bool) -> (r: SmtpMode)
    ensures
        r == mode_of(configured, password_set),
        r == (if !configured {
            SmtpMode::NotConfigured
        } else if password_set {
            SmtpMode::Enabled
        } else {
            SmtpMode::PasswordMissing
        }),
{
    if !configured {
        SmtpMode::NotConfigured
    } else if password_set {
        SmtpMode::Enabled
    } else {
        SmtpMode::PasswordMissing
    }
}

/// The configuration file named on the command line.
pub open spec fn named_config(args: Seq<String>) -> Seq<char>
    decreases args.len(),
{
    if args.len() == 0 {
        "config.toml"@
    } else if ".toml"@.is_suffix_of(args.first()@) {
        args.first()@
    } else {
        named_config(args.drop_first())
    }
}

/// The path of the configuration file: the first argument that ends in `.toml`, or `config.toml`.
pub fn config_path(args: &Vec<String>) -> (r: String)
    ensures
        r@ == named_config(args@),
{
    let mut i: usize = 0;
    assert(args@.skip(0) =~= args@);
    while i < args.len()
        invariant
            i <= args@.len(),
            named_config(args@) == named_config(args@.skip(i as int)),
        decreases args@.len() - i,
    {
        assert(args@.skip(i as int).first() == args@[i as int]);
        assert(args@.skip(i as int).drop_first() =~= args@.skip(i + 1));
        if ends_with(args[i].as_str(), ".toml") {
            return args[i].clone();
        }
        i += 1;
    }
    assert(args@.skip(i as int).len() == 0);
    "config.toml".to_owned()
}

} // verus!
