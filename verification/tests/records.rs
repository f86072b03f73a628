use email_bot::db::Db;
use email_bot::records::{is_known_status, DbError, RetryRow, RouteRow, SmtpStatus};

const NOW: i64 = 1_800_000_000;

fn accepted_route(db: &mut Db, event_id: &str, message_id: &str) {
    db.store_matrix_reply_pending(
        event_id,
        "!room:example.org",
        message_id,
        Some(message_id),
        Some("subject"),
        "{}",
        NOW,
    );
    db.mark_route_smtp_accepted(event_id, NOW);
}

fn make_overdue(db: &mut Db, event_id: &str) {
    let mut row = db.route(event_id).unwrap().clone();
    row.smtp_accepted_at = Some(NOW - 7200);
    db.put_route(event_id, row);
}

fn route_state(db: &Db, event_id: &str) -> (String, i64, String) {
    let row = db.route(event_id).unwrap();
    (
        row.smtp_status.unwrap().text().to_owned(),
        row.smtp_attempts,
        row.email_message_id.clone(),
    )
}

#[test]
fn list_copy_received_before_timeout() {
    let mut db = Db::new();
    accepted_route(&mut db, "$event", "message@example.org");

    let matched = db.confirm_list_delivery("message@example.org", None, NOW).unwrap();
    assert_eq!(matched.matrix_event_id, "$event");
    assert_eq!(matched.previous_status, "smtp_accepted");
    assert!(db.claim_unconfirmed_delivery(3600, 300, NOW).is_none());
}

#[test]
fn delayed_list_copy_received_before_notice_claim() {
    let mut db = Db::new();
    accepted_route(&mut db, "$event", "message@example.org");
    make_overdue(&mut db, "$event");

    db.confirm_list_delivery("message@example.org", None, NOW);
    assert!(db.claim_unconfirmed_delivery(3600, 300, NOW).is_none());
}

#[test]
fn fast_list_copy_is_not_overwritten_by_smtp_acceptance_update() {
    let mut db = Db::new();
    db.store_matrix_reply_pending(
        "$event",
        "!room:example.org",
        "message@example.org",
        None,
        Some("subject"),
        "{}",
        NOW,
    );

    db.confirm_list_delivery("message@example.org", Some("$event"), NOW);
    db.mark_route_smtp_accepted("$event", NOW);

    assert_eq!(route_state(&db, "$event").0, "list_confirmed");
}

#[test]
fn list_copy_after_claim_suppresses_notice() {
    let mut db = Db::new();
    accepted_route(&mut db, "$event", "message@example.org");
    make_overdue(&mut db, "$event");

    assert!(db.claim_unconfirmed_delivery(3600, 300, NOW).is_some());
    db.confirm_list_delivery("message@example.org", None, NOW);
    assert!(!db.delivery_notice_is_active("$event"));
}

#[test]
fn duplicate_scheduler_execution_claims_once() {
    let mut db = Db::new();
    accepted_route(&mut db, "$event", "message@example.org");
    make_overdue(&mut db, "$event");

    assert!(db.claim_unconfirmed_delivery(3600, 300, NOW).is_some());
    assert!(db.claim_unconfirmed_delivery(3600, 300, NOW).is_none());
    db.mark_delivery_notice_sent("$event", NOW);
    assert!(db.claim_unconfirmed_delivery(3600, 300, NOW).is_none());
}

#[test]
fn waiting_period_survives_restart() {
    let mut db = Db::new();
    accepted_route(&mut db, "$event", "message@example.org");
    make_overdue(&mut db, "$event");
    let stored = db.route("$event").unwrap().clone();
    drop(db);

    let mut reopened = Db::new();
    reopened.put_route("$event", stored);
    assert!(reopened.claim_unconfirmed_delivery(3600, 300, NOW).is_some());
}

#[test]
fn rewritten_message_id_uses_matrix_event_header() {
    let mut db = Db::new();
    accepted_route(&mut db, "$event", "original@example.org");

    let matched = db.confirm_list_delivery("rewritten@list.example", Some("$event"), NOW).unwrap();
    assert_eq!(matched.matrix_event_id, "$event");
    assert_eq!(route_state(&db, "$event").0, "list_confirmed");
}

#[test]
fn stripped_custom_header_falls_back_to_message_id() {
    let mut db = Db::new();
    accepted_route(&mut db, "$event", "original@example.org");

    assert!(db.confirm_list_delivery("original@example.org", None, NOW).is_some());
}

#[test]
fn no_correlation_marks_unconfirmed_without_resending() {
    let mut db = Db::new();
    accepted_route(&mut db, "$event", "original@example.org");
    make_overdue(&mut db, "$event");

    assert!(db.confirm_list_delivery("rewritten@list.example", None, NOW).is_none());
    assert!(db.claim_unconfirmed_delivery(3600, 300, NOW).is_some());
    assert_eq!(
        route_state(&db, "$event"),
        ("delivery_unconfirmed".to_owned(), 0, "original@example.org".to_owned())
    );
    assert!(db.get_failed_smtp_routes(10, i64::MAX).unwrap().is_empty());
}

#[test]
fn message_id_wins_over_event_header() {
    let mut db = Db::new();
    accepted_route(&mut db, "$one", "one@example.org");
    accepted_route(&mut db, "$two", "two@example.org");

    let matched = db.confirm_list_delivery("two@example.org", Some("$one"), NOW).unwrap();
    assert_eq!(matched.matrix_event_id, "$two");
    assert_eq!(route_state(&db, "$one").0, "smtp_accepted");
    let matched = db.confirm_list_delivery("two@example.org", Some("$one"), NOW).unwrap();
    assert_eq!(matched.matrix_event_id, "$one");
}

#[test]
fn empty_event_header_is_no_header() {
    let mut db = Db::new();
    accepted_route(&mut db, "", "one@example.org");
    assert!(db.confirm_list_delivery("other", Some(""), NOW).is_none());
}

#[test]
fn confirmation_is_recorded_once() {
    let mut db = Db::new();
    accepted_route(&mut db, "$event", "m");
    assert!(db.confirm_list_delivery("m", None, NOW + 5).is_some());
    assert_eq!(db.route("$event").unwrap().list_confirmed_at, Some(NOW + 5));
    assert!(db.confirm_list_delivery("m", None, NOW + 6).is_none());
}

#[test]
fn failed_mail_is_not_confirmed() {
    let mut db = Db::new();
    db.store_matrix_reply_pending("$e", "!r:x", "m", None, None, "{}", NOW);
    db.mark_route_failed("$e", NOW + 60);
    assert!(db.confirm_list_delivery("m", Some("$e"), NOW).is_none());
    assert_eq!(route_state(&db, "$e"), ("failed".to_owned(), 1, "m".to_owned()));
}

#[test]
fn longest_waiting_notice_is_claimed_first() {
    let mut db = Db::new();
    for (event, at) in [("$a", NOW - 5000), ("$b", NOW - 9000), ("$c", NOW - 7000)] {
        accepted_route(&mut db, event, event);
        let mut row = db.route(event).unwrap().clone();
        row.smtp_accepted_at = Some(at);
        db.put_route(event, row);
    }
    let mut order = vec![];
    while let Some(notice) = db.claim_unconfirmed_delivery(3600, 300, NOW) {
        assert_eq!(notice.room_id, "!room:example.org");
        order.push(notice.matrix_event_id);
    }
    assert_eq!(order, vec!["$b".to_owned(), "$c".to_owned(), "$a".to_owned()]);
}

#[test]
fn released_or_expired_claims_are_offered_again() {
    let mut db = Db::new();
    accepted_route(&mut db, "$event", "m");
    make_overdue(&mut db, "$event");
    assert!(db.claim_unconfirmed_delivery(3600, 300, NOW).is_some());
    assert!(db.delivery_notice_is_active("$event"));
    db.release_delivery_notice("$event");
    assert!(!db.delivery_notice_is_active("$event"));
    assert!(db.claim_unconfirmed_delivery(3600, 300, NOW).is_some());
    assert!(db.claim_unconfirmed_delivery(3600, 300, NOW + 299).is_none());
    assert!(db.claim_unconfirmed_delivery(3600, 300, NOW + 300).is_some());
    assert_eq!(db.route("$event").unwrap().delivery_unconfirmed_at, Some(NOW));
}

#[test]
fn notice_needs_a_timeout_that_is_over() {
    let mut db = Db::new();
    accepted_route(&mut db, "$event", "m");
    assert!(db.claim_unconfirmed_delivery(3600, 300, NOW + 3599).is_none());
    assert!(db.claim_unconfirmed_delivery(3600, 300, NOW + 3600).is_some());
}

#[test]
fn duplicate_pending_event_is_harmless() {
    let mut db = Db::new();
    db.store_matrix_reply_pending("$e", "!r:x", "first", None, None, "one", NOW);
    db.store_matrix_reply_pending("$e", "!r:x", "second", None, None, "two", NOW + 1);
    let row = db.route("$e").unwrap();
    assert_eq!(row.email_message_id, "first");
    assert_eq!(row.smtp_payload.as_deref(), Some("one"));
    assert_eq!(row.created_at, NOW);
}

#[test]
fn due_mail_comes_in_order_and_in_number() {
    let mut db = Db::new();
    for event in ["$late", "$early", "$never", "$future"] {
        db.store_matrix_reply_pending(event, "!r:x", event, None, None, event, NOW);
    }
    db.mark_route_failed("$late", NOW + 20);
    db.mark_route_failed("$early", NOW + 10);
    db.mark_route_failed("$future", NOW + 1000);
    let due = db.get_failed_smtp_routes(10, NOW + 20).unwrap();
    let ids: Vec<&str> = due.iter().map(|i| i.matrix_event_id.as_str()).collect();
    assert_eq!(ids, vec!["$never", "$early", "$late"]);
    assert_eq!(due[0].attempts, 0);
    assert_eq!(due[1].attempts, 1);
    assert_eq!(due[1].smtp_payload, "$early");
    let due = db.get_failed_smtp_routes(2, NOW + 20).unwrap();
    let ids: Vec<&str> = due.iter().map(|i| i.matrix_event_id.as_str()).collect();
    assert_eq!(ids, vec!["$never", "$early"]);
    assert!(db.get_failed_smtp_routes(0, NOW + 20).unwrap().is_empty());
    assert_eq!(db.get_next_smtp_retry_at(), Some(0));
}

#[test]
fn next_retry_time_is_the_earliest() {
    let mut db = Db::new();
    assert_eq!(db.get_next_smtp_retry_at(), None);
    db.store_matrix_reply_pending("$a", "!r:x", "a", None, None, "{}", NOW);
    db.store_matrix_reply_pending("$b", "!r:x", "b", None, None, "{}", NOW);
    db.mark_route_failed("$a", NOW + 20);
    db.mark_route_failed("$b", NOW + 10);
    assert_eq!(db.get_next_smtp_retry_at(), Some(NOW + 10));
    db.mark_route_smtp_accepted("$b", NOW);
    assert_eq!(db.get_next_smtp_retry_at(), Some(NOW + 20));
}

#[test]
fn ten_failures_are_enough() {
    let mut db = Db::new();
    db.store_matrix_reply_pending("$e", "!r:x", "m", None, None, "{}", NOW);
    for _ in 0..9 {
        db.mark_route_failed("$e", NOW);
    }
    assert_eq!(db.get_failed_smtp_routes(10, NOW).unwrap().len(), 1);
    db.mark_route_failed("$e", NOW);
    assert!(db.get_failed_smtp_routes(10, NOW).unwrap().is_empty());
    assert_eq!(db.get_next_smtp_retry_at(), None);
}

#[test]
fn due_mail_without_payload_is_an_error() {
    let mut db = Db::new();
    db.store_matrix_reply_pending("$e", "!r:x", "m", None, None, "{}", NOW);
    let mut row = db.route("$e").unwrap().clone();
    row.smtp_payload = None;
    db.put_route("$e", row);
    assert!(matches!(db.get_failed_smtp_routes(10, NOW), Err(DbError::MissingPayload)));
}

#[test]
fn own_mail_is_known_once_it_was_accepted() {
    let mut db = Db::new();
    db.store_matrix_reply_pending("$e", "!r:x", "m", None, None, "{}", NOW);
    assert!(!db.is_bridge_sent_email("m"));
    db.mark_route_smtp_accepted("$e", NOW);
    assert!(db.is_bridge_sent_email("m"));
    assert!(!db.is_bridge_sent_email("n"));
    db.confirm_list_delivery("m", None, NOW);
    assert!(db.is_bridge_sent_email("m"));
    db.store_route("$f", "mail", None, None, "email", NOW);
    assert!(!db.is_bridge_sent_email("mail"));
}

#[test]
fn route_of_a_posted_mail_reads_back() {
    let mut db = Db::new();
    assert!(db.get_route_by_matrix_event("$e").is_none());
    db.store_route("$e", "m", Some("root"), Some("Subject"), "email", NOW);
    let record = db.get_route_by_matrix_event("$e").unwrap();
    assert_eq!(record.email_message_id, "m");
    assert_eq!(record.thread_root_email_message_id.as_deref(), Some("root"));
    assert_eq!(record.subject.as_deref(), Some("Subject"));
    assert_eq!(record.origin, "email");
    db.store_route("$e", "n", None, None, "email", NOW + 1);
    let record = db.get_route_by_matrix_event("$e").unwrap();
    assert_eq!(record.email_message_id, "n");
    assert!(record.subject.is_none());
}

#[test]
fn seen_marks_stay() {
    let mut db = Db::new();
    assert!(!db.uid_seen("INBOX", 3));
    db.mark_uid_seen("INBOX", 3, Some("m"), NOW);
    db.mark_uid_seen("INBOX", 3, None, NOW + 1);
    assert!(db.uid_seen("INBOX", 3));
    assert!(!db.uid_seen("Other", 3));
    assert!(!db.uid_seen("INBOX", 4));
}

#[test]
fn last_uid_reads_back_for_each_mailbox() {
    let mut db = Db::new();
    assert_eq!(db.get_last_uid("INBOX"), 0);
    db.set_last_uid("INBOX", 4294967295);
    db.set_last_uid("Other", 12);
    assert_eq!(db.get_last_uid("INBOX"), 4294967295);
    assert_eq!(db.get_last_uid("Other"), 12);
    assert_eq!(db.meta_value("last_uid:Other").unwrap(), "12");
    db.put_meta("last_uid:Other", "4294967296");
    assert_eq!(db.get_last_uid("Other"), 0);
    db.put_meta("last_uid:Other", "+07");
    assert_eq!(db.get_last_uid("Other"), 7);
    db.put_meta("last_uid:Other", "x");
    assert_eq!(db.get_last_uid("Other"), 0);
}

#[test]
fn thread_mappings_read_back_and_age() {
    let mut db = Db::new();
    assert!(db.get_thread_root("m").is_none());
    db.store_thread("m", "$e", "root", "INBOX", NOW);
    db.store_thread("n", "$f", "root", "INBOX", NOW - 10);
    db.store_thread("o", "$g", "root", "INBOX", NOW - 11);
    assert_eq!(db.get_thread_root("m"), Some(("$e".to_owned(), "root".to_owned())));
    assert_eq!(db.cleanup_old_threads(10, NOW), 1);
    assert!(db.get_thread_root("o").is_none());
    assert!(db.get_thread_root("n").is_some());
    assert_eq!(db.cleanup_old_threads(10, NOW), 0);
    assert_eq!(db.cleanup_old_threads(-1, NOW), 2);
}

#[test]
fn postings_to_repeat_wait_a_minute() {
    let mut db = Db::new();
    let first = db.push_retry("one", NOW).unwrap();
    let second = db.push_retry("two", NOW - 30).unwrap();
    assert_eq!((first, second), (1, 2));
    assert!(db.pop_retry(10, NOW + 29).is_empty());
    assert_eq!(db.pop_retry(10, NOW + 30), vec![(2, "two".to_owned(), 0)]);
    assert_eq!(
        db.pop_retry(10, NOW + 60),
        vec![(2, "two".to_owned(), 0), (1, "one".to_owned(), 0)]
    );
    assert_eq!(db.pop_retry(1, NOW + 60).len(), 1);
    db.fail_retry(2, NOW + 500);
    assert_eq!(db.pop_retry(10, NOW + 60), vec![(1, "one".to_owned(), 0)]);
    db.ack_retry(1);
    assert!(db.pop_retry(10, NOW + 60).is_empty());
    assert_eq!(db.pop_retry(10, NOW + 500), vec![(2, "two".to_owned(), 1)]);
    db.fail_retry(77, NOW);
    assert!(db.retry(77).is_none());
    db.ack_retry(2);
    assert_eq!(db.push_retry("three", NOW).unwrap(), 3);
}

#[test]
fn identifiers_of_postings_run_out() {
    let mut db = Db::new();
    let row = RetryRow {
        payload: "last".to_owned(),
        attempts: 0,
        next_retry_at: NOW,
        created_at: NOW,
    };
    db.put_retry(i64::MAX, row);
    assert!(matches!(db.push_retry("more", NOW), Err(DbError::RetryIdsExhausted)));
    assert_eq!(db.pop_retry(10, NOW).len(), 1);
}

#[test]
fn statuses_have_texts() {
    for status in [
        SmtpStatus::Pending,
        SmtpStatus::Failed,
        SmtpStatus::Sent,
        SmtpStatus::SmtpAccepted,
        SmtpStatus::ListConfirmed,
        SmtpStatus::DeliveryUnconfirmed,
    ] {
        assert_eq!(SmtpStatus::from_text(status.text()), Some(status));
    }
    assert_eq!(SmtpStatus::from_text("unknown"), None);
}

#[test]
fn early_versions_sent_mail_can_be_confirmed() {
    let mut db = Db::new();
    let row = RouteRow {
        email_message_id: "m".to_owned(),
        thread_root_email_message_id: None,
        subject: None,
        origin: "matrix".to_owned(),
        smtp_status: Some(SmtpStatus::Sent),
        smtp_attempts: 0,
        smtp_next_retry_at: None,
        smtp_payload: None,
        room_id: None,
        smtp_accepted_at: None,
        list_confirmed_at: None,
        delivery_unconfirmed_at: None,
        delivery_notice_claimed_at: None,
        delivery_notice_sent_at: None,
        created_at: NOW,
    };
    db.put_route("$old", row);
    assert!(db.is_bridge_sent_email("m"));
    let matched = db.confirm_list_delivery("m", None, NOW).unwrap();
    assert_eq!(matched.previous_status, "sent");
}

#[test]
fn unknown_states_are_told_from_known_ones() {
    assert!(is_known_status(None));
    assert!(is_known_status(Some("pending")));
    assert!(is_known_status(Some("delivery_unconfirmed")));
    assert!(!is_known_status(Some("Pending")));
    assert!(!is_known_status(Some("")));
}
