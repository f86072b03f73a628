use email_bot::config::{ImapConfig, LimitsConfig, SmtpConfig};
use email_bot::db::Db;
use email_bot::email::{reconstruct_thread, Attachment, ParsedEmail};
use email_bot::imap_sync::{
    message_from, next_reconnect_delay, plan_sync, record_fetched, search_query, select_uids,
    server_address, should_fetch, skip_history, FetchOutcome, RoundAction, RoundEvent, SyncPlan,
    SyncRound, FIRST_DELAY,
};
use email_bot::matrix_post::{
    choose_rooms, find_thread, first_step, make_post, next_step, plan_attachment, plan_for_type,
    record_post, PostStep, RoomInfo, ThreadInfo,
};
use email_bot::matrix_reply::{
    build_references, decide_reply, get_display_name, make_reply, record_first_attempt,
    record_pending, resolve_in_reply_to, sanitize_reply_body, screen, specific_event, Draft, Lookup,
    MessageEvent, ReplyState, SendAction, SendEvent, SendRun, SkipReason, ThreadRelation,
};
use email_bot::records::{RouteRecord, SmtpStatus};
use email_bot::verify::{
    decide_invite, read_command, via_servers, BotState, InviteAction, JoinOutcome, JoinRun,
    JoinStep, TrustCommand,
};

fn smtp() -> SmtpConfig {
    SmtpConfig {
        host: "smtp.example.org".to_owned(),
        port: 587,
        username: "bot".to_owned(),
        from_address: "bot@example.org".to_owned(),
        list_address: "list@lists.example.org".to_owned(),
        require_smtps: false,
        allow_new_threads_from_matrix: false,
        list_confirmation_timeout_secs: None,
    }
}

fn state() -> ReplyState {
    ReplyState {
        bot_user_id: "@bot:example.org".to_owned(),
        allowed_repliers: vec![],
        smtp_config: smtp(),
    }
}

fn event() -> MessageEvent {
    MessageEvent {
        event_id: "$event".to_owned(),
        sender: "@alice:example.org".to_owned(),
        room_id: "!room:example.org".to_owned(),
        room_joined: true,
        room_allowed: true,
        text: Some("> quoted\nHello".to_owned()),
        thread: Some(ThreadRelation {
            root_event_id: "$root".to_owned(),
            in_reply_to: Some("$mid".to_owned()),
        }),
        is_related: true,
    }
}

fn record(id: &str, root: Option<&str>, subject: Option<&str>, origin: &str) -> RouteRecord {
    RouteRecord {
        email_message_id: id.to_owned(),
        thread_root_email_message_id: root.map(str::to_owned),
        subject: subject.map(str::to_owned),
        origin: origin.to_owned(),
    }
}

fn root_found() -> Lookup {
    Lookup::Found(record("root@x", Some("first@x"), Some("Topic"), "email"))
}

fn decide(st: &ReplyState, ev: &MessageEvent, dedup: Lookup, root: Lookup) -> Result<Draft, SkipReason> {
    decide_reply(st, ev, &dedup, &root, &Lookup::Missing, Some("Alice"))
}

fn reason(st: &ReplyState, ev: &MessageEvent, dedup: Lookup, root: Lookup) -> SkipReason {
    decide(st, ev, dedup, root).err().unwrap()
}

fn mail(id: &str) -> ParsedEmail {
    ParsedEmail {
        uid: 1,
        mailbox: "INBOX".to_owned(),
        message_id: id.to_owned(),
        in_reply_to: None,
        references: vec![],
        subject: "Topic".to_owned(),
        from_name: None,
        from_email: "a@example.org".to_owned(),
        date: None,
        list_id: None,
        body_plain: Some("Body".to_owned()),
        body_html: None,
        attachments: vec![],
        thread_root: None,
        bridge_origin: None,
    }
}

fn imap() -> ImapConfig {
    ImapConfig {
        host: "imap.example.org".to_owned(),
        port: 993,
        username: "bot".to_owned(),
        mailbox: None,
        poll_interval_secs: None,
        initial_fetch_limit: Some(2),
        skip_initial_history: Some(false),
    }
}

#[test]
fn strips_quoted_lines() {
    let input = "> Original line\n> Another quoted\nMy actual reply";
    assert_eq!(sanitize_reply_body(input), "My actual reply");
}

#[test]
fn strips_leading_and_trailing_blank_lines() {
    let input = "\n\nHello world\n\n";
    assert_eq!(sanitize_reply_body(input), "Hello world");
}

#[test]
fn empty_after_stripping() {
    let input = "> everything is quoted\n> nothing left";
    assert!(sanitize_reply_body(input).is_empty());
}

#[test]
fn multiline_body_preserved() {
    let input = "> quote\nLine one\nLine two\nLine three";
    assert_eq!(sanitize_reply_body(input), "Line one\nLine two\nLine three");
}

#[test]
fn only_marked_quotes_are_stripped() {
    assert_eq!(sanitize_reply_body(">not a quote\n  > quote\n>\nx"), ">not a quote\nx");
    assert_eq!(sanitize_reply_body("a\n\n  \nb\n \t"), "a\n\n  \nb");
}

#[test]
fn reply_becomes_a_draft() {
    let specific = Lookup::Found(record("mid@x", Some("other@x"), None, "email"));
    let draft = decide_reply(
        &state(),
        &event(),
        &Lookup::Missing,
        &root_found(),
        &specific,
        Some("Alice"),
    )
    .ok()
    .unwrap();
    assert_eq!(draft.display_name, "Alice");
    assert_eq!(draft.sender_matrix_id, "@alice:example.org");
    assert_eq!(draft.in_reply_to.as_deref(), Some("mid@x"));
    assert_eq!(
        draft.references,
        vec!["first@x".to_owned(), "root@x".to_owned(), "other@x".to_owned()]
    );
    assert_eq!(draft.subject, "Topic");
    assert_eq!(draft.body, "Hello");
    assert_eq!(draft.thread_root.as_deref(), Some("first@x"));
    assert_eq!(draft.thread_subject.as_deref(), Some("Topic"));
}

#[test]
fn reply_to_a_bridged_message_answers_its_mail() {
    let ours = Lookup::Found(record("ours@email-bridge.local", Some("first@x"), None, "matrix"));
    let draft = decide_reply(&state(), &event(), &Lookup::Missing, &root_found(), &ours, None)
        .ok()
        .unwrap();
    assert_eq!(draft.in_reply_to.as_deref(), Some("ours@email-bridge.local"));
    assert_eq!(draft.references, vec!["first@x".to_owned(), "root@x".to_owned()]);
    assert_eq!(draft.subject, "Topic");
}

#[test]
fn mail_is_recorded_before_it_is_sent() {
    let (mut run, action) = SendRun::start();
    assert_eq!(action, SendAction::StorePending);
    assert_eq!(run.next(SendEvent::Stored), SendAction::Send);
    assert_eq!(run.next(SendEvent::Sent), SendAction::Record(true));
    assert_eq!(run.next(SendEvent::Recorded), SendAction::Stop);
    assert_eq!(run.next(SendEvent::Stored), SendAction::Stop);
}

#[test]
fn failed_attempts_are_recorded_as_failed() {
    let (mut run, _) = SendRun::start();
    assert_eq!(run.next(SendEvent::Stored), SendAction::Send);
    assert_eq!(run.next(SendEvent::NotSent), SendAction::Record(false));
    assert_eq!(run.next(SendEvent::Sent), SendAction::Stop);
}

#[test]
fn nothing_is_sent_that_is_not_recorded() {
    let (mut run, _) = SendRun::start();
    assert_eq!(run.next(SendEvent::StoreFailed), SendAction::Stop);
    assert_eq!(run.next(SendEvent::Stored), SendAction::Stop);
    let (mut run, _) = SendRun::start();
    assert_eq!(run.next(SendEvent::Sent), SendAction::Stop);
}

#[test]
fn reply_falls_back_to_the_root() {
    let root = Lookup::Found(record("root@x", None, None, "email"));
    let draft =
        decide_reply(&state(), &event(), &Lookup::Missing, &root, &Lookup::Failed, None).ok().unwrap();
    assert_eq!(draft.display_name, "alice");
    assert_eq!(draft.in_reply_to.as_deref(), Some("root@x"));
    assert!(draft.references.is_empty());
    assert_eq!(draft.subject, "(no subject)");
    assert!(draft.thread_subject.is_none());
}

#[test]
fn every_reason_to_skip_has_its_message() {
    let mut ev = event();
    ev.sender = "@bot:example.org".to_owned();
    assert_eq!(reason(&state(), &ev, Lookup::Missing, root_found()), SkipReason::OwnMessage);
    let mut ev = event();
    ev.room_joined = false;
    assert_eq!(reason(&state(), &ev, Lookup::Missing, root_found()), SkipReason::RoomNotJoined);
    let mut ev = event();
    ev.text = None;
    assert_eq!(reason(&state(), &ev, Lookup::Missing, root_found()), SkipReason::NotText);
    let mut ev = event();
    ev.thread = None;
    assert_eq!(reason(&state(), &ev, Lookup::Missing, root_found()), SkipReason::NotInThread);
    let mut st = state();
    st.allowed_repliers = vec!["@bob:example.org".to_owned()];
    assert_eq!(reason(&st, &event(), Lookup::Missing, root_found()), SkipReason::SenderNotAllowed);
    assert_eq!(screen(&st, &event()), Some(SkipReason::SenderNotAllowed));
    st.allowed_repliers.push("@alice:example.org".to_owned());
    assert_eq!(screen(&st, &event()), None);
    assert_eq!(reason(&state(), &event(), root_found(), root_found()), SkipReason::AlreadyBridged);
    assert_eq!(
        reason(&state(), &event(), Lookup::Failed, root_found()),
        SkipReason::DedupFailed
    );
    assert_eq!(
        reason(&state(), &event(), Lookup::Missing, Lookup::Missing),
        SkipReason::RootUnknown
    );
    assert_eq!(
        reason(&state(), &event(), Lookup::Missing, Lookup::Failed),
        SkipReason::RootLookupFailed
    );
    let matrix_root = Lookup::Found(record("r", None, None, "matrix"));
    assert_eq!(
        reason(&state(), &event(), Lookup::Missing, matrix_root),
        SkipReason::RootNotMail
    );
    let mut ev = event();
    ev.text = Some("> only quotes\n\n".to_owned());
    assert_eq!(reason(&state(), &ev, Lookup::Missing, root_found()), SkipReason::EmptyBody);
}

#[test]
fn top_level_messages_begin_threads_where_allowed() {
    let mut st = state();
    st.smtp_config.allow_new_threads_from_matrix = true;
    let mut ev = event();
    ev.thread = None;
    assert_eq!(reason(&st, &ev, Lookup::Missing, Lookup::Missing), SkipReason::NotInThread);
    ev.is_related = false;
    let draft = decide(&st, &ev, Lookup::Missing, Lookup::Missing).ok().unwrap();
    assert!(draft.in_reply_to.is_none());
    assert_eq!(draft.subject, "(no subject)");
    let reply = make_reply(&draft);
    assert!(!reply.is_thread_reply());
    let mut db = Db::new();
    record_pending(&mut db, &ev, &draft, &reply.our_message_id, "{}", 5);
    let row = db.route("$event").unwrap();
    assert_eq!(row.thread_root_email_message_id, Some(reply.our_message_id));
    assert_eq!(row.subject.as_deref(), Some("(no subject)"));
    ev.room_allowed = false;
    assert_eq!(reason(&st, &ev, Lookup::Missing, Lookup::Missing), SkipReason::NotInThread);
}

#[test]
fn a_reply_is_recorded_before_and_after_sending() {
    let draft = decide(&state(), &event(), Lookup::Missing, root_found()).ok().unwrap();
    let reply = make_reply(&draft);
    assert_eq!(reply.in_reply_to, "root@x");
    assert_eq!(reply.references, vec!["first@x".to_owned()]);
    let mut db = Db::new();
    record_pending(&mut db, &event(), &draft, &reply.our_message_id, "{}", 5);
    let row = db.route("$event").unwrap();
    assert_eq!(row.smtp_status, Some(SmtpStatus::Pending));
    assert_eq!(row.room_id.as_deref(), Some("!room:example.org"));
    assert_eq!(row.thread_root_email_message_id.as_deref(), Some("first@x"));
    assert_eq!(row.subject.as_deref(), Some("Topic"));
    record_first_attempt(&mut db, "$event", false, 100);
    assert_eq!(db.route("$event").unwrap().smtp_next_retry_at, Some(160));
    record_first_attempt(&mut db, "$event", true, 200);
    assert_eq!(db.route("$event").unwrap().smtp_accepted_at, Some(200));
}

#[test]
fn the_answered_event_is_looked_up_unless_it_is_the_root() {
    let mut thread = ThreadRelation {
        root_event_id: "$root".to_owned(),
        in_reply_to: Some("$mid".to_owned()),
    };
    assert_eq!(specific_event(&thread).map(String::as_str), Some("$mid"));
    let root = record("root@x", None, None, "email");
    let mid = Lookup::Found(record("mid@x", None, None, "email"));
    assert_eq!(resolve_in_reply_to(&thread, &root, &mid).0, "mid@x");
    let mid_matrix = Lookup::Found(record("ours@x", None, None, "matrix"));
    let answered = resolve_in_reply_to(&thread, &root, &mid_matrix);
    assert_eq!(answered.0, "ours@x");
    assert_eq!(answered.1.unwrap().email_message_id, "ours@x");
    assert_eq!(resolve_in_reply_to(&thread, &root, &Lookup::Missing).0, "root@x");
    assert_eq!(resolve_in_reply_to(&thread, &root, &Lookup::Failed).0, "root@x");
    thread.in_reply_to = Some("$root".to_owned());
    assert_eq!(specific_event(&thread), None);
    assert_eq!(resolve_in_reply_to(&thread, &root, &mid).0, "root@x");
    thread.in_reply_to = None;
    assert_eq!(specific_event(&thread), None);
    assert!(resolve_in_reply_to(&thread, &root, &mid).1.is_none());
}

#[test]
fn references_hold_each_ancestor_once() {
    let root = record("a", Some("a"), None, "email");
    let specific = record("c", Some("b"), None, "email");
    assert_eq!(
        build_references(&root, Some(&specific), "c"),
        vec!["a".to_owned(), "b".to_owned()]
    );
    assert_eq!(build_references(&root, Some(&specific), "a"), vec!["b".to_owned()]);
    assert!(build_references(&root, None, "a").is_empty());
}

#[test]
fn display_names_fall_back_to_the_local_part() {
    assert_eq!(get_display_name(Some("A"), "@alice:x"), "A");
    assert_eq!(get_display_name(None, "@alice:x"), "alice");
}

#[test]
fn an_answer_is_posted_in_the_thread_of_the_first_mail() {
    let mut db = Db::new();
    let first = mail("first@x");
    assert!(find_thread(&first, &db).is_none());
    record_post(&mut db, &first, "$first", &None, 10);
    assert_eq!(
        db.get_thread_root("first@x"),
        Some(("$first".to_owned(), "first@x".to_owned()))
    );
    let record = db.get_route_by_matrix_event("$first").unwrap();
    assert_eq!(record.origin, "email");
    assert_eq!(record.email_message_id, "first@x");

    let mut answer = mail("second@x");
    answer.in_reply_to = Some("first@x".to_owned());
    reconstruct_thread(&mut answer, &db);
    let thread = find_thread(&answer, &db);
    let post = make_post(&answer, &LimitsConfig::default(), &thread);
    assert_eq!(post.thread_event.as_deref(), Some("$first"));
    assert!(post.plain.starts_with("↩️ Re: Topic"));
    record_post(&mut db, &answer, "$second", &thread, 20);

    let mut third = mail("third@x");
    third.in_reply_to = Some("second@x".to_owned());
    reconstruct_thread(&mut third, &db);
    assert_eq!(third.thread_root.as_deref(), Some("first@x"));
}

#[test]
fn a_malformed_root_event_is_not_used() {
    let thread = Some(ThreadInfo {
        root_event_id: "no event".to_owned(),
        thread_root_id: "root".to_owned(),
    });
    let post = make_post(&mail("m"), &LimitsConfig::default(), &thread);
    assert!(post.thread_event.is_none());
    assert!(post.html.starts_with("📧"));
}

#[test]
fn mail_is_posted_to_joined_and_allowed_rooms() {
    let room = |joined: bool, allowed: bool| RoomInfo {
        room_id: "!r:x".to_owned(),
        joined,
        allowed,
    };
    let rooms = vec![room(true, true), room(false, true), room(true, false), room(true, true)];
    assert_eq!(choose_rooms(&rooms), vec![0, 3]);
    assert!(matches!(first_step(0), PostStep::NoRoom));
    assert!(matches!(first_step(2), PostStep::Send(0)));
    assert!(matches!(next_step(0, 2, Some("$a".to_owned())), PostStep::Send(1)));
    assert!(matches!(next_step(0, 2, None), PostStep::Fail));
    match next_step(1, 2, Some("$b".to_owned())) {
        PostStep::Record(id) => assert_eq!(id, "$b"),
        _ => panic!("expected a record"),
    }
}

#[test]
fn attachments_are_planned_by_type_and_size() {
    let attachment = |kind: &str, n: usize| Attachment {
        filename: "f".to_owned(),
        content_type: kind.to_owned(),
        data: vec![0; n],
    };
    let limits = LimitsConfig {
        max_attachment_bytes: Some(2),
        max_body_bytes: None,
        max_quote_lines: None,
    };
    let plan = plan_attachment(&attachment("IMAGE/PNG", 2), &limits).unwrap();
    assert_eq!((plan.media_type.as_str(), plan.is_image), ("image/png", true));
    let plan = plan_attachment(&attachment("text/plain", 1), &limits).unwrap();
    assert_eq!((plan.media_type.as_str(), plan.is_image), ("text/plain", false));
    let plan = plan_attachment(&attachment("nonsense", 1), &limits).unwrap();
    assert_eq!((plan.media_type.as_str(), plan.is_image), ("application/octet-stream", false));
    assert!(plan_attachment(&attachment("text/plain", 3), &limits).is_none());
    assert!(!plan_for_type(None).is_image);
}

#[test]
fn rounds_are_planned_by_history() {
    let mut config = imap();
    assert_eq!(server_address(&config), "imap.example.org:993");
    assert_eq!(plan_sync(&config, 7), SyncPlan::After(7));
    assert_eq!(plan_sync(&config, 0), SyncPlan::Newest(2));
    config.skip_initial_history = None;
    assert_eq!(plan_sync(&config, 0), SyncPlan::SkipHistory);
    assert_eq!(search_query(SyncPlan::After(7)).as_deref(), Some("UID 8:*"));
    assert_eq!(search_query(SyncPlan::After(u32::MAX)), None);
    assert_eq!(search_query(SyncPlan::SkipHistory).as_deref(), Some("ALL"));
    assert_eq!(search_query(SyncPlan::Newest(3)).as_deref(), Some("ALL"));
}

#[test]
fn uids_are_chosen_in_order() {
    let found = vec![9, 3, 7, 1];
    assert_eq!(select_uids(SyncPlan::Newest(2), &found), vec![7, 9]);
    assert_eq!(select_uids(SyncPlan::Newest(9), &found), vec![1, 3, 7, 9]);
    assert_eq!(select_uids(SyncPlan::After(3), &found), vec![7, 9]);
    assert_eq!(select_uids(SyncPlan::After(9), &vec![9]), Vec::<u32>::new());
    assert_eq!(select_uids(SyncPlan::SkipHistory, &found), Vec::<u32>::new());
    let many: Vec<u32> = (0..50_000u32).map(|i| i * 7919 % 50_000).collect();
    assert_eq!(select_uids(SyncPlan::Newest(50_000), &many), (0..50_000).collect::<Vec<u32>>());
    assert_eq!(select_uids(SyncPlan::After(0), &vec![2, 1, 2]), vec![1, 2, 2]);
}

#[test]
fn history_is_skipped_and_fetches_are_recorded() {
    let mut db = Db::new();
    skip_history(&mut db, "INBOX", &vec![], 1);
    assert_eq!(db.get_last_uid("INBOX"), 0);
    skip_history(&mut db, "INBOX", &vec![4, 9, 2], 1);
    assert_eq!(db.get_last_uid("INBOX"), 9);
    assert!(db.uid_seen("INBOX", 4) && db.uid_seen("INBOX", 9) && db.uid_seen("INBOX", 2));
    assert!(!db.uid_seen("INBOX", 3));
    record_fetched(&mut db, "INBOX", 12, 2);
    assert!(db.uid_seen("INBOX", 12));
    assert_eq!(db.get_last_uid("INBOX"), 12);
    assert!(should_fetch(None));
    assert!(should_fetch(Some(false)));
    assert!(!should_fetch(Some(true)));
}

#[test]
fn only_bodies_are_handed_on() {
    let raw = message_from(3, "INBOX", FetchOutcome::Body(vec![1, 2])).unwrap();
    assert_eq!((raw.uid, raw.mailbox.as_str(), raw.raw), (3, "INBOX", vec![1, 2]));
    assert!(message_from(3, "INBOX", FetchOutcome::NoBody).is_none());
    assert!(message_from(3, "INBOX", FetchOutcome::Failed).is_none());
}

#[test]
fn a_round_goes_message_by_message() {
    let (mut round, first) = SyncRound::start("INBOX", vec![4, 6, 9]);
    assert!(matches!(first, RoundAction::AskSeen(4)));
    assert!(matches!(round.next(RoundEvent::Seen(Some(true))), RoundAction::AskSeen(6)));
    assert!(matches!(round.next(RoundEvent::Seen(None)), RoundAction::Fetch(6)));
    let failed = round.next(RoundEvent::Fetched(FetchOutcome::Failed));
    assert!(matches!(failed, RoundAction::AskSeen(9)));
    assert!(matches!(round.next(RoundEvent::Seen(Some(false))), RoundAction::Fetch(9)));
    match round.next(RoundEvent::Fetched(FetchOutcome::Body(vec![7]))) {
        RoundAction::HandOn(raw) => {
            assert_eq!((raw.uid, raw.mailbox.as_str(), raw.raw), (9, "INBOX", vec![7]));
        }
        other => panic!("unexpected action {other:?}"),
    }
    assert!(matches!(round.next(RoundEvent::HandedOn(true)), RoundAction::Record(9)));
    assert!(matches!(round.next(RoundEvent::Recorded), RoundAction::Done));
    assert!(matches!(round.next(RoundEvent::Recorded), RoundAction::Done));
}

#[test]
fn a_round_ends_where_no_one_takes_messages() {
    let (mut round, _) = SyncRound::start("INBOX", vec![1, 2]);
    assert!(matches!(round.next(RoundEvent::Seen(Some(false))), RoundAction::Fetch(1)));
    let body = round.next(RoundEvent::Fetched(FetchOutcome::Body(vec![])));
    assert!(matches!(body, RoundAction::HandOn(_)));
    assert!(matches!(round.next(RoundEvent::HandedOn(false)), RoundAction::Done));
    let (_, empty) = SyncRound::start("INBOX", vec![]);
    assert!(matches!(empty, RoundAction::Done));
}

#[test]
fn reconnect_delay_doubles_and_resets() {
    let mut delay = FIRST_DELAY;
    let mut waits = vec![];
    for _ in 0..8 {
        waits.push(delay);
        delay = next_reconnect_delay(delay, false);
    }
    assert_eq!(waits, vec![5, 10, 20, 40, 80, 160, 300, 300]);
    assert_eq!(next_reconnect_delay(delay, true), 5);
}

fn bot() -> BotState {
    BotState {
        bot_user_id: "@bot:example.org".to_owned(),
        admin_users: vec!["@admin:example.org".to_owned()],
        reset_allowed: vec![],
    }
}

#[test]
fn invitations_are_checked() {
    assert_eq!(decide_invite(&bot(), "@x:y", true, true), InviteAction::Ignore);
    assert_eq!(
        decide_invite(&bot(), "@bot:example.org", false, true),
        InviteAction::RejectInviter
    );
    assert_eq!(decide_invite(&bot(), "@bot:example.org", true, false), InviteAction::RejectRoom);
    assert_eq!(decide_invite(&bot(), "@bot:example.org", true, true), InviteAction::Join);
}

#[test]
fn rooms_are_joined_via_known_servers() {
    assert_eq!(
        via_servers(Some("@a:one.org"), "!r:two.org"),
        vec!["one.org".to_owned(), "two.org".to_owned()]
    );
    assert_eq!(via_servers(Some("@a:one.org"), "!r:one.org"), vec!["one.org".to_owned()]);
    assert_eq!(via_servers(Some("@a:one.org"), "!r"), vec!["one.org".to_owned()]);
    assert_eq!(via_servers(None, "!r:two.org"), vec!["two.org".to_owned()]);
    assert!(via_servers(None, "!r").is_empty());
}

#[test]
fn joining_is_tried_eight_times() {
    let mut run = JoinRun::new();
    let mut waits = vec![];
    loop {
        match run.next(JoinOutcome::Failed) {
            JoinStep::RetryAfter(secs) => waits.push(secs),
            step => {
                assert_eq!(step, JoinStep::GiveUp);
                break;
            }
        }
    }
    assert_eq!(waits, vec![2, 4, 8, 16, 32, 64, 128]);
    assert_eq!(JoinRun::new().next(JoinOutcome::Joined), JoinStep::Done);
    assert_eq!(JoinRun::new().next(JoinOutcome::Refused), JoinStep::GiveUp);
}

#[test]
fn only_administrators_reset_trust() {
    let text = Some("  !reset-trust  @eve:example.org ");
    let mut state = bot();
    assert!(matches!(
        read_command(&state, "@user:example.org", true, text),
        TrustCommand::NotAdmin
    ));
    assert!(matches!(
        read_command(&state, "@bot:example.org", true, text),
        TrustCommand::Other
    ));
    assert!(matches!(
        read_command(&state, "@admin:example.org", false, text),
        TrustCommand::Other
    ));
    assert!(matches!(
        read_command(&state, "@admin:example.org", true, Some("!reset-trust")),
        TrustCommand::Other
    ));
    assert!(matches!(
        read_command(&state, "@admin:example.org", true, None),
        TrustCommand::Other
    ));
    match read_command(&state, "@admin:example.org", true, Some("!reset-trust eve")) {
        TrustCommand::InvalidUser(u) => assert_eq!(u, "eve"),
        _ => panic!("expected an invalid user"),
    }
    let said = read_command(&state, "@admin:example.org", true, text);
    state.apply(&said);
    state.apply(&said);
    state.apply(&TrustCommand::NotAdmin);
    assert_eq!(state.reset_allowed, vec!["@eve:example.org".to_owned()]);
}
