use email_bot::bridge::{
    backoff_secs, classify_incoming, config_path, confirmation_timeout, decide_retry,
    record_repost, record_smtp_attempt, smtp_mode, smtp_sleep_secs, take_in, Incoming, Intake, NextRetry,
    RetryAction, SmtpAttempt, SmtpMode,
};
use email_bot::config::{
    default_imap_port, default_smtp_port, parse_allowed_repliers, ConfigError, ImapConfig,
    LimitsConfig, MailingListConfig, Secrets, SecurityConfig, SmtpConfig,
};
use email_bot::db::Db;
use email_bot::email::ParsedEmail;
use email_bot::matrix_ids::{is_event_id, is_user_id, localpart, room_server_name, server_name};
use email_bot::records::SmtpStatus;

fn imap() -> ImapConfig {
    ImapConfig {
        host: "imap.example.org".to_owned(),
        port: default_imap_port(),
        username: "bot".to_owned(),
        mailbox: None,
        poll_interval_secs: None,
        initial_fetch_limit: None,
        skip_initial_history: None,
    }
}

fn smtp() -> SmtpConfig {
    SmtpConfig {
        host: "smtp.example.org".to_owned(),
        port: default_smtp_port(),
        username: "bot".to_owned(),
        from_address: "bot@example.org".to_owned(),
        list_address: "list@lists.example.org".to_owned(),
        require_smtps: false,
        allow_new_threads_from_matrix: false,
        list_confirmation_timeout_secs: None,
    }
}

fn list_mail() -> ParsedEmail {
    ParsedEmail {
        uid: 7,
        mailbox: "INBOX".to_owned(),
        message_id: "m@example.org".to_owned(),
        in_reply_to: None,
        references: vec![],
        subject: "[mylist] Hi".to_owned(),
        from_name: None,
        from_email: "a@example.org".to_owned(),
        date: None,
        list_id: None,
        body_plain: None,
        body_html: None,
        attachments: vec![],
        thread_root: None,
        bridge_origin: None,
    }
}

fn list_rule() -> MailingListConfig {
    MailingListConfig {
        list_id: None,
        sender_domains: None,
        sender_emails: None,
        subject_prefix: Some("[mylist]".to_owned()),
    }
}

#[test]
fn imap_defaults_apply_where_nothing_is_set() {
    let config = imap();
    assert_eq!(config.port, 993);
    assert_eq!(config.effective_mailbox(), "INBOX");
    assert_eq!(config.effective_poll_interval_secs(), 60);
    assert_eq!(config.effective_initial_fetch_limit(), 50);
    assert!(config.effective_skip_initial_history());
}

#[test]
fn imap_settings_win_over_defaults() {
    let mut config = imap();
    config.mailbox = Some("Lists".to_owned());
    config.poll_interval_secs = Some(5);
    config.initial_fetch_limit = Some(3);
    config.skip_initial_history = Some(false);
    assert_eq!(config.effective_mailbox(), "Lists");
    assert_eq!(config.effective_poll_interval_secs(), 5);
    assert_eq!(config.effective_initial_fetch_limit(), 3);
    assert!(!config.effective_skip_initial_history());
}

#[test]
fn limits_have_defaults() {
    let limits = LimitsConfig::default();
    assert_eq!(limits.effective_max_attachment_bytes(), 10 * 1024 * 1024);
    assert_eq!(limits.effective_max_body_bytes(), 512 * 1024);
    assert_eq!(limits.effective_max_quote_lines(), 5);
    let limits = LimitsConfig {
        max_attachment_bytes: Some(1),
        max_body_bytes: Some(2),
        max_quote_lines: Some(3),
    };
    assert_eq!(limits.effective_max_attachment_bytes(), 1);
    assert_eq!(limits.effective_max_body_bytes(), 2);
    assert_eq!(limits.effective_max_quote_lines(), 3);
}

#[test]
fn list_rules_are_empty_by_default() {
    let rules = MailingListConfig::default();
    assert!(rules.list_id.is_none());
    assert!(rules.sender_domains.is_none());
    assert!(rules.sender_emails.is_none());
    assert!(rules.subject_prefix.is_none());
}

#[test]
fn tls_mode_is_named() {
    let mut config = smtp();
    assert_eq!(config.port, 587);
    assert_eq!(config.tls_mode(), "STARTTLS");
    config.require_smtps = true;
    assert_eq!(config.tls_mode(), "SMTPS (implicit TLS)");
}

#[test]
fn secrets_need_the_imap_password_only() {
    let secrets = Secrets::from_values(Some("a".to_owned()), None).ok().unwrap();
    assert_eq!(secrets.imap_password, "a");
    assert!(secrets.smtp_password.is_none());
    assert!(matches!(
        Secrets::from_values(None, Some("b".to_owned())),
        Err(ConfigError::MissingImapPassword)
    ));
}

#[test]
fn allowed_repliers_are_a_set_of_user_ids() {
    let security = SecurityConfig {
        allowed_repliers: vec![
            "@a:example.org".to_owned(),
            "@b:example.org".to_owned(),
            "@a:example.org".to_owned(),
        ],
    };
    let users = parse_allowed_repliers(&security).unwrap();
    assert_eq!(users, vec!["@a:example.org".to_owned(), "@b:example.org".to_owned()]);
}

#[test]
fn an_entry_that_is_no_user_id_is_an_error() {
    let security = SecurityConfig {
        allowed_repliers: vec!["@a:example.org".to_owned(), "alice".to_owned()],
    };
    match parse_allowed_repliers(&security) {
        Err(ConfigError::InvalidUserId(s)) => assert_eq!(s, "alice"),
        _ => panic!("expected an error"),
    }
}

#[test]
fn matrix_identifiers_are_checked_and_split() {
    assert!(is_user_id("@alice:example.org"));
    assert!(!is_user_id("alice:example.org"));
    assert!(!is_user_id("@alice"));
    assert!(is_event_id("$event"));
    assert!(is_event_id("$event:example.org"));
    assert!(!is_event_id("event"));
    assert_eq!(localpart("@alice:example.org:8448"), "alice");
    assert_eq!(server_name("@alice:example.org:8448").as_deref(), Some("example.org:8448"));
    assert_eq!(server_name("@alice"), None);
    assert_eq!(room_server_name("!room:example.org").as_deref(), Some("example.org"));
    assert_eq!(room_server_name("!room:not a server"), None);
    assert_eq!(room_server_name("!room"), None);
}

#[test]
fn config_path_is_the_first_toml_argument() {
    let args = vec!["bot".to_owned(), "-v".to_owned(), "my.toml".to_owned(), "b.toml".to_owned()];
    assert_eq!(config_path(&args), "my.toml");
    assert_eq!(config_path(&vec!["bot".to_owned()]), "config.toml");
    assert_eq!(config_path(&vec![]), "config.toml");
}

#[test]
fn smtp_needs_a_table_and_a_password() {
    assert_eq!(smtp_mode(true, true), SmtpMode::Enabled);
    assert_eq!(smtp_mode(true, false), SmtpMode::PasswordMissing);
    assert_eq!(smtp_mode(false, true), SmtpMode::NotConfigured);
}

#[test]
fn backoff_doubles_up_to_an_hour() {
    assert_eq!(backoff_secs(0), 60);
    assert_eq!(backoff_secs(1), 120);
    assert_eq!(backoff_secs(2), 240);
    assert_eq!(backoff_secs(3), 480);
    assert_eq!(backoff_secs(4), 960);
    assert_eq!(backoff_secs(5), 1920);
    assert_eq!(backoff_secs(6), 3600);
    assert_eq!(backoff_secs(10), 3600);
    assert_eq!(backoff_secs(i64::MAX), 3600);
}

#[test]
fn sleep_is_clamped() {
    assert_eq!(smtp_sleep_secs(NextRetry::Nothing, 1000), 300);
    assert_eq!(smtp_sleep_secs(NextRetry::Unknown, 1000), 300);
    assert_eq!(smtp_sleep_secs(NextRetry::At(0), 1000), 1);
    assert_eq!(smtp_sleep_secs(NextRetry::At(1042), 1000), 42);
    assert_eq!(smtp_sleep_secs(NextRetry::At(i64::MAX), -5), 300);
}

#[test]
fn postings_are_discarded_given_up_or_repeated() {
    assert_eq!(decide_retry(false, 0), RetryAction::Discard);
    assert_eq!(decide_retry(false, 10), RetryAction::Discard);
    assert_eq!(decide_retry(true, 10), RetryAction::GiveUp);
    assert_eq!(decide_retry(true, 9), RetryAction::Post);
}

#[test]
fn confirmation_timeout_follows_the_configuration() {
    let mut config = smtp();
    assert_eq!(confirmation_timeout(&config), None);
    config.list_confirmation_timeout_secs = Some(3600);
    assert_eq!(confirmation_timeout(&config), Some(3600));
    config.list_confirmation_timeout_secs = Some(u64::MAX);
    assert_eq!(confirmation_timeout(&config), Some(i64::MAX));
}

#[test]
fn own_mail_is_recognised_before_anything_else() {
    let mut mail = list_mail();
    assert_eq!(classify_incoming(&mail, Some(false), &list_rule()), Incoming::Post);
    assert_eq!(classify_incoming(&mail, None, &list_rule()), Incoming::Post);
    assert_eq!(classify_incoming(&mail, Some(true), &list_rule()), Incoming::OwnByRecord);
    assert_eq!(
        classify_incoming(&mail, Some(false), &MailingListConfig::default()),
        Incoming::NotListMail
    );
    mail.bridge_origin = Some("matrix".to_owned());
    assert_eq!(classify_incoming(&mail, Some(true), &list_rule()), Incoming::OwnByMark);
    mail.bridge_origin = Some("other".to_owned());
    assert_eq!(classify_incoming(&mail, Some(false), &list_rule()), Incoming::Post);
}

#[test]
fn reposting_ends_or_defers_a_posting() {
    let mut db = Db::new();
    let id = db.push_retry("payload", 1000).unwrap();
    record_repost(&mut db, id, 0, false, 2000);
    let row = db.retry(id).unwrap();
    assert_eq!((row.attempts, row.next_retry_at), (1, 2060));
    record_repost(&mut db, id, 1, true, 3000);
    assert!(db.retry(id).is_none());
}

#[test]
fn smtp_attempts_are_recorded() {
    let mut db = Db::new();
    for event in ["$a", "$b", "$c"] {
        db.store_matrix_reply_pending(event, "!r:x", "m", None, None, "{}", 0);
    }
    record_smtp_attempt(&mut db, "$a", 0, SmtpAttempt::Sent, 1000);
    record_smtp_attempt(&mut db, "$b", 0, SmtpAttempt::Failed, 1000);
    record_smtp_attempt(&mut db, "$c", 0, SmtpAttempt::Corrupt, 1000);
    assert_eq!(db.route("$a").unwrap().smtp_status, Some(SmtpStatus::SmtpAccepted));
    assert_eq!(db.route("$b").unwrap().smtp_next_retry_at, Some(1060));
    assert_eq!(db.route("$c").unwrap().smtp_next_retry_at, Some(i64::MAX));
    assert!(db.get_failed_smtp_routes(10, 1059).unwrap().is_empty());
    let due = db.get_failed_smtp_routes(10, 1060).unwrap();
    assert_eq!(due.len(), 1);
    assert_eq!(due[0].matrix_event_id, "$b");
}

#[test]
fn mail_is_taken_in_with_its_thread() {
    let mut db = Db::new();
    db.store_thread("parent@x", "$p", "root@x", "INBOX", 0);
    let mut mail = list_mail();
    mail.in_reply_to = Some("parent@x".to_owned());
    match take_in(mail.clone(), Some(false), &db, &list_rule()) {
        Intake::Post(email) => assert_eq!(email.thread_root.as_deref(), Some("root@x")),
        _ => panic!("expected a post"),
    }
    match take_in(mail.clone(), Some(true), &db, &list_rule()) {
        Intake::Own(id) => assert_eq!(id, "m@example.org"),
        _ => panic!("expected own mail"),
    }
    assert!(matches!(
        take_in(mail, None, &db, &MailingListConfig::default()),
        Intake::NotListMail
    ));
}

#[test]
fn sent_mail_is_not_posted_back() {
    let mut db = Db::new();
    db.store_matrix_reply_pending("$e", "!r:x", "m@example.org", None, None, "{}", 0);
    let own = db.is_bridge_sent_email("m@example.org");
    assert_eq!(classify_incoming(&list_mail(), Some(own), &list_rule()), Incoming::Post);
    record_smtp_attempt(&mut db, "$e", 0, SmtpAttempt::Sent, 10);
    let own = db.is_bridge_sent_email("m@example.org");
    assert_eq!(classify_incoming(&list_mail(), Some(own), &list_rule()), Incoming::OwnByRecord);
}
