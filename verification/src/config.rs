//! The bridge's configuration and the defaults that apply where it is silent.
use crate::matrix_ids::is_user_id;
#[allow(unused_imports)]
use crate::matrix_ids::user_id_parses;
use crate::text::list_contains;
#[allow(unused_imports)]
use crate::text::views;
use vstd::prelude::*;

verus! {

/// The `[imap]` table. The password is not part of it.
#[derive(Clone, Debug)]
pub struct ImapConfig {
    pub host: String,
    pub port: u16,
    pub username: String,
    pub mailbox: Option<String>,
    pub poll_interval_secs: Option<u64>,
    pub initial_fetch_limit: Option<usize>,
    pub skip_initial_history: Option<bool>,
}

/// The IMAPS port.
pub fn default_imap_port() -> (port: u16)
    ensures
        port == 993,
{
    993
}

/// The mailbox that a configuration means.
pub open spec fn mailbox_of(config: ImapConfig) -> Seq<char> {
    match config.mailbox {
        Some(m) => m@,
        None => "INBOX"@,
    }
}

impl ImapConfig {
    pub open spec fn poll_interval(self) -> u64 {
        match self.poll_interval_secs {
            Some(n) => n,
            None => 60,
        }
    }

    pub open spec fn fetch_limit(self) -> usize {
        match self.initial_fetch_limit {
            Some(n) => n,
            None => 50,
        }
    }

    pub open spec fn skips_history(self) -> bool {
        match self.skip_initial_history {
            Some(b) => b,
            None => true,
        }
    }

    /// The mailbox to watch, `INBOX` by default.
    pub fn effective_mailbox(&self) -> (r: &str)
        ensures
            r@ == mailbox_of(*self),
    {
        match &self.mailbox {
            Some(m) => m.as_str(),
            None => "INBOX",
        }
    }

    /// The seconds between two polls, 60 by default.
    pub fn effective_poll_interval_secs(&self) -> (r: u64)
        ensures
            r == self.poll_interval(),
            r == (match self.poll_interval_secs {
                Some(n) => n,
                None => 60,
            }),
    {
        self.poll_interval_secs.unwrap_or(60)
    }

    /// How many of the newest messages a first run fetches, 50 by default.
    pub fn effective_initial_fetch_limit(&self) -> (r: usize)
        ensures
            r == self.fetch_limit(),
            r == (match self.initial_fetch_limit {
                Some(n) => n,
                None => 50,
            }),
    {
        self.initial_fetch_limit.unwrap_or(50)
    }

    /// Whether a first run passes over the messages that are already there; it does by default.
    pub fn effective_skip_initial_history(&self) -> (r: bool)
        ensures
            r == self.skips_history(),
            r == (match self.skip_initial_history {
                Some(b) => b,
                None => true,
            }),
    {
        self.skip_initial_history.unwrap_or(true)
    }
}

/// The `[mailing_list]` table: how list mail is told from other mail.
#[derive(Clone, Debug)]
pub struct MailingListConfig {
    pub list_id: Option<String>,
    pub sender_domains: Option<Vec<String>>,
    pub sender_emails: Option<Vec<String>>,
    pub subject_prefix: Option<String>,
}

impl Default for MailingListConfig {
    /// No rule at all: no mail counts as list mail.
    fn default() -> (r: Self)
        ensures
            r.list_id is None,
            r.sender_domains is None,
            r.sender_emails is None,
            r.subject_prefix is None,
    {
        MailingListConfig {
            list_id: None,
            sender_domains: None,
            sender_emails: None,
            subject_prefix: None,
        }
    }
}

/// The `[limits]` table.
#[derive(Clone, Debug)]
pub struct LimitsConfig {
    pub max_attachment_bytes: Option<usize>,
    pub max_body_bytes: Option<usize>,
    pub max_quote_lines: Option<usize>,
}

impl Default for LimitsConfig {
    /// No limit of its own: the defaults of the accessors apply.
    fn default() -> (r: Self)
        ensures
            r.max_attachment_bytes is None,
            r.max_body_bytes is None,
            r.max_quote_lines is None,
    {
        LimitsConfig { max_attachment_bytes: None, max_body_bytes: None, max_quote_lines: None }
    }
}

impl LimitsConfig {
    pub open spec fn attachment_limit(self) -> usize {
        match self.max_attachment_bytes {
            Some(n) => n,
            None => 10485760,
        }
    }

    pub open spec fn body_limit(self) -> usize {
        match self.max_body_bytes {
            Some(n) => n,
            None => 524288,
        }
    }

    pub open spec fn quote_limit(self) -> usize {
        match self.max_quote_lines {
            Some(n) => n,
            None => 5,
        }
    }

    /// The largest attachment that is bridged, 10 MiB by default.
    pub fn effective_max_attachment_bytes(&self) -> (r: usize)
        ensures
            r == self.attachment_limit(),
    {
        self.max_attachment_bytes.unwrap_or(10 * 1024 * 1024)
    }

    /// The largest message body that is kept whole, 512 KiB by default.
    pub fn effective_max_body_bytes(&self) -> (r: usize)
        ensures
            r == self.body_limit(),
    {
        self.max_body_bytes.unwrap_or(512 * 1024)
    }

    /// How many lines of a quotation are shown, 5 by default.
    pub fn effective_max_quote_lines(&self) -> (r: usize)
        ensures
            r == self.quote_limit(),
    {
        self.max_quote_lines.unwrap_or(5)
    }
}

/// The part of the `[security]` table that concerns who may write to the list.
#[derive(Clone, Debug)]
pub struct SecurityConfig {
    /// Matrix users allowed to send mail through the bridge. Empty means every room member.
    pub allowed_repliers: Vec<String>,
}

/// The `[smtp]` table. The password is not part of it.
#[derive(Clone, Debug)]
pub struct SmtpConfig {
    pub host: String,
    pub port: u16,
    pub username: String,
    /// Address used in the From header of mail that the bridge sends.
    pub from_address: String,
    /// The posting address of the list, used as To and Reply-To.
    pub list_address: String,
    /// Implicit TLS rather than STARTTLS.
    pub require_smtps: bool,
    /// Top-level messages in allowed rooms start new mail threads.
    pub allow_new_threads_from_matrix: bool,
    /// Seconds to wait for the list's copy before the room is told that none came.
    pub list_confirmation_timeout_secs: Option<u64>,
}

/// The submission port.
pub fn default_smtp_port() -> (port: u16)
    ensures
        port == 587,
{
    587
}

impl SmtpConfig {
    pub open spec fn tls_text(self) -> Seq<char> {
        if self.require_smtps {
            "SMTPS (implicit TLS)"@
        } else {
            "STARTTLS"@
        }
    }

    /// How the connection is secured, in words.
    pub fn tls_mode(&self) -> (r: &str)
        ensures
            r@ == self.tls_text(),
            r@ == (if self.require_smtps {
                "SMTPS (implicit TLS)"@
            } else {
                "STARTTLS"@
            }),
    {
        if self.require_smtps {
            "SMTPS (implicit TLS)"
        } else {
            "STARTTLS"
        }
    }
}

/// What the environment supplies and no file holds.
#[derive(Clone)]
pub struct Secrets {
    pub imap_password: String,
    /// Needed only with an `[smtp]` table.
    pub smtp_password: Option<String>,
}

impl Secrets {
    /// The secrets made of the two environment variables' values; the first is mandatory.
    pub fn from_values(imap_password: Option<String>, smtp_password: Option<String>) -> (r: Result<
        Self,
        ConfigError,
    >)
        ensures
            match imap_password {
                Some(p) => r matches Ok(s) && s.imap_password == p && s.smtp_password
                    == smtp_password,
                None => r matches Err(ConfigError::MissingImapPassword),
            },
    {
        match imap_password {
            Some(p) => Ok(Secrets { imap_password: p, smtp_password }),
            None => Err(ConfigError::MissingImapPassword),
        }
    }
}

/// Why a configuration is refused.
#[derive(Debug)]
pub enum ConfigError {
    /// The IMAP password is not set.
    MissingImapPassword,
    /// An entry of `allowed_repliers` is not a Matrix user ID.
    InvalidUserId(String),
}

/// The set of users that `allowed_repliers` lists, each once; the first entry that is no Matrix
/// user ID is an error.
pub fn parse_allowed_repliers(security: &SecurityConfig) -> (r: Result<Vec<String>, ConfigError>)
    ensures
        match r {
            Ok(users) => {
                &&& forall|i: int|
                    0 <= i < security.allowed_repliers@.len() ==> user_id_parses(
                        #[trigger] security.allowed_repliers@[i]@,
                    )
                &&& views(users@).no_duplicates()
                &&& forall|u: Seq<char>|
                    #[trigger] views(users@).contains(u) <==> views(
                        security.allowed_repliers@,
                    ).contains(u)
            },
            Err(e) => exists|i: int|
                {
                    &&& 0 <= i < security.allowed_repliers@.len()
                    &&& e == ConfigError::InvalidUserId(#[trigger] security.allowed_repliers@[i])
                    &&& !user_id_parses(security.allowed_repliers@[i]@)
                    &&& forall|k: int|
                        0 <= k < i ==> user_id_parses(#[trigger] security.allowed_repliers@[k]@)
                },
        },
{
    let list = &security.allowed_repliers;
    let mut users: Vec<String> = Vec::new();
    let mut i: usize = 0;
    while i < list.len()
        invariant
            list@ == security.allowed_repliers@,
            i <= list@.len(),
            forall|k: int| 0 <= k < i ==> user_id_parses(#[trigger] list@[k]@),
            views(users@).no_duplicates(),
            forall|u: Seq<char>|
                #[trigger] views(users@).contains(u) <==> views(list@).take(i as int).contains(u),
        decreases list@.len() - i,
    {
        if !is_user_id(list[i].as_str()) {
            return Err(ConfigError::InvalidUserId(list[i].clone()));
        }
        let ghost before = views(users@);
        let ghost seen = views(list@).take(i as int);
        assert(views(list@).take(i + 1) =~= seen.push(list@[i as int]@));
        if !list_contains(&users, list[i].as_str()) {
            users.push(list[i].clone());
            assert(views(users@) =~= before.push(list@[i as int]@));
        }
        assert forall|u: Seq<char>| #[trigger]
            views(users@).contains(u) <==> views(list@).take(i + 1).contains(u) by {
            broadcast use vstd::seq_lib::group_seq_properties;

        }
        i += 1;
    }
    assert(views(list@).take(i as int) =~= views(list@));
    Ok(users)
}

} // verus!
