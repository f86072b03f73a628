//! The logic of a bridge between a mailing list and Matrix rooms.
//!
//! Mail of the list is read (`mail`, `mail_scan`, `email`), formatted (`format`, `html_clean`,
//! `html_scan`) and posted to rooms (`matrix_post`). Matrix messages become mail (`matrix_reply`,
//! `smtp_send`). The records of both (`records`, `db`) tie events to messages, break loops and keep
//! the states of delivery. `imap_sync`, `bridge` and `verify` decide what the tasks around them do
//! next. Input and output are left to the program that uses this library.
//!
//! The modules whose names end in `_laws` state and prove what holds of these operations for all inputs.
pub mod bridge;
pub mod config;
pub mod dates;
pub mod db;
pub mod db_laws;
pub mod email;
pub mod email_laws;
pub mod encoding;
pub mod format;
pub mod format_laws;
pub mod html_clean;
pub mod html_scan;
pub mod imap_sync;
pub mod mail;
pub mod mail_scan;
pub mod matrix_ids;
pub mod matrix_post;
pub mod matrix_reply;
pub mod record_laws;
pub mod records;
pub mod reply_laws;
pub mod room_laws;
pub mod scan_laws;
pub mod send_laws;
pub mod smtp_send;
pub mod table;
pub mod task_laws;
pub mod text;
pub mod text_laws;
pub mod verify;
