//! Points in time as seconds since 1970, and their texts.
#[allow(unused_imports)]
use crate::text::is_control_char;
use chrono::{DateTime, Utc};
use vstd::prelude::*;

verus! {

/// The seconds that a date can have: those of the years from -262143 to 262142.
pub open spec fn is_date(secs: i64) -> bool {
    -8334601228800 <= secs <= 8210266876799
}

/// The pattern of the dates shown in a room, such as `Thu 21 May 14:30`.
pub open spec fn short_pattern() -> Seq<char> {
    "%a %d %b %H:%M"@
}

/// The pattern of the Date header of a mail.
pub open spec fn header_pattern() -> Seq<char> {
    "%a, %d %b %Y %H:%M:%S +0000"@
}

/// What `DateTime::<Utc>::format` makes of a time and a pattern.
pub uninterp spec fn utc_text(secs: i64, pattern: Seq<char>) -> Seq<char>;

/// Calls `chrono::DateTime::<Utc>::from_timestamp`, which accepts the seconds of the years that a
/// date can have and no others.
#[verifier::external_body]
fn from_timestamp_accepts(secs: i64) -> (ok: bool)
    ensures
        ok == is_date(secs),
{
    DateTime::<Utc>::from_timestamp(secs, 0).is_some()
}

/// Calls `chrono::DateTime::<Utc>::format` and turns its result into text. The text depends on the
/// time and the pattern alone: names of days and months are English, the zone is UTC. It is made of
/// letters, digits, spaces and the signs of the pattern, so it holds no control character.
#[verifier::external_body]
fn format_utc(secs: i64, pattern: &str) -> (text: String)
    requires
        is_date(secs),
        pattern@ == short_pattern() || pattern@ == header_pattern(),
    ensures
        text@ == utc_text(secs, pattern@),
        forall|i: int| 0 <= i < text@.len() ==> !is_control_char(#[trigger] text@[i]),
{
    DateTime::<Utc>::from_timestamp(secs, 0).unwrap_or_default().format(pattern).to_string()
}

/// Calls `chrono::Utc::now` and takes its seconds. Nothing is claimed of them but that they are
/// those of a date.
#[verifier::external_body]
fn seconds_now() -> (secs: i64)
    ensures
        is_date(secs),
{
    Utc::now().timestamp()
}

/// The current time.
pub fn current_timestamp() -> (secs: i64)
    ensures
        is_date(secs),
{
    seconds_now()
}

/// A time, if it is one that a date can have.
pub fn date_from_seconds(secs: i64) -> (r: Option<i64>)
    ensures
        r == (if is_date(secs) {
            Some(secs)
        } else {
            None
        }),
{
    if from_timestamp_accepts(secs) {
        Some(secs)
    } else {
        None
    }
}

/// The text of a time in a room.
pub fn short_date(secs: i64) -> (r: String)
    requires
        is_date(secs),
    ensures
        r@ == utc_text(secs, short_pattern()),
{
    format_utc(secs, "%a %d %b %H:%M")
}

/// The text of a time in the Date header of a mail.
pub fn header_date(secs: i64) -> (r: String)
    requires
        is_date(secs),
    ensures
        r@ == utc_text(secs, header_pattern()),
        forall|i: int| 0 <= i < r@.len() ==> !is_control_char(#[trigger] r@[i]),
{
    format_utc(secs, "%a, %d %b %Y %H:%M:%S +0000")
}

} // verus!
