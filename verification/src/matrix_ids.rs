//! Matrix identifiers in the text form in which the bridge keeps them.
#[allow(unused_imports)]
use crate::text::opt_view;
use crate::text::{chars_of, text_between};
use matrix_sdk::ruma::{OwnedEventId, OwnedServerName, OwnedUserId};
use vstd::prelude::*;

verus! {

/// Whether `OwnedUserId::from_str` accepts a text.
pub uninterp spec fn user_id_parses(s: Seq<char>) -> bool;

/// Whether `OwnedEventId::from_str` accepts a text.
pub uninterp spec fn event_id_parses(s: Seq<char>) -> bool;

/// Whether `OwnedServerName::from_str` accepts a text.
pub uninterp spec fn server_name_parses(s: Seq<char>) -> bool;

/// Calls `<matrix_sdk::ruma::OwnedUserId as FromStr>::from_str`. The answer depends on the text
/// alone; an accepted text begins with `@` and holds a colon.
#[verifier::external_body]
fn parse_user_id(s: &str) -> (ok: bool)
    ensures
        ok == user_id_parses(s@),
        ok ==> s@.len() > 0 && s@[0] == '@' && s@.contains(':'),
{
    s.parse::<OwnedUserId>().is_ok()
}

/// Calls `<matrix_sdk::ruma::OwnedEventId as FromStr>::from_str`. The answer depends on the text
/// alone; an accepted text begins with `$`.
#[verifier::external_body]
fn parse_event_id(s: &str) -> (ok: bool)
    ensures
        ok == event_id_parses(s@),
        ok ==> s@.len() > 0 && s@[0] == '$',
{
    s.parse::<OwnedEventId>().is_ok()
}

/// Calls `<matrix_sdk::ruma::OwnedServerName as FromStr>::from_str`. The answer depends on the text
/// alone; an accepted text is not empty.
#[verifier::external_body]
fn parse_server_name(s: &str) -> (ok: bool)
    ensures
        ok == server_name_parses(s@),
        ok ==> s@.len() > 0,
{
    s.parse::<OwnedServerName>().is_ok()
}

/// Whether `s` is a Matrix user ID.
pub fn is_user_id(s: &str) -> (ok: bool)
    ensures
        ok == user_id_parses(s@),
        ok ==> s@.len() > 0 && s@[0] == '@' && s@.contains(':'),
{
    parse_user_id(s)
}

/// Whether `s` is a Matrix event ID.
pub fn is_event_id(s: &str) -> (ok: bool)
    ensures
        ok == event_id_parses(s@),
        ok ==> s@.len() > 0 && s@[0] == '$',
{
    parse_event_id(s)
}

/// The number of characters before the first colon, or all of them.
pub open spec fn colon_index(s: Seq<char>) -> int
    decreases s.len(),
{
    if s.len() == 0 || s.first() == ':' {
        0
    } else {
        1 + colon_index(s.drop_first())
    }
}

/// The part of an identifier between its sigil and its first colon.
pub open spec fn localpart_of(s: Seq<char>) -> Seq<char> {
    if s.len() > 0 && colon_index(s) > 0 {
        s.subrange(1, colon_index(s))
    } else {
        seq![]
    }
}

/// The part of an identifier after its first colon, if it has one.
pub open spec fn server_of(s: Seq<char>) -> Option<Seq<char>> {
    if colon_index(s) < s.len() {
        Some(s.skip(colon_index(s) + 1))
    } else {
        None
    }
}

fn find_colon(v: &Vec<char>) -> (i: usize)
    ensures
        i == colon_index(v@),
        i <= v@.len(),
{
    let mut i: usize = 0;
    assert(v@.skip(0) =~= v@);
    while i < v.len() && v[i] != ':'
        invariant
            i <= v@.len(),
            colon_index(v@) == i + colon_index(v@.skip(i as int)),
        decreases v@.len() - i,
    {
        assert(v@.skip(i as int).drop_first() =~= v@.skip(i as int + 1));
        i += 1;
    }
    i
}

/// The local part of an identifier such as `@user:server`.
pub fn localpart(id: &str) -> (r: String)
    ensures
        r@ == localpart_of(id@),
{
    let v = chars_of(id);
    let i: usize = find_colon(&v);
    if i > 0 {
        text_between(&v, 1, i)
    } else {
        String::new()
    }
}

/// The server of a room ID: what follows its first colon, if that is a server name.
pub open spec fn room_server_of(room_id: Seq<char>) -> Option<Seq<char>> {
    match server_of(room_id) {
        Some(s) => if server_name_parses(s) {
            Some(s)
        } else {
            None
        },
        None => None,
    }
}

/// The server of a room ID, if it names one.
pub fn room_server_name(room_id: &str) -> (r: Option<String>)
    ensures
        opt_view(r) == room_server_of(room_id@),
{
    match server_name(room_id) {
        Some(s) => {
            if parse_server_name(s.as_str()) {
                Some(s)
            } else {
                None
            }
        },
        None => None,
    }
}

/// The server name of an identifier such as `@user:server`.
pub fn server_name(id: &str) -> (r: Option<String>)
    ensures
        opt_view(r) == server_of(id@),
{
    let v = chars_of(id);
    let i: usize = find_colon(&v);
    if i < v.len() {
        assert(v@.skip(i as int + 1) =~= v@.subrange(i as int + 1, v@.len() as int));
        Some(text_between(&v, i + 1, v.len()))
    } else {
        None
    }
}

} // verus!
