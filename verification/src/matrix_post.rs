//! Mail posted to rooms: what is posted, where, and what is recorded of it.
use crate::config::LimitsConfig;
use crate::db::Db;
use crate::email::{Attachment, ParsedEmail};
#[allow(unused_imports)]
use crate::email::{candidates_of, law_answer_joins_thread, root_among, EmailView};
use crate::format::format_email;
#[allow(unused_imports)]
use crate::format::{
    cleaned_subject, collapsed_body, date_text, html_body, html_form, plain_form, safe_html_of,
    sender_text, shown_html, shown_plain,
};
use crate::matrix_ids::is_event_id;
#[allow(unused_imports)]
use crate::matrix_ids::event_id_parses;
#[allow(unused_imports)]
use crate::matrix_reply::{root_reason, Lookup};
#[allow(unused_imports)]
use crate::records::{
    posted_route, record_of, with_route, with_thread, DbView, RouteRecord, ThreadView,
};
#[allow(unused_imports)]
use crate::text::opt_view;
use crate::text::same_text;
use mime::Mime;
use vstd::prelude::*;

verus! {

/// The thread that a mail is posted in: the Matrix event that the thread hangs on, and the
/// Message-ID of the mail at its root.
pub struct ThreadInfo {
    pub root_event_id: String,
    pub thread_root_id: String,
}

/// A room and what is known of it.
pub struct RoomInfo {
    pub room_id: String,
    /// Whether the bot is a member.
    pub joined: bool,
    /// Whether the room is one that the bot is allowed to serve.
    pub allowed: bool,
}

/// A mail ready to be posted.
pub struct Post {
    pub plain: String,
    pub html: String,
    /// The event whose thread the post joins.
    pub thread_event: Option<String>,
}

/// The event and root of the thread that a mail belongs to, as far as it is known.
pub open spec fn thread_info_of(email: EmailView, db: DbView) -> Option<ThreadView> {
    match email.thread_root {
        Some(root) => if db.threads.contains_key(root) {
            Some(db.threads[root])
        } else {
            None
        },
        None => None,
    }
}

/// Looks up the thread that a mail belongs to.
pub fn find_thread(email: &ParsedEmail, db: &Db) -> (r: Option<ThreadInfo>)
    ensures
        match r {
            Some(info) => {
                &&& thread_info_of(email@, db@) matches Some(t)
                &&& info.root_event_id@ == t.matrix_event_id
                &&& info.thread_root_id@ == t.thread_root_id
            },
            None => thread_info_of(email@, db@) is None,
        },
{
    match &email.thread_root {
        Some(root) => match db.get_thread_root(root.as_str()) {
            Some(found) => Some(ThreadInfo { root_event_id: found.0, thread_root_id: found.1 }),
            None => None,
        },
        None => None,
    }
}

/// The event whose thread a post joins: the root of the thread, if its ID is well formed.
pub open spec fn thread_event_of(thread: Option<ThreadInfo>) -> Option<Seq<char>> {
    match thread {
        Some(info) => if event_id_parses(info.root_event_id@) {
            Some(info.root_event_id@)
        } else {
            None
        },
        None => None,
    }
}

/// The post made of a mail.
pub fn make_post(email: &ParsedEmail, limits: &LimitsConfig, thread: &Option<ThreadInfo>) -> (r: Post)
    ensures
        r.plain@ == shown_plain(email@, *limits),
        r.html@ == shown_html(email@, *limits),
        r.plain@ == plain_form(
            email@.thread_root is Some,
            cleaned_subject(email@.subject),
            sender_text(email@.from_name, email@.from_email),
            date_text(email@.date),
            collapsed_body(email@, *limits),
        ),
        r.html@ == html_form(
            email@.thread_root is Some,
            cleaned_subject(email@.subject),
            sender_text(email@.from_name, email@.from_email),
            date_text(email@.date),
            html_body(
                safe_html_of(email@),
                collapsed_body(email@, *limits),
                limits.quote_limit() as nat,
            ),
        ),
        opt_view(r.thread_event) == thread_event_of(*thread),
{
    let forms = format_email(email, limits);
    let thread_event: Option<String> = match thread {
        Some(info) => {
            if is_event_id(info.root_event_id.as_str()) {
                Some(info.root_event_id.clone())
            } else {
                None
            }
        },
        None => None,
    };
    Post { plain: forms.0, html: forms.1, thread_event }
}

/// The positions of the rooms that mail is posted to: those that the bot has joined and is allowed
/// to serve.
pub open spec fn posting_rooms(rooms: Seq<RoomInfo>) -> Seq<int>
    decreases rooms.len(),
{
    if rooms.len() == 0 {
        seq![]
    } else if rooms.last().joined && rooms.last().allowed {
        posting_rooms(rooms.drop_last()).push(rooms.len() - 1)
    } else {
        posting_rooms(rooms.drop_last())
    }
}

/// The positions of the rooms that mail is posted to.
pub fn choose_rooms(rooms: &Vec<RoomInfo>) -> (r: Vec<usize>)
    ensures
        r@.map_values(|i: usize| i as int) == posting_rooms(rooms@),
        forall|i: usize| #[trigger]
            r@.contains(i) <==> i < rooms@.len() && rooms@[i as int].joined
                && rooms@[i as int].allowed,
        forall|k: int, m: int| 0 <= k < m < r@.len() ==> r@[k] < r@[m],
{
    let mut out: Vec<usize> = Vec::new();
    let mut i: usize = 0;
    assert(out@.map_values(|i: usize| i as int) =~= posting_rooms(rooms@.take(0)));
    while i < rooms.len()
        invariant
            i <= rooms@.len(),
            out@.map_values(|i: usize| i as int) == posting_rooms(rooms@.take(i as int)),
            forall|k: usize| #[trigger]
                out@.contains(k) <==> k < i && rooms@[k as int].joined && rooms@[k as int].allowed,
            forall|k: int, m: int| 0 <= k < m < out@.len() ==> out@[k] < out@[m],
        decreases rooms@.len() - i,
    {
        let ghost so_far = out@;
        assert(rooms@.take(i + 1).drop_last() =~= rooms@.take(i as int));
        if rooms[i].joined && rooms[i].allowed {
            out.push(i);
            assert(out@.map_values(|i: usize| i as int) =~= so_far.map_values(
                |i: usize| i as int,
            ).push(i as int));
            assert forall|k: int| 0 <= k < so_far.len() implies so_far[k] < i by {
                assert(so_far.contains(so_far[k]));
            }
            assert forall|k: usize| #[trigger]
                out@.contains(k) <==> so_far.contains(k) || k == i by {
                assert(out@[so_far.len() as int] == i);
                if so_far.contains(k) {
                    let m = so_far.index_of(k);
                    assert(out@[m] == k);
                }
                if out@.contains(k) {
                    let m = out@.index_of(k);
                    if m < so_far.len() {
                        assert(so_far[m] == k);
                    }
                }
            }
        }
        i += 1;
    }
    assert(rooms@.take(i as int) =~= rooms@);
    out
}

/// What to do next while a mail is posted to room after room.
#[derive(Debug)]
pub enum PostStep {
    /// Send to the room at this place in the list.
    Send(usize),
    /// Record the post under this event; the attachments follow.
    Record(String),
    /// There is no room: nothing is posted and nothing recorded.
    NoRoom,
    /// A room refused the post: the mail is to be posted again later.
    Fail,
}

pub ghost enum StepView {
    Send(int),
    Record(Seq<char>),
    NoRoom,
    Fail,
}

impl View for PostStep {
    type V = StepView;

    open spec fn view(&self) -> StepView {
        match *self {
            PostStep::Send(at) => StepView::Send(at as int),
            PostStep::Record(event_id) => StepView::Record(event_id@),
            PostStep::NoRoom => StepView::NoRoom,
            PostStep::Fail => StepView::Fail,
        }
    }
}

/// The first step for a number of rooms.
pub open spec fn step_before(rooms: int) -> StepView {
    if rooms == 0 {
        StepView::NoRoom
    } else {
        StepView::Send(0)
    }
}

/// The step after the post to the room at `at` ended.
pub open spec fn step_after(at: int, rooms: int, event_id: Option<Seq<char>>) -> StepView {
    match event_id {
        None => StepView::Fail,
        Some(id) => if at + 1 < rooms {
            StepView::Send(at + 1)
        } else {
            StepView::Record(id)
        },
    }
}

/// The first step for a number of rooms.
pub fn first_step(rooms: usize) -> (r: PostStep)
    ensures
        r@ == step_before(rooms as int),
        r == (if rooms == 0 {
            PostStep::NoRoom
        } else {
            PostStep::Send(0)
        }),
{
    if rooms == 0 {
        PostStep::NoRoom
    } else {
        PostStep::Send(0)
    }
}

/// The step after the post to the room at `at` ended, with the event that it made or without one.
/// The mail is recorded under the event of the last room.
pub fn next_step(at: usize, rooms: usize, event_id: Option<String>) -> (r: PostStep)
    requires
        at < rooms,
    ensures
        r@ == step_after(at as int, rooms as int, opt_view(event_id)),
        match event_id {
            None => r == PostStep::Fail,
            Some(id) => if at + 1 < rooms {
                r == PostStep::Send((at + 1) as usize)
            } else {
                r matches PostStep::Record(e) && e@ == id@
            },
        },
{
    match event_id {
        None => PostStep::Fail,
        Some(id) => {
            if at + 1 < rooms {
                PostStep::Send(at + 1)
            } else {
                PostStep::Record(id)
            }
        },
    }
}

/// The root of the thread that a mail is recorded in: that of its thread, or itself.
pub open spec fn recorded_root(email: EmailView, thread: Option<ThreadInfo>) -> Seq<char> {
    match thread {
        Some(info) => info.thread_root_id@,
        None => email.message_id,
    }
}

/// The records after a mail was posted: its thread mapping, and the route of the event.
pub open spec fn with_post(
    db: DbView,
    email: EmailView,
    event_id: Seq<char>,
    root: Seq<char>,
    now: i64,
) -> DbView {
    with_route(
        with_thread(
            db,
            email.message_id,
            ThreadView {
                matrix_event_id: event_id,
                thread_root_id: root,
                mailbox: email.mailbox,
                created_at: now,
            },
        ),
        event_id,
        posted_route(email.message_id, Some(root), Some(email.subject), "email"@, now),
    )
}

/// The records after a mail was posted in a thread, or as the beginning of one.
pub open spec fn after_post(
    db: DbView,
    email: EmailView,
    event_id: Seq<char>,
    thread: Option<ThreadInfo>,
    now: i64,
) -> DbView {
    with_post(db, email, event_id, recorded_root(email, thread), now)
}

/// Records that a mail was posted as the given event.
pub fn record_post(
    db: &mut Db,
    email: &ParsedEmail,
    event_id: &str,
    thread: &Option<ThreadInfo>,
    now: i64,
)
    ensures
        final(db)@ == after_post(old(db)@, email@, event_id@, *thread, now),
        final(db)@ == with_post(
            old(db)@,
            email@,
            event_id@,
            recorded_root(email@, *thread),
            now,
        ),
{
    let root: &str = match thread {
        Some(info) => info.thread_root_id.as_str(),
        None => email.message_id.as_str(),
    };
    db.store_thread(email.message_id.as_str(), event_id, root, email.mailbox.as_str(), now);
    db.store_route(
        event_id,
        email.message_id.as_str(),
        Some(root),
        Some(email.subject.as_str()),
        "email",
        now,
    );
}

/// What `mime::Mime::from_str` makes of a text: the text of the media type and its main type; `None`
/// where the text is no media type.
pub uninterp spec fn media_type(s: Seq<char>) -> Option<(Seq<char>, Seq<char>)>;

pub open spec fn pair_view(p: Option<(String, String)>) -> Option<(Seq<char>, Seq<char>)> {
    match p {
        Some(t) => Some((t.0@, t.1@)),
        None => None,
    }
}

/// Calls `<mime::Mime as FromStr>::from_str` and `Mime::type_`. The result, and whether there is
/// one, depend on the text alone.
#[verifier::external_body]
fn parse_media_type(s: &str) -> (r: Option<(String, String)>)
    ensures
        pair_view(r) == media_type(s@),
{
    s.parse::<Mime>().ok().map(|m| (m.to_string(), m.type_().to_string()))
}

/// How an attachment is posted.
#[derive(Debug)]
pub struct UploadPlan {
    /// The media type to upload it under.
    pub media_type: String,
    /// Whether it is shown as an image or offered as a file.
    pub is_image: bool,
}

/// The media type that an attachment is uploaded under, and whether it is an image.
pub open spec fn upload_of(parsed: Option<(Seq<char>, Seq<char>)>) -> (Seq<char>, bool) {
    match parsed {
        Some(t) => (t.0, t.1 == "image"@),
        None => ("application/octet-stream"@, false),
    }
}

/// The way to upload an attachment of a media type that was read already.
pub fn plan_for_type(parsed: Option<(String, String)>) -> (r: UploadPlan)
    ensures
        (r.media_type@, r.is_image) == upload_of(pair_view(parsed)),
{
    match parsed {
        Some(t) => {
            let is_image: bool = same_text(t.1.as_str(), "image");
            UploadPlan { media_type: t.0, is_image }
        },
        None => UploadPlan { media_type: "application/octet-stream".to_owned(), is_image: false },
    }
}

/// How an attachment of a number of bytes and a content type is posted, if it is.
pub open spec fn upload_plan(size: nat, content_type: Seq<char>, limit: nat) -> Option<
    (Seq<char>, bool),
> {
    if size > limit {
        None
    } else {
        Some(upload_of(media_type(content_type)))
    }
}

/// How an attachment is posted; `None` if it is larger than the limit.
pub fn plan_attachment(attachment: &Attachment, limits: &LimitsConfig) -> (r: Option<UploadPlan>)
    ensures
        r is Some ==> upload_plan(
            attachment.data@.len(),
            attachment.content_type@,
            limits.attachment_limit() as nat,
        ) == Some((r->0.media_type@, r->0.is_image)),
        r is None ==> upload_plan(
            attachment.data@.len(),
            attachment.content_type@,
            limits.attachment_limit() as nat,
        ) is None,
        match r {
            Some(plan) => {
                &&& attachment.data@.len() <= limits.attachment_limit()
                &&& (plan.media_type@, plan.is_image) == upload_of(
                    media_type(attachment.content_type@),
                )
            },
            None => attachment.data@.len() > limits.attachment_limit(),
        },
{
    if attachment.data.len() > limits.effective_max_attachment_bytes() {
        return None;
    }
    Some(plan_for_type(parse_media_type(attachment.content_type.as_str())))
}

/// A Matrix user may answer a mail that was posted: the route of the event leads to the mail.
pub proof fn law_posted_mail_can_be_answered(
    db: DbView,
    email: EmailView,
    event_id: Seq<char>,
    root: Seq<char>,
    now: i64,
)
    ensures
        with_post(db, email, event_id, root, now).routes.contains_key(event_id),
        record_of(with_post(db, email, event_id, root, now).routes[event_id]).email_message_id
            == email.message_id,
        record_of(with_post(db, email, event_id, root, now).routes[event_id]).origin == "email"@,
        forall|r: RouteRecord|
            r@ == record_of(with_post(db, email, event_id, root, now).routes[event_id])
                ==> #[trigger] root_reason(Lookup::Found(r)) is None,
{
}

/// A mail that answers one that was posted as the beginning of a thread is posted in the thread of
/// that event.
pub proof fn law_answer_is_posted_in_thread(
    db: DbView,
    first: EmailView,
    event_id: Seq<char>,
    now: i64,
    answer: EmailView,
)
    requires
        answer.in_reply_to == Some(first.message_id),
    ensures
        ({
            let after = with_post(db, first, event_id, first.message_id, now);
            let root = root_among(candidates_of(answer), after);
            let threaded = EmailView { thread_root: root, ..answer };
            &&& root == Some(first.message_id)
            &&& thread_info_of(threaded, after) matches Some(t) && t.matrix_event_id == event_id
                && t.thread_root_id == first.message_id
        }),
{
    let after = with_post(db, first, event_id, first.message_id, now);
    law_answer_joins_thread(answer, after);
}

/// An answer to an answer belongs to the thread of the first mail.
pub proof fn law_thread_root_is_inherited(
    db: DbView,
    email: EmailView,
    event_id: Seq<char>,
    root: Seq<char>,
    now: i64,
    answer: EmailView,
)
    requires
        answer.in_reply_to == Some(email.message_id),
    ensures
        root_among(candidates_of(answer), with_post(db, email, event_id, root, now)) == Some(root),
{
    law_answer_joins_thread(answer, with_post(db, email, event_id, root, now));
}

} // verus!
