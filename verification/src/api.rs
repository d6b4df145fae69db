//! The HTTP API without the HTTP: what each endpoint answers.
//!
//! Handlers take the engine and the decoded request, and return the status code
//! with the body to send, or an [`AppError`].

use vstd::prelude::*;
use vstd::string::*;

use crate::clock;
use crate::engine;
use crate::engine::bucket::MAX_SKILL_RATING;
use crate::engine::{CancelError, EnqueueError, MatchmakerCore};
use crate::metrics::MetricsSnapshot;
use crate::models::{
    player_state, EnqueueRequest, EnqueueResponse, ErrorResponse, HealthResponse, Match, MatchesResponse,
};
use crate::text;
use crate::text::{append_decimal, format_uuid};

verus! {

/// The status code of a successful response.
pub const OK: u16 = 200;

/// An error response in the making.
#[derive(Debug)]
pub enum AppError {
    /// The request makes no sense.
    BadRequest(String),
    /// The request does not fit the state of the queue.
    Conflict(String),
    /// What the request names does not exist.
    NotFound(String),
    /// A value in the request is out of range.
    UnprocessableEntity(String),
}

/// What an [`AppError`] holds.
#[verifier::ext_equal]
pub enum AppErrorView {
    /// The request makes no sense.
    BadRequest(Seq<char>),
    /// The request does not fit the state of the queue.
    Conflict(Seq<char>),
    /// What the request names does not exist.
    NotFound(Seq<char>),
    /// A value in the request is out of range.
    UnprocessableEntity(Seq<char>),
}

impl View for AppError {
    type V = AppErrorView;

    open spec fn view(&self) -> AppErrorView {
        match self {
            AppError::BadRequest(text) => AppErrorView::BadRequest(text@),
            AppError::Conflict(text) => AppErrorView::Conflict(text@),
            AppError::NotFound(text) => AppErrorView::NotFound(text@),
            AppError::UnprocessableEntity(text) => AppErrorView::UnprocessableEntity(text@),
        }
    }
}

impl AppErrorView {
    /// The status code, the text and the error code of the response.
    pub open spec fn response(self) -> (u16, Seq<char>, Seq<char>) {
        match self {
            AppErrorView::BadRequest(text) => (400u16, text, "BAD_REQUEST"@),
            AppErrorView::Conflict(text) => (409u16, text, "CONFLICT"@),
            AppErrorView::NotFound(text) => (404u16, text, "NOT_FOUND"@),
            AppErrorView::UnprocessableEntity(text) => (422u16, text, "VALIDATION_ERROR"@),
        }
    }
}

impl AppError {
    /// The status code and the body of the response.
    pub fn into_response(self) -> (response: (u16, ErrorResponse))
        ensures
            (response.0, response.1.error@, response.1.code@) == self@.response(),
    {
        match self {
            AppError::BadRequest(text) => (
                400,
                ErrorResponse::new(text, "BAD_REQUEST".to_owned()),
            ),
            AppError::Conflict(text) => (409, ErrorResponse::new(text, "CONFLICT".to_owned())),
            AppError::NotFound(text) => (404, ErrorResponse::new(text, "NOT_FOUND".to_owned())),
            AppError::UnprocessableEntity(text) => (
                422,
                ErrorResponse::new(text, "VALIDATION_ERROR".to_owned()),
            ),
        }
    }
}

/// A text about a player: `Player`, the identifier, and the rest.
fn about_player(id: u128, rest: &str) -> (text: String)
    ensures
        text@ == "Player "@ + text::uuid_text(id) + rest@,
{
    let mut text = "Player ".to_owned();
    text.append(format_uuid(id).as_str());
    text.append(rest);
    text
}

/// What `POST /enqueue` answers when the player joins at `now`.
pub open spec fn enqueue_answered(
    before: engine::CoreView,
    body: EnqueueRequest,
    now: u64,
    after: engine::CoreView,
    answer: Result<(u16, EnqueueResponse), AppError>,
) -> bool {
    if body.skill_rating > MAX_SKILL_RATING {
        &&& answer is Err
        &&& answer->Err_0@ == AppErrorView::UnprocessableEntity(
            "skill_rating must be between 0 and "@ + text::decimal(MAX_SKILL_RATING as nat),
        )
        &&& after == before
    } else if before.shared.players.contains_key(body.id) {
        &&& answer is Err
        &&& answer->Err_0@ == AppErrorView::Conflict(
            "Player "@ + text::uuid_text(body.id) + " is already queued"@,
        )
        &&& after == before
    } else {
        &&& answer is Ok
        &&& answer->Ok_0.0 == OK
        &&& answer->Ok_0.1.player_id == body.id
        &&& answer->Ok_0.1.status@ == "queued"@
        &&& engine::enqueued(
            before,
            body.id,
            body.skill_rating,
            now,
            after,
            Ok(answer->Ok_0.1.queue_depth),
        )
    }
}

/// `POST /enqueue`: add a player to the queue now.
pub fn enqueue_handler(core: &mut MatchmakerCore, body: EnqueueRequest) -> (answer: Result<
    (u16, EnqueueResponse),
    AppError,
>)
    requires
        old(core).wf(),
    ensures
        final(core).wf(),
        exists|now: u64| #[trigger] enqueue_answered(old(core)@, body, now, final(core)@, answer),
{
    let now: u64 = core.clock().now();
    enqueue_handler_at(core, body, now)
}

/// `POST /enqueue`: add a player to the queue with the join time `now`; see
/// [`enqueue_answered`].
pub fn enqueue_handler_at(core: &mut MatchmakerCore, body: EnqueueRequest, now: u64) -> (answer: Result<
    (u16, EnqueueResponse),
    AppError,
>)
    requires
        old(core).wf(),
    ensures
        final(core).wf(),
        enqueue_answered(old(core)@, body, now, final(core)@, answer),
{
    if body.skill_rating > MAX_SKILL_RATING {
        let mut text = "skill_rating must be between 0 and ".to_owned();
        append_decimal(&mut text, MAX_SKILL_RATING as u64);
        return Err(AppError::UnprocessableEntity(text));
    }
    match core.enqueue_at(body.id, body.skill_rating, now) {
        Ok(queue_depth) => Ok(
            (OK, EnqueueResponse { player_id: body.id, status: "queued", queue_depth }),
        ),
        Err(EnqueueError::AlreadyQueued(id)) => Err(
            AppError::Conflict(about_player(id, " is already queued")),
        ),
        Err(EnqueueError::InvalidSkillRating(rating, max)) => {
            let mut text = "skill_rating ".to_owned();
            append_decimal(&mut text, rating as u64);
            text.append(" exceeds maximum ");
            append_decimal(&mut text, max as u64);
            Err(AppError::UnprocessableEntity(text))
        },
    }
}

/// Response body for `DELETE /enqueue/:player_id`.
#[derive(Debug, Clone, Copy)]
pub struct CancelResponse {
    /// The player's identifier.
    pub player_id: u128,
    /// What became of the request.
    pub status: &'static str,
}

/// What `DELETE /enqueue/:player_id` answers.
pub open spec fn cancel_answered(
    before: engine::CoreView,
    player_id: u128,
    after: engine::CoreView,
    answer: Result<(u16, CancelResponse), AppError>,
) -> bool {
    if !before.shared.players.contains_key(player_id) {
        &&& answer is Err
        &&& answer->Err_0@ == AppErrorView::NotFound(
            "Player "@ + text::uuid_text(player_id) + " not found"@,
        )
        &&& after == before
    } else if !before.shared.players[player_id].waiting() {
        &&& answer is Err
        &&& answer->Err_0@ == AppErrorView::Conflict(
            "Player "@ + text::uuid_text(player_id)
                + " is currently being matched — retry shortly"@,
        )
        &&& after == before
    } else {
        &&& answer is Ok
        &&& answer->Ok_0.0 == OK
        &&& answer->Ok_0.1.player_id == player_id
        &&& answer->Ok_0.1.status@ == "cancelled"@
        &&& engine::cancelled(before, player_id, after, Ok(()))
    }
}

/// `DELETE /enqueue/:player_id`: remove a player from the queue; see
/// [`cancel_answered`].
pub fn cancel_handler(core: &mut MatchmakerCore, player_id: u128) -> (answer: Result<
    (u16, CancelResponse),
    AppError,
>)
    requires
        old(core).wf(),
    ensures
        final(core).wf(),
        cancel_answered(old(core)@, player_id, final(core)@, answer),
{
    match core.cancel(&player_id) {
        Ok(()) => Ok((OK, CancelResponse { player_id, status: "cancelled" })),
        Err(CancelError::NotFound(id)) => Err(
            AppError::NotFound(about_player(id, " not found")),
        ),
        Err(CancelError::CurrentlyBeingMatched(id)) => Err(
            AppError::Conflict(
                about_player(id, " is currently being matched — retry shortly"),
            ),
        ),
    }
}

/// `GET /health`: the liveness probe. The uptime is what the engine's clock
/// reads.
pub fn health_handler(core: &MatchmakerCore) -> (body: HealthResponse)
    ensures
        body.status@ == "ok"@,
        body.players_waiting == core@.shared.metrics.current_queue_size,
        exists|nanos: u64| body.uptime_secs == #[trigger] (nanos / clock::NANOS_PER_SEC),
{
    HealthResponse {
        status: "ok",
        players_waiting: core.players_waiting(),
        uptime_secs: core.uptime_secs(),
    }
}

/// `GET /metrics`: a snapshot of all metrics.
pub fn metrics_handler(core: &MatchmakerCore) -> (body: MetricsSnapshot)
    ensures
        body == core@.shared.metrics.reported(),
{
    core.metrics_snapshot()
}

/// Query parameters for `GET /matches`.
#[derive(Debug, Clone, Copy)]
pub struct MatchesQuery {
    /// How many matches to return at most.
    pub limit: usize,
}

/// The limit of a query that gives none.
pub fn default_limit() -> (limit: usize)
    ensures
        limit == 20,
{
    20
}

/// `GET /matches`: the most recent matches, newest first. A limit of zero
/// counts as one.
pub fn matches_handler(core: &MatchmakerCore, params: MatchesQuery) -> (answer: Result<
    MatchesResponse,
    AppError,
>)
    ensures
        answer is Ok,
        answer->Ok_0.matches@.map_values(|m: Match| m@) == engine::newest_first(
            core@.shared.history,
            if params.limit == 0 {
                1
            } else {
                params.limit as nat
            },
        ),
        answer->Ok_0.total_matches_formed == core@.shared.metrics.total_matches_created,
{
    let limit: usize = if params.limit == 0 {
        1
    } else {
        params.limit
    };
    let matches = core.recent_matches(limit);
    let total_matches_formed: u64 = core.total_matches_formed();
    Ok(MatchesResponse { matches, total_matches_formed })
}

/// The status and code of each kind of error.
pub proof fn law_errors_have_their_status(text: Seq<char>)
    ensures
        AppErrorView::BadRequest(text).response() == (400u16, text, "BAD_REQUEST"@),
        AppErrorView::NotFound(text).response() == (404u16, text, "NOT_FOUND"@),
        AppErrorView::Conflict(text).response() == (409u16, text, "CONFLICT"@),
        AppErrorView::UnprocessableEntity(text).response() == (
            422u16,
            text,
            "VALIDATION_ERROR"@,
        ),
{
}

/// What a request to join is answered: 422 for a rating above 3000, else 409 for a
/// player in the queue, and nothing changes; else 200 with the player's own
/// identifier and how many are in the queue.
pub proof fn law_join_requests_are_answered(
    before: engine::CoreView,
    body: EnqueueRequest,
    now: u64,
    after: engine::CoreView,
    answer: Result<(u16, EnqueueResponse), AppError>,
)
    requires
        enqueue_answered(before, body, now, after, answer),
        before.shared.players.dom().finite(),
    ensures
        body.skill_rating > 3000 ==> answer is Err && answer->Err_0@.response().0 == 422 && after
            == before,
        body.skill_rating <= 3000 && before.shared.players.contains_key(body.id) ==> answer is Err
            && answer->Err_0@.response().0 == 409 && after == before,
        body.skill_rating <= 3000 && !before.shared.players.contains_key(body.id) ==> {
            &&& answer is Ok
            &&& answer->Ok_0.0 == 200
            &&& answer->Ok_0.1.player_id == body.id
            &&& answer->Ok_0.1.status@ == "queued"@
            &&& answer->Ok_0.1.queue_depth == before.shared.players.dom().len() + 1
            &&& after.shared.players.contains_key(body.id)
            &&& after.shared.players[body.id].skill_rating == body.skill_rating
            &&& after.shared.players[body.id].join_timestamp == now
        },
{
    if answer is Ok {
        engine::law_join_depends_on_rating_and_presence(
            before,
            body.id,
            body.skill_rating,
            now,
            after,
            Ok(answer->Ok_0.1.queue_depth),
            body.id,
        );
    }
}

/// What a request to leave is answered: 404 for a player who is not in the queue,
/// 409 for one who is not waiting, and nothing changes; else 200, and the player is
/// gone.
pub proof fn law_leave_requests_are_answered(
    before: engine::CoreView,
    player_id: u128,
    after: engine::CoreView,
    answer: Result<(u16, CancelResponse), AppError>,
)
    requires
        cancel_answered(before, player_id, after, answer),
    ensures
        !before.shared.players.contains_key(player_id) ==> answer is Err
            && answer->Err_0@.response().0 == 404 && after == before,
        before.shared.players.contains_key(player_id) && before.shared.players[player_id].state
            != player_state::WAITING ==> answer is Err && answer->Err_0@.response().0 == 409
            && after == before,
        before.shared.players.contains_key(player_id) && before.shared.players[player_id].state
            == player_state::WAITING ==> {
            &&& answer is Ok
            &&& answer->Ok_0.0 == 200
            &&& answer->Ok_0.1.player_id == player_id
            &&& answer->Ok_0.1.status@ == "cancelled"@
            &&& !after.shared.players.contains_key(player_id)
        },
{
}

/// However a request for matches is answered, it is with the newest of the history,
/// the newest first: as many as asked for and there are, and at least one if there
/// is one; and with the number of matches ever formed.
pub proof fn law_match_requests_are_answered(
    core: MatchmakerCore,
    params: MatchesQuery,
    answer: Result<MatchesResponse, AppError>,
    i: int,
)
    requires
        call_ensures(matches_handler, (&core, params), answer),
    ensures
        ({
            let history = core@.shared.history;
            let matches = answer->Ok_0.matches@;
            &&& answer is Ok
            &&& params.limit >= 1 && params.limit <= history.len() ==> matches.len() == params.limit
            &&& params.limit >= history.len() && params.limit >= 1 ==> matches.len() == history.len()
            &&& params.limit == 0 && history.len() >= 1 ==> matches.len() == 1
            &&& 0 <= i < matches.len() ==> matches[i]@ == history[history.len() - 1 - i]
            &&& answer->Ok_0.total_matches_formed == core@.shared.metrics.total_matches_created
        }),
{
    let matches = answer->Ok_0.matches@;
    let shown = matches.map_values(|m: Match| m@);
    assert(shown.len() == matches.len());
    if 0 <= i < matches.len() {
        assert(shown[i] == matches[i]@);
    }
}

} // verus!
