//! Answering a write request.
//!
//! A request names a database and an item and carries a body. It is answered in
//! stages: the database name is checked against the one that is configured, the
//! body is read into segments, the segments are consolidated, and the result is
//! written out. The first two stages can refuse the request; nothing after them
//! can fail.

use crate::consolidator::{consolidate, consolidated};
use crate::json::{render_result, result_text};
use crate::segment::{Segment, SegmentView};
use crate::tokenizer::{segments_of, tokenize};
use vstd::prelude::*;
use vstd::string::*;
use vstd::utf8::valid_utf8;

verus! {

/// What a request path names: a database and an item in it. The item is taken
/// along but not looked at.
#[derive(Debug)]
pub struct RoutingKey {
    pub database_name: String,
    pub item_key: String,
}

/// Why a request is not served.
#[derive(Debug, Clone, Copy, PartialEq, Eq, Structural)]
pub enum Rejection {
    /// The request names a database other than the configured one.
    NotFound,
    /// The body is not text that can be read.
    BadRequest,
    /// Anything else that went wrong.
    Internal,
}

/// An answer: a status code and, where there is one, a body of JSON text.
#[derive(Debug)]
pub struct Response {
    pub status: u16,
    pub body: Option<String>,
}

/// Mathematical model of an answer.
pub ghost struct ResponseView {
    pub status: int,
    pub body: Option<Seq<char>>,
}

impl View for Response {
    type V = ResponseView;

    open spec fn view(&self) -> ResponseView {
        ResponseView {
            status: self.status as int,
            body: match self.body {
                Some(text) => Some(text@),
                None => None,
            },
        }
    }
}

/// The answer that carries a result.
pub open spec fn success_view(text: Seq<char>) -> ResponseView {
    ResponseView { status: 200, body: Some(text) }
}

/// The status code that goes with a rejection.
pub open spec fn rejection_status(rejection: Rejection) -> int {
    match rejection {
        Rejection::NotFound => 404,
        Rejection::BadRequest => 400,
        Rejection::Internal => 500,
    }
}

/// The body that goes with a rejection.
pub open spec fn rejection_text(rejection: Rejection) -> Seq<char> {
    match rejection {
        Rejection::NotFound => "{\"error\":{\"code\":-404,\"message\":\"not found\"}}"@,
        Rejection::BadRequest => "{\"error\":{\"code\":-400,\"message\":\"bad request\"}}"@,
        Rejection::Internal => "{\"error\":{\"code\":-500,\"message\":\"internal server error\"}}"@,
    }
}

/// The answer that goes with a rejection.
pub open spec fn rejection_view(rejection: Rejection) -> ResponseView {
    ResponseView { status: rejection_status(rejection), body: Some(rejection_text(rejection)) }
}

/// The answer to a request that matches no route: a GET is told that nothing
/// is there, any other method that it is not allowed.
pub open spec fn fallback_view(is_get: bool) -> ResponseView {
    if is_get {
        rejection_view(Rejection::NotFound)
    } else {
        ResponseView { status: 405, body: None }
    }
}

/// The answer to a write request, given the configured database name, the
/// database name of the request and its body.
pub open spec fn put_response(
    configured: Seq<char>,
    database_name: Seq<char>,
    body: Seq<u8>,
) -> ResponseView {
    if database_name != configured {
        rejection_view(Rejection::NotFound)
    } else if !valid_utf8(body) {
        rejection_view(Rejection::BadRequest)
    } else {
        success_view(result_text(consolidated(segments_of(body))))
    }
}

impl Response {
    /// The answer that carries `text` as its result.
    pub fn success(text: String) -> (response: Response)
        ensures
            response@ == success_view(text@),
    {
        Response { status: 200, body: Some(text) }
    }

    /// The answer that goes with a rejection.
    pub fn rejected(rejection: Rejection) -> (response: Response)
        ensures
            response@ == rejection_view(rejection),
    {
        match rejection {
            Rejection::NotFound => Response {
                status: 404,
                body: Some(String::from_str("{\"error\":{\"code\":-404,\"message\":\"not found\"}}")),
            },
            Rejection::BadRequest => Response {
                status: 400,
                body: Some(
                    String::from_str("{\"error\":{\"code\":-400,\"message\":\"bad request\"}}"),
                ),
            },
            Rejection::Internal => Response {
                status: 500,
                body: Some(
                    String::from_str(
                        "{\"error\":{\"code\":-500,\"message\":\"internal server error\"}}",
                    ),
                ),
            },
        }
    }

    /// The answer to a request that matches no route.
    pub fn fallback(is_get: bool) -> (response: Response)
        ensures
            response@ == fallback_view(is_get),
    {
        if is_get {
            Response::rejected(Rejection::NotFound)
        } else {
            Response { status: 405, body: None }
        }
    }
}

/// How far the handling of a request has come.
#[derive(Debug)]
pub enum Stage {
    /// Nothing has been looked at yet.
    Received,
    /// The request names the configured database.
    Validated,
    /// The body has been read.
    Parsed { segments: Vec<Segment> },
    /// The segments have been consolidated.
    Consolidated { segments: Vec<Segment> },
    /// The answer has been written.
    Rendered { response: Response },
    /// The request has been refused.
    Rejected { rejection: Rejection },
}

/// Mathematical model of a stage.
pub ghost enum StageView {
    Received,
    Validated,
    Parsed { segments: Seq<SegmentView> },
    Consolidated { segments: Seq<SegmentView> },
    Rendered { response: ResponseView },
    Rejected { rejection: Rejection },
}

impl View for Stage {
    type V = StageView;

    open spec fn view(&self) -> StageView {
        match self {
            Stage::Received => StageView::Received,
            Stage::Validated => StageView::Validated,
            Stage::Parsed { segments } => StageView::Parsed { segments: segments.deep_view() },
            Stage::Consolidated { segments } => StageView::Consolidated {
                segments: segments.deep_view(),
            },
            Stage::Rendered { response } => StageView::Rendered { response: response@ },
            Stage::Rejected { rejection } => StageView::Rejected { rejection: *rejection },
        }
    }
}

/// Nothing follows this stage.
pub open spec fn is_final(stage: StageView) -> bool {
    stage is Rendered || stage is Rejected
}

/// How many steps a stage is away from the written answer, at most.
pub open spec fn steps_left(stage: StageView) -> nat {
    match stage {
        StageView::Received => 4,
        StageView::Validated => 3,
        StageView::Parsed { .. } => 2,
        StageView::Consolidated { .. } => 1,
        StageView::Rendered { .. } => 0,
        StageView::Rejected { .. } => 0,
    }
}

/// The stage that follows `stage`. A request is refused as not found right
/// after it was received, or as a bad request right after it was validated, and
/// nowhere else. A final stage stays as it is.
pub open spec fn advanced(
    stage: StageView,
    configured: Seq<char>,
    database_name: Seq<char>,
    body: Seq<u8>,
) -> StageView {
    match stage {
        StageView::Received => if database_name == configured {
            StageView::Validated
        } else {
            StageView::Rejected { rejection: Rejection::NotFound }
        },
        StageView::Validated => if valid_utf8(body) {
            StageView::Parsed { segments: segments_of(body) }
        } else {
            StageView::Rejected { rejection: Rejection::BadRequest }
        },
        StageView::Parsed { segments } => StageView::Consolidated {
            segments: consolidated(segments),
        },
        StageView::Consolidated { segments } => StageView::Rendered {
            response: success_view(result_text(segments)),
        },
        StageView::Rendered { .. } => stage,
        StageView::Rejected { .. } => stage,
    }
}

/// The answer that a stage stands for. Only a final stage has one to give: at
/// any earlier stage the answer is that of an internal failure.
pub open spec fn answer(stage: StageView) -> ResponseView {
    match stage {
        StageView::Rendered { response } => response,
        StageView::Rejected { rejection } => rejection_view(rejection),
        _ => rejection_view(Rejection::Internal),
    }
}

/// The answer that handling arrives at when it goes on from `stage`.
pub open spec fn outcome(
    stage: StageView,
    configured: Seq<char>,
    database_name: Seq<char>,
    body: Seq<u8>,
) -> ResponseView
    decreases steps_left(stage),
{
    if is_final(stage) {
        answer(stage)
    } else {
        outcome(advanced(stage, configured, database_name, body), configured, database_name, body)
    }
}

/// Going through the stages from the start gives the answer to the request.
pub proof fn lemma_outcome_of_received(
    configured: Seq<char>,
    database_name: Seq<char>,
    body: Seq<u8>,
)
    ensures
        outcome(StageView::Received, configured, database_name, body) == put_response(
            configured,
            database_name,
            body,
        ),
{
    reveal_with_fuel(outcome, 5);
}

/// Every step that is taken brings the answer nearer, so handling ends after
/// four steps at most.
pub proof fn lemma_advanced_decreases(
    stage: StageView,
    configured: Seq<char>,
    database_name: Seq<char>,
    body: Seq<u8>,
)
    requires
        !is_final(stage),
    ensures
        steps_left(advanced(stage, configured, database_name, body)) < steps_left(stage),
{
}

impl Stage {
    /// Whether nothing follows this stage.
    pub fn is_final(&self) -> (done: bool)
        ensures
            done == is_final(self@),
    {
        match self {
            Stage::Rendered { .. } => true,
            Stage::Rejected { .. } => true,
            _ => false,
        }
    }

    /// Takes the next step in handling the request.
    pub fn advance(self, configured: &String, key: &RoutingKey, body: &[u8]) -> (next: Stage)
        ensures
            next@ == advanced(self@, configured@, key.database_name@, body@),
    {
        match self {
            Stage::Received => {
                if key.database_name == *configured {
                    Stage::Validated
                } else {
                    Stage::Rejected { rejection: Rejection::NotFound }
                }
            },
            Stage::Validated => match tokenize(body) {
                Ok(segments) => Stage::Parsed { segments },
                Err(_) => Stage::Rejected { rejection: Rejection::BadRequest },
            },
            Stage::Parsed { segments } => Stage::Consolidated { segments: consolidate(segments) },
            Stage::Consolidated { segments } => Stage::Rendered {
                response: Response::success(render_result(&segments)),
            },
            Stage::Rendered { response } => Stage::Rendered { response },
            Stage::Rejected { rejection } => Stage::Rejected { rejection },
        }
    }

    /// The answer that the stage stands for.
    pub fn into_response(self) -> (response: Response)
        ensures
            response@ == answer(self@),
    {
        match self {
            Stage::Rendered { response } => response,
            Stage::Rejected { rejection } => Response::rejected(rejection),
            _ => Response::rejected(Rejection::Internal),
        }
    }
}

/// Answers a write request.
///
/// A request for another database than the configured one is told that nothing
/// is there, whatever its body holds. A body that is not well-formed text makes
/// a bad request. Every other request is answered with the consolidated
/// segments of its body.
pub fn handle_put(configured: &String, key: &RoutingKey, body: &[u8]) -> (response: Response)
    ensures
        response@ == put_response(configured@, key.database_name@, body@),
{
    let mut stage = Stage::Received;
    proof {
        lemma_outcome_of_received(configured@, key.database_name@, body@);
    }
    while !stage.is_final()
        invariant
            outcome(stage@, configured@, key.database_name@, body@) == put_response(
                configured@,
                key.database_name@,
                body@,
            ),
        decreases steps_left(stage@),
    {
        stage = stage.advance(configured, key, body);
    }
    stage.into_response()
}

} // verus!
