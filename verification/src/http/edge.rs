//! The decisions of the edge handler around a route script's answer.

use vstd::prelude::*;

use crate::json::{json_document, parse_document, JsonKind, JsonValue};
use crate::limits::{limit_message, limit_status, LimitError};

verus! {

/// Whether `pat` occurs in `s`.
pub open spec fn occurs_in(pat: Seq<char>, s: Seq<char>) -> bool {
    exists|i: int| 0 <= i && i + pat.len() <= s.len() && #[trigger] s.subrange(i, i + pat.len()) == pat
}

/// Whether `pat` occurs in `s` (`str::contains`).
pub fn contains_text(s: &str, pat: &str) -> (r: bool)
    ensures
        r == occurs_in(pat@, s@),
{
    let n = s.unicode_len();
    let m = pat.unicode_len();
    if m > n {
        assert(!occurs_in(pat@, s@));
        return false;
    }
    let mut i: usize = 0;
    while i <= n - m
        invariant
            n == s@.len(),
            m == pat@.len(),
            m <= n,
            i <= n - m + 1,
            forall|k: int| 0 <= k < i ==> #[trigger] s@.subrange(k, k + m) != pat@,
        decreases n - m + 1 - i,
    {
        let mut j: usize = 0;
        let mut same = true;
        while j < m && same
            invariant
                n == s@.len(),
                m == pat@.len(),
                i + m <= n,
                j <= m,
                same == forall|q: int| 0 <= q < j ==> #[trigger] s@[i + q] == pat@[q],
            decreases m - j,
        {
            if s.get_char(i + j) != pat.get_char(j) {
                same = false;
            }
            j = j + 1;
        }
        if same {
            assert(j == m);
            assert forall|q: int| 0 <= q < m implies s@.subrange(i as int, i + m)[q] == pat@[q] by {
                assert(s@[i + q] == pat@[q]);
            }
            assert(s@.subrange(i as int, i + m) =~= pat@);
            return true;
        }
        assert(s@.subrange(i as int, i + m) != pat@) by {
            let q = choose|q: int| 0 <= q < j && s@[i + q] != pat@[q];
            assert(s@.subrange(i as int, i + m)[q] == s@[i + q]);
        }
        i = i + 1;
    }
    assert(!occurs_in(pat@, s@)) by {
        if occurs_in(pat@, s@) {
            let k = choose|k: int| 0 <= k && k + pat@.len() <= s@.len() && #[trigger] s@.subrange(k, k + pat@.len()) == pat@;
            assert(k < i);
        }
    }
    false
}

/// The status that answers a route script's failure: 503 when it ran out of
/// its time budget, 500 otherwise.
pub fn script_error_status(message: &str) -> (r: u16)
    ensures
        r == (if occurs_in("time budget"@, message@) {
            503u16
        } else {
            500u16
        }),
{
    if contains_text(message, "time budget") {
        503
    } else {
        500
    }
}

/// The status of a route script's answer: its own when it is a valid HTTP
/// status (100 to 999), 200 otherwise.
pub fn response_status(script_status: u16) -> (r: u16)
    ensures
        r == (if 100 <= script_status <= 999 {
            script_status
        } else {
            200u16
        }),
{
    if 100 <= script_status && script_status <= 999 {
        script_status
    } else {
        200
    }
}

/// Whether a serialized answer fits the response limit; one that does not
/// is answered with 503 instead.
pub fn response_fits(body_len: usize, max_response_bytes: usize) -> (r: bool)
    ensures
        r == (body_len <= max_response_bytes),
{
    body_len <= max_response_bytes
}

/// Where an edge request stands: the checks, then the body, then the
/// route script.
#[derive(Debug, Clone, Copy)]
pub enum EdgeStage {
    CheckRate,
    AcquirePermit,
    CheckBudget,
    ReadBody,
    RunScript,
}

/// What the work of a stage gave.
#[derive(Debug)]
pub enum EdgeEvent {
    /// The check passed, or the body was read and parsed.
    Passed,
    /// A limit refused the request.
    Limited(LimitError),
    /// The body exceeds the request limit.
    BodyTooLarge,
    /// The body is not JSON.
    BodyNotJson,
    /// The route script failed with this message.
    ScriptFailed(String),
    /// The route script answered with this status; its body serialized to
    /// this many bytes, or could not be serialized.
    ScriptAnswered(u16, Option<usize>),
}

/// What the edge handler does next.
#[derive(Debug)]
pub enum EdgeAction {
    /// Do the work of this stage.
    Proceed(EdgeStage),
    /// Answer with this status and a JSON error text; `counted` tells
    /// whether the answer goes into the request metrics.
    Refuse { status: u16, message: String, counted: bool },
    /// Answer with the script's body under this status.
    Respond(u16),
}

/// The stage after one that passed; the script's stage waits for its answer.
pub open spec fn stage_after(stage: EdgeStage) -> EdgeStage {
    match stage {
        EdgeStage::CheckRate => EdgeStage::AcquirePermit,
        EdgeStage::AcquirePermit => EdgeStage::CheckBudget,
        EdgeStage::CheckBudget => EdgeStage::ReadBody,
        EdgeStage::ReadBody => EdgeStage::RunScript,
        EdgeStage::RunScript => EdgeStage::RunScript,
    }
}

/// Whether `a` refuses with that status, text and counting.
pub open spec fn refuses(a: EdgeAction, status: u16, message: Seq<char>, counted: bool) -> bool {
    a matches EdgeAction::Refuse { status: s, message: m, counted: c } && s == status && m@ == message
        && c == counted
}

/// What the edge handler does after the work of `stage` gave `event`: a
/// stage that passed leads to the next; a limit refuses with its own status
/// and text; a body over the limit or not JSON is a 400; a failed script is
/// a 503 when it ran out of its time budget and a 500 otherwise, with its
/// message; an answer that cannot be serialized is a 500 that is not
/// counted; one larger than `max_response_bytes` is a 503; any other is
/// sent under the script's status (200 when that is no HTTP status).
pub open spec fn edge_outcome(stage: EdgeStage, event: EdgeEvent, max_response_bytes: usize, a: EdgeAction) -> bool {
    match event {
        EdgeEvent::Passed => a == EdgeAction::Proceed(stage_after(stage)),
        EdgeEvent::Limited(e) => refuses(a, limit_status(e), limit_message(e), true),
        EdgeEvent::BodyTooLarge => refuses(a, 400, "request body exceeds configured limit"@, true),
        EdgeEvent::BodyNotJson => refuses(a, 400, "request body must be valid JSON"@, true),
        EdgeEvent::ScriptFailed(m) => refuses(
            a,
            if occurs_in("time budget"@, m@) {
                503
            } else {
                500
            },
            m@,
            true,
        ),
        EdgeEvent::ScriptAnswered(status, None) => refuses(a, 500, "failed to serialize response"@, false),
        EdgeEvent::ScriptAnswered(status, Some(n)) => if n <= max_response_bytes {
            a == EdgeAction::Respond(
                if 100 <= status <= 999 {
                    status
                } else {
                    200
                },
            )
        } else {
            refuses(a, 503, "response payload too large"@, true)
        },
    }
}

/// Decides the edge handler's next move from what the current stage gave.
pub fn edge_step(stage: EdgeStage, event: EdgeEvent, max_response_bytes: usize) -> (r: EdgeAction)
    ensures
        edge_outcome(stage, event, max_response_bytes, r),
{
    match event {
        EdgeEvent::Passed => EdgeAction::Proceed(
            match stage {
                EdgeStage::CheckRate => EdgeStage::AcquirePermit,
                EdgeStage::AcquirePermit => EdgeStage::CheckBudget,
                EdgeStage::CheckBudget => EdgeStage::ReadBody,
                EdgeStage::ReadBody => EdgeStage::RunScript,
                EdgeStage::RunScript => EdgeStage::RunScript,
            },
        ),
        EdgeEvent::Limited(e) => EdgeAction::Refuse { status: e.status(), message: e.message(), counted: true },
        EdgeEvent::BodyTooLarge => EdgeAction::Refuse {
            status: 400,
            message: String::from_str("request body exceeds configured limit"),
            counted: true,
        },
        EdgeEvent::BodyNotJson => EdgeAction::Refuse {
            status: 400,
            message: String::from_str("request body must be valid JSON"),
            counted: true,
        },
        EdgeEvent::ScriptFailed(m) => {
            let status = script_error_status(m.as_str());
            EdgeAction::Refuse { status, message: m, counted: true }
        },
        EdgeEvent::ScriptAnswered(status, None) => EdgeAction::Refuse {
            status: 500,
            message: String::from_str("failed to serialize response"),
            counted: false,
        },
        EdgeEvent::ScriptAnswered(status, Some(n)) => {
            if response_fits(n, max_response_bytes) {
                EdgeAction::Respond(response_status(status))
            } else {
                EdgeAction::Refuse {
                    status: 503,
                    message: String::from_str("response payload too large"),
                    counted: true,
                }
            }
        },
    }
}

/// The document of a request body: `null` for an empty body, else what the
/// bytes hold as JSON; a body that holds no JSON document is refused.
pub fn read_body(bytes: &[u8]) -> (r: Result<JsonValue, EdgeEvent>)
    ensures
        bytes@.len() == 0 ==> (r matches Ok(v) && v.kind is Null && v.text@ == "null"@),
        bytes@.len() > 0 ==> match json_document(bytes@) {
            Some(v) => r == Ok::<JsonValue, EdgeEvent>(v),
            None => r matches Err(EdgeEvent::BodyNotJson),
        },
{
    if bytes.len() == 0 {
        Ok(JsonValue { kind: JsonKind::Null, text: String::from_str("null") })
    } else {
        match parse_document(bytes) {
            Some(v) => Ok(v),
            None => Err(EdgeEvent::BodyNotJson),
        }
    }
}

} // verus!
