//! The per-connection handler's dispatch decisions, and the laws of a whole
//! connection.
//!
//! A handler reads one line at a time and asks `Server::plan_request` what to
//! do with it: nothing, or run the named task with the given seed, holding a
//! permit exactly when the kind is the CPU-intensive one.  The surrounding
//! runtime performs the read, the permit wait, the engine call and the write;
//! everything it decides is decided here.
//!
//! The session model below states what a whole connection does: the sequence
//! of response bytes is exactly the engine's results for the well-formed
//! requests, one byte each, in request order, and malformed lines contribute
//! nothing.

use vstd::prelude::*;

use crate::protocol;
use crate::task;
use crate::task::TaskType;

verus! {

/// What one line asks the runtime to do: run task `kind` on `seed`, holding
/// a permit while it runs exactly when `expensive` is set.
#[derive(Clone, Copy, Debug, PartialEq, Eq, Structural)]
pub struct Plan {
    pub kind: u8,
    pub seed: u64,
    pub expensive: bool,
}

/// The plan a line calls for: its request, if the line is well formed and
/// names a known task kind, together with that kind's admission class.
/// `None` means the line is dropped silently: no response byte.
pub open spec fn plan_of_line(line: Seq<u8>) -> Option<Plan> {
    match protocol::request_of_line(line) {
        Some(req) => match task::classify(req.kind) {
            Some(t) => Some(
                Plan { kind: req.kind, seed: req.seed, expensive: task::is_expensive(t) },
            ),
            None => None,
        },
        None => None,
    }
}

/// The server core: the decisions of the connection handler.
pub struct Server;

impl Server {
    /// Decide what to do with one received line.
    pub fn plan_request(line: &[u8]) -> (r: Option<Plan>)
        ensures
            r == plan_of_line(line@),
    {
        match protocol::parse_request(line) {
            Some(req) => match TaskType::from_u8(req.kind) {
                Some(t) => Some(
                    Plan { kind: req.kind, seed: req.seed, expensive: t.needs_permit() },
                ),
                None => None,
            },
            None => None,
        }
    }
}

/// The well-formed requests a connection carries, in the order received.
pub open spec fn session_requests(lines: Seq<Seq<u8>>) -> Seq<Plan>
    decreases lines.len(),
{
    if lines.len() == 0 {
        Seq::empty()
    } else {
        let rest = session_requests(lines.drop_last());
        match plan_of_line(lines.last()) {
            Some(p) => rest.push(p),
            None => rest,
        }
    }
}

/// The response bytes a connection produces, in order, when the engine
/// computes `engine(kind, seed)`: one byte per well-formed request, nothing
/// for any other line.
pub open spec fn session_responses(lines: Seq<Seq<u8>>, engine: spec_fn(u8, u64) -> u8) -> Seq<u8>
    decreases lines.len(),
{
    if lines.len() == 0 {
        Seq::empty()
    } else {
        let rest = session_responses(lines.drop_last(), engine);
        match plan_of_line(lines.last()) {
            Some(p) => rest.push(engine(p.kind, p.seed)),
            None => rest,
        }
    }
}

/// Law: within one connection the responses answer the well-formed requests
/// exactly — one byte per request, equal to the engine's result for that
/// request, in the order the requests arrived.
pub proof fn lemma_session_in_order(lines: Seq<Seq<u8>>, engine: spec_fn(u8, u64) -> u8)
    ensures
        session_responses(lines, engine).len() == session_requests(lines).len(),
        forall|i: int|
            0 <= i < session_requests(lines).len() ==> session_responses(lines, engine)[i]
                == engine(session_requests(lines)[i].kind, session_requests(lines)[i].seed),
    decreases lines.len(),
{
    if lines.len() > 0 {
        lemma_session_in_order(lines.drop_last(), engine);
    }
}

/// Law: a malformed line is silent.  A connection with such a line anywhere
/// in it produces exactly the responses of the same connection without it.
pub proof fn lemma_malformed_line_silent(
    before: Seq<Seq<u8>>,
    bad: Seq<u8>,
    after: Seq<Seq<u8>>,
    engine: spec_fn(u8, u64) -> u8,
)
    requires
        plan_of_line(bad) is None,
    ensures
        session_responses(before.push(bad) + after, engine) == session_responses(
            before + after,
            engine,
        ),
    decreases after.len(),
{
    if after.len() == 0 {
        assert(before.push(bad) + after =~= before.push(bad));
        assert((before + after) =~= before);
        assert(before.push(bad).drop_last() =~= before);
    } else {
        lemma_malformed_line_silent(before, bad, after.drop_last(), engine);
        assert((before.push(bad) + after).drop_last() =~= before.push(bad) + after.drop_last());
        assert((before + after).drop_last() =~= before + after.drop_last());
        assert((before.push(bad) + after).last() == after.last());
        assert((before + after).last() == after.last());
    }
}

} // verus!
