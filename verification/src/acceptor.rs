//! The acceptor's decisions: what a bind outcome means, and what to do with
//! each accept attempt.
//!
//! The acceptor binds a listening socket once, reports the outcome on a
//! one-shot channel, and — only if the bind succeeded — loops accepting
//! connections, handing each accepted one to a fresh handler.  The socket
//! work lives outside this crate; the decisions are made here.

use vstd::prelude::*;

verus! {

/// The one-shot startup signal the acceptor sends its caller: listening, or
/// failed to bind with the underlying error's description.
#[derive(Clone, Debug)]
pub enum BindReport {
    Listening,
    Failed(String),
}

/// Whether the acceptor runs its accept loop.
#[derive(Clone, Copy, Debug, PartialEq, Eq, Structural)]
pub enum AcceptorMode {
    Accepting,
    Stopped,
}

/// What to do with one accept attempt.
#[derive(Clone, Copy, Debug, PartialEq, Eq, Structural)]
pub enum AcceptAction {
    /// Hand the accepted connection to a freshly spawned handler.
    SpawnHandler,
    /// The accept failed: log it and stay available for the next connection.
    LogAndContinue,
}

/// Whether a mode lets the acceptor accept connections.
pub open spec fn may_accept(m: AcceptorMode) -> bool {
    m is Accepting
}

/// What a bind outcome means: the signal owed to the caller, and whether the
/// accept loop is entered.
pub open spec fn bind_decision(outcome: Result<(), String>) -> (BindReport, AcceptorMode) {
    match outcome {
        Ok(_) => (BindReport::Listening, AcceptorMode::Accepting),
        Err(e) => (BindReport::Failed(e), AcceptorMode::Stopped),
    }
}

/// Decide from the bind outcome which signal to send and whether to enter
/// the accept loop.
pub fn bind_step(outcome: Result<(), String>) -> (r: (BindReport, AcceptorMode))
    ensures
        r == bind_decision(outcome),
{
    match outcome {
        Ok(_) => (BindReport::Listening, AcceptorMode::Accepting),
        Err(e) => (BindReport::Failed(e), AcceptorMode::Stopped),
    }
}

/// Decide what to do with one accept attempt.  Either way the acceptor keeps
/// accepting: an accept failure is transient and never stops the loop.
pub fn accept_step(accepted: bool) -> (r: (AcceptAction, AcceptorMode))
    ensures
        r.0 is SpawnHandler <==> accepted,
        r.1 is Accepting,
{
    if accepted {
        (AcceptAction::SpawnHandler, AcceptorMode::Accepting)
    } else {
        (AcceptAction::LogAndContinue, AcceptorMode::Accepting)
    }
}

/// Law: a failed bind is reported as a bind failure carrying the error, and
/// the acceptor never enters its accept loop.
pub proof fn lemma_bind_failure_stops(e: String)
    ensures
        bind_decision(Err(e)).0 == BindReport::Failed(e),
        !may_accept(bind_decision(Err(e)).1),
{
}

} // verus!
