use vstd::prelude::*;
use crate::database::{Database, handle_request, request_outcome};
use crate::packet::{Command, ErrorCode, Request, Response};

verus! {

/// Admission control: a count of active sessions against a fixed bound.
pub struct Admission {
    pub active: u64,
    pub limit: u64,
}

impl Admission {
    /// No session active; at most `limit` at a time.
    pub fn new(limit: u64) -> (r: Admission)
        ensures
            r.active == 0,
            r.limit == limit,
    {
        Admission { active: 0, limit }
    }

    /// Admits one more session if the bound allows it; returns whether it did.
    pub fn try_admit(&mut self) -> (ok: bool)
        ensures
            ok == (old(self).active < old(self).limit),
            final(self).limit == old(self).limit,
            final(self).active == if ok { old(self).active + 1 } else { old(self).active as int },
    {
        if self.active < self.limit {
            self.active = self.active + 1;
            true
        } else {
            false
        }
    }

    /// Ends one admitted session.
    pub fn release(&mut self)
        ensures
            final(self).limit == old(self).limit,
            final(self).active == if old(self).active > 0 { old(self).active - 1 } else { 0 },
    {
        if self.active > 0 {
            self.active = self.active - 1;
        }
    }

    /// The first message of a session: accepted, or refused as busy.
    pub fn greet(&mut self) -> (r: Response)
        ensures
            final(self).limit == old(self).limit,
            old(self).active < old(self).limit ==> r == Response::Connected && final(self).active == old(self).active + 1,
            old(self).active >= old(self).limit ==> r == Response::Error(ErrorCode::ServerBusy) && final(self).active == old(self).active,
    {
        if self.try_admit() {
            Response::Connected
        } else {
            Response::Error(ErrorCode::ServerBusy)
        }
    }
}

/// What a session does after one incoming message.
pub enum SessionStep {
    /// Send the response and wait for the next request.
    Reply(Response),
    /// Send the response and end the session.
    ReplyAndClose(Response),
    /// End the session without a response.
    Close,
}

/// Decides a session's step for one incoming message; `None` stands for a message
/// that could not be decoded.
pub fn session_step(db: &mut Database, received: Option<Request>) -> (r: SessionStep)
    requires
        old(db).wf(),
    ensures
        final(db).wf(),
        received is None ==> r == SessionStep::ReplyAndClose(Response::Error(ErrorCode::BadRequest)) && final(db).same_as(old(db)),
        received is Some && received->0.command is Exit ==> r == SessionStep::Close && final(db).same_as(old(db)),
        received is Some && !(received->0.command is Exit) ==> r is Reply && request_outcome(
            *old(db),
            received->0,
            r->Reply_0,
            *final(db),
        ),
{
    match received {
        None => SessionStep::ReplyAndClose(Response::Error(ErrorCode::BadRequest)),
        Some(request) => {
            if let Command::Exit = request.command {
                SessionStep::Close
            } else {
                SessionStep::Reply(handle_request(request, db))
            }
        },
    }
}

} // verus!
