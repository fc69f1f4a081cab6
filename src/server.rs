use crate::command::{command_spec, Command, CommandModel};
use crate::error::Error;
use crate::resp::{Frame, RESP};
use vstd::prelude::*;
use vstd::string::StringExecFns;

verus! {

/// Where a connection's handler stands.
#[derive(Debug, PartialEq, Eq, Structural)]
pub enum Phase {
    AwaitingFrame,
    Dispatching,
    WritingReply,
    Closed,
}

/// What happened since the handler's last decision.
pub enum Event {
    /// A whole frame arrived.
    FrameRead(RESP),
    /// The peer closed the stream with nothing pending.
    PeerClosed,
    /// Reading failed: an I/O error, a malformed frame or a frame cut short.
    ReadFailed,
    /// The executor answered the submitted command.
    Replied(RESP),
    /// The executor could not take the command or dropped its answer.
    Unreachable,
    /// The reply was written and flushed.
    Written,
}

/// What the handler must do next.
pub enum Action {
    /// Read the next frame.
    ReadFrame,
    /// Hand the command to the executor and wait for its answer.
    Submit(Command),
    /// Write this frame to the peer and flush.
    Write(RESP),
    /// End the handler.
    Stop,
}

/// The text of the error reply to a rejected request.
pub open spec fn rejection(m: Seq<char>) -> Seq<char> {
    "ERR "@ + m
}

pub open spec fn unreachable_text() -> Seq<char> {
    "ERR the executor is unreachable"@
}

/// The handler's decision: its next phase, and whether it reads, submits
/// `Some(command)`, writes `Some(frame)` or stops.
pub open spec fn step_spec(phase: Phase, event: Event) -> (Phase, Option<CommandModel>, Option<Frame>, bool) {
    match (phase, event) {
        (Phase::AwaitingFrame, Event::FrameRead(f)) => match command_spec(f@) {
            Ok(c) => (Phase::Dispatching, Some(c), None, false),
            Err(m) => (Phase::WritingReply, None, Some(Frame::Error(rejection(m))), false),
        },
        (Phase::Dispatching, Event::Replied(r)) => (Phase::WritingReply, None, Some(r@), false),
        (Phase::Dispatching, Event::Unreachable) => (Phase::WritingReply, None, Some(Frame::Error(unreachable_text())), false),
        (Phase::WritingReply, Event::Written) => (Phase::AwaitingFrame, None, None, false),
        _ => (Phase::Closed, None, None, true),
    }
}

pub open spec fn action_view(a: Action) -> (Option<CommandModel>, Option<Frame>, bool) {
    match a {
        Action::ReadFrame => (None, None, false),
        Action::Submit(c) => (Some(c@), None, false),
        Action::Write(f) => (None, Some(f@), false),
        Action::Stop => (None, None, true),
    }
}

/// Decides what a connection's handler does on an event. A malformed request
/// is answered with an error frame and the connection goes on; a clean close,
/// a failed read or an event out of turn ends the handler.
pub fn step(phase: Phase, event: Event) -> (r: (Phase, Action))
    ensures
        (r.0, action_view(r.1).0, action_view(r.1).1, action_view(r.1).2) == step_spec(phase, event),
{
    match (phase, event) {
        (Phase::AwaitingFrame, Event::FrameRead(f)) => match Command::try_from(f) {
            Ok(c) => (Phase::Dispatching, Action::Submit(c)),
            Err(Error::Msg(m)) => {
                let text = "ERR ".to_owned().concat(m.as_str());
                (Phase::WritingReply, Action::Write(RESP::Error(text)))
            },
            Err(_) => (Phase::Closed, Action::Stop),
        },
        (Phase::Dispatching, Event::Replied(r)) => (Phase::WritingReply, Action::Write(r)),
        (Phase::Dispatching, Event::Unreachable) => (
            Phase::WritingReply,
            Action::Write(RESP::Error("ERR the executor is unreachable".to_owned())),
        ),
        (Phase::WritingReply, Event::Written) => (Phase::AwaitingFrame, Action::ReadFrame),
        _ => (Phase::Closed, Action::Stop),
    }
}

} // verus!
