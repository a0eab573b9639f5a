//! The line protocol of the robot: what a command looks like on the wire, and
//! how its completion is awaited.
use crate::text::{
    holds_ignoring_case, is_ignoring_case, lowered, occurs_in, same_text, trim, trimmed,
};
use vstd::prelude::*;

verus! {

/// What one read from the port brought.
#[derive(Debug)]
pub enum ReadEvent {
    /// The port is closed: the device was unplugged.
    Closed,
    /// Text up to the end of a line, or up to the end of the stream.
    Line(String),
    /// The read timed out; this much of a line had come in.
    TimedOut(String),
    /// The read failed, for this reason.
    Failed(String),
}

/// Why a wait ended without the command having completed.
#[derive(Debug)]
pub enum WaitError {
    /// The port was closed.
    Closed,
    /// The robot answered with this error line.
    Reported(String),
    /// A read failed, for this reason.
    Read(String),
    /// The deadline passed.
    DeadlinePassed,
    /// The emergency stop fired.
    EmergencyStop,
}

/// What a read means for the wait.
#[derive(Debug)]
pub enum Wait {
    /// Keep reading.
    Continue,
    /// The command has physically completed.
    Completed,
    Failed(WaitError),
}

/// What a complete line means.
pub enum Verdict {
    Completed,
    Error(Seq<char>),
    Skipped,
}

/// The echoed id completes the command; an acknowledgement, a blank line and
/// anything else is skipped, but for a line that speaks of an error.
pub open spec fn verdict(line: Seq<char>, id: Seq<char>) -> Verdict {
    let t = trimmed(line);
    if t == id {
        Verdict::Completed
    } else if t.len() == 0 || lowered(t) == lowered("ok"@) {
        Verdict::Skipped
    } else if occurs_in("error"@, lowered(t)) {
        Verdict::Error(t)
    } else {
        Verdict::Skipped
    }
}

/// Waiting for the echo of one command.
pub struct FeedbackWait {
    /// The id whose echo marks physical completion.
    pub feedback_id: String,
    /// What has come in of the current line.
    pub line: String,
    /// The instant, in nanoseconds, from which the wait is given up.
    pub deadline: u128,
}

/// What the wait is told after a read, the deadline and the emergency stop
/// looked at last.
pub open spec fn bounded(now: int, deadline: int, estopped: bool, w: Wait) -> bool {
    if estopped {
        w == Wait::Failed(WaitError::EmergencyStop)
    } else if now >= deadline {
        w == Wait::Failed(WaitError::DeadlinePassed)
    } else {
        w == Wait::Continue
    }
}

impl FeedbackWait {
    /// Starts a wait at `now` for at most `timeout`, both in nanoseconds.
    pub fn new(feedback_id: String, now: u64, timeout: u64) -> (r: FeedbackWait)
        ensures
            r.feedback_id == feedback_id,
            r.line@.len() == 0,
            r.deadline == now + timeout,
    {
        FeedbackWait {
            feedback_id,
            line: String::new(),
            deadline: now as u128 + timeout as u128,
        }
    }

    /// Takes in one read. Text of a line that is not complete yet stays, so
    /// an echo that straddles a read timeout is still recognised.
    pub fn step(&mut self, event: ReadEvent, now: u64, estopped: bool) -> (r: Wait)
        ensures
            final(self).feedback_id == old(self).feedback_id,
            final(self).deadline == old(self).deadline,
            estopped || now >= old(self).deadline ==> r !is Continue,
            match event {
                ReadEvent::Closed => {
                    &&& final(self).line == old(self).line
                    &&& r == Wait::Failed(WaitError::Closed)
                },
                ReadEvent::Failed(reason) => {
                    &&& final(self).line == old(self).line
                    &&& r == Wait::Failed(WaitError::Read(reason))
                },
                ReadEvent::TimedOut(part) => {
                    &&& final(self).line@ == old(self).line@ + part@
                    &&& bounded(now as int, old(self).deadline as int, estopped, r)
                },
                ReadEvent::Line(part) => match verdict(
                    old(self).line@ + part@,
                    old(self).feedback_id@,
                ) {
                    Verdict::Completed => {
                        &&& final(self).line@ == old(self).line@ + part@
                        &&& r == Wait::Completed
                    },
                    Verdict::Error(text) => {
                        &&& final(self).line@ == old(self).line@ + part@
                        &&& r matches Wait::Failed(WaitError::Reported(said)) && said@ == text
                    },
                    Verdict::Skipped => {
                        &&& final(self).line@.len() == 0
                        &&& bounded(now as int, old(self).deadline as int, estopped, r)
                    },
                },
            },
    {
        match event {
            ReadEvent::Closed => {
                return Wait::Failed(WaitError::Closed);
            },
            ReadEvent::Failed(reason) => {
                return Wait::Failed(WaitError::Read(reason));
            },
            ReadEvent::TimedOut(part) => {
                self.line.append(part.as_str());
            },
            ReadEvent::Line(part) => {
                self.line.append(part.as_str());
                let t = trim(self.line.as_str());
                if same_text(t, self.feedback_id.as_str()) {
                    return Wait::Completed;
                }
                if !t.is_empty() && !is_ignoring_case(t, "ok") && holds_ignoring_case(t, "error") {
                    return Wait::Failed(WaitError::Reported(t.to_owned()));
                }
                self.line = String::new();
            },
        }
        if estopped {
            Wait::Failed(WaitError::EmergencyStop)
        } else if now as u128 >= self.deadline {
            Wait::Failed(WaitError::DeadlinePassed)
        } else {
            Wait::Continue
        }
    }
}

/// The text for the log and the operator. `timeout` tells how long was
/// waited.
pub open spec fn failure_text(e: WaitError, cmd: Seq<char>, timeout: Seq<char>) -> Seq<char> {
    match e {
        WaitError::Closed => "serial port closed while waiting for '"@ + cmd + "'"@,
        WaitError::Reported(line) => "robot reported error for '"@ + cmd + "': "@ + line@,
        WaitError::Read(reason) => "reading feedback for '"@ + cmd + "': "@ + reason@,
        WaitError::DeadlinePassed => "timed out after "@ + timeout + " waiting for '"@ + cmd
            + "' to complete"@,
        WaitError::EmergencyStop => "emergency stop while waiting for '"@ + cmd + "'"@,
    }
}

impl WaitError {
    pub fn message(&self, command: &str, timeout: &str) -> (r: String)
        ensures
            r@ == failure_text(*self, command@, timeout@),
    {
        match self {
            WaitError::Closed => "serial port closed while waiting for '".to_owned().concat(
                command,
            ).concat("'"),
            WaitError::Reported(line) => "robot reported error for '".to_owned().concat(
                command,
            ).concat("': ").concat(line.as_str()),
            WaitError::Read(reason) => "reading feedback for '".to_owned().concat(command).concat(
                "': ",
            ).concat(reason.as_str()),
            WaitError::DeadlinePassed => "timed out after ".to_owned().concat(timeout).concat(
                " waiting for '",
            ).concat(command).concat("' to complete"),
            WaitError::EmergencyStop => "emergency stop while waiting for '".to_owned().concat(
                command,
            ).concat("'"),
        }
    }
}

/// What the robot is asked when the port opens.
pub const HANDSHAKE_QUESTION: &'static str = "IsDelta\n";

/// What it answers.
pub const HANDSHAKE_ANSWER: &'static str = "YesDelta";

/// How long the controller is given to reboot after the port opened, in
/// milliseconds.
pub const REBOOT_MS: u64 = 2000;

/// How long the answer may take, in nanoseconds.
pub const HANDSHAKE_TIMEOUT: u64 = 5_000_000_000;

/// Waiting for the answer, past any boot banner.
pub struct Handshake {
    /// What has come in of the current line.
    pub line: String,
    /// The instant, in nanoseconds, from which the wait is given up.
    pub deadline: u128,
}

impl Handshake {
    /// Starts the wait at `now`, in nanoseconds.
    pub fn new(now: u64) -> (r: Handshake)
        ensures
            r.line@.len() == 0,
            r.deadline == now + HANDSHAKE_TIMEOUT,
    {
        Handshake { line: String::new(), deadline: now as u128 + HANDSHAKE_TIMEOUT as u128 }
    }

    /// Takes in one read.
    pub fn step(&mut self, event: ReadEvent, now: u64) -> (r: Wait)
        ensures
            final(self).deadline == old(self).deadline,
            now >= old(self).deadline ==> r !is Continue,
            match event {
                ReadEvent::Closed => {
                    &&& final(self).line == old(self).line
                    &&& r == Wait::Failed(WaitError::Closed)
                },
                ReadEvent::Failed(reason) => {
                    &&& final(self).line == old(self).line
                    &&& r == Wait::Failed(WaitError::Read(reason))
                },
                ReadEvent::TimedOut(part) => {
                    &&& final(self).line@ == old(self).line@ + part@
                    &&& bounded(now as int, old(self).deadline as int, false, r)
                },
                ReadEvent::Line(part) => if trimmed(old(self).line@ + part@)
                    == HANDSHAKE_ANSWER@ {
                    &&& final(self).line@ == old(self).line@ + part@
                    &&& r == Wait::Completed
                } else {
                    &&& final(self).line@.len() == 0
                    &&& bounded(now as int, old(self).deadline as int, false, r)
                },
            },
    {
        match event {
            ReadEvent::Closed => {
                return Wait::Failed(WaitError::Closed);
            },
            ReadEvent::Failed(reason) => {
                return Wait::Failed(WaitError::Read(reason));
            },
            ReadEvent::TimedOut(part) => {
                self.line.append(part.as_str());
            },
            ReadEvent::Line(part) => {
                self.line.append(part.as_str());
                if same_text(trim(self.line.as_str()), HANDSHAKE_ANSWER) {
                    return Wait::Completed;
                }
                self.line = String::new();
            },
        }
        if now as u128 >= self.deadline {
            Wait::Failed(WaitError::DeadlinePassed)
        } else {
            Wait::Continue
        }
    }
}

} // verus!
