//! The conveyor: a belt with a G-code speed controller.
use super::delta::Halt;
use crate::text::{push_signed, signed_decimal, trim, trimmed};
use vstd::prelude::*;

verus! {

/// The conveyor is not connected.
#[derive(Clone, Copy, Debug, PartialEq, Eq, Structural)]
pub struct ConveyorNotConnected;

pub struct SerialConveyor {
    pub port_name: String,
    pub baud_rate: u32,
    /// The port is open, and so is the second handle for the emergency stop.
    pub connected: bool,
}

impl SerialConveyor {
    /// What writing `cmd` comes to.
    pub open spec fn sends(self, r: Result<String, ConveyorNotConnected>, cmd: Seq<char>) -> bool {
        match r {
            Ok(line) => self.connected && line@ == trimmed(cmd) + "\n"@,
            Err(_) => !self.connected,
        }
    }

    pub fn new(port_name: &str, baud_rate: u32) -> (r: SerialConveyor)
        ensures
            r.port_name@ == port_name@,
            r.baud_rate == baud_rate,
            !r.connected,
    {
        SerialConveyor { port_name: port_name.to_owned(), baud_rate, connected: false }
    }

    /// Both handles are open.
    pub fn attached(&mut self)
        ensures
            *final(self) == (SerialConveyor { connected: true, ..*old(self) }),
    {
        self.connected = true;
    }

    /// The line to write for a command.
    pub fn write_cmd(&self, cmd: &str) -> (r: Result<String, ConveyorNotConnected>)
        ensures
            self.sends(r, cmd@),
    {
        if self.connected {
            Ok(trim(cmd).to_owned().concat("\n"))
        } else {
            Err(ConveyorNotConnected)
        }
    }

    /// Run the belt at a raw S-value.
    pub fn start(&self, speed: i32) -> (r: Result<String, ConveyorNotConnected>)
        ensures
            self.sends(r, "M3 S"@ + signed_decimal(speed as int)),
    {
        let mut cmd = "M3 S".to_owned();
        push_signed(&mut cmd, speed as i64);
        self.write_cmd(cmd.as_str())
    }

    pub fn stop(&self) -> (r: Result<String, ConveyorNotConnected>)
        ensures
            self.sends(r, "M5"@),
    {
        self.write_cmd("M5")
    }

    /// The preemptive halt, available once connected.
    pub fn estop_handle(&self) -> (r: Option<Halt>)
        ensures
            match r {
                Some(halt) => self.connected && halt.command@ == "M5\n"@ && halt.label@
                    == "conveyor (M5)"@,
                None => !self.connected,
            },
    {
        if self.connected {
            Some(Halt { command: "M5\n", label: "conveyor (M5)" })
        } else {
            None
        }
    }
}

} // verus!
