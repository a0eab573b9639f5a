//! The Delta X2: which G-code a request becomes, and when it is refused.
use super::serial::{verdict, Verdict};
use super::{Position, RobotError, WorkspaceLimits};
use crate::float::Float32;
use crate::text::{
    decimal, digit, fixed_two, hundredths_of, push_decimal, push_fixed_two, trim, trimmed,
    trimmed_end, trimmed_start, white_space,
};
use vstd::arithmetic::div_mod::lemma_fundamental_div_mod;
use vstd::arithmetic::power2::{lemma_pow2_pos, pow2};
use vstd::prelude::*;

verus! {

/// Upper bound on how long a single G-code command (including the physical
/// move) may take, in nanoseconds.
pub const COMMAND_TIMEOUT: u64 = 30_000_000_000;

/// One command on its way to the robot.
#[derive(Debug)]
pub struct GcodeRequest {
    /// The bare command.
    pub command: String,
    /// The id that the robot echoes once the command has completed.
    pub feedback_id: String,
    /// What is written to the port.
    pub frame: String,
    /// The emergency-stop flag is to be cleared before the write: homing is
    /// what the firmware accepts after a halt.
    pub clears_estop: bool,
}

impl GcodeRequest {
    /// While the emergency stop is in force, nothing may be written but what
    /// ends it.
    pub open spec fn admitted(self, estopped: bool) -> bool {
        !estopped || self.clears_estop
    }

    /// Whether the request may be written.
    pub fn may_send(&self, estopped: bool) -> (r: bool)
        ensures
            r == self.admitted(estopped),
    {
        !estopped || self.clears_estop
    }
}

pub open spec fn feedback_id(n: nat) -> Seq<char> {
    "sync_"@ + decimal(n)
}

pub open spec fn framed(cmd: Seq<char>, id: Seq<char>) -> Seq<char> {
    cmd + " FEEDBACK:"@ + id + "\n"@
}

/// The request is command `cmd` with number `n`.
pub open spec fn is_request(r: GcodeRequest, cmd: Seq<char>, n: nat, clears_estop: bool) -> bool {
    &&& r.command@ == trimmed(cmd)
    &&& r.feedback_id@ == feedback_id(n)
    &&& r.frame@ == framed(trimmed(cmd), feedback_id(n))
    &&& r.clears_estop == clears_estop
}

/// A straight move, with two digits after the point.
pub open spec fn move_gcode(p: Position, feed_rate: nat) -> Seq<char> {
    "G01 X"@ + fixed_two(p.x) + " Y"@ + fixed_two(p.y) + " Z"@ + fixed_two(p.z) + " F"@ + decimal(
        feed_rate,
    )
}

/// A coordinate as it is written, in hundredths of a millimetre.
pub open spec fn written(x: Float32) -> int {
    if x.bits >= 0x8000_0000 {
        -(hundredths_of(x) as int)
    } else {
        hundredths_of(x) as int
    }
}

/// The halt that is written in an emergency, past all queues and locks.
#[derive(Clone, Copy, Debug)]
pub struct Halt {
    pub command: &'static str,
    pub label: &'static str,
}

pub struct DeltaX2 {
    pub port_name: String,
    pub baud_rate: u32,
    pub limits: WorkspaceLimits,
    pub feed_rate: u32,
    /// How many commands have been sent.
    pub cmd_seq: u64,
    /// The port is open, and so is the second handle for the emergency stop.
    pub connected: bool,
    /// When true the E-stop halt opens the gripper (M05) just before M112.
    pub release_gripper_on_estop: bool,
}

impl DeltaX2 {
    /// Everything but the number of commands sent is as in `other`.
    pub open spec fn same_but_count(self, other: DeltaX2) -> bool {
        self == (DeltaX2 { cmd_seq: self.cmd_seq, ..other })
    }

    /// What sending `cmd` comes to: a numbered request where the robot is
    /// connected, and a refusal that leaves no trace where it is not.
    pub open spec fn sends(
        self,
        next: DeltaX2,
        r: Result<GcodeRequest, RobotError>,
        cmd: Seq<char>,
        clears_estop: bool,
    ) -> bool {
        if self.connected {
            &&& r matches Ok(request) && is_request(
                request,
                cmd,
                (self.cmd_seq + 1) as nat,
                clears_estop,
            )
            &&& next.cmd_seq == self.cmd_seq + 1
            &&& next.same_but_count(self)
        } else {
            r == Err::<GcodeRequest, RobotError>(RobotError::NotConnected) && next == self
        }
    }

    pub fn new(
        port_name: &str,
        baud_rate: u32,
        limits: WorkspaceLimits,
        feed_rate: u32,
        release_gripper_on_estop: bool,
    ) -> (r: DeltaX2)
        ensures
            r.port_name@ == port_name@,
            r.baud_rate == baud_rate,
            r.limits == limits,
            r.feed_rate == feed_rate,
            r.cmd_seq == 0,
            !r.connected,
            r.release_gripper_on_estop == release_gripper_on_estop,
    {
        DeltaX2 {
            port_name: port_name.to_owned(),
            baud_rate,
            limits,
            feed_rate,
            cmd_seq: 0,
            connected: false,
            release_gripper_on_estop,
        }
    }

    fn request(&mut self, cmd: &str, clears_estop: bool) -> (r: Result<GcodeRequest, RobotError>)
        requires
            old(self).cmd_seq < u64::MAX,
        ensures
            old(self).sends(*final(self), r, cmd@, clears_estop),
    {
        if !self.connected {
            return Err(RobotError::NotConnected);
        }
        self.cmd_seq = self.cmd_seq + 1;
        let mut feedback_id = "sync_".to_owned();
        push_decimal(&mut feedback_id, self.cmd_seq as u128);
        let command = trim(cmd).to_owned();
        let frame = command.clone().concat(" FEEDBACK:").concat(feedback_id.as_str()).concat("\n");
        Ok(GcodeRequest { command, feedback_id, frame, clears_estop })
    }

    /// One G-code command, to be written and its completion awaited.
    pub fn write_gcode(&mut self, cmd: &str) -> (r: Result<GcodeRequest, RobotError>)
        requires
            old(self).cmd_seq < u64::MAX,
        ensures
            old(self).sends(*final(self), r, cmd@, false),
    {
        self.request(cmd, false)
    }

    /// The handshake has been answered and both handles are open.
    pub fn attached(&mut self)
        ensures
            *final(self) == (DeltaX2 { connected: true, ..*old(self) }),
    {
        self.connected = true;
    }

    /// The last step of connecting: absolute positioning, before any move can
    /// be issued. Every move and the workspace check assume it.
    pub fn connect(&mut self) -> (r: Result<GcodeRequest, RobotError>)
        requires
            old(self).cmd_seq < u64::MAX,
        ensures
            old(self).sends(*final(self), r, "G90"@, false),
    {
        self.request("G90", false)
    }

    /// The next command of homing once `done` of them have completed: G28,
    /// then absolute positioning again, then none.
    pub fn home(&mut self, done: usize) -> (r: Result<Option<GcodeRequest>, RobotError>)
        requires
            old(self).cmd_seq < u64::MAX,
        ensures
            done >= 2 ==> r == Ok::<Option<GcodeRequest>, RobotError>(None) && *final(self)
                == *old(self),
            done < 2 ==> {
                &&& r matches Ok(o) ==> o is Some
                &&& old(self).sends(
                    *final(self),
                    match r {
                        Ok(o) => Ok(o->0),
                        Err(e) => Err(e),
                    },
                    if done == 0 {
                        "G28"@
                    } else {
                        "G90"@
                    },
                    done == 0,
                )
            },
    {
        if done == 0 {
            match self.request("G28", true) {
                Ok(request) => Ok(Some(request)),
                Err(e) => Err(e),
            }
        } else if done == 1 {
            match self.request("G90", false) {
                Ok(request) => Ok(Some(request)),
                Err(e) => Err(e),
            }
        } else {
            Ok(None)
        }
    }

    /// A target outside the workspace is refused before the port is looked
    /// at, so it can never reach the hardware.
    pub fn move_to(&mut self, pos: Position) -> (r: Result<GcodeRequest, RobotError>)
        requires
            old(self).cmd_seq < u64::MAX,
        ensures
            if old(self).limits.holds(pos) {
                old(self).sends(
                    *final(self),
                    r,
                    move_gcode(pos, old(self).feed_rate as nat),
                    false,
                )
            } else {
                &&& r == Err::<GcodeRequest, RobotError>(
                    RobotError::OutsideWorkspace { target: pos, limits: old(self).limits },
                )
                &&& *final(self) == *old(self)
            },
    {
        if !self.limits.contains(pos) {
            return Err(RobotError::OutsideWorkspace { target: pos, limits: self.limits });
        }
        let mut cmd = "G01 X".to_owned();
        push_fixed_two(&mut cmd, pos.x);
        cmd.append(" Y");
        push_fixed_two(&mut cmd, pos.y);
        cmd.append(" Z");
        push_fixed_two(&mut cmd, pos.z);
        cmd.append(" F");
        push_decimal(&mut cmd, self.feed_rate as u128);
        self.request(cmd.as_str(), false)
    }

    pub fn set_gripper(&mut self, on: bool) -> (r: Result<GcodeRequest, RobotError>)
        requires
            old(self).cmd_seq < u64::MAX,
        ensures
            old(self).sends(
                *final(self),
                r,
                if on {
                    "M03"@
                } else {
                    "M05"@
                },
                false,
            ),
    {
        let cmd = if on {
            "M03"
        } else {
            "M05"
        };
        self.request(cmd, false)
    }

    /// The programmatic halt: written without waiting for anything.
    pub fn stop(&self) -> (r: Result<&'static str, RobotError>)
        ensures
            match r {
                Ok(text) => self.connected && text@ == "M112\n"@,
                Err(e) => !self.connected && e == RobotError::NotConnected,
            },
    {
        if self.connected {
            Ok("M112\n")
        } else {
            Err(RobotError::NotConnected)
        }
    }

    /// The preemptive halt, available once connected. The gripper opens as
    /// part of the same write where that is configured, for after M112 the
    /// firmware would ignore it.
    pub fn estop_handle(&self) -> (r: Option<Halt>)
        ensures
            match r {
                Some(halt) => {
                    &&& self.connected
                    &&& halt.command@ == if self.release_gripper_on_estop {
                        "M05\nM112\n"@
                    } else {
                        "M112\n"@
                    }
                    &&& halt.label@ == if self.release_gripper_on_estop {
                        "robot (M05+M112)"@
                    } else {
                        "robot (M112)"@
                    }
                },
                None => !self.connected,
            },
    {
        if !self.connected {
            None
        } else if self.release_gripper_on_estop {
            Some(Halt { command: "M05\nM112\n", label: "robot (M05+M112)" })
        } else {
            Some(Halt { command: "M112\n", label: "robot (M112)" })
        }
    }
}

proof fn lemma_written(x: Float32, low: int, high: int)
    requires
        -0x1_0000 < low <= 0 <= high < 0x1_0000,
        Float32::nearest(low, 1).at_most(x),
        x.at_most(Float32::nearest(high, 1)),
    ensures
        100 * low <= written(x) <= 100 * high,
{
    let u = pow2(149);
    reveal(hundredths_of);
    lemma_pow2_pos(149);
    Float32::law_integers_are_exact(low);
    Float32::law_integers_are_exact(high);
    Float32::law_order_is_value(Float32::nearest(low, 1), x);
    Float32::law_order_is_value(x, Float32::nearest(high, 1));
    let top = if x.bits >= 0x8000_0000 {
        -low
    } else {
        high
    };
    assert(-(low * u) == (-low) * u) by (nonlinear_arith);
    assert(x.size() <= top * u);
    let n = 100 * x.size();
    let q = n / u;
    lemma_fundamental_div_mod(n as int, u as int);
    assert(q < 100 * top || (q == 100 * top && n % u == 0)) by (nonlinear_arith)
        requires
            n == u * q + n % u,
            0 <= n % u < u,
            n <= 100 * (top * u),
            u > 0,
    ;
}

/// A move within the physical envelope is also written within it: rounding to
/// two digits never leads outside.
pub proof fn law_written_move_stays_in_the_envelope(p: Position)
    requires
        WorkspaceLimits::delta_x2().holds(p),
    ensures
        -16_000 <= written(p.x) <= 16_000,
        -16_000 <= written(p.y) <= 16_000,
        -20_000 <= written(p.z) <= 0,
{
    lemma_written(p.x, -160, 160);
    lemma_written(p.y, -160, 160);
    lemma_written(p.z, -200, 0);
}

proof fn lemma_digit(d: nat)
    requires
        d < 10,
    ensures
        !white_space(digit(d)),
        forall|e: nat| e < 10 && #[trigger] digit(e) == digit(d) ==> e == d,
{
}

proof fn lemma_decimal_last(n: nat)
    ensures
        decimal(n).len() > 0,
        decimal(n).last() == digit(n % 10),
{
}

/// Different numbers are written differently.
pub proof fn law_decimal_is_injective(a: nat, b: nat)
    requires
        decimal(a) == decimal(b),
    ensures
        a == b,
    decreases a,
{
    lemma_decimal_last(a);
    lemma_decimal_last(b);
    lemma_digit(a % 10);
    lemma_digit(b % 10);
    assert(a % 10 == b % 10);
    if a < 10 && b < 10 {
    } else if a < 10 {
        lemma_decimal_last(b / 10);
        assert(decimal(b).len() > 1);
    } else if b < 10 {
        lemma_decimal_last(a / 10);
        assert(decimal(a).len() > 1);
    } else {
        assert(decimal(a).drop_last() =~= decimal(a / 10));
        assert(decimal(b).drop_last() =~= decimal(b / 10));
        law_decimal_is_injective(a / 10, b / 10);
    }
}

proof fn lemma_line_trims(n: nat)
    ensures
        trimmed(feedback_id(n) + "\n"@) == feedback_id(n),
{
    reveal_strlit("sync_");
    reveal_strlit("\n");
    let id = feedback_id(n);
    let line = id + "\n"@;
    lemma_decimal_last(n);
    lemma_digit(n % 10);
    assert(line[0] == 's');
    assert(trimmed_start(line) == line);
    assert(line.last() == '\n');
    assert(line.drop_last() =~= id);
    assert(id.last() == digit(n % 10));
    assert(trimmed_end(id) == id);
}

/// No two commands share an id.
pub proof fn law_ids_are_never_shared(n: nat, k: nat)
    requires
        feedback_id(n) == feedback_id(k),
    ensures
        n == k,
{
    let skip = "sync_"@.len() as int;
    assert(feedback_id(k).skip(skip) =~= decimal(k));
    assert(feedback_id(n).skip(skip) =~= decimal(n));
    law_decimal_is_injective(n, k);
}

/// While the emergency stop is in force, of all that the robot can be asked
/// only the first command of homing is written: the one that ends it.
pub proof fn law_only_homing_is_sent_while_stopped(
    robot: DeltaX2,
    next: DeltaX2,
    r: Result<GcodeRequest, RobotError>,
    cmd: Seq<char>,
    clears_estop: bool,
)
    requires
        robot.sends(next, r, cmd, clears_estop),
    ensures
        r matches Ok(request) ==> request.admitted(true) == clears_estop && request.admitted(
            false,
        ),
{
}

/// The echo of a command's own id completes it, and the late echo of another
/// command's id does not.
pub proof fn law_only_its_own_echo_completes(n: nat, k: nat)
    ensures
        verdict(feedback_id(n) + "\n"@, feedback_id(n)) == Verdict::Completed,
        k != n ==> verdict(feedback_id(k) + "\n"@, feedback_id(n)) != Verdict::Completed,
{
    lemma_line_trims(n);
    lemma_line_trims(k);
    if feedback_id(k) == feedback_id(n) {
        law_ids_are_never_shared(n, k);
    }
}

/// A line that comes in pieces is read as if it had come whole.
pub proof fn law_split_line_reads_whole(
    line: Seq<char>,
    first: Seq<char>,
    second: Seq<char>,
    id: Seq<char>,
)
    ensures
        verdict((line + first) + second, id) == verdict(line + (first + second), id),
{
    assert((line + first) + second =~= line + (first + second));
}

} // verus!
