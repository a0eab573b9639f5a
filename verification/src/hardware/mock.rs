//! Simulated robot and conveyor. They record what they are told, in order.
use super::{Position, RobotError, WorkspaceLimits};
use crate::float::Float32;
use crate::orchestrator::RobotCommand;
use vstd::prelude::*;

verus! {

/// How long the simulated robot takes to connect, in milliseconds.
pub const CONNECT_MS: u64 = 500;

/// How long it takes to home.
pub const HOME_MS: u64 = 1000;

/// How long it takes to move.
pub const MOVE_MS: u64 = 100;

/// How long it takes to actuate the gripper.
pub const GRIPPER_MS: u64 = 50;

/// A command received by [`MockRobot`].
#[derive(Clone, Copy, Debug, PartialEq)]
pub enum MockRobotCommand {
    Connect,
    Home,
    MoveTo(Position),
    Gripper(bool),
    Stop,
}

pub struct MockRobot {
    pub connected: bool,
    pub current_pos: Position,
    pub limits: WorkspaceLimits,
    /// Ordered log of received commands.
    pub log: Vec<MockRobotCommand>,
}

/// The top of the workspace, where homing ends.
pub open spec fn home_position() -> Position {
    Position {
        x: Float32::nearest(0, 1),
        y: Float32::nearest(0, 1),
        z: Float32::nearest(0, 1),
    }
}

fn origin() -> (r: Position)
    ensures
        r == home_position(),
{
    Position { x: Float32::of(0), y: Float32::of(0), z: Float32::of(0) }
}

impl MockRobot {
    pub fn new() -> (r: MockRobot)
        ensures
            !r.connected,
            r.current_pos == home_position(),
            r.limits == WorkspaceLimits::delta_x2(),
            r.log@.len() == 0,
    {
        Self::with_limits(WorkspaceLimits::default())
    }

    pub fn with_limits(limits: WorkspaceLimits) -> (r: MockRobot)
        ensures
            !r.connected,
            r.current_pos == home_position(),
            r.limits == limits,
            r.log@.len() == 0,
    {
        MockRobot { connected: false, current_pos: origin(), limits, log: Vec::new() }
    }

    /// The commands received so far.
    pub fn command_log(&self) -> (r: &Vec<MockRobotCommand>)
        ensures
            *r == self.log,
    {
        &self.log
    }

    pub fn connect(&mut self) -> (r: Result<(), RobotError>)
        ensures
            r is Ok,
            final(self).connected,
            final(self).current_pos == old(self).current_pos,
            final(self).limits == old(self).limits,
            final(self).log@ == old(self).log@.push(MockRobotCommand::Connect),
    {
        self.connected = true;
        self.log.push(MockRobotCommand::Connect);
        Ok(())
    }

    pub fn home(&mut self) -> (r: Result<(), RobotError>)
        ensures
            r is Ok,
            final(self).connected == old(self).connected,
            final(self).current_pos == home_position(),
            final(self).limits == old(self).limits,
            final(self).log@ == old(self).log@.push(MockRobotCommand::Home),
    {
        self.current_pos = origin();
        self.log.push(MockRobotCommand::Home);
        Ok(())
    }

    /// A target outside the workspace is refused, and then nothing is
    /// recorded.
    pub fn move_to(&mut self, pos: Position) -> (r: Result<(), RobotError>)
        ensures
            final(self).connected == old(self).connected,
            final(self).limits == old(self).limits,
            if old(self).limits.holds(pos) {
                &&& r is Ok
                &&& final(self).current_pos == pos
                &&& final(self).log@ == old(self).log@.push(MockRobotCommand::MoveTo(pos))
            } else {
                &&& r == Err::<(), RobotError>(
                    RobotError::OutsideWorkspace { target: pos, limits: old(self).limits },
                )
                &&& final(self).current_pos == old(self).current_pos
                &&& final(self).log@ == old(self).log@
            },
    {
        if !self.limits.contains(pos) {
            return Err(RobotError::OutsideWorkspace { target: pos, limits: self.limits });
        }
        self.current_pos = pos;
        self.log.push(MockRobotCommand::MoveTo(pos));
        Ok(())
    }

    pub fn set_gripper(&mut self, on: bool) -> (r: Result<(), RobotError>)
        ensures
            r is Ok,
            final(self).connected == old(self).connected,
            final(self).current_pos == old(self).current_pos,
            final(self).limits == old(self).limits,
            final(self).log@ == old(self).log@.push(MockRobotCommand::Gripper(on)),
    {
        self.log.push(MockRobotCommand::Gripper(on));
        Ok(())
    }

    pub fn stop(&mut self) -> (r: Result<(), RobotError>)
        ensures
            r is Ok,
            final(self).connected == old(self).connected,
            final(self).current_pos == old(self).current_pos,
            final(self).limits == old(self).limits,
            final(self).log@ == old(self).log@.push(MockRobotCommand::Stop),
    {
        self.log.push(MockRobotCommand::Stop);
        Ok(())
    }

    /// Carries out one command of the orchestrator; a pause is none of the
    /// robot's business.
    pub fn execute(&mut self, cmd: RobotCommand) -> (r: Result<(), RobotError>)
        ensures
            final(self).connected == old(self).connected,
            final(self).limits == old(self).limits,
            match received(cmd) {
                None => {
                    &&& r is Ok
                    &&& final(self).log@ == old(self).log@
                    &&& final(self).current_pos == old(self).current_pos
                },
                Some(seen) => {
                    if obeys(old(self).limits, cmd) {
                        r is Ok && final(self).log@ == old(self).log@.push(seen)
                            && final(self).current_pos == place_after(old(self).current_pos, cmd)
                    } else {
                        r is Err && final(self).log@ == old(self).log@
                            && final(self).current_pos == old(self).current_pos
                    }
                },
            },
    {
        match cmd {
            RobotCommand::MoveTo(pos) => self.move_to(pos),
            RobotCommand::Gripper(on) => self.set_gripper(on),
            RobotCommand::Home => self.home(),
            RobotCommand::Wait(_) => Ok(()),
        }
    }
}

/// What the robot gets to see of a command.
pub open spec fn received(cmd: RobotCommand) -> Option<MockRobotCommand> {
    match cmd {
        RobotCommand::MoveTo(pos) => Some(MockRobotCommand::MoveTo(pos)),
        RobotCommand::Gripper(on) => Some(MockRobotCommand::Gripper(on)),
        RobotCommand::Home => Some(MockRobotCommand::Home),
        RobotCommand::Wait(_) => None,
    }
}

/// The command does not ask for a move outside `limits`.
pub open spec fn obeys(limits: WorkspaceLimits, cmd: RobotCommand) -> bool {
    cmd matches RobotCommand::MoveTo(pos) ==> limits.holds(pos)
}

pub open spec fn place_after(p: Position, cmd: RobotCommand) -> Position {
    match cmd {
        RobotCommand::MoveTo(pos) => pos,
        RobotCommand::Home => home_position(),
        _ => p,
    }
}

/// A robot that stands within its workspace, and homes to a point of it, does
/// so after every command that it obeys: where a move led, and at the origin
/// after homing. What it disobeys is a move, and one to a point outside.
pub proof fn law_mock_stays_inside(limits: WorkspaceLimits, p: Position, cmd: RobotCommand)
    requires
        limits.holds(p),
        limits.holds(home_position()),
    ensures
        obeys(limits, cmd) ==> limits.holds(place_after(p, cmd)),
        !obeys(limits, cmd) ==> cmd is MoveTo && !limits.holds(cmd->MoveTo_0),
        cmd matches RobotCommand::MoveTo(q) ==> place_after(p, cmd) == q,
        cmd is Gripper || cmd is Wait ==> place_after(p, cmd) == p,
        cmd is Home ==> {
            let q = place_after(p, cmd);
            q.x.exactly(0, 149) && q.y.exactly(0, 149) && q.z.exactly(0, 149)
        },
{
    Float32::law_integers_are_exact(0);
}

/// The robot gets to see every command but a pause, and can tell them apart.
pub proof fn law_mock_sees_what_it_is_told(a: RobotCommand, b: RobotCommand)
    ensures
        received(a) is None <==> a is Wait,
        a !is Wait && received(a) == received(b) ==> a == b,
{
}

/// A command received by [`MockConveyor`].
#[derive(Clone, Copy, Debug, PartialEq, Eq, Structural)]
pub enum MockConveyorCommand {
    Connect,
    Start(i32),
    Stop,
}

pub struct MockConveyor {
    pub running: bool,
    pub log: Vec<MockConveyorCommand>,
}

impl MockConveyor {
    pub fn new() -> (r: MockConveyor)
        ensures
            !r.running,
            r.log@.len() == 0,
    {
        MockConveyor { running: false, log: Vec::new() }
    }

    /// The commands received so far.
    pub fn command_log(&self) -> (r: &Vec<MockConveyorCommand>)
        ensures
            *r == self.log,
    {
        &self.log
    }

    pub fn connect(&mut self)
        ensures
            final(self).running == old(self).running,
            final(self).log@ == old(self).log@.push(MockConveyorCommand::Connect),
    {
        self.log.push(MockConveyorCommand::Connect);
    }

    pub fn start(&mut self, speed: i32)
        ensures
            final(self).running,
            final(self).log@ == old(self).log@.push(MockConveyorCommand::Start(speed)),
    {
        self.running = true;
        self.log.push(MockConveyorCommand::Start(speed));
    }

    pub fn stop(&mut self)
        ensures
            !final(self).running,
            final(self).log@ == old(self).log@.push(MockConveyorCommand::Stop),
    {
        self.running = false;
        self.log.push(MockConveyorCommand::Stop);
    }
}

} // verus!
