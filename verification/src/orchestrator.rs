//! Turns detections into robot motion, and decides what the robot is told
//! next.
use crate::app_config::{distinct_classes, lists, AppConfig};
use crate::float::Float32;
use crate::hardware::{between, Position, WorkspaceLimits};
use crate::text::same_text;
use crate::vision::{ClassName, DetectedObject};
use std::collections::VecDeque;
use vstd::prelude::*;

verus! {

/// Maximum age of a detection, in nanoseconds, before its pick is discarded:
/// after this long the belt has carried the object away from the detected
/// position.
pub const PICK_TTL: u64 = 3_000_000_000;

/// How long suction is given to settle, in milliseconds.
pub const GRIP_SETTLE_MS: u64 = 150;

#[derive(Clone, Copy, Debug, PartialEq)]
pub enum RobotCommand {
    MoveTo(Position),
    Gripper(bool),
    Home,
    /// A pause, in milliseconds.
    Wait(u64),
}

/// Everything the rest of the system (UI, vision loop) may ask of the
/// orchestrator.
#[derive(Debug)]
pub enum OrchestratorMsg {
    /// Schedule a full pick-and-place sequence for a detected object.
    Pick(DetectedObject),
    /// Recovery/operator homing: runs even while paused and takes priority
    /// over the queue.
    Home,
    /// Operator gripper toggle. Runs even while paused.
    SetGripper(bool),
    Pause,
    Resume,
    /// Clear the queue and whatever the operator had asked for, and pause.
    /// The hardware halt itself is done by the caller; this message makes sure
    /// no further commands are fed to the robot.
    EStop,
    /// Graceful shutdown: finish the command in flight, park the robot, then
    /// stop the loop.
    Shutdown,
}

/// Confirmed orchestrator state.
#[derive(Clone, Copy, Debug, PartialEq, Eq, Structural)]
pub enum OrchestratorState {
    /// Not executing picks; Resume will begin sorting.
    Paused,
    /// Executing queued commands and accepting picks.
    Running,
    /// E-stop happened: paused, and Resume is refused until a Home succeeds.
    EStopped,
}

/// One pick-and-place as an atomic group: its commands plus the expiry of the
/// detection that produced it.
#[derive(Debug)]
pub struct PickSequence {
    pub object_id: u64,
    /// The instant, in nanoseconds, from which the group must not start.
    pub expiry: u128,
    pub started: bool,
    pub steps: VecDeque<RobotCommand>,
}

/// What a pick sequence holds.
pub struct Group {
    pub object_id: u64,
    pub expiry: int,
    pub started: bool,
    pub steps: Seq<RobotCommand>,
}

impl View for PickSequence {
    type V = Group;

    open spec fn view(&self) -> Group {
        Group {
            object_id: self.object_id,
            expiry: self.expiry as int,
            started: self.started,
            steps: self.steps@,
        }
    }
}

impl PickSequence {
    /// A group that has not started.
    pub fn new(object_id: u64, expiry: u128, commands: Vec<RobotCommand>) -> (r: PickSequence)
        ensures
            r@ == (Group { object_id, expiry: expiry as int, started: false, steps: commands@ }),
    {
        let mut steps: VecDeque<RobotCommand> = VecDeque::new();
        let mut i: usize = 0;
        while i < commands.len()
            invariant
                i <= commands.len(),
                steps@ == commands@.take(i as int),
            decreases commands.len() - i,
        {
            steps.push_back(commands[i]);
            assert(commands@.take(i + 1) =~= commands@.take(i as int).push(commands@[i as int]));
            i = i + 1;
        }
        assert(commands@.take(i as int) =~= commands@);
        PickSequence { object_id, expiry, started: false, steps }
    }
}

/// The group has commands left, and has started or may still start.
pub open spec fn live(g: Group, now: int) -> bool {
    g.steps.len() > 0 && (g.started || now < g.expiry)
}

/// How many groups at the front are not live.
pub open spec fn dead_prefix(q: Seq<Group>, now: int) -> int
    decreases q.len(),
{
    if q.len() == 0 || live(q[0], now) {
        0
    } else {
        1 + dead_prefix(q.drop_first(), now)
    }
}

/// A group whose next command has been taken.
pub open spec fn advanced(g: Group) -> Group {
    Group { started: true, steps: g.steps.drop_first(), ..g }
}

/// The next command at `now`: the first one of the first live group.
pub open spec fn next_of(q: Seq<Group>, now: int) -> Option<RobotCommand> {
    let k = dead_prefix(q, now);
    if k < q.len() {
        Some(q[k].steps[0])
    } else {
        None
    }
}

/// The queue once that command has been taken: the groups before are gone.
pub open spec fn rest_of(q: Seq<Group>, now: int) -> Seq<Group> {
    let k = dead_prefix(q, now);
    if k < q.len() {
        q.skip(k).update(0, advanced(q[k]))
    } else {
        Seq::empty()
    }
}

/// Total pending commands.
pub open spec fn pending(q: Seq<Group>) -> int
    decreases q.len(),
{
    if q.len() == 0 {
        0
    } else {
        pending(q.drop_last()) + q.last().steps.len()
    }
}

#[derive(Debug)]
pub struct InstructionQueue {
    pub groups: VecDeque<PickSequence>,
}

impl View for InstructionQueue {
    type V = Seq<Group>;

    open spec fn view(&self) -> Seq<Group> {
        self.groups@.map_values(|g: PickSequence| g@)
    }
}

impl InstructionQueue {
    pub fn new() -> (r: InstructionQueue)
        ensures
            r@ == Seq::<Group>::empty(),
    {
        let r = InstructionQueue { groups: VecDeque::new() };
        assert(r@ =~= Seq::empty());
        r
    }

    pub fn push_sequence(&mut self, seq: PickSequence)
        ensures
            final(self)@ == old(self)@.push(seq@),
    {
        self.groups.push_back(seq);
        assert(self@ =~= old(self)@.push(seq@));
    }

    pub fn clear(&mut self)
        ensures
            final(self)@ == Seq::<Group>::empty(),
    {
        self.groups.clear();
        assert(self@ =~= Seq::empty());
    }

    /// Total pending commands across all groups.
    pub fn len(&self) -> (r: usize)
        requires
            pending(self@) <= usize::MAX,
        ensures
            r == pending(self@),
    {
        let mut total: usize = 0;
        let mut i: usize = 0;
        while i < self.groups.len()
            invariant
                i <= self.groups.len(),
                pending(self@) <= usize::MAX,
                total == pending(self@.take(i as int)),
            decreases self.groups.len() - i,
        {
            proof {
                assert(self@.take(i + 1).drop_last() =~= self@.take(i as int));
                lemma_pending_prefix(self@, i + 1);
            }
            total = total + self.groups[i].steps.len();
            i = i + 1;
        }
        assert(self@.take(i as int) =~= self@);
        total
    }

    pub fn is_empty(&self) -> (r: bool)
        ensures
            r == (self@.len() == 0),
    {
        self.groups.len() == 0
    }

    /// The next command to execute at `now` (nanoseconds), dropping any
    /// not-yet-started group whose expiry has passed. A group already in
    /// flight is never dropped, even if it expires mid-sequence.
    pub fn next_command(&mut self, now: u64) -> (r: Option<RobotCommand>)
        ensures
            r == next_of(old(self)@, now as int),
            final(self)@ == rest_of(old(self)@, now as int),
    {
        let ghost start = self@;
        let ghost k: int = 0;
        assert(start.skip(0) =~= start);
        while self.groups.len() > 0
            invariant
                0 <= k <= start.len(),
                self@ == start.skip(k),
                dead_prefix(start, now as int) == k + dead_prefix(self@, now as int),
                start == old(self)@,
            decreases self.groups.len(),
        {
            let ghost before = self@;
            let ghost groups = self.groups@;
            let popped = self.groups.pop_front();
            assert(self@ =~= before.drop_first());
            let mut front = match popped {
                Some(g) => g,
                None => {
                    return None;
                },
            };
            assert(front@ == before[0]);
            if front.started || (now as u128) < front.expiry {
                match front.steps.pop_front() {
                    Some(cmd) => {
                        front.started = true;
                        assert(front@ == advanced(before[0]));
                        self.groups.push_front(front);
                        assert(self@ =~= before.update(0, advanced(before[0])));
                        assert(dead_prefix(start, now as int) == k);
                        assert(start.skip(k)[0] == start[k]);
                        return Some(cmd);
                    },
                    None => {},
                }
            }
            proof {
                assert(!live(before[0], now as int));
                assert(start.skip(k).drop_first() =~= start.skip(k + 1));
                k = k + 1;
            }
        }
        assert(self@ =~= Seq::empty());
        proof {
            assert(dead_prefix(start, now as int) == start.len());
        }
        None
    }
}

proof fn lemma_pending_prefix(q: Seq<Group>, n: int)
    requires
        0 <= n <= q.len(),
    ensures
        0 <= pending(q.take(n)) <= pending(q),
    decreases q.len() - n,
{
    lemma_pending_not_negative(q.take(n));
    if n < q.len() {
        lemma_pending_prefix(q, n + 1);
        assert(q.take(n + 1).drop_last() =~= q.take(n));
    } else {
        assert(q.take(n) =~= q);
    }
}

proof fn lemma_pending_not_negative(q: Seq<Group>)
    ensures
        pending(q) >= 0,
    decreases q.len(),
{
    if q.len() > 0 {
        lemma_pending_not_negative(q.drop_last());
    }
}

// --- Trajectory planning ---

pub struct TrajectoryPlanner {
    pub robot_speed_mm_s: Float32,
    /// Signed belt speed in robot coordinates: positive means objects travel
    /// toward +Y.
    pub conveyor_speed_mm_s: Float32,
    /// Y coordinate of the line where picks happen.
    pub pick_line_y: Float32,
}

impl TrajectoryPlanner {
    /// Time until the belt carries `y` to the pick line; negative once it is
    /// past.
    pub open spec fn time_to_line(self, y: Float32) -> Float32 {
        self.pick_line_y.difference(y).quotient(self.conveyor_speed_mm_s)
    }

    /// Time the robot takes from `from` to the pick line at `x`.
    pub open spec fn robot_time(self, from: Position, x: Float32) -> Float32 {
        let dx = x.difference(from.x);
        let dy = self.pick_line_y.difference(from.y);
        dx.product(dx).sum(dy.product(dy)).root().quotient(self.robot_speed_mm_s)
    }

    /// The point where an object at `pos` crosses the pick line, where the
    /// belt runs, the object is still to come, and the robot is there first.
    pub open spec fn intercept(
        self,
        from: Position,
        pos: Option<Position>,
    ) -> Option<(Float32, Float32)> {
        let zero = Float32::nearest(0, 1);
        match pos {
            Some(p) => {
                let t = self.time_to_line(p.y);
                if self.conveyor_speed_mm_s.equals(zero) || t.at_most(zero)
                    || !self.robot_time(from, p.x).below(t) {
                    None
                } else {
                    Some((p.x, self.pick_line_y))
                }
            },
            None => None,
        }
    }

    pub fn new(conveyor_speed_mm_s: Float32, robot_speed_mm_s: Float32) -> (r: TrajectoryPlanner)
        ensures
            r == (TrajectoryPlanner {
                robot_speed_mm_s,
                conveyor_speed_mm_s,
                pick_line_y: Float32::nearest(0, 1),
            }),
    {
        TrajectoryPlanner { robot_speed_mm_s, conveyor_speed_mm_s, pick_line_y: Float32::of(0) }
    }

    /// Predict where the object crosses the pick line and whether the robot
    /// can be there in time. Returns the intercept as `(x, y)` in robot mm;
    /// the pick height always comes from configuration. Returns None when the
    /// object is moving away from (or already past) the pick line, or is
    /// unreachable in time.
    pub fn calculate_intercept(
        &self,
        robot_pos: Position,
        object: &DetectedObject,
    ) -> (r: Option<(Float32, Float32)>)
        ensures
            r == self.intercept(robot_pos, object.world_pos),
    {
        let pos = match object.world_pos {
            Some(p) => p,
            None => {
                return None;
            },
        };
        let zero = Float32::of(0);
        if self.conveyor_speed_mm_s == zero {
            return None;
        }
        let time_to_line = self.pick_line_y.minus(pos.y).over(self.conveyor_speed_mm_s);
        if time_to_line.le(zero) {
            // Already past the pick line (or moving the wrong way).
            return None;
        }
        // The belt only moves along Y, so X is unchanged at intercept.
        let dx = pos.x.minus(robot_pos.x);
        let dy = self.pick_line_y.minus(robot_pos.y);
        let robot_time = dx.times(dx).plus(dy.times(dy)).sqrt().over(self.robot_speed_mm_s);
        if robot_time.lt(time_to_line) {
            Some((pos.x, self.pick_line_y))
        } else {
            None
        }
    }
}

// --- The orchestrator ---

pub struct Orchestrator {
    pub queue: InstructionQueue,
    pub paused: bool,
    /// Set by EStop; cleared only by a successful Home. While set, Resume is
    /// refused.
    pub needs_home: bool,
    /// A Home was requested; executed with priority, even while paused.
    pub pending_home: bool,
    /// A manual gripper toggle was requested; executed best-effort, even
    /// while paused.
    pub pending_gripper: Option<bool>,
    /// Set by `Shutdown`: the loop parks the robot and exits at the next turn.
    pub shutting_down: bool,
    /// Last position successfully commanded, so shutdown can raise straight up
    /// to z_travel without guessing X/Y.
    pub last_pos: Option<Position>,
    pub planner: TrajectoryPlanner,
    pub limits: WorkspaceLimits,
    pub z_travel: Float32,
    pub z_pick: Float32,
    /// Drop position per recognised class. A pick is scheduled only for a
    /// class present here.
    pub class_drops: Vec<(ClassName, Position)>,
    /// Whether picks declined for a retryable reason are told about.
    pub reports_declines: bool,
}

/// What a message or the end of a command leads to outside.
#[derive(Debug)]
pub struct Reaction {
    /// The state to publish, where one is due.
    pub publish: Option<OrchestratorState>,
    /// An object whose pick went stale while it may still be on the belt, to
    /// be emitted again.
    pub declined: Option<u64>,
    /// A concise failure message for the operator.
    pub error: Option<String>,
    /// The gripper is to be released, best-effort, before anything else.
    pub release_gripper: bool,
}

/// What the run loop does next.
#[derive(Debug)]
pub enum Action {
    /// Carry out these commands, each best-effort, and leave the loop.
    Park(Vec<RobotCommand>),
    /// Home the robot.
    Home,
    /// Actuate the gripper, best-effort.
    Gripper(bool),
    /// Block until the next message; leave the loop when there can be none.
    AwaitMessage,
    /// Carry out this command.
    Execute(RobotCommand),
    /// Nothing was left to carry out: look again.
    Again,
}

/// What changes while an orchestrator works.
pub struct Flow {
    pub queue: Seq<Group>,
    pub paused: bool,
    pub needs_home: bool,
    pub pending_home: bool,
    pub pending_gripper: Option<bool>,
    pub shutting_down: bool,
    pub last_pos: Option<Position>,
}

/// What an orchestrator is set up with.
pub struct Setup {
    pub limits: WorkspaceLimits,
    pub z_travel: Float32,
    pub z_pick: Float32,
    pub drops: Map<Seq<char>, Position>,
    pub reports_declines: bool,
}

impl Flow {
    pub open spec fn state(self) -> OrchestratorState {
        if self.needs_home {
            OrchestratorState::EStopped
        } else if self.paused {
            OrchestratorState::Paused
        } else {
            OrchestratorState::Running
        }
    }
}

/// The detection is older than a pick may be.
pub open spec fn stale(object: DetectedObject, now: int) -> bool {
    now - object.seen_at > PICK_TTL
}

/// The commands of one pick-and-place.
pub open spec fn pick_steps(
    travel: Position,
    pick: Position,
    drop: Position,
) -> Seq<RobotCommand> {
    seq![
        RobotCommand::MoveTo(travel),
        RobotCommand::MoveTo(pick),
        RobotCommand::Gripper(true),
        RobotCommand::Wait(GRIP_SETTLE_MS),
        RobotCommand::MoveTo(travel),
        RobotCommand::MoveTo(drop),
        RobotCommand::Gripper(false),
    ]
}

impl Setup {
    /// Where an object is picked, at pick height.
    pub open spec fn pick_point(self, p: Position) -> Position {
        Position { x: p.x, y: p.y, z: self.z_pick }
    }

    /// The point above it, at travel height.
    pub open spec fn travel_point(self, p: Position) -> Position {
        Position { x: p.x, y: p.y, z: self.z_travel }
    }

    /// The object is to be picked: it is fresh, placed, of a class that has a
    /// bin, and within reach.
    pub open spec fn accepts(self, object: DetectedObject, now: int) -> bool {
        &&& !stale(object, now)
        &&& object.world_pos is Some
        &&& object.class is Some
        &&& self.drops.contains_key(object.class->0@)
        &&& self.limits.holds(self.pick_point(object.world_pos->0))
        &&& self.limits.holds(self.travel_point(object.world_pos->0))
    }

    /// The group that picks an accepted object.
    pub open spec fn group_for(self, object: DetectedObject) -> Group {
        let p = object.world_pos->0;
        Group {
            object_id: object.id,
            expiry: object.seen_at + PICK_TTL,
            started: false,
            steps: pick_steps(
                self.travel_point(p),
                self.pick_point(p),
                self.drops[object.class->0@],
            ),
        }
    }

    /// The flow after a pick was asked for.
    pub open spec fn after_pick(self, f: Flow, object: DetectedObject, now: int) -> Flow {
        if self.accepts(object, now) {
            Flow { queue: f.queue.push(self.group_for(object)), ..f }
        } else {
            f
        }
    }

    /// The object whose pick is declined for a retryable reason.
    pub open spec fn declines(self, object: DetectedObject, now: int) -> Option<u64> {
        if stale(object, now) && self.reports_declines {
            Some(object.id)
        } else {
            None
        }
    }

    /// The flow after a message.
    pub open spec fn after_message(self, f: Flow, msg: OrchestratorMsg, now: int) -> Flow {
        match msg {
            OrchestratorMsg::Pick(object) => if f.paused {
                f
            } else {
                self.after_pick(f, object, now)
            },
            OrchestratorMsg::Home => Flow { pending_home: true, ..f },
            OrchestratorMsg::SetGripper(on) => Flow { pending_gripper: Some(on), ..f },
            OrchestratorMsg::Pause => Flow { paused: true, ..f },
            OrchestratorMsg::Resume => if f.needs_home {
                f
            } else {
                Flow { paused: false, ..f }
            },
            OrchestratorMsg::Shutdown => Flow { shutting_down: true, ..f },
            OrchestratorMsg::EStop => Flow {
                queue: Seq::empty(),
                paused: true,
                needs_home: true,
                pending_home: false,
                pending_gripper: None,
                ..f
            },
        }
    }

    /// What a message leads to outside.
    pub open spec fn reaction_to(
        self,
        f: Flow,
        msg: OrchestratorMsg,
        now: int,
        r: Reaction,
    ) -> bool {
        &&& r.error is None
        &&& !r.release_gripper
        &&& r.declined == match msg {
            OrchestratorMsg::Pick(object) => if f.paused {
                None
            } else {
                self.declines(object, now)
            },
            _ => None,
        }
        &&& r.publish == match msg {
            OrchestratorMsg::Pause | OrchestratorMsg::Resume | OrchestratorMsg::EStop => Some(
                self.after_message(f, msg, now).state(),
            ),
            _ => None,
        }
    }

    /// The commands that leave the robot safe: the gripper released, and the
    /// arm raised where its place is known. None while E-stopped, when the
    /// robot ignores commands.
    pub open spec fn parking(self, f: Flow) -> Seq<RobotCommand> {
        if f.needs_home {
            Seq::empty()
        } else {
            match f.last_pos {
                Some(p) => seq![
                    RobotCommand::Gripper(false),
                    RobotCommand::MoveTo(self.travel_point(p)),
                ],
                None => seq![RobotCommand::Gripper(false)],
            }
        }
    }
}

/// The flow once the next action has been taken on.
pub open spec fn after_action(f: Flow, now: int) -> Flow {
    if f.shutting_down {
        f
    } else if f.pending_home {
        Flow { pending_home: false, ..f }
    } else if f.pending_gripper is Some {
        Flow { pending_gripper: None, ..f }
    } else if f.paused || f.queue.len() == 0 {
        f
    } else {
        Flow { queue: rest_of(f.queue, now), ..f }
    }
}

impl Setup {
    /// The next action: shutdown before homing before the gripper before the
    /// queue, which is only served while running.
    pub open spec fn is_next(self, f: Flow, now: int, a: Action) -> bool {
        if f.shutting_down {
            a matches Action::Park(commands) && commands@ == self.parking(f)
        } else if f.pending_home {
            a == Action::Home
        } else if f.pending_gripper is Some {
            a == Action::Gripper(f.pending_gripper->0)
        } else if f.paused || f.queue.len() == 0 {
            a == Action::AwaitMessage
        } else {
            match next_of(f.queue, now) {
                Some(cmd) => a == Action::Execute(cmd),
                None => a == Action::Again,
            }
        }
    }
}

/// The flow after a homing came to its end.
pub open spec fn after_home(f: Flow, succeeded: bool) -> Flow {
    if succeeded {
        Flow { needs_home: false, ..f }
    } else {
        f
    }
}

/// The flow after a queued command came to its end: a failure clears the
/// queue and pauses.
pub open spec fn after_command(f: Flow, cmd: RobotCommand, succeeded: bool) -> Flow {
    if succeeded {
        match cmd {
            RobotCommand::MoveTo(pos) => Flow { last_pos: Some(pos), ..f },
            _ => f,
        }
    } else {
        Flow { queue: Seq::empty(), paused: true, ..f }
    }
}

/// A failed command is followed by the release of the gripper, for the release
/// in the queue is gone with it; but not once the emergency stop has fired,
/// after which the robot takes nothing until it is homed.
pub open spec fn releases(succeeded: bool, halted: bool) -> bool {
    !succeeded && !halted
}

/// What every command in the queue is held to.
pub open spec fn moves_within(limits: WorkspaceLimits, steps: Seq<RobotCommand>) -> bool {
    forall|i: int| #![trigger steps[i]]
        0 <= i < steps.len() ==> (steps[i] matches RobotCommand::MoveTo(p) ==> limits.holds(p))
}

impl Setup {
    /// The set-up cannot lead a move outside the workspace.
    pub open spec fn safe(self) -> bool {
        &&& between(self.limits.z_min, self.z_travel, self.limits.z_max)
        &&& forall|c: Seq<char>| #[trigger]
            self.drops.contains_key(c) ==> self.limits.holds(self.drops[c])
    }

    /// Neither can anything that is under way.
    pub open spec fn safe_flow(self, f: Flow) -> bool {
        &&& forall|i: int| #![trigger f.queue[i]]
            0 <= i < f.queue.len() ==> moves_within(self.limits, f.queue[i].steps)
        &&& f.last_pos matches Some(p) ==> self.limits.holds(p)
    }
}

/// After an E-stop nothing is queued and nothing runs.
pub open spec fn interlocked(f: Flow) -> bool {
    f.needs_home ==> f.paused && f.queue.len() == 0
}

/// The map that a list of drop positions stands for.
pub open spec fn drop_map(list: Seq<(ClassName, Position)>) -> Map<Seq<char>, Position> {
    Map::new(
        |c: Seq<char>| exists|i: int| #![trigger list[i]] 0 <= i < list.len() && list[i].0@ == c,
        |c: Seq<char>| list[drop_index(list, c)].1,
    )
}

pub open spec fn drop_index(list: Seq<(ClassName, Position)>, c: Seq<char>) -> int {
    choose|i: int| #![trigger list[i]] 0 <= i < list.len() && list[i].0@ == c
}

impl Orchestrator {
    pub open spec fn flow(self) -> Flow {
        Flow {
            queue: self.queue@,
            paused: self.paused,
            needs_home: self.needs_home,
            pending_home: self.pending_home,
            pending_gripper: self.pending_gripper,
            shutting_down: self.shutting_down,
            last_pos: self.last_pos,
        }
    }

    pub open spec fn setup(self) -> Setup {
        Setup {
            limits: self.limits,
            z_travel: self.z_travel,
            z_pick: self.z_pick,
            drops: drop_map(self.class_drops@),
            reports_declines: self.reports_declines,
        }
    }

    pub open spec fn wf(self) -> bool {
        distinct_classes(self.class_drops@)
    }

    /// An orchestrator that starts paused, so no pick can move the robot
    /// before the operator presses Start.
    pub fn new(config: &AppConfig) -> (r: Orchestrator)
        ensures
            r.wf(),
            r.flow() == (Flow {
                queue: Seq::empty(),
                paused: true,
                needs_home: false,
                pending_home: false,
                pending_gripper: None,
                shutting_down: false,
                last_pos: None,
            }),
            r.setup() == (Setup {
                limits: config.robot.limits(),
                z_travel: config.robot.z_travel,
                z_pick: config.robot.z_pick,
                drops: config.sorting.drops(),
                reports_declines: false,
            }),
            r.planner == (TrajectoryPlanner {
                robot_speed_mm_s: Float32::nearest(config.robot.feed_rate as int, 1).quotient(
                    Float32::nearest(60, 1),
                ),
                conveyor_speed_mm_s: config.conveyor.speed_mm_s,
                pick_line_y: Float32::nearest(0, 1),
            }),
    {
        let class_drops = config.sorting.class_drop_positions();
        proof {
            lemma_drop_map(class_drops@, config.sorting.drops());
        }
        Orchestrator {
            queue: InstructionQueue::new(),
            paused: true,
            needs_home: false,
            pending_home: false,
            pending_gripper: None,
            shutting_down: false,
            last_pos: None,
            planner: TrajectoryPlanner::new(
                config.conveyor.speed_mm_s,
                // F parameter is mm/min.
                Float32::of(config.robot.feed_rate as i64).over(Float32::of(60)),
            ),
            limits: config.robot.workspace_limits(),
            z_travel: config.robot.z_travel,
            z_pick: config.robot.z_pick,
            class_drops,
            reports_declines: false,
        }
    }

    /// From now on, retryable declines are told about, so the vision loop can
    /// emit the object again.
    pub fn set_declined_sink(&mut self)
        requires
            old(self).wf(),
        ensures
            final(self).wf(),
            final(self).flow() == old(self).flow(),
            final(self).setup() == (Setup { reports_declines: true, ..old(self).setup() }),
            final(self).planner == old(self).planner,
    {
        self.reports_declines = true;
    }

    pub fn state(&self) -> (r: OrchestratorState)
        ensures
            r == self.flow().state(),
    {
        if self.needs_home {
            OrchestratorState::EStopped
        } else if self.paused {
            OrchestratorState::Paused
        } else {
            OrchestratorState::Running
        }
    }

    fn find_drop(&self, class: &str) -> (r: Option<Position>)
        requires
            self.wf(),
        ensures
            r == (if self.setup().drops.contains_key(class@) {
                Some(self.setup().drops[class@])
            } else {
                None
            }),
    {
        let ghost list = self.class_drops@;
        let mut i: usize = 0;
        while i < self.class_drops.len()
            invariant
                i <= self.class_drops.len(),
                list == self.class_drops@,
                distinct_classes(list),
                forall|j: int| #![trigger list[j]] 0 <= j < i ==> list[j].0@ != class@,
            decreases self.class_drops.len() - i,
        {
            if same_text(self.class_drops[i].0.as_str(), class) {
                proof {
                    assert(list[i as int].0@ == class@);
                    let c = drop_index(list, class@);
                    assert(0 <= c < list.len() && list[c].0@ == class@);
                    if c < i {
                        assert(list[c].0@ != class@);
                    }
                    if i < c {
                        assert(list[i as int].0@ != list[c].0@);
                    }
                }
                return Some(self.class_drops[i].1);
            }
            i = i + 1;
        }
        None
    }

    /// Queue the pick-and-place sequence for `object`, and tell which object
    /// is declined for a retryable reason. `now` is in nanoseconds.
    pub fn schedule_pick(&mut self, object: DetectedObject, now: u64) -> (r: Option<u64>)
        requires
            old(self).wf(),
        ensures
            final(self).wf(),
            final(self).flow() == old(self).setup().after_pick(
                old(self).flow(),
                object,
                now as int,
            ),
            final(self).setup() == old(self).setup(),
            final(self).planner == old(self).planner,
            r == old(self).setup().declines(object, now as int),
    {
        let age: u64 = if now < object.seen_at {
            0
        } else {
            now - object.seen_at
        };
        if age > PICK_TTL {
            // The object is likely still on the belt (the pick only went
            // stale because the queue was busy).
            return if self.reports_declines {
                Some(object.id)
            } else {
                None
            };
        }
        let pos = match object.world_pos {
            Some(p) => p,
            None => {
                return None;
            },
        };
        // Only objects whose class is assigned to a bin are picked; anything
        // else is left on the belt to reach the end catch bin.
        let drop_pos = match &object.class {
            Some(class) => match self.find_drop(class.as_str()) {
                Some(p) => p,
                None => {
                    return None;
                },
            },
            None => {
                return None;
            },
        };
        // Z comes from configuration, not from vision (which reports the belt
        // plane as z = 0).
        let pick = Position { x: pos.x, y: pos.y, z: self.z_pick };
        let travel = Position { x: pos.x, y: pos.y, z: self.z_travel };
        if !self.limits.contains(pick) || !self.limits.contains(travel) {
            return None;
        }
        let mut steps: Vec<RobotCommand> = Vec::new();
        steps.push(RobotCommand::MoveTo(travel));  // approach from above
        steps.push(RobotCommand::MoveTo(pick));  // descend
        steps.push(RobotCommand::Gripper(true));  // grab
        steps.push(RobotCommand::Wait(GRIP_SETTLE_MS));  // let suction settle
        steps.push(RobotCommand::MoveTo(travel));  // lift
        steps.push(RobotCommand::MoveTo(drop_pos));  // to the assigned bin
        steps.push(RobotCommand::Gripper(false));  // release
        assert(steps@ =~= pick_steps(travel, pick, drop_pos));
        // The expiry is looked at again when the group is about to start, so
        // one stuck behind others is dropped rather than run onto belt the
        // object has left.
        let expiry: u128 = object.seen_at as u128 + PICK_TTL as u128;
        self.queue.push_sequence(PickSequence::new(object.id, expiry, steps));
        None
    }

    /// Take in one message. `now` is in nanoseconds.
    pub fn handle_message(&mut self, msg: OrchestratorMsg, now: u64) -> (r: Reaction)
        requires
            old(self).wf(),
        ensures
            final(self).wf(),
            final(self).flow() == old(self).setup().after_message(
                old(self).flow(),
                msg,
                now as int,
            ),
            final(self).setup() == old(self).setup(),
            final(self).planner == old(self).planner,
            old(self).setup().reaction_to(old(self).flow(), msg, now as int, r),
    {
        let mut r = Reaction {
            publish: None,
            declined: None,
            error: None,
            release_gripper: false,
        };
        match msg {
            OrchestratorMsg::Pick(object) => {
                // Accepting picks while paused would build a backlog of
                // long-gone objects that gets executed on Resume.
                if !self.paused {
                    r.declined = self.schedule_pick(object, now);
                }
            },
            OrchestratorMsg::Home => {
                self.pending_home = true;
            },
            OrchestratorMsg::SetGripper(on) => {
                self.pending_gripper = Some(on);
            },
            OrchestratorMsg::Pause => {
                self.paused = true;
                r.publish = Some(self.state());
            },
            OrchestratorMsg::Resume => {
                // After an E-stop the operator must re-home before sorting
                // can restart.
                if !self.needs_home {
                    self.paused = false;
                }
                r.publish = Some(self.state());
            },
            OrchestratorMsg::Shutdown => {
                self.shutting_down = true;
            },
            OrchestratorMsg::EStop => {
                // No blocking gripper release here: the halt has already gone
                // to the robot, and a blocking command would stall recovery.
                self.queue.clear();
                self.paused = true;
                self.needs_home = true;
                // A homing or a toggle from before the stop must not outlive
                // it: the operator asks again.
                self.pending_home = false;
                self.pending_gripper = None;
                r.publish = Some(self.state());
            },
        }
        r
    }

    /// The commands that leave the robot in a safe state before the process
    /// exits: drop any held part and lift off the belt.
    pub fn park_for_shutdown(&self) -> (r: Vec<RobotCommand>)
        ensures
            r@ == self.setup().parking(self.flow()),
    {
        let mut r: Vec<RobotCommand> = Vec::new();
        if !self.needs_home {
            r.push(RobotCommand::Gripper(false));
            if let Some(p) = self.last_pos {
                r.push(RobotCommand::MoveTo(Position { x: p.x, y: p.y, z: self.z_travel }));
            }
        }
        assert(r@ =~= self.setup().parking(self.flow()));
        r
    }

    /// What the run loop does next, once every message that has arrived is
    /// taken in. `now` is in nanoseconds.
    pub fn next_action(&mut self, now: u64) -> (r: Action)
        requires
            old(self).wf(),
        ensures
            final(self).wf(),
            final(self).flow() == after_action(old(self).flow(), now as int),
            final(self).setup() == old(self).setup(),
            final(self).planner == old(self).planner,
            old(self).setup().is_next(old(self).flow(), now as int, r),
    {
        if self.shutting_down {
            return Action::Park(self.park_for_shutdown());
        }
        // Operator homing runs first and even while paused: it is the
        // recovery action that clears the E-stopped state.
        if self.pending_home {
            self.pending_home = false;
            return Action::Home;
        }
        if let Some(on) = self.pending_gripper {
            self.pending_gripper = None;
            return Action::Gripper(on);
        }
        if self.paused || self.queue.is_empty() {
            return Action::AwaitMessage;
        }
        match self.queue.next_command(now) {
            Some(cmd) => Action::Execute(cmd),
            None => Action::Again,
        }
    }

    /// The homing came to its end.
    pub fn finish_home(&mut self, result: Result<(), String>) -> (r: Reaction)
        requires
            old(self).wf(),
        ensures
            final(self).wf(),
            final(self).flow() == after_home(old(self).flow(), result is Ok),
            final(self).setup() == old(self).setup(),
            final(self).planner == old(self).planner,
            r.publish == Some(final(self).flow().state()),
            r.declined is None,
            !r.release_gripper,
            match result {
                Ok(()) => r.error is None,
                Err(reason) => r.error is Some && r.error->0@ == "Home failed: "@ + reason@,
            },
    {
        let mut r = Reaction {
            publish: None,
            declined: None,
            error: None,
            release_gripper: false,
        };
        match result {
            Ok(()) => {
                self.needs_home = false;
            },
            Err(reason) => {
                let text = "Home failed: ".to_owned();
                r.error = Some(text.concat(reason.as_str()));
            },
        }
        r.publish = Some(self.state());
        r
    }

    /// A queued command came to its end. `halted` tells whether the emergency
    /// stop has fired since the robot was last homed.
    pub fn finish_command(
        &mut self,
        cmd: RobotCommand,
        result: Result<(), String>,
        halted: bool,
    ) -> (r: Reaction)
        requires
            old(self).wf(),
        ensures
            final(self).wf(),
            final(self).flow() == after_command(old(self).flow(), cmd, result is Ok),
            final(self).setup() == old(self).setup(),
            final(self).planner == old(self).planner,
            r.declined is None,
            r.release_gripper == releases(result is Ok, halted),
            match result {
                Ok(()) => r.error is None && r.publish is None,
                Err(reason) => {
                    &&& r.error is Some
                    &&& r.error->0@ == "Robot command failed: "@ + reason@ + ". Sorting paused."@
                    &&& r.publish == Some(final(self).flow().state())
                },
            },
    {
        let mut r = Reaction {
            publish: None,
            declined: None,
            error: None,
            release_gripper: false,
        };
        match result {
            Ok(()) => {
                if let RobotCommand::MoveTo(pos) = cmd {
                    self.last_pos = Some(pos);
                }
            },
            Err(reason) => {
                let text = "Robot command failed: ".to_owned();
                r.error = Some(text.concat(reason.as_str()).concat(". Sorting paused."));
                self.queue.clear();
                self.paused = true;
                // The pending release was just discarded with the queue, so
                // suction could hold a part indefinitely. After a halt the
                // robot would not take it.
                r.release_gripper = !halted;
                r.publish = Some(self.state());
            },
        }
        r
    }
}

/// The message for the operator about a gripper that could not be actuated.
pub fn gripper_failure(on: bool, reason: &str) -> (r: String)
    ensures
        r@ == "Gripper "@ + (if on {
            "engage"@
        } else {
            "release"@
        }) + " failed: "@ + reason@,
{
    let verb = if on {
        "engage"
    } else {
        "release"
    };
    let text = "Gripper ".to_owned();
    text.concat(verb).concat(" failed: ").concat(reason)
}

proof fn lemma_drop_map(list: Seq<(ClassName, Position)>, m: Map<Seq<char>, Position>)
    requires
        lists(list, m),
    ensures
        drop_map(list) == m,
{
    let d = drop_map(list);
    assert forall|c: Seq<char>| d.contains_key(c) == m.contains_key(c) by {
        if d.contains_key(c) {
            let i = drop_index(list, c);
            assert(list[i].0@ == c);
        }
    }
    assert forall|c: Seq<char>| #[trigger] m.contains_key(c) implies d[c] == m[c] by {
        let i = drop_index(list, c);
        assert(0 <= i < list.len() && list[i].0@ == c);
    }
    assert(d =~= m);
}

} // verus!
