//! What the calls to the devices do, seen from outside: from what they are
//! given to what goes over the wire and what is left behind.
use super::camera::{
    parse_fourcc, Adopted, FourccError, MockCamera, MockFrame, OpencvCamera,
};
use super::conveyor::{ConveyorNotConnected, SerialConveyor};
use super::delta::{move_gcode, DeltaX2, GcodeRequest, Halt};
use super::echo::{
    all_white, bare, law_any_other_line_is_passed_over, law_echo_completes,
    law_error_line_fails, law_trimming_takes_the_margins, says_error,
};
use super::serial::{FeedbackWait, Handshake, ReadEvent, Wait, WaitError};
use super::wire::{
    hundredths_read, is_digit, law_belt_speed_reads_back, law_decimal_reads_back,
    law_fixed_two_is_the_nearest_hundredth, law_move_reads_back, number, says, signed_number,
};
use super::{MockRobot, MockRobotCommand, Position, RobotError};
use crate::float::Float32;
use crate::orchestrator::RobotCommand;
use crate::text::{decimal, fixed_two, trimmed};
use vstd::arithmetic::power2::pow2;
use vstd::prelude::*;

verus! {

// --- The robot ---

/// The line gives the number to the nearest hundredth behind the letter.
pub open spec fn tells(line: Seq<char>, letter: char, x: Float32) -> bool {
    exists|text: Seq<char>| #[trigger]
        says(line, letter, text) && {
            let one = pow2(149) as int;
            let off = 100 * x.units() - hundredths_read(text) * one;
            -one <= 2 * off <= one
        }
}

/// The line gives the whole number behind the letter.
pub open spec fn counts(line: Seq<char>, letter: char, n: int) -> bool {
    exists|text: Seq<char>| #[trigger] says(line, letter, text) && number(text) == n
}

proof fn lemma_bare(cmd: Seq<char>)
    requires
        bare(cmd),
    ensures
        trimmed(cmd) == cmd,
{
    assert(Seq::<char>::empty() + cmd + Seq::<char>::empty() =~= cmd);
    law_trimming_takes_the_margins(Seq::empty(), cmd, Seq::empty());
}

/// A move within the workspace is sent where the robot is connected, and says
/// where to and at which of the robot's feed rates; one out of the workspace is
/// refused, and leaves no trace.
pub proof fn law_move_is_sent_as_asked(
    robot: &mut DeltaX2,
    p: Position,
    r: Result<GcodeRequest, RobotError>,
)
    requires
        call_ensures(DeltaX2::move_to, (robot, p), r),
        p.x.finite(),
        p.y.finite(),
        p.z.finite(),
    ensures
        r is Ok <==> old(robot).connected && old(robot).limits.holds(p),
        r is Err ==> *final(robot) == *old(robot),
        !old(robot).limits.holds(p) ==> r->Err_0 is OutsideWorkspace,
        final(robot).feed_rate == old(robot).feed_rate,
        final(robot).limits == old(robot).limits,
        r matches Ok(request) ==> {
            let cmd = request.command@;
            &&& says(cmd, 'G', seq!['0', '1'])
            &&& tells(cmd, 'X', p.x)
            &&& tells(cmd, 'Y', p.y)
            &&& tells(cmd, 'Z', p.z)
            &&& counts(cmd, 'F', old(robot).feed_rate as int)
            &&& request.frame@.take(cmd.len() as int) == cmd
            &&& !request.admitted(true)
        },
{
    let cmd = move_gcode(p, old(robot).feed_rate as nat);
    lemma_move_line(p, old(robot).feed_rate as nat);
    if let Ok(request) = r {
        assert(request.command@ == cmd);
        assert(request.frame@.take(cmd.len() as int) =~= cmd);
    }
}

proof fn lemma_move_line(p: Position, feed: nat)
    requires
        p.x.finite(),
        p.y.finite(),
        p.z.finite(),
    ensures
        ({
            let cmd = move_gcode(p, feed);
            &&& trimmed(cmd) == cmd
            &&& says(cmd, 'G', seq!['0', '1'])
            &&& tells(cmd, 'X', p.x)
            &&& tells(cmd, 'Y', p.y)
            &&& tells(cmd, 'Z', p.z)
            &&& counts(cmd, 'F', feed as int)
        }),
{
    let cmd = move_gcode(p, feed);
    law_move_reads_back(p, feed);
    assert(tells(cmd, 'X', p.x)) by {
        law_fixed_two_is_the_nearest_hundredth(p.x);
        assert(says(cmd, 'X', fixed_two(p.x)));
    }
    assert(tells(cmd, 'Y', p.y)) by {
        law_fixed_two_is_the_nearest_hundredth(p.y);
        assert(says(cmd, 'Y', fixed_two(p.y)));
    }
    assert(tells(cmd, 'Z', p.z)) by {
        law_fixed_two_is_the_nearest_hundredth(p.z);
        assert(says(cmd, 'Z', fixed_two(p.z)));
    }
    assert(says(cmd, 'F', decimal(feed)));
    lemma_move_is_bare(p, feed);
}

proof fn lemma_move_is_bare(p: Position, feed: nat)
    ensures
        trimmed(move_gcode(p, feed)) == move_gcode(p, feed),
{
    let cmd = move_gcode(p, feed);
    let digits = decimal(feed);
    reveal_strlit("G01 X");
    law_decimal_reads_back(feed);
    assert(cmd[0] == 'G');
    assert(cmd[cmd.len() - 1] == digits[digits.len() - 1]);
    assert(is_digit(digits[digits.len() - 1]));
    lemma_bare(cmd);
}

/// The suction is switched on by M03 and off by M05, and never while the
/// emergency stop is in force.
pub proof fn law_gripper_is_switched_as_asked(
    robot: &mut DeltaX2,
    on: bool,
    r: Result<GcodeRequest, RobotError>,
)
    requires
        call_ensures(DeltaX2::set_gripper, (robot, on), r),
    ensures
        r is Ok <==> old(robot).connected,
        r matches Ok(request) ==> {
            let cmd = request.command@;
            &&& cmd == if on {
                seq!['M', '0', '3']
            } else {
                seq!['M', '0', '5']
            }
            &&& !request.admitted(true)
            &&& final(robot).cmd_seq == old(robot).cmd_seq + 1
        },
{
    reveal_strlit("M03");
    reveal_strlit("M05");
    lemma_bare("M03"@);
    lemma_bare("M05"@);
}

/// Homing is G28, which ends an emergency stop, and then the switch back to
/// absolute coordinates; with that it is done.
pub proof fn law_homing_goes_step_by_step(
    robot: &mut DeltaX2,
    done: usize,
    r: Result<Option<GcodeRequest>, RobotError>,
)
    requires
        call_ensures(DeltaX2::home, (robot, done), r),
    ensures
        done >= 2 ==> (r matches Ok(o) && o is None),
        done < 2 ==> (r is Ok <==> old(robot).connected),
        r matches Ok(Some(request)) ==> {
            let cmd = request.command@;
            &&& done == 0 ==> cmd == seq!['G', '2', '8'] && request.admitted(true)
            &&& done == 1 ==> cmd == seq!['G', '9', '0'] && !request.admitted(true)
            &&& done < 2
        },
{
    reveal_strlit("G28");
    reveal_strlit("G90");
    lemma_bare("G28"@);
    lemma_bare("G90"@);
}

/// The emergency halt is one write that ends with M112, whatever else the robot
/// is busy with; the gripper is released before that where this is configured,
/// and only there.
pub proof fn law_halt_ends_with_the_stop(robot: &DeltaX2, r: Option<Halt>)
    requires
        call_ensures(DeltaX2::estop_handle, (robot,), r),
    ensures
        r is Some <==> robot.connected,
        r matches Some(halt) ==> {
            let text = halt.command@;
            let stop = seq!['M', '1', '1', '2', '\n'];
            &&& text.len() >= 5
            &&& text.skip(text.len() - 5) == stop
            &&& robot.release_gripper_on_estop ==> text.take(4) == seq!['M', '0', '5', '\n']
                && text.len() == 9
            &&& !robot.release_gripper_on_estop ==> text == stop
        },
{
    reveal_strlit("M05\nM112\n");
    reveal_strlit("M112\n");
    if let Some(halt) = r {
        let text = halt.command@;
        assert(text.skip(text.len() - 5) =~= seq!['M', '1', '1', '2', '\n']);
        if robot.release_gripper_on_estop {
            assert(text.take(4) =~= seq!['M', '0', '5', '\n']);
        }
    }
}

/// The simulated robot carries out what it is told, and ends where it was sent;
/// a move out of its workspace it refuses, and stays where it was.
pub proof fn law_simulated_robot_goes_where_it_is_sent(
    robot: &mut MockRobot,
    p: Position,
    r: Result<(), RobotError>,
)
    requires
        call_ensures(MockRobot::execute, (robot, RobotCommand::MoveTo(p)), r),
    ensures
        r is Ok <==> old(robot).limits.holds(p),
        r is Ok ==> final(robot).current_pos == p && final(robot).log@.len() == old(
            robot,
        ).log@.len() + 1 && final(robot).log@.last() == MockRobotCommand::MoveTo(p),
        r is Err ==> final(robot).current_pos == old(robot).current_pos && final(robot).log@ == old(
            robot,
        ).log@,
{
}

// --- The conveyor ---

/// The belt is started by a line that reads back as the speed asked for, and
/// stopped by M5; neither goes out where the belt is not connected.
pub proof fn law_belt_is_told_its_speed(
    belt: &SerialConveyor,
    speed: i32,
    started: Result<String, ConveyorNotConnected>,
    stopped: Result<String, ConveyorNotConnected>,
)
    requires
        call_ensures(SerialConveyor::start, (belt, speed), started),
        call_ensures(SerialConveyor::stop, (belt,), stopped),
    ensures
        started is Ok <==> belt.connected,
        stopped is Ok <==> belt.connected,
        started matches Ok(line) ==> {
            let n = line@.len() - 1;
            &&& line@.last() == '\n'
            &&& line@.take(4) == seq!['M', '3', ' ', 'S']
            &&& n > 4
            &&& signed_number(line@.subrange(4, n)) == speed
        },
        stopped matches Ok(line) ==> line@ == seq!['M', '5', '\n'],
{
    reveal_strlit("M3 S");
    reveal_strlit("M5");
    reveal_strlit("\n");
    law_belt_speed_reads_back(speed as int);
    lemma_bare("M5"@);
    if let Ok(line) = started {
        let cmd = "M3 S"@ + crate::text::signed_decimal(speed as int);
        assert(line@ =~= cmd + "\n"@);
        assert(line@.take(4) =~= seq!['M', '3', ' ', 'S']);
        assert(line@.subrange(4, line@.len() - 1) =~= cmd.skip(4));
        law_decimal_reads_back(
            if speed < 0 {
                -speed as nat
            } else {
                speed as nat
            },
        );
    }
    if let Ok(line) = stopped {
        assert(line@ =~= seq!['M', '5', '\n']);
    }
}

// --- Waiting for the robot ---

/// An echo completes its command though it comes in two pieces, with white
/// space around it or not, and however late.
pub proof fn law_split_echo_completes(
    first: &mut FeedbackWait,
    second: &mut FeedbackWait,
    start: Seq<char>,
    end: Seq<char>,
    before: Seq<char>,
    after: Seq<char>,
    a: String,
    b: String,
    at: u64,
    then: u64,
    x: Wait,
    y: Wait,
)
    requires
        call_ensures(FeedbackWait::step, (first, ReadEvent::TimedOut(a), at, false), x),
        *final(first) == *old(second),
        call_ensures(FeedbackWait::step, (second, ReadEvent::Line(b), then, false), y),
        old(first).line@.len() == 0,
        a@ == before + start,
        b@ == end + after,
        old(first).feedback_id@ == start + end,
        bare(start + end),
        all_white(before),
        all_white(after),
    ensures
        x is Continue <==> at < old(first).deadline,
        y == Wait::Completed,
{
    let id = start + end;
    assert(old(first).line@ + a@ =~= a@);
    assert(a@ + b@ =~= before + id + after);
    law_echo_completes(before, id, after);
}

/// A line that is passed over leaves nothing behind: the next is judged as if
/// it were the first. The wait goes on, while the deadline is still to come and
/// the emergency stop has not fired.
pub proof fn law_passed_over_line_leaves_nothing(
    wait: &mut FeedbackWait,
    s: Seq<char>,
    line: String,
    now: u64,
    estopped: bool,
    r: Wait,
)
    requires
        call_ensures(FeedbackWait::step, (wait, ReadEvent::Line(line), now, estopped), r),
        old(wait).line@.len() == 0,
        line@ == s + seq!['\n'],
        bare(s),
        s != old(wait).feedback_id@,
        forall|i: int| !says_error(s, i),
    ensures
        final(wait).line@.len() == 0,
        final(wait).feedback_id == old(wait).feedback_id,
        final(wait).deadline == old(wait).deadline,
        r is Continue <==> !estopped && now < old(wait).deadline,
        r !is Completed,
{
    let margin = seq!['\n'];
    assert(old(wait).line@ + line@ =~= Seq::<char>::empty() + s + margin);
    law_any_other_line_is_passed_over(Seq::empty(), s, margin, old(wait).feedback_id@);
}

/// A line that says "error" fails the command, with what it says.
pub proof fn law_error_line_is_reported(
    wait: &mut FeedbackWait,
    s: Seq<char>,
    line: String,
    now: u64,
    estopped: bool,
    i: int,
    r: Wait,
)
    requires
        call_ensures(FeedbackWait::step, (wait, ReadEvent::Line(line), now, estopped), r),
        old(wait).line@.len() == 0,
        line@ == s + seq!['\n'],
        bare(s),
        s != old(wait).feedback_id@,
        says_error(s, i),
    ensures
        r matches Wait::Failed(WaitError::Reported(said)) && said@ == s,
{
    let margin = seq!['\n'];
    assert(old(wait).line@ + line@ =~= Seq::<char>::empty() + s + margin);
    law_error_line_fails(Seq::empty(), s, margin, old(wait).feedback_id@, i);
}

/// A wait is given as long as was asked for, counted from its start.
pub proof fn law_wait_lasts_as_long_as_asked(
    id: String,
    start: u64,
    timeout: u64,
    made: FeedbackWait,
    wait: &mut FeedbackWait,
    part: String,
    now: u64,
    r: Wait,
)
    requires
        call_ensures(FeedbackWait::new, (id, start, timeout), made),
        *old(wait) == made,
        call_ensures(FeedbackWait::step, (wait, ReadEvent::TimedOut(part), now, false), r),
    ensures
        made.feedback_id@ == id@,
        r is Continue <==> now < start + timeout,
        r !is Continue ==> r == Wait::Failed(WaitError::DeadlinePassed),
{
}

/// A closed port and a read that failed end the wait at once.
pub proof fn law_dead_port_ends_the_wait(
    wait: &mut FeedbackWait,
    event: ReadEvent,
    now: u64,
    estopped: bool,
    r: Wait,
)
    requires
        call_ensures(FeedbackWait::step, (wait, event, now, estopped), r),
        event is Closed || event is Failed,
    ensures
        event is Closed ==> r == Wait::Failed(WaitError::Closed),
        event matches ReadEvent::Failed(reason) ==> r == Wait::Failed(WaitError::Read(reason)),
{
}

/// The robot is recognised by its answer on a line of its own, past whatever
/// else it says, for five seconds from the question on.
pub proof fn law_robot_is_recognised_by_its_answer(
    start: u64,
    made: Handshake,
    wait: &mut Handshake,
    s: Seq<char>,
    line: String,
    now: u64,
    r: Wait,
)
    requires
        call_ensures(Handshake::new, (start,), made),
        *old(wait) == made,
        call_ensures(Handshake::step, (wait, ReadEvent::Line(line), now), r),
        line@ == s + seq!['\n'],
        bare(s),
    ensures
        r == Wait::Completed <==> s == seq!['Y', 'e', 's', 'D', 'e', 'l', 't', 'a'],
        r is Continue <==> r !is Completed && now < start + 5_000_000_000,
        r !is Completed ==> final(wait).line@.len() == 0,
{
    let margin = seq!['\n'];
    reveal_strlit("YesDelta");
    assert("YesDelta"@ =~= seq!['Y', 'e', 's', 'D', 'e', 'l', 't', 'a']);
    assert(old(wait).line@ + line@ =~= Seq::<char>::empty() + s + margin);
    law_trimming_takes_the_margins(Seq::empty(), s, margin);
}

// --- The camera ---

/// What a camera is found to deliver is adopted, and told once: asked again
/// about the same mode, nothing differs any more. A camera that does not know
/// leaves what was asked of it.
pub proof fn law_mode_is_adopted_once(
    first: &mut OpencvCamera,
    second: &mut OpencvCamera,
    w: u32,
    h: u32,
    fps: u32,
    a: Adopted,
    b: Adopted,
)
    requires
        call_ensures(OpencvCamera::adopt, (first, w, h, fps), a),
        *final(first) == *old(second),
        call_ensures(OpencvCamera::adopt, (second, w, h, fps), b),
    ensures
        w > 0 ==> final(first).width == w && final(first).height == h,
        w == 0 ==> final(first).width == old(first).width && final(first).height == old(
            first,
        ).height,
        fps > 0 ==> final(first).fps == fps,
        fps == 0 ==> final(first).fps == old(first).fps,
        a.resolution <==> (final(first).width, final(first).height) != (
            old(first).width,
            old(first).height,
        ),
        a.fps <==> final(first).fps != old(first).fps,
        !b.resolution && !b.fps,
        final(second).width == old(second).width && final(second).height == old(second).height,
        final(second).fps == old(second).fps,
{
}

/// A code is taken where it is four ASCII characters, and then byte by byte.
pub proof fn law_fourcc_is_four_characters(s: String, r: Result<[u8; 4], FourccError>)
    requires
        call_ensures(parse_fourcc, (s,), r),
    ensures
        r matches Ok(bytes) ==> s@.len() == 4 && forall|i: int| #![trigger s@[i]]
            0 <= i < 4 ==> bytes@[i] == s@[i] as u8 && s@[i] <= '\u{7f}',
        s@.len() == 4 && (forall|i: int| #![trigger s@[i]] 0 <= i < 4 ==> s@[i] <= '\u{7f}')
            ==> r is Ok,
{
    if s@.len() == 4 && (forall|i: int| #![trigger s@[i]] 0 <= i < 4 ==> s@[i] <= '\u{7f}') {
        assert forall|i: int| 0 <= i < s@.len() implies '\0' <= #[trigger] s@[i] <= '\u{7f}' by {
            lemma_lowest(s@[i]);
        }
        vstd::utf8::is_ascii_chars_encode_utf8(s@);
    }
}

proof fn lemma_lowest(c: char)
    ensures
        '\0' <= c,
{
}

/// The simulated part stands in the middle of the picture, stands out from the
/// belt, darker where dark parts are looked for, and is away in the last eight
/// frames of every second.
pub proof fn law_simulated_part_is_in_the_middle(
    camera: &mut MockCamera,
    second: int,
    k: int,
    r: Option<MockFrame>,
)
    requires
        call_ensures(MockCamera::get_frame, (camera,), r),
        old(camera).fps > 0,
        old(camera).frame < u64::MAX,
        old(camera).frame == second * old(camera).fps + k,
        0 <= k < old(camera).fps,
        second >= 0,
    ensures
        r is Some <==> old(camera).width < 0x8000_0000 && old(camera).height < 0x8000_0000,
        r matches Some(f) ==> {
            &&& f.width == old(camera).width && f.height == old(camera).height
            &&& f.blob is Some <==> k + 8 < old(camera).fps
            &&& f.blob matches Some(b) ==> {
                &&& b.width == 40 && b.height == 40
                &&& 0 <= f.width - (2 * b.x + b.width) <= 1
                &&& 0 <= f.height - (2 * b.y + b.height) <= 1
            }
            &&& old(camera).invert ==> f.blob_value + 128 <= f.background
            &&& !old(camera).invert ==> f.background + 128 <= f.blob_value
            &&& final(camera).frame == old(camera).frame + 1
            &&& f.delay_ms * old(camera).fps <= 1000
            &&& 1000 < (f.delay_ms + 1) * old(camera).fps
        },
{
    let fps = old(camera).fps as int;
    super::camera::law_blob_is_away_at_the_end_of_a_cycle(old(camera).fps, second, k);
    if let Some(f) = r {
        vstd::arithmetic::div_mod::lemma_fundamental_div_mod(1000, fps);
        vstd::arithmetic::div_mod::lemma_mod_bound(1000, fps);
        let q = f.delay_ms as int;
        assert(q * fps == fps * q) by (nonlinear_arith);
        assert((q + 1) * fps == q * fps + fps) by (nonlinear_arith);
    }
}

} // verus!
