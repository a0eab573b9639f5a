//! What the lines that come back mean: which completes a command, which fails
//! it, and which are passed over.
use super::serial::{bounded, failure_text, verdict, Verdict, Wait, WaitError};
use crate::text::{
    ascii_lower, lowered, occurs_at, occurs_in, trimmed, trimmed_end, trimmed_start, white_space,
};
use vstd::prelude::*;

verus! {

/// Nothing but white space.
pub open spec fn all_white(s: Seq<char>) -> bool {
    forall|i: int| #![trigger s[i]] 0 <= i < s.len() ==> white_space(s[i])
}

/// No white space at either end.
pub open spec fn bare(s: Seq<char>) -> bool {
    s.len() > 0 ==> !white_space(s[0]) && !white_space(s[s.len() - 1])
}

/// Among the ASCII characters the blank and those from the tabulator to the
/// carriage return are white space.
pub proof fn law_ascii_white_space(c: char)
    requires
        c as u32 <= 0x7f,
    ensures
        white_space(c) <==> c == ' ' || '\t' <= c <= '\r',
{
}

/// Trimming takes away the white space around a text, all of it and nothing
/// else.
pub proof fn law_trimming_takes_the_margins(before: Seq<char>, s: Seq<char>, after: Seq<char>)
    requires
        all_white(before),
        all_white(after),
        bare(s),
    ensures
        trimmed(before + s + after) == s,
{
    lemma_start(before, s, after);
    if s.len() > 0 {
        lemma_end(s, after);
    }
}

proof fn lemma_start(before: Seq<char>, s: Seq<char>, after: Seq<char>)
    requires
        all_white(before),
        all_white(after),
        bare(s),
    ensures
        s.len() > 0 ==> trimmed_start(before + s + after) == s + after,
        s.len() == 0 ==> trimmed_start(before + s + after).len() == 0,
    decreases before.len() + after.len(),
{
    let all = before + s + after;
    if before.len() > 0 {
        let rest = before.subrange(1, before.len() as int);
        assert(all[0] == before[0]);
        assert(all.subrange(1, all.len() as int) =~= rest + s + after);
        lemma_start(rest, s, after);
    } else if s.len() > 0 {
        assert(all =~= s + after);
        assert(all[0] == s[0]);
    } else if after.len() > 0 {
        let rest = after.subrange(1, after.len() as int);
        assert(all[0] == after[0]);
        assert(all.subrange(1, all.len() as int) =~= before + s + rest);
        lemma_start(before, s, rest);
    }
}

proof fn lemma_end(s: Seq<char>, after: Seq<char>)
    requires
        all_white(after),
        bare(s),
        s.len() > 0,
    ensures
        trimmed_end(s + after) == s,
    decreases after.len(),
{
    let all = s + after;
    if after.len() > 0 {
        assert(all.last() == after.last());
        assert(all.drop_last() =~= s + after.drop_last());
        lemma_end(s, after.drop_last());
    } else {
        assert(all =~= s);
    }
}

/// A line that is the id, with white space around it or not, completes the
/// command.
pub proof fn law_echo_completes(before: Seq<char>, id: Seq<char>, after: Seq<char>)
    requires
        all_white(before),
        all_white(after),
        bare(id),
    ensures
        verdict(before + id + after, id) is Completed,
{
    law_trimming_takes_the_margins(before, id, after);
}

/// No other line does.
pub proof fn law_only_the_echo_completes(
    before: Seq<char>,
    s: Seq<char>,
    after: Seq<char>,
    id: Seq<char>,
)
    requires
        all_white(before),
        all_white(after),
        bare(s),
        s != id,
    ensures
        verdict(before + s + after, id) !is Completed,
{
    law_trimming_takes_the_margins(before, s, after);
}

/// `c` is this letter, or its capital.
pub open spec fn letter(c: char, small: char, capital: char) -> bool {
    c == small || c == capital
}

/// The word "error" stands in the text at `i`, in capitals or not.
pub open spec fn says_error(s: Seq<char>, i: int) -> bool {
    &&& 0 <= i && i + 5 <= s.len()
    &&& letter(s[i], 'e', 'E')
    &&& letter(s[i + 1], 'r', 'R')
    &&& letter(s[i + 2], 'r', 'R')
    &&& letter(s[i + 3], 'o', 'O')
    &&& letter(s[i + 4], 'r', 'R')
}

/// Making the ASCII capitals small turns a character into a small letter where
/// it is that letter or its capital, and nowhere else.
pub proof fn law_lowered_letter(c: char, small: char, capital: char)
    requires
        'a' <= small <= 'z',
        small as u32 == capital as u32 + 32,
    ensures
        ascii_lower(c) == small <==> letter(c, small, capital),
{
    if 'A' <= c <= 'Z' {
        let n = (c as u32 + 32) as u32;
        assert((n as char) as u32 == n);
    }
}

proof fn lemma_error_at(s: Seq<char>, i: int)
    ensures
        occurs_at("error"@, lowered(s), i) <==> says_error(s, i),
{
    let word = "error"@;
    reveal_strlit("error");
    if 0 <= i && i + 5 <= s.len() {
        let part = lowered(s).subrange(i, i + 5);
        law_lowered_letter(s[i], 'e', 'E');
        law_lowered_letter(s[i + 1], 'r', 'R');
        law_lowered_letter(s[i + 2], 'r', 'R');
        law_lowered_letter(s[i + 3], 'o', 'O');
        law_lowered_letter(s[i + 4], 'r', 'R');
        assert(forall|k: int| #![trigger part[k]] 0 <= k < 5 ==> part[k] == ascii_lower(s[i + k]));
        if says_error(s, i) {
            assert(part =~= word);
        }
        if part == word {
            assert(part[0] == 'e' && part[1] == 'r' && part[2] == 'r' && part[3] == 'o' && part[4]
                == 'r');
        }
    }
}

/// A line that says "error", in capitals or not, fails the command with what
/// the line says, without the white space around it.
pub proof fn law_error_line_fails(
    before: Seq<char>,
    s: Seq<char>,
    after: Seq<char>,
    id: Seq<char>,
    i: int,
)
    requires
        all_white(before),
        all_white(after),
        bare(s),
        s != id,
        says_error(s, i),
    ensures
        verdict(before + s + after, id) == Verdict::Error(s),
{
    law_trimming_takes_the_margins(before, s, after);
    lemma_error_at(s, i);
    reveal_strlit("ok");
    assert(lowered(s).len() != lowered("ok"@).len());
}

/// Any other line is passed over: the acknowledgement, a blank line, whatever
/// the robot has to say.
pub proof fn law_any_other_line_is_passed_over(
    before: Seq<char>,
    s: Seq<char>,
    after: Seq<char>,
    id: Seq<char>,
)
    requires
        all_white(before),
        all_white(after),
        bare(s),
        s != id,
        forall|i: int| !says_error(s, i),
    ensures
        verdict(before + s + after, id) is Skipped,
{
    law_trimming_takes_the_margins(before, s, after);
    assert forall|i: int| !occurs_at("error"@, lowered(s), i) by {
        lemma_error_at(s, i);
    }
}

/// A wait goes on while the emergency stop has not fired and its deadline is
/// still to come, and no longer. The emergency stop is told before the
/// deadline.
pub proof fn law_wait_goes_on_until_its_deadline(now: int, deadline: int, estopped: bool, w: Wait)
    requires
        bounded(now, deadline, estopped, w),
    ensures
        w is Continue <==> !estopped && now < deadline,
        w !is Completed,
        estopped ==> w == Wait::Failed(WaitError::EmergencyStop),
        w == Wait::Failed(WaitError::DeadlinePassed) <==> !estopped && deadline <= now,
{
}

/// What the operator is told of a failed wait names the command, in quotes;
/// and the robot's own words, and the time, where these are the reason.
pub proof fn law_failure_names_the_command(e: WaitError, cmd: Seq<char>, timeout: Seq<char>)
    ensures
        occurs_in(seq!['\''] + cmd + seq!['\''], failure_text(e, cmd, timeout)),
        e matches WaitError::Reported(line) ==> occurs_in(line@, failure_text(e, cmd, timeout)),
        e matches WaitError::Read(reason) ==> occurs_in(reason@, failure_text(e, cmd, timeout)),
        e is DeadlinePassed ==> occurs_in(timeout, failure_text(e, cmd, timeout)),
{
    reveal_strlit("serial port closed while waiting for '");
    reveal_strlit("robot reported error for '");
    reveal_strlit("reading feedback for '");
    reveal_strlit("timed out after ");
    reveal_strlit(" waiting for '");
    reveal_strlit("emergency stop while waiting for '");
    reveal_strlit("'");
    reveal_strlit("': ");
    reveal_strlit("' to complete");
    let text = failure_text(e, cmd, timeout);
    let quoted = seq!['\''] + cmd + seq!['\''];
    let n = cmd.len() as int;
    let m = timeout.len() as int;
    let (at, told): (int, int) = match e {
        WaitError::Closed => (37, 0),
        WaitError::Reported(_) => (25, 25 + n + 4),
        WaitError::Read(_) => (21, 21 + n + 4),
        WaitError::DeadlinePassed => (29 + m, 16),
        WaitError::EmergencyStop => (33, 0),
    };
    assert(text.subrange(at, at + quoted.len()) =~= quoted);
    assert(occurs_at(quoted, text, at));
    match e {
        WaitError::Reported(line) => {
            assert(text.subrange(told, told + line@.len()) =~= line@);
            assert(occurs_at(line@, text, told));
        },
        WaitError::Read(reason) => {
            assert(text.subrange(told, told + reason@.len()) =~= reason@);
            assert(occurs_at(reason@, text, told));
        },
        WaitError::DeadlinePassed => {
            assert(text.subrange(told, told + timeout.len()) =~= timeout);
            assert(occurs_at(timeout, text, told));
        },
        _ => {},
    }
}

} // verus!
