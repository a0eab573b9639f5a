//! What can be read off the lines that are written: every number comes back.
use super::delta::{
    feedback_id, framed, law_ids_are_never_shared, move_gcode, DeltaX2, GcodeRequest,
};
use super::echo::law_trimming_takes_the_margins;
use super::{Position, RobotError};
use crate::float::format::nearest_even;
use crate::float::nearest::lemma_nearest_even_error;
use crate::float::Float32;
use crate::text::{decimal, digit, fixed_two, hundredths_of, signed_decimal, trimmed};
use vstd::arithmetic::power2::{lemma_pow2_pos, pow2};
use vstd::prelude::*;

verus! {

/// One of the ten digits.
pub open spec fn is_digit(c: char) -> bool {
    48 <= c as int <= 57
}

/// The number that a row of digits stands for.
pub open spec fn number(s: Seq<char>) -> int
    decreases s.len(),
{
    if s.len() == 0 {
        0
    } else {
        10 * number(s.drop_last()) + (s.last() as int - 48)
    }
}

/// The number that a row of digits, with a minus in front or not, stands for.
pub open spec fn signed_number(s: Seq<char>) -> int {
    if s.len() > 0 && s[0] == '-' {
        -number(s.skip(1))
    } else {
        number(s)
    }
}

/// The number in hundredths that a text with two digits behind its point
/// stands for.
pub open spec fn hundredths_read(s: Seq<char>) -> int {
    let body = if s.len() > 0 && s[0] == '-' { s.skip(1) } else { s };
    let n = body.len() - 3;
    let size = 100 * number(body.take(n)) + number(body.skip(n + 1));
    if s.len() > 0 && s[0] == '-' {
        -size
    } else {
        size
    }
}

/// From `i` to `j` stands one word of a line, between its spaces.
pub open spec fn word_at(s: Seq<char>, i: int, j: int) -> bool {
    &&& 0 <= i < j <= s.len()
    &&& i == 0 || s[i - 1] == ' '
    &&& j == s.len() || s[j] == ' '
    &&& forall|k: int| #![trigger s[k]] i <= k < j ==> s[k] != ' '
}

/// The line has a word that begins with `letter`, and `text` is what follows
/// the letter in every such word.
pub open spec fn says(s: Seq<char>, letter: char, text: Seq<char>) -> bool {
    &&& exists|i: int, j: int| #[trigger] word_at(s, i, j) && s[i] == letter
    &&& forall|i: int, j: int| #[trigger]
        word_at(s, i, j) && s[i] == letter ==> s.subrange(i + 1, j) == text
}

proof fn lemma_digit_reads(d: nat)
    requires
        d < 10,
    ensures
        digit(d) as int == 48 + d,
{
}

/// A number written in decimal reads as itself, in digits only.
pub proof fn law_decimal_reads_back(n: nat)
    ensures
        number(decimal(n)) == n,
        decimal(n).len() > 0,
        forall|i: int| #![trigger decimal(n)[i]]
            0 <= i < decimal(n).len() ==> is_digit(decimal(n)[i]),
        decimal(n).len() > 1 ==> decimal(n)[0] != '0',
    decreases n,
{
    let s = decimal(n);
    lemma_digit_reads(n % 10);
    if n < 10 {
        lemma_digit_reads(n);
        assert(s.drop_last() =~= Seq::empty());
        assert(number(s.drop_last()) == 0);
    } else {
        let head = decimal(n / 10);
        law_decimal_reads_back(n / 10);
        assert(s.drop_last() =~= head);
        assert forall|i: int| #![trigger s[i]] 0 <= i < s.len() implies is_digit(s[i]) by {
            if i < head.len() {
                assert(s[i] == head[i]);
            }
        }
        assert(s[0] == head[0]);
        if head.len() == 1 && head[0] == '0' {
            assert(head.drop_last() =~= Seq::empty());
            assert(number(head.drop_last()) == 0);
        }
    }
}

/// So does one with a sign.
pub proof fn law_signed_reads_back(n: int)
    ensures
        signed_number(signed_decimal(n)) == n,
{
    if n < 0 {
        law_decimal_reads_back((-n) as nat);
        assert(signed_decimal(n).skip(1) =~= decimal((-n) as nat));
    } else {
        law_decimal_reads_back(n as nat);
        assert(is_digit(decimal(n as nat)[0]));
    }
}

/// What is written of a finite number is the nearest hundredth: off by at most
/// half of one, and of the same sign; between two that are as near, the even
/// one.
pub proof fn law_fixed_two_is_the_nearest_hundredth(x: Float32)
    requires
        x.finite(),
    ensures
        ({
            let r = hundredths_read(fixed_two(x));
            let u = pow2(149) as int;
            &&& 2 * (100 * x.units() - r * u) <= u
            &&& 2 * (r * u - 100 * x.units()) <= u
            &&& 2 * (100 * x.units() - r * u) == u ==> r % 2 == 0
            &&& 2 * (r * u - 100 * x.units()) == u ==> r % 2 == 0
        }),
        forall|i: int| #![trigger fixed_two(x)[i]]
            0 <= i < fixed_two(x).len() ==> fixed_two(x)[i] != ' ' && fixed_two(x)[i] != '\n',
        fixed_two(x).len() >= 4,
{
    let n = hundredths_of(x);
    let text = fixed_two(x);
    let negative = x.bits >= 0x8000_0000;
    let whole = decimal(n / 100);
    let body = whole + seq!['.', digit(n / 10 % 10), digit(n % 10)];
    law_decimal_reads_back(n / 100);
    lemma_digit_reads(n / 10 % 10);
    lemma_digit_reads(n % 10);
    if negative {
        assert(text.skip(1) =~= body);
        assert(text[0] == '-');
    } else {
        assert(text =~= body);
        assert(is_digit(whole[0]));
        assert(text[0] == whole[0]);
    }
    let k = body.len() - 3;
    assert(body.take(k) =~= whole);
    let tail = body.skip(k + 1);
    assert(tail =~= seq![digit(n / 10 % 10), digit(n % 10)]);
    assert(tail.drop_last() =~= seq![digit(n / 10 % 10)]);
    assert(tail.drop_last().drop_last() =~= Seq::empty());
    assert(number(tail.drop_last().drop_last()) == 0);
    assert(number(tail.drop_last()) == n / 10 % 10);
    assert(number(tail) == 10 * (n / 10 % 10) + n % 10);
    assert(100 * (n / 100) + 10 * (n / 10 % 10) + n % 10 == n);
    let r = hundredths_read(text);
    assert(r == if negative { -(n as int) } else { n as int });
    assert forall|i: int| #![trigger text[i]] 0 <= i < text.len() implies text[i] != ' ' && text[i]
        != '\n' by {
        let j = if negative {
            i - 1
        } else {
            i
        };
        if 0 <= j < whole.len() {
            assert(text[i] == whole[j]);
            assert(is_digit(whole[j]));
        } else if j >= 0 {
            assert(text[i] == body[j]);
        }
    }
    let u = pow2(149);
    lemma_pow2_pos(149);
    assert(n == nearest_even(100 * x.size(), u)) by {
        reveal(hundredths_of);
    }
    lemma_nearest_even_error(100 * x.size(), u);
    assert(r * u == if negative { -(n * u) } else { (n * u) as int }) by (nonlinear_arith)
        requires
            r == if negative { -(n as int) } else { n as int },
    ;
    assert(x.units() == if negative { -(x.size() as int) } else { x.size() as int });
}

/// The words of a line of five.
proof fn lemma_five_words(
    s: Seq<char>,
    a: Seq<char>,
    b: Seq<char>,
    c: Seq<char>,
    d: Seq<char>,
    e: Seq<char>,
    i: int,
    j: int,
)
    requires
        s == a + seq![' '] + b + seq![' '] + c + seq![' '] + d + seq![' '] + e,
        forall|k: int| #![trigger a[k]] 0 <= k < a.len() ==> a[k] != ' ',
        forall|k: int| #![trigger b[k]] 0 <= k < b.len() ==> b[k] != ' ',
        forall|k: int| #![trigger c[k]] 0 <= k < c.len() ==> c[k] != ' ',
        forall|k: int| #![trigger d[k]] 0 <= k < d.len() ==> d[k] != ' ',
        forall|k: int| #![trigger e[k]] 0 <= k < e.len() ==> e[k] != ' ',
        a.len() > 0,
        b.len() > 0,
        c.len() > 0,
        d.len() > 0,
        e.len() > 0,
    ensures
        ({
            let p = a.len() as int;
            let q = p + 1 + b.len();
            let r = q + 1 + c.len();
            let t = r + 1 + d.len();
            &&& s.len() == t + 1 + e.len()
            &&& word_at(s, 0, p) && s.subrange(0, p) == a
            &&& word_at(s, p + 1, q) && s.subrange(p + 1, q) == b
            &&& word_at(s, q + 1, r) && s.subrange(q + 1, r) == c
            &&& word_at(s, r + 1, t) && s.subrange(r + 1, t) == d
            &&& word_at(s, t + 1, s.len() as int) && s.subrange(t + 1, s.len() as int) == e
            &&& word_at(s, i, j) ==> (i == 0 && j == p) || (i == p + 1 && j == q) || (i == q + 1
                && j == r) || (i == r + 1 && j == t) || (i == t + 1 && j == s.len())
        }),
{
    let p = a.len() as int;
    let q = p + 1 + b.len();
    let r = q + 1 + c.len();
    let t = r + 1 + d.len();
    assert(s.subrange(0, p) =~= a);
    assert(s.subrange(p + 1, q) =~= b);
    assert(s.subrange(q + 1, r) =~= c);
    assert(s.subrange(r + 1, t) =~= d);
    assert(s.subrange(t + 1, s.len() as int) =~= e);
    assert(s[p] == ' ' && s[q] == ' ' && s[r] == ' ' && s[t] == ' ');
    assert forall|k: int| #![trigger s[k]] 0 <= k < s.len() implies (s[k] == ' ' <==> k == p || k
        == q || k == r || k == t) by {
        if k < p {
            assert(s[k] == a[k]);
        } else if p < k < q {
            assert(s[k] == b[k - p - 1]);
        } else if q < k < r {
            assert(s[k] == c[k - q - 1]);
        } else if r < k < t {
            assert(s[k] == d[k - r - 1]);
        } else if t < k {
            assert(s[k] == e[k - t - 1]);
        }
    }
    if word_at(s, i, j) {
        assert(i == 0 || s[i - 1] == ' ');
        assert(s[i] != ' ');
        if i <= p < j {
            assert(s[p] != ' ');
        }
        if i <= q < j {
            assert(s[q] != ' ');
        }
        if i <= r < j {
            assert(s[r] != ' ');
        }
        if i <= t < j {
            assert(s[t] != ' ');
        }
    }
}

/// A move is a straight one, and says where to and how fast: the coordinates
/// behind X, Y and Z, the feed rate behind F.
pub proof fn law_move_reads_back(p: Position, feed_rate: nat)
    requires
        p.x.finite(),
        p.y.finite(),
        p.z.finite(),
    ensures
        ({
            let cmd = move_gcode(p, feed_rate);
            &&& says(cmd, 'G', seq!['0', '1'])
            &&& says(cmd, 'X', fixed_two(p.x))
            &&& says(cmd, 'Y', fixed_two(p.y))
            &&& says(cmd, 'Z', fixed_two(p.z))
            &&& says(cmd, 'F', decimal(feed_rate))
            &&& number(decimal(feed_rate)) == feed_rate
        }),
{
    law_fixed_two_is_the_nearest_hundredth(p.x);
    law_fixed_two_is_the_nearest_hundredth(p.y);
    law_fixed_two_is_the_nearest_hundredth(p.z);
    law_decimal_reads_back(feed_rate);
    let f = decimal(feed_rate);
    assert forall|k: int| #![trigger f[k]] 0 <= k < f.len() implies f[k] != ' ' by {
        assert(is_digit(f[k]));
    }
    lemma_move_words(
        move_gcode(p, feed_rate),
        fixed_two(p.x),
        fixed_two(p.y),
        fixed_two(p.z),
        f,
    );
}

proof fn lemma_no_space(letter: char, text: Seq<char>)
    requires
        letter != ' ',
        forall|k: int| #![trigger text[k]] 0 <= k < text.len() ==> text[k] != ' ',
    ensures
        forall|k: int| #![trigger (seq![letter] + text)[k]]
            0 <= k < (seq![letter] + text).len() ==> (seq![letter] + text)[k] != ' ',
{
    let s = seq![letter] + text;
    assert forall|k: int| #![trigger s[k]] 0 <= k < s.len() implies s[k] != ' ' by {
        if k > 0 {
            assert(s[k] == text[k - 1]);
        }
    }
}

proof fn lemma_move_words(
    s: Seq<char>,
    x: Seq<char>,
    y: Seq<char>,
    z: Seq<char>,
    f: Seq<char>,
)
    requires
        s == "G01 X"@ + x + " Y"@ + y + " Z"@ + z + " F"@ + f,
        forall|k: int| #![trigger x[k]] 0 <= k < x.len() ==> x[k] != ' ',
        forall|k: int| #![trigger y[k]] 0 <= k < y.len() ==> y[k] != ' ',
        forall|k: int| #![trigger z[k]] 0 <= k < z.len() ==> z[k] != ' ',
        forall|k: int| #![trigger f[k]] 0 <= k < f.len() ==> f[k] != ' ',
    ensures
        says(s, 'G', seq!['0', '1']),
        says(s, 'X', x),
        says(s, 'Y', y),
        says(s, 'Z', z),
        says(s, 'F', f),
{
    let a = seq!['G', '0', '1'];
    let b = seq!['X'] + x;
    let c = seq!['Y'] + y;
    let d = seq!['Z'] + z;
    let e = seq!['F'] + f;
    assert(s =~= a + seq![' '] + b + seq![' '] + c + seq![' '] + d + seq![' '] + e) by {
        reveal_strlit("G01 X");
        reveal_strlit(" Y");
        reveal_strlit(" Z");
        reveal_strlit(" F");
    }
    lemma_no_space('X', x);
    lemma_no_space('Y', y);
    lemma_no_space('Z', z);
    lemma_no_space('F', f);
    lemma_five_words(s, a, b, c, d, e, 0, 0);
    let i1 = a.len() as int + 1;
    let i2 = i1 + b.len() + 1;
    let i3 = i2 + c.len() + 1;
    let i4 = i3 + d.len() + 1;
    lemma_word(s, 0, i1 - 1, 'G', seq!['0', '1']);
    lemma_word(s, i1, i2 - 1, 'X', x);
    lemma_word(s, i2, i3 - 1, 'Y', y);
    lemma_word(s, i3, i4 - 1, 'Z', z);
    lemma_word(s, i4, s.len() as int, 'F', f);
    assert forall|i: int, j: int| #[trigger] word_at(s, i, j) implies (i == 0 && j == i1 - 1) || (i
        == i1 && j == i2 - 1) || (i == i2 && j == i3 - 1) || (i == i3 && j == i4 - 1) || (i == i4
        && j == s.len()) by {
        lemma_five_words(s, a, b, c, d, e, i, j);
    }
}

/// A word taken apart.
proof fn lemma_word(s: Seq<char>, i: int, j: int, letter: char, text: Seq<char>)
    requires
        0 <= i < j <= s.len(),
        s.subrange(i, j) =~= seq![letter] + text,
    ensures
        s[i] == letter,
        s.subrange(i + 1, j) == text,
{
    let w = s.subrange(i, j);
    assert(w[0] == s[i]);
    assert(s.subrange(i + 1, j) =~= w.skip(1));
    assert((seq![letter] + text).skip(1) =~= text);
}

/// Two moves are written alike only where they go to the same place, to the
/// hundredth, at the same rate.
pub proof fn law_different_moves_are_written_differently(
    p: Position,
    q: Position,
    a: nat,
    b: nat,
)
    requires
        p.x.finite() && p.y.finite() && p.z.finite(),
        q.x.finite() && q.y.finite() && q.z.finite(),
        move_gcode(p, a) == move_gcode(q, b),
    ensures
        a == b,
        hundredths_read(fixed_two(p.x)) == hundredths_read(fixed_two(q.x)),
        hundredths_read(fixed_two(p.y)) == hundredths_read(fixed_two(q.y)),
        hundredths_read(fixed_two(p.z)) == hundredths_read(fixed_two(q.z)),
{
    let s = move_gcode(p, a);
    law_move_reads_back(p, a);
    law_move_reads_back(q, b);
    let (i, j) = choose|i: int, j: int| #[trigger] word_at(s, i, j) && s[i] == 'X';
    assert(s.subrange(i + 1, j) == fixed_two(p.x));
    let (i, j) = choose|i: int, j: int| #[trigger] word_at(s, i, j) && s[i] == 'Y';
    assert(s.subrange(i + 1, j) == fixed_two(p.y));
    let (i, j) = choose|i: int, j: int| #[trigger] word_at(s, i, j) && s[i] == 'Z';
    assert(s.subrange(i + 1, j) == fixed_two(p.z));
    let (i, j) = choose|i: int, j: int| #[trigger] word_at(s, i, j) && s[i] == 'F';
    assert(s.subrange(i + 1, j) == decimal(a));
}

/// A command goes out as one line that begins with the command and ends with
/// the id whose echo is awaited.
pub proof fn law_frame_is_one_line(cmd: Seq<char>, n: nat)
    requires
        forall|k: int| #![trigger cmd[k]] 0 <= k < cmd.len() ==> cmd[k] != '\n',
    ensures
        ({
            let line = framed(cmd, feedback_id(n));
            let id = feedback_id(n);
            &&& line.take(cmd.len() as int) == cmd
            &&& line.len() > cmd.len() + id.len() + 1
            &&& line.last() == '\n'
            &&& line.subrange(line.len() - 1 - id.len(), line.len() - 1) == id
            &&& forall|k: int| #![trigger line[k]] 0 <= k < line.len() - 1 ==> line[k] != '\n'
        }),
{
    reveal_strlit(" FEEDBACK:");
    reveal_strlit("\n");
    reveal_strlit("sync_");
    let id = feedback_id(n);
    let line = framed(cmd, id);
    law_decimal_reads_back(n);
    assert(line.take(cmd.len() as int) =~= cmd);
    assert(line.subrange(line.len() - 1 - id.len(), line.len() - 1) =~= id);
    assert forall|k: int| #![trigger line[k]] 0 <= k < line.len() - 1 implies line[k] != '\n' by {
        let m = cmd.len() + 10;
        if k < cmd.len() {
            assert(line[k] == cmd[k]);
        } else if k >= m {
            assert(line[k] == id[k - m]);
            if k - m >= 5 {
                assert(id[k - m] == decimal(n)[k - m - 5]);
            }
        }
    }
}

/// Two requests in a row carry different ids, each in its own frame, and leave
/// the robot as it was but for the count. A robot that is not connected takes
/// none, and nothing changes.
pub proof fn law_requests_are_told_apart(
    robot: DeltaX2,
    next: DeltaX2,
    last: DeltaX2,
    first: Result<GcodeRequest, RobotError>,
    second: Result<GcodeRequest, RobotError>,
    a: Seq<char>,
    b: Seq<char>,
    clears_first: bool,
    clears_second: bool,
)
    requires
        robot.sends(next, first, a, clears_first),
        next.sends(last, second, b, clears_second),
    ensures
        robot.connected <==> first is Ok,
        robot.connected <==> second is Ok,
        !robot.connected ==> last == robot && first->Err_0 is NotConnected,
        robot.connected ==> {
            let (x, y) = (first->Ok_0, second->Ok_0);
            &&& x.feedback_id@ != y.feedback_id@
            &&& x.frame@.take(x.command@.len() as int) == x.command@
            &&& x.frame@ == x.command@ + " FEEDBACK:"@ + x.feedback_id@ + "\n"@
            &&& x.clears_estop == clears_first
            &&& last.cmd_seq == robot.cmd_seq + 2
            &&& last == (DeltaX2 { cmd_seq: last.cmd_seq, ..robot })
        },
{
    if robot.connected {
        let (x, y) = (first->Ok_0, second->Ok_0);
        if x.feedback_id@ == y.feedback_id@ {
            law_ids_are_never_shared((robot.cmd_seq + 1) as nat, (robot.cmd_seq + 2) as nat);
        }
        assert(x.frame@.take(x.command@.len() as int) =~= x.command@);
    }
}

/// What the belt is told reads back as the speed that was asked for, behind the
/// command that starts it, in one line.
pub proof fn law_belt_speed_reads_back(speed: int)
    ensures
        ({
            let cmd = "M3 S"@ + signed_decimal(speed);
            &&& trimmed(cmd) == cmd
            &&& signed_number(cmd.skip(4)) == speed
        }),
{
    reveal_strlit("M3 S");
    let cmd = "M3 S"@ + signed_decimal(speed);
    let digits = decimal(if speed < 0 {
        (-speed) as nat
    } else {
        speed as nat
    });
    law_signed_reads_back(speed);
    law_decimal_reads_back(if speed < 0 {
        (-speed) as nat
    } else {
        speed as nat
    });
    assert(cmd.skip(4) =~= signed_decimal(speed));
    assert(cmd[cmd.len() - 1] == digits[digits.len() - 1]);
    assert(is_digit(digits[digits.len() - 1]));
    assert(cmd[0] == 'M');
    assert(Seq::<char>::empty() + cmd + Seq::<char>::empty() =~= cmd);
    law_trimming_takes_the_margins(Seq::empty(), cmd, Seq::empty());
}

} // verus!
