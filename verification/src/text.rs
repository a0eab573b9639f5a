//! Text: decimal numbers, trimming and ASCII comparison.
use crate::float::format::nearest_even;
use crate::float::rounding::hundredths;
use crate::float::Float32;
use vstd::prelude::*;

verus! {

/// The digit that stands for `d`.
pub open spec fn digit(d: nat) -> char {
    if d == 0 {
        '0'
    } else if d == 1 {
        '1'
    } else if d == 2 {
        '2'
    } else if d == 3 {
        '3'
    } else if d == 4 {
        '4'
    } else if d == 5 {
        '5'
    } else if d == 6 {
        '6'
    } else if d == 7 {
        '7'
    } else if d == 8 {
        '8'
    } else {
        '9'
    }
}

/// `n` in decimal, without leading zeros.
pub open spec fn decimal(n: nat) -> Seq<char>
    decreases n,
{
    if n < 10 {
        seq![digit(n)]
    } else {
        decimal(n / 10).push(digit(n % 10))
    }
}

/// `n` in decimal with a leading minus where it is negative.
pub open spec fn signed_decimal(n: int) -> Seq<char> {
    if n < 0 {
        seq!['-'] + decimal((-n) as nat)
    } else {
        decimal(n as nat)
    }
}

/// The size of a finite number in hundredths, a tie to the even one.
#[verifier::opaque]
pub open spec fn hundredths_of(x: Float32) -> nat {
    nearest_even(100 * x.size(), vstd::arithmetic::power2::pow2(149))
}

/// `x` with two digits after the point, rounded half to even from its exact
/// value; `NaN`, `inf` and `-inf` for what is not finite.
pub open spec fn fixed_two(x: Float32) -> Seq<char> {
    let sign = if x.bits >= 0x8000_0000 { seq!['-'] } else { Seq::empty() };
    if x.nan() {
        seq!['N', 'a', 'N']
    } else if !x.finite() {
        sign + seq!['i', 'n', 'f']
    } else {
        let n = hundredths_of(x);
        sign + decimal(n / 100) + seq!['.', digit(n / 10 % 10), digit(n % 10)]
    }
}

fn digit_text(d: u8) -> (r: &'static str)
    requires
        d < 10,
    ensures
        r@ == seq![digit(d as nat)],
{
    proof {
        reveal_strlit("0");
        reveal_strlit("1");
        reveal_strlit("2");
        reveal_strlit("3");
        reveal_strlit("4");
        reveal_strlit("5");
        reveal_strlit("6");
        reveal_strlit("7");
        reveal_strlit("8");
        reveal_strlit("9");
    }
    let r = match d {
        0 => "0",
        1 => "1",
        2 => "2",
        3 => "3",
        4 => "4",
        5 => "5",
        6 => "6",
        7 => "7",
        8 => "8",
        _ => "9",
    };
    assert(r@ =~= seq![digit(d as nat)]);
    r
}

/// Appends `n` in decimal.
pub fn push_decimal(text: &mut String, n: u128)
    ensures
        final(text)@ == old(text)@ + decimal(n as nat),
    decreases n,
{
    if n >= 10 {
        push_decimal(text, n / 10);
    }
    text.append(digit_text((n % 10) as u8));
    assert(text@ =~= old(text)@ + decimal(n as nat));
}

/// Appends `n` in decimal, with its sign.
pub fn push_signed(text: &mut String, n: i64)
    ensures
        final(text)@ == old(text)@ + signed_decimal(n as int),
{
    if n < 0 {
        proof {
            reveal_strlit("-");
        }
        text.append("-");
        push_decimal(text, (-(n as i128)) as u128);
        assert(text@ =~= old(text)@ + signed_decimal(n as int));
    } else {
        push_decimal(text, n as u128);
    }
}

/// Appends `x` with two digits after the point.
pub fn push_fixed_two(text: &mut String, x: Float32)
    ensures
        final(text)@ == old(text)@ + fixed_two(x),
{
    proof {
        reveal_strlit("NaN");
        reveal_strlit("inf");
        reveal_strlit("-");
        reveal_strlit(".");
    }
    if x.is_nan() {
        text.append("NaN");
        assert(text@ =~= old(text)@ + fixed_two(x));
        return;
    }
    if x.bits >= 0x8000_0000 {
        text.append("-");
    }
    if !x.is_finite() {
        text.append("inf");
        assert(text@ =~= old(text)@ + fixed_two(x));
        return;
    }
    let (whole, part): (u128, u8) = hundredths(x);
    assert(whole == hundredths_of(x) / 100 && part == hundredths_of(x) % 100) by {
        reveal(hundredths_of);
    }
    push_decimal(text, whole);
    text.append(".");
    text.append(digit_text(part / 10));
    text.append(digit_text(part % 10));
    assert(text@ =~= old(text)@ + fixed_two(x));
}

/// Whether `c` is white space, as Unicode defines it.
pub open spec fn white_space(c: char) -> bool {
    let n = c as u32;
    ||| 0x9 <= n <= 0xd
    ||| n == 0x20
    ||| n == 0x85
    ||| n == 0xa0
    ||| n == 0x1680
    ||| 0x2000 <= n <= 0x200a
    ||| n == 0x2028
    ||| n == 0x2029
    ||| n == 0x202f
    ||| n == 0x205f
    ||| n == 0x3000
}

/// `s` without the white space at its start.
pub open spec fn trimmed_start(s: Seq<char>) -> Seq<char>
    decreases s.len(),
{
    if s.len() > 0 && white_space(s[0]) {
        trimmed_start(s.subrange(1, s.len() as int))
    } else {
        s
    }
}

/// `s` without the white space at its end.
pub open spec fn trimmed_end(s: Seq<char>) -> Seq<char>
    decreases s.len(),
{
    if s.len() > 0 && white_space(s.last()) {
        trimmed_end(s.drop_last())
    } else {
        s
    }
}

/// `s` without the white space at both ends.
pub open spec fn trimmed(s: Seq<char>) -> Seq<char> {
    trimmed_end(trimmed_start(s))
}

fn is_white_space(c: char) -> (r: bool)
    ensures
        r == white_space(c),
{
    let n: u32 = c as u32;
    (0x9 <= n && n <= 0xd) || n == 0x20 || n == 0x85 || n == 0xa0 || n == 0x1680 || (0x2000 <= n
        && n <= 0x200a) || n == 0x2028 || n == 0x2029 || n == 0x202f || n == 0x205f || n == 0x3000
}

/// `s` without the white space at both ends.
pub fn trim(s: &str) -> (r: &str)
    ensures
        r@ == trimmed(s@),
{
    let n: usize = s.unicode_len();
    let mut from: usize = 0;
    assert(s@.subrange(0, n as int) =~= s@);
    while from < n && is_white_space(s.get_char(from))
        invariant
            from <= n == s@.len(),
            trimmed_start(s@) == trimmed_start(s@.subrange(from as int, n as int)),
        decreases n - from,
    {
        assert(s@.subrange(from as int, n as int).subrange(1, n - from) =~= s@.subrange(
            from + 1,
            n as int,
        ));
        from = from + 1;
    }
    let ghost middle = s@.subrange(from as int, n as int);
    assert(trimmed_start(s@) == middle);
    let mut to: usize = n;
    while to > from && is_white_space(s.get_char(to - 1))
        invariant
            from <= to <= n == s@.len(),
            trimmed_end(middle) == trimmed_end(s@.subrange(from as int, to as int)),
        decreases to,
    {
        assert(s@.subrange(from as int, to as int).drop_last() =~= s@.subrange(
            from as int,
            to - 1,
        ));
        to = to - 1;
    }
    assert(trimmed_end(s@.subrange(from as int, to as int)) == s@.subrange(from as int, to as int));
    s.substring_char(from, to)
}

/// Whether two texts are the same.
pub fn same_text(a: &str, b: &str) -> (r: bool)
    ensures
        r == (a@ == b@),
{
    let n: usize = a.unicode_len();
    if n != b.unicode_len() {
        return false;
    }
    let mut i: usize = 0;
    while i < n
        invariant
            i <= n,
            n == a@.len(),
            n == b@.len(),
            forall|j: int| 0 <= j < i ==> a@[j] == b@[j],
        decreases n - i,
    {
        if a.get_char(i) != b.get_char(i) {
            return false;
        }
        i = i + 1;
    }
    assert(a@ =~= b@);
    true
}

/// `c` with an ASCII capital made small.
pub open spec fn ascii_lower(c: char) -> char {
    if 'A' <= c <= 'Z' {
        (c as u32 + 32) as char
    } else {
        c
    }
}

/// `s` with its ASCII capitals made small.
pub open spec fn lowered(s: Seq<char>) -> Seq<char> {
    s.map_values(|c: char| ascii_lower(c))
}

/// `part` occurs in `s` as one piece.
pub open spec fn occurs_in(part: Seq<char>, s: Seq<char>) -> bool {
    exists|i: int| occurs_at(part, s, i)
}

/// `part` stands in `s` at `i`.
pub open spec fn occurs_at(part: Seq<char>, s: Seq<char>, i: int) -> bool {
    0 <= i && i + part.len() <= s.len() && s.subrange(i, i + part.len()) == part
}

fn lower(c: char) -> (r: char)
    ensures
        r == ascii_lower(c),
{
    if 'A' <= c && c <= 'Z' {
        (c as u8 + 32) as char
    } else {
        c
    }
}

/// Whether `s`, with its ASCII capitals made small, holds `part`.
pub fn holds_ignoring_case(s: &str, part: &str) -> (r: bool)
    ensures
        r == occurs_in(part@, lowered(s@)),
{
    let n: usize = s.unicode_len();
    let m: usize = part.unicode_len();
    if m > n {
        return false;
    }
    let mut i: usize = 0;
    while i <= n - m
        invariant
            m <= n,
            i <= n - m + 1,
            n == s@.len(),
            m == part@.len(),
            forall|k: int| 0 <= k < i ==> !occurs_at(part@, lowered(s@), k),
        decreases n - i,
    {
        let mut j: usize = 0;
        while j < m && lower(s.get_char(i + j)) == part.get_char(j)
            invariant
                j <= m <= n,
                i <= n - m,
                n == s@.len(),
                m == part@.len(),
                forall|k: int| 0 <= k < j ==> lowered(s@)[i + k] == part@[k],
            decreases m - j,
        {
            j = j + 1;
        }
        if j == m {
            assert(lowered(s@).subrange(i as int, i + m) =~= part@);
            assert(occurs_at(part@, lowered(s@), i as int));
            return true;
        }
        assert(!occurs_at(part@, lowered(s@), i as int)) by {
            if occurs_at(part@, lowered(s@), i as int) {
                assert(lowered(s@).subrange(i as int, i + m)[j as int] == part@[j as int]);
            }
        }
        i = i + 1;
    }
    false
}

/// Whether `s` is `word`, ASCII capitals or not.
pub fn is_ignoring_case(s: &str, word: &str) -> (r: bool)
    ensures
        r == (lowered(s@) == lowered(word@)),
{
    let n: usize = s.unicode_len();
    if n != word.unicode_len() {
        assert(lowered(s@).len() != lowered(word@).len());
        return false;
    }
    let mut i: usize = 0;
    while i < n
        invariant
            i <= n,
            n == s@.len(),
            n == word@.len(),
            forall|j: int| 0 <= j < i ==> lowered(s@)[j] == lowered(word@)[j],
        decreases n - i,
    {
        if lower(s.get_char(i)) != lower(word.get_char(i)) {
            assert(lowered(s@)[i as int] != lowered(word@)[i as int]);
            return false;
        }
        i = i + 1;
    }
    assert(lowered(s@) =~= lowered(word@));
    true
}

} // verus!
