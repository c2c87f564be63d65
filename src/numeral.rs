//! Decimal text of integers: reading it with a sign and a range, and writing
//! it in canonical form.
use crate::error::IntErrorKind;
use vstd::prelude::*;

verus! {

pub open spec fn is_digit(b: u8) -> bool {
    48 <= b <= 57
}

/// The canonical decimal text of a natural number: no leading zero.
pub open spec fn nat_text(n: nat) -> Seq<u8>
    decreases n,
{
    if n < 10 {
        seq![(48 + n) as u8]
    } else {
        nat_text(n / 10).push((48 + n % 10) as u8)
    }
}

/// The canonical decimal text of an integer: `-` only before a negative one.
pub open spec fn int_text(v: int) -> Seq<u8> {
    if v < 0 {
        seq![45u8] + nat_text((-v) as nat)
    } else {
        nat_text(v as nat)
    }
}

/// The value of a run of digits, read left to right.
pub open spec fn digits_value(s: Seq<u8>) -> nat
    decreases s.len(),
{
    if s.len() == 0 {
        0
    } else {
        digits_value(s.drop_last()) * 10 + (s.last() - 48) as nat
    }
}

/// Reads the digits of `s` from index `i` on, after a magnitude `acc`: the
/// first byte that is no digit, or the first digit that takes the magnitude
/// above `bound` (reported as `over`), ends the reading with an error.
pub open spec fn digits_from(s: Seq<u8>, i: int, acc: int, bound: int, over: IntErrorKind) -> Result<int, IntErrorKind>
    decreases s.len() - i,
{
    if i < 0 || i >= s.len() {
        Ok(acc)
    } else if !is_digit(s[i]) {
        Err(IntErrorKind::InvalidDigit)
    } else if acc * 10 + (s[i] - 48) > bound {
        Err(over)
    } else {
        digits_from(s, i + 1, acc * 10 + (s[i] - 48), bound, over)
    }
}

/// Reads `s` as a decimal integer of the range `lo..=hi`: an optional `+`,
/// or `-` where the range holds negative numbers, then one digit or more.
pub open spec fn parse_int(s: Seq<u8>, lo: int, hi: int) -> Result<int, IntErrorKind> {
    if s.len() == 0 {
        Err(IntErrorKind::Empty)
    } else if (s[0] == 43 || s[0] == 45) && s.len() == 1 {
        Err(IntErrorKind::InvalidDigit)
    } else if s[0] == 43 {
        digits_from(s, 1, 0, hi, IntErrorKind::PosOverflow)
    } else if s[0] == 45 && lo < 0 {
        match digits_from(s, 1, 0, -lo, IntErrorKind::NegOverflow) {
            Ok(m) => Ok(-m),
            Err(e) => Err(e),
        }
    } else {
        digits_from(s, 0, 0, hi, IntErrorKind::PosOverflow)
    }
}

/// Reads the digits of `data` from `start` on, with magnitude at most `bound`.
fn read_magnitude(data: &[u8], start: usize, bound: u64, over: IntErrorKind) -> (r: Result<u64, IntErrorKind>)
    requires
        start <= data@.len(),
        bound >= 9,
    ensures
        r matches Ok(m) ==> m <= bound,
        r matches Ok(m) ==> digits_from(data@, start as int, 0, bound as int, over) == Ok::<int, IntErrorKind>(m as int),
        r matches Err(e) ==> digits_from(data@, start as int, 0, bound as int, over) == Err::<int, IntErrorKind>(e),
{
    let mut i: usize = start;
    let mut acc: u64 = 0;
    while i < data.len()
        invariant
            start <= i <= data@.len(),
            acc <= bound,
            bound >= 9,
            digits_from(data@, start as int, 0, bound as int, over) == digits_from(
                data@,
                i as int,
                acc as int,
                bound as int,
                over,
            ),
        decreases data@.len() - i,
    {
        let c = data[i];
        if c < 48 || c > 57 {
            return Err(IntErrorKind::InvalidDigit);
        }
        let d: u64 = (c - 48) as u64;
        if acc > (bound - d) / 10 {
            assert(acc * 10 + d > bound) by (nonlinear_arith)
                requires
                    acc > (bound - d) / 10,
                    d <= 9,
                    bound >= 9,
            ;
            return Err(over);
        }
        assert(acc * 10 + d <= bound) by (nonlinear_arith)
            requires
                acc <= (bound - d) / 10,
                d <= 9,
                bound >= 9,
        ;
        acc = acc * 10 + d;
        i = i + 1;
    }
    Ok(acc)
}

/// Reads a decimal integer of the range `0..=hi`.
pub(crate) fn parse_unsigned(data: &[u8], hi: u64) -> (r: Result<u64, IntErrorKind>)
    requires
        hi >= 9,
    ensures
        r matches Ok(v) ==> v <= hi,
        r matches Ok(v) ==> parse_int(data@, 0, hi as int) == Ok::<int, IntErrorKind>(v as int),
        r matches Err(e) ==> parse_int(data@, 0, hi as int) == Err::<int, IntErrorKind>(e),
{
    if data.len() == 0 {
        return Err(IntErrorKind::Empty);
    }
    if (data[0] == 43 || data[0] == 45) && data.len() == 1 {
        return Err(IntErrorKind::InvalidDigit);
    }
    let start: usize = if data[0] == 43 {
        1
    } else {
        0
    };
    read_magnitude(data, start, hi, IntErrorKind::PosOverflow)
}

/// Reads a decimal integer of the range `lo..=hi`, where `lo` is negative.
pub(crate) fn parse_signed(data: &[u8], lo: i64, hi: i64) -> (r: Result<i64, IntErrorKind>)
    requires
        lo <= -9,
        hi >= 9,
    ensures
        r matches Ok(v) ==> lo <= v <= hi,
        r matches Ok(v) ==> parse_int(data@, lo as int, hi as int) == Ok::<int, IntErrorKind>(v as int),
        r matches Err(e) ==> parse_int(data@, lo as int, hi as int) == Err::<int, IntErrorKind>(e),
{
    if data.len() == 0 {
        return Err(IntErrorKind::Empty);
    }
    if (data[0] == 43 || data[0] == 45) && data.len() == 1 {
        return Err(IntErrorKind::InvalidDigit);
    }
    if data[0] == 45 {
        let bound: u64 = ((-(lo + 1)) as u64) + 1;
        match read_magnitude(data, 1, bound, IntErrorKind::NegOverflow) {
            Ok(m) => {
                if m == 0 {
                    Ok(0)
                } else {
                    Ok(-((m - 1) as i64) - 1)
                }
            },
            Err(e) => Err(e),
        }
    } else {
        let start: usize = if data[0] == 43 {
            1
        } else {
            0
        };
        match read_magnitude(data, start, hi as u64, IntErrorKind::PosOverflow) {
            Ok(m) => Ok(m as i64),
            Err(e) => Err(e),
        }
    }
}

/// Appends the canonical decimal text of `n`.
pub fn push_nat(buf: &mut Vec<u8>, n: u64)
    ensures
        final(buf)@ == old(buf)@ + nat_text(n as nat),
    decreases n,
{
    if n >= 10 {
        push_nat(buf, n / 10);
    }
    buf.push((48 + n % 10) as u8);
    proof {
        assert(old(buf)@ + nat_text(n as nat) =~= final(buf)@) by {
            reveal_with_fuel(nat_text, 2);
        }
    }
}

/// Appends the canonical decimal text of `v`.
pub fn push_int(buf: &mut Vec<u8>, v: i64)
    ensures
        final(buf)@ == old(buf)@ + int_text(v as int),
{
    if v < 0 {
        buf.push(45);
        let m: u64 = ((-(v + 1)) as u64) + 1;
        push_nat(buf, m);
        assert(final(buf)@ =~= old(buf)@ + int_text(v as int));
    } else {
        push_nat(buf, v as u64);
    }
}

proof fn lemma_digits_from_digits(s: Seq<u8>, i: int, acc: int, bound: int, over: IntErrorKind)
    requires
        0 <= i,
        digits_from(s, i, acc, bound, over) is Ok,
    ensures
        forall|j: int| i <= j < s.len() ==> is_digit(#[trigger] s[j]),
    decreases s.len() - i,
{
    if i < s.len() {
        lemma_digits_from_digits(s, i + 1, acc * 10 + (s[i] - 48), bound, over);
    }
}

/// A text that reads as an integer holds digits and signs only.
pub proof fn lemma_parse_int_ascii(s: Seq<u8>, lo: int, hi: int)
    requires
        parse_int(s, lo, hi) is Ok,
    ensures
        forall|j: int| 0 <= j < s.len() ==> #[trigger] s[j] < 128,
{
    if s[0] == 43 {
        lemma_digits_from_digits(s, 1, 0, hi, IntErrorKind::PosOverflow);
    } else if s[0] == 45 && lo < 0 {
        lemma_digits_from_digits(s, 1, 0, -lo, IntErrorKind::NegOverflow);
    } else {
        lemma_digits_from_digits(s, 0, 0, hi, IntErrorKind::PosOverflow);
    }
    assert forall|j: int| 0 <= j < s.len() implies #[trigger] s[j] < 128 by {
        if j > 0 {
            assert(is_digit(s[j]));
        }
    }
}

} // verus!
