//! Integers in decimal: printing them, and reading unsigned ones the way `str::parse` does.

use vstd::prelude::*;
use vstd::string::*;

use crate::text::{chars_of, Text};

verus! {

// ---------------------------------------------------------------------------
// Printing
// ---------------------------------------------------------------------------

/// The character of the decimal digit `d`.
pub open spec fn digit_char(d: int) -> char {
    (48 + d) as char
}

/// The decimal notation of `n`, without leading zeros.
pub open spec fn decimal(n: nat) -> Text
    decreases n,
{
    if n < 10 {
        seq![digit_char(n as int)]
    } else {
        decimal(n / 10).push(digit_char((n % 10) as int))
    }
}

/// The decimal notation of `i`, with a minus sign in front of a negative number.
pub open spec fn signed_decimal(i: int) -> Text {
    if i < 0 {
        seq!['-'] + decimal((-i) as nat)
    } else {
        decimal(i as nat)
    }
}

fn digit_text(d: u64) -> (r: &'static str)
    requires
        d < 10,
    ensures
        r@ == seq![digit_char(d as int)],
{
    proof {
        reveal_strlit("0");
        reveal_strlit("1");
        reveal_strlit("2");
        reveal_strlit("3");
        reveal_strlit("4");
        reveal_strlit("5");
        reveal_strlit("6");
        reveal_strlit("7");
        reveal_strlit("8");
        reveal_strlit("9");
    }
    let r: &'static str = if d == 0 {
        "0"
    } else if d == 1 {
        "1"
    } else if d == 2 {
        "2"
    } else if d == 3 {
        "3"
    } else if d == 4 {
        "4"
    } else if d == 5 {
        "5"
    } else if d == 6 {
        "6"
    } else if d == 7 {
        "7"
    } else if d == 8 {
        "8"
    } else {
        "9"
    };
    assert(r@ =~= seq![digit_char(d as int)]);
    r
}

/// `n` in decimal.
pub fn decimal_text(n: u64) -> (r: String)
    ensures
        r@ == decimal(n as nat),
    decreases n,
{
    if n < 10 {
        digit_text(n).to_owned()
    } else {
        let head = decimal_text(n / 10);
        let r = head.concat(digit_text(n % 10));
        assert(r@ =~= decimal(n as nat));
        r
    }
}

/// `i` in decimal, with a minus sign where it is negative.
pub fn signed_text(i: i32) -> (r: String)
    ensures
        r@ == signed_decimal(i as int),
{
    if i < 0 {
        let m: i64 = -(i as i64);
        proof {
            reveal_strlit("-");
        }
        let r = "-".to_owned().concat(decimal_text(m as u64).as_str());
        assert(r@ =~= signed_decimal(i as int));
        r
    } else {
        decimal_text(i as u64)
    }
}

// ---------------------------------------------------------------------------
// Reading
// ---------------------------------------------------------------------------

/// Why a text is not an unsigned integer of the wanted size.
#[derive(Clone, Copy, Debug, PartialEq, Eq, Structural)]
pub enum IntError {
    /// There are no characters.
    Empty,
    /// A character is not a digit, or the text is a lone sign.
    InvalidDigit,
    /// The number is larger than the type can hold.
    TooLarge,
}

impl IntError {
    /// The message that goes with the error.
    pub open spec fn says(self) -> Text {
        match self {
            IntError::Empty => "cannot parse integer from empty string"@,
            IntError::InvalidDigit => "invalid digit found in string"@,
            IntError::TooLarge => "number too large to fit in target type"@,
        }
    }

    /// The message that goes with the error.
    pub fn message(&self) -> (r: String)
        ensures
            r@ == self.says(),
            match self {
                IntError::Empty => r@ == "cannot parse integer from empty string"@,
                IntError::InvalidDigit => r@ == "invalid digit found in string"@,
                IntError::TooLarge => r@ == "number too large to fit in target type"@,
            },
    {
        match self {
            IntError::Empty => "cannot parse integer from empty string".to_owned(),
            IntError::InvalidDigit => "invalid digit found in string".to_owned(),
            IntError::TooLarge => "number too large to fit in target type".to_owned(),
        }
    }
}

/// Whether `c` is one of the ten ASCII digits.
pub open spec fn is_digit(c: char) -> bool {
    '0' <= c && c <= '9'
}

/// The number that the digits of `s` write in decimal, read from the left and given up at the
/// first character that is not a digit or that takes the number beyond `max`.
pub open spec fn read_digits(s: Text, max: nat) -> Result<nat, IntError>
    decreases s.len(),
{
    if s.len() == 0 {
        Ok(0)
    } else {
        match read_digits(s.drop_last(), max) {
            Err(e) => Err(e),
            Ok(v) => if !is_digit(s.last()) {
                Err(IntError::InvalidDigit)
            } else {
                let w = v * 10 + (s.last() as nat - 48);
                if w > max {
                    Err(IntError::TooLarge)
                } else {
                    Ok(w as nat)
                }
            },
        }
    }
}

/// The unsigned integer that `s` writes: an optional plus sign, then one or more digits.
pub open spec fn read_unsigned(s: Text, max: nat) -> Result<nat, IntError> {
    if s.len() == 0 {
        Err(IntError::Empty)
    } else if s.len() == 1 && (s[0] == '+' || s[0] == '-') {
        Err(IntError::InvalidDigit)
    } else if s[0] == '+' {
        read_digits(s.drop_first(), max)
    } else {
        read_digits(s, max)
    }
}

proof fn lemma_read_digits_err(s: Text, k: int, max: nat)
    requires
        0 <= k <= s.len(),
        read_digits(s.take(k), max) is Err,
    ensures
        read_digits(s, max) == read_digits(s.take(k), max),
    decreases s.len() - k,
{
    if k < s.len() {
        assert(s.take(k + 1).drop_last() =~= s.take(k));
        lemma_read_digits_err(s, k + 1, max);
    } else {
        assert(s.take(k) =~= s);
    }
}

/// Reads an unsigned integer that is at most `max`.
pub fn parse_unsigned(s: &str, max: u64) -> (r: Result<u64, IntError>)
    ensures
        match r {
            Ok(v) => read_unsigned(s@, max as nat) == Ok::<nat, IntError>(v as nat) && v <= max,
            Err(e) => read_unsigned(s@, max as nat) == Err::<nat, IntError>(e),
        },
{
    let cs = chars_of(s);
    if cs.len() == 0 {
        return Err(IntError::Empty);
    }
    if cs.len() == 1 && (cs[0] == '+' || cs[0] == '-') {
        return Err(IntError::InvalidDigit);
    }
    let from: usize = if cs[0] == '+' {
        1
    } else {
        0
    };
    let ghost digits = cs@.skip(from as int);
    proof {
        assert(cs@.skip(0) =~= cs@);
        assert(cs@.skip(1) =~= cs@.drop_first());
        assert(digits.take(0) =~= Seq::<char>::empty());
    }
    let mut v: u64 = 0;
    let mut i: usize = from;
    while i < cs.len()
        invariant
            from <= i <= cs.len(),
            digits == cs@.skip(from as int),
            read_unsigned(s@, max as nat) == read_digits(digits, max as nat),
            read_digits(digits.take(i - from), max as nat) == Ok::<nat, IntError>(v as nat),
            v <= max,
        decreases cs.len() - i,
    {
        let c = cs[i];
        proof {
            assert(digits.take(i + 1 - from).drop_last() =~= digits.take(i - from));
            assert(digits.take(i + 1 - from).last() == c);
            if read_digits(digits.take(i + 1 - from), max as nat) is Err {
                lemma_read_digits_err(digits, i + 1 - from, max as nat);
            }
        }
        if !('0' <= c && c <= '9') {
            return Err(IntError::InvalidDigit);
        }
        let d: u64 = c as u64 - 48;
        if d > max || v > max / 10 || v * 10 > max - d {
            return Err(IntError::TooLarge);
        }
        v = v * 10 + d;
        i += 1;
    }
    assert(digits.take(cs.len() - from) =~= digits);
    Ok(v)
}

// ---------------------------------------------------------------------------
// Laws
// ---------------------------------------------------------------------------

/// What is printed is read back: the decimal notation of a number that is at most `max` reads
/// as that number.
pub proof fn law_decimal_reads_back(n: nat, max: nat)
    requires
        n <= max,
    ensures
        read_unsigned(decimal(n), max) == Ok::<nat, IntError>(n),
{
    lemma_decimal_digits(n, max);
    let s = decimal(n);
    assert(is_digit(s[0]));
}

proof fn lemma_decimal_digits(n: nat, max: nat)
    requires
        n <= max,
    ensures
        read_digits(decimal(n), max) == Ok::<nat, IntError>(n),
        decimal(n).len() > 0,
        is_digit(decimal(n)[0]),
    decreases n,
{
    let s = decimal(n);
    if n < 10 {
        assert(s.drop_last() =~= Seq::<char>::empty());
        assert(read_digits(s.drop_last(), max) == Ok::<nat, IntError>(0));
    } else {
        lemma_decimal_digits(n / 10, max);
        assert(s.drop_last() =~= decimal(n / 10));
    }
}

/// Decimal notation is positional: a number below ten is one digit, and ten times a number plus a
/// digit is that number with the digit behind it. A negative number has a minus sign in front.
pub proof fn law_decimal_is_positional(n: nat, d: nat)
    requires
        d < 10,
    ensures
        decimal(d) == seq![(48 + d) as char],
        n > 0 ==> decimal(10 * n + d) == decimal(n).push((48 + d) as char),
        signed_decimal(n as int) == decimal(n),
        n > 0 ==> signed_decimal(-n) == seq!['-'] + decimal(n),
{
    if n > 0 {
        assert((10 * n + d) / 10 == n);
        assert((10 * n + d) % 10 == d);
    }
}

/// Reading is positional too: what reads as a number, with a digit behind it, reads as ten times
/// that number plus the digit, unless that is more than `max`; anything else behind it is no
/// digit; and what does not read does not read with more behind it.
pub proof fn law_reading_is_positional(s: Text, c: char, max: nat)
    requires
        s.len() > 0,
        s.len() > 1 || (s[0] != '+' && s[0] != '-'),
    ensures
        match read_unsigned(s, max) {
            Ok(v) => {
                &&& v <= max
                &&& read_unsigned(s.push(c), max) == (if c < '0' || c > '9' {
                    Err::<nat, IntError>(IntError::InvalidDigit)
                } else if 10 * v + (c as nat - 48) > max {
                    Err(IntError::TooLarge)
                } else {
                    Ok((10 * v + (c as nat - 48)) as nat)
                })
            },
            Err(e) => read_unsigned(s.push(c), max) == Err::<nat, IntError>(e),
        },
{
    let t = if s[0] == '+' {
        s.drop_first()
    } else {
        s
    };
    lemma_read_within(t, max);
    assert(t.push(c).drop_last() =~= t);
    assert(s.push(c)[0] == s[0]);
    assert(s.push(c).drop_first() =~= s.drop_first().push(c));
}

proof fn lemma_read_within(s: Text, max: nat)
    ensures
        read_digits(s, max) is Ok ==> read_digits(s, max)->Ok_0 <= max,
    decreases s.len(),
{
    if s.len() > 0 {
        lemma_read_within(s.drop_last(), max);
    }
}

/// Where reading begins: nothing is no number; one character is a number if it is a digit; and a
/// plus sign in front of a number changes nothing, while any other sign is no digit.
pub proof fn law_reading_begins_with_a_digit(c: char, max: nat)
    ensures
        read_unsigned(Seq::empty(), max) == Err::<nat, IntError>(IntError::Empty),
        read_unsigned(seq![c], max) == (if c < '0' || c > '9' {
            Err::<nat, IntError>(IntError::InvalidDigit)
        } else if c as nat - 48 > max {
            Err(IntError::TooLarge)
        } else {
            Ok((c as nat - 48) as nat)
        }),
        read_unsigned(seq!['+', c], max) == read_unsigned(seq![c], max),
        read_unsigned(seq!['-', c], max) == Err::<nat, IntError>(IntError::InvalidDigit),
{
    let s = seq![c];
    assert(s.drop_last() =~= Seq::<char>::empty());
    assert(read_digits(Seq::<char>::empty(), max) == Ok::<nat, IntError>(0));
    assert(seq!['+', c].drop_first() =~= s);
    let minus = seq!['-', c];
    assert(minus.drop_last() =~= seq!['-']);
    assert(seq!['-'].drop_last() =~= Seq::<char>::empty());
    assert(read_digits(seq!['-'], max) == Err::<nat, IntError>(IntError::InvalidDigit));
}

} // verus!
