//! Unsigned decimal numerals: printing (as `format!("{}", n)` prints a
//! `usize`) and reading (as `str::parse::<usize>` reads one).

use vstd::prelude::*;

verus! {

/// The ASCII digit for `d` (`0 <= d < 10`).
pub open spec fn digit_byte(d: nat) -> u8 {
    (48 + d) as u8
}

/// Whether `b` is an ASCII decimal digit.
pub open spec fn is_digit(b: u8) -> bool {
    48 <= b <= 57
}

/// The shortest decimal numeral of `n`, as ASCII bytes.
pub open spec fn decimal_digits(n: nat) -> Seq<u8>
    decreases n,
{
    if n < 10 {
        seq![digit_byte(n)]
    } else {
        decimal_digits(n / 10).push(digit_byte(n % 10))
    }
}

/// ASCII bytes read as characters.
pub open spec fn ascii_chars(b: Seq<u8>) -> Seq<char> {
    b.map_values(|x: u8| x as char)
}

/// The decimal numeral of `n`, as characters.
pub open spec fn decimal_chars(n: nat) -> Seq<char> {
    ascii_chars(decimal_digits(n))
}

/// Why a numeral was refused, in the order the standard parser tests.
#[derive(Debug, Clone, Copy, PartialEq, Eq, Structural)]
pub enum NumeralError {
    /// Nothing to read.
    Empty,
    /// A character that is not a digit (or a sign with nothing after it).
    InvalidDigit,
    /// The value does not fit in a `usize`.
    Overflow,
}

/// Reads the digits of `s` left to right; the first offending digit decides
/// the error.
pub open spec fn digits_value(s: Seq<u8>) -> Result<nat, NumeralError>
    decreases s.len(),
{
    if s.len() == 0 {
        Ok(0)
    } else {
        match digits_value(s.drop_last()) {
            Err(e) => Err(e),
            Ok(v) => if !is_digit(s.last()) {
                Err(NumeralError::InvalidDigit)
            } else if v * 10 + (s.last() - 48) > usize::MAX {
                Err(NumeralError::Overflow)
            } else {
                Ok(v * 10 + (s.last() - 48) as nat)
            },
        }
    }
}

/// What `usize::from_str` gives for the bytes `s`: an optional leading `+`,
/// then one or more digits.
pub open spec fn numeral_value(s: Seq<u8>) -> Result<nat, NumeralError> {
    if s.len() == 0 {
        Err(NumeralError::Empty)
    } else if s.len() == 1 && (s[0] == 43 || s[0] == 45) {
        Err(NumeralError::InvalidDigit)
    } else if s[0] == 43 {
        digits_value(s.drop_first())
    } else {
        digits_value(s)
    }
}

fn digit_str(d: usize) -> (s: &'static str)
    requires
        d < 10,
    ensures
        s@ == seq![digit_byte(d as nat) as char],
{
    match d {
        0 => { proof { reveal_strlit("0"); } "0" },
        1 => { proof { reveal_strlit("1"); } "1" },
        2 => { proof { reveal_strlit("2"); } "2" },
        3 => { proof { reveal_strlit("3"); } "3" },
        4 => { proof { reveal_strlit("4"); } "4" },
        5 => { proof { reveal_strlit("5"); } "5" },
        6 => { proof { reveal_strlit("6"); } "6" },
        7 => { proof { reveal_strlit("7"); } "7" },
        8 => { proof { reveal_strlit("8"); } "8" },
        _ => { proof { reveal_strlit("9"); } "9" },
    }
}

/// Appends the decimal numeral of `n` to `s`.
pub fn push_decimal(s: &mut String, n: usize)
    ensures
        final(s)@ == old(s)@ + decimal_chars(n as nat),
    decreases n,
{
    if n >= 10 {
        push_decimal(s, n / 10);
    }
    s.append(digit_str(n % 10));
    proof {
        if n >= 10 {
            assert(decimal_chars(n as nat) =~= decimal_chars((n / 10) as nat) + seq![
                digit_byte((n % 10) as nat) as char]);
        } else {
            assert(decimal_chars(n as nat) =~= seq![digit_byte(n as nat) as char]);
        }
    }
}

/// The decimal numeral of `n`.
pub fn decimal_string(n: usize) -> (s: String)
    ensures
        s@ == decimal_chars(n as nat),
{
    let mut s = String::new();
    push_decimal(&mut s, n);
    proof {
        assert(s@ =~= decimal_chars(n as nat));
    }
    s
}

/// Reads `bytes[start..end]` as `usize::from_str` would.
pub fn parse_numeral(bytes: &[u8], start: usize, end: usize) -> (r: Result<usize, NumeralError>)
    requires
        start <= end <= bytes@.len(),
    ensures
        match numeral_value(bytes@.subrange(start as int, end as int)) {
            Ok(v) => r == Ok::<usize, NumeralError>(v as usize),
            Err(e) => r == Err::<usize, NumeralError>(e),
        },
{
    let ghost s = bytes@.subrange(start as int, end as int);
    if start == end {
        return Err(NumeralError::Empty);
    }
    let first = bytes[start];
    if end - start == 1 && (first == 43 || first == 45) {
        return Err(NumeralError::InvalidDigit);
    }
    let from = if first == 43 { start + 1 } else { start };
    proof {
        if first == 43 {
            assert(bytes@.subrange(from as int, end as int) =~= s.drop_first());
        }
    }
    let mut value: usize = 0;
    let mut i = from;
    while i < end
        invariant
            start <= from <= i <= end <= bytes@.len(),
            start < end,
            s == bytes@.subrange(start as int, end as int),
            first == bytes@[start as int],
            from == if first == 43 { start + 1 } else { start as int },
            !(end - start == 1 && (first == 43 || first == 45)),
            first == 43 ==> bytes@.subrange(from as int, end as int) =~= s.drop_first(),
            digits_value(bytes@.subrange(from as int, i as int)) == Ok::<nat, NumeralError>(
                value as nat),
        decreases end - i,
    {
        let b = bytes[i];
        proof {
            assert(bytes@.subrange(from as int, i + 1).drop_last() =~= bytes@.subrange(
                from as int,
                i as int,
            ));
        }
        if b < 48 || b > 57 {
            proof {
                assert(bytes@.subrange(from as int, end as int).subrange(0, (i + 1 - from) as int) =~= bytes@.subrange(from as int, i + 1));
                lemma_digits_error_persists(bytes@.subrange(from as int, end as int), (i + 1 - from) as int);
                assert(bytes@.subrange(from as int, end as int) =~= if first == 43 { s.drop_first() } else { s });
            }
            return Err(NumeralError::InvalidDigit);
        }
        let d = (b - 48) as usize;
        if value > (usize::MAX - d) / 10 {
            proof {
                assert(value * 10 + d > usize::MAX) by (nonlinear_arith)
                    requires value > (usize::MAX - d) / 10, d <= 9;
                assert(bytes@.subrange(from as int, end as int).subrange(0, (i + 1 - from) as int) =~= bytes@.subrange(from as int, i + 1));
                lemma_digits_error_persists(bytes@.subrange(from as int, end as int), (i + 1 - from) as int);
                assert(bytes@.subrange(from as int, end as int) =~= if first == 43 { s.drop_first() } else { s });
            }
            return Err(NumeralError::Overflow);
        }
        proof {
            assert(value * 10 + d <= usize::MAX) by (nonlinear_arith)
                requires value <= (usize::MAX - d) / 10, d <= 9;
        }
        value = value * 10 + d;
        i = i + 1;
    }
    proof {
        assert(bytes@.subrange(from as int, end as int) =~= if first == 43 { s.drop_first() } else { s });
    }
    Ok(value)
}

/// Once a prefix of the digits is refused, the whole is refused the same way.
pub proof fn lemma_digits_error_persists(s: Seq<u8>, k: int)
    requires
        0 <= k <= s.len(),
        digits_value(s.subrange(0, k)) is Err,
    ensures
        digits_value(s) == digits_value(s.subrange(0, k)),
    decreases s.len() - k,
{
    if k < s.len() {
        assert(s.subrange(0, k + 1).drop_last() =~= s.subrange(0, k));
        lemma_digits_error_persists(s, k + 1);
    } else {
        assert(s.subrange(0, k) =~= s);
    }
}

/// A decimal numeral is a non-empty run of ASCII digits.
pub proof fn lemma_decimal_digits_are_digits(n: nat)
    ensures
        decimal_digits(n).len() >= 1,
        forall|i: int| 0 <= i < decimal_digits(n).len() ==> is_digit(#[trigger] decimal_digits(n)[i]),
    decreases n,
{
    if n >= 10 {
        lemma_decimal_digits_are_digits(n / 10);
    }
}

/// Reading back the numeral that `decimal_string` prints gives the number.
pub proof fn lemma_decimal_roundtrip(n: nat)
    requires
        n <= usize::MAX,
    ensures
        digits_value(decimal_digits(n)) == Ok::<nat, NumeralError>(n),
        numeral_value(decimal_digits(n)) == Ok::<nat, NumeralError>(n),
    decreases n,
{
    lemma_decimal_digits_are_digits(n);
    if n >= 10 {
        lemma_decimal_roundtrip(n / 10);
        assert(decimal_digits(n).drop_last() =~= decimal_digits(n / 10));
        assert(decimal_digits(n).last() == digit_byte(n % 10));
        assert(digit_byte(n % 10) - 48 == n % 10);
        assert((n / 10) * 10 + n % 10 == n) by (nonlinear_arith);
        let t = decimal_digits(n);
        assert(digits_value(t.drop_last()) == Ok::<nat, NumeralError>(n / 10));
        assert(is_digit(t.last()));
        assert(digits_value(t) == Ok::<nat, NumeralError>(n));
    } else {
        assert(decimal_digits(n).drop_last() =~= Seq::<u8>::empty());
        assert(decimal_digits(n).last() == digit_byte(n));
        assert(digit_byte(n) - 48 == n);
        let t = decimal_digits(n);
        assert(digits_value(t.drop_last()) == Ok::<nat, NumeralError>(0));
        assert(digits_value(t) == Ok::<nat, NumeralError>(n));
    }
    assert(is_digit(decimal_digits(n)[0]));
}

} // verus!
