//! The text form of bins and histograms: `H[<value>]=<count>`.

use crate::bin::{Bin, DisplayBin, Entry};
use crate::histogram::Histogram;
use vstd::prelude::*;
use vstd::string::StringExecFns;

verus! {

/// The character of the decimal digit `d`.
pub open spec fn digit_char(d: int) -> char {
    (48 + d) as char
}

/// Whether `c` is one of `0` to `9`.
pub open spec fn is_digit(c: char) -> bool {
    48 <= c as int <= 57
}

/// The value of the digit `c`.
pub open spec fn digit_value(c: char) -> int {
    c as int - 48
}

/// `n` in decimal digits, without leading zeros.
pub open spec fn decimal(n: nat) -> Seq<char>
    decreases n,
{
    if n < 10 {
        seq![digit_char(n as int)]
    } else {
        decimal(n / 10).push(digit_char((n % 10) as int))
    }
}

/// `i` in decimal digits, with `-` in front where it is negative.
pub open spec fn signed_decimal(i: int) -> Seq<char> {
    if i < 0 {
        seq!['-'] + decimal((-i) as nat)
    } else {
        decimal(i as nat)
    }
}

/// The exponent mark of the scientific notation.
pub open spec fn exponent_mark(upper: bool) -> char {
    if upper {
        'E'
    } else {
        'e'
    }
}

/// The value of a bin in scientific notation with one digit after the
/// point: `NaN` for the sentinel, `0.0e0` for the zero bucket, and
/// `1.2e-1` for the mantissa `12` at the exponent `-1`.
pub open spec fn value_text(e: Entry, upper: bool) -> Seq<char> {
    if e.is_sentinel() {
        seq!['N', 'a', 'N']
    } else if e.mantissa == 0 {
        seq!['0', '.', '0', exponent_mark(upper), '0']
    } else {
        let m = if e.mantissa < 0 {
            -e.mantissa
        } else {
            e.mantissa
        };
        let sign = if e.mantissa < 0 {
            seq!['-']
        } else {
            Seq::<char>::empty()
        };
        sign + seq![digit_char(m / 10), '.', digit_char(m % 10), exponent_mark(upper)]
            + signed_decimal(e.exponent)
    }
}

/// The token of a bin: `H[`, its value, `]=` and its count.
pub open spec fn token_text(e: Entry, upper: bool) -> Seq<char> {
    seq!['H', '['] + value_text(e, upper) + seq![']', '='] + decimal(e.count)
}

/// The tokens of the entries of `s`, with `separator` between each two.
pub open spec fn joined(s: Seq<Entry>, separator: Seq<char>) -> Seq<char>
    decreases s.len(),
{
    if s.len() == 0 {
        Seq::<char>::empty()
    } else if s.len() == 1 {
        token_text(s[0], false)
    } else {
        joined(s.drop_last(), separator) + separator + token_text(s.last(), false)
    }
}

/// Appends the digit `d`.
fn push_digit(out: &mut String, d: u8)
    requires
        d < 10,
    ensures
        final(out)@ == old(out)@.push(digit_char(d as int)),
{
    proof {
        reveal_strlit("0");
        reveal_strlit("1");
        reveal_strlit("2");
        reveal_strlit("3");
        reveal_strlit("4");
        reveal_strlit("5");
        reveal_strlit("6");
        reveal_strlit("7");
        reveal_strlit("8");
        reveal_strlit("9");
    }
    if d == 0 {
        out.append("0");
    } else if d == 1 {
        out.append("1");
    } else if d == 2 {
        out.append("2");
    } else if d == 3 {
        out.append("3");
    } else if d == 4 {
        out.append("4");
    } else if d == 5 {
        out.append("5");
    } else if d == 6 {
        out.append("6");
    } else if d == 7 {
        out.append("7");
    } else if d == 8 {
        out.append("8");
    } else {
        out.append("9");
    }
}

/// Appends `n` in decimal digits.
fn push_decimal(out: &mut String, n: u64)
    ensures
        final(out)@ == old(out)@ + decimal(n as nat),
    decreases n,
{
    if n >= 10 {
        push_decimal(out, n / 10);
    }
    push_digit(out, (n % 10) as u8);
}

/// Appends `i` in decimal digits, with `-` in front where it is negative.
fn push_signed(out: &mut String, i: i8)
    ensures
        final(out)@ == old(out)@ + signed_decimal(i as int),
{
    proof {
        reveal_strlit("-");
    }
    if i < 0 {
        out.append("-");
        push_decimal(out, (-(i as i16)) as u64);
    } else {
        push_decimal(out, i as u64);
    }
}

/// Appends the mantissa `m`, given in tenths, with its point: `1.2` for
/// `12`.
fn push_tenths(out: &mut String, m: u8)
    requires
        m <= 99,
    ensures
        final(out)@ == old(out)@ + seq![digit_char(m as int / 10), '.', digit_char(m as int % 10)],
{
    proof {
        reveal_strlit(".");
    }
    push_digit(out, m / 10);
    out.append(".");
    push_digit(out, m % 10);
}

/// Appends the value of `bin` in scientific notation.
fn push_value(out: &mut String, bin: &Bin, upper: bool)
    ensures
        final(out)@ == old(out)@ + value_text(bin@, upper),
{
    proof {
        use_type_invariant(bin);
        reveal_strlit("NaN");
        reveal_strlit("-");
        reveal_strlit("e");
        reveal_strlit("E");
    }
    if bin.is_nan() {
        out.append("NaN");
        return ;
    }
    let mantissa: i8 = bin.mantissa();
    if mantissa < 0 {
        out.append("-");
    }
    let m: u8 = if mantissa < 0 {
        (-(mantissa as i16)) as u8
    } else {
        mantissa as u8
    };
    push_tenths(out, m);
    if upper {
        out.append("E");
    } else {
        out.append("e");
    }
    push_signed(out, bin.exponent());
}

/// Appends the token of `bin`.
fn push_token(out: &mut String, bin: &Bin, upper: bool)
    ensures
        final(out)@ == old(out)@ + token_text(bin@, upper),
{
    proof {
        reveal_strlit("H[");
        reveal_strlit("]=");
    }
    out.append("H[");
    push_value(out, bin, upper);
    out.append("]=");
    push_decimal(out, bin.occurrences());
}

impl Bin {
    /// The token of the bin, `H[<value>]=<count>`, with a small `e` before
    /// the exponent.
    pub fn to_string(&self) -> (text: String)
        ensures
            text@ == token_text(self@, false),
    {
        let mut out = String::new();
        push_token(&mut out, self, false);
        out
    }

    /// The token of the bin with a capital `E` before the exponent.
    pub fn to_upper_exp(&self) -> (text: String)
        ensures
            text@ == token_text(self@, true),
    {
        let mut out = String::new();
        push_token(&mut out, self, true);
        out
    }
}

impl<'hist> DisplayBin<'hist> {
    /// The token of the bin, `H[<value>]=<count>`, with a small `e` before
    /// the exponent.
    pub fn to_string(&self) -> (text: String)
        ensures
            text@ == token_text(self@, false),
    {
        self.bin().to_string()
    }

    /// The token of the bin with a small `e` before the exponent.
    pub fn to_lower_exp(&self) -> (text: String)
        ensures
            text@ == token_text(self@, false),
    {
        self.bin().to_string()
    }

    /// The token of the bin with a capital `E` before the exponent.
    pub fn to_upper_exp(&self) -> (text: String)
        ensures
            text@ == token_text(self@, true),
    {
        self.bin().to_upper_exp()
    }
}

impl Histogram {
    /// Writes the tokens of all bins in order, with `separator` between
    /// each two.
    fn write(&self, separator: &str) -> (text: String)
        ensures
            text@ == joined(self@, separator@),
    {
        let mut out = String::new();
        let size: usize = self.len();
        let mut i: usize = 0;
        while i < size
            invariant
                i <= size,
                size == self@.len(),
                out@ == joined(self@.take(i as int), separator@),
            decreases size - i,
        {
            let bin: Bin = self.bin(i).unwrap();
            proof {
                let next = self@.take(i as int + 1);
                assert(next.drop_last() =~= self@.take(i as int));
            }
            if i > 0 {
                out.append(separator);
            }
            push_token(&mut out, &bin, false);
            i += 1;
        }
        assert(self@.take(size as int) =~= self@);
        out
    }

    /// The tokens of all bins in order, separated by a comma and a space.
    pub fn to_string(&self) -> (text: String)
        ensures
            text@ == joined(self@, seq![',', ' ']),
    {
        proof {
            reveal_strlit(", ");
        }
        assert(", "@ =~= seq![',', ' ']);
        self.write(", ")
    }

    /// The tokens of all bins in order, one on each line.
    pub fn to_string_alternate(&self) -> (text: String)
        ensures
            text@ == joined(self@, seq!['\n']),
    {
        proof {
            reveal_strlit("\n");
        }
        assert("\n"@ =~= seq!['\n']);
        self.write("\n")
    }
}

} // verus!
