//! Reading bins and histograms back from their text form.

use crate::bin::{encode_parts, Bin, Entry, Sample};
use crate::builder::HistogramBuilder;
use crate::histogram::{inserted, Histogram};
use crate::text::{digit_value, is_digit};
use vstd::prelude::*;

verus! {

/// Why a token is not the text of a bin.
#[derive(Clone, Copy, Debug, PartialEq, Eq, Structural)]
pub enum ParseBinError {
    /// The token holds no `=`.
    NoCount,
    /// The token holds more than one `=`.
    MultipleEquals,
    /// What stands before the `=` does not start with `H[`.
    MissingPrefix,
    /// What stands before the `=` does not end with `]`.
    MissingSuffix,
    /// What stands between `H[` and `]` is no number.
    ParseBin,
    /// What stands after the `=` is no count that fits 64 bits.
    ParseCount,
}

/// Whether `c` is white space as Unicode defines it.
pub open spec fn is_space(c: char) -> bool {
    let u = c as int;
    ||| 0x09 <= u <= 0x0d
    ||| u == 0x20
    ||| u == 0x85
    ||| u == 0xa0
    ||| u == 0x1680
    ||| 0x2000 <= u <= 0x200a
    ||| u == 0x2028
    ||| u == 0x2029
    ||| u == 0x202f
    ||| u == 0x205f
    ||| u == 0x3000
}

/// The index of the first character of `s` from `i` on that is no white
/// space, and the length of `s` where there is none.
pub open spec fn spaces_end(s: Seq<char>, i: int) -> int
    decreases s.len() - i,
{
    if 0 <= i < s.len() && is_space(s[i]) {
        spaces_end(s, i + 1)
    } else {
        i
    }
}

/// The index after the last character of `s` before `j` that is no white
/// space, and `low` where there is none from `low` on.
pub open spec fn spaces_start(s: Seq<char>, low: int, j: int) -> int
    decreases j,
{
    if 0 <= low < j <= s.len() && is_space(s[j - 1]) {
        spaces_start(s, low, j - 1)
    } else {
        j
    }
}

/// `s` without the white space at its two ends.
pub open spec fn trim(s: Seq<char>) -> Seq<char> {
    let from = spaces_end(s, 0);
    let to = spaces_start(s, from, s.len() as int);
    s.subrange(from, if to < from { from } else { to })
}

/// The index of the first character of `s` from `i` on that is no digit,
/// and the length of `s` where there is none.
pub open spec fn digits_end(s: Seq<char>, i: int) -> int
    decreases s.len() - i,
{
    if 0 <= i < s.len() && is_digit(s[i]) {
        digits_end(s, i + 1)
    } else {
        i
    }
}

/// The index of the first `=` of `s` from `i` on, and the length of `s`
/// where there is none.
pub open spec fn equals_at(s: Seq<char>, i: int) -> int
    decreases s.len() - i,
{
    if 0 <= i < s.len() && s[i] != '=' {
        equals_at(s, i + 1)
    } else {
        i
    }
}

/// The number that the digits of `s` spell.
pub open spec fn number(s: Seq<char>) -> nat
    decreases s.len(),
{
    if s.len() == 0 {
        0
    } else {
        (number(s.drop_last()) * 10 + digit_value(s.last())) as nat
    }
}

/// The index of the first digit of `s` from `i` on that is not `0`, and the
/// length of `s` where there is none.
pub open spec fn zeros_end(s: Seq<char>, i: int) -> int
    decreases s.len() - i,
{
    if 0 <= i < s.len() && s[i] == '0' {
        zeros_end(s, i + 1)
    } else {
        i
    }
}

/// Whether `c` is the small letter `small` or its capital.
pub open spec fn same_letter(c: char, small: char) -> bool {
    c == small || c as int + 32 == small as int
}

/// Whether `s` spells `word`, which is in small letters, in letters of
/// either case.
pub open spec fn spells(s: Seq<char>, word: Seq<char>) -> bool {
    &&& s.len() == word.len()
    &&& forall|i: int| 0 <= i < s.len() ==> #[trigger] same_letter(s[i], word[i])
}

/// Whether `s` spells an infinity or not-a-number.
pub open spec fn is_special(s: Seq<char>) -> bool {
    ||| spells(s, seq!['n', 'a', 'n'])
    ||| spells(s, seq!['i', 'n', 'f'])
    ||| spells(s, seq!['i', 'n', 'f', 'i', 'n', 'i', 't', 'y'])
}

/// The count that `s` spells: an optional `+` and at least one digit, with
/// a value that fits 64 bits.
pub open spec fn parse_count(s: Seq<char>) -> Option<nat> {
    let from: int = if s.len() > 0 && s[0] == '+' {
        1
    } else {
        0
    };
    if from < s.len() && digits_end(s, from) == s.len() && number(s.subrange(from, s.len() as int))
        <= u64::MAX {
        Some(number(s.subrange(from, s.len() as int)))
    } else {
        None
    }
}

/// The empty bin of the decimal number whose digits before the point are
/// `whole`, whose digits after it are `part`, and which is scaled by
/// `10^exponent`.
///
/// The bin is that of the first digit that is not `0` and the digit after
/// it: what follows them is cut off. A number of zeros only is `0`.
pub open spec fn encode_decimal(negative: bool, whole: Seq<char>, part: Seq<char>, exponent: int)
    -> Entry {
    let all = whole + part;
    let lead = zeros_end(all, 0);
    if lead >= all.len() {
        Entry::zero()
    } else {
        let next = if lead + 1 < all.len() {
            digit_value(all[lead + 1])
        } else {
            0
        };
        encode_parts(
            negative,
            whole.len() - 1 - lead + exponent,
            10 * digit_value(all[lead]) + next,
        )
    }
}

/// The exponent that `s` spells from `from` to its end: an optional sign
/// and at least one digit.
pub open spec fn parse_exponent(s: Seq<char>, from: int) -> Option<int> {
    let signed = 0 <= from < s.len() && (s[from] == '+' || s[from] == '-');
    let negative = signed && s[from] == '-';
    let digits_from = if signed {
        from + 1
    } else {
        from
    };
    let end = digits_end(s, digits_from);
    let magnitude = number(s.subrange(digits_from, end));
    if digits_from < s.len() && end == s.len() {
        Some(
            if negative {
                -magnitude
            } else {
                magnitude as int
            },
        )
    } else {
        None
    }
}

/// The empty bin of the number that `s` spells, `None` where it spells
/// none.
///
/// A number is an optional sign followed by `inf`, `infinity` or `nan` in
/// letters of either case, or by decimal digits with at most one point
/// among them and an optional exponent: `e` or `E`, an optional sign and
/// at least one digit.
pub open spec fn parse_value(s: Seq<char>) -> Option<Entry> {
    let signed = s.len() > 0 && (s[0] == '+' || s[0] == '-');
    let negative = signed && s[0] == '-';
    let from: int = if signed {
        1
    } else {
        0
    };
    let whole_end = digits_end(s, from);
    let pointed = whole_end < s.len() && s[whole_end] == '.';
    let part_from = if pointed {
        whole_end + 1
    } else {
        whole_end
    };
    let part_end = digits_end(s, part_from);
    let whole = s.subrange(from, whole_end);
    let part = s.subrange(part_from, part_end);
    if is_special(s.subrange(from, s.len() as int)) {
        Some(Entry::nan())
    } else if whole.len() + part.len() == 0 {
        None
    } else if part_end == s.len() {
        Some(encode_decimal(negative, whole, part, 0))
    } else if s[part_end] == 'e' || s[part_end] == 'E' {
        match parse_exponent(s, part_end + 1) {
            Some(exponent) => Some(encode_decimal(negative, whole, part, exponent)),
            None => None,
        }
    } else {
        None
    }
}

/// The bin that the token `text` spells, or why it spells none.
///
/// White space at both ends is ignored. The token has to hold exactly one
/// `=`; before it stands the value between `H[` and `]`, after it the
/// count. The first of these that fails decides the error, the value
/// before the count.
pub open spec fn parse_token(text: Seq<char>) -> Result<Entry, ParseBinError> {
    let s = trim(text);
    let eq = equals_at(s, 0);
    if eq >= s.len() {
        Err(ParseBinError::NoCount)
    } else if equals_at(s, eq + 1) < s.len() {
        Err(ParseBinError::MultipleEquals)
    } else if !(eq >= 2 && s[0] == 'H' && s[1] == '[') {
        Err(ParseBinError::MissingPrefix)
    } else if !(eq >= 3 && s[eq - 1] == ']') {
        Err(ParseBinError::MissingSuffix)
    } else {
        match parse_value(s.subrange(2, eq - 1)) {
            None => Err(ParseBinError::ParseBin),
            Some(entry) => match parse_count(s.subrange(eq + 1, s.len() as int)) {
                None => Err(ParseBinError::ParseCount),
                Some(count) => Ok(entry.with_count(count)),
            },
        }
    }
}

/// Whether `c` is white space as Unicode defines it.
fn is_whitespace(c: char) -> (space: bool)
    ensures
        space == is_space(c),
{
    let u: u32 = c as u32;
    (0x09 <= u && u <= 0x0d) || u == 0x20 || u == 0x85 || u == 0xa0 || u == 0x1680 || (0x2000 <= u
        && u <= 0x200a) || u == 0x2028 || u == 0x2029 || u == 0x202f || u == 0x205f || u == 0x3000
}

/// The value of `c` where it is a digit.
fn to_digit(c: char) -> (digit: Option<u8>)
    ensures
        digit is Some <==> is_digit(c),
        digit is Some ==> digit.unwrap() == digit_value(c) && digit.unwrap() < 10,
{
    let u: u32 = c as u32;
    if 48 <= u && u <= 57 {
        Some((u - 48) as u8)
    } else {
        None
    }
}

/// Whether `c` is the small letter `small` or its capital.
fn is_letter(c: char, small: char) -> (same: bool)
    ensures
        same == same_letter(c, small),
{
    c == small || c as u32 + 32 == small as u32
}

/// A copy of the characters of `s` from `from` up to `to`.
fn copy(s: &Vec<char>, from: usize, to: usize) -> (part: Vec<char>)
    requires
        from <= to <= s@.len(),
    ensures
        part@ == s@.subrange(from as int, to as int),
{
    let mut part: Vec<char> = Vec::with_capacity(to - from);
    let mut i: usize = from;
    while i < to
        invariant
            from <= i <= to <= s@.len(),
            part@ == s@.subrange(from as int, i as int),
        decreases to - i,
    {
        part.push(s[i]);
        i += 1;
    }
    part
}

/// The characters of `s`.
pub fn chars_of(s: &str) -> (chars: Vec<char>)
    ensures
        chars@ == s@,
{
    let mut chars: Vec<char> = Vec::new();
    for c in it: s.chars()
        invariant
            it.seq() == s@,
            chars@ =~= it.seq().take(it.index() as int),
    {
        chars.push(c);
    }
    chars
}

/// Skips the digits of `s` from `from` on.
fn skip_digits(s: &Vec<char>, from: usize) -> (end: usize)
    requires
        from <= s@.len(),
    ensures
        end == digits_end(s@, from as int),
        from <= end <= s@.len(),
        forall|i: int| from <= i < end ==> is_digit(#[trigger] s@[i]),
{
    let mut i: usize = from;
    while i < s.len() && to_digit(s[i]).is_some()
        invariant
            from <= i <= s@.len(),
            digits_end(s@, from as int) == digits_end(s@, i as int),
            forall|j: int| from <= j < i ==> is_digit(#[trigger] s@[j]),
        decreases s@.len() - i,
    {
        i += 1;
    }
    i
}

/// Finds the first `=` of `s` from `from` on.
fn find_equals(s: &Vec<char>, from: usize) -> (at: usize)
    requires
        from <= s@.len(),
    ensures
        at == equals_at(s@, from as int),
        from <= at <= s@.len(),
{
    let mut i: usize = from;
    while i < s.len() && s[i] != '='
        invariant
            from <= i <= s@.len(),
            equals_at(s@, from as int) == equals_at(s@, i as int),
        decreases s@.len() - i,
    {
        i += 1;
    }
    i
}

/// Copies `s` without the white space at its two ends.
fn trimmed(s: &Vec<char>) -> (inner: Vec<char>)
    ensures
        inner@ == trim(s@),
{
    let mut from: usize = 0;
    while from < s.len() && is_whitespace(s[from])
        invariant
            from <= s@.len(),
            spaces_end(s@, 0) == spaces_end(s@, from as int),
        decreases s@.len() - from,
    {
        from += 1;
    }
    let mut to: usize = s.len();
    while from < to && is_whitespace(s[to - 1])
        invariant
            from <= to <= s@.len(),
            spaces_start(s@, from as int, s@.len() as int) == spaces_start(
                s@,
                from as int,
                to as int,
            ),
        decreases to,
    {
        to -= 1;
    }
    copy(s, from, to)
}

/// The number of a string of digits grows with every digit appended, and
/// a string of digits is made of digits in all its parts.
pub proof fn lemma_number_grows(s: Seq<char>, i: int, j: int)
    requires
        0 <= i <= j <= s.len(),
        forall|k: int| 0 <= k < s.len() ==> is_digit(#[trigger] s[k]),
    ensures
        number(s.take(i)) <= number(s.take(j)),
    decreases j - i,
{
    if i < j {
        lemma_number_grows(s, i, j - 1);
        assert(s.take(j).drop_last() =~= s.take(j - 1));
        assert(is_digit(s[j - 1]));
        assert(s.take(j).last() == s[j - 1]);
    }
}

/// Reads a count: an optional `+` and digits that spell a 64-bit number.
fn read_count(s: &Vec<char>) -> (count: Option<u64>)
    ensures
        match parse_count(s@) {
            Some(n) => count == Some(n as u64),
            None => count is None,
        },
{
    let from: usize = if s.len() > 0 && s[0] == '+' {
        1
    } else {
        0
    };
    if from >= s.len() {
        return None;
    }
    let end: usize = skip_digits(s, from);
    if end != s.len() {
        return None;
    }
    let ghost all = s@.subrange(from as int, s@.len() as int);
    let mut sum: u64 = 0;
    let mut i: usize = from;
    assert(all.take(0) =~= Seq::<char>::empty());
    while i < s.len()
        invariant
            from <= i <= s@.len(),
            all == s@.subrange(from as int, s@.len() as int),
            from == (if s@.len() > 0 && s@[0] == '+' {
                1int
            } else {
                0int
            }),
            digits_end(s@, from as int) == s@.len(),
            forall|k: int| from <= k < s@.len() ==> is_digit(#[trigger] s@[k]),
            sum == number(all.take(i - from)),
        decreases s@.len() - i,
    {
        let digit: u8 = to_digit(s[i]).unwrap();
        proof {
            assert(all.take(i - from + 1).drop_last() =~= all.take(i - from));
            assert(all.take(i - from + 1).last() == s@[i as int]);
            lemma_number_grows(all, i - from + 1, all.len() as int);
            assert(all.take(all.len() as int) =~= all);
        }
        if sum > (u64::MAX - digit as u64) / 10 {
            return None;
        }
        sum = sum * 10 + digit as u64;
        i += 1;
    }
    assert(all.take(i - from) =~= all);
    Some(sum)
}

/// Whether `s` spells an infinity or not-a-number.
fn special(s: &Vec<char>) -> (found: bool)
    ensures
        found == is_special(s@),
{
    if s.len() == 3 {
        let is_nan: bool = is_letter(s[0], 'n') && is_letter(s[1], 'a') && is_letter(s[2], 'n');
        let is_inf: bool = is_letter(s[0], 'i') && is_letter(s[1], 'n') && is_letter(s[2], 'f');
        is_nan || is_inf
    } else if s.len() == 8 {
        let found: bool = is_letter(s[0], 'i') && is_letter(s[1], 'n') && is_letter(s[2], 'f')
            && is_letter(s[3], 'i') && is_letter(s[4], 'n') && is_letter(s[5], 'i') && is_letter(
            s[6],
            't',
        ) && is_letter(s[7], 'y');
        found
    } else {
        false
    }
}

/// The largest magnitude of an exponent that is read digit by digit; what
/// lies beyond it is far outside the range of a bin.
pub const EXPONENT_CAP: i128 = 1_000_000_000_000_000_000_000_000;

/// Whether the exponent `x` is `held`, or both lie beyond the cap on the
/// same side.
pub open spec fn agrees(x: int, held: int) -> bool {
    ||| x == held
    ||| x >= EXPONENT_CAP && held >= EXPONENT_CAP
    ||| x <= -EXPONENT_CAP && held <= -EXPONENT_CAP
}

/// Reads a string of digits as a number, stopping at the cap.
fn read_capped(s: &Vec<char>) -> (m: i128)
    requires
        forall|k: int| 0 <= k < s@.len() ==> is_digit(#[trigger] s@[k]),
    ensures
        0 <= m <= EXPONENT_CAP,
        agrees(number(s@) as int, m as int),
{
    let mut sum: i128 = 0;
    let mut i: usize = 0;
    while i < s.len()
        invariant
            i <= s@.len(),
            forall|k: int| 0 <= k < s@.len() ==> is_digit(#[trigger] s@[k]),
            0 <= sum <= EXPONENT_CAP,
            agrees(number(s@.take(i as int)) as int, sum as int),
        decreases s@.len() - i,
    {
        let digit: u8 = to_digit(s[i]).unwrap();
        proof {
            assert(s@.take(i as int + 1).drop_last() =~= s@.take(i as int));
        }
        sum = sum * 10 + digit as i128;
        if sum > EXPONENT_CAP {
            sum = EXPONENT_CAP;
        }
        i += 1;
    }
    assert(s@.take(i as int) =~= s@);
    sum
}

/// The empty bin of the decimal number with the digits `whole` before the
/// point and `part` after it, scaled by ten to the power that `exponent`
/// holds.
fn encode(negative: bool, whole: &Vec<char>, part: &Vec<char>, exponent: i128) -> (bin: Bin)
    requires
        -EXPONENT_CAP <= exponent <= EXPONENT_CAP,
        forall|k: int| 0 <= k < whole@.len() ==> is_digit(#[trigger] whole@[k]),
        forall|k: int| 0 <= k < part@.len() ==> is_digit(#[trigger] part@[k]),
    ensures
        forall|x: int| #[trigger]
            agrees(x, exponent as int) ==> bin@ == encode_decimal(negative, whole@, part@, x),
{
    let ghost all = whole@ + part@;
    let mut lead: usize = 0;
    while lead < whole.len() && whole[lead] == '0'
        invariant
            lead <= whole@.len(),
            all == whole@ + part@,
            zeros_end(all, 0) == zeros_end(all, lead as int),
        decreases whole@.len() - lead,
    {
        lead += 1;
    }
    let mut first: u8 = 0;
    let mut second: u8 = 0;
    let mut offset: i128 = 0;
    if lead < whole.len() {
        first = to_digit(whole[lead]).unwrap();
        if lead + 1 < whole.len() {
            second = to_digit(whole[lead + 1]).unwrap();
        } else if part.len() > 0 {
            second = to_digit(part[0]).unwrap();
        }
        offset = (whole.len() - 1 - lead) as i128;
    } else {
        let mut skipped: usize = 0;
        while skipped < part.len() && part[skipped] == '0'
            invariant
                skipped <= part@.len(),
                lead == whole@.len(),
                all == whole@ + part@,
                zeros_end(all, 0) == zeros_end(all, lead + skipped),
            decreases part@.len() - skipped,
        {
            skipped += 1;
        }
        if skipped >= part.len() {
            return Bin::zero();
        }
        first = to_digit(part[skipped]).unwrap();
        if skipped + 1 < part.len() {
            second = to_digit(part[skipped + 1]).unwrap();
        }
        offset = -1 - skipped as i128;
    }
    let raw: i128 = offset + exponent;
    let held: i64 = if raw > 1000 {
        1000
    } else if raw < -1000 {
        -1000
    } else {
        raw as i64
    };
    let tenths: i64 = 10 * (first as i64) + second as i64;
    Bin::from_sample(Sample::Finite { negative, exponent: held, tenths })
}

/// Reads an exponent from `from` to the end of `s`: an optional sign and
/// at least one digit. A magnitude beyond the cap is read as the cap.
fn read_exponent(s: &Vec<char>, from: usize) -> (exponent: Option<i128>)
    requires
        from <= s@.len(),
    ensures
        match parse_exponent(s@, from as int) {
            Some(x) => exponent is Some && agrees(x, exponent.unwrap() as int) && -EXPONENT_CAP
                <= exponent.unwrap() <= EXPONENT_CAP,
            None => exponent is None,
        },
{
    let signed: bool = from < s.len() && (s[from] == '+' || s[from] == '-');
    let negative: bool = signed && s[from] == '-';
    let digits_from: usize = if signed {
        from + 1
    } else {
        from
    };
    let end: usize = skip_digits(s, digits_from);
    if !(digits_from < s.len() && end == s.len()) {
        return None;
    }
    let digits: Vec<char> = copy(s, digits_from, end);
    let magnitude: i128 = read_capped(&digits);
    if negative {
        Some(-magnitude)
    } else {
        Some(magnitude)
    }
}

/// Reads a number and finds its bin.
fn read_value(s: &Vec<char>) -> (bin: Option<Bin>)
    ensures
        match parse_value(s@) {
            Some(e) => bin is Some && bin.unwrap()@ == e,
            None => bin is None,
        },
{
    let signed: bool = s.len() > 0 && (s[0] == '+' || s[0] == '-');
    let negative: bool = signed && s[0] == '-';
    let from: usize = if signed {
        1
    } else {
        0
    };
    let rest: Vec<char> = copy(s, from, s.len());
    if special(&rest) {
        return Some(Bin::nan());
    }
    let whole_end: usize = skip_digits(s, from);
    let pointed: bool = whole_end < s.len() && s[whole_end] == '.';
    let part_from: usize = if pointed {
        whole_end + 1
    } else {
        whole_end
    };
    let part_end: usize = skip_digits(s, part_from);
    if (whole_end - from) + (part_end - part_from) == 0 {
        return None;
    }
    let whole: Vec<char> = copy(s, from, whole_end);
    let part: Vec<char> = copy(s, part_from, part_end);
    if part_end == s.len() {
        assert(agrees(0, 0));
        return Some(encode(negative, &whole, &part, 0));
    }
    if s[part_end] != 'e' && s[part_end] != 'E' {
        return None;
    }
    match read_exponent(s, part_end + 1) {
        None => None,
        Some(exponent) => Some(encode(negative, &whole, &part, exponent)),
    }
}

/// Reads the token of a bin.
pub fn parse_bin(text: &Vec<char>) -> (bin: Result<Bin, ParseBinError>)
    ensures
        match parse_token(text@) {
            Ok(e) => bin is Ok && bin.unwrap()@ == e,
            Err(why) => bin == Err::<Bin, ParseBinError>(why),
        },
{
    let s: Vec<char> = trimmed(text);
    let eq: usize = find_equals(&s, 0);
    if eq >= s.len() {
        return Err(ParseBinError::NoCount);
    }
    if find_equals(&s, eq + 1) < s.len() {
        return Err(ParseBinError::MultipleEquals);
    }
    if !(eq >= 2 && s[0] == 'H' && s[1] == '[') {
        return Err(ParseBinError::MissingPrefix);
    }
    if !(eq >= 3 && s[eq - 1] == ']') {
        return Err(ParseBinError::MissingSuffix);
    }
    let value: Vec<char> = copy(&s, 2, eq - 1);
    let count: Vec<char> = copy(&s, eq + 1, s.len());
    match read_value(&value) {
        None => Err(ParseBinError::ParseBin),
        Some(bin) => match read_count(&count) {
            None => Err(ParseBinError::ParseCount),
            Some(n) => Ok(bin.with_count(n)),
        },
    }
}

/// Why a list of tokens is not the text of a histogram: the token at index
/// `i`, counted from `0`, is no bin, for the reason `bin`.
#[derive(Clone, Copy, Debug, PartialEq, Eq, Structural)]
#[non_exhaustive]
pub struct ParseError {
    pub bin: ParseBinError,
    pub i: usize,
}

/// The content of the histogram that the tokens spell, or the first token
/// that spells no bin.
///
/// Bins of one bucket are added up: their counts sum, saturating at
/// `u64::MAX`.
pub open spec fn collected(tokens: Seq<Seq<char>>) -> Result<Seq<Entry>, ParseError>
    decreases tokens.len(),
{
    if tokens.len() == 0 {
        Ok(Seq::empty())
    } else {
        match collected(tokens.drop_last()) {
            Err(e) => Err(e),
            Ok(s) => match parse_token(tokens.last()) {
                Err(why) => Err(ParseError { bin: why, i: (tokens.len() - 1) as usize }),
                Ok(entry) => Ok(inserted(s, entry.with_count(0), entry.count as int)),
            },
        }
    }
}

/// Whether `c` parts two tokens: a comma or a line feed.
pub open spec fn is_separator(c: char) -> bool {
    c == ',' || c == '\n'
}

/// The index of the first separator of `s` from `i` on, and the length of
/// `s` where there is none.
pub open spec fn separator_at(s: Seq<char>, i: int) -> int
    decreases s.len() - i,
{
    if 0 <= i < s.len() && !is_separator(s[i]) {
        separator_at(s, i + 1)
    } else {
        i
    }
}

/// The tokens of `s` from `i` on: what stands between the separators.
pub open spec fn split_from(s: Seq<char>, i: int) -> Seq<Seq<char>>
    decreases s.len() - i,
{
    let at = separator_at(s, i);
    if 0 <= i <= at < s.len() {
        seq![s.subrange(i, at)] + split_from(s, at + 1)
    } else {
        seq![s.subrange(i, s.len() as int)]
    }
}

/// The tokens of the text of a histogram: the text without the white space
/// at its ends, parted at every comma and line feed.
pub open spec fn split(text: Seq<char>) -> Seq<Seq<char>> {
    split_from(trim(text), 0)
}

/// The character sequences of a list of strings.
pub open spec fn texts(strs: Seq<&str>) -> Seq<Seq<char>> {
    strs.map_values(|t: &str| t@)
}

/// Parts `text` at every comma and line feed.
fn split_tokens(text: &Vec<char>) -> (tokens: Vec<Vec<char>>)
    ensures
        tokens@.map_values(|t: Vec<char>| t@) == split_from(text@, 0),
{
    let mut tokens: Vec<Vec<char>> = Vec::new();
    let mut from: usize = 0;
    loop
        invariant_except_break
            from <= text@.len(),
            split_from(text@, 0) == tokens@.map_values(|t: Vec<char>| t@) + split_from(
                text@,
                from as int,
            ),
        ensures
            tokens@.map_values(|t: Vec<char>| t@) == split_from(text@, 0),
        decreases text@.len() - from,
    {
        let mut at: usize = from;
        while at < text.len() && text[at] != ',' && text[at] != '\n'
            invariant
                from <= at <= text@.len(),
                separator_at(text@, from as int) == separator_at(text@, at as int),
            decreases text@.len() - at,
        {
            at += 1;
        }
        if at >= text.len() {
            tokens.push(copy(text, from, text.len()));
            break ;
        }
        tokens.push(copy(text, from, at));
        from = at + 1;
    }
    tokens
}

/// Reads the tokens one by one into a fresh histogram of `builder`.
fn collect(builder: &HistogramBuilder, tokens: &Vec<Vec<char>>) -> (histogram: Result<
    Histogram,
    ParseError,
>)
    ensures
        match collected(tokens@.map_values(|t: Vec<char>| t@)) {
            Ok(s) => histogram is Ok && histogram.unwrap()@ == s,
            Err(e) => histogram is Err && histogram.unwrap_err() == e,
        },
{
    let ghost all = tokens@.map_values(|t: Vec<char>| t@);
    let mut histogram: Histogram = builder.build();
    let mut i: usize = 0;
    assert(all.take(0) =~= Seq::<Seq<char>>::empty());
    while i < tokens.len()
        invariant
            i <= tokens@.len(),
            all == tokens@.map_values(|t: Vec<char>| t@),
            collected(all.take(i as int)) == Ok::<Seq<Entry>, ParseError>(histogram@),
        decreases tokens@.len() - i,
    {
        proof {
            assert(all.take(i as int + 1).drop_last() =~= all.take(i as int));
            assert(all.take(i as int + 1).last() == tokens@[i as int]@);
        }
        match parse_bin(&tokens[i]) {
            Err(bin) => {
                proof {
                    lemma_collected_fails(all, i as int + 1);
                }
                return Err(ParseError { bin, i });
            },
            Ok(bin) => {
                histogram.add_occurrences(bin.with_count(0), bin.occurrences());
            },
        }
        i += 1;
    }
    assert(all.take(i as int) =~= all);
    Ok(histogram)
}

/// A failure among the first tokens is the failure of the whole list.
pub proof fn lemma_collected_fails(tokens: Seq<Seq<char>>, n: int)
    requires
        0 <= n <= tokens.len(),
        collected(tokens.take(n)) is Err,
    ensures
        collected(tokens) == collected(tokens.take(n)),
    decreases tokens.len() - n,
{
    if n < tokens.len() {
        assert(tokens.take(n + 1).drop_last() =~= tokens.take(n));
        lemma_collected_fails(tokens, n + 1);
    } else {
        assert(tokens.take(n) =~= tokens);
    }
}

impl Bin {
    /// Reads the token of a bin, `H[<value>]=<count>`.
    pub fn from_str(s: &str) -> (bin: Result<Bin, ParseBinError>)
        ensures
            match parse_token(s@) {
                Ok(e) => bin is Ok && bin.unwrap()@ == e,
                Err(why) => bin == Err::<Bin, ParseBinError>(why),
            },
    {
        let text: Vec<char> = chars_of(s);
        parse_bin(&text)
    }
}

impl HistogramBuilder {
    /// Reads a histogram from the tokens of its bins.
    ///
    /// The tokens may name a bucket more than once, with differing counts:
    /// such bins are added up.
    pub fn from_strs(&self, strs: &[&str]) -> (histogram: Result<Histogram, ParseError>)
        ensures
            match collected(texts(strs@)) {
                Ok(s) => histogram is Ok && histogram.unwrap()@ == s,
                Err(e) => histogram is Err && histogram.unwrap_err() == e,
            },
    {
        let mut tokens: Vec<Vec<char>> = Vec::new();
        let mut i: usize = 0;
        while i < strs.len()
            invariant
                i <= strs@.len(),
                tokens@.len() == i,
                forall|k: int| 0 <= k < i ==> (#[trigger] tokens@[k])@ == strs@[k]@,
            decreases strs@.len() - i,
        {
            tokens.push(chars_of(strs[i]));
            i += 1;
        }
        assert(tokens@.map_values(|t: Vec<char>| t@) =~= texts(strs@));
        collect(self, &tokens)
    }
}

impl Histogram {
    /// Reads a histogram from the tokens of its bins.
    pub fn from_strs(strs: &[&str]) -> (histogram: Result<Histogram, ParseError>)
        ensures
            match collected(texts(strs@)) {
                Ok(s) => histogram is Ok && histogram.unwrap()@ == s,
                Err(e) => histogram is Err && histogram.unwrap_err() == e,
            },
    {
        HistogramBuilder::default().from_strs(strs)
    }

    /// Reads a histogram from its text: the tokens of its bins, parted by
    /// commas or line feeds.
    pub fn from_str(s: &str) -> (histogram: Result<Histogram, ParseError>)
        ensures
            match collected(split(s@)) {
                Ok(s) => histogram is Ok && histogram.unwrap()@ == s,
                Err(e) => histogram is Err && histogram.unwrap_err() == e,
            },
    {
        let text: Vec<char> = chars_of(s);
        let inner: Vec<char> = trimmed(&text);
        let tokens: Vec<Vec<char>> = split_tokens(&inner);
        collect(&HistogramBuilder::default(), &tokens)
    }
}

impl std::str::FromStr for Bin {
    type Err = ParseBinError;

    /// Reads the token of a bin, as [`Bin::from_str`] does.
    fn from_str(s: &str) -> (bin: Result<Bin, ParseBinError>)
        ensures
            match parse_token(s@) {
                Ok(e) => bin is Ok && bin.unwrap()@ == e,
                Err(why) => bin == Err::<Bin, ParseBinError>(why),
            },
    {
        Bin::from_str(s)
    }
}

impl std::str::FromStr for Histogram {
    type Err = ParseError;

    /// Reads a histogram from its text, as [`Histogram::from_str`] does.
    fn from_str(s: &str) -> (histogram: Result<Histogram, ParseError>)
        ensures
            match collected(split(s@)) {
                Ok(s) => histogram is Ok && histogram.unwrap()@ == s,
                Err(e) => histogram is Err && histogram.unwrap_err() == e,
            },
    {
        Histogram::from_str(s)
    }
}

} // verus!
