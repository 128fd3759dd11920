//! What is written out reads back as it was.

use crate::bin::{encode_parts, magnitude, Entry};
use crate::histogram::{inserted, lemma_slot, lemma_sorted_part, sorted};
use crate::parse::{
    collected, digits_end, encode_decimal, equals_at, is_separator, is_space, is_special, number,
    parse_count, parse_exponent, parse_token, parse_value, same_letter, separator_at, spaces_end,
    spaces_start, spells, split, split_from, trim, zeros_end, ParseError,
};
use crate::text::{
    decimal, digit_char, digit_value, exponent_mark, is_digit, joined, signed_decimal, token_text,
    value_text,
};
use vstd::prelude::*;

verus! {

/// Where all characters from `i` up to `j` are digits and none follows at
/// `j`, the digits from `i` on end at `j`.
pub proof fn lemma_digits_end(s: Seq<char>, i: int, j: int)
    requires
        0 <= i <= j <= s.len(),
        forall|k: int| i <= k < j ==> is_digit(#[trigger] s[k]),
        j == s.len() || !is_digit(s[j]),
    ensures
        digits_end(s, i) == j,
    decreases j - i,
{
    if i < j {
        assert(is_digit(s[i]));
        lemma_digits_end(s, i + 1, j);
    }
}

/// Where no character from `i` up to `j` is a `=` and one stands at `j`, or
/// `s` ends there, the search for `=` from `i` on stops at `j`.
pub proof fn lemma_equals_at(s: Seq<char>, i: int, j: int)
    requires
        0 <= i <= j <= s.len(),
        forall|k: int| i <= k < j ==> #[trigger] s[k] != '=',
        j == s.len() || s[j] == '=',
    ensures
        equals_at(s, i) == j,
    decreases j - i,
{
    if i < j {
        assert(s[i] != '=');
        lemma_equals_at(s, i + 1, j);
    }
}

/// Where no character from `i` up to `j` is a separator and one stands at
/// `j`, or `s` ends there, the search for a separator from `i` on stops at
/// `j`.
pub proof fn lemma_separator_at(s: Seq<char>, i: int, j: int)
    requires
        0 <= i <= j <= s.len(),
        forall|k: int| i <= k < j ==> !is_separator(#[trigger] s[k]),
        j == s.len() || is_separator(s[j]),
    ensures
        separator_at(s, i) == j,
    decreases j - i,
{
    if i < j {
        assert(!is_separator(s[i]));
        lemma_separator_at(s, i + 1, j);
    }
}

/// Whether `c` can stand in the value or the count of a token: a digit or
/// one of `N`, `a`, `.`, `e`, `E` and `-`.
pub open spec fn is_plain(c: char) -> bool {
    is_digit(c) || c == 'N' || c == 'a' || c == '.' || c == 'e' || c == 'E' || c == '-'
}

/// A number in decimal digits is made of digits, at least one, and spells
/// that number.
pub proof fn lemma_decimal(n: nat)
    ensures
        decimal(n).len() >= 1,
        forall|k: int| 0 <= k < decimal(n).len() ==> is_digit(#[trigger] decimal(n)[k]),
        number(decimal(n)) == n,
    decreases n,
{
    if n < 10 {
        assert(decimal(n).drop_last() =~= Seq::<char>::empty());
        assert(number(decimal(n).drop_last()) == 0);
    } else {
        lemma_decimal(n / 10);
        assert(decimal(n).drop_last() =~= decimal(n / 10));
    }
}

/// An exponent that was written out reads back: where `s` ends, from
/// `from` on, with the signed decimal digits of `x`, it spells the
/// exponent `x` there.
pub proof fn lemma_exponent_reads_back(s: Seq<char>, from: int, x: int)
    requires
        0 <= from <= s.len(),
        s.subrange(from, s.len() as int) == signed_decimal(x),
    ensures
        parse_exponent(s, from) == Some(x),
{
    let tail = s.subrange(from, s.len() as int);
    let m: nat = if x < 0 {
        (-x) as nat
    } else {
        x as nat
    };
    lemma_decimal(m);
    let d = decimal(m);
    assert(tail.len() == s.len() - from);
    if x < 0 {
        assert(tail == seq!['-'] + d);
        assert(tail[0] == '-');
        assert(s[from] == tail[0]);
        assert forall|k: int| from + 1 <= k < s.len() implies is_digit(#[trigger] s[k]) by {
            assert(s[k] == tail[k - from]);
            assert(tail[k - from] == d[k - from - 1]);
        }
        lemma_digits_end(s, from + 1, s.len() as int);
        let digits = s.subrange(from + 1, s.len() as int);
        assert(digits.len() == d.len());
        assert forall|k: int| 0 <= k < d.len() implies digits[k] == d[k] by {
            assert(digits[k] == s[from + 1 + k]);
            assert(s[from + 1 + k] == tail[k + 1]);
            assert(tail[k + 1] == d[k]);
        }
        assert(digits =~= d);
    } else {
        assert(tail == d);
        assert(s[from] == tail[0]);
        assert(is_digit(d[0]));
        assert forall|k: int| from <= k < s.len() implies is_digit(#[trigger] s[k]) by {
            assert(s[k] == tail[k - from]);
        }
        lemma_digits_end(s, from, s.len() as int);
        assert(s.subrange(from, s.len() as int) =~= d);
    }
}

/// What starts with a digit spells neither an infinity nor not-a-number.
pub proof fn lemma_not_special(s: Seq<char>)
    requires
        s.len() > 0,
        is_digit(s[0]),
    ensures
        !is_special(s),
{
    let nan = seq!['n', 'a', 'n'];
    let inf = seq!['i', 'n', 'f'];
    let infinity = seq!['i', 'n', 'f', 'i', 'n', 'i', 't', 'y'];
    if spells(s, nan) {
        assert(same_letter(s[0], nan[0]));
    }
    if spells(s, inf) {
        assert(same_letter(s[0], inf[0]));
    }
    if spells(s, infinity) {
        assert(same_letter(s[0], infinity[0]));
    }
}

/// The text of the sentinel reads back as the sentinel.
proof fn lemma_nan_reads_back()
    ensures
        parse_value(seq!['N', 'a', 'N']) == Some(Entry::nan()),
{
    let v = seq!['N', 'a', 'N'];
    let word = seq!['n', 'a', 'n'];
    assert(v.subrange(0, 3) =~= v);
    assert forall|i: int| 0 <= i < 3 implies #[trigger] same_letter(v[i], word[i]) by {}
    assert(spells(v, word));
}

/// The text of the zero bucket reads back as the zero bucket.
proof fn lemma_zero_reads_back(upper: bool)
    ensures
        parse_value(seq!['0', '.', '0', exponent_mark(upper), '0']) == Some(Entry::zero()),
{
    let v = seq!['0', '.', '0', exponent_mark(upper), '0'];
    assert(v.subrange(0, 5) =~= v);
    lemma_not_special(v);
    lemma_digits_end(v, 0, 1);
    lemma_digits_end(v, 2, 3);
    assert(v.subrange(4, 5) =~= signed_decimal(0));
    lemma_exponent_reads_back(v, 4, 0);
    let whole = v.subrange(0, 1);
    let part = v.subrange(2, 3);
    let all = whole + part;
    assert(all =~= seq!['0', '0']);
    assert(zeros_end(all, 0) == 2) by {
        assert(zeros_end(all, 2) == 2);
        assert(zeros_end(all, 1) == 2);
    }
}

/// How the text of a regular bucket is laid out: the sign where there is
/// one, a digit, the point, a digit, the exponent mark, and the exponent.
proof fn lemma_regular_layout(e: Entry, upper: bool)
    requires
        e.wf(),
        !e.is_sentinel(),
        e.mantissa != 0,
    ensures
        ({
            let v = value_text(e, upper);
            let m = magnitude(e.mantissa) as int;
            let from: int = if e.mantissa < 0 {
                1
            } else {
                0
            };
            &&& v.len() == from + 4 + signed_decimal(e.exponent as int).len()
            &&& e.mantissa < 0 ==> v[0] == '-'
            &&& v[from] == digit_char(m / 10)
            &&& v[from + 1] == '.'
            &&& v[from + 2] == digit_char(m % 10)
            &&& v[from + 3] == exponent_mark(upper)
            &&& v.subrange(from + 4, v.len() as int) == signed_decimal(e.exponent as int)
            &&& 1 <= m / 10 <= 9
            &&& 0 <= m % 10 <= 9
            &&& 10 * (m / 10) + m % 10 == m
        }),
{
    let v = value_text(e, upper);
    let m = magnitude(e.mantissa) as int;
    let from: int = if e.mantissa < 0 {
        1
    } else {
        0
    };
    let tail = signed_decimal(e.exponent as int);
    assert(v.subrange(from + 4, v.len() as int) =~= tail);
}

/// The text of a regular bucket reads back as the empty bin of that
/// bucket.
proof fn lemma_regular_reads_back(e: Entry, upper: bool)
    requires
        e.wf(),
        !e.is_sentinel(),
        e.mantissa != 0,
    ensures
        parse_value(value_text(e, upper)) == Some(e.with_count(0)),
{
    let v = value_text(e, upper);
    let m = magnitude(e.mantissa) as int;
    let negative = e.mantissa < 0;
    let from: int = if negative {
        1
    } else {
        0
    };
    lemma_regular_layout(e, upper);
    let rest = v.subrange(from, v.len() as int);
    assert(rest[0] == v[from]);
    lemma_not_special(rest);
    lemma_digits_end(v, from, from + 1);
    lemma_digits_end(v, from + 2, from + 3);
    lemma_exponent_reads_back(v, from + 4, e.exponent);
    let whole = v.subrange(from, from + 1);
    let part = v.subrange(from + 2, from + 3);
    let all = whole + part;
    assert(all.len() == 2);
    assert(all[0] == v[from] && all[1] == v[from + 2]);
    assert(all[0] != '0');
    assert(zeros_end(all, 0) == 0);
    assert(digit_value(all[0]) == m / 10 && digit_value(all[1]) == m % 10);
    assert(whole.len() - 1 - 0 + e.exponent == e.exponent);
    assert(encode_decimal(negative, whole, part, e.exponent) == encode_parts(
        negative,
        e.exponent,
        m,
    ));
    assert(encode_parts(negative, e.exponent, m) == e.with_count(0));
    let signed = v.len() > 0 && (v[0] == '+' || v[0] == '-');
    assert(signed == negative);
}

/// The value of a bin that was written out reads back as the empty bin of
/// that bucket.
pub proof fn lemma_value_reads_back(e: Entry, upper: bool)
    requires
        e.wf(),
    ensures
        parse_value(value_text(e, upper)) == Some(e.with_count(0)),
{
    if e.is_sentinel() {
        lemma_nan_reads_back();
    } else if e.mantissa == 0 {
        lemma_zero_reads_back(upper);
    } else {
        lemma_regular_reads_back(e, upper);
    }
}

/// The value of a bin and its count are written in plain characters only.
pub proof fn lemma_token_is_plain(e: Entry, upper: bool)
    requires
        e.wf(),
    ensures
        value_text(e, upper).len() >= 3,
        forall|k: int|
            0 <= k < value_text(e, upper).len() ==> is_plain(#[trigger] value_text(e, upper)[k]),
        decimal(e.count).len() >= 1,
        forall|k: int| 0 <= k < decimal(e.count).len() ==> is_digit(#[trigger] decimal(e.count)[k]),
{
    let v = value_text(e, upper);
    lemma_decimal(e.count);
    if !e.is_sentinel() && e.mantissa != 0 {
        let x: nat = if e.exponent < 0 {
            (-e.exponent) as nat
        } else {
            e.exponent as nat
        };
        lemma_decimal(x);
        let m = magnitude(e.mantissa) as int;
        let sign = if e.mantissa < 0 {
            seq!['-']
        } else {
            Seq::<char>::empty()
        };
        let body = seq![digit_char(m / 10), '.', digit_char(m % 10), exponent_mark(upper)];
        let tail = signed_decimal(e.exponent);
        assert(v =~= sign + body + tail);
        assert forall|k: int| 0 <= k < v.len() implies is_plain(#[trigger] v[k]) by {
            if k < sign.len() {
                assert(v[k] == sign[k]);
            } else if k < sign.len() + 4 {
                assert(v[k] == body[k - sign.len()]);
            } else {
                let i = k - sign.len() - 4;
                assert(v[k] == tail[i]);
                if e.exponent < 0 {
                    if i > 0 {
                        assert(tail[i] == decimal(x)[i - 1]);
                    }
                }
            }
        }
    }
}

/// How a token is laid out: `H[`, the value, `]=` and the count.
proof fn lemma_token_layout(e: Entry, upper: bool)
    requires
        e.wf(),
    ensures
        ({
            let t = token_text(e, upper);
            let v = value_text(e, upper);
            let d = decimal(e.count);
            let eq = 3 + v.len() as int;
            &&& t.len() == eq + 1 + d.len()
            &&& t[0] == 'H'
            &&& t[1] == '['
            &&& t[eq - 1] == ']'
            &&& t[eq] == '='
            &&& t.subrange(2, eq - 1) == v
            &&& t.subrange(eq + 1, t.len() as int) == d
            &&& forall|k: int| 2 <= k < eq - 1 ==> is_plain(#[trigger] t[k])
            &&& forall|k: int| eq < k < t.len() ==> is_digit(#[trigger] t[k])
        }),
{
    let t = token_text(e, upper);
    let v = value_text(e, upper);
    let d = decimal(e.count);
    let eq = 3 + v.len() as int;
    lemma_token_is_plain(e, upper);
    assert(t.subrange(2, eq - 1) =~= v);
    assert(t.subrange(eq + 1, t.len() as int) =~= d);
    assert forall|k: int| 2 <= k < eq - 1 implies is_plain(#[trigger] t[k]) by {
        assert(t[k] == v[k - 2]);
    }
    assert forall|k: int| eq < k < t.len() implies is_digit(#[trigger] t[k]) by {
        assert(t[k] == d[k - eq - 1]);
    }
}

/// A count that was written out reads back.
proof fn lemma_count_reads_back(n: nat)
    requires
        n <= u64::MAX,
    ensures
        parse_count(decimal(n)) == Some(n),
{
    let d = decimal(n);
    lemma_decimal(n);
    assert(is_digit(d[0]));
    lemma_digits_end(d, 0, d.len() as int);
    assert(d.subrange(0, d.len() as int) =~= d);
}

/// A token has no white space at its ends.
proof fn lemma_token_is_trim(e: Entry, upper: bool)
    requires
        e.wf(),
    ensures
        trim(token_text(e, upper)) == token_text(e, upper),
        token_text(e, upper).len() > 0,
{
    let t = token_text(e, upper);
    let n = t.len() as int;
    lemma_token_layout(e, upper);
    lemma_decimal(e.count);
    assert(spaces_end(t, 0) == 0);
    assert(is_digit(t[n - 1]));
    assert(spaces_start(t, 0, n) == n);
    assert(t.subrange(0, n) =~= t);
}

/// A bin that was written out reads back as it was.
pub proof fn lemma_token_reads_back(e: Entry, upper: bool)
    requires
        e.wf(),
    ensures
        parse_token(token_text(e, upper)) == Ok::<Entry, crate::parse::ParseBinError>(e),
{
    let v = value_text(e, upper);
    let t = token_text(e, upper);
    let n = t.len() as int;
    let eq = 3 + v.len() as int;
    lemma_token_layout(e, upper);
    lemma_token_is_trim(e, upper);
    lemma_token_is_plain(e, upper);
    lemma_value_reads_back(e, upper);
    lemma_count_reads_back(e.count);
    assert forall|k: int| 0 <= k < eq implies #[trigger] t[k] != '=' by {
        if 2 <= k < eq - 1 {
            assert(is_plain(t[k]));
        }
    }
    lemma_equals_at(t, 0, eq);
    assert forall|k: int| eq + 1 <= k < n implies #[trigger] t[k] != '=' by {
        assert(is_digit(t[k]));
    }
    lemma_equals_at(t, eq + 1, n);
}

/// A token reads the same with white space in front of it.
pub proof fn lemma_leading_space(pad: Seq<char>, t: Seq<char>)
    requires
        forall|k: int| 0 <= k < pad.len() ==> is_space(#[trigger] pad[k]),
        trim(t) == t,
        t.len() > 0,
    ensures
        trim(pad + t) == t,
{
    let s = pad + t;
    let n = s.len() as int;
    let from = pad.len() as int;
    // The text itself neither starts nor ends with white space.
    assert(!is_space(t[0]) && !is_space(t[t.len() - 1])) by {
        let a = spaces_end(t, 0);
        let b = spaces_start(t, a, t.len() as int);
        if is_space(t[0]) {
            lemma_spaces_end_bounds(t, 1);
            lemma_spaces_start_bounds(t, a, t.len() as int);
            assert(t.subrange(a, if b < a { a } else { b }).len() < t.len());
        }
        if is_space(t[t.len() - 1]) {
            lemma_spaces_end_bounds(t, 0);
            lemma_spaces_start_bounds(t, a, t.len() - 1);
            assert(t.subrange(a, if b < a { a } else { b }).len() < t.len());
        }
    }
    lemma_spaces_end(s, 0, from);
    assert(s[n - 1] == t[t.len() - 1]);
    assert(spaces_start(s, from, n) == n);
    assert(s.subrange(from, n) =~= t);
}

/// The white space from `i` on ends inside the text, at `i` or later.
pub proof fn lemma_spaces_end_bounds(s: Seq<char>, i: int)
    requires
        0 <= i <= s.len(),
    ensures
        i <= spaces_end(s, i) <= s.len(),
    decreases s.len() - i,
{
    if i < s.len() && is_space(s[i]) {
        lemma_spaces_end_bounds(s, i + 1);
    }
}

/// The white space before `j` starts inside the text, at `j` or earlier,
/// and no earlier than `low`.
pub proof fn lemma_spaces_start_bounds(s: Seq<char>, low: int, j: int)
    requires
        0 <= low,
        0 <= j <= s.len(),
    ensures
        spaces_start(s, low, j) <= j,
        low <= j ==> low <= spaces_start(s, low, j),
    decreases j,
{
    if low < j && is_space(s[j - 1]) {
        lemma_spaces_start_bounds(s, low, j - 1);
    }
}

/// Where all characters from `i` up to `j` are white space and none
/// follows at `j`, the white space from `i` on ends at `j`.
pub proof fn lemma_spaces_end(s: Seq<char>, i: int, j: int)
    requires
        0 <= i <= j <= s.len(),
        forall|k: int| i <= k < j ==> is_space(#[trigger] s[k]),
        j == s.len() || !is_space(s[j]),
    ensures
        spaces_end(s, i) == j,
    decreases j - i,
{
    if i < j {
        assert(is_space(s[i]));
        lemma_spaces_end(s, i + 1, j);
    }
}

/// Tokens that spell the entries of a sorted content, one by one and in
/// order, spell that content.
pub proof fn lemma_collected_reads_back(s: Seq<Entry>, tokens: Seq<Seq<char>>)
    requires
        sorted(s),
        tokens.len() == s.len(),
        forall|i: int|
            0 <= i < s.len() ==> parse_token(#[trigger] tokens[i]) == Ok::<
                Entry,
                crate::parse::ParseBinError,
            >(s[i]),
    ensures
        collected(tokens) == Ok::<Seq<Entry>, ParseError>(s),
    decreases s.len(),
{
    if s.len() == 0 {
        assert(s =~= Seq::<Entry>::empty());
    } else {
        let front = s.drop_last();
        let last = s.last();
        lemma_sorted_part(s, 0, s.len() - 1);
        assert(front =~= s.subrange(0, s.len() - 1));
        assert forall|i: int| 0 <= i < front.len() implies parse_token(
            #[trigger] tokens.drop_last()[i],
        ) == Ok::<Entry, crate::parse::ParseBinError>(front[i]) by {
            assert(tokens.drop_last()[i] == tokens[i]);
        }
        lemma_collected_reads_back(front, tokens.drop_last());
        assert(parse_token(tokens.last()) == Ok::<Entry, crate::parse::ParseBinError>(last)) by {
            assert(tokens.last() == tokens[s.len() - 1]);
        }
        let probe = last.with_count(0);
        assert(last.wf());
        assert forall|i: int| 0 <= i < front.len() implies (#[trigger] front[i]).precedes(
            probe,
        ) by {
            assert(s[i].precedes(s[s.len() - 1]));
        }
        lemma_slot(front, probe, front.len() as int);
        assert(inserted(front, probe, last.count as int) =~= front.push(last));
        assert(front.push(last) =~= s);
    }
}

/// A histogram reads back from the tokens of its bins.
pub proof fn lemma_tokens_read_back(s: Seq<Entry>)
    requires
        sorted(s),
    ensures
        collected(s.map_values(|e: Entry| token_text(e, false))) == Ok::<Seq<Entry>, ParseError>(
            s,
        ),
{
    let tokens = s.map_values(|e: Entry| token_text(e, false));
    assert forall|i: int| 0 <= i < s.len() implies parse_token(#[trigger] tokens[i]) == Ok::<
        Entry,
        crate::parse::ParseBinError,
    >(s[i]) by {
        lemma_token_reads_back(s[i], false);
    }
    lemma_collected_reads_back(s, tokens);
}

/// Where the search for a separator stops: at the first one from `i` on,
/// or at the end.
pub proof fn lemma_separator_found(s: Seq<char>, i: int)
    requires
        0 <= i <= s.len(),
    ensures
        i <= separator_at(s, i) <= s.len(),
        forall|k: int| i <= k < separator_at(s, i) ==> !is_separator(#[trigger] s[k]),
        separator_at(s, i) == s.len() || is_separator(s[separator_at(s, i)]),
    decreases s.len() - i,
{
    if i < s.len() && !is_separator(s[i]) {
        lemma_separator_found(s, i + 1);
    }
}

/// A piece without separators that is appended behind a separator is the
/// last token.
pub proof fn lemma_split_append(x: Seq<char>, c: char, y: Seq<char>, i: int)
    requires
        0 <= i <= x.len(),
        is_separator(c),
        forall|k: int| 0 <= k < y.len() ==> !is_separator(#[trigger] y[k]),
    ensures
        split_from(x + seq![c] + y, i) == split_from(x, i).push(y),
    decreases x.len() - i,
{
    let z = x + seq![c] + y;
    lemma_separator_found(x, i);
    let at = separator_at(x, i);
    assert forall|k: int| i <= k < at implies !is_separator(#[trigger] z[k]) by {
        assert(z[k] == x[k]);
    }
    if at < x.len() {
        assert(z[at] == x[at]);
        lemma_separator_at(z, i, at);
        lemma_split_append(x, c, y, at + 1);
        assert(z.subrange(i, at) =~= x.subrange(i, at));
        assert(seq![x.subrange(i, at)] + split_from(x, at + 1).push(y) =~= (seq![
            x.subrange(i, at),
        ] + split_from(x, at + 1)).push(y));
    } else {
        let n = x.len() as int;
        assert(z[n] == c);
        lemma_separator_at(z, i, n);
        assert forall|k: int| n + 1 <= k < z.len() implies !is_separator(#[trigger] z[k]) by {
            assert(z[k] == y[k - n - 1]);
        }
        lemma_separator_at(z, n + 1, z.len() as int);
        assert(z.subrange(i, n) =~= x.subrange(i, n));
        assert(z.subrange(n + 1, z.len() as int) =~= y);
        assert(split_from(z, n + 1) == seq![y]);
        assert(seq![x.subrange(i, n)] + seq![y] =~= seq![x.subrange(i, n)].push(y));
    }
}

/// The tokens that the text of a histogram parts into: the token of the
/// first bin, and for every further bin its token behind `pad`, which is
/// what the separator holds behind its comma or line feed.
pub open spec fn pieces(s: Seq<Entry>, pad: Seq<char>) -> Seq<Seq<char>> {
    Seq::new(
        s.len(),
        |k: int|
            if k == 0 {
                token_text(s[k], false)
            } else {
                pad + token_text(s[k], false)
            },
    )
}

/// A token holds no separator.
pub proof fn lemma_token_holds_no_separator(e: Entry, upper: bool)
    requires
        e.wf(),
    ensures
        forall|k: int|
            0 <= k < token_text(e, upper).len() ==> !is_separator(
                #[trigger] token_text(e, upper)[k],
            ),
{
    let t = token_text(e, upper);
    lemma_token_layout(e, upper);
    let eq = 3 + value_text(e, upper).len() as int;
    assert forall|k: int| 0 <= k < t.len() implies !is_separator(#[trigger] t[k]) by {
        if 2 <= k < eq - 1 {
            assert(is_plain(t[k]));
        } else if k > eq {
            assert(is_digit(t[k]));
        }
    }
}

/// The text of a histogram parts into its pieces.
pub proof fn lemma_split_joined(s: Seq<Entry>, c: char, pad: Seq<char>)
    requires
        sorted(s),
        s.len() > 0,
        is_separator(c),
        forall|k: int| 0 <= k < pad.len() ==> is_space(#[trigger] pad[k]) && !is_separator(pad[k]),
    ensures
        split_from(joined(s, seq![c] + pad), 0) == pieces(s, pad),
    decreases s.len(),
{
    let sep = seq![c] + pad;
    if s.len() == 1 {
        let t = token_text(s[0], false);
        lemma_token_holds_no_separator(s[0], false);
        lemma_separator_at(t, 0, t.len() as int);
        assert(t.subrange(0, t.len() as int) =~= t);
        assert(pieces(s, pad) =~= seq![t]);
    } else {
        let front = s.drop_last();
        let last = s.last();
        lemma_sorted_part(s, 0, s.len() - 1);
        assert(front =~= s.subrange(0, s.len() - 1));
        lemma_split_joined(front, c, pad);
        let x = joined(front, sep);
        let t = token_text(last, false);
        let y = pad + t;
        assert(last.wf());
        lemma_token_holds_no_separator(last, false);
        assert forall|k: int| 0 <= k < y.len() implies !is_separator(#[trigger] y[k]) by {
            if k >= pad.len() {
                assert(y[k] == t[k - pad.len()]);
            } else {
                assert(y[k] == pad[k]);
            }
        }
        lemma_split_append(x, c, y, 0);
        assert(joined(s, sep) =~= x + seq![c] + y);
        assert(pieces(s, pad) =~= pieces(front, pad).push(y));
    }
}

/// The text of a histogram starts and ends with its tokens: it has no
/// white space at its ends.
pub proof fn lemma_joined_is_trim(s: Seq<Entry>, sep: Seq<char>)
    requires
        sorted(s),
        s.len() > 0,
    ensures
        trim(joined(s, sep)) == joined(s, sep),
    decreases s.len(),
{
    let j = joined(s, sep);
    let n = j.len() as int;
    let last = token_text(s.last(), false);
    let first = token_text(s[0], false);
    assert(s[0].wf() && s.last().wf());
    lemma_token_layout(s[0], false);
    lemma_token_layout(s.last(), false);
    lemma_decimal(s.last().count);
    lemma_joined_ends(s, sep);
    assert(spaces_end(j, 0) == 0);
    assert(spaces_start(j, 0, n) == n);
    assert(j.subrange(0, n) =~= j);
}

/// The text of a histogram starts with `H` and ends with a digit.
pub proof fn lemma_joined_ends(s: Seq<Entry>, sep: Seq<char>)
    requires
        sorted(s),
        s.len() > 0,
    ensures
        joined(s, sep).len() > 0,
        joined(s, sep)[0] == 'H',
        is_digit(joined(s, sep).last()),
    decreases s.len(),
{
    let last = token_text(s.last(), false);
    assert(s.last().wf());
    lemma_token_layout(s.last(), false);
    lemma_decimal(s.last().count);
    if s.len() > 1 {
        let front = s.drop_last();
        lemma_sorted_part(s, 0, s.len() - 1);
        assert(front =~= s.subrange(0, s.len() - 1));
        lemma_joined_ends(front, sep);
        let j = joined(s, sep);
        assert(j =~= joined(front, sep) + sep + last);
        assert(j[0] == joined(front, sep)[0]);
        assert(j.last() == last.last());
    }
}

/// A histogram reads back from its text.
///
/// This holds of every histogram with a bin, written with a comma and a
/// space or with a line feed between the tokens. The text of a histogram
/// without bins is empty, and reads as one token that spells no bin.
pub proof fn lemma_text_reads_back(s: Seq<Entry>, alternate: bool)
    requires
        sorted(s),
        s.len() > 0,
    ensures
        collected(
            split(
                joined(
                    s,
                    if alternate {
                        seq!['\n']
                    } else {
                        seq![',', ' ']
                    },
                ),
            ),
        ) == Ok::<Seq<Entry>, ParseError>(s),
{
    let c = if alternate {
        '\n'
    } else {
        ','
    };
    let pad = if alternate {
        Seq::<char>::empty()
    } else {
        seq![' ']
    };
    let sep = if alternate {
        seq!['\n']
    } else {
        seq![',', ' ']
    };
    assert(sep =~= seq![c] + pad);
    lemma_joined_is_trim(s, sep);
    lemma_split_joined(s, c, pad);
    let tokens = pieces(s, pad);
    assert forall|i: int| 0 <= i < s.len() implies parse_token(#[trigger] tokens[i]) == Ok::<
        Entry,
        crate::parse::ParseBinError,
    >(s[i]) by {
        let t = token_text(s[i], false);
        lemma_token_reads_back(s[i], false);
        lemma_token_is_trim(s[i], false);
        if i > 0 {
            lemma_leading_space(pad, t);
        }
    }
    lemma_collected_reads_back(s, tokens);
}

} // verus!
