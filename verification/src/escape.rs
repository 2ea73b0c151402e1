//! Terminal escape sequences: decimal rendering of coordinates and the
//! cursor-movement sequences the serializers emit.

use vstd::prelude::*;

verus! {

/// The decimal digit character for `d` (only the values zero through nine
/// have one).
pub open spec fn dec_digit(d: int) -> char {
    if d == 0 {
        '0'
    } else if d == 1 {
        '1'
    } else if d == 2 {
        '2'
    } else if d == 3 {
        '3'
    } else if d == 4 {
        '4'
    } else if d == 5 {
        '5'
    } else if d == 6 {
        '6'
    } else if d == 7 {
        '7'
    } else if d == 8 {
        '8'
    } else {
        '9'
    }
}

/// The usual decimal rendering of a non-negative number, most significant
/// digit first, with no leading zeroes (zero itself is a single digit).
pub open spec fn dec_rep(n: int) -> Seq<char>
    decreases n,
{
    if n < 0 {
        Seq::empty()
    } else if n < 10 {
        seq![dec_digit(n)]
    } else {
        dec_rep(n / 10).push(dec_digit(n % 10))
    }
}

/// Whether `c` is a decimal digit character.
pub open spec fn is_dec_digit(c: char) -> bool {
    c == '0' || c == '1' || c == '2' || c == '3' || c == '4' || c == '5' || c == '6' || c == '7'
        || c == '8' || c == '9'
}

/// The value of a decimal digit character.
pub open spec fn dec_digit_value(c: char) -> int {
    if c == '0' {
        0
    } else if c == '1' {
        1
    } else if c == '2' {
        2
    } else if c == '3' {
        3
    } else if c == '4' {
        4
    } else if c == '5' {
        5
    } else if c == '6' {
        6
    } else if c == '7' {
        7
    } else if c == '8' {
        8
    } else {
        9
    }
}

/// How many decimal digit characters stand at the front of `s`.
pub open spec fn digits_prefix_len(s: Seq<char>) -> int
    decreases s.len(),
{
    if s.len() == 0 {
        0
    } else if !is_dec_digit(s[0]) {
        0
    } else {
        1 + digits_prefix_len(s.drop_first())
    }
}

/// The number read from the first `k` characters of `s`, taken as decimal
/// digits, most significant first.
pub open spec fn digits_value(s: Seq<char>, k: int) -> int
    decreases k,
{
    if k <= 0 {
        0
    } else {
        digits_value(s, k - 1) * 10 + dec_digit_value(s[k - 1])
    }
}

/// A decimal rendering holds at least one character and nothing but
/// digits.
pub proof fn lemma_dec_rep_digits(n: int)
    requires
        n >= 0,
    ensures
        dec_rep(n).len() >= 1,
        forall|i: int| 0 <= i < dec_rep(n).len() ==> is_dec_digit(#[trigger] dec_rep(n)[i]),
    decreases n,
{
    if n >= 10 {
        lemma_dec_rep_digits(n / 10);
        assert forall|i: int| 0 <= i < dec_rep(n).len() implies is_dec_digit(
            #[trigger] dec_rep(n)[i],
        ) by {
            if i < dec_rep(n / 10).len() {
                assert(dec_rep(n)[i] == dec_rep(n / 10)[i]);
            }
        }
    }
}

proof fn lemma_digits_value_extend(s: Seq<char>, t: Seq<char>, k: int)
    requires
        0 <= k <= s.len(),
        forall|i: int| 0 <= i < k ==> s[i] == t[i],
    ensures
        digits_value(s, k) == digits_value(t, k),
    decreases k,
{
    if k > 0 {
        lemma_digits_value_extend(s, t, k - 1);
    }
}

proof fn lemma_digits_prefix_len_exact(s: Seq<char>, m: int)
    requires
        0 <= m <= s.len(),
        forall|i: int| 0 <= i < m ==> is_dec_digit(#[trigger] s[i]),
        m < s.len() ==> !is_dec_digit(s[m]),
    ensures
        digits_prefix_len(s) == m,
    decreases m,
{
    if m == 0 {
    } else {
        assert(is_dec_digit(s[0]));
        assert forall|i: int| 0 <= i < m - 1 implies is_dec_digit(
            #[trigger] s.drop_first()[i],
        ) by {
            assert(s.drop_first()[i] == s[i + 1]);
        }
        if m - 1 < s.drop_first().len() {
            assert(s.drop_first()[m - 1] == s[m]);
        }
        lemma_digits_prefix_len_exact(s.drop_first(), m - 1);
    }
}

proof fn lemma_digits_value_of_dec_rep(n: int)
    requires
        n >= 0,
    ensures
        digits_value(dec_rep(n), dec_rep(n).len() as int) == n,
    decreases n,
{
    if n < 10 {
        assert(digits_value(dec_rep(n), 0) == 0);
        assert(digits_value(dec_rep(n), 1) == dec_digit_value(dec_digit(n)));
    } else {
        lemma_digits_value_of_dec_rep(n / 10);
        let prefix = dec_rep(n / 10);
        let whole = dec_rep(n);
        assert(whole == prefix.push(dec_digit(n % 10)));
        lemma_digits_value_extend(prefix, whole, prefix.len() as int);
        assert(digits_value(whole, whole.len() as int) == digits_value(
            whole,
            prefix.len() as int,
        ) * 10 + dec_digit_value(whole[whole.len() - 1]));
        assert(whole[whole.len() - 1] == dec_digit(n % 10));
        assert(dec_digit_value(dec_digit(n % 10)) == n % 10);
        assert((n / 10) * 10 + n % 10 == n) by {
            vstd::arithmetic::div_mod::lemma_fundamental_div_mod(n, 10);
        }
    }
}

/// Reading digits from a decimal rendering followed by a non-digit stops
/// exactly at the rendering's end and reads the rendered number back.
pub proof fn lemma_parse_dec_rep(n: int, rest: Seq<char>)
    requires
        n >= 0,
        rest.len() > 0,
        !is_dec_digit(rest[0]),
    ensures
        digits_prefix_len(dec_rep(n) + rest) == dec_rep(n).len(),
        digits_value(dec_rep(n) + rest, dec_rep(n).len() as int) == n,
{
    let s = dec_rep(n) + rest;
    lemma_dec_rep_digits(n);
    assert forall|i: int| 0 <= i < dec_rep(n).len() implies is_dec_digit(#[trigger] s[i]) by {
        assert(s[i] == dec_rep(n)[i]);
    }
    assert(s[dec_rep(n).len() as int] == rest[0]);
    lemma_digits_prefix_len_exact(s, dec_rep(n).len() as int);
    lemma_digits_value_of_dec_rep(n);
    lemma_digits_value_extend(dec_rep(n), s, dec_rep(n).len() as int);
}

/// The absolute cursor-position sequence targeting column `x` of row `y`.
pub open spec fn esc_move_to(x: int, y: int) -> Seq<char> {
    seq!['\x1B', '['] + dec_rep(y) + seq![';'] + dec_rep(x) + seq!['H']
}

/// The sequence that steps the cursor one row down and back to column `x`.
pub open spec fn esc_row_step(x: int) -> Seq<char> {
    seq!['\x1B', '[', '1', 'B', '\x1B', '['] + dec_rep(x) + seq!['G']
}

fn dec_digit_char(d: usize) -> (c: char)
    requires
        d < 10,
    ensures
        c == dec_digit(d as int),
{
    if d == 0 {
        '0'
    } else if d == 1 {
        '1'
    } else if d == 2 {
        '2'
    } else if d == 3 {
        '3'
    } else if d == 4 {
        '4'
    } else if d == 5 {
        '5'
    } else if d == 6 {
        '6'
    } else if d == 7 {
        '7'
    } else if d == 8 {
        '8'
    } else {
        '9'
    }
}

/// Appends the decimal rendering of `n` to `out`.
pub(crate) fn push_usize_decimal(out: &mut Vec<char>, n: usize)
    ensures
        final(out)@ == old(out)@ + dec_rep(n as int),
{
    let mut tmp: Vec<char> = Vec::new();
    let mut m: usize = n;
    loop
        invariant_except_break
            (tmp@.len() == 0 && m == n) || (m > 0 && dec_rep(n as int) == dec_rep(m as int)
                + tmp@.reverse()),
        ensures
            dec_rep(n as int) == tmp@.reverse(),
        decreases m,
    {
        let ghost entering_empty = tmp@.len() == 0;
        let d = m % 10;
        tmp.push(dec_digit_char(d));
        proof {
            assert(tmp@.reverse() =~= seq![dec_digit(d as int)] + tmp@.drop_last().reverse());
        }
        let next = m / 10;
        proof {
            let prior = tmp@.drop_last();
            if entering_empty {
                assert(prior.reverse() =~= Seq::<char>::empty());
                assert(tmp@.reverse() =~= seq![dec_digit(d as int)]);
            }
            if next == 0 {
                assert(m < 10);
                assert(dec_rep(m as int) == seq![dec_digit(m as int)]);
                if entering_empty {
                    assert(dec_rep(n as int) =~= tmp@.reverse());
                } else {
                    assert(dec_rep(n as int) =~= dec_rep(m as int) + prior.reverse());
                    assert(dec_rep(n as int) =~= tmp@.reverse());
                }
            } else {
                assert(dec_rep(m as int) == dec_rep(next as int).push(
                    dec_digit((m % 10) as int),
                ));
                assert(dec_rep(n as int) =~= dec_rep(next as int) + tmp@.reverse());
            }
        }
        m = next;
        if m == 0 {
            break;
        }
    }
    let ghost out0 = out@;
    let mut k: usize = tmp.len();
    while k > 0
        invariant
            k <= tmp@.len(),
            out@ == out0 + tmp@.reverse().take(tmp@.len() - k),
        decreases k,
    {
        k = k - 1;
        out.push(tmp[k]);
        proof {
            assert(tmp@.reverse()[tmp@.len() - k - 1] == tmp@[k as int]);
            assert(out0 + tmp@.reverse().take(tmp@.len() - k) =~= (out0 + tmp@.reverse().take(
                tmp@.len() - k - 1,
            )).push(tmp@[k as int]));
        }
    }
    proof {
        assert(tmp@.reverse().take(tmp@.len() as int) =~= tmp@.reverse());
        assert(out@ == out0 + dec_rep(n as int));
    }
}

/// Appends the cursor-position sequence for column `x` of row `y` to `out`.
pub(crate) fn push_move_to(out: &mut Vec<char>, x: usize, y: usize)
    ensures
        final(out)@ == old(out)@ + esc_move_to(x as int, y as int),
{
    out.push('\x1B');
    out.push('[');
    push_usize_decimal(out, y);
    out.push(';');
    push_usize_decimal(out, x);
    out.push('H');
    proof {
        assert(out@ =~= old(out)@ + esc_move_to(x as int, y as int));
    }
}

/// Appends the row-step sequence for column `x` to `out`.
pub(crate) fn push_row_step(out: &mut Vec<char>, x: usize)
    ensures
        final(out)@ == old(out)@ + esc_row_step(x as int),
{
    out.push('\x1B');
    out.push('[');
    out.push('1');
    out.push('B');
    out.push('\x1B');
    out.push('[');
    push_usize_decimal(out, x);
    out.push('G');
    proof {
        assert(out@ =~= old(out)@ + esc_row_step(x as int));
    }
}

} // verus!
