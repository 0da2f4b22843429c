//! Number-base conversions between decimal and binary: rendering a number's
//! binary digits as text, and reading a decimal numeral whose digits are
//! binary as the number it denotes in base 2.

use vstd::prelude::*;
use vstd::string::StringExecFns;

verus! {

/// The binary digits of `n`, most significant first (empty for 0).
pub open spec fn bin_digits(n: nat) -> Seq<char>
    decreases n,
{
    if n == 0 {
        Seq::empty()
    } else {
        bin_digits(n / 2).push(if n % 2 == 1 {
            '1'
        } else {
            '0'
        })
    }
}

/// The decimal digits of `n`, most significant first (empty for 0).
pub open spec fn dec_digits(n: nat) -> Seq<char>
    decreases n,
{
    if n == 0 {
        Seq::empty()
    } else {
        dec_digits(n / 10).push(digit_char((n % 10) as nat))
    }
}

/// The character for a single decimal digit.
pub open spec fn digit_char(d: nat) -> char {
    if d == 0 {
        '0'
    } else if d == 1 {
        '1'
    } else if d == 2 {
        '2'
    } else if d == 3 {
        '3'
    } else if d == 4 {
        '4'
    } else if d == 5 {
        '5'
    } else if d == 6 {
        '6'
    } else if d == 7 {
        '7'
    } else if d == 8 {
        '8'
    } else {
        '9'
    }
}

/// The digit characters collected least-significant-first, read back in
/// display order.
pub open spec fn rev_chars(cs: Seq<char>) -> Seq<char>
    decreases cs.len(),
{
    if cs.len() == 0 {
        Seq::empty()
    } else {
        seq![cs.last()] + rev_chars(cs.drop_last())
    }
}

/// The value a decimal numeral denotes when its digits are read as binary
/// digits, least significant decimal digit first.
pub open spec fn weighted_binary(n: nat) -> nat
    decreases n,
{
    if n == 0 {
        0
    } else {
        n % 10 + 2 * weighted_binary(n / 10)
    }
}

/// Every decimal digit of `n` is 0 or 1.
pub open spec fn all_digits_binary(n: nat) -> bool
    decreases n,
{
    n == 0 || (n % 10 <= 1 && all_digits_binary(n / 10))
}

/// A positive numeral has a positive weighted reading.
proof fn lemma_weighted_pos(n: nat)
    requires
        n >= 1,
    ensures
        weighted_binary(n) >= 1,
    decreases n,
{
    if n % 10 == 0 {
        assert(n / 10 >= 1) by {
            vstd::arithmetic::div_mod::lemma_fundamental_div_mod(n as int, 10);
        }
        lemma_weighted_pos(n / 10);
    }
}

/// Reading a numeral's digits with binary weights never exceeds the numeral.
proof fn lemma_weighted_le(n: nat)
    ensures
        weighted_binary(n) <= n,
    decreases n,
{
    if n > 0 {
        lemma_weighted_le(n / 10);
        assert(n % 10 + 10 * (n / 10) == n) by {
            vstd::arithmetic::div_mod::lemma_fundamental_div_mod(n as int, 10);
        }
    }
}

/// Append one decimal digit character to a string.
fn push_digit(s: &mut String, c: char)
    requires
        c == '0' || c == '1' || c == '2' || c == '3' || c == '4' || c == '5' || c == '6' || c
            == '7' || c == '8' || c == '9',
    ensures
        final(s)@ == old(s)@.push(c),
{
    proof {
        reveal_strlit("0");
        reveal_strlit("1");
        reveal_strlit("2");
        reveal_strlit("3");
        reveal_strlit("4");
        reveal_strlit("5");
        reveal_strlit("6");
        reveal_strlit("7");
        reveal_strlit("8");
        reveal_strlit("9");
    }
    if c == '0' {
        s.append("0");
    } else if c == '1' {
        s.append("1");
    } else if c == '2' {
        s.append("2");
    } else if c == '3' {
        s.append("3");
    } else if c == '4' {
        s.append("4");
    } else if c == '5' {
        s.append("5");
    } else if c == '6' {
        s.append("6");
    } else if c == '7' {
        s.append("7");
    } else if c == '8' {
        s.append("8");
    } else {
        s.append("9");
    }
    proof {
        assert(final(s)@ =~= old(s)@.push(c));
    }
}

/// Render the digit characters collected least-significant-first.
fn render_reversed(digits: &Vec<char>) -> (s: String)
    requires
        forall|k: int|
            0 <= k < digits@.len() ==> (#[trigger] digits@[k]) == '0' || digits@[k] == '1'
                || digits@[k] == '2' || digits@[k] == '3' || digits@[k] == '4' || digits@[k]
                == '5' || digits@[k] == '6' || digits@[k] == '7' || digits@[k] == '8'
                || digits@[k] == '9',
    ensures
        s@ == rev_chars(digits@),
{
    let mut s = String::new();
    let mut idx = digits.len();
    proof {
        assert(digits@.subrange(0, digits@.len() as int) =~= digits@);
        assert(s@ + rev_chars(digits@) =~= rev_chars(digits@));
    }
    while idx > 0
        invariant
            idx <= digits@.len(),
            forall|k: int|
                0 <= k < digits@.len() ==> (#[trigger] digits@[k]) == '0' || digits@[k] == '1'
                    || digits@[k] == '2' || digits@[k] == '3' || digits@[k] == '4' || digits@[k]
                    == '5' || digits@[k] == '6' || digits@[k] == '7' || digits@[k] == '8'
                    || digits@[k] == '9',
            s@ + rev_chars(digits@.subrange(0, idx as int)) == rev_chars(digits@),
        decreases idx,
    {
        idx -= 1;
        let c = digits[idx];
        proof {
            let pre = digits@.subrange(0, idx as int + 1);
            assert(pre.last() == c);
            assert(pre.drop_last() =~= digits@.subrange(0, idx as int));
            assert(rev_chars(pre) == seq![c] + rev_chars(digits@.subrange(0, idx as int)));
            assert((s@ + seq![c]) + rev_chars(digits@.subrange(0, idx as int)) == s@ + (seq![c]
                + rev_chars(digits@.subrange(0, idx as int))));
            assert(s@.push(c) =~= s@ + seq![c]);
        }
        push_digit(&mut s, c);
    }
    proof {
        assert(digits@.subrange(0, 0) =~= Seq::<char>::empty());
        assert(s@ + Seq::<char>::empty() =~= s@);
    }
    s
}

/// The binary numeral of `num`, most significant digit first; 0 renders as
/// "0".
pub fn decimal_to_binary(num: u32) -> (s: String)
    ensures
        num == 0 ==> s@ == seq!['0'],
        num > 0 ==> s@ == bin_digits(num as nat),
{
    if num == 0 {
        proof {
            reveal_strlit("0");
        }
        return "0".to_owned();
    }

    let mut digits: Vec<char> = Vec::new();
    let mut n = num;

    while n > 0
        invariant
            bin_digits(num as nat) == bin_digits(n as nat) + rev_chars(digits@),
            forall|k: int|
                0 <= k < digits@.len() ==> (#[trigger] digits@[k]) == '0' || digits@[k] == '1',
        decreases n,
    {
        let c = if n % 2 == 1 {
            '1'
        } else {
            '0'
        };
        proof {
            let pushed = digits@.push(c);
            assert(pushed.last() == c);
            assert(pushed.drop_last() =~= digits@);
            assert(rev_chars(pushed) == seq![c] + rev_chars(digits@));
            assert(bin_digits(n as nat) == bin_digits((n / 2) as nat).push(c));
            assert(bin_digits((n / 2) as nat).push(c) =~= bin_digits((n / 2) as nat) + seq![c]);
            assert((bin_digits((n / 2) as nat) + seq![c]) + rev_chars(digits@) == bin_digits(
                (n / 2) as nat,
            ) + (seq![c] + rev_chars(digits@)));
        }
        digits.push(c);
        n /= 2;
    }

    proof {
        assert(bin_digits(0nat) + rev_chars(digits@) =~= rev_chars(digits@));
    }
    let binary_string = render_reversed(&digits);
    binary_string
}

/// Reads the decimal digits of `num` as binary digits with base-2 weights
/// and renders the resulting value in decimal. This works even if the input
/// is not a binary-looking numeral (digits above 1 simply carry their value
/// times the power of two), which is why it is labelled buggy.
pub fn buggy_bin_to_dec(num: u32) -> (s: String)
    ensures
        num == 0 ==> s@ == seq!['0'],
        num > 0 ==> s@ == dec_digits(weighted_binary(num as nat)),
{
    // Return zero if zero is passed
    if num == 0 {
        proof {
            reveal_strlit("0");
        }
        return "0".to_owned();
    }

    let mut stored_sum: u32 = 0;
    let mut weight: u32 = 1;
    let mut temp = num;
    proof {
        lemma_weighted_le(num as nat);
    }
    while temp > 0
        invariant
            (stored_sum as int) + (weight as int) * (weighted_binary(temp as nat) as int)
                == weighted_binary(num as nat),
            weighted_binary(num as nat) <= num,
            weight >= 1,
        decreases temp,
    {
        let digit = temp % 10;
        proof {
            lemma_weighted_step(temp as nat, stored_sum as int, weight as int, num as nat);
        }
        stored_sum += digit * weight;
        temp /= 10;
        if temp > 0 {
            proof {
                assert((weight as int) * 2 == 2 * (weight as int));
            }
            weight = weight * 2;
        }
    }
    proof {
        assert((weight as int) * (weighted_binary(0nat) as int) == 0) by (nonlinear_arith);
        lemma_weighted_pos(num as nat);
    }
    u32_to_decimal(stored_sum)
}

/// One step of the weighted accumulation stays within `u32` range and keeps
/// the running identity.
proof fn lemma_weighted_step(t: nat, sum: int, w: int, total: nat)
    requires
        t > 0,
        w >= 1,
        sum + w * (weighted_binary(t) as int) == weighted_binary(total),
        weighted_binary(total) <= total,
        sum >= 0,
    ensures
        sum + w * ((t % 10) as int) + (2 * w) * (weighted_binary(t / 10) as int)
            == weighted_binary(total),
        0 <= sum + w * ((t % 10) as int) <= weighted_binary(total),
        0 <= w * ((t % 10) as int),
        0 <= (t % 10) as int * w <= weighted_binary(total),
        (t % 10) as int * w == w * ((t % 10) as int),
        t / 10 >= 1 ==> 2 * w <= weighted_binary(total),
{
    let d = (t % 10) as int;
    let rest = weighted_binary(t / 10) as int;
    assert(weighted_binary(t) == d + 2 * rest);
    assert(w * (d + 2 * rest) == w * d + (2 * w) * rest) by (nonlinear_arith);
    assert(0 <= w * d && 0 <= (2 * w) * rest) by (nonlinear_arith)
        requires
            w >= 1,
            d >= 0,
            rest >= 0,
    ;
    assert(d * w == w * d) by (nonlinear_arith);
    assert(w * d <= w * (d + 2 * rest)) by (nonlinear_arith)
        requires
            w >= 1,
            rest >= 0,
    ;
    if t / 10 >= 1 {
        lemma_weighted_pos(t / 10);
        assert(2 * w <= (2 * w) * rest) by (nonlinear_arith)
            requires
                w >= 1,
                rest >= 1,
        ;
    }
}

/// Render a `u32` in decimal.
fn u32_to_decimal(num: u32) -> (s: String)
    ensures
        num == 0 ==> s@ == seq!['0'],
        num > 0 ==> s@ == dec_digits(num as nat),
{
    if num == 0 {
        proof {
            reveal_strlit("0");
        }
        return "0".to_owned();
    }
    let mut digits: Vec<char> = Vec::new();
    let mut n = num;
    while n > 0
        invariant
            dec_digits(num as nat) == dec_digits(n as nat) + rev_chars(digits@),
            forall|k: int|
                0 <= k < digits@.len() ==> (#[trigger] digits@[k]) == '0' || digits@[k] == '1'
                    || digits@[k] == '2' || digits@[k] == '3' || digits@[k] == '4' || digits@[k]
                    == '5' || digits@[k] == '6' || digits@[k] == '7' || digits@[k] == '8'
                    || digits@[k] == '9',
        decreases n,
    {
        let d = n % 10;
        let c = match d {
            0 => '0',
            1 => '1',
            2 => '2',
            3 => '3',
            4 => '4',
            5 => '5',
            6 => '6',
            7 => '7',
            8 => '8',
            _ => '9',
        };
        proof {
            assert(c == digit_char((n % 10) as nat));
            let pushed = digits@.push(c);
            assert(pushed.last() == c);
            assert(pushed.drop_last() =~= digits@);
            assert(rev_chars(pushed) == seq![c] + rev_chars(digits@));
            assert(dec_digits(n as nat) == dec_digits((n / 10) as nat).push(c));
            assert(dec_digits((n / 10) as nat).push(c) =~= dec_digits((n / 10) as nat) + seq![c]);
            assert((dec_digits((n / 10) as nat) + seq![c]) + rev_chars(digits@) == dec_digits(
                (n / 10) as nat,
            ) + (seq![c] + rev_chars(digits@)));
        }
        digits.push(c);
        n /= 10;
    }
    proof {
        assert(dec_digits(0nat) + rev_chars(digits@) =~= rev_chars(digits@));
    }
    render_reversed(&digits)
}

/// Reads a numeral made only of binary digits as the base-2 value it spells;
/// numerals with digits above 1 are rejected by precondition.
pub fn good_bin_to_dec(num: u32) -> (r: u32)
    requires
        all_digits_binary(num as nat),
    ensures
        r == weighted_binary(num as nat),
{
    if num == 0 {
        return 0;
    }

    let mut temp_num = num;
    let mut sum: u32 = 0;
    let mut weight: u32 = 1;
    proof {
        lemma_weighted_le(num as nat);
    }
    while temp_num > 0
        invariant
            (sum as int) + (weight as int) * (weighted_binary(temp_num as nat) as int)
                == weighted_binary(num as nat),
            weighted_binary(num as nat) <= num,
            weight >= 1,
            all_digits_binary(temp_num as nat),
        decreases temp_num,
    {
        let digit = temp_num % 10;
        proof {
            lemma_weighted_step(temp_num as nat, sum as int, weight as int, num as nat);
        }
        sum += digit * weight;
        temp_num /= 10;
        if temp_num > 0 {
            proof {
                assert((weight as int) * 2 == 2 * (weight as int));
            }
            weight = weight * 2;
        }
    }
    proof {
        assert((weight as int) * (weighted_binary(0nat) as int) == 0) by (nonlinear_arith);
    }
    sum
}

} // verus!
