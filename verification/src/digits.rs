//! Decimal text for entry identifiers: writing an identifier's digits and
//! reading them back.

use vstd::prelude::*;

use crate::outside::push_char;
use crate::validation::{all_digit_chars, is_digit_char};

verus! {

/// The digit character for a value below ten.
pub open spec fn dec_digit_char(d: int) -> char {
    if d == 0 {
        '0'
    } else if d == 1 {
        '1'
    } else if d == 2 {
        '2'
    } else if d == 3 {
        '3'
    } else if d == 4 {
        '4'
    } else if d == 5 {
        '5'
    } else if d == 6 {
        '6'
    } else if d == 7 {
        '7'
    } else if d == 8 {
        '8'
    } else {
        '9'
    }
}

/// The value of a digit character.
pub open spec fn dec_digit_val(c: char) -> int {
    if c == '0' {
        0
    } else if c == '1' {
        1
    } else if c == '2' {
        2
    } else if c == '3' {
        3
    } else if c == '4' {
        4
    } else if c == '5' {
        5
    } else if c == '6' {
        6
    } else if c == '7' {
        7
    } else if c == '8' {
        8
    } else {
        9
    }
}

/// The decimal digits of a nonnegative number, most significant first.
pub open spec fn digits_of(n: int) -> Seq<char>
    decreases n,
{
    if n < 0 {
        Seq::empty()
    } else if n < 10 {
        seq![dec_digit_char(n)]
    } else {
        digits_of(n / 10).push(dec_digit_char(n % 10))
    }
}

/// The number a digit text denotes, most significant first.
pub open spec fn value_of_digits(s: Seq<char>) -> int
    decreases s.len(),
{
    if s.len() == 0 {
        0
    } else {
        value_of_digits(s.drop_last()) * 10 + dec_digit_val(s.last())
    }
}

proof fn lemma_value_nonneg(s: Seq<char>)
    ensures
        value_of_digits(s) >= 0,
    decreases s.len(),
{
    if s.len() > 0 {
        lemma_value_nonneg(s.drop_last());
    }
}

/// Writing a number and reading it back gives the number itself, and the
/// written text is a nonempty run of digits.
pub proof fn lemma_digits_round_trip(n: int)
    requires
        n >= 0,
    ensures
        value_of_digits(digits_of(n)) == n,
        digits_of(n).len() > 0,
        all_digit_chars(digits_of(n)),
    decreases n,
{
    if n < 10 {
        let s = digits_of(n);
        assert(s.drop_last() =~= Seq::<char>::empty());
        assert(s.last() == dec_digit_char(n));
        assert(dec_digit_val(dec_digit_char(n)) == n);
        assert(value_of_digits(s) == value_of_digits(s.drop_last()) * 10 + dec_digit_val(s.last()));
        assert(value_of_digits(Seq::<char>::empty()) == 0);
    } else {
        lemma_digits_round_trip(n / 10);
        let s = digits_of(n);
        let hd = digits_of(n / 10);
        assert(s == hd.push(dec_digit_char(n % 10)));
        assert(s.drop_last() =~= hd);
        assert(s.last() == dec_digit_char(n % 10));
        assert(0 <= n % 10 < 10);
        assert(dec_digit_val(dec_digit_char(n % 10)) == n % 10);
        assert(value_of_digits(s) == (n / 10) * 10 + n % 10);
        vstd::arithmetic::div_mod::lemma_fundamental_div_mod(n, 10);
        assert(all_digit_chars(s)) by {
            assert forall|i: int| 0 <= i < s.len() implies is_digit_char(#[trigger] s[i]) by {
                if i < s.len() - 1 {
                    assert(s[i] == hd[i]);
                }
            }
        }
    }
}

/// A longer digit text never denotes a smaller number.
proof fn lemma_value_prefix_le(s: Seq<char>, i: int)
    requires
        0 <= i <= s.len(),
    ensures
        value_of_digits(s.subrange(0, i)) <= value_of_digits(s),
    decreases s.len() - i,
{
    if i == s.len() {
        assert(s.subrange(0, i) =~= s);
    } else {
        lemma_value_prefix_le(s, i + 1);
        let p = s.subrange(0, i + 1);
        assert(p.drop_last() =~= s.subrange(0, i));
        lemma_value_nonneg(s.subrange(0, i));
        assert(value_of_digits(p) == value_of_digits(s.subrange(0, i)) * 10 + dec_digit_val(
            p.last(),
        ));
        assert(dec_digit_val(p.last()) >= 0);
        assert(value_of_digits(s.subrange(0, i)) * 10 >= value_of_digits(s.subrange(0, i)))
            by (nonlinear_arith)
            requires
                value_of_digits(s.subrange(0, i)) >= 0,
        ;
    }
}

/// The exec digit for a value below ten.
fn dec_digit_char_exec(d: u128) -> (c: char)
    requires
        d < 10,
    ensures
        c == dec_digit_char(d as int),
{
    if d == 0 {
        '0'
    } else if d == 1 {
        '1'
    } else if d == 2 {
        '2'
    } else if d == 3 {
        '3'
    } else if d == 4 {
        '4'
    } else if d == 5 {
        '5'
    } else if d == 6 {
        '6'
    } else if d == 7 {
        '7'
    } else if d == 8 {
        '8'
    } else {
        '9'
    }
}

/// Append the decimal digits of `n` to `out`.
pub fn write_digits(n: u128, out: &mut String)
    ensures
        final(out)@ == old(out)@ + digits_of(n as int),
    decreases n,
{
    if n < 10 {
        push_char(out, dec_digit_char_exec(n));
        proof {
            assert(old(out)@ + digits_of(n as int) =~= old(out)@.push(dec_digit_char(n as int)));
        }
    } else {
        write_digits(n / 10, out);
        push_char(out, dec_digit_char_exec(n % 10));
        proof {
            assert(old(out)@ + digits_of(n as int) =~= (old(out)@ + digits_of(n as int / 10)).push(
                dec_digit_char(n as int % 10),
            ));
        }
    }
}

/// The value of a digit character, or ten for any other character.
pub fn digit_val_exec(c: char) -> (v: u128)
    ensures
        is_digit_char(c) ==> v < 10 && v == dec_digit_val(c),
        !is_digit_char(c) ==> v == 10,
{
    if c == '0' {
        0
    } else if c == '1' {
        1
    } else if c == '2' {
        2
    } else if c == '3' {
        3
    } else if c == '4' {
        4
    } else if c == '5' {
        5
    } else if c == '6' {
        6
    } else if c == '7' {
        7
    } else if c == '8' {
        8
    } else if c == '9' {
        9
    } else {
        proof {
            assert(!is_digit_char(c)) by {
                assert(c as u32 != '0' as u32 && c as u32 != '1' as u32 && c as u32 != '2' as u32
                    && c as u32 != '3' as u32 && c as u32 != '4' as u32 && c as u32 != '5' as u32
                    && c as u32 != '6' as u32 && c as u32 != '7' as u32 && c as u32 != '8' as u32
                    && c as u32 != '9' as u32);
            }
        }
        10
    }
}

/// Read the value of a run of digit characters; `None` when it exceeds the
/// identifier range.
pub fn read_digit_value(s: &Vec<char>, from: usize, to: usize) -> (r: Option<u128>)
    requires
        from <= to <= s@.len(),
        all_digit_chars(s@.subrange(from as int, to as int)),
    ensures
        match r {
            Some(v) => v as int == value_of_digits(s@.subrange(from as int, to as int)),
            None => value_of_digits(s@.subrange(from as int, to as int)) > u128::MAX,
        },
{
    let ghost whole = s@.subrange(from as int, to as int);
    let mut acc: u128 = 0;
    let mut i = from;
    while i < to
        invariant
            from <= i <= to <= s@.len(),
            all_digit_chars(whole),
            whole == s@.subrange(from as int, to as int),
            acc as int == value_of_digits(s@.subrange(from as int, i as int)),
        decreases to - i,
    {
        let c = s[i];
        proof {
            assert(whole[i - from] == s@[i as int]);
        }
        let d = digit_val_exec(c);
        let ghost pfx = s@.subrange(from as int, i as int);
        let ghost pfx1 = s@.subrange(from as int, i + 1 as int);
        proof {
            assert(pfx1.drop_last() =~= pfx);
            assert(pfx1.last() == s@[i as int]);
            lemma_value_nonneg(pfx);
        }
        let lim = (u128::MAX - d) / 10;
        let ghost accn: int = acc as int;
        let ghost dn: int = d as int;
        let ghost limn: int = lim as int;
        let ghost mx: int = u128::MAX as int;
        proof {
            assert(limn == (mx - dn) / 10);
        }
        if acc > lim {
            proof {
                // Already this prefix overflows, so the whole run does.
                assert(accn * 10 + dn > mx) by (nonlinear_arith)
                    requires
                        accn > limn,
                        0 <= dn < 10,
                        limn == (mx - dn) / 10,
                ;
                assert(value_of_digits(pfx1) > u128::MAX as int);
                lemma_value_prefix_le(whole, i + 1 - from);
                assert(whole.subrange(0, i + 1 - from) =~= pfx1);
            }
            return None;
        }
        proof {
            assert(accn * 10 + dn <= mx) by (nonlinear_arith)
                requires
                    accn <= limn,
                    0 <= dn < 10,
                    limn == (mx - dn) / 10,
            ;
        }
        acc = acc * 10 + d;
        i += 1;
    }
    proof {
        assert(s@.subrange(from as int, to as int) == whole);
    }
    Some(acc)
}

} // verus!
