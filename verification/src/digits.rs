//! Decimal text: the canonical decimal rendering of integers, and the value
//! of a run of digits, with the executable conversions both ways.

use vstd::prelude::*;

use crate::lexer::digit_char;

verus! {

/// The digit character of a value below ten.
pub open spec fn digit_of(n: nat) -> char {
    if n == 0 {
        '0'
    } else if n == 1 {
        '1'
    } else if n == 2 {
        '2'
    } else if n == 3 {
        '3'
    } else if n == 4 {
        '4'
    } else if n == 5 {
        '5'
    } else if n == 6 {
        '6'
    } else if n == 7 {
        '7'
    } else if n == 8 {
        '8'
    } else {
        '9'
    }
}

/// The value of a digit character.
pub open spec fn digit_val(c: char) -> nat {
    (c as u32 - '0' as u32) as nat
}

/// The canonical decimal digits of a natural number, most significant first,
/// with no leading zero except for the number zero itself.
pub open spec fn dec_digits(n: nat) -> Seq<char>
    decreases n,
{
    if n < 10 {
        seq![digit_of(n)]
    } else {
        dec_digits(n / 10).push(digit_of(n % 10))
    }
}

/// The decimal text of an integer: a minus sign before the digits of its
/// magnitude when it is negative.
pub open spec fn int_text(v: int) -> Seq<char> {
    if v < 0 {
        seq!['-'] + dec_digits((-v) as nat)
    } else {
        dec_digits(v as nat)
    }
}

/// Whether every character of `s` is a decimal digit.
pub open spec fn all_digits(s: Seq<char>) -> bool {
    forall|j: int| 0 <= j < s.len() ==> digit_char(#[trigger] s[j])
}

/// The numeric value of a run of digits, read most significant first.
pub open spec fn digits_val(s: Seq<char>) -> nat
    decreases s.len(),
{
    if s.len() == 0 {
        0
    } else {
        digits_val(s.drop_last()) * 10 + digit_val(s.last())
    }
}

/// What parsing a 64-bit integer literal yields: the value of the digits
/// where the text is a non-empty digit run whose value fits, nothing
/// otherwise.
pub open spec fn spec_parse_i64(s: Seq<char>) -> Option<i64> {
    if s.len() > 0 && all_digits(s) && digits_val(s) <= i64::MAX {
        Some(digits_val(s) as i64)
    } else {
        None
    }
}

/// A prefix of a digit run never has a larger value than the whole run.
proof fn lemma_digits_prefix_le(s: Seq<char>, j: int)
    requires
        0 <= j <= s.len(),
    ensures
        digits_val(s.take(j)) <= digits_val(s),
    decreases s.len() - j,
{
    if j < s.len() {
        assert(s.take(j + 1).drop_last() =~= s.take(j));
        assert(digits_val(s.take(j + 1)) == digits_val(s.take(j)) * 10 + digit_val(
            s.take(j + 1).last(),
        ));
        lemma_digits_prefix_le(s, j + 1);
    } else {
        assert(s.take(j) =~= s);
    }
}

/// The canonical digits of a number are a non-empty digit run whose value
/// is the number itself: printing and reading back are inverses.
pub proof fn lemma_dec_digits_value(m: nat)
    ensures
        dec_digits(m).len() > 0,
        all_digits(dec_digits(m)),
        digits_val(dec_digits(m)) == m,
    decreases m,
{
    if m < 10 {
        assert(digit_char(digit_of(m)));
        assert(dec_digits(m) =~= seq![digit_of(m)]);
        assert(seq![digit_of(m)].len() == 1);
        assert(seq![digit_of(m)].drop_last() =~= Seq::<char>::empty());
        assert(digits_val(Seq::<char>::empty()) == 0);
        assert(seq![digit_of(m)].last() == digit_of(m));
        assert(digits_val(seq![digit_of(m)]) == digit_val(digit_of(m)));
        assert(digit_val(digit_of(m)) == m);
    } else {
        lemma_dec_digits_value(m / 10);
        let d = dec_digits(m / 10);
        assert(dec_digits(m) == d.push(digit_of(m % 10)));
        assert(d.push(digit_of(m % 10)).drop_last() =~= d);
        assert(digits_val(dec_digits(m)) == digits_val(d) * 10 + digit_val(digit_of(m % 10)));
        assert(digit_val(digit_of(m % 10)) == m % 10);
        assert(digit_char(digit_of(m % 10)));
        assert(all_digits(dec_digits(m))) by {
            assert(forall|j: int|
                0 <= j < d.len() ==> #[trigger] dec_digits(m)[j] == d[j] && digit_char(d[j]));
        }
    }
}

fn digit_str(d: u64) -> (r: &'static str)
    requires
        d < 10,
    ensures
        r@ == seq![digit_of(d as nat)],
{
    proof {
        reveal_strlit("0");
        reveal_strlit("1");
        reveal_strlit("2");
        reveal_strlit("3");
        reveal_strlit("4");
        reveal_strlit("5");
        reveal_strlit("6");
        reveal_strlit("7");
        reveal_strlit("8");
        reveal_strlit("9");
    }
    let r: &'static str = if d == 0 {
        "0"
    } else if d == 1 {
        "1"
    } else if d == 2 {
        "2"
    } else if d == 3 {
        "3"
    } else if d == 4 {
        "4"
    } else if d == 5 {
        "5"
    } else if d == 6 {
        "6"
    } else if d == 7 {
        "7"
    } else if d == 8 {
        "8"
    } else {
        "9"
    };
    proof {
        assert(r@ =~= seq![digit_of(d as nat)]);
    }
    r
}

/// Appends the decimal digits of `m` to `s`.
fn push_decimal(s: &mut String, m: u64)
    ensures
        final(s)@ == old(s)@ + dec_digits(m as nat),
    decreases m,
{
    if m < 10 {
        s.append(digit_str(m));
        proof {
            assert(s@ =~= old(s)@ + dec_digits(m as nat));
        }
    } else {
        push_decimal(s, m / 10);
        s.append(digit_str(m % 10));
        proof {
            assert(s@ =~= old(s)@ + dec_digits(m as nat));
        }
    }
}

/// The decimal rendering of a 64-bit signed integer.
pub fn int_to_string(v: i64) -> (r: String)
    ensures
        r@ == int_text(v as int),
{
    let mut s = String::new();
    if v < 0 {
        s.append("-");
        let m: u64 = (-(v as i128)) as u64;
        push_decimal(&mut s, m);
        proof {
            reveal_strlit("-");
            assert(s@ =~= int_text(v as int));
        }
    } else {
        push_decimal(&mut s, v as u64);
    }
    s
}

/// Parses a run of decimal digits as a 64-bit signed integer: the value of
/// the digits where the text is a non-empty digit run whose value fits,
/// nothing otherwise.
pub fn parse_i64(s: &str) -> (r: Option<i64>)
    ensures
        r == spec_parse_i64(s@),
{
    let n: usize = s.unicode_len();
    if n == 0 {
        return None;
    }
    let mut acc: i64 = 0;
    let mut i: usize = 0;
    while i < n
        invariant
            n == s@.len(),
            0 <= i <= n,
            all_digits(s@.take(i as int)),
            0 <= acc,
            acc == digits_val(s@.take(i as int)),
        decreases n - i,
    {
        let c = s.get_char(i);
        if !('0' <= c && c <= '9') {
            assert(!all_digits(s@)) by {
                assert(s@[i as int] == c);
            }
            return None;
        }
        let d: u64 = ((c as u32) - ('0' as u32)) as u64;
        proof {
            assert(s@.take(i + 1).drop_last() =~= s@.take(i as int));
            assert(digits_val(s@.take(i + 1)) == digits_val(s@.take(i as int)) * 10 + digit_val(c));
        }
        if acc > (i64::MAX - (d as i64)) / 10 {
            proof {
                assert(digits_val(s@.take(i + 1)) > i64::MAX);
                lemma_digits_prefix_le(s@, i + 1);
            }
            return None;
        }
        acc = acc * 10 + (d as i64);
        i = i + 1;
        proof {
            assert(all_digits(s@.take(i as int)));
        }
    }
    proof {
        assert(s@.take(n as int) =~= s@);
    }
    Some(acc)
}

} // verus!
