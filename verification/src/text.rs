//! Decimal spellings of machine integers, for messages and renderings.
use vstd::prelude::*;
use crate::rational::{digit_char, nat_spelling, int_spelling};

verus! {

/// The character of a decimal digit.
fn digit(d: u64) -> (r: char)
    requires
        d < 10,
    ensures
        r == digit_char(d as nat),
{
    let c = ((48 + d) as u8) as char;
    proof {
        assert(('0' as nat) == 48);
    }
    c
}

/// The decimal digits of `n`.
pub(crate) fn nat_chars(n: u64) -> (r: Vec<char>)
    ensures
        r@ == nat_spelling(n as nat),
    decreases n,
{
    if n < 10 {
        let mut r: Vec<char> = Vec::new();
        r.push(digit(n));
        proof {
            assert(r@ =~= nat_spelling(n as nat));
        }
        r
    } else {
        let mut r = nat_chars(n / 10);
        r.push(digit(n % 10));
        proof {
            assert(r@ =~= nat_spelling(n as nat));
        }
        r
    }
}

/// The decimal spelling of a signed integer.
pub(crate) fn int_chars(i: i64) -> (r: Vec<char>)
    ensures
        r@ == int_spelling(i as int),
{
    if i < 0 {
        let magnitude: u64 = if i == i64::MIN {
            9_223_372_036_854_775_808u64
        } else {
            (-i) as u64
        };
        let digits = nat_chars(magnitude);
        let mut r: Vec<char> = Vec::new();
        r.push('-');
        let mut k: usize = 0;
        while k < digits.len()
            invariant
                k <= digits@.len(),
                r@ == seq!['-'] + digits@.subrange(0, k as int),
            decreases digits@.len() - k,
        {
            r.push(digits[k]);
            k = k + 1;
            proof {
                assert(r@ =~= seq!['-'] + digits@.subrange(0, k as int));
            }
        }
        proof {
            assert(digits@.subrange(0, digits@.len() as int) =~= digits@);
        }
        r
    } else {
        nat_chars(i as u64)
    }
}

/// Append characters.
pub(crate) fn push_chars(out: &mut Vec<char>, cs: &Vec<char>)
    ensures
        final(out)@ == old(out)@ + cs@,
{
    let mut k: usize = 0;
    while k < cs.len()
        invariant
            k <= cs@.len(),
            out@ == old(out)@ + cs@.subrange(0, k as int),
        decreases cs@.len() - k,
    {
        out.push(cs[k]);
        k = k + 1;
        proof {
            assert(out@ =~= old(out)@ + cs@.subrange(0, k as int));
        }
    }
    proof {
        assert(cs@.subrange(0, cs@.len() as int) =~= cs@);
    }
}

/// Append the characters of a text.
pub(crate) fn push_str(out: &mut Vec<char>, s: &str)
    ensures
        final(out)@ == old(out)@ + s@,
{
    let cs = crate::units::chars_of(s);
    push_chars(out, &cs);
}

} // verus!
