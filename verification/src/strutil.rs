//! Small verified string helpers shared by the registry and the renderer:
//! character-wise string equality, appending a single character, and decimal
//! rendering of numbers.

use vstd::prelude::*;
use vstd::string::StrSliceExecFns;
use vstd::string::StringExecFns;

verus! {

/// Character-wise equality of two string slices.
pub fn str_eq(a: &str, b: &str) -> (r: bool)
    ensures
        r == (a@ == b@),
{
    let na = a.unicode_len();
    let nb = b.unicode_len();
    if na != nb {
        proof {
            assert(a@ != b@);
        }
        return false;
    }
    let mut i: usize = 0;
    while i < na
        invariant
            na == a@.len(),
            na == b@.len(),
            i <= na,
            forall|j: int| 0 <= j < i ==> a@[j] == b@[j],
        decreases na - i,
    {
        if a.get_char(i) != b.get_char(i) {
            return false;
        }
        i = i + 1;
    }
    proof {
        assert(a@ =~= b@);
    }
    true
}

/// Relies on String::push from std: appends the character to the end of the
/// string.
#[verifier::external_body]
pub(crate) fn push_char(s: &mut String, c: char)
    ensures
        final(s)@ == old(s)@.push(c),
{
    s.push(c);
}

/// The decimal digits of `n`, most significant first.
pub open spec fn dec_digits(n: nat) -> Seq<char>
    decreases n,
{
    if n < 10 {
        seq![digit_char((n % 10) as nat)]
    } else {
        dec_digits(n / 10).push(digit_char((n % 10) as nat))
    }
}

/// The character for a single decimal digit.
pub open spec fn digit_char(d: nat) -> char {
    if d == 0 {
        '0'
    } else if d == 1 {
        '1'
    } else if d == 2 {
        '2'
    } else if d == 3 {
        '3'
    } else if d == 4 {
        '4'
    } else if d == 5 {
        '5'
    } else if d == 6 {
        '6'
    } else if d == 7 {
        '7'
    } else if d == 8 {
        '8'
    } else {
        '9'
    }
}

fn digit_to_char(d: u64) -> (c: char)
    requires
        d < 10,
    ensures
        c == digit_char(d as nat),
{
    if d == 0 {
        '0'
    } else if d == 1 {
        '1'
    } else if d == 2 {
        '2'
    } else if d == 3 {
        '3'
    } else if d == 4 {
        '4'
    } else if d == 5 {
        '5'
    } else if d == 6 {
        '6'
    } else if d == 7 {
        '7'
    } else if d == 8 {
        '8'
    } else {
        '9'
    }
}

/// Renders `n` in decimal.
pub fn u64_to_string(n: u64) -> (s: String)
    ensures
        s@ == dec_digits(n as nat),
{
    let mut rev: Vec<char> = Vec::new();
    let mut rest: u64 = n;
    loop
        invariant_except_break
            dec_digits(n as nat) == dec_digits(rest as nat) + rev@.reverse(),
        ensures
            dec_digits(n as nat) == rev@.reverse(),
        decreases rest,
    {
        let d = rest % 10;
        let c = digit_to_char(d);
        proof {
            assert(dec_digits(rest as nat) == if rest < 10 {
                seq![digit_char((rest % 10) as nat)]
            } else {
                dec_digits((rest / 10) as nat).push(digit_char((rest % 10) as nat))
            });
            assert((rev@.push(c)).reverse() =~= seq![c] + rev@.reverse());
            if rest >= 10 {
                assert(dec_digits((rest / 10) as nat).push(c) + rev@.reverse() =~= dec_digits(
                    (rest / 10) as nat,
                ) + (seq![c] + rev@.reverse()));
            }
        }
        rev.push(c);
        if rest < 10 {
            proof {
                assert(dec_digits(n as nat) =~= rev@.reverse());
            }
            break;
        }
        rest = rest / 10;
    }
    let mut s = String::new();
    let mut i: usize = rev.len();
    proof {
        assert(rev@.reverse().subrange(0, 0) =~= Seq::<char>::empty());
    }
    while i > 0
        invariant
            i <= rev@.len(),
            s@ == rev@.reverse().subrange(0, rev@.len() - i),
            dec_digits(n as nat) == rev@.reverse(),
        decreases i,
    {
        let c = rev[i - 1];
        push_char(&mut s, c);
        proof {
            assert(rev@.reverse()[rev@.len() - i] == rev@[i - 1]);
            assert(rev@.reverse().subrange(0, rev@.len() - i + 1) =~= rev@.reverse().subrange(
                0,
                rev@.len() - i,
            ).push(rev@[i - 1]));
        }
        i = i - 1;
    }
    proof {
        assert(s@ =~= rev@.reverse());
    }
    s
}

/// Copies a string slice into an owned string.
pub fn str_to_owned(s: &str) -> (r: String)
    ensures
        r@ == s@,
{
    String::from_str(s)
}

} // verus!
