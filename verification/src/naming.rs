//! The segment naming scheme: `base_name.boundary`, with the boundary in
//! decimal. Writer and reader must agree on these names bit-exactly, so the
//! scheme is one pure function used by both.

use vstd::prelude::*;
use vstd::string::*;

verus! {

/// The character for the decimal digit `d`.
pub open spec fn digit_char(d: nat) -> char {
    if d == 0 {
        '0'
    } else if d == 1 {
        '1'
    } else if d == 2 {
        '2'
    } else if d == 3 {
        '3'
    } else if d == 4 {
        '4'
    } else if d == 5 {
        '5'
    } else if d == 6 {
        '6'
    } else if d == 7 {
        '7'
    } else if d == 8 {
        '8'
    } else {
        '9'
    }
}

/// The decimal rendering of `n`: most significant digit first, no leading
/// zeros (a single `'0'` for zero).
pub open spec fn dec_str(n: nat) -> Seq<char>
    decreases n,
{
    if n < 10 {
        seq![digit_char(n)]
    } else {
        dec_str(n / 10).push(digit_char(n % 10))
    }
}

/// The boundary of the segment that is active after `count` records:
/// `count` rounded down to a multiple of the rotation threshold `n`.
pub open spec fn boundary_of(count: nat, n: nat) -> nat
    recommends
        n > 0,
{
    (count - count % n) as nat
}

/// The name of the segment that starts at cumulative record count
/// `boundary`: the base name, one dot, and the boundary in decimal.
pub open spec fn seg_name(base: Seq<char>, boundary: nat) -> Seq<char> {
    base + seq!['.'] + dec_str(boundary)
}

/// The one-character string for the decimal digit `d`.
fn digit_str(d: usize) -> (r: &'static str)
    requires
        d < 10,
    ensures
        r@ == seq![digit_char(d as nat)],
{
    proof {
        reveal_strlit("0");
        reveal_strlit("1");
        reveal_strlit("2");
        reveal_strlit("3");
        reveal_strlit("4");
        reveal_strlit("5");
        reveal_strlit("6");
        reveal_strlit("7");
        reveal_strlit("8");
        reveal_strlit("9");
    }
    let r: &'static str = if d == 0 {
        "0"
    } else if d == 1 {
        "1"
    } else if d == 2 {
        "2"
    } else if d == 3 {
        "3"
    } else if d == 4 {
        "4"
    } else if d == 5 {
        "5"
    } else if d == 6 {
        "6"
    } else if d == 7 {
        "7"
    } else if d == 8 {
        "8"
    } else {
        "9"
    };
    proof {
        assert(r@ =~= seq![digit_char(d as nat)]);
    }
    r
}

/// Renders `n` in decimal, matching `dec_str`.
pub fn decimal_string(n: usize) -> (r: String)
    ensures
        r@ == dec_str(n as nat),
    decreases n,
{
    if n < 10 {
        String::from_str(digit_str(n))
    } else {
        let mut s = decimal_string(n / 10);
        s.append(digit_str(n % 10));
        proof {
            assert(s@ =~= dec_str(n as nat));
        }
        s
    }
}

/// Builds the segment name `base.boundary`, matching `seg_name`.
pub fn file_name(base: &String, boundary: usize) -> (r: String)
    ensures
        r@ == seg_name(base@, boundary as nat),
{
    let mut s = base.clone();
    s.append(".");
    let digits = decimal_string(boundary);
    s.append(digits.as_str());
    proof {
        reveal_strlit(".");
        assert(s@ =~= seg_name(base@, boundary as nat));
    }
    s
}

} // verus!
