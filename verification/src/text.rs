//! Rendering of integer values and value sequences as text.
//!
//! The containers in this crate have no `Display` impls; instead each offers
//! a `to_string` method whose output is pinned down by the spec functions
//! here: `decimal_int` gives the decimal numeral of an integer, and
//! `render_values` gives the bracketed, comma-separated form of a sequence.

use vstd::prelude::*;
use vstd::string::StringExecFns;

verus! {

/// The character for a single decimal digit.
pub open spec fn digit_char(d: int) -> char {
    if d == 0 {
        '0'
    } else if d == 1 {
        '1'
    } else if d == 2 {
        '2'
    } else if d == 3 {
        '3'
    } else if d == 4 {
        '4'
    } else if d == 5 {
        '5'
    } else if d == 6 {
        '6'
    } else if d == 7 {
        '7'
    } else if d == 8 {
        '8'
    } else {
        '9'
    }
}

/// The decimal numeral of a non-negative integer, most significant digit first.
pub open spec fn decimal_nat(n: int) -> Seq<char>
    recommends
        n >= 0,
    decreases n,
{
    if n < 10 {
        seq![digit_char(n)]
    } else {
        decimal_nat(n / 10) + seq![digit_char(n % 10)]
    }
}

/// The decimal numeral of an integer, with a leading minus sign when negative.
pub open spec fn decimal_int(x: int) -> Seq<char> {
    if x < 0 {
        seq!['-'] + decimal_nat(-x)
    } else {
        decimal_nat(x)
    }
}

/// The comma-separated decimal numerals of a sequence of values.
pub open spec fn joined_values(s: Seq<i64>) -> Seq<char>
    decreases s.len(),
{
    if s.len() == 0 {
        Seq::<char>::empty()
    } else if s.len() == 1 {
        decimal_int(s[0] as int)
    } else {
        joined_values(s.drop_last()) + ", "@ + decimal_int(s.last() as int)
    }
}

/// A sequence of values rendered in brackets: `[1, 2, 3]`.
pub open spec fn render_values(s: Seq<i64>) -> Seq<char> {
    "["@ + joined_values(s) + "]"@
}

/// `render_values`, except that an empty sequence renders as `["Empty"]`.
pub open spec fn render_values_or_empty(s: Seq<i64>) -> Seq<char> {
    if s.len() == 0 {
        "[\"Empty\"]"@
    } else {
        render_values(s)
    }
}

/// The one-character string for a single decimal digit.
fn digit_str(d: u64) -> (r: &'static str)
    requires
        d < 10,
    ensures
        r@ == seq![digit_char(d as int)],
{
    proof {
        reveal_strlit("0");
        reveal_strlit("1");
        reveal_strlit("2");
        reveal_strlit("3");
        reveal_strlit("4");
        reveal_strlit("5");
        reveal_strlit("6");
        reveal_strlit("7");
        reveal_strlit("8");
        reveal_strlit("9");
    }
    if d == 0 {
        "0"
    } else if d == 1 {
        "1"
    } else if d == 2 {
        "2"
    } else if d == 3 {
        "3"
    } else if d == 4 {
        "4"
    } else if d == 5 {
        "5"
    } else if d == 6 {
        "6"
    } else if d == 7 {
        "7"
    } else if d == 8 {
        "8"
    } else {
        "9"
    }
}

/// The decimal numeral of a non-negative 64-bit value.
pub fn format_u64(n: u64) -> (r: String)
    ensures
        r@ == decimal_nat(n as int),
    decreases n,
{
    if n < 10 {
        String::from_str(digit_str(n))
    } else {
        let mut s = format_u64(n / 10);
        s.append(digit_str(n % 10));
        s
    }
}

/// The decimal numeral of a signed 64-bit value.
pub fn format_i64(x: i64) -> (r: String)
    ensures
        r@ == decimal_int(x as int),
{
    if x >= 0 {
        format_u64(x as u64)
    } else {
        let mut s = String::from_str("-");
        proof {
            reveal_strlit("-");
        }
        let magnitude: u64 = (-(x as i128)) as u64;
        let digits = format_u64(magnitude);
        s.append(digits.as_str());
        assert(s@ =~= decimal_int(x as int));
        s
    }
}

/// Renders a vector of values as `[v0, v1, ...]`.
pub fn render_i64_values(v: &Vec<i64>) -> (r: String)
    ensures
        r@ == render_values(v@),
{
    let mut s = String::from_str("[");
    let mut i: usize = 0;
    while i < v.len()
        invariant
            i <= v.len(),
            s@ == "["@ + joined_values(v@.take(i as int)),
        decreases v.len() - i,
    {
        if i > 0 {
            s.append(", ");
        }
        let digits = format_i64(v[i]);
        s.append(digits.as_str());
        proof {
            let pre = v@.take(i as int);
            let post = v@.take(i + 1 as int);
            assert(post.drop_last() =~= pre);
            assert(post.last() == v@[i as int]);
            if i == 0 {
                assert(joined_values(post) == decimal_int(v@[0] as int));
                assert(s@ =~= "["@ + joined_values(post));
            } else {
                assert(joined_values(post) == joined_values(pre) + ", "@ + decimal_int(
                    v@[i as int] as int,
                ));
                assert(s@ =~= "["@ + joined_values(post));
            }
        }
        i = i + 1;
    }
    s.append("]");
    proof {
        assert(v@.take(v@.len() as int) =~= v@);
        assert(s@ =~= render_values(v@));
    }
    s
}

/// Renders a vector of values, using `["Empty"]` for an empty vector.
pub fn render_i64_values_or_empty(v: &Vec<i64>) -> (r: String)
    ensures
        r@ == render_values_or_empty(v@),
{
    if v.len() == 0 {
        String::from_str("[\"Empty\"]")
    } else {
        render_i64_values(v)
    }
}

} // verus!
