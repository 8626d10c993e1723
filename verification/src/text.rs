//! Building the small amount of text the library produces: decimal numbers,
//! fixed-point percentages, and joined tag lists.

use vstd::prelude::*;

use crate::SCALE;
use vstd::string::StringExecFns;

verus! {

/// The decimal digit character for `d`.
pub open spec fn digit_char(d: nat) -> char {
    if d == 0 {
        '0'
    } else if d == 1 {
        '1'
    } else if d == 2 {
        '2'
    } else if d == 3 {
        '3'
    } else if d == 4 {
        '4'
    } else if d == 5 {
        '5'
    } else if d == 6 {
        '6'
    } else if d == 7 {
        '7'
    } else if d == 8 {
        '8'
    } else {
        '9'
    }
}

/// The decimal digits of `n`, most significant first.
pub open spec fn dec_str(n: nat) -> Seq<char>
    decreases n,
{
    if n < 10 {
        seq![digit_char(n)]
    } else {
        dec_str(n / 10).push(digit_char(n % 10))
    }
}

/// One decimal digit as a string slice.
pub(crate) fn digit_str(d: u64) -> (r: &'static str)
    requires
        d < 10,
    ensures
        r@ == seq![digit_char(d as nat)],
{
    proof {
        reveal_strlit("0");
        reveal_strlit("1");
        reveal_strlit("2");
        reveal_strlit("3");
        reveal_strlit("4");
        reveal_strlit("5");
        reveal_strlit("6");
        reveal_strlit("7");
        reveal_strlit("8");
        reveal_strlit("9");
    }
    match d {
        0 => "0",
        1 => "1",
        2 => "2",
        3 => "3",
        4 => "4",
        5 => "5",
        6 => "6",
        7 => "7",
        8 => "8",
        _ => "9",
    }
}

/// `n` in decimal.
pub fn u64_to_string(n: u64) -> (r: String)
    ensures
        r@ == dec_str(n as nat),
    decreases n,
{
    if n < 10 {
        digit_str(n).to_owned()
    } else {
        let mut s = u64_to_string(n / 10);
        let ghost s0 = s@;
        s.append(digit_str(n % 10));
        proof {
            assert(s@ =~= s0.push(digit_char((n % 10) as nat)));
        }
        s
    }
}

/// The decimal rendering of `v` (a signed count), with a leading minus sign
/// when negative.
pub open spec fn int_str(v: int) -> Seq<char> {
    if v >= 0 {
        dec_str(v as nat)
    } else {
        seq!['-'] + dec_str((-v) as nat)
    }
}

/// `n` in decimal, with a sign when negative.
pub fn i64_to_string(n: i64) -> (r: String)
    ensures
        r@ == int_str(n as int),
{
    if n >= 0 {
        u64_to_string(n as u64)
    } else {
        let mag: u64 = (-(n as i128)) as u64;
        let mut s = "-".to_owned();
        let ghost s0 = s@;
        let digits = u64_to_string(mag);
        s.append(digits.as_str());
        proof {
            reveal_strlit("-");
            assert(s@ =~= seq!['-'] + dec_str(mag as nat));
        }
        s
    }
}

/// A fixed-point score in `[0, SCALE]` rendered as a percentage with one
/// decimal place: `850000` becomes `85.0`.
pub open spec fn percent_str(v: int) -> Seq<char> {
    dec_str((v / 10000) as nat) + seq!['.'] + seq![digit_char(((v / 1000) % 10) as nat)]
}

/// The percentage text (one decimal place) of a fixed-point score.
pub fn percent_string(v: i64) -> (r: String)
    requires
        0 <= v <= SCALE,
    ensures
        r@ == percent_str(v as int),
{
    let whole: u64 = (v / 10000) as u64;
    let tenth: u64 = ((v / 1000) % 10) as u64;
    let mut s = u64_to_string(whole);
    let ghost s0 = s@;
    s.append(".");
    proof {
        reveal_strlit(".");
        assert(s@ =~= s0 + seq!['.']);
    }
    let ghost s1 = s@;
    s.append(digit_str(tenth));
    proof {
        assert(s@ =~= s1 + seq![digit_char(tenth as nat)]);
        assert(s@ =~= percent_str(v as int));
    }
    s
}

/// `parts` joined with `sep` between consecutive entries.
pub open spec fn join_str(parts: Seq<Seq<char>>, sep: Seq<char>) -> Seq<char>
    decreases parts.len(),
{
    if parts.len() == 0 {
        Seq::empty()
    } else if parts.len() == 1 {
        parts[0]
    } else {
        join_str(parts.drop_last(), sep) + sep + parts.last()
    }
}

/// Joins strings with a separator, as the explanation text joins tags.
pub fn join_strings(parts: &Vec<String>, sep: &str) -> (r: String)
    ensures
        r@ == join_str(parts.deep_view(), sep@),
{
    let mut s = String::new();
    let mut i: usize = 0;
    while i < parts.len()
        invariant
            0 <= i <= parts@.len(),
            s@ == join_str(parts.deep_view().take(i as int), sep@),
        decreases parts@.len() - i,
    {
        let ghost s0 = s@;
        if i > 0 {
            s.append(sep);
        }
        s.append(parts[i].as_str());
        proof {
            let dv = parts.deep_view();
            assert(dv[i as int] == parts@[i as int]@);
            if i == 0 {
                assert(dv.take(1int) =~= seq![dv[0]]);
                assert(s@ =~= dv.take(1int)[0]);
                assert(join_str(dv.take(1int), sep@) == dv.take(1int)[0]);
            } else {
                assert(dv.take(i as int + 1).drop_last() =~= dv.take(i as int));
                assert(dv.take(i as int + 1).last() == dv[i as int]);
                assert(s@ =~= join_str(dv.take(i as int), sep@) + sep@ + dv[i as int]);
            }
        }
        i = i + 1;
    }
    proof {
        assert(parts.deep_view().take(parts@.len() as int) =~= parts.deep_view());
    }
    s
}

} // verus!
