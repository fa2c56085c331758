//! Decimal rendering of the integer indices that name resources: resource
//! identifiers are strings such as `"1,2,3"` built from tuple indices, so the
//! rendering itself is specified and verified here.

use vstd::prelude::*;

verus! {

/// The decimal digit character for a value below ten.
pub open spec fn spec_digit(d: nat) -> char {
    if d == 0 {
        '0'
    } else if d == 1 {
        '1'
    } else if d == 2 {
        '2'
    } else if d == 3 {
        '3'
    } else if d == 4 {
        '4'
    } else if d == 5 {
        '5'
    } else if d == 6 {
        '6'
    } else if d == 7 {
        '7'
    } else if d == 8 {
        '8'
    } else {
        '9'
    }
}

/// The decimal representation of a non-negative integer, most significant
/// digit first, with no leading zeros (`0` itself is `"0"`).
pub open spec fn spec_dec(n: nat) -> Seq<char>
    decreases n,
{
    if n < 10 {
        seq![spec_digit(n)]
    } else {
        spec_dec(n / 10).push(spec_digit(n % 10))
    }
}

/// The decimal representation of a signed integer: a leading `'-'` for
/// negative values.
pub open spec fn spec_dec_i32(v: int) -> Seq<char> {
    if v < 0 {
        seq!['-'] + spec_dec((-v) as nat)
    } else {
        spec_dec(v as nat)
    }
}

/// The comma-joined decimal rendering of a sequence of indices: the form of
/// a tuple's resource identifier (`"1,2,3"`).
pub open spec fn spec_id_of(idx: Seq<i32>) -> Seq<char>
    decreases idx.len(),
{
    if idx.len() == 0 {
        Seq::<char>::empty()
    } else if idx.len() == 1 {
        spec_dec_i32(idx[0] as int)
    } else {
        spec_id_of(idx.drop_last()) + seq![','] + spec_dec_i32(idx.last() as int)
    }
}

fn digit_str(d: u128) -> (r: &'static str)
    requires
        d < 10,
    ensures
        r@ == seq![spec_digit(d as nat)],
{
    let r: &'static str = match d {
        0 => "0",
        1 => "1",
        2 => "2",
        3 => "3",
        4 => "4",
        5 => "5",
        6 => "6",
        7 => "7",
        8 => "8",
        _ => "9",
    };
    proof {
        reveal_strlit("0");
        reveal_strlit("1");
        reveal_strlit("2");
        reveal_strlit("3");
        reveal_strlit("4");
        reveal_strlit("5");
        reveal_strlit("6");
        reveal_strlit("7");
        reveal_strlit("8");
        reveal_strlit("9");
        assert(r@ =~= seq![spec_digit(d as nat)]);
    }
    r
}

/// Renders `n` in decimal.
pub fn u128_to_string(n: u128) -> (s: String)
    ensures
        s@ == spec_dec(n as nat),
    decreases n,
{
    if n < 10 {
        String::from_str(digit_str(n))
    } else {
        let mut s = u128_to_string(n / 10);
        s.append(digit_str(n % 10));
        proof {
            assert(spec_dec((n / 10) as nat) + seq![spec_digit((n % 10) as nat)] =~= spec_dec(
                (n / 10) as nat,
            ).push(spec_digit((n % 10) as nat)));
        }
        s
    }
}

/// Renders `v` in decimal.
pub fn usize_to_string(v: usize) -> (s: String)
    ensures
        s@ == spec_dec(v as nat),
{
    u128_to_string(v as u128)
}

/// Renders `v` in decimal, with a leading minus sign when negative.
pub fn i32_to_string(v: i32) -> (s: String)
    ensures
        s@ == spec_dec_i32(v as int),
{
    if v >= 0 {
        u128_to_string(v as u128)
    } else {
        let m: i64 = v as i64;
        let mag: u128 = (-m) as u128;
        let mut s = String::from_str("-");
        let digits = u128_to_string(mag);
        s.append(digits.as_str());
        proof {
            reveal_strlit("-");
            assert(s@ =~= seq!['-'] + spec_dec(mag as nat));
        }
        s
    }
}

/// Renders a sequence of indices as a comma-joined decimal identifier.
pub fn join_indices(idx: &[i32]) -> (s: String)
    ensures
        s@ == spec_id_of(idx@),
{
    let mut s = String::new();
    let mut i: usize = 0;
    while i < idx.len()
        invariant
            i <= idx@.len(),
            s@ == spec_id_of(idx@.subrange(0, i as int)),
        decreases idx@.len() - i,
    {
        if i > 0 {
            s.append(",");
        }
        let d = i32_to_string(idx[i]);
        s.append(d.as_str());
        proof {
            reveal_strlit(",");
            let pre = idx@.subrange(0, i + 1 as int);
            assert(pre.drop_last() =~= idx@.subrange(0, i as int));
            assert(pre.last() == idx@[i as int]);
            if i == 0 {
                assert(s@ =~= spec_id_of(pre));
            } else {
                assert(s@ =~= spec_id_of(pre));
            }
        }
        i = i + 1;
    }
    proof {
        assert(idx@.subrange(0, idx@.len() as int) =~= idx@);
    }
    s
}

} // verus!
