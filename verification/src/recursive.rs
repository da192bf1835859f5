//! The program of the recursive benchmark fixture: a sum repeated over a chain of calls.
use vstd::prelude::*;
use crate::fixture_programs::{
    lemma_wrap_char, lemma_wrap_sum, lemma_wrapping_add, parse_i32, parsed_i32, wrap_i32,
};

verus! {

/// The status code given as argument.
pub fn parse_arg(arg: &str) -> (v: i32)
    requires
        parsed_i32(arg@) is Some,
    ensures
        v == parsed_i32(arg@)->0,
{
    match parse_i32(arg) {
        Some(v) => v,
        None => 0,
    }
}

/// The sum of `0..200`, added up once per level of the recursion.
pub open spec fn recursive_sum(recurse: int) -> i32 {
    if recurse > 0 {
        wrap_i32(19900 * (recurse + 1))
    } else {
        19900
    }
}

/// Sums `0..200` and adds the result of `recursive(recurse - 1, ..)` while `recurse > 0`;
/// at the bottom, parses the code from `arg`.
pub fn recursive(recurse: i32, arg: &str) -> (r: (i32, i32))
    requires
        parsed_i32(arg@) is Some,
    ensures
        r.0 == recursive_sum(recurse as int),
        r.1 == parsed_i32(arg@)->0,
    decreases recurse,
{
    let mut sum: i32 = 0;
    let mut i: i32 = 0;
    while i < 200
        invariant
            0 <= i <= 200,
            sum == i * (i - 1) / 2,
        decreases 200 - i,
    {
        assert((i + 1) * i == i * (i - 1) + 2 * i) by (nonlinear_arith);
        assert(i * (i - 1) <= 200 * 200) by (nonlinear_arith)
            requires
                0 <= i <= 200,
        ;
        assert(i * (i - 1) >= 0) by (nonlinear_arith)
            requires
                0 <= i <= 200,
        ;
        assert(i * (i - 1) / 2 + i == (i + 1) * i / 2);
        sum = sum.wrapping_add(i);
        i = i + 1;
    }
    if recurse > 0 {
        let (child_sum, code) = recursive(recurse - 1, arg);
        proof {
            lemma_wrapping_add(sum, child_sum);
            lemma_wrap_char(19900, 19900, 0);
            lemma_wrap_sum(19900, 19900 * recurse);
            if recurse - 1 > 0 {
                assert(child_sum == wrap_i32(19900 * recurse));
            } else {
                lemma_wrap_char(19900 * recurse, 19900, 0);
            }
            assert(19900 + 19900 * recurse == 19900 * (recurse + 1));
        }
        (sum.wrapping_add(child_sum), code)
    } else {
        let code = parse_arg(arg);
        (sum, code)
    }
}

} // verus!
