//! The program of the branching benchmark fixture: two branches that sum in loops of
//! different lengths.
use vstd::prelude::*;
use crate::fixture_programs::{offset_sum, parse_i32, parsed_i32, wrapping_offset_sum};

verus! {

/// The status code given as argument.
pub fn parse_arg(arg: &str) -> (v: i32)
    requires
        parsed_i32(arg@) is Some,
    ensures
        v == parsed_i32(arg@)->0,
{
    match parse_i32(arg) {
        Some(v) => v,
        None => 0,
    }
}

/// The wrapping sum of `v + i` for `i` in `0..1000`, with the code `v`.
pub fn branch_a(arg: &str) -> (r: (i32, i32))
    requires
        parsed_i32(arg@) is Some,
    ensures
        r.1 == parsed_i32(arg@)->0,
        r.0 == offset_sum(r.1, 1000),
{
    let v = parse_arg(arg);
    let sum = wrapping_offset_sum(v, 1000);
    (sum, v)
}

/// The wrapping sum of `v + i` for `i` in `0..500`, with the code `v`.
pub fn branch_b(arg: &str) -> (r: (i32, i32))
    requires
        parsed_i32(arg@) is Some,
    ensures
        r.1 == parsed_i32(arg@)->0,
        r.0 == offset_sum(r.1, 500),
{
    let v = parse_arg(arg);
    let sum = wrapping_offset_sum(v, 500);
    (sum, v)
}

} // verus!
