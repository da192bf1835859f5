//! What the benchmark fixture programs compute: 32-bit wrapping sums and the decimal status
//! code given to them.
use vstd::prelude::*;

verus! {

/// The number of values of a 32-bit integer.
pub open spec fn word() -> int {
    4294967296
}

/// `x` reduced into the range of `i32` modulo 2^32, as wrapping arithmetic does.
pub open spec fn wrap_i32(x: int) -> i32 {
    let r = x % word();
    if r >= 2147483648 {
        (r - word()) as i32
    } else {
        r as i32
    }
}

/// Any `i32` that differs from `x` by a multiple of 2^32 is `wrap_i32(x)`.
pub proof fn lemma_wrap_char(x: int, y: i32, k: int)
    requires
        x == y + k * word(),
    ensures
        wrap_i32(x) == y,
{
    if y >= 0 {
        vstd::arithmetic::div_mod::lemma_mod_multiples_vanish(k, y as int, word());
        assert(x % word() == y as int % word());
        vstd::arithmetic::div_mod::lemma_small_mod(y as nat, word() as nat);
    } else {
        vstd::arithmetic::div_mod::lemma_mod_multiples_vanish(k - 1, y + word(), word());
        assert(x == word() * (k - 1) + (y + word()));
        vstd::arithmetic::div_mod::lemma_small_mod((y + word()) as nat, word() as nat);
    }
}

/// `x` is its wrapped value plus a multiple of 2^32.
pub proof fn lemma_wrap_decomp(x: int) -> (k: int)
    ensures
        x == wrap_i32(x) + k * word(),
{
    vstd::arithmetic::div_mod::lemma_fundamental_div_mod(x, word());
    vstd::arithmetic::div_mod::lemma_mod_bound(x, word());
    let q = x / word();
    let r = x % word();
    if r >= 2147483648 {
        q + 1
    } else {
        q
    }
}

/// Adding a multiple of 2^32 does not change the wrapped value.
pub proof fn lemma_wrap_shift(x: int, k: int)
    ensures
        wrap_i32(x + k * word()) == wrap_i32(x),
{
    let j = lemma_wrap_decomp(x);
    lemma_wrap_char(x + k * word(), wrap_i32(x), j + k);
}

/// `i32::wrapping_add` is the wrapped sum.
pub proof fn lemma_wrapping_add(x: i32, y: i32)
    ensures
        x.wrapping_add(y) == wrap_i32(x + y),
{
    let z = x.wrapping_add(y);
    if x + y > i32::MAX {
        lemma_wrap_char(x + y, z, 1);
    } else if x + y < i32::MIN {
        lemma_wrap_char(x + y, z, -1);
    } else {
        lemma_wrap_char(x + y, z, 0);
    }
}

/// Wrapping the operands of a sum does not change the wrapped sum.
pub proof fn lemma_wrap_sum(a: int, b: int)
    ensures
        wrap_i32(wrap_i32(a) + wrap_i32(b)) == wrap_i32(a + b),
{
    let ka = lemma_wrap_decomp(a);
    let kb = lemma_wrap_decomp(b);
    lemma_wrap_shift(wrap_i32(a) + wrap_i32(b), ka + kb);
    assert(wrap_i32(a) + wrap_i32(b) + (ka + kb) * word() == a + b);
}

/// `0 + 1 + ... + (n - 1)`.
pub open spec fn triangle(n: int) -> int {
    n * (n - 1) / 2
}

pub proof fn lemma_triangle_step(n: int)
    ensures
        triangle(n + 1) == triangle(n) + n,
{
    assert((n + 1) * n == n * (n - 1) + 2 * n) by (nonlinear_arith);
}

/// The wrapping sum of `v + i` over `i` in `0..n`.
pub open spec fn offset_sum(v: i32, n: int) -> i32 {
    wrap_i32(n * v + triangle(n))
}

/// Adds `v + i` for every `i` in `0..n` with 32-bit wrapping, as the branches of the
/// branching fixture do.
pub fn wrapping_offset_sum(v: i32, n: i32) -> (sum: i32)
    requires
        n >= 0,
    ensures
        sum == offset_sum(v, n as int),
{
    let mut sum: i32 = 0;
    let mut i: i32 = 0;
    proof {
        lemma_wrap_char(0, 0, 0);
    }
    while i < n
        invariant
            0 <= i <= n,
            sum == offset_sum(v, i as int),
        decreases n - i,
    {
        let t = v.wrapping_add(i);
        proof {
            lemma_wrapping_add(v, i);
            lemma_wrapping_add(sum, t);
            lemma_wrap_sum(i * v + triangle(i as int), (v + i) as int);
            lemma_triangle_step(i as int);
            assert((i + 1) * v == i * v + v) by (nonlinear_arith);
            assert(wrap_i32((v + i) as int) == t);
            assert(i * v + triangle(i as int) + (v + i) == (i + 1) * v + triangle(i + 1));
        }
        sum = sum.wrapping_add(t);
        i = i + 1;
    }
    sum
}

/// The value of the decimal digits `s`.
pub open spec fn digits_value(s: Seq<char>) -> int
    decreases s.len(),
{
    if s.len() == 0 {
        0
    } else {
        digits_value(s.drop_last()) * 10 + (s.last() as int - '0' as int)
    }
}

/// Every character of `s` is an ASCII digit.
pub open spec fn all_digits(s: Seq<char>) -> bool {
    forall|i: int| 0 <= i < s.len() ==> '0' <= #[trigger] s[i] <= '9'
}

/// The `i32` that `s` denotes in the format of `i32::from_str`: an optional `+` or `-`
/// followed by at least one decimal digit, nothing else, within the range of `i32`.
pub open spec fn parsed_i32(s: Seq<char>) -> Option<i32> {
    let negative = s.len() > 0 && s[0] == '-';
    let digits = if s.len() > 0 && (s[0] == '-' || s[0] == '+') {
        s.drop_first()
    } else {
        s
    };
    let value = if negative {
        -digits_value(digits)
    } else {
        digits_value(digits)
    };
    if digits.len() > 0 && all_digits(digits) && i32::MIN <= value <= i32::MAX {
        Some(value as i32)
    } else {
        None
    }
}

/// Parses `s` with `i32::from_str`, which accepts an optional `+` or `-` sign followed by
/// decimal digits and nothing else, and fails where the value does not fit in an `i32`.
#[verifier::external_body]
pub(crate) fn parse_i32(s: &str) -> (r: Option<i32>)
    ensures
        r == parsed_i32(s@),
{
    s.parse::<i32>().ok()
}

/// The status code `s` denotes, if it is one.
pub fn parsed_i32_checked(s: &str) -> (r: Option<i32>)
    ensures
        r == parsed_i32(s@),
{
    parse_i32(s)
}

} // verus!
