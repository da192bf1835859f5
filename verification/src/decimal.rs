//! Decimal rendering of unsigned integers.
use vstd::prelude::*;

verus! {

/// The character of a single decimal digit.
pub open spec fn digit_char(d: nat) -> char {
    (48 + d) as char
}

/// The shortest decimal representation of `n` (no sign, no leading zeros).
pub open spec fn decimal(n: nat) -> Seq<char>
    decreases n,
{
    if n < 10 {
        seq![digit_char(n)]
    } else {
        decimal(n / 10).push(digit_char(n % 10))
    }
}

/// `s` preceded by as many `'0'` as it takes to reach `width` characters.
pub open spec fn zero_padded(s: Seq<char>, width: nat) -> Seq<char> {
    if s.len() >= width {
        s
    } else {
        Seq::new((width - s.len()) as nat, |i: int| '0') + s
    }
}

/// Calls `String::push`, which appends one character: the text afterwards is the text before
/// followed by `c`.
#[verifier::external_body]
pub(crate) fn push_char(s: &mut String, c: char)
    ensures
        final(s)@ == old(s)@.push(c),
{
    s.push(c);
}

fn digit(d: u64) -> (c: char)
    requires
        d < 10,
    ensures
        c == digit_char(d as nat),
{
    let b: u8 = 48u8 + (d as u8);
    b as char
}

/// Appends the decimal representation of `n` to `out`.
pub fn push_decimal(out: &mut String, n: u64)
    ensures
        final(out)@ == old(out)@ + decimal(n as nat),
    decreases n,
{
    if n < 10 {
        push_char(out, digit(n));
    } else {
        push_decimal(out, n / 10);
        push_char(out, digit(n % 10));
    }
}

/// The decimal representation of `n`, left-padded with zeros to at least `width` characters.
pub fn zero_padded_decimal(n: u64, width: usize) -> (s: String)
    ensures
        s@ == zero_padded(decimal(n as nat), width as nat),
{
    let mut digits = String::new();
    push_decimal(&mut digits, n);
    let len = digits.as_str().unicode_len();
    let mut out = String::new();
    let mut i: usize = len;
    while i < width
        invariant
            len == digits@.len(),
            len <= i <= width || (i == len && len >= width),
            out@ == Seq::new((i - len) as nat, |j: int| '0'),
        decreases width - i,
    {
        push_char(&mut out, '0');
        i = i + 1;
        assert(out@ =~= Seq::new((i - len) as nat, |j: int| '0'));
    }
    out.append(digits.as_str());
    assert(out@ =~= zero_padded(decimal(n as nat), width as nat));
    out
}

/// The number that a sequence of decimal digit characters stands for.
pub open spec fn digits_value(s: Seq<char>) -> int
    decreases s.len(),
{
    if s.len() == 0 {
        0
    } else {
        digits_value(s.drop_last()) * 10 + (s.last() as int - 48)
    }
}

/// The decimal representation of `n` is made of the digits `0` to `9`, does not start with
/// `0` unless it is `0` itself, and stands for `n`.
pub proof fn lemma_decimal_digits(n: nat)
    ensures
        decimal(n).len() >= 1,
        forall|i: int| 0 <= i < decimal(n).len() ==> '0' <= #[trigger] decimal(n)[i] <= '9',
        n > 0 ==> decimal(n)[0] != '0',
        n == 0 ==> decimal(n) == seq!['0'],
        digits_value(decimal(n)) == n,
    decreases n,
{
    if n < 10 {
        assert(decimal(n) == seq![digit_char(n)]);
        assert(seq![digit_char(n)].drop_last() =~= Seq::<char>::empty());
        assert(digit_char(n) as int == 48 + n);
        assert(digits_value(Seq::<char>::empty()) == 0);
        assert(digits_value(seq![digit_char(n)]) == digits_value(Seq::<char>::empty()) * 10 + n);
    } else {
        lemma_decimal_digits(n / 10);
        let d = decimal(n);
        assert(d == decimal(n / 10).push(digit_char(n % 10)));
        assert(d.drop_last() =~= decimal(n / 10));
        assert(digit_char(n % 10) as int == 48 + n % 10);
        assert(d[0] == decimal(n / 10)[0]);
        assert forall|i: int| 0 <= i < d.len() implies '0' <= #[trigger] d[i] <= '9' by {
            if i < d.len() - 1 {
                assert(d[i] == decimal(n / 10)[i]);
            }
        }
        assert(digits_value(d) == digits_value(decimal(n / 10)) * 10 + (n % 10));
        assert(n == (n / 10) * 10 + n % 10);
    }
}

} // verus!
