//! The names and contents of the expected-stacks fixture files.
use vstd::prelude::*;
use crate::decimal::{decimal, push_char, zero_padded, zero_padded_decimal};

verus! {

/// The suffix of the fixture of a culled parse: `_cull` and the least cost in at least four
/// digits.
pub fn cull_suffix(min_cost: u64) -> (r: String)
    ensures
        r@ == "_cull"@ + zero_padded(decimal(min_cost as nat), 4),
{
    let mut r = String::new();
    r.append("_cull");
    let digits = zero_padded_decimal(min_cost, 4);
    r.append(digits.as_str());
    assert(r@ =~= "_cull"@ + zero_padded(decimal(min_cost as nat), 4));
    r
}

/// The file name of the expected stacks of the fixture `name` with the suffix `suffix`.
pub fn expected_stacks_file(name: &str, suffix: &str) -> (r: String)
    ensures
        r@ == "callgrind."@ + name@ + suffix@ + ".exp_stacks"@,
{
    let mut r = String::new();
    r.append("callgrind.");
    r.append(name);
    r.append(suffix);
    r.append(".exp_stacks");
    assert(r@ =~= "callgrind."@ + name@ + suffix@ + ".exp_stacks"@);
    r
}

/// Lines joined into a text, each followed by a line break.
pub open spec fn lines_text(lines: Seq<Seq<char>>) -> Seq<char>
    decreases lines.len(),
{
    if lines.len() == 0 {
        Seq::empty()
    } else {
        lines_text(lines.drop_last()) + lines.last().push('\n')
    }
}

/// The contents of an expected-stacks file: every stack on a line of its own.
pub fn stacks_text(stacks: &Vec<String>) -> (r: String)
    ensures
        r@ == lines_text(stacks@.map_values(|s: String| s@)),
{
    let ghost views = stacks@.map_values(|s: String| s@);
    let mut r = String::new();
    let mut i: usize = 0;
    assert(views.take(0) =~= Seq::<Seq<char>>::empty());
    while i < stacks.len()
        invariant
            i <= stacks.len(),
            views == stacks@.map_values(|s: String| s@),
            r@ == lines_text(views.take(i as int)),
        decreases stacks.len() - i,
    {
        r.append(stacks[i].as_str());
        push_char(&mut r, '\n');
        assert(views.take(i + 1).drop_last() =~= views.take(i as int));
        assert(r@ =~= lines_text(views.take(i as int)) + views[i as int].push('\n'));
        i = i + 1;
    }
    assert(views.take(stacks.len() as int) =~= views);
    r
}

} // verus!
