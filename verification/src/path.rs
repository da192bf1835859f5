//! The components of a file path, as paths are compared: split at `/`, a leading
//! `/` as the root, `.` kept only at the start of a relative path, empty parts dropped.
use vstd::prelude::*;
use crate::id::{char_order, chars_lt, lemma_char_order_strict_total, Rank};
use crate::sorting::{
    lemma_lex_at, lemma_lex_irreflexive, lemma_lex_prefix, lemma_lex_total, lemma_lex_transitive,
    lex_lt, strict_total,
};

verus! {

/// One component of a path.
#[derive(Debug)]
pub enum Component {
    RootDir,
    CurDir,
    ParentDir,
    Normal(Vec<char>),
}

/// The abstract value of a [`Component`].
pub enum ComponentView {
    RootDir,
    CurDir,
    ParentDir,
    Normal(Seq<char>),
}

impl View for Component {
    type V = ComponentView;

    open spec fn view(&self) -> ComponentView {
        match self {
            Component::RootDir => ComponentView::RootDir,
            Component::CurDir => ComponentView::CurDir,
            Component::ParentDir => ComponentView::ParentDir,
            Component::Normal(s) => ComponentView::Normal(s@),
        }
    }
}

/// The abstract values of a sequence of components.
pub open spec fn component_views(s: Seq<Component>) -> Seq<ComponentView> {
    s.map_values(|c: Component| c@)
}

/// The parts of `s` between the `/` characters (one part more than there are `/`).
pub open spec fn split_segments(s: Seq<char>) -> Seq<Seq<char>>
    decreases s.len(),
{
    if s.len() == 0 {
        seq![Seq::empty()]
    } else {
        let p = split_segments(s.drop_last());
        if s.last() == '/' {
            p.push(Seq::empty())
        } else {
            p.drop_last().push(p.last().push(s.last()))
        }
    }
}

/// The components that the parts give, after the start: empty parts and `.` are dropped,
/// `..` is the parent.
pub open spec fn body_components(segs: Seq<Seq<char>>) -> Seq<ComponentView>
    decreases segs.len(),
{
    if segs.len() == 0 {
        Seq::empty()
    } else {
        let rest = body_components(segs.drop_last());
        let s = segs.last();
        if s.len() == 0 || s == seq!['.'] {
            rest
        } else if s == seq!['.', '.'] {
            rest.push(ComponentView::ParentDir)
        } else {
            rest.push(ComponentView::Normal(s))
        }
    }
}

/// The components of the path `s`.
pub open spec fn path_components(s: Seq<char>) -> Seq<ComponentView> {
    let segs = split_segments(s);
    let lead = if s.len() > 0 && s[0] == '/' {
        seq![ComponentView::RootDir]
    } else if segs[0] == seq!['.'] {
        seq![ComponentView::CurDir]
    } else {
        Seq::empty()
    };
    lead + body_components(segs)
}

/// The position of a component kind: root, current, parent, then names.
pub open spec fn component_tag(c: ComponentView) -> int {
    match c {
        ComponentView::RootDir => 0,
        ComponentView::CurDir => 1,
        ComponentView::ParentDir => 2,
        ComponentView::Normal(_) => 3,
    }
}

/// Components are ordered by kind, names by their text.
pub open spec fn component_lt(a: ComponentView, b: ComponentView) -> bool {
    component_tag(a) < component_tag(b) || (a matches ComponentView::Normal(x) && b matches ComponentView::Normal(y) && chars_lt(x, y))
}

/// The order of components.
pub open spec fn component_order() -> spec_fn(ComponentView, ComponentView) -> bool {
    |a: ComponentView, b: ComponentView| component_lt(a, b)
}

/// Paths are ordered component by component.
pub open spec fn components_lt(a: Seq<ComponentView>, b: Seq<ComponentView>) -> bool {
    lex_lt(a, b, component_order())
}

pub proof fn lemma_component_order_strict_total()
    ensures
        strict_total(component_order()),
{
    lemma_char_order_strict_total();
    let lt = component_order();
    assert forall|a: ComponentView| !#[trigger] lt(a, a) by {
        if let ComponentView::Normal(x) = a {
            lemma_lex_irreflexive(x, char_order());
        }
    }
    assert forall|a: ComponentView, b: ComponentView, c: ComponentView|
        #[trigger] lt(a, b) && #[trigger] lt(b, c) implies lt(a, c) by {
        if let (ComponentView::Normal(x), ComponentView::Normal(y), ComponentView::Normal(z)) = (a, b, c) {
            if chars_lt(x, y) && chars_lt(y, z) {
                lemma_lex_transitive(x, y, z, char_order());
            }
        }
    }
    assert forall|a: ComponentView, b: ComponentView| a != b implies #[trigger] lt(a, b) || #[trigger] lt(b, a) by {
        if let (ComponentView::Normal(x), ComponentView::Normal(y)) = (a, b) {
            assert(x != y);
            lemma_lex_total(x, y, char_order());
        }
    }
}

/// The characters of `s`.
fn chars_of(s: &str) -> (r: Vec<char>)
    ensures
        r@ == s@,
{
    let n = s.unicode_len();
    let mut r: Vec<char> = Vec::new();
    let mut i: usize = 0;
    while i < n
        invariant
            n == s@.len(),
            i <= n,
            r@ == s@.take(i as int),
        decreases n - i,
    {
        r.push(s.get_char(i));
        i = i + 1;
        assert(r@ =~= s@.take(i as int));
    }
    assert(s@.take(n as int) =~= s@);
    r
}

proof fn lemma_split_nonempty(s: Seq<char>)
    ensures
        split_segments(s).len() >= 1,
    decreases s.len(),
{
    if s.len() > 0 {
        lemma_split_nonempty(s.drop_last());
    }
}

fn copy_chars(v: &Vec<char>) -> (r: Vec<char>)
    ensures
        r@ == v@,
{
    let mut r: Vec<char> = Vec::new();
    let mut i: usize = 0;
    while i < v.len()
        invariant
            i <= v.len(),
            r@ == v@.take(i as int),
        decreases v.len() - i,
    {
        r.push(v[i]);
        i = i + 1;
        assert(r@ =~= v@.take(i as int));
    }
    assert(v@.take(v.len() as int) =~= v@);
    r
}

/// The components of the path `s`.
pub fn components_of(s: &str) -> (r: Vec<Component>)
    ensures
        component_views(r@) == path_components(s@),
{
    let cs = chars_of(s);
    let n = cs.len();
    let mut segs: Vec<Vec<char>> = Vec::new();
    segs.push(Vec::new());
    let mut i: usize = 0;
    assert(segs@.map_values(|v: Vec<char>| v@) =~= split_segments(cs@.take(0)));
    while i < n
        invariant
            n == cs@.len(),
            i <= n,
            segs@.len() >= 1,
            segs@.map_values(|v: Vec<char>| v@) == split_segments(cs@.take(i as int)),
        decreases n - i,
    {
        let c = cs[i];
        let ghost before = segs@.map_values(|v: Vec<char>| v@);
        assert(cs@.take(i + 1).drop_last() =~= cs@.take(i as int));
        if c == '/' {
            segs.push(Vec::new());
            assert(segs@.map_values(|v: Vec<char>| v@) =~= before.push(Seq::empty()));
        } else {
            let mut last = segs.pop().unwrap();
            last.push(c);
            segs.push(last);
            assert(segs@.map_values(|v: Vec<char>| v@) =~= before.drop_last().push(before.last().push(c)));
        }
        i = i + 1;
    }
    assert(cs@.take(n as int) =~= cs@);
    let ghost segv = segs@.map_values(|v: Vec<char>| v@);
    let mut out: Vec<Component> = Vec::new();
    if n > 0 && cs[0] == '/' {
        out.push(Component::RootDir);
    } else if segs[0].len() == 1 && segs[0][0] == '.' {
        assert(segv[0] =~= seq!['.']);
        out.push(Component::CurDir);
    } else {
        assert(segv[0] != seq!['.']) by {
            if segv[0] == seq!['.'] {
                assert(segs@[0]@ == segv[0]);
            }
        }
    }
    let ghost lead = component_views(out@);
    let mut j: usize = 0;
    assert(component_views(out@) =~= lead + body_components(segv.take(0)));
    while j < segs.len()
        invariant
            j <= segs@.len(),
            segv == segs@.map_values(|v: Vec<char>| v@),
            component_views(out@) == lead + body_components(segv.take(j as int)),
        decreases segs.len() - j,
    {
        let ghost before = component_views(out@);
        assert(segv.take(j + 1).drop_last() =~= segv.take(j as int));
        assert(segv.take(j + 1).last() == segv[j as int]);
        assert(segs@[j as int]@ == segv[j as int]);
        let seg = &segs[j];
        if seg.len() == 0 || (seg.len() == 1 && seg[0] == '.') {
            proof {
                if seg.len() == 1 {
                    assert(seg@ =~= seq!['.']);
                }
            }
        } else if seg.len() == 2 && seg[0] == '.' && seg[1] == '.' {
            assert(seg@ =~= seq!['.', '.']);
            out.push(Component::ParentDir);
            assert(component_views(out@) =~= before.push(ComponentView::ParentDir));
        } else {
            assert(seg@ != seq!['.']) by {
                if seg@ == seq!['.'] {
                    assert(seg@.len() == 1);
                }
            }
            assert(seg@ != seq!['.', '.']) by {
                if seg@ == seq!['.', '.'] {
                    assert(seg@[0] == '.' && seg@[1] == '.');
                }
            }
            let copy = copy_chars(seg);
            out.push(Component::Normal(copy));
            assert(component_views(out@) =~= before.push(ComponentView::Normal(seg@)));
        }
        j = j + 1;
    }
    assert(segv.take(segv.len() as int) =~= segv);
    out
}

/// Compares two character sequences by code point.
pub fn compare_chars(a: &Vec<char>, b: &Vec<char>) -> (r: Rank)
    ensures
        r == Rank::Less <==> chars_lt(a@, b@),
        r == Rank::Equal <==> a@ == b@,
        r == Rank::Greater <==> chars_lt(b@, a@),
{
    proof {
        lemma_char_order_strict_total();
        lemma_lex_irreflexive(a@, char_order());
    }
    let mut i: usize = 0;
    while i < a.len() && i < b.len()
        invariant
            i <= a.len(),
            i <= b.len(),
            a@.take(i as int) == b@.take(i as int),
            strict_total(char_order()),
        decreases a.len() - i,
    {
        let ca = a[i];
        let cb = b[i];
        if ca < cb {
            proof {
                lemma_lex_at(a@, b@, char_order(), i as int);
            }
            return Rank::Less;
        } else if cb < ca {
            proof {
                lemma_lex_at(b@, a@, char_order(), i as int);
            }
            return Rank::Greater;
        }
        proof {
            assert(a@.take(i + 1) =~= a@.take(i as int).push(a@[i as int]));
            assert(b@.take(i + 1) =~= b@.take(i as int).push(b@[i as int]));
        }
        i = i + 1;
    }
    if a.len() <= b.len() {
        proof {
            assert(a@.take(a.len() as int) =~= a@);
            lemma_lex_prefix(a@, b@, char_order());
        }
        if a.len() < b.len() {
            Rank::Less
        } else {
            Rank::Equal
        }
    } else {
        proof {
            assert(b@.take(b.len() as int) =~= b@);
            lemma_lex_prefix(b@, a@, char_order());
        }
        Rank::Greater
    }
}

fn component_tag_of(c: &Component) -> (t: u8)
    ensures
        t as int == component_tag(c@),
{
    match c {
        Component::RootDir => 0,
        Component::CurDir => 1,
        Component::ParentDir => 2,
        Component::Normal(_) => 3,
    }
}

/// Compares two components: by kind, names by their text.
pub fn compare_component(a: &Component, b: &Component) -> (r: Rank)
    ensures
        r == Rank::Less <==> component_lt(a@, b@),
        r == Rank::Equal <==> a@ == b@,
        r == Rank::Greater <==> component_lt(b@, a@),
{
    proof {
        lemma_component_order_strict_total();
        assert(!component_order()(a@, a@));
    }
    let ta = component_tag_of(a);
    let tb = component_tag_of(b);
    if ta < tb {
        return Rank::Less;
    } else if tb < ta {
        return Rank::Greater;
    }
    match (a, b) {
        (Component::Normal(x), Component::Normal(y)) => {
            let r = compare_chars(x, y);
            proof {
                if r == Rank::Equal {
                    assert(a@ == b@);
                }
            }
            r
        },
        _ => {
            proof {
                match a@ {
                    ComponentView::RootDir => { assert(a@ == b@); },
                    ComponentView::CurDir => { assert(a@ == b@); },
                    ComponentView::ParentDir => { assert(a@ == b@); },
                    ComponentView::Normal(_) => {},
                }
            }
            Rank::Equal
        },
    }
}

/// Compares two paths by their components.
pub fn compare_components(a: &Vec<Component>, b: &Vec<Component>) -> (r: Rank)
    ensures
        r == Rank::Less <==> components_lt(component_views(a@), component_views(b@)),
        r == Rank::Equal <==> component_views(a@) == component_views(b@),
        r == Rank::Greater <==> components_lt(component_views(b@), component_views(a@)),
{
    let ghost av = component_views(a@);
    let ghost bv = component_views(b@);
    proof {
        lemma_component_order_strict_total();
        lemma_lex_irreflexive(av, component_order());
    }
    let mut i: usize = 0;
    while i < a.len() && i < b.len()
        invariant
            i <= a.len(),
            i <= b.len(),
            av == component_views(a@),
            bv == component_views(b@),
            av.take(i as int) == bv.take(i as int),
            strict_total(component_order()),
        decreases a.len() - i,
    {
        let r = compare_component(&a[i], &b[i]);
        assert(av[i as int] == a@[i as int]@ && bv[i as int] == b@[i as int]@);
        if r == Rank::Less {
            proof {
                lemma_lex_at(av, bv, component_order(), i as int);
            }
            return Rank::Less;
        } else if r == Rank::Greater {
            proof {
                lemma_lex_at(bv, av, component_order(), i as int);
            }
            return Rank::Greater;
        }
        proof {
            assert(av.take(i + 1) =~= av.take(i as int).push(av[i as int]));
            assert(bv.take(i + 1) =~= bv.take(i as int).push(bv[i as int]));
        }
        i = i + 1;
    }
    if a.len() <= b.len() {
        proof {
            assert(av.take(a.len() as int) =~= av);
            lemma_lex_prefix(av, bv, component_order());
        }
        if a.len() < b.len() {
            Rank::Less
        } else {
            Rank::Equal
        }
    } else {
        proof {
            assert(bv.take(b.len() as int) =~= bv);
            lemma_lex_prefix(bv, av, component_order());
        }
        Rank::Greater
    }
}

} // verus!
