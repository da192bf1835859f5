//! Identifiers of functions in a call graph: source file, function name and object file.
use vstd::prelude::*;
use crate::decimal::push_char;
use crate::path::{
    compare_components, component_order, component_views, components_lt,
    components_of, lemma_component_order_strict_total, path_components,
    Component, ComponentView,
};
use crate::sorting::{
    lemma_lex_at, lemma_lex_irreflexive, lemma_lex_prefix, lemma_lex_total, lemma_lex_transitive,
    lex_lt, strict_total,
};

verus! {

/// Where a source or object file lies, as callgrind reports it; the text is the path.
#[derive(Debug, Clone)]
pub enum SourcePath {
    Unknown,
    Rust(String),
    Relative(String),
    Absolute(String),
}

/// The abstract value of a [`SourcePath`]: its kind and its components. Paths with the same
/// components are the same path.
pub enum PathView {
    Unknown,
    Rust(Seq<ComponentView>),
    Relative(Seq<ComponentView>),
    Absolute(Seq<ComponentView>),
}

impl View for SourcePath {
    type V = PathView;

    open spec fn view(&self) -> PathView {
        match self {
            SourcePath::Unknown => PathView::Unknown,
            SourcePath::Rust(p) => PathView::Rust(path_components(p@)),
            SourcePath::Relative(p) => PathView::Relative(path_components(p@)),
            SourcePath::Absolute(p) => PathView::Absolute(path_components(p@)),
        }
    }
}

/// A path as written: its kind and its text. Paths with different texts may be the same
/// path; the text is what a label shows.
pub enum PathText {
    Unknown,
    Rust(Seq<char>),
    Relative(Seq<char>),
    Absolute(Seq<char>),
}

impl SourcePath {
    /// This path as written.
    pub open spec fn text(&self) -> PathText {
        match self {
            SourcePath::Unknown => PathText::Unknown,
            SourcePath::Rust(p) => PathText::Rust(p@),
            SourcePath::Relative(p) => PathText::Relative(p@),
            SourcePath::Absolute(p) => PathText::Absolute(p@),
        }
    }
}

/// An optional path as written.
pub open spec fn opt_path_text(p: Option<SourcePath>) -> Option<PathText> {
    match p {
        Some(q) => Some(q.text()),
        None => None,
    }
}

/// An identifier as written: the texts of its paths and its function name.
pub struct IdText {
    pub file: Option<PathText>,
    pub func: Seq<char>,
    pub obj: Option<PathText>,
}

/// A function of the call graph.
#[derive(Debug, Clone)]
pub struct Id {
    pub file: Option<SourcePath>,
    pub func: String,
    pub obj: Option<SourcePath>,
}

/// The abstract value of an [`Id`].
pub struct IdView {
    pub file: Option<PathView>,
    pub func: Seq<char>,
    pub obj: Option<PathView>,
}

pub open spec fn opt_path_view(p: Option<SourcePath>) -> Option<PathView> {
    match p {
        Some(q) => Some(q@),
        None => None,
    }
}

impl View for Id {
    type V = IdView;

    open spec fn view(&self) -> IdView {
        IdView { file: opt_path_view(self.file), func: self.func@, obj: opt_path_view(self.obj) }
    }
}

impl Id {
    /// This identifier as written.
    pub open spec fn text(&self) -> IdText {
        IdText { file: opt_path_text(self.file), func: self.func@, obj: opt_path_text(self.obj) }
    }
}

/// The result of comparing two values.
#[derive(Debug, PartialEq, Eq, Structural, Clone, Copy)]
pub enum Rank {
    Less,
    Equal,
    Greater,
}

/// Characters ordered by code point.
pub open spec fn char_order() -> spec_fn(char, char) -> bool {
    |x: char, y: char| (x as int) < (y as int)
}

/// `a` comes before `b` in lexicographic order of code points.
pub open spec fn chars_lt(a: Seq<char>, b: Seq<char>) -> bool {
    lex_lt(a, b, char_order())
}

pub proof fn lemma_char_order_strict_total()
    ensures
        strict_total(char_order()),
{
    let lt = char_order();
    assert forall|a: char, b: char| a != b implies #[trigger] lt(a, b) || #[trigger] lt(b, a) by {
        assert((a as int) != (b as int));
    }
}

/// The position of a path kind in declaration order.
pub open spec fn path_tag(p: PathView) -> int {
    match p {
        PathView::Unknown => 0,
        PathView::Rust(_) => 1,
        PathView::Relative(_) => 2,
        PathView::Absolute(_) => 3,
    }
}

/// The components of a path (none where it is unknown).
pub open spec fn path_comps(p: PathView) -> Seq<ComponentView> {
    match p {
        PathView::Unknown => Seq::empty(),
        PathView::Rust(s) => s,
        PathView::Relative(s) => s,
        PathView::Absolute(s) => s,
    }
}

/// Paths are ordered by their kind first, then component by component.
pub open spec fn path_lt(a: PathView, b: PathView) -> bool {
    path_tag(a) < path_tag(b) || (path_tag(a) == path_tag(b) && components_lt(
        path_comps(a),
        path_comps(b),
    ))
}

/// An absent path comes before any present one.
pub open spec fn opt_path_lt(a: Option<PathView>, b: Option<PathView>) -> bool {
    match (a, b) {
        (None, Some(_)) => true,
        (Some(x), Some(y)) => path_lt(x, y),
        _ => false,
    }
}

/// Identifiers are ordered by source file, then function name, then object file.
pub open spec fn id_lt(a: IdView, b: IdView) -> bool {
    opt_path_lt(a.file, b.file) || (a.file == b.file && (chars_lt(a.func, b.func) || (a.func
        == b.func && opt_path_lt(a.obj, b.obj))))
}

/// The order of identifiers is a strict total order.
pub proof fn lemma_id_lt_strict_total()
    ensures
        forall|a: IdView| !#[trigger] id_lt(a, a),
        forall|a: IdView, b: IdView, c: IdView|
            #[trigger] id_lt(a, b) && #[trigger] id_lt(b, c) ==> id_lt(a, c),
        forall|a: IdView, b: IdView| a != b ==> #[trigger] id_lt(a, b) || #[trigger] id_lt(b, a),
{
    lemma_char_order_strict_total();
    assert forall|a: Seq<char>| !#[trigger] chars_lt(a, a) by {
        lemma_lex_irreflexive(a, char_order());
    }
    assert forall|a: Seq<char>, b: Seq<char>, c: Seq<char>|
        #[trigger] chars_lt(a, b) && #[trigger] chars_lt(b, c) implies chars_lt(a, c) by {
        lemma_lex_transitive(a, b, c, char_order());
    }
    assert forall|a: Seq<char>, b: Seq<char>| a != b implies #[trigger] chars_lt(a, b)
        || #[trigger] chars_lt(b, a) by {
        lemma_lex_total(a, b, char_order());
    }
    lemma_component_order_strict_total();
    assert forall|a: PathView| !#[trigger] path_lt(a, a) by {
        lemma_lex_irreflexive(path_comps(a), component_order());
    }
    assert forall|a: PathView, b: PathView, c: PathView|
        #[trigger] path_lt(a, b) && #[trigger] path_lt(b, c) implies path_lt(a, c) by {
        if path_tag(a) == path_tag(b) && path_tag(b) == path_tag(c) {
            lemma_lex_transitive(path_comps(a), path_comps(b), path_comps(c), component_order());
        }
    }
    assert forall|a: PathView, b: PathView| a != b implies #[trigger] path_lt(a, b)
        || #[trigger] path_lt(b, a) by {
        if path_tag(a) == path_tag(b) && path_comps(a) != path_comps(b) {
            lemma_lex_total(path_comps(a), path_comps(b), component_order());
        }
        if path_tag(a) == path_tag(b) && path_comps(a) == path_comps(b) {
            match a {
                PathView::Unknown => {},
                PathView::Rust(_) => {},
                PathView::Relative(_) => {},
                PathView::Absolute(_) => {},
            }
        }
    }
    assert forall|a: Option<PathView>, b: Option<PathView>| a != b implies #[trigger] opt_path_lt(a, b)
        || #[trigger] opt_path_lt(b, a) by {
        if a is Some && b is Some {
            assert(a->0 != b->0);
        }
    }
    assert forall|a: IdView, b: IdView| a != b implies #[trigger] id_lt(a, b) || #[trigger] id_lt(
        b,
        a,
    ) by {
        if a.file == b.file && a.func == b.func && a.obj == b.obj {
            assert(a == b);
        }
    }
}

/// Compares two texts by the code points of their characters.
pub fn compare_text(a: &str, b: &str) -> (r: Rank)
    ensures
        r == Rank::Less <==> chars_lt(a@, b@),
        r == Rank::Equal <==> a@ == b@,
        r == Rank::Greater <==> chars_lt(b@, a@),
{
    proof {
        lemma_char_order_strict_total();
        lemma_lex_irreflexive(a@, char_order());
    }
    let la = a.unicode_len();
    let lb = b.unicode_len();
    let mut i: usize = 0;
    while i < la && i < lb
        invariant
            la == a@.len(),
            lb == b@.len(),
            i <= la,
            i <= lb,
            a@.take(i as int) == b@.take(i as int),
            strict_total(char_order()),
        decreases la - i,
    {
        let ca = a.get_char(i);
        let cb = b.get_char(i);
        if (ca as u32) < (cb as u32) {
            proof {
                lemma_lex_at(a@, b@, char_order(), i as int);
            }
            return Rank::Less;
        } else if (cb as u32) < (ca as u32) {
            proof {
                lemma_lex_at(b@, a@, char_order(), i as int);
            }
            return Rank::Greater;
        }
        proof {
            assert(a@[i as int] == b@[i as int]);
            assert(a@.take(i + 1) =~= a@.take(i as int).push(a@[i as int]));
            assert(b@.take(i + 1) =~= b@.take(i as int).push(b@[i as int]));
        }
        i = i + 1;
    }
    if la <= lb {
        proof {
            assert(a@.take(la as int) =~= a@);
            lemma_lex_prefix(a@, b@, char_order());
        }
        if la < lb {
            Rank::Less
        } else {
            Rank::Equal
        }
    } else {
        proof {
            assert(b@.take(lb as int) =~= b@);
            lemma_lex_prefix(b@, a@, char_order());
        }
        Rank::Greater
    }
}

impl SourcePath {
    /// The position of this path's kind in declaration order.
    fn tag(&self) -> (t: u8)
        ensures
            t as int == path_tag(self@),
    {
        match self {
            SourcePath::Unknown => 0,
            SourcePath::Rust(_) => 1,
            SourcePath::Relative(_) => 2,
            SourcePath::Absolute(_) => 3,
        }
    }

    /// The components of this path (none where it is unknown).
    pub fn components(&self) -> (r: Vec<Component>)
        ensures
            component_views(r@) == path_comps(self@),
    {
        match self {
            SourcePath::Unknown => {
                let r: Vec<Component> = Vec::new();
                assert(component_views(r@) =~= Seq::<ComponentView>::empty());
                r
            },
            SourcePath::Rust(p) => components_of(p.as_str()),
            SourcePath::Relative(p) => components_of(p.as_str()),
            SourcePath::Absolute(p) => components_of(p.as_str()),
        }
    }

    /// A copy of this path.
    pub fn duplicate(&self) -> (r: Self)
        ensures
            r@ == self@,
            r.text() == self.text(),
    {
        match self {
            SourcePath::Unknown => SourcePath::Unknown,
            SourcePath::Rust(p) => SourcePath::Rust(p.clone()),
            SourcePath::Relative(p) => SourcePath::Relative(p.clone()),
            SourcePath::Absolute(p) => SourcePath::Absolute(p.clone()),
        }
    }

    /// Whether two paths are equal: of the same kind, with the same components.
    pub fn same(&self, other: &SourcePath) -> (r: bool)
        ensures
            r == (self@ == other@),
    {
        self.compare(other) == Rank::Equal
    }

    /// Compares two paths: by kind, then component by component.
    pub fn compare(&self, other: &SourcePath) -> (r: Rank)
        ensures
            r == Rank::Less <==> path_lt(self@, other@),
            r == Rank::Equal <==> self@ == other@,
            r == Rank::Greater <==> path_lt(other@, self@),
    {
        proof {
            lemma_component_order_strict_total();
            lemma_lex_irreflexive(path_comps(self@), component_order());
        }
        let ta = self.tag();
        let tb = other.tag();
        if ta < tb {
            Rank::Less
        } else if tb < ta {
            Rank::Greater
        } else {
            let r = compare_components(&self.components(), &other.components());
            proof {
                if path_comps(self@) == path_comps(other@) {
                    match self@ {
                        PathView::Unknown => { assert(self@ == other@); },
                        PathView::Rust(_) => { assert(self@ == other@); },
                        PathView::Relative(_) => { assert(self@ == other@); },
                        PathView::Absolute(_) => { assert(self@ == other@); },
                    }
                }
            }
            r
        }
    }

    /// Appends how this path is shown: its text as written (nothing where it is unknown).
    pub fn push_display(&self, out: &mut String)
        ensures
            final(out)@ == old(out)@ + path_display(self.text()),
    {
        match self {
            SourcePath::Unknown => {},
            SourcePath::Rust(p) => out.append(p.as_str()),
            SourcePath::Relative(p) => out.append(p.as_str()),
            SourcePath::Absolute(p) => out.append(p.as_str()),
        }
    }
}

/// A copy of an optional path.
pub fn duplicate_opt_path(p: &Option<SourcePath>) -> (r: Option<SourcePath>)
    ensures
        opt_path_view(r) == opt_path_view(*p),
        opt_path_text(r) == opt_path_text(*p),
{
    match p {
        Some(q) => Some(q.duplicate()),
        None => None,
    }
}

/// Whether two optional paths are equal.
pub fn same_opt_path(a: &Option<SourcePath>, b: &Option<SourcePath>) -> (r: bool)
    ensures
        r == (opt_path_view(*a) == opt_path_view(*b)),
{
    match a {
        None => b.is_none(),
        Some(x) => match b {
            None => false,
            Some(y) => x.same(y),
        },
    }
}

/// Compares two optional paths; an absent path comes first.
pub fn compare_opt_paths(a: &Option<SourcePath>, b: &Option<SourcePath>) -> (r: Rank)
    ensures
        r == Rank::Less <==> opt_path_lt(opt_path_view(*a), opt_path_view(*b)),
        r == Rank::Equal <==> opt_path_view(*a) == opt_path_view(*b),
        r == Rank::Greater <==> opt_path_lt(opt_path_view(*b), opt_path_view(*a)),
{
    match (a, b) {
        (None, None) => Rank::Equal,
        (None, Some(_)) => Rank::Less,
        (Some(_), None) => Rank::Greater,
        (Some(x), Some(y)) => x.compare(y),
    }
}

/// How a path is shown: its text as written (nothing where it is unknown).
pub open spec fn path_display(p: PathText) -> Seq<char> {
    match p {
        PathText::Unknown => Seq::empty(),
        PathText::Rust(t) => t,
        PathText::Relative(t) => t,
        PathText::Absolute(t) => t,
    }
}

/// The text that names a function in a stack: `file:func` (or just `func` where the file is
/// absent or unknown), followed by ` [obj]` where the object file is known; the paths are
/// shown as written.
pub open spec fn label(id: IdText) -> Seq<char> {
    let base = match id.file {
        Some(p) => if p is Unknown {
            id.func
        } else {
            path_display(p) + seq![':'] + id.func
        },
        None => id.func,
    };
    match id.obj {
        Some(p) => if p is Unknown {
            base
        } else {
            base + seq![' ', '['] + path_display(p) + seq![']']
        },
        None => base,
    }
}

/// The identifier `t` without its object file.
pub open spec fn without_object(t: IdText) -> IdText {
    IdText { file: t.file, func: t.func, obj: None }
}

/// How a label is made of the texts of an identifier: a known source file (of any kind but
/// unknown) is written as it stands, then `:` and the function name; without a known source
/// file the label starts with the function name alone. A known object file (of any kind but
/// unknown) follows as ` [`, its path as written, and `]`; an absent or unknown one adds
/// nothing.
pub proof fn lemma_label_parts(t: IdText)
    ensures
        match t.file {
            Some(PathText::Rust(s)) => label(without_object(t)) == s + seq![':'] + t.func,
            Some(PathText::Relative(s)) => label(without_object(t)) == s + seq![':'] + t.func,
            Some(PathText::Absolute(s)) => label(without_object(t)) == s + seq![':'] + t.func,
            _ => label(without_object(t)) == t.func,
        },
        match t.obj {
            Some(PathText::Rust(s)) => label(t) == label(without_object(t)) + seq![' ', '['] + s
                + seq![']'],
            Some(PathText::Relative(s)) => label(t) == label(without_object(t)) + seq![' ', '[']
                + s + seq![']'],
            Some(PathText::Absolute(s)) => label(t) == label(without_object(t)) + seq![' ', '[']
                + s + seq![']'],
            _ => label(t) == label(without_object(t)),
        },
{
}

/// Paths are ordered by kind first: unknown, then Rust paths, then relative paths, then
/// absolute paths, whatever their components.
pub proof fn lemma_path_kinds_order(a: Seq<ComponentView>, b: Seq<ComponentView>)
    ensures
        path_lt(PathView::Unknown, PathView::Rust(b)),
        path_lt(PathView::Rust(a), PathView::Relative(b)),
        path_lt(PathView::Relative(a), PathView::Absolute(b)),
        path_lt(PathView::Rust(a), PathView::Absolute(b)),
        !path_lt(PathView::Absolute(a), PathView::Relative(b)),
        !path_lt(PathView::Relative(a), PathView::Rust(b)),
{
}

/// Identifiers are ordered by source file first: a function in a relative source file comes
/// before one in an absolute source file, and one without a source file before both.
pub proof fn lemma_ids_order_by_file_kind(x: IdView, y: IdView, a: Seq<ComponentView>, b: Seq<ComponentView>)
    requires
        x.file == Some(PathView::Relative(a)),
        y.file == Some(PathView::Absolute(b)),
    ensures
        id_lt(x, y),
        !id_lt(y, x),
        id_lt(IdView { file: None, func: y.func, obj: y.obj }, x),
{
}

impl Id {
    /// A copy of this identifier.
    pub fn duplicate(&self) -> (r: Self)
        ensures
            r@ == self@,
            r.text() == self.text(),
    {
        Id {
            file: duplicate_opt_path(&self.file),
            func: self.func.clone(),
            obj: duplicate_opt_path(&self.obj),
        }
    }

    /// Compares two identifiers: by source file, then function name, then object file.
    pub fn compare(&self, other: &Id) -> (r: Rank)
        ensures
            r == Rank::Less <==> id_lt(self@, other@),
            r == Rank::Equal <==> self@ == other@,
            r == Rank::Greater <==> id_lt(other@, self@),
    {
        proof {
            lemma_id_lt_strict_total();
        }
        let f = compare_opt_paths(&self.file, &other.file);
        if f != Rank::Equal {
            return f;
        }
        let n = compare_text(self.func.as_str(), other.func.as_str());
        if n != Rank::Equal {
            return n;
        }
        compare_opt_paths(&self.obj, &other.obj)
    }

    /// Whether two identifiers are equal.
    pub fn same(&self, other: &Id) -> (r: bool)
        ensures
            r == (self@ == other@),
    {
        same_opt_path(&self.file, &other.file) && self.func == other.func && same_opt_path(
            &self.obj,
            &other.obj,
        )
    }

    /// Appends the label of this identifier to `out`.
    pub fn push_label(&self, out: &mut String)
        ensures
            final(out)@ == old(out)@ + label(self.text()),
    {
        let ghost start = out@;
        match &self.file {
            Some(p) => {
                match p {
                    SourcePath::Unknown => {
                        out.append(self.func.as_str());
                    },
                    _ => {
                        p.push_display(out);
                        push_char(out, ':');
                        out.append(self.func.as_str());
                    },
                }
            },
            None => {
                out.append(self.func.as_str());
            },
        }
        match &self.obj {
            Some(p) => {
                match p {
                    SourcePath::Unknown => {},
                    _ => {
                        push_char(out, ' ');
                        push_char(out, '[');
                        p.push_display(out);
                        push_char(out, ']');
                    },
                }
            },
            None => {},
        }
        assert(out@ =~= start + label(self.text()));
    }
}

} // verus!
