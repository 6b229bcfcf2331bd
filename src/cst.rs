use vstd::prelude::*;

verus! {

/// A source span, with the span of the macro invocation that produced the
/// node, if it came out of an expansion.
#[derive(Clone, Copy, Debug, PartialEq, Eq)]
pub struct SrcPos {
    pub start: usize,
    pub end: usize,
    pub site: Option<(usize, usize)>,
}

/// A node of the concrete syntax tree.
#[derive(Debug, PartialEq, Eq)]
pub enum Cst {
    Ident(String, SrcPos),
    SExpr(Vec<Cst>, SrcPos),
    List(Vec<Cst>, SrcPos),
    Literal(String, SrcPos),
}

/// The mathematical model of a `Cst`.
pub enum Tree {
    Ident(Seq<char>, SrcPos),
    SExpr(Seq<Tree>, SrcPos),
    List(Seq<Tree>, SrcPos),
    Literal(Seq<char>, SrcPos),
}

pub open spec fn tree_of(t: Cst) -> Tree
    decreases t,
{
    match t {
        Cst::Ident(s, p) => Tree::Ident(s@, p),
        Cst::SExpr(v, p) => Tree::SExpr(trees_of(v@), p),
        Cst::List(v, p) => Tree::List(trees_of(v@), p),
        Cst::Literal(s, p) => Tree::Literal(s@, p),
    }
}

pub open spec fn trees_of(s: Seq<Cst>) -> Seq<Tree>
    decreases s,
{
    if s.len() == 0 {
        Seq::empty()
    } else {
        trees_of(s.drop_last()).push(tree_of(s.last()))
    }
}

impl View for Cst {
    type V = Tree;

    open spec fn view(&self) -> Tree {
        tree_of(*self)
    }
}

pub broadcast proof fn lemma_trees_of(s: Seq<Cst>)
    ensures
        #[trigger] trees_of(s).len() == s.len(),
        forall|i: int| 0 <= i < s.len() ==> #[trigger] trees_of(s)[i] == tree_of(s[i]),
    decreases s.len(),
{
    if s.len() > 0 {
        lemma_trees_of(s.drop_last());
    }
}

pub proof fn lemma_trees_of_push(s: Seq<Cst>, c: Cst)
    ensures
        trees_of(s.push(c)) == trees_of(s).push(tree_of(c)),
{
    assert(s.push(c).drop_last() =~= s);
}

pub proof fn lemma_trees_of_take(s: Seq<Cst>, n: int)
    requires
        0 <= n <= s.len(),
    ensures
        trees_of(s.take(n)) == trees_of(s).take(n),
{
    lemma_trees_of(s);
    lemma_trees_of(s.take(n));
    assert(trees_of(s.take(n)) =~= trees_of(s).take(n));
}

pub proof fn lemma_trees_of_subrange(s: Seq<Cst>, lo: int, hi: int)
    requires
        0 <= lo <= hi <= s.len(),
    ensures
        trees_of(s.subrange(lo, hi)) == trees_of(s).subrange(lo, hi),
{
    lemma_trees_of(s);
    lemma_trees_of(s.subrange(lo, hi));
    assert(trees_of(s.subrange(lo, hi)) =~= trees_of(s).subrange(lo, hi));
}

/// Span of a node.
pub open spec fn pos_of(t: Tree) -> SrcPos {
    match t {
        Tree::Ident(_, p) => p,
        Tree::SExpr(_, p) => p,
        Tree::List(_, p) => p,
        Tree::Literal(_, p) => p,
    }
}

/// The span from the start of `a` to the end of `b`.
pub open spec fn span_to(a: SrcPos, b: SrcPos) -> SrcPos {
    SrcPos { start: a.start, end: b.end, site: a.site }
}

/// `t` with every node marked as produced by the invocation at `site`.
pub open spec fn tag(t: Tree, site: (usize, usize)) -> Tree
    decreases t,
{
    match t {
        Tree::Ident(s, p) => Tree::Ident(s, SrcPos { site: Some(site), ..p }),
        Tree::SExpr(v, p) => Tree::SExpr(tag_all(v, site), SrcPos { site: Some(site), ..p }),
        Tree::List(v, p) => Tree::List(tag_all(v, site), SrcPos { site: Some(site), ..p }),
        Tree::Literal(s, p) => Tree::Literal(s, SrcPos { site: Some(site), ..p }),
    }
}

pub open spec fn tag_all(v: Seq<Tree>, site: (usize, usize)) -> Seq<Tree>
    decreases v,
{
    if v.len() == 0 {
        Seq::empty()
    } else {
        tag_all(v.drop_last(), site).push(tag(v.last(), site))
    }
}

impl SrcPos {
    /// The span from the start of `self` to the end of `other`.
    pub fn to(&self, other: &SrcPos) -> (r: SrcPos)
        ensures
            r == span_to(*self, *other),
    {
        SrcPos { start: self.start, end: other.end, site: self.site }
    }
}

impl Cst {
    pub fn pos(&self) -> (r: SrcPos)
        ensures
            r == pos_of(self@),
    {
        match self {
            Cst::Ident(_, p) => *p,
            Cst::SExpr(_, p) => *p,
            Cst::List(_, p) => *p,
            Cst::Literal(_, p) => *p,
        }
    }

    /// Whether this node is the bare `...` marker.
    pub fn is_ellipsis(&self) -> (r: bool)
        ensures
            r == is_ellipsis_tree(self@),
    {
        match self {
            Cst::Ident(s, _) => is_word(s, "..."),
            _ => false,
        }
    }

    /// A copy of the tree.
    pub fn copy(&self) -> (r: Cst)
        ensures
            r@ == self@,
        decreases self,
    {
        match self {
            Cst::Ident(s, p) => Cst::Ident(s.clone(), *p),
            Cst::SExpr(v, p) => Cst::SExpr(copy_all(v), *p),
            Cst::List(v, p) => Cst::List(copy_all(v), *p),
            Cst::Literal(s, p) => Cst::Literal(s.clone(), *p),
        }
    }

    /// A copy of the tree with every node marked as produced by the macro
    /// invocation at `site`.
    pub fn with_expansion_site(&self, site: (usize, usize)) -> (r: Cst)
        ensures
            r@ == tag(self@, site),
        decreases self,
    {
        match self {
            Cst::Ident(s, p) => Cst::Ident(s.clone(), SrcPos { site: Some(site), ..*p }),
            Cst::SExpr(v, p) => Cst::SExpr(tag_vec(v, site), SrcPos { site: Some(site), ..*p }),
            Cst::List(v, p) => Cst::List(tag_vec(v, site), SrcPos { site: Some(site), ..*p }),
            Cst::Literal(s, p) => Cst::Literal(s.clone(), SrcPos { site: Some(site), ..*p }),
        }
    }
}

/// A copy of each tree of `v`.
pub fn copy_all(v: &Vec<Cst>) -> (r: Vec<Cst>)
    ensures
        trees_of(r@) == trees_of(v@),
    decreases v,
{
    let r = copy_range(v, 0, v.len());
    assert(v@.subrange(0, v.len() as int) =~= v@);
    r
}

/// A copy of the trees of `v` from `lo` up to `hi`.
pub fn copy_range(v: &Vec<Cst>, lo: usize, hi: usize) -> (r: Vec<Cst>)
    requires
        lo <= hi <= v.len(),
    ensures
        trees_of(r@) == trees_of(v@.subrange(lo as int, hi as int)),
    decreases v, 0nat,
{
    let mut out: Vec<Cst> = Vec::new();
    let mut i: usize = lo;
    while i < hi
        invariant
            lo <= i <= hi <= v.len(),
            trees_of(out@) == trees_of(v@.subrange(lo as int, i as int)),
        decreases hi - i,
    {
        proof {
            assert(decreases_to!(v => v[i as int]));
        }
        let c = v[i].copy();
        proof {
            lemma_trees_of_push(out@, c);
            lemma_trees_of_push(v@.subrange(lo as int, i as int), v@[i as int]);
            assert(v@.subrange(lo as int, i as int).push(v@[i as int]) =~= v@.subrange(lo as int, i + 1));
        }
        out.push(c);
        i = i + 1;
    }
    out
}

fn tag_vec(v: &Vec<Cst>, site: (usize, usize)) -> (r: Vec<Cst>)
    ensures
        trees_of(r@) == tag_all(trees_of(v@), site),
    decreases v,
{
    let mut out: Vec<Cst> = Vec::new();
    let mut i: usize = 0;
    while i < v.len()
        invariant
            i <= v.len(),
            trees_of(out@) == tag_all(trees_of(v@.take(i as int)), site),
        decreases v.len() - i,
    {
        proof {
            assert(decreases_to!(v => v[i as int]));
        }
        let c = v[i].with_expansion_site(site);
        proof {
            lemma_trees_of_push(out@, c);
            lemma_trees_of_push(v@.take(i as int), v@[i as int]);
            assert(v@.take(i as int).push(v@[i as int]) =~= v@.take(i + 1));
            assert(trees_of(v@.take(i + 1)).drop_last() =~= trees_of(v@.take(i as int)));
        }
        out.push(c);
        i = i + 1;
    }
    assert(v@.take(v.len() as int) =~= v@);
    out
}

pub open spec fn is_ellipsis_tree(t: Tree) -> bool {
    t matches Tree::Ident(s, _) && s == "..."@
}

/// Whether `s` spells the reserved word `w`.
pub fn is_word(s: &String, w: &str) -> (r: bool)
    ensures
        r == (s@ == w@),
{
    let t = String::from_str(w);
    *s == t
}

} // verus!
