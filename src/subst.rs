use vstd::prelude::*;
use crate::bindings::Bindings;
use crate::cst::{Cst, Tree, is_ellipsis_tree, is_word, lemma_trees_of, lemma_trees_of_push, pos_of, tree_of, trees_of};
use crate::error::{Fault, MacroError};
use crate::matcher::Binds;

verus! {

pub open spec fn max_opt(a: Option<nat>, b: Option<nat>) -> Option<nat> {
    match (a, b) {
        (Some(x), Some(y)) => Some(if x >= y { x } else { y }),
        (Some(x), None) => Some(x),
        (None, y) => y,
    }
}

/// The length of the longest sequence bound to a variable that occurs in
/// `t`; `None` where no variable of `t` is bound to a sequence.
pub open spec fn max_len(t: Tree, b: Binds) -> Option<nat>
    decreases t, 0int,
{
    match t {
        Tree::Ident(n, _) => if b.dom().contains(n) && b[n].1 {
            match b[n].0 {
                Tree::SExpr(l, _) => Some(l.len()),
                Tree::List(l, _) => Some(l.len()),
                _ => None,
            }
        } else {
            None
        },
        Tree::SExpr(v, _) => max_len_upto(v, v.len() as int, b),
        Tree::List(v, _) => max_len_upto(v, v.len() as int, b),
        Tree::Literal(..) => None,
    }
}

pub open spec fn max_len_upto(v: Seq<Tree>, n: int, b: Binds) -> Option<nat>
    decreases v, n,
{
    if n <= 0 || n > v.len() {
        None
    } else {
        max_opt(max_len_upto(v, n - 1, b), max_len(v[n - 1], b))
    }
}

/// `t` at iteration `i` of a repeat: each variable bound to a sequence is
/// replaced by its `i`-th element, or by its last where it is shorter; a
/// variable bound to a single tree by that tree, whatever its shape.
/// `None` where `t` is a variable bound to an empty sequence; such children
/// are left out of a form.
pub open spec fn at_iter(t: Tree, i: nat, b: Binds) -> Option<Tree>
    decreases t, 0int,
{
    match t {
        Tree::Ident(n, _) => if b.dom().contains(n) {
            if b[n].1 {
                match b[n].0 {
                    Tree::SExpr(l, _) => elem_or_last(l, i),
                    Tree::List(l, _) => elem_or_last(l, i),
                    other => Some(other),
                }
            } else {
                Some(b[n].0)
            }
        } else {
            Some(t)
        },
        Tree::SExpr(v, p) => Some(Tree::SExpr(at_iter_upto(v, v.len() as int, i, b), p)),
        Tree::List(v, p) => Some(Tree::List(at_iter_upto(v, v.len() as int, i, b), p)),
        Tree::Literal(..) => Some(t),
    }
}

pub open spec fn elem_or_last(l: Seq<Tree>, i: nat) -> Option<Tree> {
    if i < l.len() {
        Some(l[i as int])
    } else if l.len() == 0 {
        None
    } else {
        Some(l.last())
    }
}

pub open spec fn opt_seq(o: Option<Tree>) -> Seq<Tree> {
    match o {
        Some(x) => seq![x],
        None => Seq::empty(),
    }
}

pub open spec fn at_iter_upto(v: Seq<Tree>, n: int, i: nat, b: Binds) -> Seq<Tree>
    decreases v, n,
{
    if n <= 0 || n > v.len() {
        Seq::empty()
    } else {
        at_iter_upto(v, n - 1, i, b) + opt_seq(at_iter(v[n - 1], i, b))
    }
}

/// The iterations `0..n` of `t`, in order.
pub open spec fn iterations(t: Tree, n: nat, b: Binds) -> Seq<Tree>
    decreases n,
{
    if n == 0 {
        Seq::empty()
    } else {
        iterations(t, (n - 1) as nat, b) + opt_seq(at_iter(t, (n - 1) as nat, b))
    }
}

/// A repeated template position spliced out: one iteration per element of
/// its longest sequence variable.
pub open spec fn flatten_spec(t: Tree, b: Binds) -> Result<Seq<Tree>, Fault> {
    match max_len(t, b) {
        None => Err(Fault::EmptySequenceFlatten(pos_of(t))),
        Some(m) => Ok(iterations(t, m, b)),
    }
}

/// Whether `t` is the quoting escape `macro-quote`.
pub open spec fn is_quote_escape(t: Tree) -> bool {
    t matches Tree::Ident(s, _) && s == "macro-quote"@
}

/// A template with its variables replaced by what they are bound to.
pub open spec fn subst_spec(t: Tree, b: Binds) -> Result<Tree, Fault>
    decreases t, 0int,
{
    match t {
        Tree::Ident(n, _) => Ok(if b.dom().contains(n) { b[n].0 } else { t }),
        Tree::SExpr(v, p) => if v.len() > 0 && is_quote_escape(v[0]) {
            quote_escape(v)
        } else {
            match subst_upto(v, v.len() as int, b) {
                Ok(items) => Ok(Tree::SExpr(items, p)),
                Err(e) => Err(e),
            }
        },
        Tree::List(v, p) => if v.len() > 0 && is_quote_escape(v[0]) {
            quote_escape(v)
        } else {
            match subst_upto(v, v.len() as int, b) {
                Ok(items) => Ok(Tree::List(items, p)),
                Err(e) => Err(e),
            }
        },
        Tree::Literal(..) => Ok(t),
    }
}

/// `(macro-quote x)` stands for `x`, untouched.
pub open spec fn quote_escape(v: Seq<Tree>) -> Result<Tree, Fault> {
    if v.len() != 2 {
        Err(Fault::ArityMismatch(v.len() as usize, pos_of(v[0])))
    } else {
        Ok(v[1])
    }
}

/// The substituted children `v[..n]`: `...` markers are dropped, and a child
/// followed by one is flattened.
pub open spec fn subst_upto(v: Seq<Tree>, n: int, b: Binds) -> Result<Seq<Tree>, Fault>
    decreases v, n,
{
    if n <= 0 || n > v.len() {
        Ok(Seq::empty())
    } else {
        match subst_upto(v, n - 1, b) {
            Err(e) => Err(e),
            Ok(acc) => if is_ellipsis_tree(v[n - 1]) {
                Ok(acc)
            } else if n < v.len() && is_ellipsis_tree(v[n]) {
                match flatten_spec(v[n - 1], b) {
                    Err(e) => Err(e),
                    Ok(f) => Ok(acc + f),
                }
            } else {
                match subst_spec(v[n - 1], b) {
                    Err(e) => Err(e),
                    Ok(x) => Ok(acc.push(x)),
                }
            },
        }
    }
}

/// The length of the longest sequence bound to a variable that occurs in
/// `tree`, if any variable of it is bound to a sequence.
pub fn max_syntax_var_len(tree: &Cst, b: &Bindings) -> (r: Option<usize>)
    ensures
        match r {
            Some(x) => max_len(tree@, b@) == Some(x as nat),
            None => max_len(tree@, b@) is None,
        },
    decreases tree,
{
    match tree {
        Cst::Ident(n, _) => {
            match b.get(n) {
                Some((bound, true)) => seq_len_of(bound),
                _ => None,
            }
        },
        Cst::SExpr(v, _) => max_len_vec(v, b),
        Cst::List(v, _) => max_len_vec(v, b),
        Cst::Literal(..) => None,
    }
}

/// The length of a form or list; `None` for another tree.
fn seq_len_of(c: &Cst) -> (r: Option<usize>)
    ensures
        match c@ {
            Tree::SExpr(l, _) => r == Some(l.len() as usize) && l.len() <= usize::MAX,
            Tree::List(l, _) => r == Some(l.len() as usize) && l.len() <= usize::MAX,
            _ => r is None,
        },
{
    match c {
        Cst::SExpr(l, _) => {
            proof {
                lemma_trees_of(l@);
            }
            Some(l.len())
        },
        Cst::List(l, _) => {
            proof {
                lemma_trees_of(l@);
            }
            Some(l.len())
        },
        _ => None,
    }
}

fn max_len_vec(v: &Vec<Cst>, b: &Bindings) -> (r: Option<usize>)
    ensures
        match r {
            Some(x) => max_len_upto(trees_of(v@), trees_of(v@).len() as int, b@) == Some(x as nat),
            None => max_len_upto(trees_of(v@), trees_of(v@).len() as int, b@) is None,
        },
    decreases v,
{
    proof {
        lemma_trees_of(v@);
    }
    let mut best: Option<usize> = None;
    let mut i: usize = 0;
    while i < v.len()
        invariant
            i <= v.len(),
            trees_of(v@).len() == v.len(),
            forall|j: int| 0 <= j < v.len() ==> #[trigger] trees_of(v@)[j] == tree_of(v@[j]),
            match best {
                Some(x) => max_len_upto(trees_of(v@), i as int, b@) == Some(x as nat),
                None => max_len_upto(trees_of(v@), i as int, b@) is None,
            },
        decreases v.len() - i,
    {
        proof {
            assert(decreases_to!(v => v[i as int]));
        }
        let m = max_syntax_var_len(&v[i], b);
        best = match (best, m) {
            (Some(x), Some(y)) => Some(if x >= y { x } else { y }),
            (Some(x), None) => Some(x),
            (None, y) => y,
        };
        i = i + 1;
    }
    best
}

/// `tree` at iteration `i` of a repeat: each variable bound to a sequence is
/// replaced by its `i`-th element, or by its last where the sequence is
/// shorter; `None` for a variable bound to an empty sequence.
pub fn subst_syntax_vars_at_iteration(tree: &Cst, i: usize, b: &Bindings) -> (r: Option<Cst>)
    ensures
        match r {
            Some(c) => at_iter(tree@, i as nat, b@) == Some(c@),
            None => at_iter(tree@, i as nat, b@) is None,
        },
    decreases tree,
{
    match tree {
        Cst::Ident(n, _) => match b.get(n) {
            Some((bound, false)) => Some(bound.copy()),
            Some((bound, true)) => {
                proof {
                    lemma_sub_trees(bound);
                }
                match bound {
                    Cst::SExpr(l, _) => elem_or_last_exec(l, i),
                    Cst::List(l, _) => elem_or_last_exec(l, i),
                    _ => Some(bound.copy()),
                }
            },
            None => Some(tree.copy()),
        },
        Cst::SExpr(v, p) => Some(Cst::SExpr(at_iteration_vec(v, i, b), *p)),
        Cst::List(v, p) => Some(Cst::List(at_iteration_vec(v, i, b), *p)),
        Cst::Literal(..) => Some(tree.copy()),
    }
}

proof fn lemma_sub_trees(c: &Cst)
    ensures
        c matches Cst::SExpr(l, _) ==> trees_of(l@).len() == l@.len() && forall|j: int|
            0 <= j < l@.len() ==> #[trigger] trees_of(l@)[j] == tree_of(l@[j]),
        c matches Cst::List(l, _) ==> trees_of(l@).len() == l@.len() && forall|j: int|
            0 <= j < l@.len() ==> #[trigger] trees_of(l@)[j] == tree_of(l@[j]),
{
    match c {
        Cst::SExpr(l, _) => lemma_trees_of(l@),
        Cst::List(l, _) => lemma_trees_of(l@),
        _ => {},
    }
}

fn elem_or_last_exec(l: &Vec<Cst>, i: usize) -> (r: Option<Cst>)
    ensures
        match r {
            Some(c) => elem_or_last(trees_of(l@), i as nat) == Some(c@),
            None => elem_or_last(trees_of(l@), i as nat) is None,
        },
{
    proof {
        lemma_trees_of(l@);
    }
    if i < l.len() {
        Some(l[i].copy())
    } else if l.len() == 0 {
        None
    } else {
        Some(l[l.len() - 1].copy())
    }
}

fn at_iteration_vec(v: &Vec<Cst>, i: usize, b: &Bindings) -> (r: Vec<Cst>)
    ensures
        trees_of(r@) == at_iter_upto(trees_of(v@), trees_of(v@).len() as int, i as nat, b@),
    decreases v,
{
    proof {
        lemma_trees_of(v@);
    }
    let mut out: Vec<Cst> = Vec::new();
    let mut j: usize = 0;
    while j < v.len()
        invariant
            j <= v.len(),
            trees_of(v@).len() == v.len(),
            forall|t: int| 0 <= t < v.len() ==> #[trigger] trees_of(v@)[t] == tree_of(v@[t]),
            trees_of(out@) == at_iter_upto(trees_of(v@), j as int, i as nat, b@),
        decreases v.len() - j,
    {
        proof {
            assert(decreases_to!(v => v[j as int]));
        }
        match subst_syntax_vars_at_iteration(&v[j], i, b) {
            Some(c) => {
                proof {
                    lemma_trees_of_push(out@, c);
                }
                out.push(c);
            },
            None => {},
        }
        assert(trees_of(out@) =~= at_iter_upto(trees_of(v@), j + 1, i as nat, b@));
        j = j + 1;
    }
    out
}

/// A repeated template position spliced out: one instance of `tree` per
/// element of its longest sequence variable, in order.
pub fn flatten(tree: &Cst, b: &Bindings) -> (r: Result<Vec<Cst>, MacroError>)
    ensures
        match r {
            Ok(v) => flatten_spec(tree@, b@) == Ok::<Seq<Tree>, Fault>(trees_of(v@)),
            Err(e) => flatten_spec(tree@, b@) == Err::<Seq<Tree>, Fault>(e@),
        },
{
    let max = match max_syntax_var_len(tree, b) {
        Some(m) => m,
        None => return Err(MacroError::EmptySequenceFlatten(tree.pos())),
    };
    let mut out: Vec<Cst> = Vec::new();
    let mut i: usize = 0;
    while i < max
        invariant
            i <= max,
            max_len(tree@, b@) == Some(max as nat),
            trees_of(out@) == iterations(tree@, i as nat, b@),
        decreases max - i,
    {
        match subst_syntax_vars_at_iteration(tree, i, b) {
            Some(c) => {
                proof {
                    lemma_trees_of_push(out@, c);
                }
                out.push(c);
            },
            None => {},
        }
        assert(trees_of(out@) =~= iterations(tree@, (i + 1) as nat, b@));
        i = i + 1;
    }
    Ok(out)
}

/// Instantiates a template: each bound variable is replaced by what it is
/// bound to, `(macro-quote x)` by `x` untouched, and a child followed by
/// `...` by its iterations.
pub fn subst_syntax_vars(tree: &Cst, b: &Bindings) -> (r: Result<Cst, MacroError>)
    ensures
        match r {
            Ok(c) => subst_spec(tree@, b@) == Ok::<Tree, Fault>(c@),
            Err(e) => subst_spec(tree@, b@) == Err::<Tree, Fault>(e@),
        },
    decreases tree,
{
    match tree {
        Cst::Ident(n, _) => match b.get(n) {
            Some((c, _)) => Ok(c.copy()),
            None => Ok(tree.copy()),
        },
        Cst::SExpr(v, p) => {
            proof {
                lemma_trees_of(v@);
            }
            if v.len() > 0 && is_quote_word(&v[0]) {
                quote_escape_exec(v)
            } else {
                let items = subst_vec(v, b)?;
                Ok(Cst::SExpr(items, *p))
            }
        },
        Cst::List(v, p) => {
            proof {
                lemma_trees_of(v@);
            }
            if v.len() > 0 && is_quote_word(&v[0]) {
                quote_escape_exec(v)
            } else {
                let items = subst_vec(v, b)?;
                Ok(Cst::List(items, *p))
            }
        },
        Cst::Literal(..) => Ok(tree.copy()),
    }
}

fn is_quote_word(c: &Cst) -> (r: bool)
    ensures
        r == is_quote_escape(c@),
{
    match c {
        Cst::Ident(s, _) => is_word(s, "macro-quote"),
        _ => false,
    }
}

fn quote_escape_exec(v: &Vec<Cst>) -> (r: Result<Cst, MacroError>)
    requires
        v.len() > 0,
    ensures
        match r {
            Ok(c) => quote_escape(trees_of(v@)) == Ok::<Tree, Fault>(c@),
            Err(e) => quote_escape(trees_of(v@)) == Err::<Tree, Fault>(e@),
        },
{
    proof {
        lemma_trees_of(v@);
    }
    if v.len() != 2 {
        Err(MacroError::ArityMismatch(v.len(), v[0].pos()))
    } else {
        Ok(v[1].copy())
    }
}

fn subst_vec(v: &Vec<Cst>, b: &Bindings) -> (r: Result<Vec<Cst>, MacroError>)
    ensures
        match r {
            Ok(items) => subst_upto(trees_of(v@), v.len() as int, b@) == Ok::<Seq<Tree>, Fault>(trees_of(items@)),
            Err(e) => subst_upto(trees_of(v@), v.len() as int, b@) == Err::<Seq<Tree>, Fault>(e@),
        },
    decreases v,
{
    proof {
        lemma_trees_of(v@);
    }
    let mut out: Vec<Cst> = Vec::new();
    let mut i: usize = 0;
    while i < v.len()
        invariant
            i <= v.len(),
            trees_of(v@).len() == v.len(),
            forall|t: int| 0 <= t < v.len() ==> #[trigger] trees_of(v@)[t] == tree_of(v@[t]),
            subst_upto(trees_of(v@), i as int, b@) == Ok::<Seq<Tree>, Fault>(trees_of(out@)),
        decreases v.len() - i,
    {
        proof {
            assert(decreases_to!(v => v[i as int]));
        }
        if v[i].is_ellipsis() {
        } else if i + 1 < v.len() && v[i + 1].is_ellipsis() {
            match flatten(&v[i], b) {
                Ok(f) => {
                    proof {
                        lemma_trees_of_append(out@, f@);
                    }
                    let mut f = f;
                    out.append(&mut f);
                },
                Err(e) => {
                    proof {
                        lemma_subst_upto_err(trees_of(v@), i as int + 1, v.len() as int, b@);
                    }
                    return Err(e);
                },
            }
        } else {
            match subst_syntax_vars(&v[i], b) {
                Ok(c) => {
                    proof {
                        lemma_trees_of_push(out@, c);
                    }
                    out.push(c);
                },
                Err(e) => {
                    proof {
                        lemma_subst_upto_err(trees_of(v@), i as int + 1, v.len() as int, b@);
                    }
                    return Err(e);
                },
            }
        }
        i = i + 1;
    }
    Ok(out)
}

proof fn lemma_subst_upto_err(v: Seq<Tree>, n: int, m: int, b: Binds)
    requires
        0 < n <= m <= v.len(),
        subst_upto(v, n, b) is Err,
    ensures
        subst_upto(v, m, b) == subst_upto(v, n, b),
    decreases m - n,
{
    if n < m {
        lemma_subst_upto_err(v, n, m - 1, b);
    }
}

proof fn lemma_trees_of_append(a: Seq<Cst>, b: Seq<Cst>)
    ensures
        trees_of(a + b) == trees_of(a) + trees_of(b),
    decreases b.len(),
{
    lemma_trees_of(a);
    lemma_trees_of(b);
    lemma_trees_of(a + b);
    assert(trees_of(a + b) =~= trees_of(a) + trees_of(b));
}

} // verus!
