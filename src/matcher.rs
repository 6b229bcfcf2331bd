use vstd::prelude::*;
use crate::bindings::{Bindings, lemma_map_of_keys, opt_view};
use crate::cst::{Cst, SrcPos, Tree, copy_all, copy_range, lemma_trees_of, lemma_trees_of_push, lemma_trees_of_subrange, pos_of, span_to, tree_of, trees_of};
use crate::pattern::{MacroPattern, Pat, has_literal, is_ellipsis_pat, is_literal, lemma_pats_of, names, pats_of, strs_of};

verus! {

pub type Binds = Map<Seq<char>, (Tree, bool)>;

/// `n` bound to the single tree `t`.
pub open spec fn binds(n: Seq<char>, t: Tree) -> Binds {
    Map::empty().insert(n, (t, false))
}

/// The bindings of matching `t` against `p`, if it matches.
pub open spec fn match_spec(p: Pat, t: Tree, lits: Seq<Seq<char>>) -> Option<Binds>
    decreases t, 0int, 0int,
{
    match p {
        Pat::Ident(n) => if !lits.contains(n) {
            Some(binds(n, t))
        } else if t matches Tree::Ident(i, _) && i == n {
            Some(Map::empty())
        } else {
            None
        },
        Pat::SExpr(ps) => match t {
            Tree::SExpr(v, pos) => match_all_spec(ps, 0, v, 0, pos, lits),
            _ => None,
        },
        Pat::List(ps) => match t {
            Tree::List(v, pos) => match_all_spec(ps, 0, v, 0, pos, lits),
            _ => None,
        },
    }
}

pub open spec fn join(a: Option<Binds>, b: Option<Binds>) -> Option<Binds> {
    match (a, b) {
        (Some(x), Some(y)) => Some(x.union_prefer_right(y)),
        _ => None,
    }
}

/// The bindings of matching `args[ai..]` against the pattern list
/// `ps[pi..]`; `pos` is the position of the enclosing form.
pub open spec fn match_all_spec(
    ps: Seq<Pat>,
    pi: nat,
    args: Seq<Tree>,
    ai: nat,
    pos: SrcPos,
    lits: Seq<Seq<char>>,
) -> Option<Binds>
    decreases args, ps.len() - pi, 0int,
{
    if pi >= ps.len() {
        if ai >= args.len() {
            Some(Map::empty())
        } else {
            None
        }
    } else if pi + 1 < ps.len() && is_ellipsis_pat(ps[pi + 1int]) {
        if pi + 2 < ps.len() && has_literal(ps[pi + 2int], lits) {
            match until_delim_spec(ps[pi as int], ps[pi + 2int], args, ai, pos, lits) {
                None => None,
                Some((m, next)) => join(Some(m), match_all_spec(ps, pi + 3, args, next, pos, lits)),
            }
        } else {
            let k = ps.len() - pi - 2;
            if args.len() < ai + k {
                None
            } else {
                let hi = (args.len() - k) as nat;
                join(
                    seq_match_spec(ps[pi as int], args, ai, hi, pos, lits),
                    match_all_spec(ps, pi + 2, args, hi, pos, lits),
                )
            }
        }
    } else if ai >= args.len() {
        None
    } else {
        join(match_spec(ps[pi as int], args[ai as int], lits), match_all_spec(ps, pi + 1, args, ai + 1, pos, lits))
    }
}

/// The bindings of matching each of `args[lo..hi]` against `p`, if all match.
pub open spec fn seq_matches(p: Pat, args: Seq<Tree>, lo: nat, hi: nat, lits: Seq<Seq<char>>) -> Option<Seq<Binds>>
    decreases args, 0int, hi - lo,
{
    if hi <= lo || hi > args.len() {
        Some(Seq::empty())
    } else {
        match seq_matches(p, args, lo, (hi - 1) as nat, lits) {
            None => None,
            Some(ms) => match match_spec(p, args[hi - 1], lits) {
                None => None,
                Some(m) => Some(ms.push(m)),
            },
        }
    }
}

/// What `k` was bound to in each of `ms` that binds it, in order.
pub open spec fn collect(ms: Seq<Binds>, k: Seq<char>) -> Seq<Tree>
    decreases ms.len(),
{
    if ms.len() == 0 {
        Seq::empty()
    } else {
        collect(ms.drop_last(), k) + if ms.last().dom().contains(k) {
            seq![ms.last()[k].0]
        } else {
            Seq::empty()
        }
    }
}

/// The list of a sequence variable: it spans its elements, or sits at `pos`
/// when empty.
pub open spec fn seq_list(vals: Seq<Tree>, pos: SrcPos) -> Tree {
    Tree::List(
        vals,
        if vals.len() == 0 {
            pos
        } else {
            span_to(pos_of(vals[0]), pos_of(vals.last()))
        },
    )
}

/// Each variable of `p` bound, as a sequence, to the list of what it matched
/// in `ms`; to an empty list where `ms` is empty.
pub open spec fn zipped(p: Pat, ms: Seq<Binds>, pos: SrcPos, lits: Seq<Seq<char>>) -> Binds {
    Map::new(|k: Seq<char>| names(p, lits).contains(k), |k: Seq<char>| (seq_list(collect(ms, k), pos), true))
}

/// Matching every one of `args[lo..hi]` against the repeated pattern `p`.
pub open spec fn seq_match_spec(
    p: Pat,
    args: Seq<Tree>,
    lo: nat,
    hi: nat,
    pos: SrcPos,
    lits: Seq<Seq<char>>,
) -> Option<Binds>
    decreases args, 1int, 0int,
{
    match seq_matches(p, args, lo, hi, lits) {
        None => None,
        Some(ms) => Some(zipped(p, ms, pos, lits)),
    }
}

/// From `args[i]` on, the matches of `p` up to the first argument that
/// matches the delimiter `d`, that argument's bindings and its index.
pub open spec fn scan_spec(p: Pat, d: Pat, args: Seq<Tree>, i: nat, lits: Seq<Seq<char>>) -> Option<(Seq<Binds>, Binds, nat)>
    decreases args, 0int, args.len() - i,
{
    if i >= args.len() {
        None
    } else {
        match match_spec(d, args[i as int], lits) {
            Some(dm) => Some((Seq::empty(), dm, i)),
            None => match match_spec(p, args[i as int], lits) {
                None => None,
                Some(m) => match scan_spec(p, d, args, i + 1, lits) {
                    None => None,
                    Some((ms, dm, j)) => Some((seq![m] + ms, dm, j)),
                },
            },
        }
    }
}

/// Matching `p` repeatedly from `args[lo]` until the delimiter `d`: each
/// variable of `p` bound to its sequence (empty where the delimiter comes
/// first), the delimiter's bindings, and the index after the delimiter.
/// Fails where the delimiter binds a variable of `p`.
pub open spec fn until_delim_spec(
    p: Pat,
    d: Pat,
    args: Seq<Tree>,
    lo: nat,
    pos: SrcPos,
    lits: Seq<Seq<char>>,
) -> Option<(Binds, nat)>
    decreases args, 1int, 0int,
{
    match scan_spec(p, d, args, lo, lits) {
        None => None,
        Some((ms, dm, j)) => {
            let vars = zipped(p, ms, pos, lits);
            if exists|k: Seq<char>| dm.dom().contains(k) && vars.dom().contains(k) {
                None
            } else {
                Some((vars.union_prefer_right(dm), j + 1))
            }
        },
    }
}

/// Matching the arguments `args[lo..]` of an invocation at `pos` against a
/// rule's pattern.
pub open spec fn match_args_spec(p: Pat, args: Seq<Tree>, lo: nat, pos: SrcPos, lits: Seq<Seq<char>>) -> Option<Binds> {
    match p {
        Pat::Ident(n) => if lits.contains(n) {
            None
        } else {
            Some(binds(n, Tree::List(args.subrange(lo as int, args.len() as int), pos)))
        },
        Pat::List(ps) => match_all_spec(ps, 0, args, lo, pos, lits),
        Pat::SExpr(_) => None,
    }
}

/// The models of a list of bindings.
pub open spec fn views(ms: Seq<Bindings>) -> Seq<Binds> {
    ms.map_values(|b: Bindings| b@)
}

pub open spec fn prepend(ms: Seq<Binds>, r: Option<(Seq<Binds>, Binds, nat)>) -> Option<(Seq<Binds>, Binds, nat)> {
    match r {
        None => None,
        Some((ms2, dm, j)) => Some((ms + ms2, dm, j)),
    }
}

proof fn lemma_seq_matches_none(p: Pat, args: Seq<Tree>, lo: nat, n: nat, hi: nat, lits: Seq<Seq<char>>)
    requires
        lo < n <= hi <= args.len(),
        seq_matches(p, args, lo, n, lits) is None,
    ensures
        seq_matches(p, args, lo, hi, lits) is None,
    decreases hi - n,
{
    if n < hi {
        lemma_seq_matches_none(p, args, lo, n, (hi - 1) as nat, lits);
    }
}

/// What `k` is bound to in each of `ms` that binds it, in order.
fn collect_exec(ms: &Vec<Bindings>, k: &String) -> (r: Vec<Cst>)
    ensures
        trees_of(r@) == collect(views(ms@), k@),
{
    let mut out: Vec<Cst> = Vec::new();
    let mut i: usize = 0;
    while i < ms.len()
        invariant
            i <= ms.len(),
            trees_of(out@) == collect(views(ms@.take(i as int)), k@),
        decreases ms.len() - i,
    {
        assert(views(ms@.take(i + 1)).drop_last() =~= views(ms@.take(i as int)));
        assert(views(ms@.take(i + 1)).last() == ms@[i as int]@);
        match ms[i].get(k) {
            Some((c, _)) => {
                let c2 = c.copy();
                proof {
                    lemma_trees_of_push(out@, c2);
                }
                out.push(c2);
                assert(trees_of(out@) =~= collect(views(ms@.take(i + 1)), k@));
            },
            None => {
                assert(trees_of(out@) =~= collect(views(ms@.take(i + 1)), k@));
            },
        }
        i = i + 1;
    }
    assert(ms@.take(ms.len() as int) =~= ms@);
    out
}

/// Each of `names` bound, as a sequence, to the list of what it matched in
/// `ms`.
fn zip_vars(names: &Vec<String>, ms: &Vec<Bindings>, pos: SrcPos) -> (r: Bindings)
    ensures
        r@ == Map::new(
            |k: Seq<char>| strs_of(names@).contains(k),
            |k: Seq<char>| (seq_list(collect(views(ms@), k), pos), true),
        ),
{
    let mut out = Bindings::new();
    let mut j: usize = 0;
    while j < names.len()
        invariant
            j <= names.len(),
            out@ == Map::new(
                |k: Seq<char>| strs_of(names@.take(j as int)).contains(k),
                |k: Seq<char>| (seq_list(collect(views(ms@), k), pos), true),
            ),
        decreases names.len() - j,
    {
        let vals = collect_exec(ms, &names[j]);
        proof {
            lemma_trees_of(vals@);
            assert(strs_of(names@.take(j + 1)) =~= strs_of(names@.take(j as int)).push(names@[j as int]@));
        }
        let ghost prev = out@;
        let ghost nj = names@[j as int]@;
        let lp = if vals.len() == 0 {
            pos
        } else {
            vals[0].pos().to(&vals[vals.len() - 1].pos())
        };
        let item = Cst::List(vals, lp);
        assert(item@ == seq_list(collect(views(ms@), nj), pos));
        out.insert(names[j].clone(), item, true);
        assert(out@ =~= Map::new(
            |k: Seq<char>| strs_of(names@.take(j + 1)).contains(k),
            |k: Seq<char>| (seq_list(collect(views(ms@), k), pos), true),
        )) by {
            assert forall|k: Seq<char>| #[trigger] out@.dom().contains(k) <==> strs_of(names@.take(j + 1)).contains(k) by {
                let s0 = strs_of(names@.take(j as int));
                assert(strs_of(names@.take(j + 1)) == s0.push(nj));
                if s0.push(nj).contains(k) && k != nj {
                    let t = choose|t: int| 0 <= t < s0.len() + 1 && s0.push(nj)[t] == k;
                    assert(s0[t] == k);
                }
                if s0.contains(k) {
                    let t = choose|t: int| 0 <= t < s0.len() && s0[t] == k;
                    assert(s0.push(nj)[t] == k);
                }
                if k == nj {
                    assert(s0.push(nj)[s0.len() as int] == k);
                }
                assert(prev.dom().contains(k) <==> s0.contains(k));
            }
            assert forall|k: Seq<char>| #[trigger] out@.dom().contains(k) implies out@[k] == (seq_list(collect(views(ms@), k), pos), true) by {
                if k != nj {
                    assert(prev.dom().contains(k));
                }
            }
        }
        j = j + 1;
    }
    assert(names@.take(names.len() as int) =~= names@);
    out
}

/// How many sub-patterns a form or list pattern holds.
pub open spec fn pat_width(p: Pat) -> int {
    match p {
        Pat::SExpr(ps) => ps.len() as int,
        Pat::List(ps) => ps.len() as int,
        Pat::Ident(_) => 0,
    }
}

proof fn lemma_pat_width(p: &MacroPattern)
    ensures
        p matches MacroPattern::SExpr(ps) ==> pat_width(p@) == ps.len(),
        p matches MacroPattern::List(ps) ==> pat_width(p@) == ps.len(),
{
    match p {
        MacroPattern::SExpr(ps) => lemma_pats_of(ps@),
        MacroPattern::List(ps) => lemma_pats_of(ps@),
        _ => {},
    }
}

/// Whether some name is bound in both `a` and `b`.
fn shares_name(a: &Bindings, b: &Bindings) -> (r: bool)
    ensures
        r == exists|k: Seq<char>| a@.dom().contains(k) && b@.dom().contains(k),
{
    proof {
        lemma_map_of_keys(b.entries@);
    }
    let mut j: usize = 0;
    while j < b.entries.len()
        invariant
            j <= b.entries.len(),
            forall|t: int| 0 <= t < j ==> !a@.dom().contains(#[trigger] b.entries@[t].0@),
        decreases b.entries.len() - j,
    {
        if a.get(&b.entries[j].0).is_some() {
            proof {
                lemma_map_of_keys(b.entries@);
            }
            assert(b@.dom().contains(b.entries@[j as int].0@));
            return true;
        }
        j = j + 1;
    }
    assert(!exists|k: Seq<char>| a@.dom().contains(k) && b@.dom().contains(k)) by {
        if exists|k: Seq<char>| a@.dom().contains(k) && b@.dom().contains(k) {
            let k = choose|k: Seq<char>| a@.dom().contains(k) && b@.dom().contains(k);
            let t = choose|t: int| 0 <= t < b.entries@.len() && b.entries@[t].0@ == k;
            assert(!a@.dom().contains(b.entries@[t].0@));
        }
    }
    false
}

impl MacroPattern {
    /// Matches a tree against this pattern: the bindings, if it matches.
    pub fn match_(&self, tree: &Cst, lits: &Vec<String>) -> (r: Option<Bindings>)
        ensures
            opt_view(r) == match_spec(self@, tree@, strs_of(lits@)),
        decreases tree, 1int, 0int,
    {
        match tree {
            Cst::SExpr(v, pos) => {
                proof {
                    lemma_pat_width(self);
                }
                self.match_sexpr(v, *pos, lits)
            },
            Cst::List(v, pos) => {
                proof {
                    lemma_pat_width(self);
                    lemma_trees_of(v@);
                    assert(trees_of(v@).subrange(0, v.len() as int) =~= trees_of(v@));
                }
                self.match_list(v, 0, *pos, lits)
            },
            Cst::Ident(..) => self.match_ident(tree, lits),
            Cst::Literal(..) => self.match_lit(tree, lits),
        }
    }

    /// Matches an identifier: a literal pattern matches the same name and
    /// binds nothing; a variable binds it.
    fn match_ident(&self, tree: &Cst, lits: &Vec<String>) -> (r: Option<Bindings>)
        requires
            tree is Ident,
        ensures
            opt_view(r) == match_spec(self@, tree@, strs_of(lits@)),
    {
        let ident = match tree {
            Cst::Ident(i, _) => i,
            _ => return None,
        };
        match self.get_ident() {
            None => None,
            Some(p) => if is_literal(lits, p) {
                if *p == *ident {
                    Some(Bindings::new())
                } else {
                    None
                }
            } else {
                let mut b = Bindings::new();
                b.insert(p.clone(), tree.copy(), false);
                Some(b)
            },
        }
    }

    /// Matches a numeric or string literal: only a variable binds it.
    fn match_lit(&self, tree: &Cst, lits: &Vec<String>) -> (r: Option<Bindings>)
        requires
            tree is Literal,
        ensures
            opt_view(r) == match_spec(self@, tree@, strs_of(lits@)),
    {
        match self {
            MacroPattern::Ident(p) => if is_literal(lits, p) {
                None
            } else {
                let mut b = Bindings::new();
                b.insert(p.clone(), tree.copy(), false);
                Some(b)
            },
            _ => None,
        }
    }

    /// Matches the form with elements `v` at `pos`: a variable binds it
    /// whole, a form pattern matches its elements.
    fn match_sexpr(&self, v: &Vec<Cst>, pos: SrcPos, lits: &Vec<String>) -> (r: Option<Bindings>)
        ensures
            opt_view(r) == match_spec(self@, Tree::SExpr(trees_of(v@), pos), strs_of(lits@)),
        decreases v, pat_width(self@) + 1, 0int,
    {
        proof {
            lemma_pat_width(self);
        }
        match self {
            MacroPattern::Ident(p) => if is_literal(lits, p) {
                None
            } else {
                let whole = Cst::SExpr(copy_all(v), pos);
                let mut b = Bindings::new();
                b.insert(p.clone(), whole, false);
                Some(b)
            },
            MacroPattern::SExpr(ps) => match_all(ps, 0, v, 0, pos, lits),
            MacroPattern::List(_) => None,
        }
    }

    /// Matches the arguments `args[lo..]` of an invocation at `pos`.
    pub fn match_list(&self, args: &Vec<Cst>, lo: usize, pos: SrcPos, lits: &Vec<String>) -> (r: Option<Bindings>)
        requires
            lo <= args.len(),
        ensures
            opt_view(r) == match_args_spec(self@, trees_of(args@), lo as nat, pos, strs_of(lits@)),
        decreases args, pat_width(self@) + 1, 0int,
    {
        proof {
            lemma_pat_width(self);
        }
        match self {
            MacroPattern::Ident(n) => {
                if is_literal(lits, n) {
                    None
                } else {
                    let rest = copy_range(args, lo, args.len());
                    proof {
                        lemma_trees_of(args@);
                        lemma_trees_of_subrange(args@, lo as int, args.len() as int);
                    }
                    let item = Cst::List(rest, pos);
                    assert(item@ == Tree::List(trees_of(args@).subrange(lo as int, args.len() as int), pos));
                    let mut b = Bindings::new();
                    b.insert(n.clone(), item, false);
                    assert(b@ =~= binds(n@, item@));
                    Some(b)
                }
            },
            MacroPattern::List(ps) => match_all(ps, 0, args, lo, pos, lits),
            MacroPattern::SExpr(_) => None,
        }
    }

    /// The matches of each of `args[lo..hi]` against this pattern, if all match.
    fn sequence_matches(&self, args: &Vec<Cst>, lo: usize, hi: usize, lits: &Vec<String>) -> (r: Option<Vec<Bindings>>)
        requires
            lo <= hi <= args.len(),
        ensures
            match r {
                None => seq_matches(self@, trees_of(args@), lo as nat, hi as nat, strs_of(lits@)) is None,
                Some(ms) => seq_matches(self@, trees_of(args@), lo as nat, hi as nat, strs_of(lits@)) == Some(views(ms@)),
            },
        decreases args, 0int, hi - lo,
    {
        proof {
            lemma_trees_of(args@);
        }
        let mut ms: Vec<Bindings> = Vec::new();
        let mut i: usize = lo;
        while i < hi
            invariant
                lo <= i <= hi <= args.len(),
                trees_of(args@).len() == args.len(),
                forall|j: int| 0 <= j < args.len() ==> #[trigger] trees_of(args@)[j] == tree_of(args@[j]),
                seq_matches(self@, trees_of(args@), lo as nat, i as nat, strs_of(lits@)) == Some(views(ms@)),
            decreases hi - i,
        {
            proof {
                assert(decreases_to!(args => args[i as int]));
            }
            match self.match_(&args[i], lits) {
                None => {
                    proof {
                        lemma_seq_matches_none(self@, trees_of(args@), lo as nat, (i + 1) as nat, hi as nat, strs_of(lits@));
                    }
                    return None;
                },
                Some(m) => {
                    let ghost before = ms@;
                    ms.push(m);
                    assert(views(ms@) =~= views(before).push(ms@.last()@));
                },
            }
            i = i + 1;
        }
        Some(ms)
    }

    /// Matches each of `args[lo..hi]` against this repeated pattern: each
    /// variable of the pattern is bound to the list of what it matched, in
    /// order, and to an empty list where the range is empty.
    pub fn sequence_match(&self, args: &Vec<Cst>, lo: usize, hi: usize, pos: SrcPos, lits: &Vec<String>) -> (r: Option<Bindings>)
        requires
            lo <= hi <= args.len(),
        ensures
            opt_view(r) == seq_match_spec(self@, trees_of(args@), lo as nat, hi as nat, pos, strs_of(lits@)),
        decreases args, 1int, 0int,
    {
        let ms = match self.sequence_matches(args, lo, hi, lits) {
            None => return None,
            Some(ms) => ms,
        };
        let names = self.variable_names(lits);
        let r = zip_vars(&names, &ms, pos);
        assert(r@ =~= zipped(self@, views(ms@), pos, strs_of(lits@)));
        Some(r)
    }

    /// Matches `args[lo..]` against this repeated pattern up to the first
    /// argument that matches `delim`: each variable of the pattern bound to
    /// the list of what it matched, with the delimiter's bindings, and the
    /// index after the delimiter.
    pub fn sequence_match_until_delim(
        &self,
        delim: &MacroPattern,
        args: &Vec<Cst>,
        lo: usize,
        pos: SrcPos,
        lits: &Vec<String>,
    ) -> (r: Option<(Bindings, usize)>)
        requires
            lo <= args.len(),
        ensures
            match r {
                None => until_delim_spec(self@, delim@, trees_of(args@), lo as nat, pos, strs_of(lits@)) is None,
                Some((b, n)) => until_delim_spec(self@, delim@, trees_of(args@), lo as nat, pos, strs_of(lits@))
                    == Some((b@, n as nat)),
            },
            r matches Some((_, n)) ==> n <= args.len(),
        decreases args, 1int, 0int,
    {
        proof {
            lemma_trees_of(args@);
        }
        let ghost a = trees_of(args@);
        let ghost l = strs_of(lits@);
        let mut ms: Vec<Bindings> = Vec::new();
        let mut i: usize = lo;
        while i < args.len()
            invariant
                lo <= i <= args.len(),
                a == trees_of(args@),
                l == strs_of(lits@),
                a.len() == args.len(),
                forall|j: int| 0 <= j < args.len() ==> #[trigger] a[j] == tree_of(args@[j]),
                scan_spec(self@, delim@, a, lo as nat, l) == prepend(views(ms@), scan_spec(self@, delim@, a, i as nat, l)),
            decreases args.len() - i,
        {
            proof {
                assert(decreases_to!(args => args[i as int]));
            }
            if let Some(dm) = delim.match_(&args[i], lits) {
                let names = self.variable_names(lits);
                let mut vars = zip_vars(&names, &ms, pos);
                assert(vars@ =~= zipped(self@, views(ms@), pos, l));
                if shares_name(&vars, &dm) {
                    proof {
                        assert(views(ms@) + Seq::<Binds>::empty() =~= views(ms@));
                    }
                    return None;
                }
                proof {
                    assert(views(ms@) + Seq::<Binds>::empty() =~= views(ms@));
                }
                vars.extend(dm);
                return Some((vars, i + 1));
            }
            match self.match_(&args[i], lits) {
                None => return None,
                Some(m) => {
                    proof {
                        let ghost rest = scan_spec(self@, delim@, a, (i + 1) as nat, l);
                        if let Some((ms2, dm2, j2)) = rest {
                            assert(views(ms@) + (seq![m@] + ms2) =~= views(ms@).push(m@) + ms2);
                        }
                    }
                    let ghost before = ms@;
                    ms.push(m);
                    assert(views(ms@) =~= views(before).push(ms@.last()@));
                },
            }
            i = i + 1;
        }
        None
    }
}

/// Matches `args[ai..]` against the pattern list `ps[pi..]`, `pos` being
/// the position of the enclosing form. A pattern followed by `...` is
/// repeated: up to the first argument that matches the next pattern where
/// that one holds a literal, else over all but as many arguments as
/// patterns follow.
pub fn match_all(
    ps: &Vec<MacroPattern>,
    pi: usize,
    args: &Vec<Cst>,
    ai: usize,
    pos: SrcPos,
    lits: &Vec<String>,
) -> (r: Option<Bindings>)
    requires
        pi <= ps.len(),
        ai <= args.len(),
    ensures
        opt_view(r) == match_all_spec(pats_of(ps@), pi as nat, trees_of(args@), ai as nat, pos, strs_of(lits@)),
    decreases args, ps.len() - pi, 0int,
{
    proof {
        lemma_pats_of(ps@);
        lemma_trees_of(args@);
    }
    if pi >= ps.len() {
        if ai >= args.len() {
            Some(Bindings::new())
        } else {
            None
        }
    } else if pi + 1 < ps.len() && ps[pi + 1].is_ellipsis() {
        if pi + 2 < ps.len() && ps[pi + 2].contains_any_literal(lits) {
            match ps[pi].sequence_match_until_delim(&ps[pi + 2], args, ai, pos, lits) {
                None => None,
                Some((m, next)) => match match_all(ps, pi + 3, args, next, pos, lits) {
                    None => None,
                    Some(rest) => {
                        let mut m = m;
                        m.extend(rest);
                        Some(m)
                    },
                },
            }
        } else {
            let k = ps.len() - pi - 2;
            if args.len() - ai < k {
                None
            } else {
                let hi = args.len() - k;
                match ps[pi].sequence_match(args, ai, hi, pos, lits) {
                    None => None,
                    Some(m) => match match_all(ps, pi + 2, args, hi, pos, lits) {
                        None => None,
                        Some(rest) => {
                            let mut m = m;
                            m.extend(rest);
                            Some(m)
                        },
                    },
                }
            }
        }
    } else if ai >= args.len() {
        None
    } else {
        proof {
            assert(decreases_to!(args => args[ai as int]));
        }
        match ps[pi].match_(&args[ai], lits) {
            None => None,
            Some(m) => match match_all(ps, pi + 1, args, ai + 1, pos, lits) {
                None => None,
                Some(rest) => {
                    let mut m = m;
                    m.extend(rest);
                    Some(m)
                },
            },
        }
    }
}

} // verus!
