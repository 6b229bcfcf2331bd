use vstd::prelude::*;
use crate::cst::{SrcPos, Tree};
use crate::expand::{Reg, expand_spec, expand_upto, is_word_tree, program_spec, program_upto};
use crate::matcher::{Binds, binds, collect, match_all_spec, match_spec, scan_spec, seq_list, seq_match_spec, seq_matches, until_delim_spec, zipped};
use crate::pattern::{Pat, names, names_in};
use crate::subst::{at_iter, at_iter_upto, flatten_spec, iterations, max_len, max_len_upto, subst_spec, subst_upto};

verus! {

/// Whether expanding `t` with the macros of `reg` has nothing to do: no
/// definition and no invocation of a macro of `reg` outside quoted forms.
pub open spec fn inert(t: Tree, reg: Reg) -> bool
    decreases t, 0int,
{
    match t {
        Tree::SExpr(v, _) => if v.len() == 0 || is_word_tree(v[0], "quote"@) {
            true
        } else if is_word_tree(v[0], "def-macro"@) {
            false
        } else if v[0] is Ident && reg.dom().contains(v[0]->Ident_0) {
            false
        } else {
            all_inert(v, v.len() as int, reg)
        },
        _ => true,
    }
}

pub open spec fn all_inert(v: Seq<Tree>, n: int, reg: Reg) -> bool
    decreases v, n,
{
    n <= 0 || n > v.len() || (all_inert(v, n - 1, reg) && inert(v[n - 1], reg))
}

/// A form that defines no macro, outside quoted forms; in a pass, which
/// starts with no macros, it can invoke none either.
pub open spec fn macro_free(t: Tree) -> bool {
    inert(t, Reg::empty())
}

/// An inert tree expands to itself and leaves the registry as it was.
pub proof fn lemma_inert_unchanged(t: Tree, reg: Reg, fuel: nat)
    requires
        inert(t, reg),
    ensures
        expand_spec(t, reg, fuel) == Ok::<(Option<Tree>, Reg), crate::error::Fault>((Some(t), reg)),
    decreases t, 0int,
{
    if let Tree::SExpr(v, pos) = t {
        if v.len() > 0 && !is_word_tree(v[0], "quote"@) {
            lemma_inert_upto_unchanged(v, v.len() as int, reg, fuel);
            assert(v.take(v.len() as int) =~= v);
        }
    }
}

proof fn lemma_inert_upto_unchanged(v: Seq<Tree>, n: int, reg: Reg, fuel: nat)
    requires
        0 <= n <= v.len(),
        all_inert(v, n, reg),
    ensures
        expand_upto(v, n, reg, fuel) == Ok::<(Seq<Tree>, Reg), crate::error::Fault>((v.take(n), reg)),
    decreases v, n,
{
    if n > 0 {
        lemma_inert_upto_unchanged(v, n - 1, reg, fuel);
        lemma_inert_unchanged(v[n - 1], reg, fuel);
        assert(v.take(n - 1).push(v[n - 1]) =~= v.take(n));
    } else {
        assert(v.take(0) =~= Seq::<Tree>::empty());
    }
}

proof fn lemma_program_macro_free(ts: Seq<Tree>, n: int)
    requires
        0 <= n <= ts.len(),
        forall|i: int| 0 <= i < ts.len() ==> macro_free(#[trigger] ts[i]),
    ensures
        program_upto(ts, n) == Ok::<(Seq<Tree>, Reg), crate::error::Fault>((ts.take(n), Reg::empty())),
    decreases n,
{
    if n > 0 {
        lemma_program_macro_free(ts, n - 1);
        assert(macro_free(ts[n - 1]));
        lemma_inert_unchanged(ts[n - 1], Reg::empty(), crate::expand::MAX_EXPANSION_DEPTH as nat);
        assert(ts.take(n - 1).push(ts[n - 1]) =~= ts.take(n));
    } else {
        assert(ts.take(0) =~= Seq::<Tree>::empty());
    }
}

/// Expanding a program that defines no macro gives the program back, as it
/// was.
pub proof fn lemma_macro_free_program_unchanged(ts: Seq<Tree>)
    requires
        forall|i: int| 0 <= i < ts.len() ==> macro_free(#[trigger] ts[i]),
    ensures
        program_spec(ts) == Ok::<Seq<Tree>, crate::error::Fault>(ts),
{
    lemma_program_macro_free(ts, ts.len() as int);
    assert(ts.take(ts.len() as int) =~= ts);
}

/// Expanding the output of an expansion once more changes nothing, where
/// that output holds no macro definition outside quoted forms (a second pass
/// starts with no macros, so only a definition could give it work).
pub proof fn lemma_expansion_idempotent(ts: Seq<Tree>)
    requires
        program_spec(ts) is Ok,
        forall|i: int|
            0 <= i < program_spec(ts)->Ok_0.len() ==> macro_free(#[trigger] program_spec(ts)->Ok_0[i]),
    ensures
        program_spec(program_spec(ts)->Ok_0) == program_spec(ts),
{
    lemma_macro_free_program_unchanged(program_spec(ts)->Ok_0);
}

/// A name bound by a pattern of `ps` from the `pi`-th on.
pub open spec fn named_from(ps: Seq<Pat>, pi: int, k: Seq<char>, lits: Seq<Seq<char>>) -> bool {
    exists|j: int| pi <= j < ps.len() && #[trigger] names(ps[j], lits).contains(k)
}

proof fn lemma_names_in(ps: Seq<Pat>, k: Seq<char>, lits: Seq<Seq<char>>)
    requires
        named_from(ps, 0, k, lits),
    ensures
        names_in(ps, lits).contains(k),
    decreases ps.len(),
{
    let j = choose|j: int| 0 <= j < ps.len() && #[trigger] names(ps[j], lits).contains(k);
    let a = names_in(ps.drop_last(), lits);
    let b = names(ps.last(), lits);
    if j == ps.len() - 1 {
        let t = choose|t: int| 0 <= t < b.len() && b[t] == k;
        assert((a + b)[a.len() + t] == k);
    } else {
        assert(names(ps.drop_last()[j], lits).contains(k));
        lemma_names_in(ps.drop_last(), k, lits);
        let t = choose|t: int| 0 <= t < a.len() && a[t] == k;
        assert((a + b)[t] == k);
    }
}

proof fn lemma_scan_ends_at_delimiter(p: Pat, d: Pat, args: Seq<Tree>, i: nat, lits: Seq<Seq<char>>)
    requires
        scan_spec(p, d, args, i, lits) is Some,
    ensures
        ({
            let (ms, dm, j) = scan_spec(p, d, args, i, lits)->Some_0;
            i <= j < args.len() && match_spec(d, args[j as int], lits) == Some(dm)
        }),
    decreases args.len() - i,
{
    if i < args.len() && match_spec(d, args[i as int], lits) is None {
        lemma_scan_ends_at_delimiter(p, d, args, i + 1, lits);
    }
}

/// Every name that matching a tree against a pattern binds is one of the
/// pattern's variable names: seeding the lists of a repeat with those names,
/// as repeats do, leaves out no binding.
pub proof fn lemma_match_binds_pattern_names(p: Pat, t: Tree, lits: Seq<Seq<char>>)
    requires
        match_spec(p, t, lits) is Some,
    ensures
        forall|k: Seq<char>| #[trigger] match_spec(p, t, lits)->Some_0.dom().contains(k) ==> names(p, lits).contains(k),
    decreases t, 0int, 0int,
{
    let m = match_spec(p, t, lits)->Some_0;
    match p {
        Pat::Ident(n) => {
            assert forall|k: Seq<char>| #[trigger] m.dom().contains(k) implies names(p, lits).contains(k) by {
                assert(names(p, lits)[0] == n);
            }
        },
        Pat::SExpr(ps) => {
            if let Tree::SExpr(v, pos) = t {
                lemma_match_all_binds_pattern_names(ps, 0, v, 0, pos, lits);
                assert forall|k: Seq<char>| #[trigger] m.dom().contains(k) implies names(p, lits).contains(k) by {
                    lemma_names_in(ps, k, lits);
                }
            }
        },
        Pat::List(ps) => {
            if let Tree::List(v, pos) = t {
                lemma_match_all_binds_pattern_names(ps, 0, v, 0, pos, lits);
                assert forall|k: Seq<char>| #[trigger] m.dom().contains(k) implies names(p, lits).contains(k) by {
                    lemma_names_in(ps, k, lits);
                }
            }
        },
    }
}

proof fn lemma_match_all_binds_pattern_names(
    ps: Seq<Pat>,
    pi: nat,
    args: Seq<Tree>,
    ai: nat,
    pos: SrcPos,
    lits: Seq<Seq<char>>,
)
    requires
        match_all_spec(ps, pi, args, ai, pos, lits) is Some,
    ensures
        forall|k: Seq<char>|
            #[trigger] match_all_spec(ps, pi, args, ai, pos, lits)->Some_0.dom().contains(k) ==> named_from(ps, pi as int, k, lits),
    decreases args, ps.len() - pi, 0int,
{
    let m = match_all_spec(ps, pi, args, ai, pos, lits)->Some_0;
    if pi >= ps.len() {
    } else if pi + 1 < ps.len() && crate::pattern::is_ellipsis_pat(ps[pi + 1int]) {
        if pi + 2 < ps.len() && crate::pattern::has_literal(ps[pi + 2int], lits) {
            let (m1, next) = until_delim_spec(ps[pi as int], ps[pi + 2int], args, ai, pos, lits)->Some_0;
            let (ms, dm, j) = scan_spec(ps[pi as int], ps[pi + 2int], args, ai, lits)->Some_0;
            lemma_scan_ends_at_delimiter(ps[pi as int], ps[pi + 2int], args, ai, lits);
            assert(decreases_to!(args => args[j as int]));
            lemma_match_binds_pattern_names(ps[pi + 2int], args[j as int], lits);
            lemma_match_all_binds_pattern_names(ps, pi + 3, args, next, pos, lits);
            let vars = zipped(ps[pi as int], ms, pos, lits);
            assert forall|k: Seq<char>| #[trigger] m.dom().contains(k) implies named_from(ps, pi as int, k, lits) by {
                if vars.dom().contains(k) {
                    assert(names(ps[pi as int], lits).contains(k));
                } else if dm.dom().contains(k) {
                    assert(match_spec(ps[pi + 2int], args[j as int], lits) == Some(dm));
                    assert(match_spec(ps[pi + 2int], args[j as int], lits)->Some_0.dom().contains(k));
                    assert(names(ps[pi + 2int], lits).contains(k));
                } else {
                    assert(match_all_spec(ps, pi + 3, args, next, pos, lits)->Some_0.dom().contains(k));
                    let w = choose|w: int| pi + 3 <= w < ps.len() && #[trigger] names(ps[w], lits).contains(k);
                    assert(names(ps[w], lits).contains(k));
                }
            }
        } else {
            let k0 = ps.len() - pi - 2;
            let hi = (args.len() - k0) as nat;
            lemma_match_all_binds_pattern_names(ps, pi + 2, args, hi, pos, lits);
            assert forall|k: Seq<char>| #[trigger] m.dom().contains(k) implies named_from(ps, pi as int, k, lits) by {
                let z = seq_match_spec(ps[pi as int], args, ai, hi, pos, lits)->Some_0;
                if z.dom().contains(k) {
                    assert(names(ps[pi as int], lits).contains(k));
                } else {
                    assert(match_all_spec(ps, pi + 2, args, hi, pos, lits)->Some_0.dom().contains(k));
                    let w = choose|w: int| pi + 2 <= w < ps.len() && #[trigger] names(ps[w], lits).contains(k);
                    assert(names(ps[w], lits).contains(k));
                }
            }
        }
    } else {
        assert(decreases_to!(args => args[ai as int]));
        lemma_match_binds_pattern_names(ps[pi as int], args[ai as int], lits);
        lemma_match_all_binds_pattern_names(ps, pi + 1, args, ai + 1, pos, lits);
        assert forall|k: Seq<char>| #[trigger] m.dom().contains(k) implies named_from(ps, pi as int, k, lits) by {
            if match_spec(ps[pi as int], args[ai as int], lits)->Some_0.dom().contains(k) {
                assert(names(ps[pi as int], lits).contains(k));
            } else {
                assert(match_all_spec(ps, pi + 1, args, ai + 1, pos, lits)->Some_0.dom().contains(k));
                let w = choose|w: int| pi + 1 <= w < ps.len() && #[trigger] names(ps[w], lits).contains(k);
                assert(names(ps[w], lits).contains(k));
            }
        }
    }
}

pub open spec fn ellipsis() -> Seq<char> {
    "..."@
}

proof fn lemma_repeat_ident(b: Seq<char>, args: Seq<Tree>, n: nat, lits: Seq<Seq<char>>)
    requires
        1 <= n <= args.len(),
        !lits.contains(b),
    ensures
        seq_matches(Pat::Ident(b), args, 1, n, lits) is Some,
        collect(seq_matches(Pat::Ident(b), args, 1, n, lits)->Some_0, b) == args.subrange(1, n as int),
    decreases n,
{
    if n > 1 {
        lemma_repeat_ident(b, args, (n - 1) as nat, lits);
        let ms = seq_matches(Pat::Ident(b), args, 1, (n - 1) as nat, lits)->Some_0;
        assert(match_spec(Pat::Ident(b), args[n - 1], lits) == Some(binds(b, args[n - 1])));
        assert(ms.push(binds(b, args[n - 1])).drop_last() =~= ms);
        assert(args.subrange(1, n - 1).push(args[n - 1]) =~= args.subrange(1, n as int));
    } else {
        assert(args.subrange(1, 1) =~= Seq::<Tree>::empty());
    }
}

proof fn lemma_iterations_of_seq_var(b: Seq<char>, q: SrcPos, m: Binds, rest: Seq<Tree>, lp: SrcPos, n: nat)
    requires
        m.dom().contains(b),
        m[b] == (Tree::List(rest, lp), true),
        n <= rest.len(),
    ensures
        iterations(Tree::Ident(b, q), n, m) == rest.take(n as int),
    decreases n,
{
    if n > 0 {
        lemma_iterations_of_seq_var(b, q, m, rest, lp, (n - 1) as nat);
        assert(rest.take(n - 1).push(rest[n - 1]) =~= rest.take(n as int));
    }
}

/// Matching the pattern `(a b ...)` against a first argument and `N` more
/// binds `b` to the sequence of those `N` arguments, in their order (and `a`,
/// where it is another name, to the first); instantiating the template
/// `(b ...)` then gives exactly those `N` arguments, in their order.
pub proof fn lemma_ellipsis_zip(
    a: Seq<char>,
    b: Seq<char>,
    first: Tree,
    rest: Seq<Tree>,
    pos: SrcPos,
    lits: Seq<Seq<char>>,
    qb: SrcPos,
    qe: SrcPos,
    tpos: SrcPos,
)
    requires
        !lits.contains(a),
        !lits.contains(b),
        b != ellipsis(),
        b != "macro-quote"@,
    ensures
        ({
            let ps = seq![Pat::Ident(a), Pat::Ident(b), Pat::Ident(ellipsis())];
            let m = match_all_spec(ps, 0, seq![first] + rest, 0, pos, lits);
            let template = Tree::SExpr(seq![Tree::Ident(b, qb), Tree::Ident(ellipsis(), qe)], tpos);
            &&& m is Some
            &&& m->Some_0.dom().contains(b)
            &&& m->Some_0[b] == (seq_list(rest, pos), true)
            &&& a != b ==> m->Some_0.dom().contains(a) && m->Some_0[a] == (first, false)
            &&& subst_spec(template, m->Some_0) == Ok::<Tree, crate::error::Fault>(Tree::SExpr(rest, tpos))
        }),
{
    let ps = seq![Pat::Ident(a), Pat::Ident(b), Pat::Ident(ellipsis())];
    let args = seq![first] + rest;
    let n = args.len() as nat;
    assert(ps[1] == Pat::Ident("..."@) ==> false);
    assert(ps[2] == Pat::Ident("..."@));
    lemma_repeat_ident(b, args, n, lits);
    assert(args.subrange(1, n as int) =~= rest);
    let ms = seq_matches(Pat::Ident(b), args, 1, n, lits)->Some_0;
    assert(names(Pat::Ident(b), lits) == seq![b]);
    assert(seq![b].contains(b)) by {
        assert(seq![b][0] == b);
    }
    let z = zipped(Pat::Ident(b), ms, pos, lits);
    assert(z.dom().contains(b));
    assert(z[b] == (seq_list(rest, pos), true));
    assert(ps[0] == Pat::Ident(a) && ps[1] == Pat::Ident(b) && ps.len() == 3);
    assert(args[0] == first && args.len() == rest.len() + 1);
    assert(seq_match_spec(Pat::Ident(b), args, 1, n, pos, lits) == Some(z));
    let tail = match_all_spec(ps, 3, args, n, pos, lits);
    assert(tail == Some(Binds::empty()));
    let rep = match_all_spec(ps, 1, args, 1, pos, lits);
    assert(rep == Some(z.union_prefer_right(Binds::empty())));
    let m = match_all_spec(ps, 0, args, 0, pos, lits);
    assert(match_spec(Pat::Ident(a), args[0], lits) == Some(binds(a, first)));
    let mm = binds(a, first).union_prefer_right(z.union_prefer_right(Binds::empty()));
    assert(m == Some(mm));
    assert(mm.dom().contains(b));
    assert(mm[b] == (seq_list(rest, pos), true));
    let sl = seq_list(rest, pos);
    lemma_iterations_of_seq_var(b, qb, mm, rest, sl->List_1, rest.len());
    assert(rest.take(rest.len() as int) =~= rest);
    assert(max_len(Tree::Ident(b, qb), mm) == Some(rest.len()));
    assert(flatten_spec(Tree::Ident(b, qb), mm) == Ok::<Seq<Tree>, crate::error::Fault>(rest));
    let v = seq![Tree::Ident(b, qb), Tree::Ident(ellipsis(), qe)];
    assert(v[0] == Tree::Ident(b, qb) && v[1] == Tree::Ident(ellipsis(), qe) && v.len() == 2);
    assert(subst_upto(v, 0, mm) == Ok::<Seq<Tree>, crate::error::Fault>(Seq::<Tree>::empty()));
    assert(subst_upto(v, 1, mm) == Ok::<Seq<Tree>, crate::error::Fault>(Seq::<Tree>::empty() + rest));
    assert(Seq::<Tree>::empty() + rest =~= rest);
    assert(subst_upto(v, 2, mm) == Ok::<Seq<Tree>, crate::error::Fault>(rest));
}

/// In a repeated template region that holds a variable bound to a sequence
/// of `N` trees and a variable bound to a single tree of any shape, that one
/// tree is repeated, as it is, in each of the `N` instances.
pub proof fn lemma_singular_broadcast(
    s: Seq<char>,
    x: Seq<char>,
    seq_vals: Seq<Tree>,
    lp: SrcPos,
    w: Tree,
    m: Binds,
    qs: SrcPos,
    qx: SrcPos,
    p: SrcPos,
)
    requires
        s != x,
        m.dom().contains(s),
        m[s] == (Tree::List(seq_vals, lp), true),
        m.dom().contains(x),
        m[x] == (w, false),
    ensures
        flatten_spec(Tree::SExpr(seq![Tree::Ident(s, qs), Tree::Ident(x, qx)], p), m)
            == Ok::<Seq<Tree>, crate::error::Fault>(
            Seq::new(seq_vals.len(), |i: int| Tree::SExpr(seq![seq_vals[i], w], p)),
        ),
{
    let v = seq![Tree::Ident(s, qs), Tree::Ident(x, qx)];
    let region = Tree::SExpr(v, p);
    assert(v[0] == Tree::Ident(s, qs) && v[1] == Tree::Ident(x, qx) && v.len() == 2);
    assert(max_len(Tree::Ident(x, qx), m) is None);
    assert(max_len(Tree::Ident(s, qs), m) == Some(seq_vals.len()));
    assert(max_len_upto(v, 0, m) is None);
    assert(max_len_upto(v, 1, m) == Some(seq_vals.len()));
    assert(max_len(region, m) == Some(seq_vals.len()));
    lemma_broadcast_iterations(s, x, seq_vals, lp, w, m, qs, qx, p, seq_vals.len());
    assert(iterations(region, seq_vals.len(), m) =~= Seq::new(seq_vals.len(), |i: int| Tree::SExpr(seq![seq_vals[i], w], p)));
}

proof fn lemma_broadcast_iterations(
    s: Seq<char>,
    x: Seq<char>,
    seq_vals: Seq<Tree>,
    lp: SrcPos,
    w: Tree,
    m: Binds,
    qs: SrcPos,
    qx: SrcPos,
    p: SrcPos,
    n: nat,
)
    requires
        s != x,
        m.dom().contains(s),
        m[s] == (Tree::List(seq_vals, lp), true),
        m.dom().contains(x),
        m[x] == (w, false),
        n <= seq_vals.len(),
    ensures
        iterations(Tree::SExpr(seq![Tree::Ident(s, qs), Tree::Ident(x, qx)], p), n, m)
            =~= Seq::new(n, |i: int| Tree::SExpr(seq![seq_vals[i], w], p)),
    decreases n,
{
    let v = seq![Tree::Ident(s, qs), Tree::Ident(x, qx)];
    if n > 0 {
        lemma_broadcast_iterations(s, x, seq_vals, lp, w, m, qs, qx, p, (n - 1) as nat);
        let i = (n - 1) as nat;
        assert(v[0] == Tree::Ident(s, qs) && v[1] == Tree::Ident(x, qx) && v.len() == 2);
        assert(at_iter(Tree::Ident(s, qs), i, m) == Some(seq_vals[i as int]));
        assert(at_iter_upto(v, 0, i, m) == Seq::<Tree>::empty());
        assert(at_iter_upto(v, 1, i, m) =~= seq![seq_vals[i as int]]);
        assert(at_iter(Tree::Ident(x, qx), i, m) == Some(w));
        assert(at_iter_upto(v, 2, i, m) =~= seq![seq_vals[i as int], w]);
    }
}

} // verus!
