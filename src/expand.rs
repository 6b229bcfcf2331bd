use vstd::prelude::*;
use crate::cst::{Cst, SrcPos, Tree, copy_range, is_word, lemma_trees_of, lemma_trees_of_push, lemma_trees_of_subrange, pos_of, tag, tree_of, trees_of};
use crate::error::{Fault, MacroError};
use crate::matcher::match_args_spec;
use crate::pattern::{MacroPattern, Pat, parse_spec, strs_of};
use crate::subst::{subst_spec, subst_syntax_vars};

verus! {

/// How deeply macro expansions may nest before the pass is aborted.
pub const MAX_EXPANSION_DEPTH: usize = 256;

/// A macro: its syntax literals and its rules, each a pattern and a
/// template, tried in order.
#[derive(Debug)]
pub struct Macro {
    pub literals: Vec<String>,
    pub rules: Vec<(MacroPattern, Cst)>,
}

/// The model of a `Macro`.
pub struct MacroModel {
    pub lits: Seq<Seq<char>>,
    pub rules: Seq<(Pat, Tree)>,
}

pub open spec fn rule_of(r: (MacroPattern, Cst)) -> (Pat, Tree) {
    (r.0@, r.1@)
}

impl View for Macro {
    type V = MacroModel;

    open spec fn view(&self) -> MacroModel {
        MacroModel { lits: strs_of(self.literals@), rules: self.rules@.map_values(|r: (MacroPattern, Cst)| rule_of(r)) }
    }
}

/// The macros defined so far in one pass, by name.
#[derive(Debug)]
pub struct Registry {
    pub entries: Vec<(String, Macro)>,
}

pub type Reg = Map<Seq<char>, MacroModel>;

pub open spec fn reg_of(s: Seq<(String, Macro)>) -> Reg
    decreases s.len(),
{
    if s.len() == 0 {
        Map::empty()
    } else {
        reg_of(s.drop_last()).insert(s.last().0@, s.last().1@)
    }
}

impl View for Registry {
    type V = Reg;

    open spec fn view(&self) -> Reg {
        reg_of(self.entries@)
    }
}

proof fn lemma_reg_of_tail_free(s: Seq<(String, Macro)>, n: int, k: Seq<char>)
    requires
        0 <= n <= s.len(),
        forall|j: int| n <= j < s.len() ==> s[j].0@ != k,
    ensures
        reg_of(s).dom().contains(k) == reg_of(s.take(n)).dom().contains(k),
        reg_of(s).dom().contains(k) ==> reg_of(s)[k] == reg_of(s.take(n))[k],
    decreases s.len(),
{
    if n < s.len() {
        assert(s.drop_last().take(n) =~= s.take(n));
        lemma_reg_of_tail_free(s.drop_last(), n, k);
    } else {
        assert(s.take(n) =~= s);
    }
}

impl Registry {
    pub fn new() -> (r: Registry)
        ensures
            r@ == Reg::empty(),
    {
        Registry { entries: Vec::new() }
    }

    /// Where the macro `name` is held, if it is defined.
    pub fn find(&self, name: &String) -> (r: Option<usize>)
        ensures
            r is Some == self@.dom().contains(name@),
            r matches Some(i) ==> i < self.entries.len() && self@[name@] == self.entries@[i as int].1@,
    {
        let mut i: usize = self.entries.len();
        while i > 0
            invariant
                i <= self.entries.len(),
                forall|j: int| i <= j < self.entries.len() ==> self.entries@[j].0@ != name@,
            decreases i,
        {
            if self.entries[i - 1].0 == *name {
                proof {
                    lemma_reg_of_tail_free(self.entries@, i as int, name@);
                    assert(self.entries@.take(i as int).drop_last() =~= self.entries@.take(i - 1));
                }
                return Some(i - 1);
            }
            i = i - 1;
        }
        proof {
            lemma_reg_of_tail_free(self.entries@, 0, name@);
        }
        None
    }

    /// Defines the macro `name`.
    pub fn insert(&mut self, name: String, m: Macro)
        ensures
            final(self)@ == old(self)@.insert(name@, m@),
    {
        proof {
            assert(old(self).entries@.push((name, m)).drop_last() =~= old(self).entries@);
        }
        self.entries.push((name, m));
    }
}

/// The syntax literals that a bracket list of identifiers names.
pub open spec fn literals_spec(t: Tree) -> Result<Seq<Seq<char>>, Fault> {
    match t {
        Tree::List(items, _) => literals_upto(items, items.len() as int),
        _ => Err(Fault::MalformedDefinition(pos_of(t))),
    }
}

pub open spec fn literals_upto(items: Seq<Tree>, n: int) -> Result<Seq<Seq<char>>, Fault>
    decreases n,
{
    if n <= 0 || n > items.len() {
        Ok(Seq::empty())
    } else {
        match literals_upto(items, n - 1) {
            Err(e) => Err(e),
            Ok(acc) => match items[n - 1] {
                Tree::Ident(s, _) => Ok(acc.push(s)),
                other => Err(Fault::MalformedDefinition(pos_of(other))),
            },
        }
    }
}

/// A rule: a bracket list of a pattern and a template.
pub open spec fn rule_spec(t: Tree, lits: Seq<Seq<char>>) -> Result<(Pat, Tree), Fault> {
    match t {
        Tree::List(parts, p) => if parts.len() != 2 {
            Err(Fault::MalformedDefinition(p))
        } else {
            match parse_spec(parts[0], lits) {
                Err(e) => Err(e),
                Ok(pat) => Ok((pat, parts[1])),
            }
        },
        _ => Err(Fault::MalformedDefinition(pos_of(t))),
    }
}

/// The rules `v[from..n]`, in order.
pub open spec fn rules_upto(v: Seq<Tree>, from: int, n: int, lits: Seq<Seq<char>>) -> Result<Seq<(Pat, Tree)>, Fault>
    decreases n - from,
{
    if n <= from || n > v.len() {
        Ok(Seq::empty())
    } else {
        match rules_upto(v, from, n - 1, lits) {
            Err(e) => Err(e),
            Ok(acc) => match rule_spec(v[n - 1], lits) {
                Err(e) => Err(e),
                Ok(r) => Ok(acc.push(r)),
            },
        }
    }
}

/// The registry after the definition `(def-macro name [literal ...] rule ...)`,
/// whose elements are `v`, at `pos`.
pub open spec fn define_spec(v: Seq<Tree>, pos: SrcPos, reg: Reg) -> Result<Reg, Fault> {
    if v.len() < 2 {
        Err(Fault::MalformedDefinition(pos))
    } else if !(v[1] is Ident) {
        Err(Fault::MalformedDefinition(pos_of(v[1])))
    } else if v.len() < 3 {
        Err(Fault::MalformedDefinition(pos))
    } else {
        let name = v[1]->Ident_0;
        match literals_spec(v[2]) {
            Err(e) => Err(e),
            Ok(lits) => match rules_upto(v, 3, v.len() as int, lits) {
                Err(e) => Err(e),
                Ok(rules) => if reg.dom().contains(name) {
                    Err(Fault::DuplicateMacroName(name, pos))
                } else {
                    Ok(reg.insert(name, MacroModel { lits, rules }))
                },
            },
        }
    }
}

pub open spec fn site_of(pos: SrcPos) -> (usize, usize) {
    (pos.start, pos.end)
}

/// The invocation whose elements are `v`, at `pos`, rewritten by the first
/// rule from the `k`-th on whose pattern matches its arguments.
pub open spec fn rewrite_from(m: MacroModel, v: Seq<Tree>, pos: SrcPos, k: int) -> Result<Tree, Fault>
    decreases m.rules.len() - k,
{
    if k < 0 || k >= m.rules.len() {
        Err(Fault::NoRuleMatched(v.subrange(1, v.len() as int), pos))
    } else {
        match match_args_spec(m.rules[k].0, v, 1, pos, m.lits) {
            Some(b) => match subst_spec(m.rules[k].1, b) {
                Err(e) => Err(e),
                Ok(x) => Ok(tag(x, site_of(pos))),
            },
            None => rewrite_from(m, v, pos, k + 1),
        }
    }
}

pub open spec fn is_word_tree(t: Tree, w: Seq<char>) -> bool {
    t matches Tree::Ident(s, _) && s == w
}

/// Expanding `t` with the macros of `reg`, where expansions may still nest
/// `fuel` deep: the tree, or `None` for a definition, and the registry after.
pub open spec fn expand_spec(t: Tree, reg: Reg, fuel: nat) -> Result<(Option<Tree>, Reg), Fault>
    decreases fuel, t, 0int,
{
    match t {
        Tree::SExpr(v, pos) => if v.len() == 0 {
            Ok((Some(t), reg))
        } else if is_word_tree(v[0], "quote"@) {
            Ok((Some(t), reg))
        } else if is_word_tree(v[0], "def-macro"@) {
            match define_spec(v, pos, reg) {
                Err(e) => Err(e),
                Ok(r2) => Ok((None, r2)),
            }
        } else if v[0] is Ident && reg.dom().contains(v[0]->Ident_0) {
            match rewrite_from(reg[v[0]->Ident_0], v, pos, 0) {
                Err(e) => Err(e),
                Ok(x) => if fuel == 0 {
                    Err(Fault::RecursionLimitExceeded(pos))
                } else {
                    expand_spec(x, reg, (fuel - 1) as nat)
                },
            }
        } else {
            match expand_upto(v, v.len() as int, reg, fuel) {
                Err(e) => Err(e),
                Ok((items, r2)) => Ok((Some(Tree::SExpr(items, pos)), r2)),
            }
        },
        _ => Ok((Some(t), reg)),
    }
}

pub open spec fn opt_push(s: Seq<Tree>, o: Option<Tree>) -> Seq<Tree> {
    match o {
        Some(x) => s.push(x),
        None => s,
    }
}

/// Expanding `v[..n]` in order, the registry passed along; children that
/// vanish are dropped.
pub open spec fn expand_upto(v: Seq<Tree>, n: int, reg: Reg, fuel: nat) -> Result<(Seq<Tree>, Reg), Fault>
    decreases fuel, v, n,
{
    if n <= 0 || n > v.len() {
        Ok((Seq::empty(), reg))
    } else {
        match expand_upto(v, n - 1, reg, fuel) {
            Err(e) => Err(e),
            Ok((acc, r1)) => match expand_spec(v[n - 1], r1, fuel) {
                Err(e) => Err(e),
                Ok((o, r2)) => Ok((opt_push(acc, o), r2)),
            },
        }
    }
}

/// Expanding the top-level forms `ts[..n]` in order with one registry.
pub open spec fn program_upto(ts: Seq<Tree>, n: int) -> Result<(Seq<Tree>, Reg), Fault>
    decreases n,
{
    if n <= 0 || n > ts.len() {
        Ok((Seq::empty(), Reg::empty()))
    } else {
        match program_upto(ts, n - 1) {
            Err(e) => Err(e),
            Ok((acc, r1)) => match expand_spec(ts[n - 1], r1, MAX_EXPANSION_DEPTH as nat) {
                Err(e) => Err(e),
                Ok((o, r2)) => Ok((opt_push(acc, o), r2)),
            },
        }
    }
}

/// What expanding a whole program gives.
pub open spec fn program_spec(ts: Seq<Tree>) -> Result<Seq<Tree>, Fault> {
    match program_upto(ts, ts.len() as int) {
        Err(e) => Err(e),
        Ok((out, _)) => Ok(out),
    }
}

/// Every macro of `old` is still in `new`, unchanged.
pub open spec fn keeps(old: Reg, new: Reg) -> bool {
    forall|k: Seq<char>| #[trigger] old.dom().contains(k) ==> new.dom().contains(k) && new[k] == old[k]
}

pub open spec fn opt_tree(o: Option<Cst>) -> Option<Tree> {
    match o {
        Some(c) => Some(c@),
        None => None,
    }
}

/// Reads a bracket list of identifiers as syntax literals.
pub fn parse_syntax_literals(t: &Cst) -> (r: Result<Vec<String>, MacroError>)
    ensures
        match r {
            Ok(l) => literals_spec(t@) == Ok::<Seq<Seq<char>>, Fault>(strs_of(l@)),
            Err(e) => literals_spec(t@) == Err::<Seq<Seq<char>>, Fault>(e@),
        },
{
    match t {
        Cst::List(items, _) => {
            proof {
                lemma_trees_of(items@);
            }
            let mut out: Vec<String> = Vec::new();
            assert(strs_of(out@) =~= Seq::<Seq<char>>::empty());
            let mut i: usize = 0;
            while i < items.len()
                invariant
                    i <= items.len(),
                    trees_of(items@).len() == items.len(),
                    forall|j: int| 0 <= j < items.len() ==> #[trigger] trees_of(items@)[j] == tree_of(items@[j]),
                    literals_upto(trees_of(items@), i as int) == Ok::<Seq<Seq<char>>, Fault>(strs_of(out@)),
                    literals_spec(t@) == literals_upto(trees_of(items@), items.len() as int),
                decreases items.len() - i,
            {
                match &items[i] {
                    Cst::Ident(s, _) => {
                        let ghost before = out@;
                        out.push(s.clone());
                        assert(strs_of(out@) =~= strs_of(before).push(s@));
                    },
                    other => {
                        proof {
                            lemma_literals_err(trees_of(items@), i as int + 1, items.len() as int);
                        }
                        return Err(MacroError::MalformedDefinition(other.pos()));
                    },
                }
                i = i + 1;
            }
            Ok(out)
        },
        _ => Err(MacroError::MalformedDefinition(t.pos())),
    }
}

proof fn lemma_literals_err(v: Seq<Tree>, n: int, m: int)
    requires
        0 < n <= m <= v.len(),
        literals_upto(v, n) is Err,
    ensures
        literals_upto(v, m) == literals_upto(v, n),
    decreases m - n,
{
    if n < m {
        lemma_literals_err(v, n, m - 1);
    }
}

proof fn lemma_rules_err(v: Seq<Tree>, from: int, n: int, m: int, lits: Seq<Seq<char>>)
    requires
        from < n <= m <= v.len(),
        rules_upto(v, from, n, lits) is Err,
    ensures
        rules_upto(v, from, m, lits) == rules_upto(v, from, n, lits),
    decreases m - n,
{
    if n < m {
        lemma_rules_err(v, from, n, m - 1, lits);
    }
}

/// Reads one rule: a bracket list of a pattern and a template.
fn parse_rule(t: &Cst, lits: &Vec<String>) -> (r: Result<(MacroPattern, Cst), MacroError>)
    ensures
        match r {
            Ok(x) => rule_spec(t@, strs_of(lits@)) == Ok::<(Pat, Tree), Fault>(rule_of(x)),
            Err(e) => rule_spec(t@, strs_of(lits@)) == Err::<(Pat, Tree), Fault>(e@),
        },
{
    match t {
        Cst::List(parts, p) => {
            proof {
                lemma_trees_of(parts@);
            }
            if parts.len() != 2 {
                Err(MacroError::MalformedDefinition(*p))
            } else {
                let pat = MacroPattern::parse(&parts[0], lits)?;
                Ok((pat, parts[1].copy()))
            }
        },
        _ => Err(MacroError::MalformedDefinition(t.pos())),
    }
}

/// Reads the rules `v[from..]` of a definition.
pub fn parse_syntax_rules(v: &Vec<Cst>, from: usize, lits: &Vec<String>) -> (r: Result<Vec<(MacroPattern, Cst)>, MacroError>)
    requires
        from <= v.len(),
    ensures
        match r {
            Ok(rs) => rules_upto(trees_of(v@), from as int, v.len() as int, strs_of(lits@))
                == Ok::<Seq<(Pat, Tree)>, Fault>(rs@.map_values(|x: (MacroPattern, Cst)| rule_of(x))),
            Err(e) => rules_upto(trees_of(v@), from as int, v.len() as int, strs_of(lits@)) == Err::<Seq<(Pat, Tree)>, Fault>(e@),
        },
{
    proof {
        lemma_trees_of(v@);
    }
    let mut out: Vec<(MacroPattern, Cst)> = Vec::new();
    assert(out@.map_values(|x: (MacroPattern, Cst)| rule_of(x)) =~= Seq::<(Pat, Tree)>::empty());
    let mut i: usize = from;
    while i < v.len()
        invariant
            from <= i <= v.len(),
            trees_of(v@).len() == v.len(),
            forall|j: int| 0 <= j < v.len() ==> #[trigger] trees_of(v@)[j] == tree_of(v@[j]),
            rules_upto(trees_of(v@), from as int, i as int, strs_of(lits@))
                == Ok::<Seq<(Pat, Tree)>, Fault>(out@.map_values(|x: (MacroPattern, Cst)| rule_of(x))),
        decreases v.len() - i,
    {
        match parse_rule(&v[i], lits) {
            Ok(x) => {
                let ghost before = out@;
                out.push(x);
                assert(out@.map_values(|x: (MacroPattern, Cst)| rule_of(x)) =~= before.map_values(
                    |x: (MacroPattern, Cst)| rule_of(x),
                ).push(rule_of(out@.last())));
            },
            Err(e) => {
                proof {
                    lemma_rules_err(trees_of(v@), from as int, i as int + 1, v.len() as int, strs_of(lits@));
                }
                return Err(e);
            },
        }
        i = i + 1;
    }
    Ok(out)
}

/// Defines the macro that the form with elements `v` at `pos` spells:
/// `(def-macro name [literal ...] [pattern template] ...)`.
pub fn define_macro(v: &Vec<Cst>, pos: SrcPos, reg: &mut Registry) -> (r: Result<(), MacroError>)
    ensures
        match r {
            Ok(_) => define_spec(trees_of(v@), pos, old(reg)@) == Ok::<Reg, Fault>(final(reg)@),
            Err(e) => define_spec(trees_of(v@), pos, old(reg)@) == Err::<Reg, Fault>(e@),
        },
        keeps(old(reg)@, final(reg)@),
{
    proof {
        lemma_trees_of(v@);
    }
    if v.len() < 2 {
        return Err(MacroError::MalformedDefinition(pos));
    }
    let name = match &v[1] {
        Cst::Ident(n, _) => n,
        other => return Err(MacroError::MalformedDefinition(other.pos())),
    };
    if v.len() < 3 {
        return Err(MacroError::MalformedDefinition(pos));
    }
    let literals = parse_syntax_literals(&v[2])?;
    let rules = parse_syntax_rules(v, 3, &literals)?;
    if reg.find(name).is_some() {
        return Err(MacroError::DuplicateMacroName(name.clone(), pos));
    }
    let m = Macro { literals, rules };
    reg.insert(name.clone(), m);
    Ok(())
}

impl Macro {
    /// Rewrites the invocation with elements `v` at `pos` by the first rule
    /// whose pattern matches its arguments; the result is marked as produced
    /// at `pos`.
    pub fn apply_to(&self, v: &Vec<Cst>, pos: SrcPos) -> (r: Result<Cst, MacroError>)
        requires
            v.len() >= 1,
        ensures
            match r {
                Ok(c) => rewrite_from(self@, trees_of(v@), pos, 0) == Ok::<Tree, Fault>(c@),
                Err(e) => rewrite_from(self@, trees_of(v@), pos, 0) == Err::<Tree, Fault>(e@),
            },
    {
        proof {
            lemma_trees_of(v@);
        }
        let mut k: usize = 0;
        while k < self.rules.len()
            invariant
                v.len() >= 1,
                trees_of(v@).len() == v.len(),
                k <= self.rules.len(),
                rewrite_from(self@, trees_of(v@), pos, 0) == rewrite_from(self@, trees_of(v@), pos, k as int),
            decreases self.rules.len() - k,
        {
            let rule = &self.rules[k];
            assert(self@.rules[k as int] == rule_of(*rule));
            match rule.0.match_list(v, 1, pos, &self.literals) {
                Some(b) => {
                    let x = subst_syntax_vars(&rule.1, &b)?;
                    return Ok(x.with_expansion_site((pos.start, pos.end)));
                },
                None => {},
            }
            k = k + 1;
        }
        let rest = copy_range(v, 1, v.len());
        proof {
            lemma_trees_of_subrange(v@, 1, v.len() as int);
        }
        Err(MacroError::NoRuleMatched(rest, pos))
    }
}

fn is_word_cst(c: &Cst, w: &str) -> (r: bool)
    ensures
        r == is_word_tree(c@, w@),
{
    match c {
        Cst::Ident(s, _) => is_word(s, w),
        _ => false,
    }
}

/// Expands `cst` with the macros of `reg`, expansions nesting at most
/// `fuel` deep: defines the macro of a definition, which vanishes (`None`);
/// rewrites an invocation and expands what it gives; leaves a quoted form as
/// it is; expands the elements of another form in order.
pub fn expand_cst_macros(cst: &Cst, reg: &mut Registry, fuel: usize) -> (r: Result<Option<Cst>, MacroError>)
    ensures
        match r {
            Ok(o) => expand_spec(cst@, old(reg)@, fuel as nat) == Ok::<(Option<Tree>, Reg), Fault>((opt_tree(o), final(reg)@)),
            Err(e) => expand_spec(cst@, old(reg)@, fuel as nat) == Err::<(Option<Tree>, Reg), Fault>(e@),
        },
        keeps(old(reg)@, final(reg)@),
    decreases fuel, cst, 0int,
{
    match cst {
        Cst::SExpr(v, pos) => {
            proof {
                lemma_trees_of(v@);
            }
            if v.len() == 0 {
                return Ok(Some(cst.copy()));
            }
            if is_word_cst(&v[0], "quote") {
                return Ok(Some(cst.copy()));
            }
            if is_word_cst(&v[0], "def-macro") {
                define_macro(v, *pos, reg)?;
                return Ok(None);
            }
            let found = match &v[0] {
                Cst::Ident(name, _) => reg.find(name),
                _ => None,
            };
            match found {
                Some(idx) => {
                    let x = reg.entries[idx].1.apply_to(v, *pos)?;
                    if fuel == 0 {
                        return Err(MacroError::RecursionLimitExceeded(*pos));
                    }
                    expand_cst_macros(&x, reg, fuel - 1)
                },
                None => {
                    let items = expand_vec(v, reg, fuel)?;
                    Ok(Some(Cst::SExpr(items, *pos)))
                },
            }
        },
        _ => Ok(Some(cst.copy())),
    }
}

fn expand_vec(v: &Vec<Cst>, reg: &mut Registry, fuel: usize) -> (r: Result<Vec<Cst>, MacroError>)
    ensures
        match r {
            Ok(items) => expand_upto(trees_of(v@), trees_of(v@).len() as int, old(reg)@, fuel as nat)
                == Ok::<(Seq<Tree>, Reg), Fault>((trees_of(items@), final(reg)@)),
            Err(e) => expand_upto(trees_of(v@), trees_of(v@).len() as int, old(reg)@, fuel as nat)
                == Err::<(Seq<Tree>, Reg), Fault>(e@),
        },
        keeps(old(reg)@, final(reg)@),
    decreases fuel, v, 0int,
{
    proof {
        lemma_trees_of(v@);
    }
    let mut out: Vec<Cst> = Vec::new();
    let mut i: usize = 0;
    while i < v.len()
        invariant
            i <= v.len(),
            trees_of(v@).len() == v.len(),
            forall|j: int| 0 <= j < v.len() ==> #[trigger] trees_of(v@)[j] == tree_of(v@[j]),
            expand_upto(trees_of(v@), i as int, old(reg)@, fuel as nat) == Ok::<(Seq<Tree>, Reg), Fault>((trees_of(out@), reg@)),
            keeps(old(reg)@, reg@),
        decreases v.len() - i,
    {
        proof {
            assert(decreases_to!(v => v[i as int]));
        }
        match expand_cst_macros(&v[i], reg, fuel) {
            Ok(Some(c)) => {
                proof {
                    lemma_trees_of_push(out@, c);
                }
                out.push(c);
            },
            Ok(None) => {},
            Err(e) => {
                proof {
                    lemma_expand_upto_err(trees_of(v@), i as int + 1, v.len() as int, old(reg)@, fuel as nat);
                }
                return Err(e);
            },
        }
        i = i + 1;
    }
    Ok(out)
}

proof fn lemma_expand_upto_err(v: Seq<Tree>, n: int, m: int, reg: Reg, fuel: nat)
    requires
        0 < n <= m <= v.len(),
        expand_upto(v, n, reg, fuel) is Err,
    ensures
        expand_upto(v, m, reg, fuel) == expand_upto(v, n, reg, fuel),
    decreases m - n,
{
    if n < m {
        lemma_expand_upto_err(v, n, m - 1, reg, fuel);
    }
}

proof fn lemma_program_err(v: Seq<Tree>, n: int, m: int)
    requires
        0 < n <= m <= v.len(),
        program_upto(v, n) is Err,
    ensures
        program_upto(v, m) == program_upto(v, n),
    decreases m - n,
{
    if n < m {
        lemma_program_err(v, n, m - 1);
    }
}

/// Defines and expands every macro of the top-level forms `trees`, in
/// order, with one registry for the whole pass: the forms that remain, or
/// the first error.
pub fn expand_macros(trees: &Vec<Cst>) -> (r: Result<Vec<Cst>, MacroError>)
    ensures
        match r {
            Ok(out) => program_spec(trees_of(trees@)) == Ok::<Seq<Tree>, Fault>(trees_of(out@)),
            Err(e) => program_spec(trees_of(trees@)) == Err::<Seq<Tree>, Fault>(e@),
        },
{
    proof {
        lemma_trees_of(trees@);
    }
    let mut reg = Registry::new();
    let mut out: Vec<Cst> = Vec::new();
    let mut i: usize = 0;
    while i < trees.len()
        invariant
            i <= trees.len(),
            trees_of(trees@).len() == trees.len(),
            forall|j: int| 0 <= j < trees.len() ==> #[trigger] trees_of(trees@)[j] == tree_of(trees@[j]),
            program_upto(trees_of(trees@), i as int) == Ok::<(Seq<Tree>, Reg), Fault>((trees_of(out@), reg@)),
        decreases trees.len() - i,
    {
        match expand_cst_macros(&trees[i], &mut reg, MAX_EXPANSION_DEPTH) {
            Ok(Some(c)) => {
                proof {
                    lemma_trees_of_push(out@, c);
                }
                out.push(c);
            },
            Ok(None) => {},
            Err(e) => {
                proof {
                    lemma_program_err(trees_of(trees@), i as int + 1, trees.len() as int);
                }
                return Err(e);
            },
        }
        i = i + 1;
    }
    Ok(out)
}

} // verus!
