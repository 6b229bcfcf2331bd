use vstd::prelude::*;
use crate::cst::{Cst, Tree, is_word, lemma_trees_of, lemma_trees_of_push, lemma_trees_of_take, trees_of};
use crate::error::{Fault, MacroError};

verus! {

/// A compiled macro pattern.
#[derive(Debug, PartialEq, Eq)]
pub enum MacroPattern {
    Ident(String),
    SExpr(Vec<MacroPattern>),
    List(Vec<MacroPattern>),
}

/// The model of a `MacroPattern`.
pub enum Pat {
    Ident(Seq<char>),
    SExpr(Seq<Pat>),
    List(Seq<Pat>),
}

pub open spec fn pat_of(p: MacroPattern) -> Pat
    decreases p,
{
    match p {
        MacroPattern::Ident(s) => Pat::Ident(s@),
        MacroPattern::SExpr(v) => Pat::SExpr(pats_of(v@)),
        MacroPattern::List(v) => Pat::List(pats_of(v@)),
    }
}

pub open spec fn pats_of(s: Seq<MacroPattern>) -> Seq<Pat>
    decreases s,
{
    if s.len() == 0 {
        Seq::empty()
    } else {
        pats_of(s.drop_last()).push(pat_of(s.last()))
    }
}

impl View for MacroPattern {
    type V = Pat;

    open spec fn view(&self) -> Pat {
        pat_of(*self)
    }
}

pub broadcast proof fn lemma_pats_of(s: Seq<MacroPattern>)
    ensures
        #[trigger] pats_of(s).len() == s.len(),
        forall|i: int| 0 <= i < s.len() ==> #[trigger] pats_of(s)[i] == pat_of(s[i]),
    decreases s.len(),
{
    if s.len() > 0 {
        lemma_pats_of(s.drop_last());
    }
}

pub proof fn lemma_pats_of_push(s: Seq<MacroPattern>, p: MacroPattern)
    ensures
        pats_of(s.push(p)) == pats_of(s).push(pat_of(p)),
{
    assert(s.push(p).drop_last() =~= s);
}

/// The model of a set of syntax literals.
pub open spec fn strs_of(v: Seq<String>) -> Seq<Seq<char>> {
    v.map_values(|s: String| s@)
}

/// Whether `name` is one of the syntax literals.
pub fn is_literal(lits: &Vec<String>, name: &String) -> (r: bool)
    ensures
        r == strs_of(lits@).contains(name@),
{
    let mut i: usize = 0;
    while i < lits.len()
        invariant
            i <= lits.len(),
            forall|j: int| 0 <= j < i ==> lits@[j]@ != name@,
        decreases lits.len() - i,
    {
        if lits[i] == *name {
            assert(strs_of(lits@)[i as int] == name@);
            return true;
        }
        i = i + 1;
    }
    proof {
        if strs_of(lits@).contains(name@) {
            let j = choose|j: int| 0 <= j < strs_of(lits@).len() && strs_of(lits@)[j] == name@;
            assert(lits@[j]@ == name@);
        }
    }
    false
}

/// Whether the pattern holds a syntax literal anywhere.
pub open spec fn has_literal(p: Pat, lits: Seq<Seq<char>>) -> bool
    decreases p,
{
    match p {
        Pat::Ident(n) => lits.contains(n),
        Pat::SExpr(v) => any_has_literal(v, lits),
        Pat::List(v) => any_has_literal(v, lits),
    }
}

pub open spec fn any_has_literal(v: Seq<Pat>, lits: Seq<Seq<char>>) -> bool
    decreases v,
{
    v.len() > 0 && (any_has_literal(v.drop_last(), lits) || has_literal(v.last(), lits))
}

/// The names that matching the pattern binds, in order of appearance.
pub open spec fn names(p: Pat, lits: Seq<Seq<char>>) -> Seq<Seq<char>>
    decreases p,
{
    match p {
        Pat::Ident(n) => if lits.contains(n) {
            Seq::empty()
        } else {
            seq![n]
        },
        Pat::SExpr(v) => names_in(v, lits),
        Pat::List(v) => names_in(v, lits),
    }
}

pub open spec fn names_in(v: Seq<Pat>, lits: Seq<Seq<char>>) -> Seq<Seq<char>>
    decreases v,
{
    if v.len() == 0 {
        Seq::empty()
    } else {
        names_in(v.drop_last(), lits) + names(v.last(), lits)
    }
}

pub open spec fn is_ellipsis_pat(p: Pat) -> bool {
    p == Pat::Ident("..."@)
}

/// Words joined with one space between each two.
pub open spec fn joined(words: Seq<Seq<char>>) -> Seq<char>
    decreases words.len(),
{
    if words.len() == 0 {
        Seq::empty()
    } else if words.len() == 1 {
        words[0]
    } else {
        joined(words.drop_last()) + " "@ + words.last()
    }
}

/// Relies on itertools::Itertools::intersperse: the separator goes between
/// each two consecutive words, and collecting the items into a `String`
/// concatenates them.
#[verifier::external_body]
fn join_words(words: Vec<String>) -> (r: String)
    ensures
        r@ == joined(strs_of(words@)),
{
    itertools::Itertools::intersperse(words.into_iter(), String::from(" ")).collect::<String>()
}

/// How a pattern is written: `name`, `(p ...)` or `[p ...]`.
pub open spec fn render_spec(p: Pat) -> Seq<char>
    decreases p,
{
    match p {
        Pat::Ident(s) => s,
        Pat::SExpr(v) => "("@ + joined(render_all(v)) + ")"@,
        Pat::List(v) => "["@ + joined(render_all(v)) + "]"@,
    }
}

pub open spec fn render_all(v: Seq<Pat>) -> Seq<Seq<char>>
    decreases v,
{
    if v.len() == 0 {
        Seq::empty()
    } else {
        render_all(v.drop_last()).push(render_spec(v.last()))
    }
}

/// Scanning `v[..n]` for repeats: `None` once two repeats have no literal
/// between them, else whether a repeat is open.
pub open spec fn repeat_state(v: Seq<Pat>, lits: Seq<Seq<char>>, n: int) -> Option<bool>
    decreases n,
{
    if n <= 0 {
        Some(false)
    } else {
        match repeat_state(v, lits, n - 1) {
            None => None,
            Some(open) => if is_ellipsis_pat(v[n - 1]) {
                if open {
                    None
                } else {
                    Some(true)
                }
            } else if has_literal(v[n - 1], lits) {
                Some(false)
            } else {
                Some(open)
            },
        }
    }
}

/// Whether the repeats of a pattern list can be matched in one way only.
pub open spec fn unambiguous(v: Seq<Pat>, lits: Seq<Seq<char>>) -> bool {
    (v.len() > 0 && v[0] == Pat::Ident("macro-escape"@)) || repeat_state(v, lits, v.len() as int)
        is Some
}

/// The pattern that a tree spells, or why it spells none.
pub open spec fn parse_spec(t: Tree, lits: Seq<Seq<char>>) -> Result<Pat, Fault>
    decreases t,
{
    match t {
        Tree::Ident(n, _) => Ok(Pat::Ident(n)),
        Tree::SExpr(v, p) => match parse_all(v, lits) {
            Err(e) => Err(e),
            Ok(ps) => if unambiguous(ps, lits) {
                Ok(Pat::SExpr(ps))
            } else {
                Err(Fault::AmbiguousPattern(p))
            },
        },
        Tree::List(v, p) => match parse_all(v, lits) {
            Err(e) => Err(e),
            Ok(ps) => if unambiguous(ps, lits) {
                Ok(Pat::List(ps))
            } else {
                Err(Fault::AmbiguousPattern(p))
            },
        },
        Tree::Literal(_, p) => Err(Fault::MalformedPattern(p)),
    }
}

pub open spec fn parse_all(v: Seq<Tree>, lits: Seq<Seq<char>>) -> Result<Seq<Pat>, Fault>
    decreases v,
{
    if v.len() == 0 {
        Ok(Seq::empty())
    } else {
        match parse_all(v.drop_last(), lits) {
            Err(e) => Err(e),
            Ok(ps) => match parse_spec(v.last(), lits) {
                Err(e) => Err(e),
                Ok(q) => Ok(ps.push(q)),
            },
        }
    }
}

impl MacroPattern {
    /// The name of an identifier pattern.
    pub fn get_ident(&self) -> (r: Option<&String>)
        ensures
            r matches Some(n) ==> self@ == Pat::Ident(n@),
            r is None ==> !(self@ is Ident),
    {
        match self {
            MacroPattern::Ident(n) => Some(n),
            _ => None,
        }
    }

    /// The pattern as it is written.
    pub fn render(&self) -> (r: String)
        ensures
            r@ == render_spec(self@),
        decreases self,
    {
        match self {
            MacroPattern::Ident(s) => s.clone(),
            MacroPattern::SExpr(v) => wrap_words("(", render_vec(v), ")"),
            MacroPattern::List(v) => wrap_words("[", render_vec(v), "]"),
        }
    }

    /// Whether this is the `...` marker.
    pub fn is_ellipsis(&self) -> (r: bool)
        ensures
            r == is_ellipsis_pat(self@),
    {
        match self {
            MacroPattern::Ident(n) => is_word(n, "..."),
            _ => false,
        }
    }

    /// Whether the pattern holds a syntax literal anywhere.
    pub fn contains_any_literal(&self, lits: &Vec<String>) -> (r: bool)
        ensures
            r == has_literal(self@, strs_of(lits@)),
        decreases self,
    {
        match self {
            MacroPattern::Ident(n) => is_literal(lits, n),
            MacroPattern::SExpr(v) => any_contains_literal(v, lits),
            MacroPattern::List(v) => any_contains_literal(v, lits),
        }
    }

    /// The names that matching this pattern binds, in order of appearance.
    pub fn variable_names(&self, lits: &Vec<String>) -> (r: Vec<String>)
        ensures
            strs_of(r@) == names(self@, strs_of(lits@)),
    {
        let mut out: Vec<String> = Vec::new();
        self.collect_names(lits, &mut out);
        assert(strs_of(out@) =~= Seq::<Seq<char>>::empty() + names(self@, strs_of(lits@)));
        out
    }

    fn collect_names(&self, lits: &Vec<String>, out: &mut Vec<String>)
        ensures
            strs_of(final(out)@) == strs_of(old(out)@) + names(self@, strs_of(lits@)),
        decreases self,
    {
        match self {
            MacroPattern::Ident(n) => {
                if !is_literal(lits, n) {
                    out.push(n.clone());
                    assert(strs_of(final(out)@) =~= strs_of(old(out)@) + seq![n@]);
                } else {
                    assert(strs_of(final(out)@) =~= strs_of(old(out)@) + Seq::<Seq<char>>::empty());
                }
            },
            MacroPattern::SExpr(v) => collect_names_in(v, lits, out),
            MacroPattern::List(v) => collect_names_in(v, lits, out),
        }
    }

    /// Compiles a tree into a pattern; identifiers outside `lits` become
    /// pattern variables.
    pub fn parse(tree: &Cst, lits: &Vec<String>) -> (r: Result<MacroPattern, MacroError>)
        ensures
            match r {
                Ok(p) => parse_spec(tree@, strs_of(lits@)) == Ok::<Pat, Fault>(p@),
                Err(e) => parse_spec(tree@, strs_of(lits@)) == Err::<Pat, Fault>(e@),
            },
        decreases tree,
    {
        match tree {
            Cst::Ident(n, _) => Ok(MacroPattern::Ident(n.clone())),
            Cst::SExpr(v, pos) => {
                let ps = parse_vec(v, lits)?;
                if unambiguous_sequences(&ps, lits) {
                    Ok(MacroPattern::SExpr(ps))
                } else {
                    Err(MacroError::AmbiguousPattern(*pos))
                }
            },
            Cst::List(v, pos) => {
                let ps = parse_vec(v, lits)?;
                if unambiguous_sequences(&ps, lits) {
                    Ok(MacroPattern::List(ps))
                } else {
                    Err(MacroError::AmbiguousPattern(*pos))
                }
            },
            Cst::Literal(_, pos) => Err(MacroError::MalformedPattern(*pos)),
        }
    }
}

fn parse_vec(v: &Vec<Cst>, lits: &Vec<String>) -> (r: Result<Vec<MacroPattern>, MacroError>)
    ensures
        match r {
            Ok(ps) => parse_all(trees_of(v@), strs_of(lits@)) == Ok::<Seq<Pat>, Fault>(pats_of(ps@)),
            Err(e) => parse_all(trees_of(v@), strs_of(lits@)) == Err::<Seq<Pat>, Fault>(e@),
        },
    decreases v,
{
    let mut out: Vec<MacroPattern> = Vec::new();
    let mut i: usize = 0;
    while i < v.len()
        invariant
            i <= v.len(),
            parse_all(trees_of(v@.take(i as int)), strs_of(lits@)) == Ok::<Seq<Pat>, Fault>(pats_of(out@)),
        decreases v.len() - i,
    {
        proof {
            assert(decreases_to!(v => v[i as int]));
            lemma_trees_of_push(v@.take(i as int), v@[i as int]);
            assert(v@.take(i as int).push(v@[i as int]) =~= v@.take(i + 1));
            assert(trees_of(v@.take(i + 1)).drop_last() =~= trees_of(v@.take(i as int)));
        }
        let p = match MacroPattern::parse(&v[i], lits) {
            Ok(p) => p,
            Err(e) => {
                proof {
                    lemma_trees_of(v@);
                    lemma_trees_of_take(v@, i as int + 1);
                    lemma_parse_all_err_prefix(trees_of(v@), i as int + 1, strs_of(lits@));
                }
                return Err(e);
            },
        };
        proof {
            lemma_pats_of_push(out@, p);
        }
        out.push(p);
        i = i + 1;
    }
    assert(v@.take(v.len() as int) =~= v@);
    Ok(out)
}

proof fn lemma_parse_all_err_prefix(v: Seq<Tree>, n: int, lits: Seq<Seq<char>>)
    requires
        0 <= n <= v.len(),
        parse_all(v.take(n), lits) is Err,
    ensures
        parse_all(v, lits) == parse_all(v.take(n), lits),
    decreases v.len(),
{
    if n < v.len() {
        assert(v.drop_last().take(n) =~= v.take(n));
        lemma_parse_all_err_prefix(v.drop_last(), n, lits);
    } else {
        assert(v.take(n) =~= v);
    }
}

/// The rendering of each pattern of `v`.
fn render_vec(v: &Vec<MacroPattern>) -> (r: Vec<String>)
    ensures
        strs_of(r@) == render_all(pats_of(v@)),
    decreases v,
{
    let mut out: Vec<String> = Vec::new();
    let mut i: usize = 0;
    assert(strs_of(out@) =~= render_all(pats_of(v@.take(0))));
    while i < v.len()
        invariant
            i <= v.len(),
            strs_of(out@) == render_all(pats_of(v@.take(i as int))),
        decreases v.len() - i,
    {
        proof {
            assert(decreases_to!(v => v[i as int]));
            lemma_pats_of_push(v@.take(i as int), v@[i as int]);
            assert(v@.take(i as int).push(v@[i as int]) =~= v@.take(i + 1));
            assert(pats_of(v@.take(i + 1)).drop_last() =~= pats_of(v@.take(i as int)));
        }
        let w = v[i].render();
        let ghost before = out@;
        out.push(w);
        assert(strs_of(out@) =~= strs_of(before).push(w@));
        i = i + 1;
    }
    assert(v@.take(v.len() as int) =~= v@);
    out
}

/// `open`, the words joined by spaces, then `close`.
fn wrap_words(open: &str, words: Vec<String>, close: &str) -> (r: String)
    ensures
        r@ == open@ + joined(strs_of(words@)) + close@,
{
    let mut out = String::from_str(open);
    let inner = join_words(words);
    out.append(inner.as_str());
    out.append(close);
    out
}

fn any_contains_literal(v: &Vec<MacroPattern>, lits: &Vec<String>) -> (r: bool)
    ensures
        r == any_has_literal(pats_of(v@), strs_of(lits@)),
    decreases v,
{
    let mut i: usize = 0;
    while i < v.len()
        invariant
            i <= v.len(),
            !any_has_literal(pats_of(v@.take(i as int)), strs_of(lits@)),
        decreases v.len() - i,
    {
        proof {
            assert(decreases_to!(v => v[i as int]));
            lemma_pats_of_push(v@.take(i as int), v@[i as int]);
            assert(v@.take(i as int).push(v@[i as int]) =~= v@.take(i + 1));
            assert(pats_of(v@.take(i + 1)).drop_last() =~= pats_of(v@.take(i as int)));
        }
        if v[i].contains_any_literal(lits) {
            proof {
                lemma_pats_of(v@);
                lemma_pats_of_take(v@, i as int + 1);
                lemma_any_has_literal_prefix(pats_of(v@), i as int + 1, strs_of(lits@));
            }
            return true;
        }
        i = i + 1;
    }
    assert(v@.take(v.len() as int) =~= v@);
    false
}

proof fn lemma_pats_of_take(s: Seq<MacroPattern>, n: int)
    requires
        0 <= n <= s.len(),
    ensures
        pats_of(s.take(n)) == pats_of(s).take(n),
{
    lemma_pats_of(s);
    lemma_pats_of(s.take(n));
    assert(pats_of(s.take(n)) =~= pats_of(s).take(n));
}

/// A list holding a literal in a prefix holds one.
proof fn lemma_any_has_literal_prefix(v: Seq<Pat>, n: int, lits: Seq<Seq<char>>)
    requires
        0 <= n <= v.len(),
        any_has_literal(v.take(n), lits),
    ensures
        any_has_literal(v, lits),
    decreases v.len(),
{
    if n < v.len() {
        assert(v.drop_last().take(n) =~= v.take(n));
        lemma_any_has_literal_prefix(v.drop_last(), n, lits);
    } else {
        assert(v.take(n) =~= v);
    }
}

fn collect_names_in(v: &Vec<MacroPattern>, lits: &Vec<String>, out: &mut Vec<String>)
    ensures
        strs_of(final(out)@) == strs_of(old(out)@) + names_in(pats_of(v@), strs_of(lits@)),
    decreases v,
{
    let mut i: usize = 0;
    while i < v.len()
        invariant
            i <= v.len(),
            strs_of(out@) == strs_of(old(out)@) + names_in(pats_of(v@.take(i as int)), strs_of(lits@)),
        decreases v.len() - i,
    {
        proof {
            assert(decreases_to!(v => v[i as int]));
            lemma_pats_of_push(v@.take(i as int), v@[i as int]);
            assert(v@.take(i as int).push(v@[i as int]) =~= v@.take(i + 1));
            assert(pats_of(v@.take(i + 1)).drop_last() =~= pats_of(v@.take(i as int)));
        }
        v[i].collect_names(lits, out);
        assert(strs_of(out@) =~= strs_of(old(out)@) + names_in(pats_of(v@.take(i + 1)), strs_of(lits@)));
        i = i + 1;
    }
    assert(v@.take(v.len() as int) =~= v@);
}

/// Whether the repeats of `patts` can be matched in one way only: no two
/// `...` markers without a literal-holding pattern between them. A list
/// that starts with `macro-escape` is not checked.
pub fn unambiguous_sequences(patts: &Vec<MacroPattern>, lits: &Vec<String>) -> (r: bool)
    ensures
        r == unambiguous(pats_of(patts@), strs_of(lits@)),
{
    proof {
        lemma_pats_of(patts@);
    }
    if patts.len() > 0 {
        if let MacroPattern::Ident(n) = &patts[0] {
            if is_word(n, "macro-escape") {
                return true;
            }
        }
    }
    let mut open = false;
    let mut i: usize = 0;
    while i < patts.len()
        invariant
            i <= patts.len(),
            pats_of(patts@).len() == patts@.len(),
            forall|j: int| 0 <= j < patts.len() ==> #[trigger] pats_of(patts@)[j] == pat_of(patts@[j]),
            repeat_state(pats_of(patts@), strs_of(lits@), i as int) == Some(open),
            !(patts.len() > 0 && pats_of(patts@)[0] == Pat::Ident("macro-escape"@)),
        decreases patts.len() - i,
    {
        if patts[i].is_ellipsis() {
            if open {
                proof {
                    lemma_repeat_state_stays_none(pats_of(patts@), strs_of(lits@), i as int + 1, patts.len() as int);
                }
                return false;
            }
            open = true;
        } else if patts[i].contains_any_literal(lits) {
            open = false;
        }
        i = i + 1;
    }
    true
}

proof fn lemma_repeat_state_stays_none(v: Seq<Pat>, lits: Seq<Seq<char>>, n: int, m: int)
    requires
        n <= m,
        repeat_state(v, lits, n) is None,
        n > 0,
    ensures
        repeat_state(v, lits, m) is None,
    decreases m - n,
{
    if n < m {
        lemma_repeat_state_stays_none(v, lits, n, m - 1);
    }
}

} // verus!
