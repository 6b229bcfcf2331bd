use vstd::prelude::*;
use crate::cst::{Cst, SrcPos, Tree, trees_of};

verus! {

/// Why an expansion pass was aborted. Each carries the offending position.
#[derive(Debug, PartialEq, Eq)]
pub enum MacroError {
    /// A `def-macro` form without a name, a literal list or well-formed rules.
    MalformedDefinition(SrcPos),
    /// A pattern holding something other than identifiers and lists.
    MalformedPattern(SrcPos),
    /// Two repeats in one pattern list with no literal between them.
    AmbiguousPattern(SrcPos),
    /// A second definition of the named macro.
    DuplicateMacroName(String, SrcPos),
    /// No rule of the invoked macro matched these arguments.
    NoRuleMatched(Vec<Cst>, SrcPos),
    /// `macro-quote` applied to other than one element; holds the form's length.
    ArityMismatch(usize, SrcPos),
    /// A repeated template position that holds no sequence variable.
    EmptySequenceFlatten(SrcPos),
    /// Expansions nested deeper than the pass allows.
    RecursionLimitExceeded(SrcPos),
}

/// The model of a `MacroError`.
pub enum Fault {
    MalformedDefinition(SrcPos),
    MalformedPattern(SrcPos),
    AmbiguousPattern(SrcPos),
    DuplicateMacroName(Seq<char>, SrcPos),
    NoRuleMatched(Seq<Tree>, SrcPos),
    ArityMismatch(usize, SrcPos),
    EmptySequenceFlatten(SrcPos),
    RecursionLimitExceeded(SrcPos),
}

impl View for MacroError {
    type V = Fault;

    open spec fn view(&self) -> Fault {
        match *self {
            MacroError::MalformedDefinition(p) => Fault::MalformedDefinition(p),
            MacroError::MalformedPattern(p) => Fault::MalformedPattern(p),
            MacroError::AmbiguousPattern(p) => Fault::AmbiguousPattern(p),
            MacroError::DuplicateMacroName(n, p) => Fault::DuplicateMacroName(n@, p),
            MacroError::NoRuleMatched(v, p) => Fault::NoRuleMatched(trees_of(v@), p),
            MacroError::ArityMismatch(n, p) => Fault::ArityMismatch(n, p),
            MacroError::EmptySequenceFlatten(p) => Fault::EmptySequenceFlatten(p),
            MacroError::RecursionLimitExceeded(p) => Fault::RecursionLimitExceeded(p),
        }
    }
}

} // verus!
