//! Macro expansion for a small Lisp: `def-macro` definitions with
//! pattern/template rules, literal keywords, repeated (`...`) sub-patterns,
//! a definition-time ambiguity check, and re-expansion of what a rule gives.
//!
//! Each function of the engine is proved to compute a spec function over the
//! tree model `Tree` (`Cst::view`); `expand_macros` computes `program_spec`.
//! Expansions nest at most `MAX_EXPANSION_DEPTH` deep, so a macro that
//! expands to itself ends in an error instead of running on.
pub mod bindings;
pub mod cst;
pub mod error;
pub mod expand;
pub mod laws;
pub mod matcher;
pub mod pattern;
pub mod subst;

pub use bindings::Bindings;
pub use cst::{Cst, SrcPos};
pub use error::MacroError;
pub use expand::{MAX_EXPANSION_DEPTH, Macro, Registry, define_macro, expand_cst_macros, expand_macros};
pub use matcher::match_all;
pub use pattern::{MacroPattern, unambiguous_sequences};
pub use subst::{flatten, max_syntax_var_len, subst_syntax_vars, subst_syntax_vars_at_iteration};
