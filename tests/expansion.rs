use macro_expand::{expand_macros, Cst, MacroError, MacroPattern, SrcPos};

fn pos(start: usize, end: usize) -> SrcPos {
    SrcPos { start, end, site: None }
}

fn is_delim(c: char) -> bool {
    c == '(' || c == ')' || c == '[' || c == ']' || c.is_whitespace()
}

fn read_one(chars: &[char], i: &mut usize) -> Cst {
    while chars[*i].is_whitespace() {
        *i += 1;
    }
    let start = *i;
    let c = chars[*i];
    if c == '(' || c == '[' {
        let close = if c == '(' { ')' } else { ']' };
        *i += 1;
        let mut items = Vec::new();
        loop {
            while chars[*i].is_whitespace() {
                *i += 1;
            }
            if chars[*i] == close {
                *i += 1;
                break;
            }
            items.push(read_one(chars, i));
        }
        if c == '(' {
            Cst::SExpr(items, pos(start, *i))
        } else {
            Cst::List(items, pos(start, *i))
        }
    } else {
        while *i < chars.len() && !is_delim(chars[*i]) {
            *i += 1;
        }
        let word: String = chars[start..*i].iter().collect();
        if word.starts_with('"') || word.chars().all(|d| d.is_ascii_digit()) {
            Cst::Literal(word, pos(start, *i))
        } else {
            Cst::Ident(word, pos(start, *i))
        }
    }
}

/// Reads the top-level forms of `src`.
fn read(src: &str) -> Vec<Cst> {
    let chars: Vec<char> = src.chars().collect();
    let mut i = 0;
    let mut out = Vec::new();
    loop {
        while i < chars.len() && chars[i].is_whitespace() {
            i += 1;
        }
        if i >= chars.len() {
            return out;
        }
        out.push(read_one(&chars, &mut i));
    }
}

fn show(c: &Cst) -> String {
    match c {
        Cst::Ident(s, _) | Cst::Literal(s, _) => s.clone(),
        Cst::SExpr(v, _) => format!("({})", v.iter().map(show).collect::<Vec<_>>().join(" ")),
        Cst::List(v, _) => format!("[{}]", v.iter().map(show).collect::<Vec<_>>().join(" ")),
    }
}

fn show_all(v: &[Cst]) -> String {
    v.iter().map(show).collect::<Vec<_>>().join(" ")
}

fn expand(src: &str) -> Result<String, MacroError> {
    expand_macros(&read(src)).map(|v| show_all(&v))
}

#[test]
fn fixed_arity_macro_expands() {
    let out = expand("(def-macro my-add [] [[a b] (+ a b)]) (my-add 1 2)").unwrap();
    assert_eq!(out, "(+ 1 2)");
}

#[test]
fn variadic_macro_expands() {
    let out = expand("(def-macro list-of [] [[x ...] (vec x ...)]) (list-of 1 2 3)").unwrap();
    assert_eq!(out, "(vec 1 2 3)");
}

#[test]
fn two_adjacent_repeats_are_ambiguous() {
    let r = expand("(def-macro bad [] [[a ... b ...] (f a ... b ...)])");
    assert!(matches!(r, Err(MacroError::AmbiguousPattern(_))));
}

#[test]
fn ambiguity_is_found_before_any_invocation() {
    let r = expand("(def-macro bad [] [[a ... b ...] (f)]) (undefined-call 1)");
    assert!(matches!(r, Err(MacroError::AmbiguousPattern(_))));
}

#[test]
fn literal_between_repeats_is_not_ambiguous() {
    let out = expand("(def-macro pairs [to] [[a ... to b ...] (f (a ...) (b ...))]) (pairs 1 2 to 3)").unwrap();
    assert_eq!(out, "(f (1 2) (3))");
}

#[test]
fn escaped_pattern_skips_ambiguity_check() {
    let out = expand("(def-macro esc [] [[(macro-escape a ... b ...)] (ok)]) 7").unwrap();
    assert_eq!(out, "7");
}

#[test]
fn second_definition_is_duplicate() {
    let r = expand("(def-macro m [] [[] (x)]) (def-macro m [] [[] (y)])");
    match r {
        Err(MacroError::DuplicateMacroName(name, _)) => assert_eq!(name, "m"),
        other => panic!("unexpected {:?}", other),
    }
}

#[test]
fn nested_expansion_reaches_inner_macro() {
    let out = expand("(def-macro B [] [[x] (+ x 1)]) (def-macro A [] [[] (B 1)]) (A)").unwrap();
    assert_eq!(out, "(+ 1 1)");
}

#[test]
fn macro_defined_after_use_in_template_still_expands() {
    let out = expand("(def-macro A [] [[] (B 1)]) (def-macro B [] [[x] (+ x 1)]) (A)").unwrap();
    assert_eq!(out, "(+ 1 1)");
}

#[test]
fn no_rule_matches_wrong_arity() {
    let r = expand("(def-macro two [] [[a] (one a)] [[a b] (two a b)]) (two 1 2 3)");
    match r {
        Err(MacroError::NoRuleMatched(args, _)) => assert_eq!(show_all(&args), "1 2 3"),
        other => panic!("unexpected {:?}", other),
    }
}

#[test]
fn rules_are_tried_in_order() {
    let out = expand("(def-macro two [] [[a] (one a)] [[a b] (pair a b)]) (two 1) (two 1 2)").unwrap();
    assert_eq!(out, "(one 1) (pair 1 2)");
}

#[test]
fn macro_free_program_is_unchanged() {
    let src = "(define x 1) [1 2 (f x)] foo \"s\" (quote (def-macro q))";
    let input = read(src);
    let out = expand_macros(&input).unwrap();
    assert_eq!(out, input);
}

#[test]
fn expanding_output_again_changes_nothing() {
    let first = expand_macros(&read("(def-macro list-of [] [[x ...] (vec x ...)]) (g (list-of 1 2))")).unwrap();
    assert_eq!(show_all(&first), "(g (vec 1 2))");
    let second = expand_macros(&first).unwrap();
    assert_eq!(second, first);
}

#[test]
fn ellipsis_zip_keeps_count_and_order() {
    let out = expand("(def-macro rest [] [[a b ...] (r b ...)]) (rest 0 5 4 3 2 1)").unwrap();
    assert_eq!(out, "(r 5 4 3 2 1)");
}

#[test]
fn ellipsis_zip_with_no_trailing_arguments() {
    let out = expand("(def-macro rest [] [[a b ...] (r b ...)]) (rest 0)").unwrap();
    assert_eq!(out, "(r)");
}

#[test]
fn singular_value_is_broadcast() {
    let out = expand("(def-macro with [] [[k v ...] (do (set k v) ...)]) (with z 1 2 3)").unwrap();
    assert_eq!(out, "(do (set z 1) (set z 2) (set z 3))");
}

#[test]
fn shorter_sequence_repeats_its_last_element() {
    let out = expand("(def-macro zip [] [[[a ...] [b ...]] (z (p a b) ...)]) (zip [1 2 3] [x y])").unwrap();
    assert_eq!(out, "(z (p 1 x) (p 2 y) (p 3 y))");
}

#[test]
fn repeated_sub_pattern_zips_components() {
    let out = expand("(def-macro lets [] [[(n v) ...] (names n ...) (vals v ...)]) (lets (a 1) (b 2))");
    // a rule holds exactly one template
    assert!(matches!(out, Err(MacroError::MalformedDefinition(_))));
    let out = expand("(def-macro lets [] [[(n v) ...] (both (n ...) (v ...))]) (lets (a 1) (b 2))").unwrap();
    assert_eq!(out, "(both (a b) (1 2))");
}

#[test]
fn delimited_repeat_stops_at_literal() {
    let out = expand("(def-macro upto [stop] [[x ... stop y] (got (x ...) y)]) (upto 1 2 stop 9)").unwrap();
    assert_eq!(out, "(got (1 2) 9)");
}

#[test]
fn delimited_repeat_without_delimiter_fails() {
    let r = expand("(def-macro upto [stop] [[x ... stop y] (got)]) (upto 1 2 9)");
    assert!(matches!(r, Err(MacroError::NoRuleMatched(_, _))));
}

#[test]
fn literal_must_match_exactly() {
    let out = expand("(def-macro kw [then] [[c then e] (if c e)]) (kw 1 then 2)").unwrap();
    assert_eq!(out, "(if 1 2)");
    let r = expand("(def-macro kw [then] [[c then e] (if c e)]) (kw 1 else 2)");
    assert!(matches!(r, Err(MacroError::NoRuleMatched(_, _))));
}

#[test]
fn identifier_pattern_captures_all_arguments() {
    let out = expand("(def-macro all [] [args (list args)]) (all 1 2)").unwrap();
    assert_eq!(out, "(list [1 2])");
}

#[test]
fn quoted_form_is_left_alone() {
    let out = expand("(def-macro m [] [[] (x)]) (quote (m))").unwrap();
    assert_eq!(out, "(quote (m))");
}

#[test]
fn macro_quote_escapes_substitution() {
    let out = expand("(def-macro q [] [[a] (f (macro-quote a) a)]) (q 1)").unwrap();
    assert_eq!(out, "(f a 1)");
}

#[test]
fn macro_quote_needs_one_element() {
    let r = expand("(def-macro q [] [[a] (f (macro-quote a a))]) (q 1)");
    match r {
        Err(MacroError::ArityMismatch(n, _)) => assert_eq!(n, 3),
        other => panic!("unexpected {:?}", other),
    }
}

#[test]
fn ellipsis_without_sequence_variable_fails() {
    let r = expand("(def-macro e [] [[a] (f a ...)]) (e 1)");
    assert!(matches!(r, Err(MacroError::EmptySequenceFlatten(_))));
}

#[test]
fn literal_in_pattern_is_malformed() {
    let r = expand("(def-macro e [] [[1] (f)])");
    assert!(matches!(r, Err(MacroError::MalformedPattern(_))));
}

#[test]
fn malformed_definitions_are_rejected() {
    for src in [
        "(def-macro)",
        "(def-macro 1 [] [[] (f)])",
        "(def-macro m)",
        "(def-macro m (a) [[] (f)])",
        "(def-macro m [1] [[] (f)])",
        "(def-macro m [] ([] (f)))",
        "(def-macro m [] [[]])",
    ] {
        let r = expand(src);
        assert!(matches!(r, Err(MacroError::MalformedDefinition(_))), "{}", src);
    }
}

#[test]
fn self_recursive_macro_hits_depth_limit() {
    let r = expand("(def-macro loop [] [[] (loop)]) (loop)");
    assert!(matches!(r, Err(MacroError::RecursionLimitExceeded(_))));
}

#[test]
fn recursive_macro_that_terminates_expands() {
    let out = expand("(def-macro my-or [] [[] false] [[a b ...] (if a a (my-or b ...))]) (my-or x y)").unwrap();
    assert_eq!(out, "(if x x (if y y false))");
}

#[test]
fn definition_vanishes_and_order_is_kept() {
    let out = expand("1 (def-macro m [] [[] (x)]) 2 (m) 3").unwrap();
    assert_eq!(out, "1 2 (x) 3");
}

#[test]
fn definition_inside_form_vanishes() {
    let out = expand("(begin (def-macro m [] [[] (x)]) (m))").unwrap();
    assert_eq!(out, "(begin (x))");
}

#[test]
fn expansion_marks_invocation_site() {
    let out = expand_macros(&read("(def-macro m [] [[a] (f a)]) (m 1)")).unwrap();
    assert_eq!(out.len(), 1);
    let site = match &out[0] {
        Cst::SExpr(v, p) => {
            assert_eq!(v[1].pos().site, p.site);
            p.site
        }
        other => panic!("unexpected {:?}", other),
    };
    assert_eq!(site, Some((29, 34)));
}

#[test]
fn empty_program_expands_to_nothing() {
    assert_eq!(expand_macros(&Vec::new()).unwrap(), Vec::new());
}

#[test]
fn pattern_renders_as_written() {
    let tree = &read("[a (b ...) [c] then]")[0];
    let lits = vec!["then".to_string()];
    let p = MacroPattern::parse(tree, &lits).unwrap();
    assert_eq!(p.render(), "[a (b ...) [c] then]");
}

#[test]
fn pattern_variables_skip_literals() {
    let tree = &read("[a (b ...) [c] then]")[0];
    let lits = vec!["then".to_string()];
    let p = MacroPattern::parse(tree, &lits).unwrap();
    assert_eq!(p.variable_names(&lits), vec!["a", "b", "...", "c"]);
}

#[test]
fn empty_delimited_repeat_binds_empty_list() {
    let out = expand("(def-macro upto [stop] [[x ... stop y] (got (x ...) y)]) (upto stop 9)").unwrap();
    assert_eq!(out, "(got () 9)");
}

#[test]
fn delimiter_binding_clashing_with_repeat_fails() {
    let r = expand("(def-macro d [stop] [[x ... (stop x)] (f)]) (d (stop 1))");
    assert!(matches!(r, Err(MacroError::NoRuleMatched(_, _))));
}

#[test]
fn singular_form_is_broadcast_whole() {
    let out = expand("(def-macro with [] [[k v ...] (do (set k v) ...)]) (with (q 1) 1 2)").unwrap();
    assert_eq!(out, "(do (set (q 1) 1) (set (q 1) 2))");
}

#[test]
fn singular_list_is_not_a_sequence() {
    let r = expand("(def-macro all [] [args (f args ...)]) (all 1 2)");
    assert!(matches!(r, Err(MacroError::EmptySequenceFlatten(_))));
}

#[test]
fn output_that_spells_a_definition_is_not_stable() {
    let first = expand_macros(&read("((def-macro m []) def-macro x)")).unwrap();
    assert_eq!(show_all(&first), "(def-macro x)");
    assert!(matches!(expand_macros(&first), Err(MacroError::MalformedDefinition(_))));
}
