use fuzzcheck::{
    ast_duplicate, ast_to_string, binary_search_arbitrary_u32, grammar_based_ast_mutator,
    CharWithinRangeMutator, Either, Grammar, Mutator, AST,
};

#[test]
fn binary_search_enumeration_permutes_the_range() {
    let mut seen = vec![false; 27];
    for step in 0..27u64 {
        let v = binary_search_arbitrary_u32(0, 26, step);
        assert!(v <= 26);
        assert!(!seen[v as usize], "value {} repeated", v);
        seen[v as usize] = true;
    }
    assert!(seen.iter().all(|&b| b));
    // The midpoint comes first.
    assert_eq!(binary_search_arbitrary_u32(0, 26, 0), 13);
}

#[test]
fn char_mutator_ordered_arbitrary_covers_the_range_without_repeats() {
    let m = CharWithinRangeMutator::new('a', 'z');
    let mut step = m.default_arbitrary_step();
    let mut seen = Vec::new();
    for _ in 0..26 {
        let (c, cplx) = m.ordered_arbitrary(&mut step, 100).unwrap();
        assert!(('a'..='z').contains(&c));
        assert!(!seen.contains(&c), "character {} repeated", c);
        assert_eq!(cplx, 8);
        seen.push(c);
    }
    // Step 26: the enumeration is exhausted.
    assert!(m.ordered_arbitrary(&mut step, 100).is_none());
}

#[test]
fn char_mutator_skips_surrogate_code_points() {
    // The range spans the surrogate block: only its two end points are
    // characters at all.
    let m = CharWithinRangeMutator::new('\u{D7FF}', '\u{E000}');
    let mut step = m.default_arbitrary_step();
    let mut seen = Vec::new();
    while let Some((c, _)) = m.ordered_arbitrary(&mut step, 100) {
        seen.push(c);
    }
    seen.sort();
    assert_eq!(seen, vec!['\u{D7FF}', '\u{E000}']);
    for _ in 0..20 {
        let (c, _) = m.random_arbitrary(100);
        assert!(c == '\u{D7FF}' || c == '\u{E000}');
    }
}

#[test]
fn char_mutator_validates_exactly_its_range() {
    let m = CharWithinRangeMutator::new('a', 'z');
    assert!(m.validate_value(&'a').is_some());
    assert!(m.validate_value(&'z').is_some());
    assert!(m.validate_value(&'A').is_none());
    assert!(m.validate_value(&'{').is_none());
}

#[test]
fn char_mutator_round_trip_restores_the_value() {
    let m = CharWithinRangeMutator::new('a', 'z');
    for _ in 0..50 {
        let mut v = 'q';
        let mut cache = m.validate_value(&v).unwrap();
        let (token, _cplx) = m.random_mutate(&mut v, &mut cache, 100);
        assert!(('a'..='z').contains(&v));
        m.unmutate(&mut v, &mut cache, token);
        assert_eq!(v, 'q');
    }
}

#[test]
fn char_mutator_rejects_too_small_budget() {
    let m = CharWithinRangeMutator::new('a', 'z');
    let mut step = m.default_arbitrary_step();
    assert!(m.ordered_arbitrary(&mut step, 7).is_none());
    let (_, cplx) = m.random_arbitrary(100);
    assert_eq!(cplx, 8);
}

#[test]
fn either_dispatches_to_the_active_variant() {
    let left: Either<CharWithinRangeMutator, CharWithinRangeMutator> =
        Either::Left(CharWithinRangeMutator::new('a', 'c'));
    let right: Either<CharWithinRangeMutator, CharWithinRangeMutator> =
        Either::Right(CharWithinRangeMutator::new('x', 'z'));
    assert!(left.validate_value(&'b').is_some());
    assert!(left.validate_value(&'y').is_none());
    assert!(right.validate_value(&'y').is_some());
    assert_eq!(left.max_complexity(), 8);
    let (c, cplx) = right.random_arbitrary(64);
    assert!(('x'..='z').contains(&c));
    assert_eq!(cplx, 8);
}

#[test]
fn either_round_trip_restores_the_value() {
    let m: Either<CharWithinRangeMutator, CharWithinRangeMutator> =
        Either::Right(CharWithinRangeMutator::new('0', '9'));
    let mut v = '5';
    let mut cache = m.validate_value(&v).unwrap();
    let (token, _) = m.random_mutate(&mut v, &mut cache, 100);
    assert!(('0'..='9').contains(&v));
    m.unmutate(&mut v, &mut cache, token);
    assert_eq!(v, '5');
}

#[test]
fn literal_grammar_always_yields_its_character() {
    let g = Grammar::Literal(vec![('a', 'a')]);
    let m = grammar_based_ast_mutator(&g).unwrap();
    let mut cplxs = Vec::new();
    for _ in 0..20 {
        let (ast, cplx) = m.random_arbitrary(100);
        assert_eq!(ast_to_string(&ast), "a");
        cplxs.push(cplx);
    }
    // The complexity is constant across produced values.
    assert!(cplxs.iter().all(|&c| c == cplxs[0]));

    // It stays constant across mutations too.
    let (mut v, _) = m.random_arbitrary(100);
    let mut cache = m.validate_value(&v).unwrap();
    for _ in 0..10 {
        let (_t, cplx) = m.random_mutate(&mut v, &mut cache, 100);
        assert_eq!(cplx, cplxs[0]);
        assert_eq!(ast_to_string(&v), "a");
    }
}

fn parenthesized_choice_grammar() -> Grammar {
    Grammar::Concatenation(vec![
        Grammar::Literal(vec![('(', '(')]),
        Grammar::Alternation(vec![
            Grammar::Literal(vec![('a', 'a')]),
            Grammar::Literal(vec![('b', 'b')]),
        ]),
        Grammar::Literal(vec![(')', ')')]),
    ])
}

#[test]
fn concatenation_grammar_yields_both_alternatives() {
    let g = parenthesized_choice_grammar();
    let m = grammar_based_ast_mutator(&g).unwrap();
    for _ in 0..50 {
        let (ast, _) = m.random_arbitrary(100);
        let s = ast_to_string(&ast);
        assert!(s == "(a)" || s == "(b)", "unexpected yield {:?}", s);
    }
}

#[test]
fn grammar_mutation_round_trip_restores_the_exact_tree() {
    let g = parenthesized_choice_grammar();
    let m = grammar_based_ast_mutator(&g).unwrap();
    for _ in 0..50 {
        let (mut v, _) = m.random_arbitrary(100);
        let before = ast_duplicate(&v);
        let mut cache = m.validate_value(&v).unwrap();
        let (token, _) = m.random_mutate(&mut v, &mut cache, 100);
        m.unmutate(&mut v, &mut cache, token);
        assert_eq!(v, before);
        assert!(m.validate_value(&v).is_some());
    }
}

fn balanced_parens_grammar() -> Grammar {
    Grammar::Recursive(Box::new(Grammar::Alternation(vec![
        Grammar::Literal(vec![('e', 'e')]),
        Grammar::Concatenation(vec![
            Grammar::Literal(vec![('(', '(')]),
            Grammar::Recurse(0),
            Grammar::Literal(vec![(')', ')')]),
        ]),
    ])))
}

fn is_balanced(s: &str) -> bool {
    let mut depth: i64 = 0;
    for c in s.chars() {
        match c {
            '(' => depth += 1,
            ')' => {
                depth -= 1;
                if depth < 0 {
                    return false;
                }
            }
            _ => {}
        }
    }
    depth == 0
}

#[test]
fn recursive_grammar_yields_balanced_parentheses() {
    let g = balanced_parens_grammar();
    let m = grammar_based_ast_mutator(&g).unwrap();
    for budget in [10u64, 50, 200] {
        for _ in 0..30 {
            let (ast, cplx) = m.random_arbitrary(budget);
            let s = ast_to_string(&ast);
            assert!(is_balanced(&s), "unbalanced yield {:?}", s);
            assert!(cplx <= budget.max(m.min_complexity()));
            assert!(m.validate_value(&ast).is_some());
        }
    }
}

#[test]
fn ordered_arbitrary_enumerates_the_root_alternatives_then_exhausts() {
    let g = balanced_parens_grammar();
    let m = grammar_based_ast_mutator(&g).unwrap();
    let mut step = m.default_arbitrary_step();
    let (ast, cplx) = m.ordered_arbitrary(&mut step, 1000).unwrap();
    assert_eq!(cplx, m.min_complexity());
    assert_eq!(ast_to_string(&ast), "e");
    let (ast, _) = m.ordered_arbitrary(&mut step, 1000).unwrap();
    assert_eq!(ast_to_string(&ast), "(e)");
    assert!(m.ordered_arbitrary(&mut step, 1000).is_none());
}

#[test]
fn ordered_mutate_offers_each_alternative_once() {
    let g = balanced_parens_grammar();
    let m = grammar_based_ast_mutator(&g).unwrap();
    let (mut v, _) = m.random_arbitrary(50);
    let before = ast_duplicate(&v);
    let mut cache = m.validate_value(&v).unwrap();
    let mut step = m.default_mutation_step(&v, &cache);
    let mut offered = 0;
    while let Some((token, _)) = m.ordered_mutate(&mut v, &mut cache, &mut step, 1000) {
        assert!(m.validate_value(&v).is_some());
        m.unmutate(&mut v, &mut cache, token);
        assert_eq!(v, before);
        offered += 1;
    }
    assert_eq!(offered, 2);
}

#[test]
fn unresolved_back_reference_fails_construction() {
    let g = Grammar::Recurse(0);
    assert!(grammar_based_ast_mutator(&g).is_none());
}

#[test]
fn empty_or_inverted_literal_class_fails_construction() {
    assert!(grammar_based_ast_mutator(&Grammar::Literal(vec![])).is_none());
    assert!(grammar_based_ast_mutator(&Grammar::Literal(vec![('z', 'a')])).is_none());
    assert!(grammar_based_ast_mutator(&Grammar::Alternation(vec![])).is_none());
}

#[test]
fn unproductive_grammar_fails_construction() {
    // A cycle with no base case derives no finite tree.
    let g = Grammar::Recursive(Box::new(Grammar::Concatenation(vec![Grammar::Recurse(0)])));
    assert!(grammar_based_ast_mutator(&g).is_none());
}

#[test]
fn empty_repetition_range_fails_construction() {
    let g = Grammar::Repetition(Box::new(Grammar::Literal(vec![('a', 'a')])), 0, 0);
    assert!(grammar_based_ast_mutator(&g).is_none());
}

#[test]
fn repetition_grammar_respects_its_bounds() {
    let g = Grammar::Repetition(Box::new(Grammar::Literal(vec![('x', 'x')])), 2, 6);
    let m = grammar_based_ast_mutator(&g).unwrap();
    for _ in 0..50 {
        let (ast, _) = m.random_arbitrary(1000);
        let s = ast_to_string(&ast);
        assert!(s.len() >= 2 && s.len() <= 5, "unexpected repetition {:?}", s);
        assert!(s.chars().all(|c| c == 'x'));
    }
}

#[test]
fn validate_value_rejects_foreign_trees() {
    let g = Grammar::Literal(vec![('a', 'a')]);
    let m = grammar_based_ast_mutator(&g).unwrap();
    assert!(m.validate_value(&AST::Token('b')).is_none());
    assert!(m.validate_value(&AST::Sequence(vec![AST::Token('a')])).is_none());
    assert!(m.validate_value(&AST::Token('a')).is_some());
}

#[test]
fn with_string_pairs_the_yield_with_the_tree() {
    let g = parenthesized_choice_grammar();
    let m = grammar_based_ast_mutator(&g).unwrap().with_string();
    let ((s, ast), _) = m.random_arbitrary(100);
    assert_eq!(s, ast_to_string(&ast));
    let mut pair = (s, ast);
    let mut cache = m.validate_value(&pair).unwrap();
    let (token, _) = m.random_mutate(&mut pair, &mut cache, 100);
    assert_eq!(pair.0, ast_to_string(&pair.1));
    m.unmutate(&mut pair, &mut cache, token);
    assert_eq!(pair.0, ast_to_string(&pair.1));
    // A pair whose string is not the tree's yield is rejected.
    let bad = (String::from("zzz"), AST::Token('a'));
    assert!(m.validate_value(&bad).is_none());
}
