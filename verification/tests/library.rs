use ltl_spec::parser::atom_token;
use ltl_spec::{classify, parse, satisfies, to_nnf, LtlFormula, SafetyLiveness, Trace};

fn atom(s: &str) -> LtlFormula {
    LtlFormula::Atomic(s.to_string())
}

fn states(v: &[&[&str]]) -> Vec<Vec<String>> {
    v.iter().map(|st| st.iter().map(|s| s.to_string()).collect()).collect()
}

// ─── Scenarios from the documentation ──────────────────────────────

#[test]
fn readme_quick_start() {
    let formula = parse("G(request -> F(response))").unwrap();
    assert_eq!(classify(&formula), SafetyLiveness::Safety);
    let trace = Trace::simple(states(&[&["request"], &["response"]]));
    assert!(satisfies(&trace, &formula, 0));
}

#[test]
fn readme_request_response() {
    let spec = parse("G(request -> F(response))").unwrap();
    let good = Trace::simple(states(&[&["request"], &["response"]]));
    assert!(satisfies(&good, &spec, 0));
    let bad = Trace::simple(states(&[&["request"], &["request"]]));
    assert!(!satisfies(&bad, &spec, 0));
    let idle = Trace::simple(states(&[&["idle"], &["idle"]]));
    assert!(satisfies(&idle, &spec, 0));
}

#[test]
fn readme_mutual_exclusion() {
    let mutex = parse("G(!(p1_cs & p2_cs))").unwrap();
    let valid = Trace::simple(states(&[&["idle"], &["p1_cs"], &["idle"], &["p2_cs"]]));
    assert!(satisfies(&valid, &mutex, 0));
    let invalid = Trace::simple(states(&[&["idle"], &["p1_cs", "p2_cs"], &["idle"]]));
    assert!(!satisfies(&invalid, &mutex, 0));
    let fair = Trace::simple(states(&[&["p1_cs"], &["p2_cs"]]));
    assert!(satisfies(&fair, &parse("G(F(p1_cs))").unwrap(), 0));
    assert!(satisfies(&fair, &parse("G(F(p2_cs))").unwrap(), 0));
}

#[test]
fn readme_protocol() {
    let delivery = parse("send U ack").unwrap();
    let trace = Trace::simple(states(&[&["send"], &["ack"]]));
    assert!(satisfies(&trace, &delivery, 0));
    assert_eq!(classify(&delivery), SafetyLiveness::Liveness);
    assert_eq!(classify(&parse("open R close").unwrap()), SafetyLiveness::Safety);
    let nnf = to_nnf(parse("!(send U ack)").unwrap());
    assert_eq!(nnf.to_string(), "(!send R !ack)");
    assert!(satisfies(&trace, &parse("G(send -> F(ack))").unwrap(), 0));
}

#[test]
fn readme_nnf_example() {
    let nnf = to_nnf(parse("!(G(p) & F(q))").unwrap());
    assert_eq!(nnf.to_string(), "(F(!p) | G(!q))");
}

#[test]
fn readme_satisfaction_examples() {
    let trace = Trace::simple(states(&[&["a"], &["b"]]));
    assert!(satisfies(&trace, &parse("a").unwrap(), 0));
    assert!(satisfies(&trace, &parse("F(b)").unwrap(), 0));
    assert!(satisfies(&trace, &parse("G(a | b)").unwrap(), 0));
    assert!(!satisfies(&trace, &parse("G(a)").unwrap(), 0));
}

#[test]
fn readme_keyword_aliases() {
    assert_eq!(parse("globally(p -> eventually(q))").unwrap(), parse("G(p -> F(q))").unwrap());
    assert_eq!(parse("always(p -> eventually(q))").unwrap(), parse("G(p -> F(q))").unwrap());
    assert_eq!(parse("eventally(p)").unwrap(), parse("F(p)").unwrap());
    assert_eq!(parse("p until q").unwrap(), parse("p U q").unwrap());
    assert_eq!(parse("!p & (q | r)").unwrap().to_string(), "(!p & (q | r))");
}

#[test]
fn parse_doc_example_displays() {
    let f = parse("G(p -> F(q))").unwrap();
    assert_eq!(f.to_string(), "G((p -> F(q)))");
}

#[test]
fn trace_doc_example() {
    let trace = Trace::new(states(&[&["p"], &["q"], &["p", "q"]]), 1);
    assert_eq!(trace.props_at(0), &["p".to_string()][..]);
    assert_eq!(trace.props_at(4), &["p".to_string(), "q".to_string()]);
}

#[test]
fn trace_lasso_positions() {
    let t = Trace::new(states(&[&["init"], &["ready"], &["running"], &["ready"]]), 1);
    let got: Vec<usize> = (0..10).map(|i| t.resolve_index(i)).collect();
    assert_eq!(got, vec![0, 1, 2, 3, 1, 2, 3, 1, 2, 3]);
    assert_eq!(t.loop_period(), 3);
}

// ─── Parser: precedence and errors ─────────────────────────────────

#[test]
fn parse_precedence() {
    // & binds tighter than |, which binds tighter than U, which binds tighter than ->
    let f = parse("a & b | c U d -> e").unwrap();
    assert_eq!(f.to_string(), "((((a & b) | c) U d) -> e)");
    // binary operators group to the right
    assert_eq!(parse("a -> b -> c").unwrap().to_string(), "(a -> (b -> c))");
    assert_eq!(parse("a U b R c").unwrap().to_string(), "(a U (b R c))");
    // unary operators bind tightest
    assert_eq!(parse("!a & G b").unwrap().to_string(), "(!a & G(b))");
    assert_eq!(parse("X X a").unwrap().to_string(), "X(X(a))");
}

#[test]
fn parse_whitespace_and_identifiers() {
    let f = parse(" \tp_1\n&\rq2 ").unwrap();
    assert_eq!(f, LtlFormula::And(Box::new(atom("p_1")), Box::new(atom("q2"))));
    // non-ASCII letters are alphanumeric
    assert_eq!(parse("état").unwrap(), atom("état"));
}

#[test]
fn parse_error_messages() {
    assert_eq!(parse("").unwrap_err(), "Unexpected end of input");
    assert_eq!(parse("p &").unwrap_err(), "Unexpected end of input");
    assert_eq!(parse("p - q").unwrap_err(), "Unexpected '-' at index 2");
    assert_eq!(parse("p$").unwrap_err(), "Invalid atom 'p$' at index 0");
    assert_eq!(parse("(p").unwrap_err(), "Expected ')' at position 2, got EOF");
    assert_eq!(parse("(p q)").unwrap_err(), "Expected ')' at position 2, got q");
    assert_eq!(parse("p q").unwrap_err(), "Unexpected token 'q' at position 1");
    assert_eq!(parse("& p").unwrap_err(), "Unexpected token '&' at position 0");
    assert_eq!(parse("p )").unwrap_err(), "Unexpected token ')' at position 1");
    assert_eq!(parse("(G)").unwrap_err(), "Unexpected token ')' at position 2");
    assert_eq!(
        parse("a & b & c & d & e & f (").unwrap_err(),
        "Unexpected token '(' at position 11"
    );
    assert_eq!(parse("ok   $x").unwrap_err(), "Invalid atom '$x' at index 5");
}

// ─── Formula text ──────────────────────────────────────────────────

#[test]
fn display_negations() {
    let not = |f: LtlFormula| LtlFormula::Not(Box::new(f));
    assert_eq!(not(LtlFormula::Globally(Box::new(atom("p")))).to_string(), "!G(p)");
    assert_eq!(not(LtlFormula::Next(Box::new(atom("p")))).to_string(), "!X(p)");
    assert_eq!(not(not(atom("p"))).to_string(), "!(!p)");
    assert_eq!(
        not(LtlFormula::And(Box::new(atom("p")), Box::new(atom("q")))).to_string(),
        "!((p & q))"
    );
}

#[test]
fn clone_keeps_formula() {
    let f = parse("G(a -> (b U !c))").unwrap();
    assert_eq!(f.clone(), f);
}

#[test]
fn formula_id_repeats() {
    let f = parse("G(a -> (b U !c))").unwrap();
    assert_eq!(f.formula_id(), f.clone().formula_id());
}

// ─── Normal form ───────────────────────────────────────────────────

#[test]
fn nnf_rules_exact() {
    let cases = [
        ("!(a -> b)", "(a & !b)"),
        ("a -> b", "(!a | b)"),
        ("!X(a)", "X(!a)"),
        ("!(a R b)", "(!a U !b)"),
        ("!!!a", "!a"),
        ("(!a) -> b", "(a | b)"),
        ("(a & b) -> c", "((!a | !b) | c)"),
        ("!((a -> b) U c)", "((a & !b) R !c)"),
    ];
    for (input, expected) in cases {
        assert_eq!(to_nnf(parse(input).unwrap()).to_string(), expected, "{input}");
    }
}

#[test]
fn nnf_is_idempotent_on_examples() {
    for input in ["!(G(p) & F(q))", "a -> (b -> !c)", "!((a U b) R X(c -> d))"] {
        let once = to_nnf(parse(input).unwrap());
        let twice = to_nnf(once.clone());
        assert_eq!(once, twice);
    }
}

#[test]
fn nnf_preserves_satisfaction_on_examples() {
    let traces = [
        Trace::simple(states(&[&["p"], &["q"]])),
        Trace::new(states(&[&["p", "q"], &[], &["q"]]), 1),
        Trace::new(states(&[&[], &["p"], &["p"], &["q", "r"]]), 2),
    ];
    let formulas = [
        "!(G(p) & F(q))",
        "p -> X(q)",
        "!(p U q)",
        "!(p R (q -> r))",
        "G(p -> F(q))",
        "!X(!(p | r))",
    ];
    for t in &traces {
        for src in formulas {
            let f = parse(src).unwrap();
            let n = to_nnf(f.clone());
            for start in 0..7 {
                assert_eq!(satisfies(t, &f, start), satisfies(t, &n, start), "{src} at {start}");
            }
        }
    }
}

// ─── Satisfaction ──────────────────────────────────────────────────

#[test]
fn sat_release_semantics() {
    let f = parse("p R q").unwrap();
    // q holds up to and including the point where p holds
    let t = Trace::simple(states(&[&["q"], &["p", "q"], &[]]));
    assert!(satisfies(&t, &f, 0));
    // q fails before p releases it
    let t = Trace::simple(states(&[&["q"], &[], &["p", "q"]]));
    assert!(!satisfies(&t, &f, 0));
    // q fails exactly where p holds: not released
    let t = Trace::simple(states(&[&["q"], &["p"]]));
    assert!(!satisfies(&t, &f, 0));
    // q forever
    let t = Trace::simple(states(&[&["q"]]));
    assert!(satisfies(&t, &f, 0));
}

#[test]
fn sat_until_needs_left() {
    let f = parse("p U q").unwrap();
    let t = Trace::simple(states(&[&["p"], &[], &["q"]]));
    assert!(!satisfies(&t, &f, 0));
    assert!(satisfies(&t, &f, 1) == false);
    assert!(satisfies(&t, &f, 2));
}

#[test]
fn sat_positions_wrap_into_loop() {
    let t = Trace::new(states(&[&["init"], &["a"], &["b"]]), 1);
    let a = parse("a").unwrap();
    assert!(satisfies(&t, &a, 1));
    assert!(satisfies(&t, &a, 3));
    assert!(satisfies(&t, &a, 5));
    assert!(!satisfies(&t, &a, 4));
    let g = parse("G(!init)").unwrap();
    assert!(!satisfies(&t, &g, 0));
    assert!(satisfies(&t, &g, 1));
    assert!(satisfies(&t, &g, 100));
    let x = parse("X(init)").unwrap();
    for p in 1..8 {
        assert!(!satisfies(&t, &x, p));
    }
}

#[test]
fn duality_examples() {
    let t = Trace::new(states(&[&["p"], &["q"], &["p", "q"], &[]]), 2);
    for (lhs, rhs) in [("p U q", "!(!p R !q)"), ("p R q", "!(!p U !q)"), ("X(p)", "!X(!p)")] {
        let l = parse(lhs).unwrap();
        let r = parse(rhs).unwrap();
        for start in 0..6 {
            assert_eq!(satisfies(&t, &l, start), satisfies(&t, &r, start), "{lhs} at {start}");
        }
    }
}

// ─── Classification ────────────────────────────────────────────────

#[test]
fn classify_outer_operator_decides() {
    assert_eq!(classify(&parse("G(F(p))").unwrap()), SafetyLiveness::Safety);
    assert_eq!(classify(&parse("F(G(p))").unwrap()), SafetyLiveness::Liveness);
    assert_eq!(classify(&parse("(p U q) -> (r R s)").unwrap()), SafetyLiveness::Both);
    assert_eq!(classify(&parse("X(G(p))").unwrap()), SafetyLiveness::Neither);
    assert_eq!(classify(&parse("!F(p)").unwrap()), SafetyLiveness::Neither);
}

// ─── Traces ────────────────────────────────────────────────────────

#[test]
fn trace_all_propositions_once_in_order() {
    let t = Trace::simple(states(&[&["q", "p"], &["p", "r"], &["q"]]));
    assert_eq!(t.all_propositions(), vec!["q".to_string(), "p".to_string(), "r".to_string()]);
}

#[test]
fn trace_from_props_empty_and_holds() {
    let t = Trace::from_props(&[]);
    assert!(t.is_empty());
    assert_eq!(t.len(), 0);
    let t = Trace::from_props(&["a", "b"]);
    assert!(!t.is_empty());
    assert!(t.holds(2, "a"));
    assert!(!t.holds(3, "a"));
    assert!(t.holds(3, "b"));
}

#[test]
fn class_names() {
    assert_eq!(SafetyLiveness::Both.to_string(), "Both");
    assert_eq!(SafetyLiveness::Neither.to_string(), "Neither");
}

// ─── Printing and parsing back ─────────────────────────────────────

#[test]
fn printed_formula_parses_back() {
    let texts = [
        "G(request -> F(response))",
        "!(a & b)",
        "!X(p)",
        "(a U b) R !c",
        "a | b & c -> X(d)",
        "F(G(!(p | q)))",
    ];
    for text in texts.iter() {
        let f = parse(text).unwrap();
        let printed = f.to_string();
        assert_eq!(parse(&printed).unwrap(), f, "text {} printed as {}", text, printed);
    }
}

#[test]
fn printed_nested_binary_parses_back() {
    let f = LtlFormula::Implies(
        Box::new(LtlFormula::Until(Box::new(atom("a")), Box::new(atom("b")))),
        Box::new(LtlFormula::Not(Box::new(LtlFormula::Or(
            Box::new(atom("c")),
            Box::new(LtlFormula::Globally(Box::new(atom("d")))),
        )))),
    );
    assert_eq!(parse(&f.to_string()).unwrap(), f);
}

// ─── Ids, atoms, blanks, negation and the loop ─────────────────────

#[test]
fn formula_id_tells_formulas_apart() {
    let p = atom("p");
    let q = atom("q");
    let ids = [
        p.formula_id(),
        q.formula_id(),
        LtlFormula::Not(Box::new(atom("p"))).formula_id(),
        LtlFormula::Next(Box::new(atom("p"))).formula_id(),
        LtlFormula::And(Box::new(atom("p")), Box::new(atom("q"))).formula_id(),
        LtlFormula::And(Box::new(atom("q")), Box::new(atom("p"))).formula_id(),
        LtlFormula::Until(Box::new(atom("p")), Box::new(atom("q"))).formula_id(),
    ];
    for a in 0..ids.len() {
        for b in 0..ids.len() {
            if a != b {
                assert_ne!(ids[a], ids[b]);
            }
        }
    }
    assert_eq!(
        LtlFormula::And(Box::new(atom("p")), Box::new(atom("q"))).formula_id(),
        parse("p & q").unwrap().formula_id()
    );
}

#[test]
fn atom_token_decides_from_classification() {
    assert_eq!(atom_token("p_1", 0, &vec![true, false, true]).unwrap(), "p_1");
    assert_eq!(
        atom_token("p$", 3, &vec![true, false]).unwrap_err().message(),
        "Invalid atom 'p$' at index 3"
    );
    assert_eq!(atom_token("", 7, &vec![]).unwrap_err().message(), "Empty token at index 7");
    // the classification decides, not the characters themselves
    assert_eq!(atom_token("a$", 0, &vec![true, true]).unwrap(), "a$");
}

#[test]
fn blanks_next_to_symbols_do_not_matter() {
    let pairs = [
        ("p&q", " p & q "),
        ("!(a|b)->X(c)", "! ( a | b ) -> X ( c )"),
        ("G(p)", "G\t(\np\r)"),
    ];
    for (tight, loose) in pairs.iter() {
        assert_eq!(parse(tight).unwrap(), parse(loose).unwrap());
    }
    assert!(parse("p -> q").is_ok());
    assert_eq!(parse("p->q").unwrap(), parse("p-> q").unwrap());
    assert_eq!(parse("p->X(q)").unwrap(), parse("p->  X(q)").unwrap());
    assert!(parse("p - > q").is_err());
    assert!(parse("p ( q").is_err() && parse("p(q").is_err());
}

#[test]
fn negation_is_pointwise() {
    let t = Trace::new(states(&[&["p"], &["q"], &["p", "q"]]), 1);
    let fs = ["p", "q", "F(q)", "G(p)", "p U q", "p R q", "X(!p)"];
    for text in fs.iter() {
        let f = parse(text).unwrap();
        let not_f = LtlFormula::Not(Box::new(parse(text).unwrap()));
        for s in 0..6 {
            assert_eq!(satisfies(&t, &not_f, s), !satisfies(&t, &f, s), "{} at {}", text, s);
        }
    }
}

#[test]
fn satisfaction_repeats_with_the_loop() {
    let t = Trace::new(states(&[&["a"], &["p"], &["q"], &["p", "q"]]), 1);
    let period = t.loop_period();
    assert_eq!(period, 3);
    for text in ["p", "X(q)", "F(p & q)", "G(p | q)", "p U q", "q R p"].iter() {
        let f = parse(text).unwrap();
        for s in 1..5 {
            assert_eq!(satisfies(&t, &f, s + period), satisfies(&t, &f, s), "{} at {}", text, s);
        }
    }
}

#[test]
fn globally_or_finally_is_a_tautology_instance() {
    let t = Trace::simple(states(&[&["a"]]));
    let f = parse("G(!q) | F(q)").unwrap();
    assert!(satisfies(&t, &f, 0));
    let g = parse("!(G(!q) & F(q))").unwrap();
    assert!(satisfies(&t, &g, 0));
}
