//! Tests of the library's parts on concrete values.

use logic_theorist::{axioms, parse, try_parse, Expr, LogicTheorist, ParseError, Subst};

fn v(name: &str) -> Expr {
    Expr::var(name)
}

#[test]
fn implies_is_not_or() {
    let e = Expr::implies(v("a"), v("b"));
    assert_eq!(e, Expr::or(Expr::not(v("a")), v("b")));
    let (a, b) = e.as_implication().expect("an implication");
    assert_eq!(a, &v("a"));
    assert_eq!(b, &v("b"));
    assert!(Expr::or(v("a"), v("b")).as_implication().is_none());
    assert!(Expr::not(v("a")).as_implication().is_none());
}

#[test]
fn display_resugars_implication() {
    assert_eq!(parse("p -> q").to_string(), "(p -> q)");
    assert_eq!(parse("p | q").to_string(), "(p | q)");
    assert_eq!(parse("~(p | q)").to_string(), "~(p | q)");
    assert_eq!(parse("~~p").to_string(), "~~p");
    assert_eq!(parse("(p -> q) -> r").to_string(), "((p -> q) -> r)");
}

#[test]
fn display_then_parse_gives_back_the_formula() {
    for text in ["p", "~p", "p -> (q -> r)", "((a | b) | c) -> ~~d", "x_1 | ~(y2 -> é)"] {
        let e = parse(text);
        assert_eq!(parse(&e.to_string()), e);
    }
}

#[test]
fn precedence_and_associativity() {
    let (p, q, r) = (v("p"), v("q"), v("r"));
    assert_eq!(parse("~p | q -> r"), Expr::implies(Expr::or(Expr::not(p.clone()), q.clone()), r.clone()));
    assert_eq!(parse("p -> q -> r"), Expr::implies(p.clone(), Expr::implies(q.clone(), r.clone())));
    assert_eq!(parse("p | q | r"), Expr::or(Expr::or(p.clone(), q.clone()), r.clone()));
    assert_eq!(parse("p | (q | r)"), Expr::or(p, Expr::or(q, r)));
}

#[test]
fn white_space_is_skipped() {
    assert_eq!(parse("\tp\n->\u{3000}q  "), parse("p -> q"));
    assert_eq!(parse(" ( p ) "), v("p"));
}

#[test]
fn unicode_operators() {
    assert_eq!(parse("p → q"), parse("p -> q"));
    assert_eq!(parse("¬(p ∨ q) ⊃ r"), parse("~(p | q) -> r"));
}

#[test]
fn parse_errors() {
    assert_eq!(try_parse(""), Err(ParseError::ExpectedVariable { position: 0 }));
    assert_eq!(try_parse("p ->"), Err(ParseError::ExpectedVariable { position: 4 }));
    assert_eq!(try_parse("p | )"), Err(ParseError::ExpectedVariable { position: 4 }));
    assert_eq!(try_parse("(p | q"), Err(ParseError::MissingParenthesis));
    assert_eq!(try_parse("p q"), Err(ParseError::TrailingText));
    assert_eq!(try_parse("p)"), Err(ParseError::TrailingText));
    // the position counts characters after `⊃` became `->`
    assert_eq!(try_parse("¬ ⊃"), Err(ParseError::ExpectedVariable { position: 2 }));
    assert_eq!(try_parse("p -> q"), Ok(parse("p -> q")));
}

#[test]
fn substitution_replaces_bound_variables_only() {
    let mut s = Subst::new();
    assert_eq!(s.len(), 0);
    s.insert("p".to_string(), parse("a | b"));
    s.insert("q".to_string(), v("c"));
    s.insert("p".to_string(), parse("~a"));
    assert_eq!(s.len(), 2);
    assert_eq!(s.get(&"p".to_string()), Some(&parse("~a")));
    assert_eq!(s.get(&"r".to_string()), None);
    assert_eq!(parse("p -> (q | r)").substitute(&s), parse("~a -> (c | r)"));
}

#[test]
fn variables_in_order_of_first_occurrence() {
    let mut out = Vec::new();
    parse("(q | p) -> (p | r)").variables(&mut out);
    assert_eq!(out, vec!["q".to_string(), "p".to_string(), "r".to_string()]);
    let mut out = vec!["r".to_string()];
    parse("p | r").variables(&mut out);
    assert_eq!(out, vec!["r".to_string(), "p".to_string()]);
}

#[test]
fn rename_apart_suffixes_every_variable() {
    let e = parse("(p | q) -> p").rename_apart("#12");
    assert_eq!(e, Expr::implies(Expr::or(v("p#12"), v("q#12")), v("p#12")));
    assert_eq!(e.to_string(), "((p#12 | q#12) -> p#12)");
}

#[test]
fn matching_binds_consistently() {
    let m = logic_theorist::expr::matches(&parse("p | p"), &parse("(a -> b) | (a -> b)"), &Subst::new())
        .expect("both sides agree");
    assert_eq!(m.len(), 1);
    assert_eq!(m.get(&"p".to_string()), Some(&parse("a -> b")));
    assert!(logic_theorist::expr::matches(&parse("p | p"), &parse("a | b"), &Subst::new()).is_none());
    assert!(logic_theorist::expr::matches(&parse("~p"), &parse("a | b"), &Subst::new()).is_none());
    assert!(logic_theorist::expr::matches(&parse("p | q"), &parse("~a"), &Subst::new()).is_none());
}

#[test]
fn matching_extends_the_given_substitution() {
    let mut s = Subst::new();
    s.insert("p".to_string(), v("a"));
    assert!(logic_theorist::expr::matches(&parse("p | q"), &parse("b | c"), &s).is_none());
    let m = logic_theorist::expr::matches(&parse("p | q"), &parse("a | c"), &s).expect("extends");
    assert_eq!(m.len(), 2);
    assert_eq!(m.get(&"q".to_string()), Some(&v("c")));
    assert_eq!(parse("p | q").substitute(&m), parse("a | c"));
}

#[test]
fn the_five_axioms() {
    let ax = axioms();
    let names: Vec<&str> = ax.iter().map(|t| t.name.as_str()).collect();
    assert_eq!(names, vec!["1.2", "1.3", "1.4", "1.5", "1.6"]);
    assert_eq!(ax[0].statement, parse("(p | p) -> p"));
    assert_eq!(ax[1].statement, parse("p -> (p | q)"));
    assert_eq!(ax[2].statement, parse("(p | q) -> (q | p)"));
    assert_eq!(ax[3].statement, parse("(p | (q | r)) -> (q | (p | r))"));
    assert_eq!(ax[4].statement, parse("(p -> q) -> ((r | p) -> (r | q))"));
}

#[test]
fn new_and_default() {
    let lt = LogicTheorist::new(3);
    assert_eq!(lt.max_depth, 3);
    assert_eq!(lt.theorems.len(), 5);
    let d = LogicTheorist::default();
    assert_eq!(d.max_depth, 6);
    assert_eq!(d.theorems.len(), 5);
}

#[test]
fn instance_of_an_axiom_is_a_one_step_proof() {
    let lt = LogicTheorist::new(1);
    let p = lt.prove(&parse("(a | a) -> a")).expect("an instance of 1.2");
    assert_eq!(p.method, "substitution");
    assert_eq!(p.reference, "1.2");
    assert_eq!(p.step_count(), 1);
    assert_eq!(p.checked_step_count(), Some(1));
    assert_eq!(p.render(), "((a | a) -> a)    [substitution via 1.2]");
}

#[test]
fn depth_zero_proves_nothing() {
    let lt = LogicTheorist::new(0);
    assert!(lt.prove(&parse("(a | a) -> a")).is_none());
}

#[test]
fn syllogism_by_detachment() {
    let lt = LogicTheorist::new(7);
    let p = lt.prove(&parse("(p -> q) -> ((q -> r) -> (p -> r))")).expect("*2.06");
    assert_eq!(p.step_count(), 2);
    assert_eq!(
        p.render(),
        "((p -> q) -> ((q -> r) -> (p -> r)))    [detachment via 1.5]\n  ((q -> r) -> ((p -> q) -> (p -> r)))    [substitution via 1.6]"
    );
}

#[test]
fn learning_adds_only_proved_theorems() {
    let mut lt = LogicTheorist::new(5);
    assert!(lt.learn("bad", &parse("p -> q")).is_none());
    assert_eq!(lt.theorems.len(), 5);
    let p = lt.learn("2.08", &parse("p -> p")).expect("*2.08");
    assert_eq!(p.conclusion, parse("p -> p"));
    assert_eq!(lt.theorems.len(), 6);
    assert_eq!(lt.theorems[5].name, "2.08");
    assert_eq!(lt.theorems[5].statement, parse("p -> p"));
    let q = lt.prove(&parse("~p | p")).expect("*2.1 from *2.08");
    assert_eq!(q.render(), "(p -> p)    [substitution via 2.08]");
}

#[test]
fn excluded_middle_after_learning() {
    let mut lt = LogicTheorist::new(7);
    lt.learn("2.08", &parse("p -> p")).expect("*2.08");
    let p = lt.prove(&parse("p | ~p")).expect("*2.11");
    assert_eq!(p.render(), "(p | ~p)    [detachment via 1.4]\n  (p -> p)    [substitution via 2.08]");
}

#[test]
fn non_tautologies_are_never_proved() {
    let lt = LogicTheorist::new(4);
    for text in ["p", "p | q", "~p", "(p -> q) -> p", "p -> ~p"] {
        assert!(lt.prove(&parse(text)).is_none(), "{text} is not a tautology");
    }
}

/// The truth value of `e` when the variables in `trues` are true and all
/// others false.
fn eval(e: &Expr, trues: &[String]) -> bool {
    match e {
        Expr::Var(name) => trues.contains(name),
        Expr::Not(x) => !eval(x, trues),
        Expr::Or(a, b) => eval(a, trues) || eval(b, trues),
    }
}

fn is_tautology(e: &Expr) -> bool {
    let mut vars = Vec::new();
    e.variables(&mut vars);
    (0..(1u32 << vars.len())).all(|bits| {
        let trues: Vec<String> = vars
            .iter()
            .enumerate()
            .filter(|(i, _)| bits & (1 << i) != 0)
            .map(|(_, v)| v.clone())
            .collect();
        eval(e, &trues)
    })
}

#[test]
fn axioms_and_learned_theorems_are_tautologies() {
    for t in axioms() {
        assert!(is_tautology(&t.statement), "axiom {}", t.name);
    }
    let mut lt = LogicTheorist::new(7);
    for (name, text) in [("2.05", "(q -> r) -> ((p -> q) -> (p -> r))"), ("2.08", "p -> p"), ("2.1", "~p | p"), ("2.11", "p | ~p")] {
        lt.learn(name, &parse(text)).expect("provable");
    }
    for t in &lt.theorems {
        assert!(is_tautology(&t.statement), "theorem {}", t.name);
    }
    assert!(!is_tautology(&parse("p -> q")));
}

#[test]
fn rendering_has_one_line_per_node() {
    let mut lt = LogicTheorist::new(7);
    for (name, text) in [("2.05", "(q -> r) -> ((p -> q) -> (p -> r))"), ("2.06", "(p -> q) -> ((q -> r) -> (p -> r))"), ("2.08", "p -> p"), ("2.11", "p | ~p")] {
        let p = lt.learn(name, &parse(text)).expect("provable");
        assert_eq!(p.render().split('\n').count(), p.step_count());
    }
}

#[test]
fn no_smaller_depth_limit_finds_a_proof() {
    let lt = LogicTheorist::new(7);
    for text in ["(p -> q) -> ((q -> r) -> (p -> r))", "p -> p", "p -> (q | p)"] {
        let goal = parse(text);
        let pf = lt.prove(&goal).expect("provable");
        if pf.step_count() >= 2 {
            let mut lt2 = LogicTheorist::new(pf.step_count() - 2);
            lt2.theorems = lt.theorems.clone();
            assert!(lt2.prove(&goal).is_none(), "{text}");
        }
    }
}

#[test]
fn alphanumeric_names_read_back() {
    for text in ["变量_1 -> ~Ωmega", "_ | x9", "ß | (ä -> ö)"] {
        let e = parse(text);
        assert_eq!(parse(&e.to_string()), e);
    }
}
