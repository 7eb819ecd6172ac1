//! What holds of every proof the prover returns, and of every search.

use vstd::prelude::*;
use crate::expr::{Formula, implies_f, instance_of, lemma_rename_is_apply, lookup, match_result};
use crate::prover::{
    NamedFormula, ProofTree, axiom_list, indent, join_lines, node_line, tag, tree_lines, tree_size,
    trees_lines, trees_size,
};
use crate::search::{
    Method, first_instance, method_name, node, leaf, prove_spec, deepen, search, subgoal_for, suffix,
    the_match, try_method, next_counter,
};

verus! {

/// Some theorem called `name` in `kb` has `f` as an instance.
pub open spec fn justified_by(kb: Seq<NamedFormula>, name: Seq<char>, f: Formula) -> bool {
    exists|k: int| 0 <= k < kb.len() && kb[k].name == name && #[trigger] instance_of(kb[k].formula, f)
}

/// Every step of the proof tree is justified by a theorem of `kb`, as its method says:
///  - substitution: the conclusion is an instance of the theorem;
///  - detachment: `premise -> conclusion` is an instance of the theorem;
///  - forward chaining: the conclusion is `x -> z`, the premise `b -> z`, and
///    `x -> b` is an instance of the theorem;
///  - backward chaining: the conclusion is `x -> z`, the premise `x -> b`, and
///    `b -> z` is an instance of the theorem.
pub open spec fn justified(kb: Seq<NamedFormula>, t: ProofTree) -> bool
    decreases t,
{
    if t.method == method_name(Method::Substitution) {
        t.premises.len() == 0 && justified_by(kb, t.reference, t.conclusion)
    } else if t.premises.len() != 1 {
        false
    } else {
        let prem = t.premises[0];
        &&& justified(kb, prem)
        &&& if t.method == method_name(Method::Detachment) {
            justified_by(kb, t.reference, implies_f(prem.conclusion, t.conclusion))
        } else if t.method == method_name(Method::ForwardChaining) {
            match (t.conclusion.implication(), prem.conclusion.implication()) {
                (Some((x, z)), Some((b, z2))) => z2 == z && justified_by(kb, t.reference, implies_f(x, b)),
                _ => false,
            }
        } else if t.method == method_name(Method::BackwardChaining) {
            match (t.conclusion.implication(), prem.conclusion.implication()) {
                (Some((x, z)), Some((x2, b))) => x2 == x && justified_by(kb, t.reference, implies_f(b, z)),
                _ => false,
            }
        } else {
            false
        }
    }
}

/// The substitution that applies `m1` and then `m2`.
pub open spec fn compose(m1: Map<Seq<char>, Formula>, m2: Map<Seq<char>, Formula>) -> Map<Seq<char>, Formula> {
    Map::new(|v: Seq<char>| true, |v: Seq<char>| lookup(m1, v).apply(m2))
}

/// Substituting twice is substituting once, by the composition.
pub proof fn lemma_compose(f: Formula, m1: Map<Seq<char>, Formula>, m2: Map<Seq<char>, Formula>)
    ensures
        f.apply(m1).apply(m2) == f.apply(compose(m1, m2)),
    decreases f,
{
    match f {
        Formula::Var(v) => {},
        Formula::Not(x) => {
            lemma_compose(*x, m1, m2);
        },
        Formula::Or(a, b) => {
            lemma_compose(*a, m1, m2);
            lemma_compose(*b, m1, m2);
        },
    }
}

/// Every instance of a renamed theorem is an instance of the theorem.
pub proof fn lemma_renamed_instance(f: Formula, sfx: Seq<char>, s: Map<Seq<char>, Formula>)
    ensures
        instance_of(f, f.rename(sfx).apply(s)),
{
    let ren = Map::new(|v: Seq<char>| true, |v: Seq<char>| Formula::Var(v + sfx));
    lemma_rename_is_apply(f, ren, sfx);
    lemma_compose(f, ren, s);
    let m = compose(ren, s);
    assert(Map::<Seq<char>, Formula>::empty().submap_of(m));
    assert(f.apply(m) == f.rename(sfx).apply(s));
}

/// Where `target` is an instance of `pattern`, `the_match` is the least
/// substitution that shows it.
pub proof fn lemma_the_match(pattern: Formula, target: Formula)
    requires
        instance_of(pattern, target),
    ensures
        match_result(pattern, target, Map::empty(), the_match(pattern, target)),
{
    let s = Map::<Seq<char>, Formula>::empty();
    let m = choose|m: Map<Seq<char>, Formula>| s.submap_of(m) && #[trigger] pattern.apply(m) == target;
    let r = Map::new(|v: Seq<char>| pattern.free_vars().contains(v), |v: Seq<char>| lookup(m, v));
    crate::expr::lemma_apply_agree(pattern, r, m);
    assert(r.dom() =~= s.dom().union(pattern.free_vars()));
    assert(match_result(pattern, target, s, r));
}

/// A theorem's statement that was renamed apart and then instantiated by a
/// match to become `goal`-related: the instance is one of the theorem.
proof fn lemma_step_instance(f: Formula, sfx: Seq<char>, s: Map<Seq<char>, Formula>, target: Formula)
    requires
        f.rename(sfx).apply(s) == target,
    ensures
        instance_of(f, target),
{
    lemma_renamed_instance(f, sfx, s);
}

proof fn lemma_method_names()
    ensures
        method_name(Method::Substitution) != method_name(Method::Detachment),
        method_name(Method::Substitution) != method_name(Method::ForwardChaining),
        method_name(Method::Substitution) != method_name(Method::BackwardChaining),
        method_name(Method::Detachment) != method_name(Method::ForwardChaining),
        method_name(Method::Detachment) != method_name(Method::BackwardChaining),
        method_name(Method::ForwardChaining) != method_name(Method::BackwardChaining),
{
    reveal_strlit("substitution");
    reveal_strlit("detachment");
    reveal_strlit("forward-chaining");
    reveal_strlit("backward-chaining");
    assert("substitution"@.len() == 12);
    assert("detachment"@.len() == 10);
    assert("forward-chaining"@.len() == 16);
    assert("backward-chaining"@.len() == 17);
}

proof fn lemma_first_instance_sound(kb: Seq<NamedFormula>, goal: Formula, i: int)
    ensures
        first_instance(kb, goal, i) matches Some(p) ==> p.conclusion == goal && justified(kb, p),
    decreases kb.len() - i,
{
    if 0 <= i < kb.len() {
        if instance_of(kb[i].formula, goal) {
            let p = leaf(goal, Method::Substitution, kb[i].name);
            assert(justified_by(kb, p.reference, p.conclusion));
        } else {
            lemma_first_instance_sound(kb, goal, i + 1);
        }
    }
}

/// Every proof that a search finds proves its goal, each step justified by `kb`.
pub proof fn lemma_search_sound(kb: Seq<NamedFormula>, goal: Formula, depth: int, seen: Seq<Formula>, c: u64)
    ensures
        search(kb, goal, depth, seen, c).0 matches Some(p) ==> p.conclusion == goal && justified(kb, p),
    decreases depth, 1nat, 0int,
{
    if !seen.contains(goal) {
        let seen2 = seen.push(goal);
        lemma_first_instance_sound(kb, goal, 0);
        if first_instance(kb, goal, 0) is None && depth > 0 {
            lemma_try_sound(Method::Detachment, kb, goal, depth, seen2, c, 0);
            let c1 = try_method(Method::Detachment, kb, goal, depth, seen2, c, 0).1;
            lemma_try_sound(Method::ForwardChaining, kb, goal, depth, seen2, c1, 0);
            let c2 = try_method(Method::ForwardChaining, kb, goal, depth, seen2, c1, 0).1;
            lemma_try_sound(Method::BackwardChaining, kb, goal, depth, seen2, c2, 0);
        }
    }
}

proof fn lemma_try_sound(
    m: Method,
    kb: Seq<NamedFormula>,
    goal: Formula,
    depth: int,
    seen: Seq<Formula>,
    c: u64,
    i: int,
)
    requires
        m !is Substitution,
    ensures
        try_method(m, kb, goal, depth, seen, c, i).0 matches Some(p) ==> p.conclusion == goal && justified(kb, p),
    decreases depth, 0nat, kb.len() - i,
{
    if !(i < 0 || i >= kb.len() || depth <= 0) {
        let c1 = next_counter(c);
        let sfx = suffix(c1);
        let f = kb[i].formula;
        let stmt = f.rename(sfx);
        match subgoal_for(m, stmt, goal) {
            None => {
                lemma_try_sound(m, kb, goal, depth, seen, c1, i + 1);
            },
            Some(sub) => {
                if sub == goal {
                    lemma_try_sound(m, kb, goal, depth, seen, c1, i + 1);
                } else {
                    let (r, c2) = search(kb, sub, depth - 1, seen, c1);
                    lemma_search_sound(kb, sub, depth - 1, seen, c1);
                    match r {
                        Some(p) => {
                            lemma_method_names();
                            let t = node(goal, m, kb[i].name, p);
                            let (ante, cons) = stmt.implication()->0;
                            assert(stmt == implies_f(ante, cons));
                            match m {
                                Method::Detachment => {
                                    lemma_the_match(cons, goal);
                                    let s = the_match(cons, goal);
                                    assert(Formula::Not(Box::new(ante)).apply(s) == Formula::Not(Box::new(ante.apply(s))));
                                    assert(stmt.apply(s) == implies_f(sub, goal));
                                    lemma_step_instance(f, sfx, s, implies_f(sub, goal));
                                    assert(justified_by(kb, t.reference, implies_f(p.conclusion, goal)));
                                },
                                Method::ForwardChaining => {
                                    let (a, cc) = goal.implication()->0;
                                    lemma_the_match(ante, a);
                                    let s = the_match(ante, a);
                                    let b = cons.apply(s);
                                    assert(Formula::Not(Box::new(ante)).apply(s) == Formula::Not(Box::new(ante.apply(s))));
                                    assert(stmt.apply(s) == implies_f(a, b));
                                    lemma_step_instance(f, sfx, s, implies_f(a, b));
                                    assert(justified_by(kb, t.reference, implies_f(a, b)));
                                    assert(sub.implication() == Some((b, cc)));
                                },
                                Method::BackwardChaining => {
                                    let (a, cc) = goal.implication()->0;
                                    lemma_the_match(cons, cc);
                                    let s = the_match(cons, cc);
                                    let b = ante.apply(s);
                                    assert(Formula::Not(Box::new(ante)).apply(s) == Formula::Not(Box::new(ante.apply(s))));
                                    assert(stmt.apply(s) == implies_f(b, cc));
                                    lemma_step_instance(f, sfx, s, implies_f(b, cc));
                                    assert(justified_by(kb, t.reference, implies_f(b, cc)));
                                    assert(sub.implication() == Some((a, b)));
                                },
                                Method::Substitution => {},
                            }
                        },
                        None => {
                            lemma_try_sound(m, kb, goal, depth, seen, c2, i + 1);
                        },
                    }
                }
            },
        }
    }
}

proof fn lemma_deepen_sound(kb: Seq<NamedFormula>, goal: Formula, d: nat, max_depth: nat)
    ensures
        deepen(kb, goal, d, max_depth) matches Some(p) ==> p.conclusion == goal && justified(kb, p),
    decreases max_depth + 1 - d,
{
    if d <= max_depth {
        lemma_search_sound(kb, goal, (d as i32) as int, Seq::empty(), 0);
        lemma_deepen_sound(kb, goal, d + 1, max_depth);
    }
}

/// Soundness: every proof that the prover returns concludes the goal, and
/// every step of it is justified by a theorem of the knowledge base (a
/// substitution instance of it, a detachment or a chaining through it).
pub proof fn law_prove_sound(kb: Seq<NamedFormula>, goal: Formula, max_depth: nat)
    ensures
        prove_spec(kb, goal, max_depth) matches Some(p) ==> p.conclusion == goal && justified(kb, p),
{
    lemma_deepen_sound(kb, goal, 1, max_depth);
}

proof fn lemma_first_instance_found(kb: Seq<NamedFormula>, goal: Formula, i: int, k: int)
    requires
        0 <= i <= k < kb.len(),
        instance_of(kb[k].formula, goal),
    ensures
        first_instance(kb, goal, i) is Some,
    decreases k - i,
{
    if !instance_of(kb[i].formula, goal) {
        lemma_first_instance_found(kb, goal, i + 1, k);
    }
}

/// The substitution method: a goal that is a substitution instance of a
/// theorem of the knowledge base is proved, as soon as the depth limit is at
/// least 1, by substitution from the first such theorem.
pub proof fn law_instances_proved(kb: Seq<NamedFormula>, goal: Formula, max_depth: nat, k: int)
    requires
        max_depth >= 1,
        0 <= k < kb.len(),
        instance_of(kb[k].formula, goal),
    ensures
        prove_spec(kb, goal, max_depth) is Some,
        prove_spec(kb, goal, max_depth) == first_instance(kb, goal, 0),
{
    lemma_first_instance_found(kb, goal, 0, k);
    assert(!Seq::<Formula>::empty().contains(goal));
}

/// With a depth limit of 0 nothing is proved.
pub proof fn law_depth_zero(kb: Seq<NamedFormula>, goal: Formula)
    ensures
        prove_spec(kb, goal, 0) is None,
{
}

/// The truth value of a formula under an assignment of truth values to variables.
pub open spec fn eval(f: Formula, val: spec_fn(Seq<char>) -> bool) -> bool
    decreases f,
{
    match f {
        Formula::Var(v) => val(v),
        Formula::Not(x) => !eval(*x, val),
        Formula::Or(a, b) => eval(*a, val) || eval(*b, val),
    }
}

/// True under every assignment.
pub open spec fn tautology(f: Formula) -> bool {
    forall|val: spec_fn(Seq<char>) -> bool| #[trigger] eval(f, val)
}

/// Every theorem of the knowledge base is a tautology.
pub open spec fn all_tautologies(kb: Seq<NamedFormula>) -> bool {
    forall|k: int| 0 <= k < kb.len() ==> tautology(#[trigger] kb[k].formula)
}

/// The truth value of an instance is that of the formula under the assignment
/// that gives each variable the value of what replaces it.
pub proof fn lemma_eval_apply(f: Formula, m: Map<Seq<char>, Formula>, val: spec_fn(Seq<char>) -> bool)
    ensures
        eval(f.apply(m), val) == eval(f, |v: Seq<char>| eval(lookup(m, v), val)),
    decreases f,
{
    match f {
        Formula::Var(v) => {},
        Formula::Not(x) => {
            lemma_eval_apply(*x, m, val);
        },
        Formula::Or(a, b) => {
            lemma_eval_apply(*a, m, val);
            lemma_eval_apply(*b, m, val);
        },
    }
}

/// Instances of tautologies are tautologies.
pub proof fn lemma_instance_tautology(p: Formula, t: Formula)
    requires
        instance_of(p, t),
        tautology(p),
    ensures
        tautology(t),
{
    let m = choose|m: Map<Seq<char>, Formula>| Map::<Seq<char>, Formula>::empty().submap_of(m) && #[trigger] p.apply(m) == t;
    assert forall|val: spec_fn(Seq<char>) -> bool| #[trigger] eval(t, val) by {
        lemma_eval_apply(p, m, val);
        let val2 = |v: Seq<char>| eval(lookup(m, v), val);
        assert(eval(p, val2));
    }
}

proof fn lemma_justified_by_tautology(kb: Seq<NamedFormula>, name: Seq<char>, f: Formula)
    requires
        all_tautologies(kb),
        justified_by(kb, name, f),
    ensures
        tautology(f),
{
    let k = choose|k: int| 0 <= k < kb.len() && kb[k].name == name && #[trigger] instance_of(kb[k].formula, f);
    assert(tautology(kb[k].formula));
    lemma_instance_tautology(kb[k].formula, f);
}

/// A justified proof from tautologies concludes a tautology.
pub proof fn lemma_justified_tautology(kb: Seq<NamedFormula>, t: ProofTree)
    requires
        all_tautologies(kb),
        justified(kb, t),
    ensures
        tautology(t.conclusion),
    decreases t,
{
    reveal_with_fuel(eval, 3);
    if t.method == method_name(Method::Substitution) {
        lemma_justified_by_tautology(kb, t.reference, t.conclusion);
    } else {
        let prem = t.premises[0];
        lemma_justified_tautology(kb, prem);
        if t.method == method_name(Method::Detachment) {
            let f = implies_f(prem.conclusion, t.conclusion);
            lemma_justified_by_tautology(kb, t.reference, f);
            assert forall|val: spec_fn(Seq<char>) -> bool| #[trigger] eval(t.conclusion, val) by {
                assert(eval(f, val));
                assert(eval(prem.conclusion, val));
            }
        } else if t.method == method_name(Method::ForwardChaining) {
            let (x, z) = t.conclusion.implication()->0;
            let (b, z2) = prem.conclusion.implication()->0;
            let f = implies_f(x, b);
            lemma_justified_by_tautology(kb, t.reference, f);
            assert(t.conclusion == implies_f(x, z));
            assert(prem.conclusion == implies_f(b, z));
            assert forall|val: spec_fn(Seq<char>) -> bool| #[trigger] eval(t.conclusion, val) by {
                assert(eval(f, val));
                assert(eval(prem.conclusion, val));
            }
        } else {
            let (x, z) = t.conclusion.implication()->0;
            let (x2, b) = prem.conclusion.implication()->0;
            let f = implies_f(b, z);
            lemma_justified_by_tautology(kb, t.reference, f);
            assert(t.conclusion == implies_f(x, z));
            assert(prem.conclusion == implies_f(x, b));
            assert forall|val: spec_fn(Seq<char>) -> bool| #[trigger] eval(t.conclusion, val) by {
                assert(eval(f, val));
                assert(eval(prem.conclusion, val));
            }
        }
    }
}

/// The five axioms are tautologies.
pub proof fn law_axioms_are_tautologies()
    ensures
        all_tautologies(axiom_list()),
{
    reveal_with_fuel(eval, 6);
    assert forall|k: int| 0 <= k < axiom_list().len() implies tautology(#[trigger] axiom_list()[k].formula) by {
        assert forall|val: spec_fn(Seq<char>) -> bool| #[trigger] eval(axiom_list()[k].formula, val) by {
            if k == 0 {
            } else if k == 1 {
            } else if k == 2 {
            } else if k == 3 {
            } else {
            }
        }
    }
}

/// From a knowledge base of tautologies only tautologies are proved: a
/// formula that is false under some assignment is never proved.
pub proof fn law_proved_are_tautologies(kb: Seq<NamedFormula>, goal: Formula, max_depth: nat)
    requires
        all_tautologies(kb),
    ensures
        prove_spec(kb, goal, max_depth) is Some ==> tautology(goal),
{
    law_prove_sound(kb, goal, max_depth);
    if let Some(p) = prove_spec(kb, goal, max_depth) {
        lemma_justified_tautology(kb, p);
    }
}

/// Learning keeps a knowledge base of tautologies one of tautologies.
pub proof fn law_learning_keeps_tautologies(kb: Seq<NamedFormula>, name: Seq<char>, goal: Formula, max_depth: nat)
    requires
        all_tautologies(kb),
        prove_spec(kb, goal, max_depth) is Some,
    ensures
        all_tautologies(kb.push(NamedFormula { name, formula: goal })),
{
    law_proved_are_tautologies(kb, goal, max_depth);
    let kb2 = kb.push(NamedFormula { name, formula: goal });
    assert forall|k: int| 0 <= k < kb2.len() implies tautology(#[trigger] kb2[k].formula) by {
        if k < kb.len() {
            assert(kb2[k] == kb[k]);
        }
    }
}

/// No newline stands in `s`.
pub open spec fn no_newline(s: Seq<char>) -> bool {
    forall|i: int| 0 <= i < s.len() ==> #[trigger] s[i] != '\n'
}

/// The number of newlines in `s`.
pub open spec fn newlines(s: Seq<char>) -> nat
    decreases s.len(),
{
    if s.len() == 0 {
        0
    } else {
        newlines(s.drop_last()) + if s.last() == '\n' {
            1nat
        } else {
            0nat
        }
    }
}

/// No variable name of the formula holds a newline.
pub open spec fn formula_without_newline(f: Formula) -> bool
    decreases f,
{
    match f {
        Formula::Var(v) => no_newline(v),
        Formula::Not(x) => formula_without_newline(*x),
        Formula::Or(a, b) => formula_without_newline(*a) && formula_without_newline(*b),
    }
}

/// No variable name, method or reference anywhere in the proof tree holds a newline.
pub open spec fn tree_without_newline(t: ProofTree) -> bool
    decreases t,
{
    &&& formula_without_newline(t.conclusion)
    &&& no_newline(t.method)
    &&& no_newline(t.reference)
    &&& trees_without_newline(t.premises)
}

pub open spec fn trees_without_newline(ts: Seq<ProofTree>) -> bool
    decreases ts,
{
    if ts.len() == 0 {
        true
    } else {
        trees_without_newline(ts.subrange(0, ts.len() - 1)) && tree_without_newline(ts[ts.len() - 1])
    }
}

proof fn lemma_newlines_concat(a: Seq<char>, b: Seq<char>)
    ensures
        newlines(a + b) == newlines(a) + newlines(b),
    decreases b.len(),
{
    if b.len() == 0 {
        assert(a + b =~= a);
    } else {
        lemma_newlines_concat(a, b.drop_last());
        assert((a + b).drop_last() =~= a + b.drop_last());
    }
}

proof fn lemma_no_newline(s: Seq<char>)
    requires
        no_newline(s),
    ensures
        newlines(s) == 0,
    decreases s.len(),
{
    if s.len() > 0 {
        assert(no_newline(s.drop_last())) by {
            assert forall|i: int| 0 <= i < s.drop_last().len() implies #[trigger] s.drop_last()[i] != '\n' by {
                assert(s.drop_last()[i] == s[i]);
            }
        }
        lemma_no_newline(s.drop_last());
        assert(s.last() == s[s.len() - 1]);
    }
}

proof fn lemma_no_newline_concat(a: Seq<char>, b: Seq<char>)
    requires
        no_newline(a),
        no_newline(b),
    ensures
        no_newline(a + b),
{
    assert forall|i: int| 0 <= i < (a + b).len() implies #[trigger] (a + b)[i] != '\n' by {
        if i < a.len() {
            assert((a + b)[i] == a[i]);
        } else {
            assert((a + b)[i] == b[i - a.len()]);
        }
    }
}

proof fn lemma_display_without_newline(f: Formula)
    requires
        formula_without_newline(f),
    ensures
        no_newline(f.display()),
    decreases f,
{
    match f {
        Formula::Var(v) => {},
        Formula::Not(x) => {
            lemma_display_without_newline(*x);
            lemma_no_newline_concat(seq!['~'], x.display());
        },
        Formula::Or(l, r) => {
            lemma_display_without_newline(*r);
            assert(formula_without_newline(*l));
            match *l {
                Formula::Not(a) => {
                    assert(formula_without_newline(*a));
                    lemma_display_without_newline(*a);
                    let p1 = seq!['('] + a.display();
                    lemma_no_newline_concat(seq!['('], a.display());
                    lemma_no_newline_concat(p1, seq![' ', '-', '>', ' ']);
                    lemma_no_newline_concat(p1 + seq![' ', '-', '>', ' '], r.display());
                    lemma_no_newline_concat(p1 + seq![' ', '-', '>', ' '] + r.display(), seq![')']);
                },
                _ => {
                    lemma_display_without_newline(*l);
                    let p1 = seq!['('] + l.display();
                    lemma_no_newline_concat(seq!['('], l.display());
                    lemma_no_newline_concat(p1, seq![' ', '|', ' ']);
                    lemma_no_newline_concat(p1 + seq![' ', '|', ' '], r.display());
                    lemma_no_newline_concat(p1 + seq![' ', '|', ' '] + r.display(), seq![')']);
                },
            }
        },
    }
}

proof fn lemma_line_without_newline(t: ProofTree, depth: nat)
    requires
        tree_without_newline(t),
    ensures
        no_newline(node_line(t, depth)),
{
    lemma_display_without_newline(t.conclusion);
    let i = indent(depth);
    let a = i + t.conclusion.display();
    lemma_no_newline_concat(i, t.conclusion.display());
    lemma_no_newline_concat(a, seq![' ', ' ', ' ', ' ']);
    if t.reference.len() == 0 {
        lemma_no_newline_concat(seq!['['], t.method);
        lemma_no_newline_concat(seq!['['] + t.method, seq![']']);
    } else {
        lemma_no_newline_concat(seq!['['], t.method);
        lemma_no_newline_concat(seq!['['] + t.method, seq![' ', 'v', 'i', 'a', ' ']);
        lemma_no_newline_concat(seq!['['] + t.method + seq![' ', 'v', 'i', 'a', ' '], t.reference);
        lemma_no_newline_concat(seq!['['] + t.method + seq![' ', 'v', 'i', 'a', ' '] + t.reference, seq![']']);
    }
    lemma_no_newline_concat(a + seq![' ', ' ', ' ', ' '], tag(t));
}

/// A proof tree has one line per node, and none of them holds a newline
/// when no name, method or reference of the tree does.
proof fn lemma_tree_lines(t: ProofTree, depth: nat)
    ensures
        tree_lines(t, depth).len() == tree_size(t),
        tree_without_newline(t) ==> forall|i: int|
            0 <= i < tree_lines(t, depth).len() ==> no_newline(#[trigger] tree_lines(t, depth)[i]),
    decreases t,
{
    lemma_trees_lines(t.premises, depth + 1);
    if tree_without_newline(t) {
        lemma_line_without_newline(t, depth);
        let ls = tree_lines(t, depth);
        assert forall|i: int| 0 <= i < ls.len() implies no_newline(#[trigger] ls[i]) by {
            if i > 0 {
                assert(ls[i] == trees_lines(t.premises, depth + 1)[i - 1]);
            }
        }
    }
}

proof fn lemma_trees_lines(ts: Seq<ProofTree>, depth: nat)
    ensures
        trees_lines(ts, depth).len() == trees_size(ts),
        trees_without_newline(ts) ==> forall|i: int|
            0 <= i < trees_lines(ts, depth).len() ==> no_newline(#[trigger] trees_lines(ts, depth)[i]),
    decreases ts,
{
    if ts.len() > 0 {
        let pre = ts.subrange(0, ts.len() - 1);
        let last = ts[ts.len() - 1];
        lemma_trees_lines(pre, depth);
        lemma_tree_lines(last, depth);
        if trees_without_newline(ts) {
            let a = trees_lines(pre, depth);
            let b = tree_lines(last, depth);
            assert forall|i: int| 0 <= i < (a + b).len() implies no_newline(#[trigger] (a + b)[i]) by {
                if i < a.len() {
                    assert((a + b)[i] == a[i]);
                } else {
                    assert((a + b)[i] == b[i - a.len()]);
                }
            }
        }
    }
}

proof fn lemma_join_lines(ls: Seq<Seq<char>>)
    requires
        ls.len() >= 1,
        forall|i: int| 0 <= i < ls.len() ==> no_newline(#[trigger] ls[i]),
    ensures
        newlines(join_lines(ls)) + 1 == ls.len(),
    decreases ls.len(),
{
    if ls.len() == 1 {
        lemma_no_newline(ls[0]);
    } else {
        let d = ls.drop_last();
        assert forall|i: int| 0 <= i < d.len() implies no_newline(#[trigger] d[i]) by {
            assert(d[i] == ls[i]);
        }
        lemma_join_lines(d);
        assert(no_newline(ls[ls.len() - 1]));
        lemma_no_newline(ls.last());
        lemma_newlines_concat(join_lines(d), seq!['\n']);
        lemma_newlines_concat(join_lines(d) + seq!['\n'], ls.last());
        assert(newlines(seq!['\n']) == 1) by {
            let nl = seq!['\n'];
            assert(nl.drop_last() =~= Seq::<char>::empty());
            assert(newlines(nl.drop_last()) == 0);
            assert(nl.last() == '\n');
        }
    }
}

/// The rendering of a proof has one line per node: where no variable name,
/// method or reference in the tree holds a newline, the rendered text holds
/// one newline fewer than the tree has nodes.
pub proof fn law_render_one_line_per_node(t: ProofTree)
    requires
        tree_without_newline(t),
    ensures
        tree_lines(t, 0).len() == tree_size(t),
        newlines(join_lines(tree_lines(t, 0))) + 1 == tree_size(t),
{
    lemma_tree_lines(t, 0);
    lemma_join_lines(tree_lines(t, 0));
}

/// The depth limit, from `d` on, at which iterative deepening finds its proof.
pub open spec fn found_depth(kb: Seq<NamedFormula>, goal: Formula, d: nat, max_depth: nat) -> nat
    decreases max_depth + 1 - d,
{
    if d >= max_depth {
        d
    } else if search(kb, goal, (d as i32) as int, Seq::empty(), 0).0 is Some {
        d
    } else {
        found_depth(kb, goal, d + 1, max_depth)
    }
}

/// A proof that a search finds within depth `depth` has at most `depth + 1` nodes.
proof fn lemma_search_size(kb: Seq<NamedFormula>, goal: Formula, depth: int, seen: Seq<Formula>, c: u64)
    ensures
        search(kb, goal, depth, seen, c).0 matches Some(p) ==> tree_size(p) <= (if depth > 0 {
            depth
        } else {
            0
        }) + 1,
    decreases depth, 1nat, 0int,
{
    if !seen.contains(goal) {
        let seen2 = seen.push(goal);
        lemma_first_instance_size(kb, goal, 0);
        if first_instance(kb, goal, 0) is None && depth > 0 {
            lemma_try_size(Method::Detachment, kb, goal, depth, seen2, c, 0);
            let c1 = try_method(Method::Detachment, kb, goal, depth, seen2, c, 0).1;
            lemma_try_size(Method::ForwardChaining, kb, goal, depth, seen2, c1, 0);
            let c2 = try_method(Method::ForwardChaining, kb, goal, depth, seen2, c1, 0).1;
            lemma_try_size(Method::BackwardChaining, kb, goal, depth, seen2, c2, 0);
        }
    }
}

proof fn lemma_first_instance_size(kb: Seq<NamedFormula>, goal: Formula, i: int)
    ensures
        first_instance(kb, goal, i) matches Some(p) ==> tree_size(p) == 1,
    decreases kb.len() - i,
{
    if 0 <= i < kb.len() {
        if instance_of(kb[i].formula, goal) {
            let p = leaf(goal, Method::Substitution, kb[i].name);
            assert(trees_size(p.premises) == 0);
        } else {
            lemma_first_instance_size(kb, goal, i + 1);
        }
    }
}

proof fn lemma_try_size(
    m: Method,
    kb: Seq<NamedFormula>,
    goal: Formula,
    depth: int,
    seen: Seq<Formula>,
    c: u64,
    i: int,
)
    ensures
        try_method(m, kb, goal, depth, seen, c, i).0 matches Some(p) ==> tree_size(p) <= depth + 1,
    decreases depth, 0nat, kb.len() - i,
{
    if !(i < 0 || i >= kb.len() || depth <= 0) {
        let c1 = next_counter(c);
        let stmt = kb[i].formula.rename(suffix(c1));
        match subgoal_for(m, stmt, goal) {
            None => {
                lemma_try_size(m, kb, goal, depth, seen, c1, i + 1);
            },
            Some(sub) => {
                if sub == goal {
                    lemma_try_size(m, kb, goal, depth, seen, c1, i + 1);
                } else {
                    let (r, c2) = search(kb, sub, depth - 1, seen, c1);
                    lemma_search_size(kb, sub, depth - 1, seen, c1);
                    match r {
                        Some(p) => {
                            let t = node(goal, m, kb[i].name, p);
                            let ps = t.premises;
                            assert(ps.subrange(0, 0) =~= Seq::<ProofTree>::empty());
                            assert(trees_size(ps) == trees_size(ps.subrange(0, 0)) + tree_size(p));
                        },
                        None => {
                            lemma_try_size(m, kb, goal, depth, seen, c2, i + 1);
                        },
                    }
                }
            },
        }
    }
}

proof fn lemma_deepen_found(kb: Seq<NamedFormula>, goal: Formula, d: nat, max_depth: nat)
    ensures
        deepen(kb, goal, d, max_depth) matches Some(p) ==> {
            let f = found_depth(kb, goal, d, max_depth);
            &&& d <= f <= max_depth
            &&& search(kb, goal, (f as i32) as int, Seq::empty(), 0).0 == Some(p)
            &&& forall|k: nat| d <= k < f ==> (#[trigger] search(kb, goal, (k as i32) as int, Seq::empty(), 0)).0 is None
        },
    decreases max_depth + 1 - d,
{
    if d <= max_depth && search(kb, goal, (d as i32) as int, Seq::empty(), 0).0 is None {
        lemma_deepen_found(kb, goal, d + 1, max_depth);
        if d == max_depth {
            assert(deepen(kb, goal, d + 1, max_depth) is None);
        }
    }
}

proof fn lemma_deepen_fails(kb: Seq<NamedFormula>, goal: Formula, d: nat, k: nat)
    requires
        forall|j: nat| d <= j <= k ==> (#[trigger] search(kb, goal, (j as i32) as int, Seq::empty(), 0)).0 is None,
    ensures
        deepen(kb, goal, d, k) is None,
    decreases k + 1 - d,
{
    if d <= k {
        lemma_deepen_fails(kb, goal, d + 1, k);
    }
}

/// Iterative deepening returns a proof that no smaller depth limit finds:
/// the prover with any depth limit below the one at which the proof was
/// found proves nothing, and the proof has at most one node more than that
/// limit, so a depth limit of two less than its number of nodes proves nothing.
pub proof fn law_prove_shortest(kb: Seq<NamedFormula>, goal: Formula, max_depth: nat)
    ensures
        prove_spec(kb, goal, max_depth) matches Some(p) ==> {
            let f = found_depth(kb, goal, 1, max_depth);
            &&& 1 <= f <= max_depth
            &&& forall|k: nat| k < f ==> (#[trigger] prove_spec(kb, goal, k)) is None
            &&& tree_size(p) <= f + 1
            &&& (tree_size(p) >= 2 ==> prove_spec(kb, goal, (tree_size(p) - 2) as nat) is None)
        },
{
    lemma_deepen_found(kb, goal, 1, max_depth);
    if let Some(p) = prove_spec(kb, goal, max_depth) {
        let f = found_depth(kb, goal, 1, max_depth);
        assert forall|k: nat| k < f implies (#[trigger] prove_spec(kb, goal, k)) is None by {
            lemma_deepen_fails(kb, goal, 1, k);
        }
        let cf = (f as i32) as int;
        assert(cf <= f);
        lemma_search_size(kb, goal, cf, Seq::empty(), 0);
        if tree_size(p) >= 2 {
            let k = (tree_size(p) - 2) as nat;
            assert(prove_spec(kb, goal, k) is None);
        }
    }
}


/// A variable of a formula, renamed, is a variable of the renamed formula.
proof fn lemma_rename_free_var(g: Formula, sfx: Seq<char>, v: Seq<char>)
    requires
        g.free_vars().contains(v),
    ensures
        g.rename(sfx).free_vars().contains(v + sfx),
    decreases g,
{
    match g {
        Formula::Var(w) => {
            assert(g.rename(sfx) == Formula::Var(w + sfx));
            assert(g.rename(sfx).free_vars() == set![w + sfx]);
        },
        Formula::Not(x) => {
            lemma_rename_free_var(*x, sfx, v);
        },
        Formula::Or(l, r) => {
            if l.free_vars().contains(v) {
                lemma_rename_free_var(*l, sfx, v);
            } else {
                lemma_rename_free_var(*r, sfx, v);
            }
        },
    }
}

/// Matching a renamed pattern against an instance `pat.apply(s)` of the
/// pattern finds the renamed image of `s`: the match, applied to any renamed
/// formula over the pattern's variables, gives that formula under `s`.
proof fn lemma_rename_match(pat: Formula, f: Formula, t: Formula, sfx: Seq<char>, s: Map<Seq<char>, Formula>)
    requires
        pat.apply(s) == t,
        f.free_vars().subset_of(pat.free_vars()),
    ensures
        instance_of(pat.rename(sfx), t),
        f.rename(sfx).apply(the_match(pat.rename(sfx), t)) == f.apply(s),
{
    let ren = Map::new(|v: Seq<char>| true, |v: Seq<char>| Formula::Var(v + sfx));
    let inv = Map::new(
        |w: Seq<char>| true,
        |w: Seq<char>| lookup(s, w.subrange(0, w.len() - sfx.len())),
    );
    assert forall|v: Seq<char>| pat.free_vars().contains(v) implies lookup(ren, v) == Formula::Var(v + sfx) by {}
    assert forall|v: Seq<char>| f.free_vars().contains(v) implies lookup(ren, v) == Formula::Var(v + sfx) by {}
    lemma_rename_is_apply(pat, ren, sfx);
    lemma_rename_is_apply(f, ren, sfx);
    let pat2 = pat.rename(sfx);
    // the renamed pattern becomes `t` under `inv`
    lemma_compose(pat, ren, inv);
    assert forall|v: Seq<char>| pat.free_vars().contains(v) implies lookup(compose(ren, inv), v) == lookup(s, v) by {
        assert((v + sfx).subrange(0, v.len() as int) =~= v);
        assert(lookup(inv, v + sfx) == lookup(s, v));
    }
    crate::expr::lemma_apply_agree(pat, compose(ren, inv), s);
    assert(pat2.apply(inv) == t);
    assert(Map::<Seq<char>, Formula>::empty().submap_of(inv));
    assert(instance_of(pat2, t));
    // the match agrees with `inv` on the renamed pattern's variables
    lemma_the_match(pat2, t);
    let mt = the_match(pat2, t);
    crate::expr::lemma_apply_determines(pat2, mt, inv);
    lemma_compose(f, ren, mt);
    assert forall|v: Seq<char>| f.free_vars().contains(v) implies lookup(compose(ren, mt), v) == lookup(s, v) by {
        lemma_rename_free_var(pat, sfx, v);
        assert(lookup(mt, v + sfx) == lookup(inv, v + sfx));
        assert((v + sfx).subrange(0, v.len() as int) =~= v);
    }
    crate::expr::lemma_apply_agree(f, compose(ren, mt), s);
}

/// One reduction step: `method` through theorem `theorem` of the knowledge
/// base, `antecedent -> consequent`, under the substitution `subst`.
pub struct Reduction {
    pub method: Method,
    pub theorem: int,
    pub antecedent: Formula,
    pub consequent: Formula,
    pub subst: Map<Seq<char>, Formula>,
}

/// Step `r` reduces `goal` to the subgoal `sub`, theorem `r.theorem` being
/// `a -> b` and `s` the step's substitution:
///  - detachment: `goal` is `b.apply(s)` and `sub` is `a.apply(s)`;
///  - forward chaining: `goal` is `x -> z` with `x` equal to `a.apply(s)`,
///    and `sub` is `b.apply(s) -> z`;
///  - backward chaining: `goal` is `x -> z` with `z` equal to `b.apply(s)`,
///    and `sub` is `x -> a.apply(s)`;
/// where every variable of the side instantiated in the subgoal occurs in the
/// side matched against the goal, so that the match fixes the subgoal.
pub open spec fn reduces(kb: Seq<NamedFormula>, r: Reduction, goal: Formula, sub: Formula) -> bool {
    let a = r.antecedent;
    let b = r.consequent;
    let s = r.subst;
    &&& 0 <= r.theorem < kb.len()
    &&& kb[r.theorem].formula == implies_f(a, b)
    &&& match r.method {
        Method::Detachment => a.free_vars().subset_of(b.free_vars()) && b.apply(s) == goal && sub == a.apply(s),
        Method::ForwardChaining => b.free_vars().subset_of(a.free_vars()) && match goal.implication() {
            Some((x, z)) => a.apply(s) == x && sub == implies_f(b.apply(s), z),
            None => false,
        },
        Method::BackwardChaining => a.free_vars().subset_of(b.free_vars()) && match goal.implication() {
            Some((x, z)) => b.apply(s) == z && sub == implies_f(x, a.apply(s)),
            None => false,
        },
        Method::Substitution => false,
    }
}

/// `goals[0]` reduces, step `steps[i]` taking `goals[i]` to `goals[i + 1]`,
/// to the last goal, an instance of theorem `j`; no goal occurs twice.
pub open spec fn reduction_chain(kb: Seq<NamedFormula>, goals: Seq<Formula>, steps: Seq<Reduction>, j: int) -> bool {
    &&& goals.len() == steps.len() + 1
    &&& goals.no_duplicates()
    &&& forall|i: int| 0 <= i < steps.len() ==> reduces(kb, #[trigger] steps[i], goals[i], goals[i + 1])
    &&& 0 <= j < kb.len()
    &&& instance_of(kb[j].formula, goals[goals.len() - 1])
}

/// The search for `goals[i]`, with as many levels of depth as steps remain,
/// finds a proof whatever the counter, when no goal from `i` on is on the path.
proof fn lemma_chain_found(
    kb: Seq<NamedFormula>,
    goals: Seq<Formula>,
    steps: Seq<Reduction>,
    j: int,
    i: int,
    seen: Seq<Formula>,
    c: u64,
)
    requires
        reduction_chain(kb, goals, steps, j),
        0 <= i < goals.len(),
        forall|m: int| i <= m < goals.len() ==> !seen.contains(#[trigger] goals[m]),
    ensures
        search(kb, goals[i], goals.len() - 1 - i, seen, c).0 is Some,
    decreases goals.len() - i, kb.len() + 1,
{
    let g = goals[i];
    let d = goals.len() - 1 - i;
    let seen2 = seen.push(g);
    assert(!seen.contains(goals[i]));
    if first_instance(kb, g, 0) is None {
        if i == goals.len() - 1 {
            lemma_first_instance_found(kb, g, 0, j);
        } else {
            let st = steps[i];
            assert(reduces(kb, st, g, goals[i + 1]));
            assert forall|m: int| i + 1 <= m < goals.len() implies !seen2.contains(#[trigger] goals[m]) by {
                assert(!seen.contains(goals[m]));
                assert(goals[m] != goals[i]);
                if seen2.contains(goals[m]) {
                    let q = choose|q: int| 0 <= q < seen2.len() && seen2[q] == goals[m];
                    if q < seen.len() {
                        assert(seen[q] == goals[m]);
                    }
                }
            }
            let (r1, c1) = try_method(Method::Detachment, kb, g, d, seen2, c, 0);
            if st.method is Detachment {
                lemma_try_found(Method::Detachment, kb, goals, steps, j, i, seen2, c, 0);
            } else if r1 is None {
                let (r2, c2) = try_method(Method::ForwardChaining, kb, g, d, seen2, c1, 0);
                if st.method is ForwardChaining {
                    lemma_try_found(Method::ForwardChaining, kb, goals, steps, j, i, seen2, c1, 0);
                } else if r2 is None {
                    lemma_try_found(Method::BackwardChaining, kb, goals, steps, j, i, seen2, c2, 0);
                }
            }
        }
    }
}

/// Trying step `i`'s method on `goals[i]` from any theorem up to the step's
/// own, with any counter, finds a proof.
proof fn lemma_try_found(
    m: Method,
    kb: Seq<NamedFormula>,
    goals: Seq<Formula>,
    steps: Seq<Reduction>,
    j: int,
    i: int,
    seen: Seq<Formula>,
    c: u64,
    idx: int,
)
    requires
        reduction_chain(kb, goals, steps, j),
        0 <= i < steps.len(),
        steps[i].method == m,
        first_instance(kb, goals[i], 0) is None,
        forall|q: int| i + 1 <= q < goals.len() ==> !seen.contains(#[trigger] goals[q]),
        0 <= idx <= steps[i].theorem,
    ensures
        try_method(m, kb, goals[i], goals.len() - 1 - i, seen, c, idx).0 is Some,
    decreases goals.len() - i, steps[i].theorem - idx,
{
    let g = goals[i];
    let d = goals.len() - 1 - i;
    let st = steps[i];
    assert(reduces(kb, st, g, goals[i + 1]));
    let k = st.theorem;
    let a = st.antecedent;
    let b = st.consequent;
    let s = st.subst;
    let c1 = next_counter(c);
    let sfx = suffix(c1);
    let stmt = kb[idx].formula.rename(sfx);
    if idx < k {
        match subgoal_for(m, stmt, g) {
            None => {
                lemma_try_found(m, kb, goals, steps, j, i, seen, c1, idx + 1);
            },
            Some(sub) => {
                if sub == g {
                    lemma_try_found(m, kb, goals, steps, j, i, seen, c1, idx + 1);
                } else {
                    let (r, c2) = search(kb, sub, d - 1, seen, c1);
                    if r is None {
                        lemma_try_found(m, kb, goals, steps, j, i, seen, c2, idx + 1);
                    }
                }
            },
        }
    } else {
        let a2 = a.rename(sfx);
        let b2 = b.rename(sfx);
        assert(Formula::Not(Box::new(a)).rename(sfx) == Formula::Not(Box::new(a2)));
        assert(stmt == implies_f(a2, b2));
        assert(stmt.implication() == Some((a2, b2)));
        match m {
            Method::Detachment => {
                lemma_rename_match(b, a, g, sfx, s);
            },
            Method::ForwardChaining => {
                let (x, z) = g.implication()->0;
                lemma_rename_match(a, b, x, sfx, s);
            },
            _ => {
                let (x, z) = g.implication()->0;
                lemma_rename_match(b, a, z, sfx, s);
            },
        }
        let sub = goals[i + 1];
        assert(subgoal_for(m, stmt, g) == Some(sub));
        assert(sub != g);
        lemma_chain_found(kb, goals, steps, j, i + 1, seen, c1);
    }
}

/// Iterative deepening from `d` finds a proof when the search at some depth
/// limit from `d` to `max_depth` does.
proof fn lemma_deepen_reaches(kb: Seq<NamedFormula>, goal: Formula, d: nat, max_depth: nat, e: nat)
    requires
        d <= e <= max_depth,
        search(kb, goal, (e as i32) as int, Seq::empty(), 0).0 is Some,
    ensures
        deepen(kb, goal, d, max_depth) is Some,
    decreases e - d,
{
    if search(kb, goal, (d as i32) as int, Seq::empty(), 0).0 is None {
        lemma_deepen_reaches(kb, goal, d + 1, max_depth, e);
    }
}

/// Completeness of the search: a goal that reduces in `n` steps
/// (detachment, forward or backward chaining through theorems of the
/// knowledge base), through goals none of which occurs twice, to an
/// instance of a theorem is proved by the prover with any depth limit of at
/// least `n` and at least 1, by a proof of at most `n + 1` nodes.
pub proof fn law_chain_proved(
    kb: Seq<NamedFormula>,
    max_depth: nat,
    goals: Seq<Formula>,
    steps: Seq<Reduction>,
    j: int,
)
    requires
        reduction_chain(kb, goals, steps, j),
        1 <= max_depth,
        steps.len() <= max_depth,
        steps.len() <= i32::MAX,
    ensures
        prove_spec(kb, goals[0], max_depth) matches Some(p) && p.conclusion == goals[0] && justified(kb, p)
            && tree_size(p) <= goals.len(),
{
    let goal = goals[0];
    let n = steps.len();
    let e = Seq::<Formula>::empty();
    law_prove_sound(kb, goal, max_depth);
    if n == 0 {
        law_instances_proved(kb, goal, max_depth, j);
        lemma_first_instance_size(kb, goal, 0);
    } else {
        lemma_chain_found(kb, goals, steps, j, 0, e, 0);
        assert(((n as i32) as int) == n);
        lemma_deepen_reaches(kb, goal, 1, max_depth, n);
        lemma_deepen_found(kb, goal, 1, max_depth);
        let p = prove_spec(kb, goal, max_depth)->0;
        let f = found_depth(kb, goal, 1, max_depth);
        if f > n {
            assert(search(kb, goal, (n as i32) as int, e, 0).0 is None);
        }
        assert(((f as i32) as int) == f);
        lemma_search_size(kb, goal, f as int, e, 0);
    }
}

/// Completeness of one reduction step: a goal that reduces in one
/// detachment, forward or backward chaining step through a theorem of the
/// knowledge base to an instance of a theorem of it is proved by the prover
/// with any depth limit of at least 1, with a proof of at most two nodes.
pub proof fn law_one_step_proved(
    kb: Seq<NamedFormula>,
    goal: Formula,
    max_depth: nat,
    r: Reduction,
    sub: Formula,
    j: int,
)
    requires
        max_depth >= 1,
        reduces(kb, r, goal, sub),
        0 <= j < kb.len(),
        instance_of(kb[j].formula, sub),
    ensures
        prove_spec(kb, goal, max_depth) matches Some(p) && p.conclusion == goal && justified(kb, p)
            && tree_size(p) <= 2,
{
    if goal == sub {
        law_chain_proved(kb, max_depth, seq![goal], Seq::empty(), j);
    } else {
        let goals = seq![goal, sub];
        let steps = seq![r];
        assert(goals.no_duplicates());
        law_chain_proved(kb, max_depth, goals, steps, j);
    }
}

/// The nodes of a proof tree in pre-order (each node, then the nodes of its
/// premises in turn), each with its distance from the root of the whole
/// proof, the root of `t` being at distance `d`.
pub open spec fn preorder(t: ProofTree, d: nat) -> Seq<(ProofTree, nat)>
    decreases t,
{
    seq![(t, d)] + preorders(t.premises, d + 1)
}

pub open spec fn preorders(ts: Seq<ProofTree>, d: nat) -> Seq<(ProofTree, nat)>
    decreases ts,
{
    if ts.len() == 0 {
        Seq::empty()
    } else {
        preorders(ts.subrange(0, ts.len() - 1), d) + preorder(ts[ts.len() - 1], d)
    }
}

/// The line shown for node `n` at distance `e` from the root: `2 * e` spaces,
/// the conclusion, four spaces and the bracketed method and reference.
pub open spec fn shown_line(n: ProofTree, e: nat) -> Seq<char> {
    Seq::new(2 * e, |k: int| ' ') + n.conclusion.display() + seq![' ', ' ', ' ', ' '] + tag(n)
}

proof fn lemma_tree_lines_preorder(t: ProofTree, d: nat)
    ensures
        tree_lines(t, d).len() == preorder(t, d).len(),
        forall|i: int| 0 <= i < preorder(t, d).len() ==>
            #[trigger] tree_lines(t, d)[i] == shown_line(preorder(t, d)[i].0, preorder(t, d)[i].1),
    decreases t,
{
    lemma_trees_lines_preorder(t.premises, d + 1);
    let ls = tree_lines(t, d);
    let ns = preorder(t, d);
    let rl = trees_lines(t.premises, d + 1);
    let rn = preorders(t.premises, d + 1);
    assert forall|i: int| 0 <= i < ns.len() implies #[trigger] ls[i] == shown_line(ns[i].0, ns[i].1) by {
        if i == 0 {
            assert(ls[0] == node_line(t, d));
            assert(ns[0] == (t, d));
            assert(indent(d) == Seq::new(2 * d, |k: int| ' '));
        } else {
            assert(ls[i] == rl[i - 1]);
            assert(ns[i] == rn[i - 1]);
        }
    }
}

proof fn lemma_trees_lines_preorder(ts: Seq<ProofTree>, d: nat)
    ensures
        trees_lines(ts, d).len() == preorders(ts, d).len(),
        forall|i: int| 0 <= i < preorders(ts, d).len() ==>
            #[trigger] trees_lines(ts, d)[i] == shown_line(preorders(ts, d)[i].0, preorders(ts, d)[i].1),
    decreases ts,
{
    if ts.len() > 0 {
        let pre = ts.subrange(0, ts.len() - 1);
        let last = ts[ts.len() - 1];
        lemma_trees_lines_preorder(pre, d);
        lemma_tree_lines_preorder(last, d);
        let a = trees_lines(pre, d);
        let b = tree_lines(last, d);
        let na = preorders(pre, d);
        let nb = preorder(last, d);
        assert forall|i: int| 0 <= i < (na + nb).len() implies #[trigger] (a + b)[i] == shown_line(
            (na + nb)[i].0,
            (na + nb)[i].1,
        ) by {
            if i < na.len() {
                assert((a + b)[i] == a[i]);
                assert((na + nb)[i] == na[i]);
            } else {
                assert((a + b)[i] == b[i - a.len()]);
                assert((na + nb)[i] == nb[i - na.len()]);
            }
        }
    }
}

/// Indentation: the rendered proof shows its nodes in pre-order, one line
/// each, and the line of a node at distance `e` from the root starts with
/// exactly `2 * e` spaces, followed by the node's conclusion, four spaces and
/// its bracketed method and reference.  The root's line is first, unindented.
pub proof fn law_render_indentation(t: ProofTree)
    ensures
        tree_lines(t, 0).len() == preorder(t, 0).len(),
        preorder(t, 0)[0] == (t, 0nat),
        forall|i: int| 0 <= i < preorder(t, 0).len() ==>
            #[trigger] tree_lines(t, 0)[i] == shown_line(preorder(t, 0)[i].0, preorder(t, 0)[i].1),
        join_lines(tree_lines(t, 0)) == join_lines(
            Seq::new(preorder(t, 0).len(), |i: int| shown_line(preorder(t, 0)[i].0, preorder(t, 0)[i].1)),
        ),
{
    lemma_tree_lines_preorder(t, 0);
    let ns = preorder(t, 0);
    assert(tree_lines(t, 0) =~= Seq::new(ns.len(), |i: int| shown_line(ns[i].0, ns[i].1)));
}

} // verus!
