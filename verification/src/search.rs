//! What the prover's search finds, as a function of the knowledge base, the
//! goal, the depth limit, the goals on the current path and the counter from
//! which fresh variable suffixes are drawn.

use vstd::prelude::*;
use crate::expr::{Formula, implies_f, instance_of, match_result};
use crate::prover::{NamedFormula, ProofTree};
use crate::text::decimal;

verus! {

/// The four ways a goal is reduced.
pub enum Method {
    Substitution,
    Detachment,
    ForwardChaining,
    BackwardChaining,
}

/// The name a proof node gives to its method.
pub open spec fn method_name(m: Method) -> Seq<char> {
    match m {
        Method::Substitution => "substitution"@,
        Method::Detachment => "detachment"@,
        Method::ForwardChaining => "forward-chaining"@,
        Method::BackwardChaining => "backward-chaining"@,
    }
}

/// The counter after one more fresh name is drawn.
pub open spec fn next_counter(c: u64) -> u64 {
    if c == u64::MAX {
        0
    } else {
        (c + 1) as u64
    }
}

/// The suffix `#n` for counter value `n`.
pub open spec fn suffix(n: u64) -> Seq<char> {
    seq!['#'] + decimal(n as nat)
}

/// The substitution `matches` finds when `target` is an instance of `pattern`.
pub open spec fn the_match(pattern: Formula, target: Formula) -> Map<Seq<char>, Formula> {
    choose|r: Map<Seq<char>, Formula>| match_result(pattern, target, Map::empty(), r)
}

pub open spec fn leaf(goal: Formula, m: Method, reference: Seq<char>) -> ProofTree {
    ProofTree { conclusion: goal, method: method_name(m), reference, premises: Seq::empty() }
}

pub open spec fn node(goal: Formula, m: Method, reference: Seq<char>, sub: ProofTree) -> ProofTree {
    ProofTree { conclusion: goal, method: method_name(m), reference, premises: seq![sub] }
}

/// The leaf proof by the first theorem, from index `i` on, of which `goal`
/// is an instance.
pub open spec fn first_instance(kb: Seq<NamedFormula>, goal: Formula, i: int) -> Option<ProofTree>
    decreases kb.len() - i,
{
    if i < 0 || i >= kb.len() {
        None
    } else if instance_of(kb[i].formula, goal) {
        Some(leaf(goal, Method::Substitution, kb[i].name))
    } else {
        first_instance(kb, goal, i + 1)
    }
}

/// The subgoal that method `m` sets up for `goal` from the (renamed)
/// theorem statement `stmt`, if the theorem applies.
///  - detachment: `stmt` is `A -> B` with `goal` an instance of `B`; the subgoal is `A` so instantiated;
///  - forward chaining: `goal` is `a -> c`, `stmt` is `A -> B` with `a` an instance of `A`;
///    the subgoal is `b -> c`, with `b` the instance of `B`;
///  - backward chaining: `goal` is `a -> c`, `stmt` is `A -> B` with `c` an instance of `B`;
///    the subgoal is `a -> b`, with `b` the instance of `A`.
pub open spec fn subgoal_for(m: Method, stmt: Formula, goal: Formula) -> Option<Formula> {
    match stmt.implication() {
        None => None,
        Some((ante, cons)) => match m {
            Method::Detachment => if instance_of(cons, goal) {
                Some(ante.apply(the_match(cons, goal)))
            } else {
                None
            },
            Method::ForwardChaining => match goal.implication() {
                Some((a, c)) => if instance_of(ante, a) {
                    Some(implies_f(cons.apply(the_match(ante, a)), c))
                } else {
                    None
                },
                None => None,
            },
            Method::BackwardChaining => match goal.implication() {
                Some((a, c)) => if instance_of(cons, c) {
                    Some(implies_f(a, ante.apply(the_match(cons, c))))
                } else {
                    None
                },
                None => None,
            },
            Method::Substitution => None,
        },
    }
}

/// Method `m` tried with the theorems from index `i` on: each theorem is
/// renamed apart with a fresh suffix; where it applies and the subgoal is not
/// the goal itself, the subgoal is searched one level deeper.  The first proof
/// found, and the counter after.
pub open spec fn try_method(
    m: Method,
    kb: Seq<NamedFormula>,
    goal: Formula,
    depth: int,
    seen: Seq<Formula>,
    c: u64,
    i: int,
) -> (Option<ProofTree>, u64)
    decreases depth, 0nat, kb.len() - i,
{
    if i < 0 || i >= kb.len() || depth <= 0 {
        (None, c)
    } else {
        let c1 = next_counter(c);
        let stmt = kb[i].formula.rename(suffix(c1));
        match subgoal_for(m, stmt, goal) {
            None => try_method(m, kb, goal, depth, seen, c1, i + 1),
            Some(sub) => if sub == goal {
                try_method(m, kb, goal, depth, seen, c1, i + 1)
            } else {
                let (r, c2) = search(kb, sub, depth - 1, seen, c1);
                match r {
                    Some(p) => (Some(node(goal, m, kb[i].name, p)), c2),
                    None => try_method(m, kb, goal, depth, seen, c2, i + 1),
                }
            },
        }
    }
}

/// The search for a proof of `goal` within `depth` more reduction steps,
/// never revisiting a goal of the current path `seen`: the substitution
/// method first, then (at a positive depth) detachment, and for an implication
/// forward and then backward chaining.  The proof found, and the counter after.
pub open spec fn search(kb: Seq<NamedFormula>, goal: Formula, depth: int, seen: Seq<Formula>, c: u64) -> (
    Option<ProofTree>,
    u64,
)
    decreases depth, 1nat, 0int,
{
    if seen.contains(goal) {
        (None, c)
    } else {
        let seen2 = seen.push(goal);
        match first_instance(kb, goal, 0) {
            Some(p) => (Some(p), c),
            None => if depth <= 0 {
                (None, c)
            } else {
                let (r1, c1) = try_method(Method::Detachment, kb, goal, depth, seen2, c, 0);
                if r1 is Some {
                    (r1, c1)
                } else if goal.implication() is Some {
                    let (r2, c2) = try_method(Method::ForwardChaining, kb, goal, depth, seen2, c1, 0);
                    if r2 is Some {
                        (r2, c2)
                    } else {
                        try_method(Method::BackwardChaining, kb, goal, depth, seen2, c2, 0)
                    }
                } else {
                    (None, c1)
                }
            },
        }
    }
}

/// Iterative deepening: the first proof found at depth `d`, `d + 1`, ...,
/// up to `max_depth`, each search starting afresh with the depth as an `i32`.
pub open spec fn deepen(kb: Seq<NamedFormula>, goal: Formula, d: nat, max_depth: nat) -> Option<ProofTree>
    decreases max_depth + 1 - d,
{
    if d > max_depth {
        None
    } else {
        match search(kb, goal, (d as i32) as int, Seq::empty(), 0).0 {
            Some(p) => Some(p),
            None => deepen(kb, goal, d + 1, max_depth),
        }
    }
}

/// The proof that the prover returns for `goal`.
pub open spec fn prove_spec(kb: Seq<NamedFormula>, goal: Formula, max_depth: nat) -> Option<ProofTree> {
    deepen(kb, goal, 1, max_depth)
}

} // verus!
