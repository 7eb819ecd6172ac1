//! The Logic Theorist proper: a backward-search prover using the four
//! heuristic methods of the 1956 program (substitution, detachment, and
//! forward / backward chaining) over the five axioms of *Principia*.

use vstd::prelude::*;
use crate::expr::{Expr, Formula, implies_f};
use crate::subst::Subst;
use crate::text::{push_char, push_decimal};
use crate::expr::{lemma_match_unique, names};
use crate::laws::{law_render_one_line_per_node, newlines, tree_without_newline};
use crate::search::{
    Method, deepen, first_instance, next_counter, prove_spec, search, suffix, the_match, try_method,
};

verus! {

/// The value of a theorem: its name and its statement.
pub struct NamedFormula {
    pub name: Seq<char>,
    pub formula: Formula,
}

/// The value of a proof tree.
pub struct ProofTree {
    pub conclusion: Formula,
    pub method: Seq<char>,
    pub reference: Seq<char>,
    pub premises: Seq<ProofTree>,
}

/// A named, established formula (an axiom or a previously proved theorem).
pub struct Theorem {
    pub name: String,
    pub statement: Expr,
}

impl View for Theorem {
    type V = NamedFormula;

    open spec fn view(&self) -> NamedFormula {
        NamedFormula { name: self.name@, formula: self.statement@ }
    }
}

impl Clone for Theorem {
    fn clone(&self) -> (r: Self)
        ensures
            r@ == self@,
    {
        Theorem { name: self.name.clone(), statement: self.statement.clone() }
    }
}

/// The values of a sequence of theorems.
pub open spec fn theorems_view(v: Seq<Theorem>) -> Seq<NamedFormula> {
    v.map_values(|t: Theorem| t@)
}

/// A node in a proof tree: a conclusion, the method that produced it, the
/// axiom/theorem invoked, and any sub-proofs.
pub struct Proof {
    pub conclusion: Expr,
    pub method: String,
    pub reference: String,
    pub premises: Vec<Proof>,
}

impl View for Proof {
    type V = ProofTree;

    open spec fn view(&self) -> ProofTree
        decreases self,
    {
        ProofTree {
            conclusion: self.conclusion@,
            method: self.method@,
            reference: self.reference@,
            premises: proofs_view(self.premises@),
        }
    }
}

/// The values of a sequence of proofs.
pub open spec fn proofs_view(ps: Seq<Proof>) -> Seq<ProofTree>
    decreases ps,
{
    if ps.len() == 0 {
        Seq::empty()
    } else {
        proofs_view(ps.subrange(0, ps.len() - 1)).push(ps[ps.len() - 1]@)
    }
}

impl Theorem {
    fn new(name: &str, statement: Expr) -> (t: Theorem)
        ensures
            t@ == (NamedFormula { name: name@, formula: statement@ }),
    {
        Theorem { name: name.to_owned(), statement }
    }
}

/// The variable called `name`.
pub open spec fn var_f(name: Seq<char>) -> Formula {
    Formula::Var(name)
}

pub open spec fn or_f(a: Formula, b: Formula) -> Formula {
    Formula::Or(Box::new(a), Box::new(b))
}

/// The five propositional-calculus axioms of *Principia*.
pub open spec fn axiom_list() -> Seq<NamedFormula> {
    let p = var_f("p"@);
    let q = var_f("q"@);
    let r = var_f("r"@);
    seq![
        NamedFormula { name: "1.2"@, formula: implies_f(or_f(p, p), p) },
        NamedFormula { name: "1.3"@, formula: implies_f(p, or_f(p, q)) },
        NamedFormula { name: "1.4"@, formula: implies_f(or_f(p, q), or_f(q, p)) },
        NamedFormula { name: "1.5"@, formula: implies_f(or_f(p, or_f(q, r)), or_f(q, or_f(p, r))) },
        NamedFormula { name: "1.6"@, formula: implies_f(implies_f(p, q), implies_f(or_f(r, p), or_f(r, q))) },
    ]
}

/// The five PM propositional-calculus axioms given to the original program,
/// written in primitive `~`/`|` form (implication shown in comments).
pub fn axioms() -> (r: Vec<Theorem>)
    ensures
        theorems_view(r@) == axiom_list(),
{
    let mut v: Vec<Theorem> = Vec::new();
    // *1.2  (p | p) -> p
    v.push(Theorem::new("1.2", Expr::implies(Expr::or(Expr::var("p"), Expr::var("p")), Expr::var("p"))));
    // *1.3  p -> (p | q)
    v.push(Theorem::new("1.3", Expr::implies(Expr::var("p"), Expr::or(Expr::var("p"), Expr::var("q")))));
    // *1.4  (p | q) -> (q | p)
    v.push(
        Theorem::new(
            "1.4",
            Expr::implies(
                Expr::or(Expr::var("p"), Expr::var("q")),
                Expr::or(Expr::var("q"), Expr::var("p")),
            ),
        ),
    );
    // *1.5  (p | (q | r)) -> (q | (p | r))
    v.push(
        Theorem::new(
            "1.5",
            Expr::implies(
                Expr::or(Expr::var("p"), Expr::or(Expr::var("q"), Expr::var("r"))),
                Expr::or(Expr::var("q"), Expr::or(Expr::var("p"), Expr::var("r"))),
            ),
        ),
    );
    // *1.6  (p -> q) -> ((r | p) -> (r | q))
    v.push(
        Theorem::new(
            "1.6",
            Expr::implies(
                Expr::implies(Expr::var("p"), Expr::var("q")),
                Expr::implies(
                    Expr::or(Expr::var("r"), Expr::var("p")),
                    Expr::or(Expr::var("r"), Expr::var("q")),
                ),
            ),
        ),
    );
    assert(theorems_view(v@) =~= axiom_list());
    v
}

/// The value of an optional proof.
pub open spec fn proof_option_view(r: Option<Proof>) -> Option<ProofTree> {
    match r {
        Some(p) => Some(p@),
        None => None,
    }
}

/// The values of a sequence of formulas.
pub open spec fn exprs_view(v: Seq<Expr>) -> Seq<Formula> {
    v.map_values(|e: Expr| e@)
}

impl Proof {
    fn leaf(conclusion: Expr, method: &str, reference: &str) -> (p: Proof)
        ensures
            p@ == (ProofTree {
                conclusion: conclusion@,
                method: method@,
                reference: reference@,
                premises: Seq::empty(),
            }),
    {
        let p = Proof {
            conclusion,
            method: method.to_owned(),
            reference: reference.to_owned(),
            premises: Vec::new(),
        };
        assert(proofs_view(p.premises@) =~= Seq::<ProofTree>::empty());
        p
    }

    fn node(conclusion: Expr, method: &str, reference: &str, premise: Proof) -> (p: Proof)
        ensures
            p@ == (ProofTree {
                conclusion: conclusion@,
                method: method@,
                reference: reference@,
                premises: seq![premise@],
            }),
    {
        let ghost pv = premise@;
        let mut premises: Vec<Proof> = Vec::new();
        premises.push(premise);
        let p = Proof { conclusion, method: method.to_owned(), reference: reference.to_owned(), premises };
        proof {
            let ps = p.premises@;
            assert(ps.subrange(0, 0) =~= Seq::<Proof>::empty());
            assert(proofs_view(ps.subrange(0, 0)) =~= Seq::<ProofTree>::empty());
            assert(proofs_view(ps) =~= seq![pv]);
        }
        p
    }
}

/// Whether `goal` occurs in `seen`.
fn contains_expr(seen: &Vec<Expr>, goal: &Expr) -> (r: bool)
    ensures
        r == exprs_view(seen@).contains(goal@),
{
    let mut i: usize = 0;
    while i < seen.len()
        invariant
            i <= seen@.len(),
            forall|j: int| 0 <= j < i ==> seen@[j]@ != goal@,
        decreases seen@.len() - i,
    {
        if seen[i].equals(goal) {
            assert(exprs_view(seen@)[i as int] == goal@);
            return true;
        }
        i = i + 1;
    }
    assert forall|j: int| 0 <= j < exprs_view(seen@).len() implies exprs_view(seen@)[j] != goal@ by {
        assert(exprs_view(seen@)[j] == seen@[j]@);
    }
    false
}

/// `seen` with `goal` added.
fn extended(seen: &Vec<Expr>, goal: &Expr) -> (r: Vec<Expr>)
    ensures
        exprs_view(r@) == exprs_view(seen@).push(goal@),
{
    let mut r: Vec<Expr> = Vec::new();
    let mut i: usize = 0;
    while i < seen.len()
        invariant
            i <= seen@.len(),
            exprs_view(r@) == exprs_view(seen@).subrange(0, i as int),
        decreases seen@.len() - i,
    {
        let ghost before = r@;
        r.push(seen[i].clone());
        assert(exprs_view(r@) =~= exprs_view(before).push(seen@[i as int]@));
        assert(exprs_view(seen@).subrange(0, i + 1) =~= exprs_view(seen@).subrange(0, i as int).push(seen@[i as int]@));
        i = i + 1;
    }
    let ghost before = r@;
    r.push(goal.clone());
    assert(exprs_view(r@) =~= exprs_view(before).push(goal@));
    assert(exprs_view(seen@).subrange(0, seen@.len() as int) =~= exprs_view(seen@));
    r
}

/// The prover. Holds a growing knowledge base of theorems.
pub struct LogicTheorist {
    pub theorems: Vec<Theorem>,
    pub max_depth: usize,
}

impl LogicTheorist {
    /// The knowledge base: the values of the theorems.
    pub open spec fn kb(&self) -> Seq<NamedFormula> {
        theorems_view(self.theorems@)
    }

    /// A prover that knows the five axioms and searches to `max_depth`.
    pub fn new(max_depth: usize) -> (lt: LogicTheorist)
        ensures
            lt.kb() == axiom_list(),
            lt.max_depth == max_depth,
    {
        LogicTheorist { theorems: axioms(), max_depth }
    }

    /// Attempt to prove `goal`, using iterative deepening so the first proof
    /// found is among the shortest.
    pub fn prove(&self, goal: &Expr) -> (r: Option<Proof>)
        ensures
            proof_option_view(r) == prove_spec(self.kb(), goal@, self.max_depth as nat),
    {
        let mut depth: usize = 1;
        while depth <= self.max_depth
            invariant
                1 <= depth,
                prove_spec(self.kb(), goal@, self.max_depth as nat) == deepen(
                    self.kb(),
                    goal@,
                    depth as nat,
                    self.max_depth as nat,
                ),
            decreases self.max_depth + 1 - depth,
        {
            let mut counter: u64 = 0;
            let seen: Vec<Expr> = Vec::new();
            assert(exprs_view(seen@) =~= Seq::<Formula>::empty());
            if let Some(proof) = self.search(goal, depth as i32, &seen, &mut counter) {
                return Some(proof);
            }
            if depth == self.max_depth {
                assert(deepen(self.kb(), goal@, depth as nat + 1, self.max_depth as nat) is None);
                return None;
            }
            depth = depth + 1;
        }
        // only where the limit is 0: no depth is tried
        assert(deepen(self.kb(), goal@, depth as nat, self.max_depth as nat) is None);
        None
    }

    /// Prove a theorem and, on success, add it to the knowledge base so later
    /// proofs can reuse it, mirroring the original program's accumulation.
    pub fn learn(&mut self, name: &str, goal: &Expr) -> (r: Option<Proof>)
        ensures
            proof_option_view(r) == prove_spec(old(self).kb(), goal@, old(self).max_depth as nat),
            final(self).max_depth == old(self).max_depth,
            r is Some ==> final(self).kb() == old(self).kb().push(NamedFormula { name: name@, formula: goal@ }),
            r is None ==> final(self).kb() == old(self).kb(),
    {
        let proof = self.prove(goal);
        if proof.is_some() {
            let ghost before = self.theorems@;
            self.theorems.push(Theorem::new(name, goal.clone()));
            assert(theorems_view(self.theorems@) =~= theorems_view(before).push(NamedFormula { name: name@, formula: goal@ }));
        }
        proof
    }

    /// The next fresh suffix `#n`.
    fn fresh(&self, counter: &mut u64) -> (r: String)
        ensures
            *final(counter) == next_counter(*old(counter)),
            r@ == suffix(*final(counter)),
    {
        let n = if *counter == u64::MAX {
            0
        } else {
            *counter + 1
        };
        *counter = n;
        let mut s = String::new();
        push_char(&mut s, '#');
        push_decimal(&mut s, n);
        s
    }

    fn search(&self, goal: &Expr, depth: i32, seen: &Vec<Expr>, counter: &mut u64) -> (r: Option<Proof>)
        ensures
            (proof_option_view(r), *final(counter)) == search(self.kb(), goal@, depth as int, exprs_view(seen@), *old(counter)),
        decreases depth, 1nat,
    {
        if contains_expr(seen, goal) {
            return None;
        }
        let seen = extended(seen, goal);
        // 1) Substitution method (base case).
        if let Some(p) = self.substitution_method(goal) {
            return Some(p);
        }
        if depth <= 0 {
            return None;
        }
        // 2) Detachment method.
        if let Some(p) = self.detachment_method(goal, depth, &seen, counter) {
            return Some(p);
        }
        // 3) Chaining, when the goal is an implication.
        if let Some((a, c)) = goal.as_implication() {
            let (a, c) = (a.clone(), c.clone());
            if let Some(p) = self.forward_chaining(&a, &c, depth, &seen, counter) {
                return Some(p);
            }
            if let Some(p) = self.backward_chaining(&a, &c, depth, &seen, counter) {
                return Some(p);
            }
        }
        None
    }

    fn substitution_method(&self, goal: &Expr) -> (r: Option<Proof>)
        ensures
            proof_option_view(r) == first_instance(self.kb(), goal@, 0),
    {
        let mut i: usize = 0;
        while i < self.theorems.len()
            invariant
                i <= self.theorems@.len(),
                first_instance(self.kb(), goal@, 0) == first_instance(self.kb(), goal@, i as int),
            decreases self.theorems@.len() - i,
        {
            let thm = &self.theorems[i];
            assert(self.kb()[i as int] == thm@);
            if crate::expr::matches(&thm.statement, goal, &Subst::new()).is_some() {
                return Some(Proof::leaf(goal.clone(), "substitution", thm.name.as_str()));
            }
            i = i + 1;
        }
        None
    }

    fn detachment_method(&self, goal: &Expr, depth: i32, seen: &Vec<Expr>, counter: &mut u64) -> (r: Option<Proof>)
        requires
            depth >= 1,
        ensures
            (proof_option_view(r), *final(counter)) == try_method(
                Method::Detachment,
                self.kb(),
                goal@,
                depth as int,
                exprs_view(seen@),
                *old(counter),
                0,
            ),
        decreases depth, 0nat,
    {
        // Find a theorem  A -> B  whose consequent B matches the goal; then it
        // suffices to prove the (substituted) antecedent A.
        let ghost kb = self.kb();
        let ghost sv = exprs_view(seen@);
        let mut i: usize = 0;
        while i < self.theorems.len()
            invariant
                i <= self.theorems@.len(),
                kb == self.kb(),
                sv == exprs_view(seen@),
                depth >= 1,
                try_method(Method::Detachment, kb, goal@, depth as int, sv, *old(counter), 0)
                    == try_method(Method::Detachment, kb, goal@, depth as int, sv, *counter, i as int),
            decreases self.theorems@.len() - i,
        {
            let sfx = self.fresh(counter);
            let thm = &self.theorems[i];
            assert(kb[i as int] == thm@);
            let stmt = thm.statement.rename_apart(sfx.as_str());
            if let Some((ante, cons)) = stmt.as_implication() {
                if let Some(s) = crate::expr::matches(cons, goal, &Subst::new()) {
                    proof {
                        lemma_match_unique(cons@, goal@, Map::empty(), s@, the_match(cons@, goal@));
                    }
                    let subgoal = ante.substitute(&s);
                    if !subgoal.equals(goal) {
                        if let Some(sub) = self.search(&subgoal, depth - 1, seen, counter) {
                            return Some(Proof::node(goal.clone(), "detachment", thm.name.as_str(), sub));
                        }
                    }
                }
            }
            i = i + 1;
        }
        None
    }

    fn forward_chaining(&self, a: &Expr, c: &Expr, depth: i32, seen: &Vec<Expr>, counter: &mut u64) -> (r: Option<Proof>)
        requires
            depth >= 1,
        ensures
            (proof_option_view(r), *final(counter)) == try_method(
                Method::ForwardChaining,
                self.kb(),
                implies_f(a@, c@),
                depth as int,
                exprs_view(seen@),
                *old(counter),
                0,
            ),
        decreases depth, 0nat,
    {
        // Goal  a -> c.  Find theorem  a -> b,  then prove  b -> c.
        let goal = Expr::implies(a.clone(), c.clone());
        let ghost kb = self.kb();
        let ghost sv = exprs_view(seen@);
        let mut i: usize = 0;
        while i < self.theorems.len()
            invariant
                i <= self.theorems@.len(),
                kb == self.kb(),
                sv == exprs_view(seen@),
                depth >= 1,
                goal@ == implies_f(a@, c@),
                try_method(Method::ForwardChaining, kb, goal@, depth as int, sv, *old(counter), 0)
                    == try_method(Method::ForwardChaining, kb, goal@, depth as int, sv, *counter, i as int),
            decreases self.theorems@.len() - i,
        {
            let sfx = self.fresh(counter);
            let thm = &self.theorems[i];
            assert(kb[i as int] == thm@);
            let stmt = thm.statement.rename_apart(sfx.as_str());
            if let Some((ante, cons)) = stmt.as_implication() {
                if let Some(s) = crate::expr::matches(ante, a, &Subst::new()) {
                    proof {
                        lemma_match_unique(ante@, a@, Map::empty(), s@, the_match(ante@, a@));
                    }
                    let b = cons.substitute(&s);
                    let subgoal = Expr::implies(b, c.clone());
                    if !subgoal.equals(&goal) {
                        if let Some(sub) = self.search(&subgoal, depth - 1, seen, counter) {
                            return Some(Proof::node(goal, "forward-chaining", thm.name.as_str(), sub));
                        }
                    }
                }
            }
            i = i + 1;
        }
        None
    }

    fn backward_chaining(&self, a: &Expr, c: &Expr, depth: i32, seen: &Vec<Expr>, counter: &mut u64) -> (r: Option<Proof>)
        requires
            depth >= 1,
        ensures
            (proof_option_view(r), *final(counter)) == try_method(
                Method::BackwardChaining,
                self.kb(),
                implies_f(a@, c@),
                depth as int,
                exprs_view(seen@),
                *old(counter),
                0,
            ),
        decreases depth, 0nat,
    {
        // Goal  a -> c.  Find theorem  b -> c,  then prove  a -> b.
        let goal = Expr::implies(a.clone(), c.clone());
        let ghost kb = self.kb();
        let ghost sv = exprs_view(seen@);
        let mut i: usize = 0;
        while i < self.theorems.len()
            invariant
                i <= self.theorems@.len(),
                kb == self.kb(),
                sv == exprs_view(seen@),
                depth >= 1,
                goal@ == implies_f(a@, c@),
                try_method(Method::BackwardChaining, kb, goal@, depth as int, sv, *old(counter), 0)
                    == try_method(Method::BackwardChaining, kb, goal@, depth as int, sv, *counter, i as int),
            decreases self.theorems@.len() - i,
        {
            let sfx = self.fresh(counter);
            let thm = &self.theorems[i];
            assert(kb[i as int] == thm@);
            let stmt = thm.statement.rename_apart(sfx.as_str());
            if let Some((ante, cons)) = stmt.as_implication() {
                if let Some(s) = crate::expr::matches(cons, c, &Subst::new()) {
                    proof {
                        lemma_match_unique(cons@, c@, Map::empty(), s@, the_match(cons@, c@));
                    }
                    let b = ante.substitute(&s);
                    let subgoal = Expr::implies(a.clone(), b);
                    if !subgoal.equals(&goal) {
                        if let Some(sub) = self.search(&subgoal, depth - 1, seen, counter) {
                            return Some(Proof::node(goal, "backward-chaining", thm.name.as_str(), sub));
                        }
                    }
                }
            }
            i = i + 1;
        }
        None
    }
}

/// The number of nodes of a proof tree.
pub open spec fn tree_size(t: ProofTree) -> nat
    decreases t,
{
    1 + trees_size(t.premises)
}

/// The number of nodes of a sequence of proof trees.
pub open spec fn trees_size(ts: Seq<ProofTree>) -> nat
    decreases ts,
{
    if ts.len() == 0 {
        0
    } else {
        trees_size(ts.subrange(0, ts.len() - 1)) + tree_size(ts[ts.len() - 1])
    }
}

/// Two spaces per level of depth.
pub open spec fn indent(depth: nat) -> Seq<char> {
    Seq::new(2 * depth, |i: int| ' ')
}

/// The method and reference of a node, in brackets.
pub open spec fn tag(t: ProofTree) -> Seq<char> {
    if t.reference.len() == 0 {
        seq!['['] + t.method + seq![']']
    } else {
        seq!['['] + t.method + seq![' ', 'v', 'i', 'a', ' '] + t.reference + seq![']']
    }
}

/// The line of a node at `depth`: indentation, conclusion, four spaces, tag.
pub open spec fn node_line(t: ProofTree, depth: nat) -> Seq<char> {
    indent(depth) + t.conclusion.display() + seq![' ', ' ', ' ', ' '] + tag(t)
}

/// The lines of a proof tree whose root is at `depth`: the root's line, then
/// the lines of each premise one level deeper.
pub open spec fn tree_lines(t: ProofTree, depth: nat) -> Seq<Seq<char>>
    decreases t,
{
    seq![node_line(t, depth)] + trees_lines(t.premises, depth + 1)
}

pub open spec fn trees_lines(ts: Seq<ProofTree>, depth: nat) -> Seq<Seq<char>>
    decreases ts,
{
    if ts.len() == 0 {
        Seq::empty()
    } else {
        trees_lines(ts.subrange(0, ts.len() - 1), depth) + tree_lines(ts[ts.len() - 1], depth)
    }
}

/// The lines joined by newlines.
pub open spec fn join_lines(ls: Seq<Seq<char>>) -> Seq<char>
    decreases ls.len(),
{
    if ls.len() == 0 {
        Seq::empty()
    } else if ls.len() == 1 {
        ls[0]
    } else {
        join_lines(ls.drop_last()) + seq!['\n'] + ls.last()
    }
}

pub proof fn lemma_proofs_view(ps: Seq<Proof>)
    ensures
        proofs_view(ps).len() == ps.len(),
        forall|i: int| 0 <= i < ps.len() ==> #[trigger] proofs_view(ps)[i] == ps[i]@,
    decreases ps.len(),
{
    if ps.len() > 0 {
        let pre = ps.subrange(0, ps.len() - 1);
        lemma_proofs_view(pre);
        assert(proofs_view(ps) == proofs_view(pre).push(ps[ps.len() - 1]@));
        assert forall|i: int| 0 <= i < ps.len() implies #[trigger] proofs_view(ps)[i] == ps[i]@ by {
            if i < ps.len() - 1 {
                assert(proofs_view(pre)[i] == pre[i]@);
            }
        }
    } else {
        assert(proofs_view(ps) == Seq::<ProofTree>::empty());
    }
}

proof fn lemma_trees_size_prefix(ts: Seq<ProofTree>, i: int)
    requires
        0 <= i <= ts.len(),
    ensures
        trees_size(ts.subrange(0, i)) <= trees_size(ts),
    decreases ts.len(),
{
    if i < ts.len() {
        assert(ts.subrange(0, ts.len() - 1).subrange(0, i) =~= ts.subrange(0, i));
        lemma_trees_size_prefix(ts.subrange(0, ts.len() - 1), i);
    } else {
        assert(ts.subrange(0, i) =~= ts);
    }
}

/// Any further trees only add to the count.
proof fn lemma_trees_size_prefix_mono(ts: Seq<ProofTree>, i: int)
    requires
        0 < i <= ts.len(),
    ensures
        trees_size(ts.subrange(0, i - 1)) + tree_size(ts[i - 1]) <= trees_size(ts),
{
    let p = ts.subrange(0, i);
    assert(p.subrange(0, p.len() - 1) =~= ts.subrange(0, i - 1));
    assert(p[p.len() - 1] == ts[i - 1]);
    lemma_trees_size_prefix(ts, i);
}

impl Proof {
    /// The number of nodes in the proof tree, or `None` where it does not
    /// fit in a `usize`.
    pub fn checked_step_count(&self) -> (n: Option<usize>)
        ensures
            n == (if tree_size(self@) <= usize::MAX {
                Some(tree_size(self@) as usize)
            } else {
                None::<usize>
            }),
        decreases self,
    {
        let ghost ts = proofs_view(self.premises@);
        proof {
            lemma_proofs_view(self.premises@);
            assert(ts.subrange(0, 0) =~= Seq::<ProofTree>::empty());
        }
        let mut total: usize = 1;
        let mut i: usize = 0;
        while i < self.premises.len()
            invariant
                i <= self.premises@.len(),
                ts == proofs_view(self.premises@),
                ts.len() == self.premises@.len(),
                forall|j: int| 0 <= j < ts.len() ==> #[trigger] ts[j] == self.premises@[j]@,
                total == 1 + trees_size(ts.subrange(0, i as int)),
            decreases self.premises@.len() - i,
        {
            proof {
                assert(ts.subrange(0, i + 1).subrange(0, i as int) =~= ts.subrange(0, i as int));
                lemma_trees_size_prefix(ts, i + 1);
                lemma_trees_size_prefix_mono(ts, i + 1);
            }
            match self.premises[i].checked_step_count() {
                Some(n) => {
                    if n > usize::MAX - total {
                        return None;
                    }
                    total = total + n;
                },
                None => {
                    return None;
                },
            }
            i = i + 1;
        }
        proof {
            assert(ts.subrange(0, i as int) =~= ts);
        }
        Some(total)
    }

    /// Total number of nodes in the proof tree.
    pub fn step_count(&self) -> (n: usize)
        requires
            tree_size(self@) <= usize::MAX,
        ensures
            n == tree_size(self@),
    {
        match self.checked_step_count() {
            Some(n) => n,
            None => {
                proof {
                    assert(false);
                }
                0
            },
        }
    }

    fn render_into(&self, lines: &mut Vec<String>, depth: usize)
        requires
            depth + tree_size(self@) <= usize::MAX,
        ensures
            names(final(lines)@) == names(old(lines)@) + tree_lines(self@, depth as nat),
        decreases self,
    {
        let ghost ts = proofs_view(self.premises@);
        proof {
            lemma_proofs_view(self.premises@);
        }
        let mut line = String::new();
        let mut k: usize = 0;
        while k < depth
            invariant
                k <= depth,
                line@ == Seq::new(2 * k as nat, |i: int| ' '),
            decreases depth - k,
        {
            push_char(&mut line, ' ');
            push_char(&mut line, ' ');
            k = k + 1;
            assert(line@ =~= Seq::new(2 * k as nat, |i: int| ' '));
        }
        self.conclusion.write_to(&mut line);
        push_char(&mut line, ' ');
        push_char(&mut line, ' ');
        push_char(&mut line, ' ');
        push_char(&mut line, ' ');
        push_char(&mut line, '[');
        line.append(self.method.as_str());
        if !self.reference.as_str().is_empty() {
            push_char(&mut line, ' ');
            push_char(&mut line, 'v');
            push_char(&mut line, 'i');
            push_char(&mut line, 'a');
            push_char(&mut line, ' ');
            line.append(self.reference.as_str());
        }
        push_char(&mut line, ']');
        assert(line@ =~= node_line(self@, depth as nat));
        let ghost start = names(lines@);
        let ghost before = lines@;
        lines.push(line);
        assert(names(lines@) =~= names(before).push(node_line(self@, depth as nat)));
        proof {
            assert(ts.subrange(0, 0) =~= Seq::<ProofTree>::empty());
        }
        let mut i: usize = 0;
        while i < self.premises.len()
            invariant
                i <= self.premises@.len(),
                ts == proofs_view(self.premises@),
                ts.len() == self.premises@.len(),
                forall|j: int| 0 <= j < ts.len() ==> #[trigger] ts[j] == self.premises@[j]@,
                names(lines@) == start + seq![node_line(self@, depth as nat)] + trees_lines(ts.subrange(0, i as int), depth as nat + 1),
                depth + 1 + trees_size(ts) <= usize::MAX,
            decreases self.premises@.len() - i,
        {
            proof {
                assert(ts.subrange(0, i + 1).subrange(0, i as int) =~= ts.subrange(0, i as int));
                lemma_trees_size_prefix(ts, i + 1);
            }
            self.premises[i].render_into(lines, depth + 1);
            proof {
                let a = start + seq![node_line(self@, depth as nat)];
                assert(names(lines@) =~= a + trees_lines(ts.subrange(0, i + 1), depth as nat + 1));
            }
            i = i + 1;
        }
        proof {
            assert(ts.subrange(0, i as int) =~= ts);
            assert(names(lines@) =~= start + tree_lines(self@, depth as nat));
        }
    }

    /// Render the proof tree as an indented string: one line per node, the
    /// conclusion indented two spaces per level, followed by the method and
    /// the theorem used.
    pub fn render(&self) -> (r: String)
        requires
            tree_size(self@) <= usize::MAX,
        ensures
            r@ == join_lines(tree_lines(self@, 0)),
            tree_without_newline(self@) ==> newlines(r@) + 1 == tree_size(self@),
    {
        let mut lines: Vec<String> = Vec::new();
        self.render_into(&mut lines, 0);
        assert(names(Seq::<String>::empty()) =~= Seq::<Seq<char>>::empty());
        let ghost ls = tree_lines(self@, 0);
        assert(names(lines@) =~= ls);
        let mut out = String::new();
        let mut i: usize = 0;
        while i < lines.len()
            invariant
                i <= lines@.len(),
                names(lines@) == ls,
                out@ == join_lines(ls.subrange(0, i as int)),
            decreases lines@.len() - i,
        {
            proof {
                let p = ls.subrange(0, i + 1);
                assert(p.drop_last() =~= ls.subrange(0, i as int));
                assert(ls[i as int] == lines@[i as int]@);
            }
            if i > 0 {
                push_char(&mut out, '\n');
            }
            out.append(lines[i].as_str());
            proof {
                if i == 0 {
                    assert(ls.subrange(0, 1) =~= seq![ls[0]]);
                    assert(out@ =~= ls[0]);
                }
            }
            i = i + 1;
        }
        assert(ls.subrange(0, ls.len() as int) =~= ls);
        proof {
            if tree_without_newline(self@) {
                law_render_one_line_per_node(self@);
            }
        }
        out
    }
}

impl Proof {
    /// A copy of the proof tree, with the same value.
    fn deep_copy(&self) -> (r: Proof)
        ensures
            r@ == self@,
        decreases self,
    {
        let ghost ts = proofs_view(self.premises@);
        proof {
            lemma_proofs_view(self.premises@);
        }
        let mut premises: Vec<Proof> = Vec::new();
        let mut i: usize = 0;
        while i < self.premises.len()
            invariant
                i <= self.premises@.len(),
                ts == proofs_view(self.premises@),
                ts.len() == self.premises@.len(),
                forall|j: int| 0 <= j < ts.len() ==> #[trigger] ts[j] == self.premises@[j]@,
                premises@.len() == i,
                forall|j: int| 0 <= j < i ==> #[trigger] premises@[j]@ == self.premises@[j]@,
            decreases self.premises@.len() - i,
        {
            let c = self.premises[i].deep_copy();
            premises.push(c);
            i = i + 1;
        }
        let r = Proof {
            conclusion: self.conclusion.clone(),
            method: self.method.clone(),
            reference: self.reference.clone(),
            premises,
        };
        proof {
            lemma_proofs_view(r.premises@);
            assert(proofs_view(r.premises@) =~= ts);
        }
        r
    }
}

impl Clone for Proof {
    fn clone(&self) -> (r: Self)
        ensures
            r@ == self@,
    {
        self.deep_copy()
    }
}

impl Default for LogicTheorist {
    /// A prover that knows the five axioms and searches to depth 6.
    fn default() -> (lt: Self)
        ensures
            lt.kb() == axiom_list(),
            lt.max_depth == 6,
    {
        LogicTheorist::new(6)
    }
}

} // verus!
