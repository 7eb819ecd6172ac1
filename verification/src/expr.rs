//! Propositional formulas in primitive form: variables, negation and
//! disjunction.  Implication `a -> b` is the primitive `~a | b`.

use vstd::prelude::*;
use crate::subst::Subst;
use crate::text::push_char;

verus! {

/// The mathematical value of a formula.
pub enum Formula {
    Var(Seq<char>),
    Not(Box<Formula>),
    Or(Box<Formula>, Box<Formula>),
}

/// `a -> b`, written as `~a | b`.
pub open spec fn implies_f(a: Formula, b: Formula) -> Formula {
    Formula::Or(Box::new(Formula::Not(Box::new(a))), Box::new(b))
}

/// What a substitution gives for variable `v`: its binding, or `v` itself.
pub open spec fn lookup(m: Map<Seq<char>, Formula>, v: Seq<char>) -> Formula {
    if m.contains_key(v) {
        m[v]
    } else {
        Formula::Var(v)
    }
}

impl Formula {
    /// The formula with every variable replaced as `m` says.
    pub open spec fn apply(self, m: Map<Seq<char>, Formula>) -> Formula
        decreases self,
    {
        match self {
            Formula::Var(v) => lookup(m, v),
            Formula::Not(x) => Formula::Not(Box::new(x.apply(m))),
            Formula::Or(a, b) => Formula::Or(Box::new(a.apply(m)), Box::new(b.apply(m))),
        }
    }

    /// The set of variables that occur in the formula.
    pub open spec fn free_vars(self) -> Set<Seq<char>>
        decreases self,
    {
        match self {
            Formula::Var(v) => set![v],
            Formula::Not(x) => x.free_vars(),
            Formula::Or(a, b) => a.free_vars().union(b.free_vars()),
        }
    }

    /// `acc` followed by the variables of the formula that are not yet in
    /// it, in order of first occurrence, left to right.
    pub open spec fn vars_after(self, acc: Seq<Seq<char>>) -> Seq<Seq<char>>
        decreases self,
    {
        match self {
            Formula::Var(v) => if acc.contains(v) {
                acc
            } else {
                acc.push(v)
            },
            Formula::Not(x) => x.vars_after(acc),
            Formula::Or(a, b) => b.vars_after(a.vars_after(acc)),
        }
    }

    /// The formula with `suffix` appended to the name of every variable.
    pub open spec fn rename(self, suffix: Seq<char>) -> Formula
        decreases self,
    {
        match self {
            Formula::Var(v) => Formula::Var(v + suffix),
            Formula::Not(x) => Formula::Not(Box::new(x.rename(suffix))),
            Formula::Or(a, b) => Formula::Or(Box::new(a.rename(suffix)), Box::new(b.rename(suffix))),
        }
    }

    /// The text of the formula, with `~a | b` shown as `(a -> b)`.
    pub open spec fn display(self) -> Seq<char>
        decreases self,
    {
        match self {
            Formula::Var(v) => v,
            Formula::Not(x) => seq!['~'] + x.display(),
            Formula::Or(l, r) => match *l {
                Formula::Not(a) => seq!['('] + a.display() + seq![' ', '-', '>', ' '] + r.display() + seq![')'],
                _ => seq!['('] + l.display() + seq![' ', '|', ' '] + r.display() + seq![')'],
            },
        }
    }

    /// If the formula has the shape `a -> b` (`~a | b`), the pair `(a, b)`.
    pub open spec fn implication(self) -> Option<(Formula, Formula)> {
        match self {
            Formula::Or(l, r) => match *l {
                Formula::Not(a) => Some((*a, *r)),
                _ => None,
            },
            _ => None,
        }
    }
}

/// `target` is an instance of `pattern` by some substitution that extends `s`.
pub open spec fn instance_under(pattern: Formula, target: Formula, s: Map<Seq<char>, Formula>) -> bool {
    exists|m: Map<Seq<char>, Formula>| s.submap_of(m) && #[trigger] pattern.apply(m) == target
}

/// `target` is a substitution instance of `pattern`.
pub open spec fn instance_of(pattern: Formula, target: Formula) -> bool {
    instance_under(pattern, target, Map::empty())
}

/// The names of a sequence of strings.
pub open spec fn names(v: Seq<String>) -> Seq<Seq<char>> {
    v.map_values(|s: String| s@)
}


/// The variables listed by `vars_after` are those of `acc` and those of the formula.
pub proof fn lemma_vars_after(f: Formula, acc: Seq<Seq<char>>)
    ensures
        forall|w: Seq<char>|
            #![trigger f.vars_after(acc).contains(w)]
            #![trigger f.free_vars().contains(w)]
            f.vars_after(acc).contains(w) <==> (acc.contains(w) || f.free_vars().contains(w)),
        acc.no_duplicates() ==> f.vars_after(acc).no_duplicates(),
    decreases f,
{
    match f {
        Formula::Var(v) => {
            assert forall|w: Seq<char>|
                #![trigger f.vars_after(acc).contains(w)]
                #![trigger f.free_vars().contains(w)]
                f.vars_after(acc).contains(w) <==> (acc.contains(w) || f.free_vars().contains(w)) by {
                assert(f.free_vars().contains(w) <==> w == v);
                if !acc.contains(v) {
                    let r = acc.push(v);
                    if r.contains(w) {
                        let i = choose|i: int| 0 <= i < r.len() && r[i] == w;
                        if i < acc.len() {
                            assert(acc[i] == w);
                        }
                    }
                    if acc.contains(w) {
                        let i = choose|i: int| 0 <= i < acc.len() && acc[i] == w;
                        assert(r[i] == w);
                    }
                    if w == v {
                        assert(r[acc.len() as int] == w);
                    }
                }
            }
        },
        Formula::Not(x) => {
            lemma_vars_after(*x, acc);
            assert(f.vars_after(acc) == x.vars_after(acc));
            assert(f.free_vars() == x.free_vars());
        },
        Formula::Or(a, b) => {
            lemma_vars_after(*a, acc);
            lemma_vars_after(*b, a.vars_after(acc));
            assert(f.vars_after(acc) == b.vars_after(a.vars_after(acc)));
            assert(f.free_vars() == a.free_vars().union(b.free_vars()));
            assert forall|w: Seq<char>|
                #![trigger f.vars_after(acc).contains(w)]
                #![trigger f.free_vars().contains(w)]
                f.vars_after(acc).contains(w) <==> (acc.contains(w) || f.free_vars().contains(w)) by {
                assert(a.vars_after(acc).contains(w) <==> (acc.contains(w) || a.free_vars().contains(w)));
                assert(b.vars_after(a.vars_after(acc)).contains(w) <==> (a.vars_after(acc).contains(w) || b.free_vars().contains(w)));
            }
        },
    }
}

/// Renaming is the substitution of each variable by its renamed self.
pub proof fn lemma_rename_is_apply(f: Formula, m: Map<Seq<char>, Formula>, suffix: Seq<char>)
    requires
        forall|v: Seq<char>| f.free_vars().contains(v) ==> lookup(m, v) == Formula::Var(v + suffix),
    ensures
        f.apply(m) == f.rename(suffix),
    decreases f,
{
    match f {
        Formula::Var(v) => {
            assert(f.free_vars().contains(v));
        },
        Formula::Not(x) => {
            lemma_rename_is_apply(*x, m, suffix);
        },
        Formula::Or(a, b) => {
            lemma_rename_is_apply(*a, m, suffix);
            lemma_rename_is_apply(*b, m, suffix);
        },
    }
}

/// Two substitutions that agree on the variables of `f` give the same instance.
pub proof fn lemma_apply_agree(f: Formula, m1: Map<Seq<char>, Formula>, m2: Map<Seq<char>, Formula>)
    requires
        forall|v: Seq<char>| f.free_vars().contains(v) ==> lookup(m1, v) == lookup(m2, v),
    ensures
        f.apply(m1) == f.apply(m2),
    decreases f,
{
    match f {
        Formula::Var(v) => {
            assert(f.free_vars().contains(v));
        },
        Formula::Not(x) => {
            lemma_apply_agree(*x, m1, m2);
        },
        Formula::Or(a, b) => {
            lemma_apply_agree(*a, m1, m2);
            lemma_apply_agree(*b, m1, m2);
        },
    }
}

/// Two substitutions that give the same instance of `f` agree on its variables.
pub proof fn lemma_apply_determines(f: Formula, m1: Map<Seq<char>, Formula>, m2: Map<Seq<char>, Formula>)
    requires
        f.apply(m1) == f.apply(m2),
    ensures
        forall|v: Seq<char>| f.free_vars().contains(v) ==> lookup(m1, v) == lookup(m2, v),
    decreases f,
{
    match f {
        Formula::Var(v) => {
            assert(f.free_vars() =~= set![v]);
        },
        Formula::Not(x) => {
            lemma_apply_determines(*x, m1, m2);
        },
        Formula::Or(a, b) => {
            lemma_apply_determines(*a, m1, m2);
            lemma_apply_determines(*b, m1, m2);
        },
    }
}

/// A propositional formula.
#[derive(PartialEq, Eq, Hash, Debug)]
pub enum Expr {
    Var(String),
    Not(Box<Expr>),
    Or(Box<Expr>, Box<Expr>),
}

impl View for Expr {
    type V = Formula;

    open spec fn view(&self) -> Formula
        decreases self,
    {
        match self {
            Expr::Var(name) => Formula::Var(name@),
            Expr::Not(e) => Formula::Not(Box::new((**e).view())),
            Expr::Or(a, b) => Formula::Or(Box::new((**a).view()), Box::new((**b).view())),
        }
    }
}

impl Expr {
    pub fn var(name: &str) -> (e: Expr)
        ensures
            e@ == Formula::Var(name@),
    {
        Expr::Var(name.to_owned())
    }

    pub fn not(e: Expr) -> (r: Expr)
        ensures
            r@ == Formula::Not(Box::new(e@)),
    {
        Expr::Not(Box::new(e))
    }

    pub fn or(a: Expr, b: Expr) -> (r: Expr)
        ensures
            r@ == Formula::Or(Box::new(a@), Box::new(b@)),
    {
        Expr::Or(Box::new(a), Box::new(b))
    }

    /// Build `a -> b` as the primitive `~a | b`.
    pub fn implies(a: Expr, b: Expr) -> (r: Expr)
        ensures
            r@ == implies_f(a@, b@),
    {
        Expr::or(Expr::not(a), b)
    }

    /// A copy of the formula, with the same value.
    fn deep_copy(&self) -> (r: Expr)
        ensures
            r@ == self@,
        decreases self,
    {
        match self {
            Expr::Var(name) => Expr::Var(name.clone()),
            Expr::Not(e) => Expr::not((**e).deep_copy()),
            Expr::Or(a, b) => Expr::or((**a).deep_copy(), (**b).deep_copy()),
        }
    }

    /// Structural equality of two formulas.
    pub fn equals(&self, other: &Expr) -> (r: bool)
        ensures
            r == (self@ == other@),
        decreases self,
    {
        match (self, other) {
            (Expr::Var(x), Expr::Var(y)) => *x == *y,
            (Expr::Not(x), Expr::Not(y)) => (**x).equals(&**y),
            (Expr::Or(a, b), Expr::Or(c, d)) => (**a).equals(&**c) && (**b).equals(&**d),
            _ => false,
        }
    }

    /// If this formula has the shape `a -> b` (i.e. `~a | b`), return `(a, b)`.
    pub fn as_implication(&self) -> (r: Option<(&Expr, &Expr)>)
        ensures
            match r {
                Some((a, b)) => self@.implication() == Some((a@, b@)),
                None => self@.implication() is None,
            },
    {
        match self {
            Expr::Or(left, right) => match &**left {
                Expr::Not(inner) => {
                    assert((**left)@ == Formula::Not(Box::new((**inner)@)));
                    Some((&**inner, &**right))
                },
                _ => {
                    assert((**left)@ !is Not);
                    None
                },
            },
            _ => None,
        }
    }


    /// Collect the variable names occurring in the formula, appending to `out`
    /// those not already in it, in order of first occurrence.
    pub fn variables(&self, out: &mut Vec<String>)
        ensures
            names(final(out)@) == self@.vars_after(names(old(out)@)),
        decreases self,
    {
        match self {
            Expr::Var(name) => {
                let mut found = false;
                let mut i: usize = 0;
                while i < out.len()
                    invariant
                        i <= out@.len(),
                        found <==> exists|j: int| 0 <= j < i && out@[j]@ == name@,
                    decreases out@.len() - i,
                {
                    if out[i] == *name {
                        found = true;
                    }
                    i = i + 1;
                }
                proof {
                    let ns = names(out@);
                    if found {
                        let j = choose|j: int| 0 <= j < i && out@[j]@ == name@;
                        assert(ns[j] == name@);
                    } else {
                        assert forall|j: int| 0 <= j < ns.len() implies ns[j] != name@ by {
                            assert(ns[j] == out@[j]@);
                        }
                    }
                }
                if !found {
                    let ghost before = out@;
                    out.push(name.clone());
                    assert(names(out@) =~= names(before).push(name@));
                }
            },
            Expr::Not(e) => (**e).variables(out),
            Expr::Or(a, b) => {
                (**a).variables(out);
                (**b).variables(out);
            },
        }
    }

    /// Rename every variable with a suffix, to avoid clashes when a theorem
    /// is reused inside a larger proof.
    pub fn rename_apart(&self, suffix: &str) -> (r: Expr)
        ensures
            r@ == self@.rename(suffix@),
    {
        let mut vars: Vec<String> = Vec::new();
        self.variables(&mut vars);
        proof {
            assert(names(Seq::<String>::empty()) =~= Seq::<Seq<char>>::empty());
            lemma_vars_after(self@, Seq::<Seq<char>>::empty());
        }
        let mut subst = Subst::new();
        let n = vars.len();
        let mut i: usize = 0;
        while i < n
            invariant
                i <= n,
                n == vars@.len(),
                names(vars@) == self@.vars_after(Seq::empty()),
                forall|k: Seq<char>| #[trigger] subst@.contains_key(k) ==> subst@[k] == Formula::Var(k + suffix@),
                forall|j: int| 0 <= j < i ==> subst@.contains_key(#[trigger] vars@[j]@),
            decreases n - i,
        {
            let mut renamed = vars[i].clone();
            renamed.append(suffix);
            let key = vars[i].clone();
            subst.insert(key, Expr::Var(renamed));
            i = i + 1;
        }
        proof {
            lemma_vars_after(self@, Seq::<Seq<char>>::empty());
            assert forall|v: Seq<char>| self@.free_vars().contains(v) implies lookup(subst@, v) == Formula::Var(v + suffix@) by {
                let ns = names(vars@);
                assert(self@.vars_after(Seq::<Seq<char>>::empty()).contains(v));
                assert(ns.contains(v));
                let j = choose|j: int| 0 <= j < ns.len() && ns[j] == v;
                assert(vars@[j]@ == v);
            }
            lemma_rename_is_apply(self@, subst@, suffix@);
        }
        self.substitute(&subst)
    }

    /// Append the text of the formula to `out`.
    pub fn write_to(&self, out: &mut String)
        ensures
            final(out)@ == old(out)@ + self@.display(),
        decreases self,
    {
        match self {
            Expr::Var(name) => {
                out.append(name.as_str());
            },
            Expr::Not(e) => {
                push_char(out, '~');
                (**e).write_to(out);
                assert(self@.display() == seq!['~'] + (**e)@.display());
            },
            Expr::Or(left, right) => {
                push_char(out, '(');
                match &**left {
                    Expr::Not(inner) => {
                        assert((**left)@ == Formula::Not(Box::new((**inner)@)));
                        (**inner).write_to(out);
                        push_char(out, ' ');
                        push_char(out, '-');
                        push_char(out, '>');
                        push_char(out, ' ');
                    },
                    _ => {
                        assert((**left)@ !is Not);
                        (**left).write_to(out);
                        push_char(out, ' ');
                        push_char(out, '|');
                        push_char(out, ' ');
                    },
                }
                (**right).write_to(out);
                push_char(out, ')');
                proof {
                    assert(old(out)@ + self@.display() =~= out@);
                }
            },
        }
    }

    /// The text of the formula: implications `~a | b` are shown as
    /// `(a -> b)`, other disjunctions as `(a | b)`, negations as `~a`.
    pub fn to_string(&self) -> (r: String)
        ensures
            r@ == self@.display(),
    {
        let mut out = String::new();
        self.write_to(&mut out);
        assert(out@ =~= self@.display());
        out
    }

    /// Apply a substitution throughout the formula.
    pub fn substitute(&self, subst: &Subst) -> (r: Expr)
        ensures
            r@ == self@.apply(subst@),
        decreases self,
    {
        match self {
            Expr::Var(name) => match subst.get(name) {
                Some(e) => e.clone(),
                None => self.clone(),
            },
            Expr::Not(e) => Expr::not((**e).substitute(subst)),
            Expr::Or(a, b) => Expr::or((**a).substitute(subst), (**b).substitute(subst)),
        }
    }
}


/// The result promised by `matches`: the least extension of `s` under which
/// `pattern` becomes `target`.
pub open spec fn match_result(
    pattern: Formula,
    target: Formula,
    s: Map<Seq<char>, Formula>,
    r: Map<Seq<char>, Formula>,
) -> bool {
    &&& s.submap_of(r)
    &&& r.dom() == s.dom().union(pattern.free_vars())
    &&& pattern.apply(r) == target
}


/// `matches` has one possible answer: the least extension is unique.
pub proof fn lemma_match_unique(
    pattern: Formula,
    target: Formula,
    s: Map<Seq<char>, Formula>,
    r1: Map<Seq<char>, Formula>,
    r2: Map<Seq<char>, Formula>,
)
    requires
        match_result(pattern, target, s, r1),
        match_result(pattern, target, s, r2),
    ensures
        r1 == r2,
{
    lemma_apply_determines(pattern, r1, r2);
    assert forall|v: Seq<char>| #[trigger] r1.contains_key(v) implies r1[v] == r2[v] by {
        if s.contains_key(v) {
            assert(r1[v] == s[v]);
        } else {
            assert(r1.dom().contains(v));
            assert(pattern.free_vars().contains(v));
            assert(lookup(r1, v) == lookup(r2, v));
            assert(r2.dom().contains(v));
        }
    }
    assert(r1.dom() =~= r2.dom());
    assert(r1 =~= r2);
}

/// One-way match: find a substitution `s` with `pattern.substitute(&s) == target`.
/// Variables in `pattern` may bind; `target` is treated as fixed structure.
pub fn matches(pattern: &Expr, target: &Expr, subst: &Subst) -> (r: Option<Subst>)
    ensures
        r is Some <==> instance_under(pattern@, target@, subst@),
        r matches Some(s2) ==> match_result(pattern@, target@, subst@, s2@),
    decreases pattern,
{
    match pattern {
        Expr::Var(name) => match subst.get(name) {
            Some(bound) => {
                if bound.equals(target) {
                    let r = subst.clone();
                    assert(r@.dom() =~= subst@.dom().union(pattern@.free_vars()));
                    assert(pattern@.apply(r@) == target@);
                    Some(r)
                } else {
                    assert forall|m: Map<Seq<char>, Formula>| subst@.submap_of(m) implies
                        #[trigger] pattern@.apply(m) != target@ by {
                        assert(m[name@] == subst@[name@]);
                    }
                    None
                }
            },
            None => {
                let mut next = subst.clone();
                next.insert(name.clone(), target.clone());
                assert(next@.dom() =~= subst@.dom().union(pattern@.free_vars()));
                assert(subst@.submap_of(next@));
                assert(pattern@.apply(next@) == target@);
                Some(next)
            },
        },
        Expr::Not(p) => {
            if let Expr::Not(t) = target {
                let r = matches(&**p, &**t, subst);
                proof {
                    if r is None {
                        assert forall|m: Map<Seq<char>, Formula>| subst@.submap_of(m) implies
                            #[trigger] pattern@.apply(m) != target@ by {
                            assert(p@.apply(m) != t@);
                        }
                    } else {
                        let s2 = r->0;
                        assert(pattern@.free_vars() == p@.free_vars());
                        assert(pattern@.apply(s2@) == target@);
                    }
                }
                r
            } else {
                assert forall|m: Map<Seq<char>, Formula>| subst@.submap_of(m) implies
                    #[trigger] pattern@.apply(m) != target@ by {
                    assert(target@ !is Not);
                }
                None
            }
        },
        Expr::Or(pl, pr) => {
            if let Expr::Or(tl, tr) = target {
                match matches(&**pl, &**tl, subst) {
                    None => {
                        assert forall|m: Map<Seq<char>, Formula>| subst@.submap_of(m) implies
                            #[trigger] pattern@.apply(m) != target@ by {
                            assert(pl@.apply(m) != tl@);
                        }
                        None
                    },
                    Some(s1) => {
                        let r = matches(&**pr, &**tr, &s1);
                        proof {
                            if r is None {
                                lemma_or_match(pl@, pr@, tl@, tr@, subst@, s1@);
                            } else {
                                let s2 = r->0;
                                assert(pattern@.free_vars() == pl@.free_vars().union(pr@.free_vars()));
                                assert(s2@.dom() =~= subst@.dom().union(pattern@.free_vars()));
                                assert forall|v: Seq<char>| pl@.free_vars().contains(v) implies
                                    lookup(s1@, v) == lookup(s2@, v) by {
                                    assert(s1@.dom().contains(v));
                                }
                                lemma_apply_agree(pl@, s1@, s2@);
                                assert(subst@.submap_of(s2@));
                                assert(pattern@.apply(s2@) == target@);
                            }
                        }
                        r
                    },
                }
            } else {
                assert forall|m: Map<Seq<char>, Formula>| subst@.submap_of(m) implies
                    #[trigger] pattern@.apply(m) != target@ by {
                    assert(target@ !is Or);
                }
                None
            }
        },
    }
}

/// When the left halves match under `s1`, the least such extension of `s`,
/// every extension of `s` that makes both halves match can be taken to
/// extend `s1`.
proof fn lemma_or_match(
    pl: Formula,
    pr: Formula,
    tl: Formula,
    tr: Formula,
    s: Map<Seq<char>, Formula>,
    s1: Map<Seq<char>, Formula>,
)
    requires
        match_result(pl, tl, s, s1),
        !instance_under(pr, tr, s1),
    ensures
        forall|m: Map<Seq<char>, Formula>| s.submap_of(m) ==>
            #[trigger] Formula::Or(Box::new(pl), Box::new(pr)).apply(m) != Formula::Or(Box::new(tl), Box::new(tr)),
{
    assert forall|m: Map<Seq<char>, Formula>| s.submap_of(m) implies
        #[trigger] Formula::Or(Box::new(pl), Box::new(pr)).apply(m) != Formula::Or(Box::new(tl), Box::new(tr)) by {
        if pl.apply(m) == tl && pr.apply(m) == tr {
            lemma_apply_determines(pl, m, s1);
            let m2 = m.union_prefer_right(s1);
            assert(s1.submap_of(m2));
            assert forall|v: Seq<char>| pr.free_vars().contains(v) implies lookup(m, v) == lookup(m2, v) by {
                if s1.dom().contains(v) {
                    if s.dom().contains(v) {
                        assert(m[v] == s[v]);
                        assert(s1[v] == s[v]);
                    } else {
                        assert(pl.free_vars().contains(v));
                    }
                }
            }
            lemma_apply_agree(pr, m, m2);
        }
    }
}

impl Clone for Expr {
    fn clone(&self) -> (r: Self)
        ensures
            r@ == self@,
    {
        self.deep_copy()
    }
}

} // verus!
