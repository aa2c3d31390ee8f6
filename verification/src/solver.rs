//! The symbolic boolean algebra backed by an external satisfiability
//! solver.
//!
//! Elements are literals over solver variables. Each gate operation
//! allocates a fresh variable and appends a few clauses relating that
//! variable to that operation's arguments. The search for a model runs in the
//! external engine, and an assignment it hands back becomes the stored
//! model only after every clause has been found true under it.

use vstd::prelude::*;
use varisat::ExtendFormula;
use crate::boolean::{extends_with, BoolAlg, BoolSat};
use crate::genvec::{GenElem, Wrapper};

verus! {

/// The largest number of variables the symbolic algebra allocates: the
/// number of variable indices the external solver supports, whose largest
/// index is one below this value.
const MAX_VARS: usize = 0x1000_0000;

/// A literal: a solver variable index together with a sign, or one of the
/// two constants, which are the positive and negative literal of the
/// always-true variable zero.
#[derive(Clone, Copy, Debug, PartialEq, Eq, Structural)]
pub struct Literal {
    code: usize,
}

impl Literal {
    /// The index of the literal's variable.
    pub closed spec fn var(self) -> int {
        (self.code / 2) as int
    }

    /// Whether the literal denies its variable.
    pub closed spec fn is_neg(self) -> bool {
        self.code % 2 == 1
    }
}

/// The truth value of a literal under an assignment of variables.
pub open spec fn lit_eval(l: Literal, asg: Seq<bool>) -> bool {
    if l.is_neg() {
        !asg[l.var()]
    } else {
        asg[l.var()]
    }
}

/// The external solver's form of a literal: its variable index paired
/// with whether the literal is positive.
pub closed spec fn lit_pair(l: Literal) -> (usize, bool) {
    (l.code / 2, l.code % 2 == 0)
}

/// Whether at least one literal of the disjunctive clause is true.
pub open spec fn clause_sat(cl: Seq<Literal>, asg: Seq<bool>) -> bool {
    exists|i: int| 0 <= i < cl.len() && lit_eval(#[trigger] cl[i], asg)
}

impl GenElem for Literal {
    type GenVector = Wrapper<Vec<Literal>>;
}

/// The symbolic algebra's state: the number of allocated variables, the
/// accumulated disjunctive clauses, and the assignment most recently found
/// by the external solver.
pub struct Solver {
    num_vars: usize,
    clauses: Vec<Vec<Literal>>,
    model: Vec<bool>,
    found: bool,
    stuck: bool,
}

impl Solver {
    /// The accumulated clauses.
    pub closed spec fn clauses_model(&self) -> Seq<Seq<Literal>> {
        self.clauses@.map_values(|c: Vec<Literal>| c@)
    }

    /// The number of allocated variables.
    pub closed spec fn var_count(&self) -> int {
        self.num_vars as int
    }

    /// Creates a new symbolic algebra with no constraints beyond the
    /// always-true variable zero, which backs the constant literals:
    /// every assignment that sets variable zero true is consistent with
    /// the fresh state.
    pub fn new() -> (r: Self)
        ensures
            r.inv(),
            !r.has_model(),
            r.var_count() == 1,
            forall|asg: Seq<bool>|
                asg.len() >= 1 && asg[0] ==> #[trigger] r.models(asg),
    {
        let unit_clause = vec![Literal { code: 0 }];
        let clauses = vec![unit_clause];
        let r = Solver { num_vars: 1, clauses, model: Vec::new(), found: false, stuck: false };
        proof {
            assert(r.clauses_model().len() == 1);
            assert(r.clauses_model()[0] =~= seq![Literal { code: 0 }]);
            assert forall|asg: Seq<bool>| asg.len() >= 1 && asg[0] implies #[trigger] r.models(
                asg,
            ) by {
                let cl = r.clauses_model()[0];
                assert(cl[0].var() == 0 && !cl[0].is_neg());
                assert(lit_eval(cl[0], asg));
                assert(clause_sat(cl, asg));
                assert forall|ci: int| 0 <= ci < r.clauses_model().len() implies clause_sat(
                    #[trigger] r.clauses_model()[ci],
                    asg,
                ) by {};
            };
        }
        r
    }

    /// Allocates a fresh variable as a positive literal, or reports
    /// exhaustion of the variable budget, after which no assignment is
    /// consistent with the state any more.
    fn alloc_var(&mut self) -> (r: Option<Literal>)
        requires
            old(self).inv(),
        ensures
            final(self).inv(),
            forall|e: Literal| #[trigger]
                old(self).elem_inv(e) ==> final(self).elem_inv(e),
            forall|asg: Seq<bool>| #[trigger]
                final(self).models(asg) ==> old(self).models(asg),
            r is Some ==> final(self).elem_inv(r.unwrap()) && !r.unwrap().is_neg()
                && r.unwrap().var() == old(self).var_count() && final(self).var_count()
                == old(self).var_count() + 1 && final(self).clauses_model() == old(
                self,
            ).clauses_model() && final(self).live(),
            r is None ==> !final(self).live() && forall|asg: Seq<bool>| !(
            #[trigger] final(self).models(asg)),
            final(self).live() ==> old(self).live(),
    {
        if self.stuck || self.num_vars >= MAX_VARS {
            self.stuck = true;
            None
        } else {
            let v = self.num_vars;
            self.num_vars = self.num_vars + 1;
            self.found = false;
            let r = Literal { code: 2 * v };
            proof {
                assert((2 * v) / 2 == v as int) by (nonlinear_arith);
                assert((2 * v) % 2 == 0) by (nonlinear_arith);
                assert(r.var() == v as int);
                assert(!r.is_neg());
                assert(self.clauses_model() == old(self).clauses_model());
            }
            Some(r)
        }
    }

    /// Appends a disjunctive clause: exactly those assignments stay
    /// consistent that were consistent before and satisfy the clause.
    fn push_clause(&mut self, lits: Vec<Literal>)
        requires
            old(self).inv(),
            forall|i: int| 0 <= i < lits@.len() ==> old(self).elem_inv(#[trigger] lits@[i]),
        ensures
            final(self).inv(),
            forall|e: Literal| #[trigger]
                old(self).elem_inv(e) ==> final(self).elem_inv(e),
            forall|asg: Seq<bool>| #[trigger]
                final(self).models(asg) ==> old(self).models(asg) && clause_sat(lits@, asg),
            forall|asg: Seq<bool>|
                old(self).models(asg) && clause_sat(lits@, asg)
                    ==> #[trigger] final(self).models(asg),
            final(self).has_model() == old(self).has_model(),
            final(self).model() == old(self).model(),
    {
        let ghost prev = self.clauses_model();
        let ghost cl = lits@;
        self.clauses.push(lits);
        proof {
            assert(self.clauses_model() =~= prev.push(cl));
            assert forall|asg: Seq<bool>| #[trigger] self.models(asg) implies
                old(self).models(asg) && clause_sat(cl, asg) by {
                assert(forall|ci: int|
                    0 <= ci < prev.len() ==> #[trigger] self.clauses_model()[ci] == prev[ci]);
                assert(self.clauses_model()[prev.len() as int] == cl);
                assert(!self.stuck);
                assert(self.stuck == old(self).stuck);
                assert(asg.len() >= old(self).num_vars);
                assert(old(self).clauses_model() == prev);
                assert(clause_sat(self.clauses_model()[prev.len() as int], asg));
                assert(clause_sat(cl, asg));
                assert forall|ci: int| 0 <= ci < prev.len() implies clause_sat(
                    #[trigger] prev[ci],
                    asg,
                ) by {
                    assert(clause_sat(self.clauses_model()[ci], asg));
                };
                assert(old(self).models(asg));
            };
            assert forall|asg: Seq<bool>|
                old(self).models(asg) && clause_sat(cl, asg) implies
                #[trigger] self.models(asg) by {
                assert(forall|ci: int|
                    0 <= ci < prev.len() ==> #[trigger] self.clauses_model()[ci] == prev[ci]);
                assert(self.clauses_model()[prev.len() as int] == cl);
            };
        }
    }

    /// The negation of a literal: the same variable with the sign flipped.
    fn negate(l: Literal) -> (r: Literal)
        requires
            l.var() < MAX_VARS,
        ensures
            r.var() == l.var(),
            r.is_neg() == !l.is_neg(),
    {
        if l.code % 2 == 0 {
            Literal { code: l.code + 1 }
        } else {
            Literal { code: l.code - 1 }
        }
    }

    /// Extends an assignment consistent with this state by one further
    /// variable holding the given value: the extension keeps every
    /// literal over the existing variables and so stays consistent.
    proof fn lemma_extend_assignment(self, asg: Seq<bool>, x: bool) -> (a2: Seq<bool>)
        requires
            self.inv(),
            self.models(asg),
        ensures
            a2.len() >= self.var_count() + 1,
            a2.len() >= self.num_vars + 1,
            a2[self.var_count()] == x,
            !self.stuck,
            forall|l: Literal|
                l.var() < self.var_count() ==> #[trigger] lit_eval(l, a2) == lit_eval(
                    l,
                    asg,
                ),
            forall|ci: int|
                0 <= ci < self.clauses_model().len() ==> clause_sat(
                    #[trigger] self.clauses_model()[ci],
                    a2,
                ),
    {
        let v = self.var_count();
        let a2: Seq<bool> = if asg.len() > v {
            asg.update(v, x)
        } else {
            asg.push(x)
        };
        assert(asg.len() >= self.num_vars);
        assert(a2.len() >= v + 1);
        assert(a2[v] == x);
        assert forall|l: Literal| l.var() < v implies #[trigger] lit_eval(l, a2)
            == lit_eval(l, asg) by {
            assert(a2[l.var()] == asg[l.var()]);
        };
        assert forall|ci: int| 0 <= ci < self.clauses_model().len() implies clause_sat(
            #[trigger] self.clauses_model()[ci],
            a2,
        ) by {
            let cl = self.clauses_model()[ci];
            assert(clause_sat(cl, asg));
            let i = choose|i: int| 0 <= i < cl.len() && lit_eval(#[trigger] cl[i], asg);
            assert(cl[i].var() < self.var_count());
            assert(lit_eval(cl[i], a2));
        };
        a2
    }

    /// Whether the given assignment satisfies every accumulated clause.
    fn check_model(&self, asg: &Vec<bool>) -> (r: bool)
        requires
            self.inv(),
            asg@.len() >= self.var_count(),
        ensures
            r == forall|ci: int|
                0 <= ci < self.clauses_model().len() ==> clause_sat(
                    #[trigger] self.clauses_model()[ci],
                    asg@,
                ),
    {
        let mut ci: usize = 0;
        while ci < self.clauses.len()
            invariant
                ci <= self.clauses@.len(),
                self.inv(),
                asg@.len() >= self.var_count(),
                forall|q: int|
                    0 <= q < ci ==> clause_sat(#[trigger] self.clauses_model()[q], asg@),
            decreases self.clauses@.len() - ci,
        {
            let cl = &self.clauses[ci];
            let mut sat = false;
            let mut j: usize = 0;
            while j < cl.len()
                invariant
                    j <= cl@.len(),
                    self.inv(),
                    asg@.len() >= self.var_count(),
                    ci < self.clauses@.len(),
                    cl == &self.clauses@[ci as int],
                    sat == exists|q: int|
                        0 <= q < j && lit_eval(#[trigger] cl@[q], asg@),
                decreases cl@.len() - j,
            {
                let l = cl[j];
                proof {
                    assert(self.clauses_model()[ci as int] == cl@);
                    assert(self.clauses_model()[ci as int][j as int] == cl@[j as int]);
                    assert(l.var() < self.var_count());
                }
                let v = l.code / 2;
                let value = asg[v];
                let e = if l.code % 2 == 1 {
                    !value
                } else {
                    value
                };
                proof {
                    assert(e == lit_eval(l, asg@));
                }
                if e {
                    sat = true;
                }
                j = j + 1;
            }
            proof {
                assert(self.clauses_model()[ci as int] == cl@);
                assert(sat == clause_sat(cl@, asg@));
            }
            if !sat {
                proof {
                    assert(!clause_sat(self.clauses_model()[ci as int], asg@));
                }
                return false;
            }
            ci = ci + 1;
        }
        true
    }

    /// Whether the given assignment makes every literal of the list true.
    fn check_literals(&self, asg: &Vec<bool>, lits: &[Literal]) -> (r: bool)
        requires
            self.inv(),
            asg@.len() >= self.var_count(),
            forall|i: int| 0 <= i < lits@.len() ==> self.elem_inv(#[trigger] lits@[i]),
        ensures
            r == forall|i: int|
                0 <= i < lits@.len() ==> lit_eval(#[trigger] lits@[i], asg@),
    {
        let mut i: usize = 0;
        while i < lits.len()
            invariant
                i <= lits@.len(),
                self.inv(),
                asg@.len() >= self.var_count(),
                forall|q: int| 0 <= q < lits@.len() ==> self.elem_inv(#[trigger] lits@[q]),
                forall|q: int| 0 <= q < i ==> lit_eval(#[trigger] lits@[q], asg@),
            decreases lits@.len() - i,
        {
            let l = lits[i];
            proof {
                assert(l.var() < self.var_count());
            }
            let v = l.code / 2;
            let value = asg[v];
            let e = if l.code % 2 == 1 {
                !value
            } else {
                value
            };
            proof {
                assert(e == lit_eval(l, asg@));
            }
            if !e {
                return false;
            }
            i = i + 1;
        }
        true
    }
}

impl BoolAlg for Solver {
    type Elem = Literal;

    open spec fn eval(e: Literal, asg: Seq<bool>) -> bool {
        lit_eval(e, asg)
    }

    closed spec fn inv(&self) -> bool {
        &&& 1 <= self.num_vars <= MAX_VARS
        &&& self.clauses_model().len() >= 1
        &&& self.clauses_model()[0] == seq![Literal { code: 0 }]
        &&& forall|ci: int, i: int|
            0 <= ci < self.clauses_model().len() && 0 <= i
                < self.clauses_model()[ci].len() ==> (#[trigger] self.clauses_model()[ci][
                i
            ]).var() < self.num_vars
        &&& self.found ==> self.model@.len() == self.num_vars
    }

    closed spec fn elem_inv(&self, e: Literal) -> bool {
        e.var() < self.num_vars
    }

    closed spec fn models(&self, asg: Seq<bool>) -> bool {
        &&& !self.stuck
        &&& asg.len() >= self.num_vars
        &&& forall|ci: int|
            0 <= ci < self.clauses_model().len() ==> clause_sat(
                #[trigger] self.clauses_model()[ci],
                asg,
            )
    }

    closed spec fn live(&self) -> bool {
        !self.stuck
    }

    fn bool_lift(&mut self, elem: bool) -> (r: Literal) {
        let r = if elem {
            Literal { code: 0 }
        } else {
            Literal { code: 1 }
        };
        proof {
            assert(r.var() == 0);
            assert(r.is_neg() == !elem);
            assert forall|asg: Seq<bool>| #[trigger] self.models(asg) implies lit_eval(
                r,
                asg,
            ) == elem by {
                assert(clause_sat(self.clauses_model()[0], asg));
                let q = choose|q: int|
                    0 <= q < self.clauses_model()[0].len() && lit_eval(
                        #[trigger] self.clauses_model()[0][q],
                        asg,
                    );
                assert(self.clauses_model()[0][q] == Literal { code: 0 });
                assert(asg[0]);
            };
        }
        r
    }

    fn bool_not(&mut self, elem: Literal) -> (r: Literal) {
        Solver::negate(elem)
    }

    fn bool_or(&mut self, elem1: Literal, elem2: Literal) -> (r: Literal) {
        let vopt = self.alloc_var();
        match vopt {
            None => Literal { code: 0 },
            Some(v) => {
                let nv = Solver::negate(v);
                let n1 = Solver::negate(elem1);
                let n2 = Solver::negate(elem2);
                self.push_clause(clause3(nv, elem1, elem2));
                self.push_clause(clause2(n1, v));
                self.push_clause(clause2(n2, v));
                proof {
                    assert forall|asg: Seq<bool>| #[trigger] self.models(asg) implies
                        lit_eval(v, asg) == (lit_eval(elem1, asg) || lit_eval(
                        elem2,
                        asg,
                    )) by {
                        lemma_clause3(nv, elem1, elem2, asg);
                        lemma_clause2(n1, v, asg);
                        lemma_clause2(n2, v, asg);
                        assert(lit_eval(nv, asg) == !lit_eval(v, asg));
                        assert(lit_eval(n1, asg) == !lit_eval(elem1, asg));
                        assert(lit_eval(n2, asg) == !lit_eval(elem2, asg));
                    };
                }
                v
            },
        }
    }

    fn bool_xor(&mut self, elem1: Literal, elem2: Literal) -> (r: Literal) {
        let vopt = self.alloc_var();
        match vopt {
            None => Literal { code: 0 },
            Some(v) => {
                let nv = Solver::negate(v);
                let n1 = Solver::negate(elem1);
                let n2 = Solver::negate(elem2);
                self.push_clause(clause3(n1, n2, nv));
                self.push_clause(clause3(elem1, elem2, nv));
                self.push_clause(clause3(elem1, n2, v));
                self.push_clause(clause3(n1, elem2, v));
                proof {
                    assert forall|asg: Seq<bool>| #[trigger] self.models(asg) implies
                        lit_eval(v, asg) == (lit_eval(elem1, asg) != lit_eval(
                        elem2,
                        asg,
                    )) by {
                        lemma_clause3(n1, n2, nv, asg);
                        lemma_clause3(elem1, elem2, nv, asg);
                        lemma_clause3(elem1, n2, v, asg);
                        lemma_clause3(n1, elem2, v, asg);
                        assert(lit_eval(nv, asg) == !lit_eval(v, asg));
                        assert(lit_eval(n1, asg) == !lit_eval(elem1, asg));
                        assert(lit_eval(n2, asg) == !lit_eval(elem2, asg));
                    };
                }
                v
            },
        }
    }

    fn bool_maj(&mut self, elem1: Literal, elem2: Literal, elem3: Literal) -> (r: Literal) {
        let vopt = self.alloc_var();
        match vopt {
            None => Literal { code: 0 },
            Some(v) => {
                let nv = Solver::negate(v);
                let n1 = Solver::negate(elem1);
                let n2 = Solver::negate(elem2);
                let n3 = Solver::negate(elem3);
                self.push_clause(clause3(n1, n2, v));
                self.push_clause(clause3(n1, n3, v));
                self.push_clause(clause3(n2, n3, v));
                self.push_clause(clause3(elem1, elem2, nv));
                self.push_clause(clause3(elem1, elem3, nv));
                self.push_clause(clause3(elem2, elem3, nv));
                proof {
                    assert forall|asg: Seq<bool>| #[trigger] self.models(asg) implies
                        lit_eval(v, asg) == ((lit_eval(elem1, asg) && lit_eval(elem2, asg))
                        || (lit_eval(elem1, asg) && lit_eval(elem3, asg)) || (lit_eval(
                        elem2,
                        asg,
                    ) && lit_eval(elem3, asg))) by {
                        lemma_clause3(n1, n2, v, asg);
                        lemma_clause3(n1, n3, v, asg);
                        lemma_clause3(n2, n3, v, asg);
                        lemma_clause3(elem1, elem2, nv, asg);
                        lemma_clause3(elem1, elem3, nv, asg);
                        lemma_clause3(elem2, elem3, nv, asg);
                        assert(lit_eval(nv, asg) == !lit_eval(v, asg));
                        assert(lit_eval(n1, asg) == !lit_eval(elem1, asg));
                        assert(lit_eval(n2, asg) == !lit_eval(elem2, asg));
                        assert(lit_eval(n3, asg) == !lit_eval(elem3, asg));
                    };
                }
                v
            },
        }
    }
}

/// Relies on varisat's solver (Solver::new, ExtendFormula::add_clause,
/// Solver::solve, Solver::model, Lit::from_index, Lit::index and
/// Lit::is_positive): builds a fresh solver, feeds it the given formula,
/// one disjunctive clause per inner list with each literal a variable
/// index and a polarity, runs one search and reads the found assignment
/// back as index-polarity pairs, or `None` when no assignment was found
/// or the search failed. Every variable index must lie below the largest
/// index the engine supports, which Lit::from_index demands and which the
/// engine's variable maps reserve as a sentinel. The solver is fresh and
/// searched once, so its guard against reuse after an unrecoverable error
/// cannot fire. Nothing is claimed of the result: the caller checks any
/// returned assignment against the clauses itself.
#[verifier::external_body]
fn sat_solve_cnf(clauses: &Vec<Vec<(usize, bool)>>) -> (r: Option<Vec<(usize, bool)>>)
    requires
        forall|c: int, i: int|
            0 <= c < clauses@.len() && 0 <= i < clauses@[c]@.len()
                ==> (#[trigger] clauses@[c]@[i]).0 < MAX_VARS,
{
    let mut s = varisat::Solver::new();
    for cl in clauses {
        let lits: Vec<varisat::Lit> =
            cl.iter().map(|&(v, p)| varisat::Lit::from_index(v, p)).collect();
        s.add_clause(&lits);
    }
    match s.solve() {
        Ok(true) => s.model().map(|m| m.iter().map(|l| (l.index(), l.is_positive())).collect()),
        _ => None,
    }
}

impl BoolSat for Solver {
    closed spec fn has_model(&self) -> bool {
        self.found
    }

    closed spec fn model(&self) -> Seq<bool> {
        self.model@
    }

    fn bool_add_variable(&mut self) -> (r: Literal) {
        let vopt = self.alloc_var();
        match vopt {
            None => Literal { code: 0 },
            Some(v) => {
                proof {
                    assert forall|asg: Seq<bool>| #[trigger] old(self).models(asg) implies
                        exists|a2: Seq<bool>| #[trigger] extends_with(
                        *old(self),
                        *self,
                        asg,
                        a2,
                        v,
                        true,
                    ) by {
                        let a2 = old(self).lemma_extend_assignment(asg, true);
                        assert(self.models(a2));
                        assert(lit_eval(v, a2));
                        assert forall|e: Literal| #[trigger] old(self).elem_inv(e) implies
                            lit_eval(e, a2) == lit_eval(e, asg) by {
                            assert(e.var() < old(self).var_count());
                        };
                        assert(extends_with(*old(self), *self, asg, a2, v, true));
                    };
                    assert forall|asg: Seq<bool>| #[trigger] old(self).models(asg) implies
                        exists|a2: Seq<bool>| #[trigger] extends_with(
                        *old(self),
                        *self,
                        asg,
                        a2,
                        v,
                        false,
                    ) by {
                        let a2 = old(self).lemma_extend_assignment(asg, false);
                        assert(self.models(a2));
                        assert(!lit_eval(v, a2));
                        assert forall|e: Literal| #[trigger] old(self).elem_inv(e) implies
                            lit_eval(e, a2) == lit_eval(e, asg) by {
                            assert(e.var() < old(self).var_count());
                        };
                        assert(extends_with(*old(self), *self, asg, a2, v, false));
                    };
                }
                v
            },
        }
    }

    fn bool_add_clause(&mut self, elems: &[Literal]) {
        let mut lits: Vec<Literal> = Vec::with_capacity(elems.len());
        let mut i: usize = 0;
        while i < elems.len()
            invariant
                i <= elems@.len(),
                self.inv(),
                self == old(self),
                forall|q: int|
                    0 <= q < elems@.len() ==> old(self).elem_inv(#[trigger] elems@[q]),
                lits@ == elems@.take(i as int),
            decreases elems@.len() - i,
        {
            lits.push(elems[i]);
            proof {
                assert(lits@ =~= elems@.take(i + 1 as int));
            }
            i = i + 1;
        }
        proof {
            assert(lits@ =~= elems@);
        }
        self.push_clause(lits);
    }

    fn bool_find_model(&mut self, assumptions: &[Literal]) -> (r: bool) {
        self.found = false;
        if self.stuck {
            return false;
        }
        let mut cnf: Vec<Vec<(usize, bool)>> = Vec::with_capacity(self.clauses.len());
        let mut ci: usize = 0;
        while ci < self.clauses.len()
            invariant
                self.num_vars == old(self).num_vars,
                self.clauses@ == old(self).clauses@,
                self.stuck == old(self).stuck,
                self.model@ == old(self).model@,
                self.found == false,
                self.inv(),
                ci <= self.clauses@.len(),
                cnf@.len() == ci,
                forall|c: int|
                    0 <= c < ci ==> (#[trigger] cnf@[c])@ == self.clauses_model()[
                        c
                    ].map_values(|l: Literal| lit_pair(l)),
            decreases self.clauses@.len() - ci,
        {
            let cl = &self.clauses[ci];
            let mut buf: Vec<(usize, bool)> = Vec::with_capacity(cl.len());
            let mut j: usize = 0;
            while j < cl.len()
                invariant
                    j <= cl@.len(),
                    ci < self.clauses@.len(),
                    cl == &self.clauses@[ci as int],
                    buf@ == cl@.map_values(|l: Literal| lit_pair(l)).take(j as int),
                decreases cl@.len() - j,
            {
                let l = cl[j];
                buf.push((l.code / 2, l.code % 2 == 0));
                proof {
                    assert(buf@ =~= cl@.map_values(|l: Literal| lit_pair(l)).take(
                        j + 1 as int,
                    ));
                }
                j = j + 1;
            }
            proof {
                assert(buf@ =~= self.clauses_model()[ci as int].map_values(
                    |l: Literal| lit_pair(l),
                ));
            }
            cnf.push(buf);
            ci = ci + 1;
        }
        let ghost base = self.clauses_model().len();
        let mut ai: usize = 0;
        while ai < assumptions.len()
            invariant
                self.num_vars == old(self).num_vars,
                self.clauses@ == old(self).clauses@,
                self.stuck == old(self).stuck,
                self.model@ == old(self).model@,
                self.found == false,
                self.inv(),
                ai <= assumptions@.len(),
                base == self.clauses_model().len(),
                cnf@.len() == base + ai,
                forall|c: int|
                    0 <= c < base ==> (#[trigger] cnf@[c])@ == self.clauses_model()[
                        c
                    ].map_values(|l: Literal| lit_pair(l)),
                forall|k: int|
                    0 <= k < ai ==> (#[trigger] cnf@[base + k])@ == seq![
                        lit_pair(assumptions@[k])
                    ],
            decreases assumptions@.len() - ai,
        {
            let l = assumptions[ai];
            let unit: Vec<(usize, bool)> = vec![(l.code / 2, l.code % 2 == 0)];
            proof {
                assert(unit@ =~= seq![lit_pair(assumptions@[ai as int])]);
            }
            cnf.push(unit);
            ai = ai + 1;
        }
        proof {
            // the formula handed to the engine is, clause for clause and
            // literal for literal, the accumulated clauses followed by one
            // unit clause per assumption
            assert(cnf@.len() == self.clauses_model().len() + assumptions@.len());
            assert(forall|c: int|
                0 <= c < self.clauses_model().len() ==> (#[trigger] cnf@[c])@
                    == self.clauses_model()[c].map_values(|l: Literal| lit_pair(l)));
            assert(forall|k: int|
                0 <= k < assumptions@.len() ==> (#[trigger] cnf@[self.clauses_model().len()
                    + k])@ == seq![lit_pair(assumptions@[k])]);
            // every variable index lies below the engine's supported count
            assert forall|c: int, i: int|
                0 <= c < cnf@.len() && 0 <= i < cnf@[c]@.len() implies (#[trigger] cnf@[c]@[
                i
            ]).0 < MAX_VARS by {
                if c < self.clauses_model().len() {
                    assert(cnf@[c]@[i] == lit_pair(self.clauses_model()[c][i]));
                    assert(self.clauses_model()[c][i].var() < self.num_vars);
                } else {
                    let k = c - self.clauses_model().len();
                    assert((cnf@[self.clauses_model().len() + k])@ == seq![
                        lit_pair(assumptions@[k])
                    ]);
                    assert(cnf@[c]@ == seq![lit_pair(assumptions@[k])]);
                    assert(old(self).elem_inv(assumptions@[k]));
                }
            };
        }
        let mopt = sat_solve_cnf(&cnf);
        match mopt {
            None => false,
            Some(pairs) => {
                let mut asg: Vec<bool> = Vec::with_capacity(self.num_vars);
                let mut k: usize = 0;
                while k < self.num_vars
                    invariant
                        self.num_vars == old(self).num_vars,
                        self.clauses@ == old(self).clauses@,
                        self.stuck == old(self).stuck,
                        self.model@ == old(self).model@,
                        self.found == false,
                        self.inv(),
                        k <= self.num_vars,
                        asg@.len() == k,
                    decreases self.num_vars - k,
                {
                    asg.push(false);
                    k = k + 1;
                }
                let mut mi: usize = 0;
                while mi < pairs.len()
                    invariant
                        self.num_vars == old(self).num_vars,
                        self.clauses@ == old(self).clauses@,
                        self.stuck == old(self).stuck,
                        self.model@ == old(self).model@,
                        self.found == false,
                        self.inv(),
                        asg@.len() == self.num_vars,
                        mi <= pairs@.len(),
                    decreases pairs@.len() - mi,
                {
                    let pair = pairs[mi];
                    if pair.0 < asg.len() {
                        asg[pair.0] = pair.1;
                    }
                    mi = mi + 1;
                }
                if self.check_model(&asg) && self.check_literals(&asg, assumptions) {
                    proof {
                        assert(!self.stuck);
                        assert(asg@.len() >= self.num_vars);
                    }
                    self.model = asg;
                    self.found = true;
                    proof {
                        assert(self.models(self.model@));
                    }
                    true
                } else {
                    false
                }
            },
        }
    }

    fn bool_get_value(&self, elem: Literal) -> (r: bool) {
        let v = elem.code / 2;
        let value = self.model[v];
        if elem.code % 2 == 1 {
            !value
        } else {
            value
        }
    }
}

/// Builds a two-literal clause.
fn clause2(a: Literal, b: Literal) -> (r: Vec<Literal>)
    ensures
        r@ == seq![a, b],
{
    let mut r: Vec<Literal> = Vec::with_capacity(2);
    r.push(a);
    r.push(b);
    proof {
        assert(r@ =~= seq![a, b]);
    }
    r
}

/// Builds a three-literal clause.
fn clause3(a: Literal, b: Literal, c: Literal) -> (r: Vec<Literal>)
    ensures
        r@ == seq![a, b, c],
{
    let mut r: Vec<Literal> = Vec::with_capacity(3);
    r.push(a);
    r.push(b);
    r.push(c);
    proof {
        assert(r@ =~= seq![a, b, c]);
    }
    r
}

/// Satisfaction of a two-literal clause spelled out.
proof fn lemma_clause2(a: Literal, b: Literal, asg: Seq<bool>)
    ensures
        clause_sat(seq![a, b], asg) == (lit_eval(a, asg) || lit_eval(b, asg)),
{
    let cl = seq![a, b];
    if lit_eval(a, asg) {
        assert(lit_eval(cl[0], asg));
    } else if lit_eval(b, asg) {
        assert(lit_eval(cl[1], asg));
    }
    if clause_sat(cl, asg) {
        let i = choose|i: int| 0 <= i < cl.len() && lit_eval(#[trigger] cl[i], asg);
        assert(i == 0 || i == 1);
    }
}

/// Satisfaction of a three-literal clause spelled out.
proof fn lemma_clause3(a: Literal, b: Literal, c: Literal, asg: Seq<bool>)
    ensures
        clause_sat(seq![a, b, c], asg) == (lit_eval(a, asg) || lit_eval(b, asg)
            || lit_eval(c, asg)),
{
    let cl = seq![a, b, c];
    if lit_eval(a, asg) {
        assert(lit_eval(cl[0], asg));
    } else if lit_eval(b, asg) {
        assert(lit_eval(cl[1], asg));
    } else if lit_eval(c, asg) {
        assert(lit_eval(cl[2], asg));
    }
    if clause_sat(cl, asg) {
        let i = choose|i: int| 0 <= i < cl.len() && lit_eval(#[trigger] cl[i], asg);
        assert(i == 0 || i == 1 || i == 2);
    }
}

} // verus!
