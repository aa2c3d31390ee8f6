//! The boolean algebra interface and its trivial and concrete backends.
//!
//! Every element of an algebra has a truth value under an assignment of
//! solver variables; the trivial and concrete backends carry no solver
//! state and ignore the assignment. Each operation may grow the algebra's
//! state, and its contract says what the result evaluates to under every
//! assignment consistent with the grown state.

use vstd::prelude::*;
use crate::genvec::{GenElem, Unit};

verus! {

/// Whether `a2` witnesses that growing the algebra from `pre` to `post`
/// kept the assignment `asg` viable: `a2` is consistent with `post` and
/// agrees with `asg` on the value of every element the old state already
/// had.
pub open spec fn carries<A: BoolAlg>(pre: A, post: A, asg: Seq<bool>, a2: Seq<bool>) -> bool {
    &&& post.models(a2)
    &&& forall|x: A::Elem| #[trigger] pre.elem_inv(x) ==> A::eval(x, a2) == A::eval(x, asg)
}

/// `carries`, and in addition the element `e` holds the value `value`
/// under the extended assignment.
pub open spec fn extends_with<A: BoolAlg>(
    pre: A,
    post: A,
    asg: Seq<bool>,
    a2: Seq<bool>,
    e: A::Elem,
    value: bool,
) -> bool {
    &&& carries(pre, post, asg, a2)
    &&& A::eval(e, a2) == value
}

/// Carrying an assignment across two growth steps in turn carries it
/// across both.
pub proof fn lemma_carries_chain<A: BoolAlg>(
    pre: A,
    mid: A,
    post: A,
    asg: Seq<bool>,
    a1: Seq<bool>,
    a2: Seq<bool>,
)
    requires
        carries(pre, mid, asg, a1),
        carries(mid, post, a1, a2),
        forall|z: A::Elem| #[trigger] pre.elem_inv(z) ==> mid.elem_inv(z),
    ensures
        carries(pre, post, asg, a2),
{
    assert forall|x: A::Elem| #[trigger] pre.elem_inv(x) implies A::eval(x, a2) == A::eval(
        x,
        asg,
    ) by {
        assert(mid.elem_inv(x));
        assert(A::eval(x, a2) == A::eval(x, a1));
        assert(A::eval(x, a1) == A::eval(x, asg));
    };
}

/// An element pinned to a value stays pinned when the growth is carried on.
pub proof fn lemma_extends_chain<A: BoolAlg>(
    pre: A,
    mid: A,
    post: A,
    asg: Seq<bool>,
    a1: Seq<bool>,
    a2: Seq<bool>,
    e: A::Elem,
    v: bool,
)
    requires
        extends_with(pre, mid, asg, a1, e, v),
        carries(mid, post, a1, a2),
        mid.elem_inv(e),
        forall|z: A::Elem| #[trigger] pre.elem_inv(z) ==> mid.elem_inv(z),
    ensures
        extends_with(pre, post, asg, a2, e, v),
{
    lemma_carries_chain(pre, mid, post, asg, a1, a2);
    assert(A::eval(e, a2) == A::eval(e, a1));
}

/// A boolean algebra: a state that hands out element handles together
/// with gate operations on them.
pub trait BoolAlg: Sized {
    /// The handle type for the elements of this algebra.
    type Elem: Copy + GenElem;

    /// The truth value of an element under an assignment of solver
    /// variables; backends without solver state ignore the assignment.
    spec fn eval(e: Self::Elem, asg: Seq<bool>) -> bool;

    /// Well-formedness of the algebra's state.
    spec fn inv(&self) -> bool;

    /// Whether an element handle belongs to this state.
    spec fn elem_inv(&self, e: Self::Elem) -> bool;

    /// The assignments consistent with the state's accumulated
    /// constraints.
    spec fn models(&self, asg: Seq<bool>) -> bool;

    /// Whether the algebra can still grow: a state that has exhausted its
    /// resources is no longer live and admits no assignments.
    spec fn live(&self) -> bool;

    /// Returns an element with the given constant truth value.
    fn bool_lift(&mut self, elem: bool) -> (r: Self::Elem)
        requires
            old(self).inv(),
        ensures
            final(self).inv(),
            final(self).elem_inv(r),
            forall|e: Self::Elem| #[trigger]
                old(self).elem_inv(e) ==> final(self).elem_inv(e),
            forall|asg: Seq<bool>| #[trigger]
                final(self).models(asg) ==> old(self).models(asg),
            forall|asg: Seq<bool>| #[trigger]
                final(self).models(asg) ==> Self::eval(r, asg) == elem,
    ;

    /// Returns the negation of the element.
    fn bool_not(&mut self, elem: Self::Elem) -> (r: Self::Elem)
        requires
            old(self).inv(),
            old(self).elem_inv(elem),
        ensures
            final(self).inv(),
            final(self).elem_inv(r),
            forall|e: Self::Elem| #[trigger]
                old(self).elem_inv(e) ==> final(self).elem_inv(e),
            forall|asg: Seq<bool>| #[trigger]
                final(self).models(asg) ==> old(self).models(asg),
            forall|asg: Seq<bool>| #[trigger]
                final(self).models(asg) ==> Self::eval(r, asg) == !Self::eval(elem, asg),
    ;

    /// Returns the disjunction of the elements.
    fn bool_or(&mut self, elem1: Self::Elem, elem2: Self::Elem) -> (r: Self::Elem)
        requires
            old(self).inv(),
            old(self).elem_inv(elem1),
            old(self).elem_inv(elem2),
        ensures
            final(self).inv(),
            final(self).elem_inv(r),
            forall|e: Self::Elem| #[trigger]
                old(self).elem_inv(e) ==> final(self).elem_inv(e),
            forall|asg: Seq<bool>| #[trigger]
                final(self).models(asg) ==> old(self).models(asg),
            forall|asg: Seq<bool>| #[trigger]
                final(self).models(asg) ==> Self::eval(r, asg) == (Self::eval(elem1, asg)
                    || Self::eval(elem2, asg)),
    ;

    /// Returns the exclusive or of the elements.
    fn bool_xor(&mut self, elem1: Self::Elem, elem2: Self::Elem) -> (r: Self::Elem)
        requires
            old(self).inv(),
            old(self).elem_inv(elem1),
            old(self).elem_inv(elem2),
        ensures
            final(self).inv(),
            final(self).elem_inv(r),
            forall|e: Self::Elem| #[trigger]
                old(self).elem_inv(e) ==> final(self).elem_inv(e),
            forall|asg: Seq<bool>| #[trigger]
                final(self).models(asg) ==> old(self).models(asg),
            forall|asg: Seq<bool>| #[trigger]
                final(self).models(asg) ==> Self::eval(r, asg) == (Self::eval(elem1, asg)
                    != Self::eval(elem2, asg)),
    ;

    /// Returns the majority of the three elements.
    fn bool_maj(&mut self, elem1: Self::Elem, elem2: Self::Elem, elem3: Self::Elem) -> (r:
        Self::Elem)
        requires
            old(self).inv(),
            old(self).elem_inv(elem1),
            old(self).elem_inv(elem2),
            old(self).elem_inv(elem3),
        ensures
            final(self).inv(),
            final(self).elem_inv(r),
            forall|e: Self::Elem| #[trigger]
                old(self).elem_inv(e) ==> final(self).elem_inv(e),
            forall|asg: Seq<bool>| #[trigger]
                final(self).models(asg) ==> old(self).models(asg),
            forall|asg: Seq<bool>| #[trigger]
                final(self).models(asg) ==> Self::eval(r, asg) == ((Self::eval(elem1, asg)
                    && Self::eval(elem2, asg)) || (Self::eval(elem1, asg) && Self::eval(
                    elem3,
                    asg,
                )) || (Self::eval(elem2, asg) && Self::eval(elem3, asg))),
    ;

    /// Returns the constant true element.
    fn bool_unit(&mut self) -> (r: Self::Elem)
        requires
            old(self).inv(),
        ensures
            final(self).inv(),
            final(self).elem_inv(r),
            forall|e: Self::Elem| #[trigger]
                old(self).elem_inv(e) ==> final(self).elem_inv(e),
            forall|asg: Seq<bool>| #[trigger]
                final(self).models(asg) ==> old(self).models(asg),
            forall|asg: Seq<bool>| #[trigger]
                final(self).models(asg) ==> Self::eval(r, asg) == true,
    {
        self.bool_lift(true)
    }

    /// Returns the constant false element.
    fn bool_zero(&mut self) -> (r: Self::Elem)
        requires
            old(self).inv(),
        ensures
            final(self).inv(),
            final(self).elem_inv(r),
            forall|e: Self::Elem| #[trigger]
                old(self).elem_inv(e) ==> final(self).elem_inv(e),
            forall|asg: Seq<bool>| #[trigger]
                final(self).models(asg) ==> old(self).models(asg),
            forall|asg: Seq<bool>| #[trigger]
                final(self).models(asg) ==> Self::eval(r, asg) == false,
    {
        self.bool_lift(false)
    }

    /// Returns the implication from the first to the second element,
    /// derived from negation and disjunction.
    fn bool_imp(&mut self, elem1: Self::Elem, elem2: Self::Elem) -> (r: Self::Elem)
        requires
            old(self).inv(),
            old(self).elem_inv(elem1),
            old(self).elem_inv(elem2),
        ensures
            final(self).inv(),
            final(self).elem_inv(r),
            forall|e: Self::Elem| #[trigger]
                old(self).elem_inv(e) ==> final(self).elem_inv(e),
            forall|asg: Seq<bool>| #[trigger]
                final(self).models(asg) ==> old(self).models(asg),
            forall|asg: Seq<bool>| #[trigger]
                final(self).models(asg) ==> Self::eval(r, asg) == (!Self::eval(elem1, asg)
                    || Self::eval(elem2, asg)),
    {
        let elem1 = self.bool_not(elem1);
        self.bool_or(elem1, elem2)
    }

    /// Returns the conjunction of the elements, derived from negation and
    /// implication.
    fn bool_and(&mut self, elem1: Self::Elem, elem2: Self::Elem) -> (r: Self::Elem)
        requires
            old(self).inv(),
            old(self).elem_inv(elem1),
            old(self).elem_inv(elem2),
        ensures
            final(self).inv(),
            final(self).elem_inv(r),
            forall|e: Self::Elem| #[trigger]
                old(self).elem_inv(e) ==> final(self).elem_inv(e),
            forall|asg: Seq<bool>| #[trigger]
                final(self).models(asg) ==> old(self).models(asg),
            forall|asg: Seq<bool>| #[trigger]
                final(self).models(asg) ==> Self::eval(r, asg) == (Self::eval(elem1, asg)
                    && Self::eval(elem2, asg)),
    {
        let elem2 = self.bool_not(elem2);
        let elem3 = self.bool_imp(elem1, elem2);
        self.bool_not(elem3)
    }

    /// Returns the logical equivalence of the elements, derived from
    /// negation and exclusive or.
    fn bool_equ(&mut self, elem1: Self::Elem, elem2: Self::Elem) -> (r: Self::Elem)
        requires
            old(self).inv(),
            old(self).elem_inv(elem1),
            old(self).elem_inv(elem2),
        ensures
            final(self).inv(),
            final(self).elem_inv(r),
            forall|e: Self::Elem| #[trigger]
                old(self).elem_inv(e) ==> final(self).elem_inv(e),
            forall|asg: Seq<bool>| #[trigger]
                final(self).models(asg) ==> old(self).models(asg),
            forall|asg: Seq<bool>| #[trigger]
                final(self).models(asg) ==> Self::eval(r, asg) == (Self::eval(elem1, asg)
                    == Self::eval(elem2, asg)),
    {
        let elem1 = self.bool_not(elem1);
        self.bool_xor(elem1, elem2)
    }

    /// Returns the binary sum of the three elements, the low bit of a
    /// full adder, derived from exclusive or.
    fn bool_sum3(&mut self, elem1: Self::Elem, elem2: Self::Elem, elem3: Self::Elem) -> (r:
        Self::Elem)
        requires
            old(self).inv(),
            old(self).elem_inv(elem1),
            old(self).elem_inv(elem2),
            old(self).elem_inv(elem3),
        ensures
            final(self).inv(),
            final(self).elem_inv(r),
            forall|e: Self::Elem| #[trigger]
                old(self).elem_inv(e) ==> final(self).elem_inv(e),
            forall|asg: Seq<bool>| #[trigger]
                final(self).models(asg) ==> old(self).models(asg),
            forall|asg: Seq<bool>| #[trigger]
                final(self).models(asg) ==> Self::eval(r, asg) == ((Self::eval(elem1, asg)
                    != Self::eval(elem2, asg)) != Self::eval(elem3, asg)),
    {
        let elem4 = self.bool_xor(elem1, elem2);
        self.bool_xor(elem4, elem3)
    }
}

/// A boolean algebra whose state also accumulates clauses for an external
/// satisfiability solver, can ask the solver for a model and read element
/// values back from the model that was found.
pub trait BoolSat: BoolAlg {
    /// Whether a satisfying assignment has been found and stored.
    spec fn has_model(&self) -> bool;

    /// The satisfying assignment most recently found.
    spec fn model(&self) -> Seq<bool>;

    /// Returns a fresh variable whose truth value is unconstrained: while
    /// the algebra stays live, every assignment consistent with the old
    /// state extends to consistent assignments that give the returned
    /// element either truth value while keeping every old element's value.
    fn bool_add_variable(&mut self) -> (r: Self::Elem)
        requires
            old(self).inv(),
        ensures
            final(self).inv(),
            final(self).elem_inv(r),
            forall|e: Self::Elem| #[trigger]
                old(self).elem_inv(e) ==> final(self).elem_inv(e),
            forall|asg: Seq<bool>| #[trigger]
                final(self).models(asg) ==> old(self).models(asg),
            final(self).live() ==> old(self).live(),
            final(self).live() ==> forall|asg: Seq<bool>| #[trigger]
                old(self).models(asg) ==> exists|a2: Seq<bool>| #[trigger] extends_with(
                    *old(self),
                    *final(self),
                    asg,
                    a2,
                    r,
                    true,
                ),
            final(self).live() ==> forall|asg: Seq<bool>| #[trigger]
                old(self).models(asg) ==> exists|a2: Seq<bool>| #[trigger] extends_with(
                    *old(self),
                    *final(self),
                    asg,
                    a2,
                    r,
                    false,
                ),
    ;

    /// Adds the given disjunctive clause over the elements: afterwards
    /// exactly those assignments remain consistent that were consistent
    /// before and satisfy at least one literal of the clause.
    fn bool_add_clause(&mut self, elems: &[Self::Elem])
        requires
            old(self).inv(),
            forall|i: int| 0 <= i < elems@.len() ==> old(self).elem_inv(#[trigger] elems@[i]),
        ensures
            final(self).inv(),
            forall|e: Self::Elem| #[trigger]
                old(self).elem_inv(e) ==> final(self).elem_inv(e),
            forall|asg: Seq<bool>| #[trigger]
                final(self).models(asg) ==> old(self).models(asg),
            forall|asg: Seq<bool>| #[trigger]
                final(self).models(asg) ==> exists|i: int|
                    0 <= i < elems@.len() && Self::eval(#[trigger] elems@[i], asg),
            forall|asg: Seq<bool>|
                old(self).models(asg) && (exists|i: int|
                    0 <= i < elems@.len() && Self::eval(#[trigger] elems@[i], asg))
                    ==> #[trigger] final(self).models(asg),
    ;

    /// Runs the external solver. On success a model is stored that is
    /// consistent with every accumulated constraint and makes every given
    /// assumption true; the accumulated constraints themselves do not
    /// change.
    fn bool_find_model(&mut self, assumptions: &[Self::Elem]) -> (r: bool)
        requires
            old(self).inv(),
            forall|i: int|
                0 <= i < assumptions@.len() ==> old(self).elem_inv(
                    #[trigger] assumptions@[i],
                ),
        ensures
            final(self).inv(),
            forall|e: Self::Elem| #[trigger]
                old(self).elem_inv(e) ==> final(self).elem_inv(e),
            forall|asg: Seq<bool>| #[trigger]
                final(self).models(asg) ==> old(self).models(asg),
            forall|asg: Seq<bool>| #[trigger]
                final(self).models(asg) == old(self).models(asg),
            forall|e: Self::Elem| #[trigger]
                final(self).elem_inv(e) == old(self).elem_inv(e),
            r ==> final(self).has_model() && final(self).models(final(self).model())
                && forall|i: int|
                0 <= i < assumptions@.len() ==> Self::eval(
                    #[trigger] assumptions@[i],
                    final(self).model(),
                ),
    ;

    /// Returns the truth value of the element in the stored model.
    fn bool_get_value(&self, elem: Self::Elem) -> (r: bool)
        requires
            self.inv(),
            self.elem_inv(elem),
            self.has_model(),
        ensures
            r == Self::eval(elem, self.model()),
    ;
}

/// The trivial boolean algebra: every element is the unit value and every
/// operation discards its arguments, so only shape bookkeeping remains.
pub struct Trivial();

impl BoolAlg for Trivial {
    type Elem = Unit;

    open spec fn eval(e: Unit, asg: Seq<bool>) -> bool {
        true
    }

    open spec fn inv(&self) -> bool {
        true
    }

    open spec fn elem_inv(&self, e: Unit) -> bool {
        true
    }

    open spec fn models(&self, asg: Seq<bool>) -> bool {
        false
    }

    open spec fn live(&self) -> bool {
        true
    }

    fn bool_lift(&mut self, elem: bool) -> (r: Unit) {
        Unit
    }

    fn bool_not(&mut self, elem: Unit) -> (r: Unit) {
        Unit
    }

    fn bool_or(&mut self, elem1: Unit, elem2: Unit) -> (r: Unit) {
        Unit
    }

    fn bool_xor(&mut self, elem1: Unit, elem2: Unit) -> (r: Unit) {
        Unit
    }

    fn bool_maj(&mut self, elem1: Unit, elem2: Unit, elem3: Unit) -> (r: Unit) {
        Unit
    }
}

/// The concrete two-valued boolean algebra: elements are plain booleans
/// and every operation evaluates immediately.
pub struct Boolean();

impl BoolAlg for Boolean {
    type Elem = bool;

    open spec fn eval(e: bool, asg: Seq<bool>) -> bool {
        e
    }

    open spec fn inv(&self) -> bool {
        true
    }

    open spec fn elem_inv(&self, e: bool) -> bool {
        true
    }

    open spec fn models(&self, asg: Seq<bool>) -> bool {
        true
    }

    open spec fn live(&self) -> bool {
        true
    }

    fn bool_lift(&mut self, elem: bool) -> (r: bool) {
        elem
    }

    fn bool_not(&mut self, elem: bool) -> (r: bool) {
        !elem
    }

    fn bool_or(&mut self, elem1: bool, elem2: bool) -> (r: bool) {
        elem1 || elem2
    }

    fn bool_xor(&mut self, elem1: bool, elem2: bool) -> (r: bool) {
        elem1 != elem2
    }

    fn bool_maj(&mut self, elem1: bool, elem2: bool, elem3: bool) -> (r: bool) {
        (elem1 && elem2) || (elem1 && elem3) || (elem2 && elem3)
    }
}

} // verus!
