//! Bit-vector logic and two's-complement binary arithmetic built from the
//! boolean algebra's primitive gates.
//!
//! A binary number is a vector of algebra elements, least significant bit
//! first. The arithmetic circuits are stated against the unsigned value of
//! the bits under every assignment consistent with the algebra's state;
//! two's-complement behaviour is exactly arithmetic modulo a power of two.

use vstd::prelude::*;
use vstd::arithmetic::power2::pow2;
use crate::boolean::BoolAlg;
use crate::genvec::{concat_model, split_model, GenElem, GenVec, GenVector};
use crate::tensor::elems_inv;

verus! {

/// The numeric value of one bit.
pub open spec fn bitval(b: bool) -> nat {
    if b {
        1
    } else {
        0
    }
}

/// The truth values of the elements under an assignment.
pub open spec fn evals<ALG: BoolAlg>(s: Seq<ALG::Elem>, asg: Seq<bool>) -> Seq<bool> {
    s.map_values(|e: ALG::Elem| ALG::eval(e, asg))
}

/// The unsigned value of a bit sequence, least significant bit first.
pub open spec fn num_value(bits: Seq<bool>) -> nat
    decreases bits.len(),
{
    if bits.len() == 0 {
        0
    } else {
        bitval(bits.first()) + 2 * num_value(bits.drop_first())
    }
}

/// Appending a bit adds its value at the next power of two.
pub proof fn lemma_num_value_push(bits: Seq<bool>, b: bool)
    ensures
        num_value(bits.push(b)) == num_value(bits) + pow2(bits.len()) * bitval(b),
    decreases bits.len(),
{
    vstd::arithmetic::power2::lemma_pow2_pos(bits.len());
    if bits.len() == 0 {
        assert(bits.push(b).drop_first() =~= Seq::<bool>::empty());
        assert(num_value(Seq::<bool>::empty()) == 0);
        assert(bits.push(b).first() == b);
        assert(num_value(bits.push(b)) == bitval(b) + 2 * 0);
        assert(pow2(0) == 1) by {
            vstd::arithmetic::power2::lemma2_to64();
        };
        assert(1 * bitval(b) == bitval(b)) by (nonlinear_arith);
    } else {
        assert(bits.push(b).drop_first() =~= bits.drop_first().push(b));
        assert(bits.push(b).first() == bits.first());
        lemma_num_value_push(bits.drop_first(), b);
        vstd::arithmetic::power2::lemma_pow2_unfold(bits.len());
        assert(2 * (num_value(bits.drop_first()) + pow2(bits.drop_first().len()) * bitval(
            b,
        )) == 2 * num_value(bits.drop_first()) + 2 * (pow2(bits.drop_first().len())
            * bitval(b))) by (nonlinear_arith);
        assert(2 * (pow2((bits.len() - 1) as nat) * bitval(b)) == (2 * pow2((bits.len()
            - 1) as nat)) * bitval(b)) by (nonlinear_arith);
    }
}

/// The value of a bit sequence lies below the next power of two.
pub proof fn lemma_num_value_bound(bits: Seq<bool>)
    ensures
        num_value(bits) < pow2(bits.len()),
    decreases bits.len(),
{
    if bits.len() == 0 {
        assert(pow2(0) == 1) by {
            vstd::arithmetic::power2::lemma2_to64();
        };
    } else {
        lemma_num_value_bound(bits.drop_first());
        vstd::arithmetic::power2::lemma_pow2_unfold(bits.len());
        assert(bitval(bits.first()) + 2 * num_value(bits.drop_first()) < 2 * pow2(
            bits.drop_first().len(),
        )) by (nonlinear_arith)
            requires
                num_value(bits.drop_first()) < pow2(bits.drop_first().len()),
                bitval(bits.first()) <= 1,
        ;
    }
}

/// Bit sequences of one length are distinguished by their values: two
/// sequences of the same length are equal exactly when their values are.
pub proof fn lemma_num_value_injective(x: Seq<bool>, y: Seq<bool>)
    requires
        x.len() == y.len(),
    ensures
        (num_value(x) == num_value(y)) == (x == y),
    decreases x.len(),
{
    if x.len() == 0 {
        assert(x =~= y);
    } else {
        lemma_num_value_injective(x.drop_first(), y.drop_first());
        if num_value(x) == num_value(y) {
            assert(bitval(x.first()) + 2 * num_value(x.drop_first()) == bitval(y.first())
                + 2 * num_value(y.drop_first()));
            assert(x.first() == y.first() && num_value(x.drop_first()) == num_value(
                y.drop_first(),
            )) by (nonlinear_arith)
                requires
                    bitval(x.first()) + 2 * num_value(x.drop_first()) == bitval(y.first())
                        + 2 * num_value(y.drop_first()),
                    bitval(x.first()) == (if x.first() {
                        1nat
                    } else {
                        0
                    }),
                    bitval(y.first()) == (if y.first() {
                        1nat
                    } else {
                        0
                    }),
            ;
            assert(x.drop_first() == y.drop_first());
            assert forall|i: int| 0 <= i < x.len() implies x[i] == y[i] by {
                if i == 0 {
                    assert(x.first() == y.first());
                } else {
                    assert(x.drop_first()[i - 1] == y.drop_first()[i - 1]);
                }
            };
            assert(x =~= y);
        }
        if x == y {
            assert(num_value(x) == num_value(y));
        }
    }
}

/// Boolean array algebra of bit vectors and two's-complement binary
/// numbers over any boolean algebra.
pub trait BinaryAlg: BoolAlg {
    /// Returns the length of the vector.
    fn len(&self, elem: &GenVec<Self::Elem>) -> (r: usize)
        ensures
            r == elem.model().len(),
    {
        elem.len()
    }

    /// Concatenates the given vectors into a single one.
    fn concat(&self, elems: Vec<GenVec<Self::Elem>>) -> (r: GenVec<Self::Elem>)
        requires
            concat_model(elems@.map_values(|p: GenVec<Self::Elem>| p.model())).len()
                <= usize::MAX,
        ensures
            r.model() == concat_model(
                elems@.map_values(|p: GenVec<Self::Elem>| p.model()),
            ),
    {
        GenVector::concat(elems)
    }

    /// Splits this vector into equal sized vectors, dropping a final
    /// remainder; a chunk size of zero is allowed only on an empty vector.
    fn split(&self, elem: GenVec<Self::Elem>, len: usize) -> (r: Vec<GenVec<Self::Elem>>)
        requires
            elem.model().len() == 0 || len > 0,
        ensures
            r@.map_values(|p: GenVec<Self::Elem>| p.model()) == split_model(
                elem.model(),
                len as nat,
            ),
    {
        elem.split(len)
    }

    /// Creates a new vector of constants from the given booleans.
    fn bit_lift(&mut self, elem: &[bool]) -> (r: GenVec<Self::Elem>)
        requires
            old(self).inv(),
        ensures
            final(self).inv(),
            forall|e: Self::Elem| #[trigger]
                old(self).elem_inv(e) ==> final(self).elem_inv(e),
            forall|asg: Seq<bool>| #[trigger]
                final(self).models(asg) ==> old(self).models(asg),
            r.model().len() == elem@.len(),
            elems_inv(*final(self), r.model()),
            forall|asg: Seq<bool>, j: int|
                #![trigger final(self).models(asg), r.model()[j]]
                final(self).models(asg) && 0 <= j < r.model().len() ==> Self::eval(
                    r.model()[j],
                    asg,
                ) == elem@[j],
    ;

    /// Returns the elementwise negation of the vector.
    fn bit_not(&mut self, elem: GenVec<Self::Elem>) -> (r: GenVec<Self::Elem>)
        requires
            old(self).inv(),
            elems_inv(*old(self), elem.model()),
        ensures
            final(self).inv(),
            forall|e: Self::Elem| #[trigger]
                old(self).elem_inv(e) ==> final(self).elem_inv(e),
            forall|asg: Seq<bool>| #[trigger]
                final(self).models(asg) ==> old(self).models(asg),
            r.model().len() == elem.model().len(),
            elems_inv(*final(self), r.model()),
            forall|asg: Seq<bool>, j: int|
                #![trigger final(self).models(asg), r.model()[j]]
                final(self).models(asg) && 0 <= j < r.model().len() ==> Self::eval(
                    r.model()[j],
                    asg,
                ) == !Self::eval(elem.model()[j], asg),
    ;

    /// Returns a new vector whose elements are the disjunctions of the
    /// original elements.
    fn bit_or(&mut self, elem1: GenVec<Self::Elem>, elem2: GenVec<Self::Elem>) -> (r:
        GenVec<Self::Elem>)
        requires
            old(self).inv(),
            elem1.model().len() == elem2.model().len(),
            elems_inv(*old(self), elem1.model()),
            elems_inv(*old(self), elem2.model()),
        ensures
            final(self).inv(),
            forall|e: Self::Elem| #[trigger]
                old(self).elem_inv(e) ==> final(self).elem_inv(e),
            forall|asg: Seq<bool>| #[trigger]
                final(self).models(asg) ==> old(self).models(asg),
            r.model().len() == elem1.model().len(),
            elems_inv(*final(self), r.model()),
            forall|asg: Seq<bool>, j: int|
                #![trigger final(self).models(asg), r.model()[j]]
                final(self).models(asg) && 0 <= j < r.model().len() ==> Self::eval(
                    r.model()[j],
                    asg,
                ) == (Self::eval(elem1.model()[j], asg) || Self::eval(elem2.model()[j], asg)),
    ;

    /// Returns a new vector whose elements are the conjunctions of the
    /// original elements.
    fn bit_and(&mut self, elem1: GenVec<Self::Elem>, elem2: GenVec<Self::Elem>) -> (r:
        GenVec<Self::Elem>)
        requires
            old(self).inv(),
            elem1.model().len() == elem2.model().len(),
            elems_inv(*old(self), elem1.model()),
            elems_inv(*old(self), elem2.model()),
        ensures
            final(self).inv(),
            forall|e: Self::Elem| #[trigger]
                old(self).elem_inv(e) ==> final(self).elem_inv(e),
            forall|asg: Seq<bool>| #[trigger]
                final(self).models(asg) ==> old(self).models(asg),
            r.model().len() == elem1.model().len(),
            elems_inv(*final(self), r.model()),
            forall|asg: Seq<bool>, j: int|
                #![trigger final(self).models(asg), r.model()[j]]
                final(self).models(asg) && 0 <= j < r.model().len() ==> Self::eval(
                    r.model()[j],
                    asg,
                ) == (Self::eval(elem1.model()[j], asg) && Self::eval(elem2.model()[j], asg)),
    ;

    /// Returns a new vector whose elements are the exclusive ors of the
    /// original elements.
    fn bit_xor(&mut self, elem1: GenVec<Self::Elem>, elem2: GenVec<Self::Elem>) -> (r:
        GenVec<Self::Elem>)
        requires
            old(self).inv(),
            elem1.model().len() == elem2.model().len(),
            elems_inv(*old(self), elem1.model()),
            elems_inv(*old(self), elem2.model()),
        ensures
            final(self).inv(),
            forall|e: Self::Elem| #[trigger]
                old(self).elem_inv(e) ==> final(self).elem_inv(e),
            forall|asg: Seq<bool>| #[trigger]
                final(self).models(asg) ==> old(self).models(asg),
            r.model().len() == elem1.model().len(),
            elems_inv(*final(self), r.model()),
            forall|asg: Seq<bool>, j: int|
                #![trigger final(self).models(asg), r.model()[j]]
                final(self).models(asg) && 0 <= j < r.model().len() ==> Self::eval(
                    r.model()[j],
                    asg,
                ) == (Self::eval(elem1.model()[j], asg) != Self::eval(elem2.model()[j], asg)),
    ;

    /// Returns a new vector whose elements are the logical equivalences of the
    /// original elements.
    fn bit_equ(&mut self, elem1: GenVec<Self::Elem>, elem2: GenVec<Self::Elem>) -> (r:
        GenVec<Self::Elem>)
        requires
            old(self).inv(),
            elem1.model().len() == elem2.model().len(),
            elems_inv(*old(self), elem1.model()),
            elems_inv(*old(self), elem2.model()),
        ensures
            final(self).inv(),
            forall|e: Self::Elem| #[trigger]
                old(self).elem_inv(e) ==> final(self).elem_inv(e),
            forall|asg: Seq<bool>| #[trigger]
                final(self).models(asg) ==> old(self).models(asg),
            r.model().len() == elem1.model().len(),
            elems_inv(*final(self), r.model()),
            forall|asg: Seq<bool>, j: int|
                #![trigger final(self).models(asg), r.model()[j]]
                final(self).models(asg) && 0 <= j < r.model().len() ==> Self::eval(
                    r.model()[j],
                    asg,
                ) == (Self::eval(elem1.model()[j], asg) == Self::eval(elem2.model()[j], asg)),
    ;

    /// Returns a new vector whose elements are the logical implications of the
    /// original elements.
    fn bit_imp(&mut self, elem1: GenVec<Self::Elem>, elem2: GenVec<Self::Elem>) -> (r:
        GenVec<Self::Elem>)
        requires
            old(self).inv(),
            elem1.model().len() == elem2.model().len(),
            elems_inv(*old(self), elem1.model()),
            elems_inv(*old(self), elem2.model()),
        ensures
            final(self).inv(),
            forall|e: Self::Elem| #[trigger]
                old(self).elem_inv(e) ==> final(self).elem_inv(e),
            forall|asg: Seq<bool>| #[trigger]
                final(self).models(asg) ==> old(self).models(asg),
            r.model().len() == elem1.model().len(),
            elems_inv(*final(self), r.model()),
            forall|asg: Seq<bool>, j: int|
                #![trigger final(self).models(asg), r.model()[j]]
                final(self).models(asg) && 0 <= j < r.model().len() ==> Self::eval(
                    r.model()[j],
                    asg,
                ) == (!Self::eval(elem1.model()[j], asg) || Self::eval(elem2.model()[j], asg)),
    ;

    /// Returns the conjunction of all elements as a one-element vector.
    fn bit_all(&mut self, elem: GenVec<Self::Elem>) -> (r: GenVec<Self::Elem>)
        requires
            old(self).inv(),
            elems_inv(*old(self), elem.model()),
        ensures
            final(self).inv(),
            forall|e: Self::Elem| #[trigger]
                old(self).elem_inv(e) ==> final(self).elem_inv(e),
            forall|asg: Seq<bool>| #[trigger]
                final(self).models(asg) ==> old(self).models(asg),
            r.model().len() == 1,
            elems_inv(*final(self), r.model()),
            forall|asg: Seq<bool>| #[trigger]
                final(self).models(asg) ==> Self::eval(r.model()[0], asg) == (forall|q: int|
                    0 <= q < elem.model().len() ==> Self::eval(#[trigger] elem.model()[q], asg)),
    ;

    /// Returns the disjunction of all elements as a one-element vector.
    fn bit_any(&mut self, elem: GenVec<Self::Elem>) -> (r: GenVec<Self::Elem>)
        requires
            old(self).inv(),
            elems_inv(*old(self), elem.model()),
        ensures
            final(self).inv(),
            forall|e: Self::Elem| #[trigger]
                old(self).elem_inv(e) ==> final(self).elem_inv(e),
            forall|asg: Seq<bool>| #[trigger]
                final(self).models(asg) ==> old(self).models(asg),
            r.model().len() == 1,
            elems_inv(*final(self), r.model()),
            forall|asg: Seq<bool>| #[trigger]
                final(self).models(asg) ==> Self::eval(r.model()[0], asg) == (exists|q: int|
                    0 <= q < elem.model().len() && Self::eval(#[trigger] elem.model()[q], asg)),
    ;

    /// Creates a new vector of the given length representing the given
    /// binary number in two's complement, least significant bit first.
    fn num_lift(&mut self, len: usize, elem: i64) -> (r: GenVec<Self::Elem>)
        requires
            old(self).inv(),
            len <= 64,
        ensures
            final(self).inv(),
            forall|e: Self::Elem| #[trigger]
                old(self).elem_inv(e) ==> final(self).elem_inv(e),
            forall|asg: Seq<bool>| #[trigger]
                final(self).models(asg) ==> old(self).models(asg),
            r.model().len() == len,
            elems_inv(*final(self), r.model()),
            forall|asg: Seq<bool>| #[trigger]
                final(self).models(asg) ==> num_value(evals::<Self>(r.model(), asg)) == ((
                elem as int) % (pow2(len as nat) as int)) as nat,
    ;

    /// Returns the sum of the two binary numbers of the same length in
    /// two's complement: the value of the result is the sum of the values
    /// modulo two to the length.
    fn num_add(&mut self, elem1: GenVec<Self::Elem>, elem2: GenVec<Self::Elem>) -> (r:
        GenVec<Self::Elem>)
        requires
            old(self).inv(),
            elem1.model().len() == elem2.model().len(),
            elems_inv(*old(self), elem1.model()),
            elems_inv(*old(self), elem2.model()),
        ensures
            final(self).inv(),
            forall|e: Self::Elem| #[trigger]
                old(self).elem_inv(e) ==> final(self).elem_inv(e),
            forall|asg: Seq<bool>| #[trigger]
                final(self).models(asg) ==> old(self).models(asg),
            r.model().len() == elem1.model().len(),
            elems_inv(*final(self), r.model()),
            forall|asg: Seq<bool>| #[trigger]
                final(self).models(asg) ==> num_value(evals::<Self>(r.model(), asg)) == (
                num_value(evals::<Self>(elem1.model(), asg)) + num_value(
                    evals::<Self>(elem2.model(), asg),
                )) % pow2(elem1.model().len()),
    ;

    /// Returns the difference of the two binary numbers of the same length
    /// in two's complement: the value of the result is the first value
    /// minus the second, modulo two to the length.
    fn num_sub(&mut self, elem1: GenVec<Self::Elem>, elem2: GenVec<Self::Elem>) -> (r:
        GenVec<Self::Elem>)
        requires
            old(self).inv(),
            elem1.model().len() == elem2.model().len(),
            elems_inv(*old(self), elem1.model()),
            elems_inv(*old(self), elem2.model()),
        ensures
            final(self).inv(),
            forall|e: Self::Elem| #[trigger]
                old(self).elem_inv(e) ==> final(self).elem_inv(e),
            forall|asg: Seq<bool>| #[trigger]
                final(self).models(asg) ==> old(self).models(asg),
            r.model().len() == elem1.model().len(),
            elems_inv(*final(self), r.model()),
            forall|asg: Seq<bool>| #[trigger]
                final(self).models(asg) ==> num_value(evals::<Self>(r.model(), asg)) == ((
                num_value(evals::<Self>(elem1.model(), asg)) + pow2(elem1.model().len())
                    - num_value(evals::<Self>(elem2.model(), asg))) as int % (pow2(
                    elem1.model().len(),
                ) as int)) as nat,
    ;

    /// Returns the negative of the binary number in two's complement: the
    /// values of the argument and of the result sum to zero modulo two to
    /// the length.
    fn num_neg(&mut self, elem: GenVec<Self::Elem>) -> (r: GenVec<Self::Elem>)
        requires
            old(self).inv(),
            elems_inv(*old(self), elem.model()),
        ensures
            final(self).inv(),
            forall|e: Self::Elem| #[trigger]
                old(self).elem_inv(e) ==> final(self).elem_inv(e),
            forall|asg: Seq<bool>| #[trigger]
                final(self).models(asg) ==> old(self).models(asg),
            r.model().len() == elem.model().len(),
            elems_inv(*final(self), r.model()),
            forall|asg: Seq<bool>| #[trigger]
                final(self).models(asg) ==> (num_value(evals::<Self>(r.model(), asg))
                    + num_value(evals::<Self>(elem.model(), asg))) % pow2(
                    elem.model().len(),
                ) == 0,
    ;

    /// Returns whether the two binary numbers of the same length are equal,
    /// as a one-element vector.
    fn num_eq(&mut self, elem1: GenVec<Self::Elem>, elem2: GenVec<Self::Elem>) -> (r:
        GenVec<Self::Elem>)
        requires
            old(self).inv(),
            elem1.model().len() == elem2.model().len(),
            elems_inv(*old(self), elem1.model()),
            elems_inv(*old(self), elem2.model()),
        ensures
            final(self).inv(),
            forall|e: Self::Elem| #[trigger]
                old(self).elem_inv(e) ==> final(self).elem_inv(e),
            forall|asg: Seq<bool>| #[trigger]
                final(self).models(asg) ==> old(self).models(asg),
            r.model().len() == 1,
            elems_inv(*final(self), r.model()),
            forall|asg: Seq<bool>| #[trigger]
                final(self).models(asg) ==> Self::eval(r.model()[0], asg) == (evals::<Self>(
                    elem1.model(),
                    asg,
                ) == evals::<Self>(elem2.model(), asg)) && Self::eval(r.model()[0], asg)
                    == (num_value(evals::<Self>(elem1.model(), asg)) == num_value(
                    evals::<Self>(elem2.model(), asg),
                )),
    ;

    /// Returns whether the two binary numbers of the same length differ,
    /// as a one-element vector.
    fn num_ne(&mut self, elem1: GenVec<Self::Elem>, elem2: GenVec<Self::Elem>) -> (r:
        GenVec<Self::Elem>)
        requires
            old(self).inv(),
            elem1.model().len() == elem2.model().len(),
            elems_inv(*old(self), elem1.model()),
            elems_inv(*old(self), elem2.model()),
        ensures
            final(self).inv(),
            forall|e: Self::Elem| #[trigger]
                old(self).elem_inv(e) ==> final(self).elem_inv(e),
            forall|asg: Seq<bool>| #[trigger]
                final(self).models(asg) ==> old(self).models(asg),
            r.model().len() == 1,
            elems_inv(*final(self), r.model()),
            forall|asg: Seq<bool>| #[trigger]
                final(self).models(asg) ==> Self::eval(r.model()[0], asg) == (evals::<Self>(
                    elem1.model(),
                    asg,
                ) != evals::<Self>(elem2.model(), asg)) && Self::eval(r.model()[0], asg)
                    == (num_value(evals::<Self>(elem1.model(), asg)) != num_value(
                    evals::<Self>(elem2.model(), asg),
                )),
    ;

    /// Returns whether the first unsigned binary number is less than or
    /// equal to the second one, as a one-element vector.
    fn num_le(&mut self, elem1: GenVec<Self::Elem>, elem2: GenVec<Self::Elem>) -> (r:
        GenVec<Self::Elem>)
        requires
            old(self).inv(),
            elem1.model().len() == elem2.model().len(),
            elems_inv(*old(self), elem1.model()),
            elems_inv(*old(self), elem2.model()),
        ensures
            final(self).inv(),
            forall|e: Self::Elem| #[trigger]
                old(self).elem_inv(e) ==> final(self).elem_inv(e),
            forall|asg: Seq<bool>| #[trigger]
                final(self).models(asg) ==> old(self).models(asg),
            r.model().len() == 1,
            elems_inv(*final(self), r.model()),
            forall|asg: Seq<bool>| #[trigger]
                final(self).models(asg) ==> Self::eval(r.model()[0], asg) == (num_value(
                    evals::<Self>(elem1.model(), asg),
                ) <= num_value(evals::<Self>(elem2.model(), asg))),
    ;

    /// Returns whether the first unsigned binary number is strictly less
    /// than the second one, as a one-element vector.
    fn num_lt(&mut self, elem1: GenVec<Self::Elem>, elem2: GenVec<Self::Elem>) -> (r:
        GenVec<Self::Elem>)
        requires
            old(self).inv(),
            elem1.model().len() == elem2.model().len(),
            elems_inv(*old(self), elem1.model()),
            elems_inv(*old(self), elem2.model()),
        ensures
            final(self).inv(),
            forall|e: Self::Elem| #[trigger]
                old(self).elem_inv(e) ==> final(self).elem_inv(e),
            forall|asg: Seq<bool>| #[trigger]
                final(self).models(asg) ==> old(self).models(asg),
            r.model().len() == 1,
            elems_inv(*final(self), r.model()),
            forall|asg: Seq<bool>| #[trigger]
                final(self).models(asg) ==> Self::eval(r.model()[0], asg) == (num_value(
                    evals::<Self>(elem1.model(), asg),
                ) < num_value(evals::<Self>(elem2.model(), asg))),
    ;
}

impl<ALG: BoolAlg> BinaryAlg for ALG {
    fn bit_lift(&mut self, elem: &[bool]) -> (r: GenVec<Self::Elem>) {
        let n = elem.len();
        let mut out: GenVec<Self::Elem> = GenVector::with_capacity(n);
        let mut i: usize = 0;
        while i < n
            invariant
                i <= n,
                n == elem@.len(),
                self.inv(),
                forall|e: Self::Elem| #[trigger]
                    old(self).elem_inv(e) ==> self.elem_inv(e),
                forall|asg: Seq<bool>| #[trigger]
                    self.models(asg) ==> old(self).models(asg),
                out.model().len() == i,
                elems_inv(*self, out.model()),
                forall|asg: Seq<bool>, j: int|
                    #![trigger self.models(asg), out.model()[j]]
                    self.models(asg) && 0 <= j < i ==> Self::eval(out.model()[j], asg)
                        == elem@[j],
            decreases n - i,
        {
            let ghost prevst = *self;
            let ghost preve = out.model();
            let x = self.bool_lift(elem[i]);
            out.push(x);
            proof {
                assert forall|asg: Seq<bool>, j: int|
                    #![trigger self.models(asg), out.model()[j]]
                    self.models(asg) && 0 <= j < i + 1 implies Self::eval(
                    out.model()[j],
                    asg,
                ) == elem@[j] by {
                    assert(prevst.models(asg));
                    if j < i {
                        assert(out.model()[j] == preve[j]);
                        assert(Self::eval(preve[j], asg) == elem@[j]);
                    } else {
                        assert(out.model()[j] == x);
                    }
                };
                assert forall|q: int| 0 <= q < i + 1 implies self.elem_inv(
                    #[trigger] out.model()[q],
                ) by {
                    if q < i {
                        assert(preve[q] == out.model()[q]);
                        assert(prevst.elem_inv(preve[q]));
                    }
                };
            }
            i = i + 1;
        }
        out
    }

    fn bit_not(&mut self, elem: GenVec<Self::Elem>) -> (r: GenVec<Self::Elem>) {
        let n = elem.len();
        let mut out: GenVec<Self::Elem> = GenVector::with_capacity(n);
        let mut i: usize = 0;
        while i < n
            invariant
                i <= n,
                n == elem.model().len(),
                elems_inv(*old(self), elem.model()),
                self.inv(),
                forall|e: Self::Elem| #[trigger]
                    old(self).elem_inv(e) ==> self.elem_inv(e),
                forall|asg: Seq<bool>| #[trigger]
                    self.models(asg) ==> old(self).models(asg),
                out.model().len() == i,
                elems_inv(*self, out.model()),
                forall|asg: Seq<bool>, j: int|
                    #![trigger self.models(asg), out.model()[j]]
                    self.models(asg) && 0 <= j < i ==> Self::eval(out.model()[j], asg)
                        == !Self::eval(elem.model()[j], asg),
            decreases n - i,
        {
            let ghost prevst = *self;
            let ghost preve = out.model();
            proof {
                assert(old(self).elem_inv(elem.model()[i as int]));
            }
            let a = elem.get(i);
            let x = self.bool_not(a);
            out.push(x);
            proof {
                assert forall|asg: Seq<bool>, j: int|
                    #![trigger self.models(asg), out.model()[j]]
                    self.models(asg) && 0 <= j < i + 1 implies Self::eval(
                    out.model()[j],
                    asg,
                ) == !Self::eval(elem.model()[j], asg) by {
                    assert(prevst.models(asg));
                    if j < i {
                        assert(out.model()[j] == preve[j]);
                        assert(Self::eval(preve[j], asg) == !Self::eval(
                            elem.model()[j],
                            asg,
                        ));
                    } else {
                        assert(out.model()[j] == x);
                    }
                };
                assert forall|q: int| 0 <= q < i + 1 implies self.elem_inv(
                    #[trigger] out.model()[q],
                ) by {
                    if q < i {
                        assert(preve[q] == out.model()[q]);
                        assert(prevst.elem_inv(preve[q]));
                    }
                };
            }
            i = i + 1;
        }
        out
    }

    fn bit_or(&mut self, elem1: GenVec<Self::Elem>, elem2: GenVec<Self::Elem>) -> (r:
        GenVec<Self::Elem>) {
        let n = elem1.len();
        let mut out: GenVec<Self::Elem> = GenVector::with_capacity(n);
        let mut i: usize = 0;
        while i < n
            invariant
                i <= n,
                n == elem1.model().len(),
                n == elem2.model().len(),
                elems_inv(*old(self), elem1.model()),
                elems_inv(*old(self), elem2.model()),
                self.inv(),
                forall|e: Self::Elem| #[trigger]
                    old(self).elem_inv(e) ==> self.elem_inv(e),
                forall|asg: Seq<bool>| #[trigger]
                    self.models(asg) ==> old(self).models(asg),
                out.model().len() == i,
                elems_inv(*self, out.model()),
                forall|asg: Seq<bool>, j: int|
                    #![trigger self.models(asg), out.model()[j]]
                    self.models(asg) && 0 <= j < i ==> Self::eval(out.model()[j], asg)
                        == (Self::eval(elem1.model()[j], asg) || Self::eval(elem2.model()[j], asg)),
            decreases n - i,
        {
            let ghost prevst = *self;
            let ghost preve = out.model();
            proof {
                assert(old(self).elem_inv(elem1.model()[i as int]));
                assert(old(self).elem_inv(elem2.model()[i as int]));
            }
            let a = elem1.get(i);
            let b = elem2.get(i);
            let x = self.bool_or(a, b);
            out.push(x);
            proof {
                assert forall|asg: Seq<bool>, j: int|
                    #![trigger self.models(asg), out.model()[j]]
                    self.models(asg) && 0 <= j < i + 1 implies Self::eval(
                    out.model()[j],
                    asg,
                ) == (Self::eval(elem1.model()[j], asg) || Self::eval(elem2.model()[j], asg)) by {
                    assert(prevst.models(asg));
                    if j < i {
                        assert(out.model()[j] == preve[j]);
                        assert(Self::eval(preve[j], asg) == (Self::eval(elem1.model()[j], asg) || Self::eval(elem2.model()[j], asg)));
                    } else {
                        assert(out.model()[j] == x);
                    }
                };
                assert forall|q: int| 0 <= q < i + 1 implies self.elem_inv(
                    #[trigger] out.model()[q],
                ) by {
                    if q < i {
                        assert(preve[q] == out.model()[q]);
                        assert(prevst.elem_inv(preve[q]));
                    }
                };
            }
            i = i + 1;
        }
        out
    }

    fn bit_and(&mut self, elem1: GenVec<Self::Elem>, elem2: GenVec<Self::Elem>) -> (r:
        GenVec<Self::Elem>) {
        let n = elem1.len();
        let mut out: GenVec<Self::Elem> = GenVector::with_capacity(n);
        let mut i: usize = 0;
        while i < n
            invariant
                i <= n,
                n == elem1.model().len(),
                n == elem2.model().len(),
                elems_inv(*old(self), elem1.model()),
                elems_inv(*old(self), elem2.model()),
                self.inv(),
                forall|e: Self::Elem| #[trigger]
                    old(self).elem_inv(e) ==> self.elem_inv(e),
                forall|asg: Seq<bool>| #[trigger]
                    self.models(asg) ==> old(self).models(asg),
                out.model().len() == i,
                elems_inv(*self, out.model()),
                forall|asg: Seq<bool>, j: int|
                    #![trigger self.models(asg), out.model()[j]]
                    self.models(asg) && 0 <= j < i ==> Self::eval(out.model()[j], asg)
                        == (Self::eval(elem1.model()[j], asg) && Self::eval(elem2.model()[j], asg)),
            decreases n - i,
        {
            let ghost prevst = *self;
            let ghost preve = out.model();
            proof {
                assert(old(self).elem_inv(elem1.model()[i as int]));
                assert(old(self).elem_inv(elem2.model()[i as int]));
            }
            let a = elem1.get(i);
            let b = elem2.get(i);
            let x = self.bool_and(a, b);
            out.push(x);
            proof {
                assert forall|asg: Seq<bool>, j: int|
                    #![trigger self.models(asg), out.model()[j]]
                    self.models(asg) && 0 <= j < i + 1 implies Self::eval(
                    out.model()[j],
                    asg,
                ) == (Self::eval(elem1.model()[j], asg) && Self::eval(elem2.model()[j], asg)) by {
                    assert(prevst.models(asg));
                    if j < i {
                        assert(out.model()[j] == preve[j]);
                        assert(Self::eval(preve[j], asg) == (Self::eval(elem1.model()[j], asg) && Self::eval(elem2.model()[j], asg)));
                    } else {
                        assert(out.model()[j] == x);
                    }
                };
                assert forall|q: int| 0 <= q < i + 1 implies self.elem_inv(
                    #[trigger] out.model()[q],
                ) by {
                    if q < i {
                        assert(preve[q] == out.model()[q]);
                        assert(prevst.elem_inv(preve[q]));
                    }
                };
            }
            i = i + 1;
        }
        out
    }

    fn bit_xor(&mut self, elem1: GenVec<Self::Elem>, elem2: GenVec<Self::Elem>) -> (r:
        GenVec<Self::Elem>) {
        let n = elem1.len();
        let mut out: GenVec<Self::Elem> = GenVector::with_capacity(n);
        let mut i: usize = 0;
        while i < n
            invariant
                i <= n,
                n == elem1.model().len(),
                n == elem2.model().len(),
                elems_inv(*old(self), elem1.model()),
                elems_inv(*old(self), elem2.model()),
                self.inv(),
                forall|e: Self::Elem| #[trigger]
                    old(self).elem_inv(e) ==> self.elem_inv(e),
                forall|asg: Seq<bool>| #[trigger]
                    self.models(asg) ==> old(self).models(asg),
                out.model().len() == i,
                elems_inv(*self, out.model()),
                forall|asg: Seq<bool>, j: int|
                    #![trigger self.models(asg), out.model()[j]]
                    self.models(asg) && 0 <= j < i ==> Self::eval(out.model()[j], asg)
                        == (Self::eval(elem1.model()[j], asg) != Self::eval(elem2.model()[j], asg)),
            decreases n - i,
        {
            let ghost prevst = *self;
            let ghost preve = out.model();
            proof {
                assert(old(self).elem_inv(elem1.model()[i as int]));
                assert(old(self).elem_inv(elem2.model()[i as int]));
            }
            let a = elem1.get(i);
            let b = elem2.get(i);
            let x = self.bool_xor(a, b);
            out.push(x);
            proof {
                assert forall|asg: Seq<bool>, j: int|
                    #![trigger self.models(asg), out.model()[j]]
                    self.models(asg) && 0 <= j < i + 1 implies Self::eval(
                    out.model()[j],
                    asg,
                ) == (Self::eval(elem1.model()[j], asg) != Self::eval(elem2.model()[j], asg)) by {
                    assert(prevst.models(asg));
                    if j < i {
                        assert(out.model()[j] == preve[j]);
                        assert(Self::eval(preve[j], asg) == (Self::eval(elem1.model()[j], asg) != Self::eval(elem2.model()[j], asg)));
                    } else {
                        assert(out.model()[j] == x);
                    }
                };
                assert forall|q: int| 0 <= q < i + 1 implies self.elem_inv(
                    #[trigger] out.model()[q],
                ) by {
                    if q < i {
                        assert(preve[q] == out.model()[q]);
                        assert(prevst.elem_inv(preve[q]));
                    }
                };
            }
            i = i + 1;
        }
        out
    }

    fn bit_equ(&mut self, elem1: GenVec<Self::Elem>, elem2: GenVec<Self::Elem>) -> (r:
        GenVec<Self::Elem>) {
        let n = elem1.len();
        let mut out: GenVec<Self::Elem> = GenVector::with_capacity(n);
        let mut i: usize = 0;
        while i < n
            invariant
                i <= n,
                n == elem1.model().len(),
                n == elem2.model().len(),
                elems_inv(*old(self), elem1.model()),
                elems_inv(*old(self), elem2.model()),
                self.inv(),
                forall|e: Self::Elem| #[trigger]
                    old(self).elem_inv(e) ==> self.elem_inv(e),
                forall|asg: Seq<bool>| #[trigger]
                    self.models(asg) ==> old(self).models(asg),
                out.model().len() == i,
                elems_inv(*self, out.model()),
                forall|asg: Seq<bool>, j: int|
                    #![trigger self.models(asg), out.model()[j]]
                    self.models(asg) && 0 <= j < i ==> Self::eval(out.model()[j], asg)
                        == (Self::eval(elem1.model()[j], asg) == Self::eval(elem2.model()[j], asg)),
            decreases n - i,
        {
            let ghost prevst = *self;
            let ghost preve = out.model();
            proof {
                assert(old(self).elem_inv(elem1.model()[i as int]));
                assert(old(self).elem_inv(elem2.model()[i as int]));
            }
            let a = elem1.get(i);
            let b = elem2.get(i);
            let x = self.bool_equ(a, b);
            out.push(x);
            proof {
                assert forall|asg: Seq<bool>, j: int|
                    #![trigger self.models(asg), out.model()[j]]
                    self.models(asg) && 0 <= j < i + 1 implies Self::eval(
                    out.model()[j],
                    asg,
                ) == (Self::eval(elem1.model()[j], asg) == Self::eval(elem2.model()[j], asg)) by {
                    assert(prevst.models(asg));
                    if j < i {
                        assert(out.model()[j] == preve[j]);
                        assert(Self::eval(preve[j], asg) == (Self::eval(elem1.model()[j], asg) == Self::eval(elem2.model()[j], asg)));
                    } else {
                        assert(out.model()[j] == x);
                    }
                };
                assert forall|q: int| 0 <= q < i + 1 implies self.elem_inv(
                    #[trigger] out.model()[q],
                ) by {
                    if q < i {
                        assert(preve[q] == out.model()[q]);
                        assert(prevst.elem_inv(preve[q]));
                    }
                };
            }
            i = i + 1;
        }
        out
    }

    fn bit_imp(&mut self, elem1: GenVec<Self::Elem>, elem2: GenVec<Self::Elem>) -> (r:
        GenVec<Self::Elem>) {
        let n = elem1.len();
        let mut out: GenVec<Self::Elem> = GenVector::with_capacity(n);
        let mut i: usize = 0;
        while i < n
            invariant
                i <= n,
                n == elem1.model().len(),
                n == elem2.model().len(),
                elems_inv(*old(self), elem1.model()),
                elems_inv(*old(self), elem2.model()),
                self.inv(),
                forall|e: Self::Elem| #[trigger]
                    old(self).elem_inv(e) ==> self.elem_inv(e),
                forall|asg: Seq<bool>| #[trigger]
                    self.models(asg) ==> old(self).models(asg),
                out.model().len() == i,
                elems_inv(*self, out.model()),
                forall|asg: Seq<bool>, j: int|
                    #![trigger self.models(asg), out.model()[j]]
                    self.models(asg) && 0 <= j < i ==> Self::eval(out.model()[j], asg)
                        == (!Self::eval(elem1.model()[j], asg) || Self::eval(elem2.model()[j], asg)),
            decreases n - i,
        {
            let ghost prevst = *self;
            let ghost preve = out.model();
            proof {
                assert(old(self).elem_inv(elem1.model()[i as int]));
                assert(old(self).elem_inv(elem2.model()[i as int]));
            }
            let a = elem1.get(i);
            let b = elem2.get(i);
            let x = self.bool_imp(a, b);
            out.push(x);
            proof {
                assert forall|asg: Seq<bool>, j: int|
                    #![trigger self.models(asg), out.model()[j]]
                    self.models(asg) && 0 <= j < i + 1 implies Self::eval(
                    out.model()[j],
                    asg,
                ) == (!Self::eval(elem1.model()[j], asg) || Self::eval(elem2.model()[j], asg)) by {
                    assert(prevst.models(asg));
                    if j < i {
                        assert(out.model()[j] == preve[j]);
                        assert(Self::eval(preve[j], asg) == (!Self::eval(elem1.model()[j], asg) || Self::eval(elem2.model()[j], asg)));
                    } else {
                        assert(out.model()[j] == x);
                    }
                };
                assert forall|q: int| 0 <= q < i + 1 implies self.elem_inv(
                    #[trigger] out.model()[q],
                ) by {
                    if q < i {
                        assert(preve[q] == out.model()[q]);
                        assert(prevst.elem_inv(preve[q]));
                    }
                };
            }
            i = i + 1;
        }
        out
    }


    fn bit_all(&mut self, elem: GenVec<Self::Elem>) -> (r: GenVec<Self::Elem>) {
        let n = elem.len();
        let mut acc = self.bool_unit();
        let mut i: usize = 0;
        while i < n
            invariant
                i <= n,
                n == elem.model().len(),
                elems_inv(*old(self), elem.model()),
                self.inv(),
                self.elem_inv(acc),
                forall|e: Self::Elem| #[trigger]
                    old(self).elem_inv(e) ==> self.elem_inv(e),
                forall|asg: Seq<bool>| #[trigger]
                    self.models(asg) ==> old(self).models(asg),
                forall|asg: Seq<bool>| #[trigger]
                    self.models(asg) ==> Self::eval(acc, asg) == (forall|q: int|
                        0 <= q < i ==> Self::eval(#[trigger] elem.model()[q], asg)),
            decreases n - i,
        {
            proof {
                assert(old(self).elem_inv(elem.model()[i as int]));
            }
            let x = elem.get(i);
            let ghost prevst = *self;
            let ghost prevacc = acc;
            acc = self.bool_and(acc, x);
            proof {
                assert forall|asg: Seq<bool>| #[trigger] self.models(asg) implies Self::eval(
                    acc,
                    asg,
                ) == (forall|q: int|
                    0 <= q < i + 1 ==> Self::eval(#[trigger] elem.model()[q], asg)) by {
                    assert(prevst.models(asg));
                    assert(Self::eval(prevacc, asg) == (forall|q: int|
                        0 <= q < i ==> Self::eval(#[trigger] elem.model()[q], asg)));
                    
                };
            }
            i = i + 1;
        }
        GenVector::from_elem(acc)
    }

    fn bit_any(&mut self, elem: GenVec<Self::Elem>) -> (r: GenVec<Self::Elem>) {
        let n = elem.len();
        let mut acc = self.bool_zero();
        let mut i: usize = 0;
        while i < n
            invariant
                i <= n,
                n == elem.model().len(),
                elems_inv(*old(self), elem.model()),
                self.inv(),
                self.elem_inv(acc),
                forall|e: Self::Elem| #[trigger]
                    old(self).elem_inv(e) ==> self.elem_inv(e),
                forall|asg: Seq<bool>| #[trigger]
                    self.models(asg) ==> old(self).models(asg),
                forall|asg: Seq<bool>| #[trigger]
                    self.models(asg) ==> Self::eval(acc, asg) == (exists|q: int|
                        0 <= q < i && Self::eval(#[trigger] elem.model()[q], asg)),
            decreases n - i,
        {
            proof {
                assert(old(self).elem_inv(elem.model()[i as int]));
            }
            let x = elem.get(i);
            let ghost prevst = *self;
            let ghost prevacc = acc;
            acc = self.bool_or(acc, x);
            proof {
                assert forall|asg: Seq<bool>| #[trigger] self.models(asg) implies Self::eval(
                    acc,
                    asg,
                ) == (exists|q: int|
                    0 <= q < i + 1 && Self::eval(#[trigger] elem.model()[q], asg)) by {
                    assert(prevst.models(asg));
                    assert(Self::eval(prevacc, asg) == (exists|q: int|
                        0 <= q < i && Self::eval(#[trigger] elem.model()[q], asg)));
                    if Self::eval(elem.model()[i as int], asg) {
                        assert(0 <= (i as int) < i + 1 && Self::eval(
                            elem.model()[i as int],
                            asg,
                        ));
                    }
                };
            }
            i = i + 1;
        }
        GenVector::from_elem(acc)
    }


    fn num_lift(&mut self, len: usize, elem: i64) -> (r: GenVec<Self::Elem>) {
        let cur0: u64 = if elem >= 0 {
            elem as u64
        } else {
            let mag: u64 = ((-(elem + 1)) as u64) + 1;
            (u64::MAX - mag) + 1
        };
        let mut cur: u64 = cur0;
        proof {
            vstd::arithmetic::power2::lemma2_to64_rest();
            assert(pow2(64) == 0x10000000000000000);
            assert(pow2(0) == 1) by {
                vstd::arithmetic::power2::lemma2_to64();
            };
            if elem >= 0 {
                vstd::arithmetic::div_mod::lemma_small_mod(
                    elem as nat,
                    pow2(64),
                );
                assert(cur as int == (elem as int) % (pow2(64) as int));
            } else {
                assert(cur as int == (elem as int) + pow2(64));
                vstd::arithmetic::div_mod::lemma_mod_add_multiples_vanish(
                    elem as int,
                    pow2(64) as int,
                );
                vstd::arithmetic::div_mod::lemma_small_mod(
                    ((elem as int) + pow2(64)) as nat,
                    pow2(64),
                );
                assert(cur as int == (elem as int) % (pow2(64) as int));
            }
        }
        let ghost whole: int = (elem as int) % (pow2(64) as int);
        let mut out: GenVec<Self::Elem> = GenVector::with_capacity(len);
        let ghost bs: Seq<bool> = Seq::empty();
        let mut bsv = Ghost(bs);
        let mut i: usize = 0;
        while i < len
            invariant
                i <= len <= 64,
                whole == (elem as int) % (pow2(64) as int),
                self.inv(),
                forall|e: Self::Elem| #[trigger]
                    old(self).elem_inv(e) ==> self.elem_inv(e),
                forall|asg: Seq<bool>| #[trigger]
                    self.models(asg) ==> old(self).models(asg),
                out.model().len() == i,
                bsv@.len() == i,
                elems_inv(*self, out.model()),
                whole == num_value(bsv@) + pow2(i as nat) * (cur as int),
                forall|asg: Seq<bool>, j: int|
                    #![trigger self.models(asg), out.model()[j]]
                    self.models(asg) && 0 <= j < i ==> Self::eval(out.model()[j], asg)
                        == bsv@[j],
            decreases len - i,
        {
            let b = cur % 2 == 1;
            let ghost prevst = *self;
            let ghost preve = out.model();
            let ghost prevbs = bsv@;
            let ghost prevcur = cur as int;
            let x = self.bool_lift(b);
            out.push(x);
            proof {
                bsv@ = prevbs.push(b);
            }
            cur = cur / 2;
            proof {
                assert(prevcur == 2 * (cur as int) + (if b {
                    1int
                } else {
                    0
                }));
                lemma_num_value_push(prevbs, b);
                vstd::arithmetic::power2::lemma_pow2_unfold((i + 1) as nat);
                assert(pow2(i as nat) * prevcur == pow2((i + 1) as nat) * (cur as int)
                    + pow2(i as nat) * (if b {
                    1int
                } else {
                    0
                })) by (nonlinear_arith)
                    requires
                        prevcur == 2 * (cur as int) + (if b {
                            1int
                        } else {
                            0
                        }),
                        pow2((i + 1) as nat) == 2 * pow2(i as nat),
                ;
                assert(bsv@[i as int] == b);
                assert forall|asg: Seq<bool>, j: int|
                    #![trigger self.models(asg), out.model()[j]]
                    self.models(asg) && 0 <= j < i + 1 implies Self::eval(
                    out.model()[j],
                    asg,
                ) == bsv@[j] by {
                    assert(prevst.models(asg));
                    if j < i {
                        assert(out.model()[j] == preve[j]);
                        assert(bsv@[j] == prevbs[j]);
                        assert(Self::eval(preve[j], asg) == prevbs[j]);
                    } else {
                        assert(out.model()[j] == x);
                    }
                };
                assert forall|q: int| 0 <= q < i + 1 implies self.elem_inv(
                    #[trigger] out.model()[q],
                ) by {
                    if q < i {
                        assert(preve[q] == out.model()[q]);
                        assert(prevst.elem_inv(preve[q]));
                    }
                };
            }
            i = i + 1;
        }
        proof {
            lemma_num_value_bound(bsv@);
            vstd::arithmetic::power2::lemma_pow2_pos(len as nat);
            vstd::arithmetic::power2::lemma_pow2_pos((64 - len) as nat);
            vstd::arithmetic::power2::lemma_pow2_adds(len as nat, (64 - len) as nat);
            let q64 = (elem as int) / (pow2(64) as int);
            assert(elem as int == (pow2(64) as int) * q64 + whole) by {
                vstd::arithmetic::div_mod::lemma_fundamental_div_mod(
                    elem as int,
                    pow2(64) as int,
                );
            };
            assert((pow2(64) as int) * q64 == (pow2(len as nat) as int) * ((pow2((64
                - len) as nat) as int) * q64)) by (nonlinear_arith)
                requires
                    pow2(64) == pow2(len as nat) * pow2((64 - len) as nat),
            ;
            assert((pow2(len as nat) as int) * ((pow2((64 - len) as nat) as int) * q64)
                + (pow2(len as nat) as int) * (cur as int) == (pow2(len as nat) as int) * (
            (pow2((64 - len) as nat) as int) * q64 + (cur as int))) by (nonlinear_arith);
            assert(elem as int == (pow2(len as nat) as int) * ((pow2((
            64 - len) as nat) as int) * q64 + (cur as int)) + num_value(bsv@));
            vstd::arithmetic::div_mod::lemma_fundamental_div_mod_converse_mod(
                elem as int,
                pow2(len as nat) as int,
                (pow2((64 - len) as nat) as int) * q64 + (cur as int),
                num_value(bsv@) as int,
            );
            assert forall|asg: Seq<bool>| #[trigger] self.models(asg) implies num_value(
                evals::<Self>(out.model(), asg),
            ) == ((elem as int) % (pow2(len as nat) as int)) as nat by {
                assert(evals::<Self>(out.model(), asg) =~= bsv@);
            };
        }
        out
    }

    fn num_add(&mut self, elem1: GenVec<Self::Elem>, elem2: GenVec<Self::Elem>) -> (r:
        GenVec<Self::Elem>) {
        let ghost l = elem1.model();
        let ghost m = elem2.model();
        let n = elem1.len();
        let mut out: GenVec<Self::Elem> = GenVector::with_capacity(n);
        let mut carry = self.bool_zero();
        proof {
            assert(pow2(0) == 1) by {
                vstd::arithmetic::power2::lemma2_to64();
            };
            assert(l.take(0) =~= Seq::<Self::Elem>::empty());
            assert(m.take(0) =~= Seq::<Self::Elem>::empty());
            assert(evals::<Self>(Seq::<Self::Elem>::empty(), Seq::<bool>::empty()).len()
                == 0);
        }
        let mut i: usize = 0;
        while i < n
            invariant
                i <= n,
                n == l.len(),
                n == m.len(),
                l == elem1.model(),
                m == elem2.model(),
                elems_inv(*old(self), l),
                elems_inv(*old(self), m),
                self.inv(),
                self.elem_inv(carry),
                forall|e: Self::Elem| #[trigger]
                    old(self).elem_inv(e) ==> self.elem_inv(e),
                forall|asg: Seq<bool>| #[trigger]
                    self.models(asg) ==> old(self).models(asg),
                out.model().len() == i,
                elems_inv(*self, out.model()),
                forall|asg: Seq<bool>| #[trigger]
                    self.models(asg) ==> num_value(evals::<Self>(out.model(), asg)) + pow2(
                        i as nat,
                    ) * bitval(Self::eval(carry, asg)) == num_value(
                        evals::<Self>(l.take(i as int), asg),
                    ) + num_value(evals::<Self>(m.take(i as int), asg)),
            decreases n - i,
        {
            proof {
                assert(old(self).elem_inv(l[i as int]));
                assert(old(self).elem_inv(m[i as int]));
            }
            let a = elem1.get(i);
            let b = elem2.get(i);
            let ghost prevst = *self;
            let ghost prevout = out.model();
            let ghost prevcarry = carry;
            let s = self.bool_sum3(a, b, carry);
            let c2 = self.bool_maj(a, b, carry);
            out.push(s);
            carry = c2;
            proof {
                assert forall|asg: Seq<bool>| #[trigger] self.models(asg) implies num_value(
                    evals::<Self>(out.model(), asg),
                ) + pow2((i + 1) as nat) * bitval(Self::eval(carry, asg)) == num_value(
                    evals::<Self>(l.take(i + 1), asg),
                ) + num_value(evals::<Self>(m.take(i + 1), asg)) by {
                    assert(prevst.models(asg));
                    let va = bitval(Self::eval(l[i as int], asg));
                    let vb = bitval(Self::eval(m[i as int], asg));
                    let vc = bitval(Self::eval(prevcarry, asg));
                    let vs = bitval(Self::eval(s, asg));
                    let vc2 = bitval(Self::eval(c2, asg));
                    assert(vs + 2 * vc2 == va + vb + vc);
                    assert(evals::<Self>(out.model(), asg) =~= evals::<Self>(
                        prevout,
                        asg,
                    ).push(Self::eval(s, asg)));
                    assert(evals::<Self>(prevout, asg).len() == i);
                    lemma_num_value_push(evals::<Self>(prevout, asg), Self::eval(s, asg));
                    assert(l.take(i + 1) =~= l.take(i as int).push(l[i as int]));
                    assert(evals::<Self>(l.take(i + 1), asg) =~= evals::<Self>(
                        l.take(i as int),
                        asg,
                    ).push(Self::eval(l[i as int], asg)));
                    assert(evals::<Self>(l.take(i as int), asg).len() == i);
                    lemma_num_value_push(
                        evals::<Self>(l.take(i as int), asg),
                        Self::eval(l[i as int], asg),
                    );
                    assert(m.take(i + 1) =~= m.take(i as int).push(m[i as int]));
                    assert(evals::<Self>(m.take(i + 1), asg) =~= evals::<Self>(
                        m.take(i as int),
                        asg,
                    ).push(Self::eval(m[i as int], asg)));
                    assert(evals::<Self>(m.take(i as int), asg).len() == i);
                    lemma_num_value_push(
                        evals::<Self>(m.take(i as int), asg),
                        Self::eval(m[i as int], asg),
                    );
                    vstd::arithmetic::power2::lemma_pow2_unfold((i + 1) as nat);
                    assert(pow2(i as nat) * vs + (2 * pow2(i as nat)) * vc2 == pow2(
                        i as nat,
                    ) * va + pow2(i as nat) * vb + pow2(i as nat) * vc) by (nonlinear_arith)
                        requires
                            vs + 2 * vc2 == va + vb + vc,
                    ;
                };
                let ghost preve2 = prevout;
                assert forall|q: int| 0 <= q < i + 1 implies self.elem_inv(
                    #[trigger] out.model()[q],
                ) by {
                    if q < i {
                        assert(preve2[q] == out.model()[q]);
                        assert(prevst.elem_inv(preve2[q]));
                    }
                };
            }
            i = i + 1;
        }
        proof {
            assert(l.take(n as int) =~= l);
            assert(m.take(n as int) =~= m);
            vstd::arithmetic::power2::lemma_pow2_pos(n as nat);
            assert forall|asg: Seq<bool>| #[trigger] self.models(asg) implies num_value(
                evals::<Self>(out.model(), asg),
            ) == (num_value(evals::<Self>(l, asg)) + num_value(evals::<Self>(m, asg)))
                % pow2(n as nat) by {
                let vr = num_value(evals::<Self>(out.model(), asg));
                let vc = bitval(Self::eval(carry, asg));
                assert(evals::<Self>(out.model(), asg).len() == n);
                lemma_num_value_bound(evals::<Self>(out.model(), asg));
                assert((num_value(evals::<Self>(l, asg)) + num_value(
                    evals::<Self>(m, asg),
                )) as int == (vc as int) * (pow2(n as nat) as int) + (vr as int))
                    by (nonlinear_arith)
                    requires
                        vr + pow2(n as nat) * vc == num_value(evals::<Self>(l, asg))
                            + num_value(evals::<Self>(m, asg)),
                ;
                vstd::arithmetic::div_mod::lemma_fundamental_div_mod_converse_mod(
                    (num_value(evals::<Self>(l, asg)) + num_value(
                        evals::<Self>(m, asg),
                    )) as int,
                    pow2(n as nat) as int,
                    vc as int,
                    vr as int,
                );
            };
        }
        out
    }

    fn num_sub(&mut self, elem1: GenVec<Self::Elem>, elem2: GenVec<Self::Elem>) -> (r:
        GenVec<Self::Elem>) {
        let ghost l = elem1.model();
        let ghost m = elem2.model();
        let n = elem1.len();
        let mut out: GenVec<Self::Elem> = GenVector::with_capacity(n);
        let mut carry = self.bool_unit();
        proof {
            assert(pow2(0) == 1) by {
                vstd::arithmetic::power2::lemma2_to64();
            };
            assert(l.take(0) =~= Seq::<Self::Elem>::empty());
            assert(m.take(0) =~= Seq::<Self::Elem>::empty());
        }
        let mut i: usize = 0;
        while i < n
            invariant
                i <= n,
                n == l.len(),
                n == m.len(),
                l == elem1.model(),
                m == elem2.model(),
                elems_inv(*old(self), l),
                elems_inv(*old(self), m),
                self.inv(),
                self.elem_inv(carry),
                forall|e: Self::Elem| #[trigger]
                    old(self).elem_inv(e) ==> self.elem_inv(e),
                forall|asg: Seq<bool>| #[trigger]
                    self.models(asg) ==> old(self).models(asg),
                out.model().len() == i,
                elems_inv(*self, out.model()),
                forall|asg: Seq<bool>| #[trigger]
                    self.models(asg) ==> num_value(evals::<Self>(out.model(), asg)) + pow2(
                        i as nat,
                    ) * bitval(Self::eval(carry, asg)) + num_value(
                        evals::<Self>(m.take(i as int), asg),
                    ) == num_value(evals::<Self>(l.take(i as int), asg)) + pow2(i as nat),
            decreases n - i,
        {
            proof {
                assert(old(self).elem_inv(l[i as int]));
                assert(old(self).elem_inv(m[i as int]));
            }
            let a = elem1.get(i);
            let b = elem2.get(i);
            let ghost prevst = *self;
            let ghost prevout = out.model();
            let ghost prevcarry = carry;
            let nb = self.bool_not(b);
            let s = self.bool_sum3(a, nb, carry);
            let c2 = self.bool_maj(a, nb, carry);
            out.push(s);
            carry = c2;
            proof {
                assert forall|asg: Seq<bool>| #[trigger] self.models(asg) implies num_value(
                    evals::<Self>(out.model(), asg),
                ) + pow2((i + 1) as nat) * bitval(Self::eval(carry, asg)) + num_value(
                    evals::<Self>(m.take(i + 1), asg),
                ) == num_value(evals::<Self>(l.take(i + 1), asg)) + pow2((i + 1) as nat)
                    by {
                    assert(prevst.models(asg));
                    let va = bitval(Self::eval(l[i as int], asg));
                    let vb = bitval(Self::eval(m[i as int], asg));
                    let vnb = bitval(Self::eval(nb, asg));
                    let vc = bitval(Self::eval(prevcarry, asg));
                    let vs = bitval(Self::eval(s, asg));
                    let vc2 = bitval(Self::eval(c2, asg));
                    assert(vnb + vb == 1);
                    assert(vs + 2 * vc2 == va + vnb + vc);
                    assert(evals::<Self>(out.model(), asg) =~= evals::<Self>(
                        prevout,
                        asg,
                    ).push(Self::eval(s, asg)));
                    assert(evals::<Self>(prevout, asg).len() == i);
                    lemma_num_value_push(evals::<Self>(prevout, asg), Self::eval(s, asg));
                    assert(l.take(i + 1) =~= l.take(i as int).push(l[i as int]));
                    assert(evals::<Self>(l.take(i + 1), asg) =~= evals::<Self>(
                        l.take(i as int),
                        asg,
                    ).push(Self::eval(l[i as int], asg)));
                    assert(evals::<Self>(l.take(i as int), asg).len() == i);
                    lemma_num_value_push(
                        evals::<Self>(l.take(i as int), asg),
                        Self::eval(l[i as int], asg),
                    );
                    assert(m.take(i + 1) =~= m.take(i as int).push(m[i as int]));
                    assert(evals::<Self>(m.take(i + 1), asg) =~= evals::<Self>(
                        m.take(i as int),
                        asg,
                    ).push(Self::eval(m[i as int], asg)));
                    assert(evals::<Self>(m.take(i as int), asg).len() == i);
                    lemma_num_value_push(
                        evals::<Self>(m.take(i as int), asg),
                        Self::eval(m[i as int], asg),
                    );
                    vstd::arithmetic::power2::lemma_pow2_unfold((i + 1) as nat);
                    assert(pow2(i as nat) * vs + (2 * pow2(i as nat)) * vc2 + pow2(
                        i as nat,
                    ) * vb == pow2(i as nat) * va + pow2(i as nat) + pow2(i as nat) * vc)
                        by (nonlinear_arith)
                        requires
                            vs + 2 * vc2 == va + vnb + vc,
                            vnb + vb == 1,
                    ;
                };
                let ghost preve2 = prevout;
                assert forall|q: int| 0 <= q < i + 1 implies self.elem_inv(
                    #[trigger] out.model()[q],
                ) by {
                    if q < i {
                        assert(preve2[q] == out.model()[q]);
                        assert(prevst.elem_inv(preve2[q]));
                    }
                };
            }
            i = i + 1;
        }
        proof {
            assert(l.take(n as int) =~= l);
            assert(m.take(n as int) =~= m);
            vstd::arithmetic::power2::lemma_pow2_pos(n as nat);
            assert forall|asg: Seq<bool>| #[trigger] self.models(asg) implies num_value(
                evals::<Self>(out.model(), asg),
            ) == ((num_value(evals::<Self>(l, asg)) + pow2(n as nat) - num_value(
                evals::<Self>(m, asg),
            )) as int % (pow2(n as nat) as int)) as nat by {
                let vr = num_value(evals::<Self>(out.model(), asg));
                let vc = bitval(Self::eval(carry, asg));
                assert(evals::<Self>(out.model(), asg).len() == n);
                assert(evals::<Self>(m, asg).len() == n);
                lemma_num_value_bound(evals::<Self>(out.model(), asg));
                lemma_num_value_bound(evals::<Self>(m, asg));
                assert((num_value(evals::<Self>(l, asg)) + pow2(n as nat) - num_value(
                    evals::<Self>(m, asg),
                )) as int == (vc as int) * (pow2(n as nat) as int) + (vr as int))
                    by (nonlinear_arith)
                    requires
                        vr + pow2(n as nat) * vc + num_value(evals::<Self>(m, asg))
                            == num_value(evals::<Self>(l, asg)) + pow2(n as nat),
                ;
                vstd::arithmetic::div_mod::lemma_fundamental_div_mod_converse_mod(
                    (num_value(evals::<Self>(l, asg)) + pow2(n as nat) - num_value(
                        evals::<Self>(m, asg),
                    )) as int,
                    pow2(n as nat) as int,
                    vc as int,
                    vr as int,
                );
            };
        }
        out
    }

    fn num_neg(&mut self, elem: GenVec<Self::Elem>) -> (r: GenVec<Self::Elem>) {
        let ghost l = elem.model();
        let n = elem.len();
        let mut out: GenVec<Self::Elem> = GenVector::with_capacity(n);
        let mut carry = self.bool_unit();
        proof {
            assert(pow2(0) == 1) by {
                vstd::arithmetic::power2::lemma2_to64();
            };
            assert(l.take(0) =~= Seq::<Self::Elem>::empty());
        }
        let mut i: usize = 0;
        while i < n
            invariant
                i <= n,
                n == l.len(),
                l == elem.model(),
                elems_inv(*old(self), l),
                self.inv(),
                self.elem_inv(carry),
                forall|e: Self::Elem| #[trigger]
                    old(self).elem_inv(e) ==> self.elem_inv(e),
                forall|asg: Seq<bool>| #[trigger]
                    self.models(asg) ==> old(self).models(asg),
                out.model().len() == i,
                elems_inv(*self, out.model()),
                forall|asg: Seq<bool>| #[trigger]
                    self.models(asg) ==> num_value(evals::<Self>(out.model(), asg)) + pow2(
                        i as nat,
                    ) * bitval(Self::eval(carry, asg)) + num_value(
                        evals::<Self>(l.take(i as int), asg),
                    ) == pow2(i as nat),
            decreases n - i,
        {
            proof {
                assert(old(self).elem_inv(l[i as int]));
            }
            let a = elem.get(i);
            let ghost prevst = *self;
            let ghost prevout = out.model();
            let ghost prevcarry = carry;
            let na = self.bool_not(a);
            let s = self.bool_xor(na, carry);
            let c2 = self.bool_and(na, carry);
            out.push(s);
            carry = c2;
            proof {
                assert forall|asg: Seq<bool>| #[trigger] self.models(asg) implies num_value(
                    evals::<Self>(out.model(), asg),
                ) + pow2((i + 1) as nat) * bitval(Self::eval(carry, asg)) + num_value(
                    evals::<Self>(l.take(i + 1), asg),
                ) == pow2((i + 1) as nat) by {
                    assert(prevst.models(asg));
                    let va = bitval(Self::eval(l[i as int], asg));
                    let vna = bitval(Self::eval(na, asg));
                    let vc = bitval(Self::eval(prevcarry, asg));
                    let vs = bitval(Self::eval(s, asg));
                    let vc2 = bitval(Self::eval(c2, asg));
                    assert(vna + va == 1);
                    assert(vs + 2 * vc2 == vna + vc);
                    assert(evals::<Self>(out.model(), asg) =~= evals::<Self>(
                        prevout,
                        asg,
                    ).push(Self::eval(s, asg)));
                    assert(evals::<Self>(prevout, asg).len() == i);
                    lemma_num_value_push(evals::<Self>(prevout, asg), Self::eval(s, asg));
                    assert(l.take(i + 1) =~= l.take(i as int).push(l[i as int]));
                    assert(evals::<Self>(l.take(i + 1), asg) =~= evals::<Self>(
                        l.take(i as int),
                        asg,
                    ).push(Self::eval(l[i as int], asg)));
                    assert(evals::<Self>(l.take(i as int), asg).len() == i);
                    lemma_num_value_push(
                        evals::<Self>(l.take(i as int), asg),
                        Self::eval(l[i as int], asg),
                    );
                    vstd::arithmetic::power2::lemma_pow2_unfold((i + 1) as nat);
                    assert(pow2(i as nat) * vs + (2 * pow2(i as nat)) * vc2 + pow2(
                        i as nat,
                    ) * va == pow2(i as nat) + pow2(i as nat) * vc) by (nonlinear_arith)
                        requires
                            vs + 2 * vc2 == vna + vc,
                            vna + va == 1,
                    ;
                };
                let ghost preve2 = prevout;
                assert forall|q: int| 0 <= q < i + 1 implies self.elem_inv(
                    #[trigger] out.model()[q],
                ) by {
                    if q < i {
                        assert(preve2[q] == out.model()[q]);
                        assert(prevst.elem_inv(preve2[q]));
                    }
                };
            }
            i = i + 1;
        }
        proof {
            assert(l.take(n as int) =~= l);
            vstd::arithmetic::power2::lemma_pow2_pos(n as nat);
            assert forall|asg: Seq<bool>| #[trigger] self.models(asg) implies (num_value(
                evals::<Self>(out.model(), asg),
            ) + num_value(evals::<Self>(l, asg))) % pow2(n as nat) == 0 by {
                let vr = num_value(evals::<Self>(out.model(), asg));
                let vl = num_value(evals::<Self>(l, asg));
                let vc = bitval(Self::eval(carry, asg));
                assert((vr + vl) as int == ((1 - vc) as int) * (pow2(n as nat) as int)
                    + 0) by (nonlinear_arith)
                    requires
                        vr + pow2(n as nat) * vc + vl == pow2(n as nat),
                        vc <= 1,
                ;
                vstd::arithmetic::div_mod::lemma_fundamental_div_mod_converse_mod(
                    (vr + vl) as int,
                    pow2(n as nat) as int,
                    (1 - vc) as int,
                    0,
                );
            };
        }
        out
    }

    fn num_eq(&mut self, elem1: GenVec<Self::Elem>, elem2: GenVec<Self::Elem>) -> (r:
        GenVec<Self::Elem>) {
        let ghost l = elem1.model();
        let ghost m = elem2.model();
        let n = elem1.len();
        let mut result = self.bool_unit();
        let mut i: usize = 0;
        while i < n
            invariant
                i <= n,
                n == l.len(),
                n == m.len(),
                l == elem1.model(),
                m == elem2.model(),
                elems_inv(*old(self), l),
                elems_inv(*old(self), m),
                self.inv(),
                self.elem_inv(result),
                forall|e: Self::Elem| #[trigger]
                    old(self).elem_inv(e) ==> self.elem_inv(e),
                forall|asg: Seq<bool>| #[trigger]
                    self.models(asg) ==> old(self).models(asg),
                forall|asg: Seq<bool>| #[trigger]
                    self.models(asg) ==> Self::eval(result, asg) == (forall|q: int|
                        0 <= q < i ==> Self::eval(#[trigger] l[q], asg) == Self::eval(
                            m[q],
                            asg,
                        )),
            decreases n - i,
        {
            proof {
                assert(old(self).elem_inv(l[i as int]));
                assert(old(self).elem_inv(m[i as int]));
            }
            let a = elem1.get(i);
            let b = elem2.get(i);
            let ghost prevst = *self;
            let ghost prevres = result;
            let c = self.bool_equ(a, b);
            result = self.bool_and(result, c);
            proof {
                assert forall|asg: Seq<bool>| #[trigger] self.models(asg) implies
                    Self::eval(result, asg) == (forall|q: int|
                    0 <= q < i + 1 ==> Self::eval(#[trigger] l[q], asg) == Self::eval(
                        m[q],
                        asg,
                    )) by {
                    assert(prevst.models(asg));
                    assert(Self::eval(prevres, asg) == (forall|q: int|
                        0 <= q < i ==> Self::eval(#[trigger] l[q], asg) == Self::eval(
                            m[q],
                            asg,
                        )));
                };
            }
            i = i + 1;
        }
        proof {
            assert forall|asg: Seq<bool>| #[trigger] self.models(asg) implies Self::eval(
                result,
                asg,
            ) == (evals::<Self>(l, asg) == evals::<Self>(m, asg)) by {
                if Self::eval(result, asg) {
                    assert(evals::<Self>(l, asg) =~= evals::<Self>(m, asg));
                } else {
                    let q = choose|q: int|
                        0 <= q < n && Self::eval(#[trigger] l[q], asg) != Self::eval(
                            m[q],
                            asg,
                        );
                    assert(evals::<Self>(l, asg)[q] != evals::<Self>(m, asg)[q]);
                }
            };
            assert forall|asg: Seq<bool>| #[trigger] self.models(asg) implies Self::eval(
                result,
                asg,
            ) == (num_value(evals::<Self>(l, asg)) == num_value(evals::<Self>(m, asg)))
                by {
                lemma_num_value_injective(evals::<Self>(l, asg), evals::<Self>(m, asg));
            };
        }
        GenVector::from_elem(result)
    }

    fn num_ne(&mut self, elem1: GenVec<Self::Elem>, elem2: GenVec<Self::Elem>) -> (r:
        GenVec<Self::Elem>) {
        let t = self.num_eq(elem1, elem2);
        proof {
            assert(old(self).elem_inv(t.model()[0]) || self.elem_inv(t.model()[0]));
        }
        let x0 = t.get(0);
        let x = self.bool_not(x0);
        GenVector::from_elem(x)
    }

    fn num_le(&mut self, elem1: GenVec<Self::Elem>, elem2: GenVec<Self::Elem>) -> (r:
        GenVec<Self::Elem>) {
        let ghost l = elem1.model();
        let ghost m = elem2.model();
        let n = elem1.len();
        let mut result = self.bool_unit();
        proof {
            assert(pow2(0) == 1) by {
                vstd::arithmetic::power2::lemma2_to64();
            };
            assert(l.take(0) =~= Seq::<Self::Elem>::empty());
            assert(m.take(0) =~= Seq::<Self::Elem>::empty());
        }
        let mut i: usize = 0;
        while i < n
            invariant
                i <= n,
                n == l.len(),
                n == m.len(),
                l == elem1.model(),
                m == elem2.model(),
                elems_inv(*old(self), l),
                elems_inv(*old(self), m),
                self.inv(),
                self.elem_inv(result),
                forall|e: Self::Elem| #[trigger]
                    old(self).elem_inv(e) ==> self.elem_inv(e),
                forall|asg: Seq<bool>| #[trigger]
                    self.models(asg) ==> old(self).models(asg),
                forall|asg: Seq<bool>| #[trigger]
                    self.models(asg) ==> Self::eval(result, asg) == (num_value(
                        evals::<Self>(l.take(i as int), asg),
                    ) <= num_value(evals::<Self>(m.take(i as int), asg))),
            decreases n - i,
        {
            proof {
                assert(old(self).elem_inv(l[i as int]));
                assert(old(self).elem_inv(m[i as int]));
            }
            let a = elem1.get(i);
            let b = elem2.get(i);
            let ghost prevst = *self;
            let ghost prevres = result;
            let na = self.bool_not(a);
            result = self.bool_maj(na, b, result);
            proof {
                assert forall|asg: Seq<bool>| #[trigger] self.models(asg) implies
                    Self::eval(result, asg) == (num_value(
                    evals::<Self>(l.take(i + 1), asg),
                ) <= num_value(evals::<Self>(m.take(i + 1), asg))) by {
                    assert(prevst.models(asg));
                    let va = bitval(Self::eval(l[i as int], asg));
                    let vb = bitval(Self::eval(m[i as int], asg));
                    let vla = num_value(evals::<Self>(l.take(i as int), asg));
                    let vlb = num_value(evals::<Self>(m.take(i as int), asg));
                    assert(l.take(i + 1) =~= l.take(i as int).push(l[i as int]));
                    assert(evals::<Self>(l.take(i + 1), asg) =~= evals::<Self>(
                        l.take(i as int),
                        asg,
                    ).push(Self::eval(l[i as int], asg)));
                    assert(evals::<Self>(l.take(i as int), asg).len() == i);
                    lemma_num_value_push(
                        evals::<Self>(l.take(i as int), asg),
                        Self::eval(l[i as int], asg),
                    );
                    assert(m.take(i + 1) =~= m.take(i as int).push(m[i as int]));
                    assert(evals::<Self>(m.take(i + 1), asg) =~= evals::<Self>(
                        m.take(i as int),
                        asg,
                    ).push(Self::eval(m[i as int], asg)));
                    assert(evals::<Self>(m.take(i as int), asg).len() == i);
                    lemma_num_value_push(
                        evals::<Self>(m.take(i as int), asg),
                        Self::eval(m[i as int], asg),
                    );
                    lemma_num_value_bound(evals::<Self>(l.take(i as int), asg));
                    lemma_num_value_bound(evals::<Self>(m.take(i as int), asg));
                    if va < vb {
                        assert(vla + pow2(i as nat) * va < vlb + pow2(i as nat) * vb)
                            by (nonlinear_arith)
                            requires
                                va == 0,
                                vb == 1,
                                vla < pow2(i as nat),
                                vlb >= 0,
                        ;
                    } else if va > vb {
                        assert(vla + pow2(i as nat) * va > vlb + pow2(i as nat) * vb)
                            by (nonlinear_arith)
                            requires
                                va == 1,
                                vb == 0,
                                vlb < pow2(i as nat),
                                vla >= 0,
                        ;
                    } else {
                        assert(va == vb);
                        assert((vla + pow2(i as nat) * va <= vlb + pow2(i as nat) * vb)
                            == (vla <= vlb)) by (nonlinear_arith)
                            requires
                                va == vb,
                        ;
                    }
                };
            }
            i = i + 1;
        }
        proof {
            assert(l.take(n as int) =~= l);
            assert(m.take(n as int) =~= m);
        }
        GenVector::from_elem(result)
    }

    fn num_lt(&mut self, elem1: GenVec<Self::Elem>, elem2: GenVec<Self::Elem>) -> (r:
        GenVec<Self::Elem>) {
        let t = self.num_le(elem2, elem1);
        let x0 = t.get(0);
        let x = self.bool_not(x0);
        GenVector::from_elem(x)
    }
}

} // verus!
