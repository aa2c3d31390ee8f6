//! A generic vector interface unifying dense, bit-packed and unit storage.

use vstd::prelude::*;

verus! {

/// The sequence a vector holds after growing it to `new_len` with `fill`
/// copies of the fill element, or truncating it down to `new_len`.
pub open spec fn resize_model<ELEM>(s: Seq<ELEM>, new_len: nat, fill: ELEM) -> Seq<ELEM> {
    if new_len <= s.len() {
        s.take(new_len as int)
    } else {
        s + Seq::new((new_len - s.len()) as nat, |i: int| fill)
    }
}

/// The concatenation of a sequence of sequences, in order.
pub open spec fn concat_model<ELEM>(ss: Seq<Seq<ELEM>>) -> Seq<ELEM>
    decreases ss.len(),
{
    if ss.len() == 0 {
        Seq::empty()
    } else {
        ss.first() + concat_model(ss.drop_first())
    }
}

/// The consecutive chunks of `k` elements of `s`, in order, a final
/// remainder of fewer than `k` elements dropped.
pub open spec fn split_model<ELEM>(s: Seq<ELEM>, k: nat) -> Seq<Seq<ELEM>> {
    if k == 0 {
        Seq::empty()
    } else {
        Seq::new((s.len() / k) as nat, |i: int| s.subrange(i * k, i * k + k))
    }
}

/// Concatenating one more sequence at the back extends the concatenation.
proof fn lemma_concat_model_push<ELEM>(ss: Seq<Seq<ELEM>>, t: Seq<ELEM>)
    ensures
        concat_model(ss.push(t)) == concat_model(ss) + t,
    decreases ss.len(),
{
    if ss.len() == 0 {
        assert(ss.push(t).drop_first() =~= Seq::<Seq<ELEM>>::empty());
        assert(ss.push(t).first() == t);
        assert(concat_model(ss.push(t).drop_first()) == Seq::<ELEM>::empty());
        assert(concat_model(ss.push(t)) == t + Seq::<ELEM>::empty());
        assert(t + Seq::<ELEM>::empty() =~= concat_model(ss) + t);
    } else {
        assert(ss.push(t).drop_first() =~= ss.drop_first().push(t));
        lemma_concat_model_push(ss.drop_first(), t);
        assert(concat_model(ss.push(t)) =~= concat_model(ss) + t);
    }
}

/// The concatenation of the first `i + 1` sequences is the concatenation of
/// the first `i` followed by the `i`-th sequence.
proof fn lemma_concat_model_take_step<ELEM>(ss: Seq<Seq<ELEM>>, i: int)
    requires
        0 <= i < ss.len(),
    ensures
        concat_model(ss.take(i + 1)) == concat_model(ss.take(i)) + ss[i],
{
    assert(ss.take(i + 1) =~= ss.take(i).push(ss[i]));
    lemma_concat_model_push(ss.take(i), ss[i]);
}

/// A prefix of the sequences concatenates to at most the whole.
proof fn lemma_concat_model_take_len<ELEM>(ss: Seq<Seq<ELEM>>, i: int)
    requires
        0 <= i <= ss.len(),
    ensures
        concat_model(ss.take(i)).len() <= concat_model(ss).len(),
        i < ss.len() ==> concat_model(ss.take(i)).len() + ss[i].len() <= concat_model(
            ss,
        ).len(),
    decreases ss.len() - i,
{
    if i == ss.len() {
        assert(ss.take(i) =~= ss);
    } else {
        lemma_concat_model_take_step(ss, i);
        lemma_concat_model_take_len(ss, i + 1);
    }
}

/// The concatenation of the first `i` chunks of `s` is the prefix of `s`
/// of length `i * k`.
proof fn lemma_split_concat_prefix<ELEM>(s: Seq<ELEM>, k: nat, i: int)
    requires
        k > 0,
        0 <= i <= s.len() / k,
    ensures
        concat_model(split_model(s, k).take(i)) == s.take(i * k),
    decreases i,
{
    let ss = split_model(s, k);
    assert((s.len() / k) * k <= s.len()) by {
        vstd::arithmetic::div_mod::lemma_fundamental_div_mod(s.len() as int, k as int);
        assert(s.len() % k >= 0);
    };
    if i == 0 {
        assert(i * k == 0) by (nonlinear_arith)
            requires
                i == 0,
        ;
        assert(ss.take(0) =~= Seq::<Seq<ELEM>>::empty());
        assert(concat_model(ss.take(i)) == Seq::<ELEM>::empty());
        assert(s.take(i * k) =~= Seq::<ELEM>::empty());
    } else {
        lemma_split_concat_prefix(s, k, i - 1);
        lemma_concat_model_take_step(ss, i - 1);
        assert(i * k <= (s.len() / k) * k) by (nonlinear_arith)
            requires
                i <= s.len() / k,
                k > 0,
        ;
        assert((i - 1) * k + k == i * k) by (nonlinear_arith);
        assert(ss[i - 1] == s.subrange((i - 1) * k, (i - 1) * k + (k as int)));
        assert(s.take((i - 1) * k) + s.subrange((i - 1) * k, i * k) =~= s.take(i * k));
        assert(concat_model(ss.take(i)) == concat_model(ss.take(i - 1)) + ss[i - 1]);
        assert(concat_model(ss.take(i - 1)) == s.take((i - 1) * k));
        assert(ss[i - 1] == s.subrange((i - 1) * k, i * k));
        assert(concat_model(ss.take(i)) == s.take(i * k));
    }
}

/// Splitting a vector into consecutive chunks of `k` elements and then
/// concatenating the chunks reproduces the first `k * (len / k)` elements
/// of the vector, in order.
pub proof fn lemma_split_then_concat<ELEM>(s: Seq<ELEM>, k: nat)
    requires
        k > 0,
    ensures
        concat_model(split_model(s, k)) == s.take(((s.len() / k) * k) as int),
{
    let count = (s.len() / k) as int;
    lemma_split_concat_prefix(s, k, count);
    assert(split_model(s, k).take(count) =~= split_model(s, k));
}

/// A unifying interface for regular vectors, bit vectors and unit vectors.
pub trait GenVector<ELEM: Copy>: Sized {
    /// The mathematical contents of the vector.
    spec fn model(&self) -> Seq<ELEM>;

    /// Constructs a new empty vector.
    fn new() -> (r: Self)
        ensures
            r.model() == Seq::<ELEM>::empty(),
    ;

    /// Constructs a new empty vector with the specified capacity.
    fn with_capacity(capacity: usize) -> (r: Self)
        ensures
            r.model() == Seq::<ELEM>::empty(),
    ;

    /// Clears the vector, removing all values.
    fn clear(&mut self)
        ensures
            final(self).model() == Seq::<ELEM>::empty(),
    ;

    /// Shortens the vector, keeping the first `new_len` many elements.
    fn truncate(&mut self, new_len: usize)
        requires
            new_len <= old(self).model().len(),
        ensures
            final(self).model() == old(self).model().take(new_len as int),
    ;

    /// Resizes the vector so that its length equals `new_len`, appending
    /// copies of `elem` when growing.
    fn resize(&mut self, new_len: usize, elem: ELEM)
        ensures
            final(self).model() == resize_model(old(self).model(), new_len as nat, elem),
    ;

    /// Reserves capacity for at least `additional` more elements.
    fn reserve(&mut self, additional: usize)
        requires
            old(self).model().len() + additional <= usize::MAX,
        ensures
            final(self).model() == old(self).model(),
    ;

    /// Appends an element to the back of the vector.
    fn push(&mut self, elem: ELEM)
        requires
            old(self).model().len() < usize::MAX,
        ensures
            final(self).model() == old(self).model().push(elem),
    ;

    /// Removes the last element from the vector and returns it, or `None`
    /// if it is empty.
    fn pop(&mut self) -> (r: Option<ELEM>)
        ensures
            old(self).model().len() == 0 ==> r is None && final(self).model() == old(
                self,
            ).model(),
            old(self).model().len() > 0 ==> r == Some(old(self).model().last())
                && final(self).model() == old(self).model().drop_last(),
    ;

    /// Moves all elements of `other` onto the back of `self`, leaving
    /// `other` empty.
    fn append(&mut self, other: &mut Self)
        requires
            old(self).model().len() + old(other).model().len() <= usize::MAX,
        ensures
            final(self).model() == old(self).model() + old(other).model(),
            final(other).model() == Seq::<ELEM>::empty(),
    ;

    /// Returns the element at the given index.
    fn get(&self, index: usize) -> (r: ELEM)
        requires
            index < self.model().len(),
        ensures
            r == self.model()[index as int],
    ;

    /// Returns the element at the given index; the caller guarantees that
    /// the index is in bounds, so no run-time check is owed.
    fn get_unchecked(&self, index: usize) -> (r: ELEM)
        requires
            index < self.model().len(),
        ensures
            r == self.model()[index as int],
    ;

    /// Sets the element at the given index to the new value.
    fn set(&mut self, index: usize, elem: ELEM)
        requires
            index < old(self).model().len(),
        ensures
            final(self).model() == old(self).model().update(index as int, elem),
    ;

    /// Sets the element at the given index; the caller guarantees that the
    /// index is in bounds, so no run-time check is owed.
    fn set_unchecked(&mut self, index: usize, elem: ELEM)
        requires
            index < old(self).model().len(),
        ensures
            final(self).model() == old(self).model().update(index as int, elem),
    ;

    /// Returns the number of elements in the vector.
    fn len(&self) -> (r: usize)
        ensures
            r == self.model().len(),
    ;

    /// Returns `true` if the length is zero.
    fn is_empty(&self) -> (r: bool)
        ensures
            r == (self.model().len() == 0),
    ;

    /// Returns the number of elements the vector can hold without
    /// reallocating; never below the current length.
    fn capacity(&self) -> (r: usize)
        ensures
            r >= self.model().len(),
    ;

    /// Returns a vector holding the same elements.
    fn clone_of(&self) -> (r: Self)
        ensures
            r.model() == self.model(),
    {
        let n = self.len();
        let mut vec = Self::with_capacity(n);
        let mut i: usize = 0;
        while i < n
            invariant
                i <= n,
                n == self.model().len(),
                vec.model() == self.model().take(i as int),
            decreases n - i,
        {
            vec.push(self.get(i));
            proof {
                assert(vec.model() =~= self.model().take(i + 1 as int));
            }
            i = i + 1;
        }
        proof {
            assert(vec.model() =~= self.model());
        }
        vec
    }

    /// Creates a vector with a single element.
    fn from_elem(elem: ELEM) -> (r: Self)
        ensures
            r.model() == seq![elem],
    {
        let mut vec = Self::with_capacity(1);
        vec.push(elem);
        proof {
            assert(vec.model() =~= seq![elem]);
        }
        vec
    }

    /// Concatenates the given vectors into a new one.
    fn concat(parts: Vec<Self>) -> (r: Self)
        requires
            concat_model(parts@.map_values(|p: Self| p.model())).len() <= usize::MAX,
        ensures
            r.model() == concat_model(parts@.map_values(|p: Self| p.model())),
    {
        let ghost ss = parts@.map_values(|p: Self| p.model());
        let mut result = Self::new();
        let mut i: usize = 0;
        while i < parts.len()
            invariant
                i <= parts.len(),
                ss == parts@.map_values(|p: Self| p.model()),
                concat_model(ss).len() <= usize::MAX,
                result.model() == concat_model(ss.take(i as int)),
            decreases parts.len() - i,
        {
            let part = &parts[i];
            let n = part.len();
            let mut j: usize = 0;
            while j < n
                invariant
                    i < parts.len(),
                    j <= n,
                    n == part.model().len(),
                    part == &parts[i as int],
                    ss == parts@.map_values(|p: Self| p.model()),
                    concat_model(ss).len() <= usize::MAX,
                    result.model() == concat_model(ss.take(i as int)) + part.model().take(
                        j as int,
                    ),
                decreases n - j,
            {
                proof {
                    lemma_concat_model_take_len(ss, i as int);
                    assert(ss[i as int] == part.model());
                }
                result.push(part.get(j));
                proof {
                    assert(result.model() =~= concat_model(ss.take(i as int))
                        + part.model().take(j + 1 as int));
                }
                j = j + 1;
            }
            proof {
                lemma_concat_model_take_step(ss, i as int);
                assert(part.model().take(n as int) =~= part.model());
            }
            i = i + 1;
        }
        proof {
            assert(ss.take(parts@.len() as int) =~= ss);
        }
        result
    }

    /// Splits this vector into consecutive chunks of `len` elements each,
    /// dropping a final remainder; a `len` of zero is allowed only on an
    /// empty vector.
    fn split(self, len: usize) -> (r: Vec<Self>)
        requires
            self.model().len() == 0 || len > 0,
        ensures
            r@.map_values(|p: Self| p.model()) == split_model(self.model(), len as nat),
    {
        let ghost s = self.model();
        let n = self.len();
        if n == 0 {
            let r: Vec<Self> = Vec::new();
            proof {
                assert(split_model(s, len as nat).len() == 0);
                assert(r@.map_values(|p: Self| p.model()).len() == 0);
                assert(r@.map_values(|p: Self| p.model()) =~= split_model(s, len as nat));
            }
            return r;
        }
        let count = n / len;
        proof {
            vstd::arithmetic::div_mod::lemma_fundamental_div_mod(n as int, len as int);
            vstd::arithmetic::div_mod::lemma_div_pos_is_pos(n as int, len as int);
        }
        let mut r: Vec<Self> = Vec::with_capacity(count);
        let mut i: usize = 0;
        while i < count
            invariant
                i <= count,
                count == s.len() / len as nat,
                len > 0,
                count * len <= s.len(),
                s == self.model(),
                n == s.len(),
                r@.len() == i,
                forall|p: int|
                    0 <= p < i ==> r@[p].model() == s.subrange(p * len, p * len + len),
            decreases count - i,
        {
            proof {
                assert((i + 1) * len <= count * len) by (nonlinear_arith)
                    requires
                        i + 1 <= count,
                        len >= 0,
                ;
                assert(i * len + len == (i + 1) * len) by (nonlinear_arith);
            }
            let base = i * len;
            let mut chunk = Self::with_capacity(len);
            let mut j: usize = 0;
            while j < len
                invariant
                    j <= len,
                    s == self.model(),
                    n == s.len(),
                    base == i * len,
                    base + len <= s.len(),
                    chunk.model() == s.subrange(base as int, base + j as int),
                decreases len - j,
            {
                chunk.push(self.get(base + j));
                proof {
                    assert(chunk.model() =~= s.subrange(base as int, base + (j + 1) as int));
                }
                j = j + 1;
            }
            r.push(chunk);
            i = i + 1;
        }
        proof {
            assert(r@.map_values(|p: Self| p.model()) =~= split_model(s, len as nat));
        }
        r
    }
}

/// A wrapper around standard containers to present them as generic vectors.
#[derive(Clone, Debug, PartialEq, Eq)]
pub struct Wrapper<DATA>(pub DATA);

/// Relies on std's Vec::capacity: the number of elements the vector can
/// hold without reallocating, which is never below its length.
#[verifier::external_body]
fn vec_capacity<T>(v: &Vec<T>) -> (r: usize)
    ensures
        r >= v@.len(),
{
    v.capacity()
}

impl<ELEM: Copy> GenVector<ELEM> for Wrapper<Vec<ELEM>> {
    open spec fn model(&self) -> Seq<ELEM> {
        self.0@
    }

    fn new() -> (r: Self) {
        Wrapper(Vec::new())
    }

    fn with_capacity(capacity: usize) -> (r: Self) {
        Wrapper(Vec::with_capacity(capacity))
    }

    fn clear(&mut self) {
        self.0.clear();
    }

    fn truncate(&mut self, new_len: usize) {
        self.0.truncate(new_len);
    }

    fn resize(&mut self, new_len: usize, elem: ELEM) {
        if new_len <= self.0.len() {
            self.0.truncate(new_len);
        } else {
            while self.0.len() < new_len
                invariant
                    old(self).model().len() < new_len <= usize::MAX,
                    old(self).model().len() <= self.0@.len() <= new_len,
                    self.0@.take(old(self).model().len() as int) == old(self).model(),
                    forall|i: int|
                        old(self).model().len() <= i < self.0@.len() ==> self.0@[i] == elem,
                decreases new_len - self.0.len(),
            {
                self.0.push(elem);
            }
            proof {
                assert(self.0@ =~= resize_model(old(self).model(), new_len as nat, elem));
            }
        }
    }

    fn reserve(&mut self, additional: usize) {
        self.0.reserve(additional);
    }

    fn push(&mut self, elem: ELEM) {
        self.0.push(elem);
    }

    fn pop(&mut self) -> (r: Option<ELEM>) {
        self.0.pop()
    }

    fn append(&mut self, other: &mut Self) {
        self.0.append(&mut other.0);
    }

    fn get(&self, index: usize) -> (r: ELEM) {
        self.0[index]
    }

    fn get_unchecked(&self, index: usize) -> (r: ELEM) {
        self.0[index]
    }

    fn set(&mut self, index: usize, elem: ELEM) {
        self.0[index] = elem;
    }

    fn set_unchecked(&mut self, index: usize, elem: ELEM) {
        self.0[index] = elem;
    }

    fn len(&self) -> (r: usize) {
        self.0.len()
    }

    fn is_empty(&self) -> (r: bool) {
        self.0.len() == 0
    }

    fn capacity(&self) -> (r: usize) {
        vec_capacity(&self.0)
    }
}

#[verifier::external_type_specification]
#[verifier::external_body]
#[verifier::reject_recursive_types(B)]
pub struct ExBitVec<B>(bit_vec::BitVec<B>);

/// The sequence of bits that a bit-packed vector holds.
pub uninterp spec fn bit_model(v: bit_vec::BitVec) -> Seq<bool>;

/// Relies on bit_vec::BitVec::new: an empty bit vector.
#[verifier::external_body]
fn bitvec_new() -> (r: bit_vec::BitVec)
    ensures
        bit_model(r) == Seq::<bool>::empty(),
{
    bit_vec::BitVec::new()
}

/// Relies on bit_vec::BitVec::with_capacity: an empty bit vector that can
/// hold `capacity` bits without reallocating.
#[verifier::external_body]
fn bitvec_with_capacity(capacity: usize) -> (r: bit_vec::BitVec)
    ensures
        bit_model(r) == Seq::<bool>::empty(),
{
    bit_vec::BitVec::with_capacity(capacity)
}

/// Relies on bit_vec::BitVec::push: appends one bit at the back; it panics
/// only when the length would overflow `usize`.
#[verifier::external_body]
fn bitvec_push(v: &mut bit_vec::BitVec, elem: bool)
    requires
        bit_model(*old(v)).len() < usize::MAX,
    ensures
        bit_model(*final(v)) == bit_model(*old(v)).push(elem),
{
    v.push(elem);
}

/// Relies on bit_vec::BitVec::pop: removes and returns the last bit, or
/// `None` when the vector is empty.
#[verifier::external_body]
fn bitvec_pop(v: &mut bit_vec::BitVec) -> (r: Option<bool>)
    ensures
        bit_model(*old(v)).len() == 0 ==> r is None && bit_model(*final(v)) == bit_model(
            *old(v),
        ),
        bit_model(*old(v)).len() > 0 ==> r == Some(bit_model(*old(v)).last()) && bit_model(
            *final(v),
        ) == bit_model(*old(v)).drop_last(),
{
    v.pop()
}

/// Relies on bit_vec::BitVec::get: the bit at the index, `Some` exactly when
/// the index is in bounds.
#[verifier::external_body]
fn bitvec_get(v: &bit_vec::BitVec, index: usize) -> (r: bool)
    requires
        index < bit_model(*v).len(),
    ensures
        r == bit_model(*v)[index as int],
{
    v.get(index).unwrap()
}

/// Relies on bit_vec::BitVec::set: overwrites the bit at the index; it
/// panics only when the index is out of bounds.
#[verifier::external_body]
fn bitvec_set(v: &mut bit_vec::BitVec, index: usize, elem: bool)
    requires
        index < bit_model(*old(v)).len(),
    ensures
        bit_model(*final(v)) == bit_model(*old(v)).update(index as int, elem),
{
    v.set(index, elem);
}

/// Relies on bit_vec::BitVec::truncate: keeps the first `new_len` bits and
/// does nothing when `new_len` is not below the length.
#[verifier::external_body]
fn bitvec_truncate(v: &mut bit_vec::BitVec, new_len: usize)
    requires
        new_len <= bit_model(*old(v)).len(),
    ensures
        bit_model(*final(v)) == bit_model(*old(v)).take(new_len as int),
{
    v.truncate(new_len);
}

/// Relies on bit_vec::BitVec::grow: appends `n` copies of `elem`; it panics
/// only when the length would overflow `usize`.
#[verifier::external_body]
fn bitvec_grow(v: &mut bit_vec::BitVec, n: usize, elem: bool)
    requires
        bit_model(*old(v)).len() + n <= usize::MAX,
    ensures
        bit_model(*final(v)) == bit_model(*old(v)) + Seq::new(n as nat, |i: int| elem),
{
    v.grow(n, elem);
}

/// Relies on bit_vec::BitVec::append: moves all bits of `other` onto the
/// back of `v`, leaving `other` empty.
#[verifier::external_body]
fn bitvec_append(v: &mut bit_vec::BitVec, other: &mut bit_vec::BitVec)
    requires
        bit_model(*old(v)).len() + bit_model(*old(other)).len() <= usize::MAX,
    ensures
        bit_model(*final(v)) == bit_model(*old(v)) + bit_model(*old(other)),
        bit_model(*final(other)) == Seq::<bool>::empty(),
{
    v.append(other);
}

/// Relies on bit_vec::BitVec::reserve: reserves room for `additional` more
/// bits without changing the contents; it panics only when the requested
/// capacity would overflow `usize`.
#[verifier::external_body]
fn bitvec_reserve(v: &mut bit_vec::BitVec, additional: usize)
    requires
        bit_model(*old(v)).len() + additional <= usize::MAX,
    ensures
        bit_model(*final(v)) == bit_model(*old(v)),
{
    v.reserve(additional);
}

/// Relies on bit_vec::BitVec::len: the number of bits held.
#[verifier::external_body]
fn bitvec_len(v: &bit_vec::BitVec) -> (r: usize)
    ensures
        r == bit_model(*v).len(),
{
    v.len()
}

/// Relies on bit_vec::BitVec::capacity: the number of bits the vector can
/// hold without reallocating, never below its length.
#[verifier::external_body]
fn bitvec_capacity(v: &bit_vec::BitVec) -> (r: usize)
    ensures
        r >= bit_model(*v).len(),
{
    v.capacity()
}

impl GenVector<bool> for Wrapper<bit_vec::BitVec> {
    open spec fn model(&self) -> Seq<bool> {
        bit_model(self.0)
    }

    fn new() -> (r: Self) {
        Wrapper(bitvec_new())
    }

    fn with_capacity(capacity: usize) -> (r: Self) {
        Wrapper(bitvec_with_capacity(capacity))
    }

    fn clear(&mut self) {
        bitvec_truncate(&mut self.0, 0);
        proof {
            assert(final(self).model() =~= Seq::<bool>::empty());
        }
    }

    fn truncate(&mut self, new_len: usize) {
        bitvec_truncate(&mut self.0, new_len);
    }

    fn resize(&mut self, new_len: usize, elem: bool) {
        let len = bitvec_len(&self.0);
        if new_len <= len {
            bitvec_truncate(&mut self.0, new_len);
        } else {
            bitvec_grow(&mut self.0, new_len - len, elem);
        }
    }

    fn reserve(&mut self, additional: usize) {
        bitvec_reserve(&mut self.0, additional);
    }

    fn push(&mut self, elem: bool) {
        bitvec_push(&mut self.0, elem);
    }

    fn pop(&mut self) -> (r: Option<bool>) {
        bitvec_pop(&mut self.0)
    }

    fn append(&mut self, other: &mut Self) {
        bitvec_append(&mut self.0, &mut other.0);
    }

    fn get(&self, index: usize) -> (r: bool) {
        bitvec_get(&self.0, index)
    }

    fn get_unchecked(&self, index: usize) -> (r: bool) {
        bitvec_get(&self.0, index)
    }

    fn set(&mut self, index: usize, elem: bool) {
        bitvec_set(&mut self.0, index, elem);
    }

    fn set_unchecked(&mut self, index: usize, elem: bool) {
        bitvec_set(&mut self.0, index, elem);
    }

    fn len(&self) -> (r: usize) {
        bitvec_len(&self.0)
    }

    fn is_empty(&self) -> (r: bool) {
        bitvec_len(&self.0) == 0
    }

    fn capacity(&self) -> (r: usize) {
        bitvec_capacity(&self.0)
    }
}

/// The element of the unit storage: a value carrying no information.
#[derive(Clone, Copy, Debug, PartialEq, Eq)]
pub struct Unit;

/// A vector containing unit elements only; just the length is stored.
#[derive(Clone, Copy, Debug, PartialEq, Eq)]
pub struct UnitVec {
    len: usize,
}

impl GenVector<Unit> for UnitVec {
    closed spec fn model(&self) -> Seq<Unit> {
        Seq::new(self.len as nat, |i: int| Unit)
    }

    fn new() -> (r: Self) {
        UnitVec { len: 0 }
    }

    fn with_capacity(capacity: usize) -> (r: Self) {
        UnitVec { len: 0 }
    }

    fn clear(&mut self) {
        self.len = 0;
    }

    fn truncate(&mut self, new_len: usize) {
        self.len = new_len;
        proof {
            assert(final(self).model() =~= old(self).model().take(new_len as int));
        }
    }

    fn resize(&mut self, new_len: usize, elem: Unit) {
        self.len = new_len;
        proof {
            assert(final(self).model() =~= resize_model(
                old(self).model(),
                new_len as nat,
                elem,
            ));
        }
    }

    fn reserve(&mut self, additional: usize) {
    }

    fn push(&mut self, elem: Unit) {
        self.len = self.len + 1;
        proof {
            assert(final(self).model() =~= old(self).model().push(elem));
        }
    }

    fn pop(&mut self) -> (r: Option<Unit>) {
        if self.len > 0 {
            self.len = self.len - 1;
            proof {
                assert(final(self).model() =~= old(self).model().drop_last());
            }
            Some(Unit)
        } else {
            None
        }
    }

    fn append(&mut self, other: &mut Self) {
        self.len = self.len + other.len;
        other.len = 0;
        proof {
            assert(final(self).model() =~= old(self).model() + old(other).model());
            assert(final(other).model() =~= Seq::<Unit>::empty());
        }
    }

    fn get(&self, index: usize) -> (r: Unit) {
        Unit
    }

    fn get_unchecked(&self, index: usize) -> (r: Unit) {
        Unit
    }

    fn set(&mut self, index: usize, elem: Unit) {
    }

    fn set_unchecked(&mut self, index: usize, elem: Unit) {
    }

    fn len(&self) -> (r: usize) {
        self.len
    }

    fn is_empty(&self) -> (r: bool) {
        self.len == 0
    }

    fn capacity(&self) -> (r: usize) {
        usize::MAX
    }
}

/// A trait for elements that can be stored in a generic vector.
pub trait GenElem: Copy + Sized {
    /// The storage type used for vectors of this element.
    type GenVector: GenVector<Self>;
}

impl GenElem for bool {
    type GenVector = Wrapper<bit_vec::BitVec>;
}

impl GenElem for usize {
    type GenVector = Wrapper<Vec<usize>>;
}

impl GenElem for Unit {
    type GenVector = UnitVec;
}

/// The generic vector type that holds the given element.
pub type GenVec<ELEM> = <ELEM as GenElem>::GenVector;

} // verus!
