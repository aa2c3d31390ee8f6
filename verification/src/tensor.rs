//! Multidimensional array shapes, row-major indexing and the polymer
//! reindexing operation.

use vstd::prelude::*;
use crate::boolean::{BoolAlg, BoolSat};
use crate::genvec::{GenElem, GenVec, GenVector};

verus! {

/// The number of elements a sequence of dimensions spans: their product,
/// the empty product being one.
pub open spec fn size_model(dims: Seq<usize>) -> nat
    decreases dims.len(),
{
    if dims.len() == 0 {
        1
    } else {
        (dims.first() as nat) * size_model(dims.drop_first())
    }
}

/// The row-major linear index of the given coordinates: the first
/// coordinate varies fastest.
pub open spec fn index_model(dims: Seq<usize>, coords: Seq<usize>) -> nat
    decreases dims.len(),
{
    if dims.len() == 0 {
        0
    } else {
        (coords.first() as nat) + (dims.first() as nat) * index_model(
            dims.drop_first(),
            coords.drop_first(),
        )
    }
}

/// Whether the coordinates address a cell of the given dimensions.
pub open spec fn coords_in(dims: Seq<usize>, coords: Seq<usize>) -> bool {
    coords.len() == dims.len() && forall|i: int|
        0 <= i < dims.len() ==> coords[i] < dims[i]
}

/// Every contiguous run of dimensions spans at most `usize::MAX` elements,
/// so each partial product of a size or stride computation fits.
pub open spec fn dims_fit(dims: Seq<usize>) -> bool {
    forall|i: int, j: int|
        0 <= i <= j <= dims.len() ==> size_model(#[trigger] dims.subrange(i, j))
            <= usize::MAX
}

/// Appending a dimension multiplies the size.
pub proof fn lemma_size_model_push(dims: Seq<usize>, d: usize)
    ensures
        size_model(dims.push(d)) == size_model(dims) * d,
    decreases dims.len(),
{
    if dims.len() == 0 {
        assert(dims.push(d).drop_first() =~= Seq::<usize>::empty());
        assert(size_model(Seq::<usize>::empty()) == 1);
        assert(dims.push(d).first() == d);
        assert(size_model(dims.push(d)) == (d as nat) * 1);
        assert(size_model(dims) == 1);
    } else {
        assert(dims.push(d).drop_first() =~= dims.drop_first().push(d));
        assert(dims.push(d).first() == dims.first());
        lemma_size_model_push(dims.drop_first(), d);
        assert(size_model(dims.push(d)) == (dims.first() as nat) * (size_model(
            dims.drop_first(),
        ) * d));
        assert((dims.first() as nat) * (size_model(dims.drop_first()) * d) == ((
        dims.first() as nat) * size_model(dims.drop_first())) * d) by (nonlinear_arith);
    }
}

/// Appending a coordinate-dimension pair extends the row-major index by the
/// coordinate times the size of the earlier dimensions.
pub proof fn lemma_index_model_push(dims: Seq<usize>, coords: Seq<usize>, d: usize, c: usize)
    requires
        dims.len() == coords.len(),
    ensures
        index_model(dims.push(d), coords.push(c)) == index_model(dims, coords) + (
        c as nat) * size_model(dims),
    decreases dims.len(),
{
    if dims.len() == 0 {
        assert(dims.push(d).drop_first() =~= Seq::<usize>::empty());
        assert(coords.push(c).drop_first() =~= Seq::<usize>::empty());
        assert(index_model(Seq::<usize>::empty(), Seq::<usize>::empty()) == 0);
        assert(dims.push(d).first() == d);
        assert(coords.push(c).first() == c);
        assert(index_model(dims.push(d), coords.push(c)) == (c as nat) + (d as nat) * 0);
        assert(index_model(dims, coords) == 0);
        assert(size_model(dims) == 1);
    } else {
        assert(dims.push(d).drop_first() =~= dims.drop_first().push(d));
        assert(coords.push(c).drop_first() =~= coords.drop_first().push(c));
        lemma_index_model_push(dims.drop_first(), coords.drop_first(), d, c);
        let d0 = dims.first() as nat;
        let rest = index_model(dims.drop_first(), coords.drop_first());
        let add = (c as nat) * size_model(dims.drop_first());
        let c0 = coords.first() as nat;
        assert(index_model(dims.push(d), coords.push(c)) == c0 + d0 * (rest + add));
        assert(d0 * (rest + add) == d0 * rest + d0 * add) by (nonlinear_arith);
        assert(d0 * ((c as nat) * size_model(dims.drop_first())) == (c as nat) * (d0
            * size_model(dims.drop_first()))) by (nonlinear_arith);
        assert(index_model(dims, coords) == c0 + d0 * rest);
        assert(size_model(dims) == d0 * size_model(dims.drop_first()));
    }
}

/// The row-major index of in-range coordinates lies below the size.
pub proof fn lemma_index_model_bound(dims: Seq<usize>, coords: Seq<usize>)
    requires
        coords_in(dims, coords),
    ensures
        index_model(dims, coords) < size_model(dims),
    decreases dims.len(),
{
    if dims.len() == 0 {
    } else {
        assert(coords_in(dims.drop_first(), coords.drop_first()));
        lemma_index_model_bound(dims.drop_first(), coords.drop_first());
        let d0 = dims.first() as nat;
        let c0 = coords.first() as nat;
        let rest = index_model(dims.drop_first(), coords.drop_first());
        let restsize = size_model(dims.drop_first());
        assert(c0 < d0);
        assert(c0 + d0 * rest < d0 * restsize) by (nonlinear_arith)
            requires
                c0 < d0,
                rest < restsize,
        ;
    }
}

/// A shape: an ordered sequence of dimension sizes, every contiguous run of
/// which spans at most `usize::MAX` elements.
#[derive(Clone, Debug, PartialEq, Eq)]
pub struct Shape {
    dims: Vec<usize>,
}

impl Shape {
    /// The sequence of dimension sizes.
    pub closed spec fn model(&self) -> Seq<usize> {
        self.dims@
    }

    /// A shape is well formed when each partial product of its size and
    /// stride computations fits a `usize`.
    pub open spec fn wf(&self) -> bool {
        dims_fit(self.model())
    }

    /// Creates a new shape object.
    pub fn new(dims: Vec<usize>) -> (r: Self)
        requires
            dims_fit(dims@),
        ensures
            r.model() == dims@,
            r.wf(),
    {
        Shape { dims }
    }

    /// The number of dimensions.
    pub fn len(&self) -> (r: usize)
        ensures
            r == self.model().len(),
    {
        self.dims.len()
    }

    /// Checks if the number of dimensions is zero.
    pub fn is_empty(&self) -> (r: bool)
        ensures
            r == (self.model().len() == 0),
    {
        self.dims.len() == 0
    }

    /// Checks if all dimensions are equal to the given one.
    pub fn is_rectangular(&self, dim: usize) -> (r: bool)
        ensures
            r == (forall|i: int| 0 <= i < self.model().len() ==> self.model()[i] == dim),
    {
        let mut i: usize = 0;
        while i < self.dims.len()
            invariant
                i <= self.dims.len(),
                forall|j: int| 0 <= j < i ==> self.dims@[j] == dim,
            decreases self.dims.len() - i,
        {
            if self.dims[i] != dim {
                proof {
                    assert(self.model()[i as int] != dim);
                }
                return false;
            }
            i = i + 1;
        }
        true
    }

    /// Returns the head and tail of this shape; the shape must have at
    /// least one dimension.
    pub fn split(&self) -> (r: (usize, Self))
        requires
            self.wf(),
            self.model().len() > 0,
        ensures
            r.0 == self.model()[0],
            r.1.model() == self.model().drop_first(),
            r.1.wf(),
    {
        proof {
            lemma_dims_fit_subrange(self.dims@, 1, self.dims@.len() as int);
        }
        let mut tail: Vec<usize> = Vec::new();
        let mut i: usize = 1;
        while i < self.dims.len()
            invariant
                1 <= i <= self.dims.len(),
                self.dims@.len() > 0,
                tail@ == self.dims@.subrange(1, i as int),
            decreases self.dims.len() - i,
        {
            tail.push(self.dims[i]);
            proof {
                assert(tail@ =~= self.dims@.subrange(1, i + 1 as int));
            }
            i = i + 1;
        }
        proof {
            assert(tail@ =~= self.dims@.drop_first());
        }
        proof {
            assert(dims_fit(tail@));
        }
        (self.dims[0], Shape { dims: tail })
    }

    /// Returns the number of elements this shape represents.
    pub fn size(&self) -> (r: usize)
        requires
            self.wf(),
        ensures
            r == size_model(self.model()),
    {
        let mut size: usize = 1;
        let mut i: usize = 0;
        while i < self.dims.len()
            invariant
                i <= self.dims.len(),
                dims_fit(self.dims@),
                size == size_model(self.dims@.take(i as int)),
            decreases self.dims.len() - i,
        {
            proof {
                lemma_size_model_take_step(self.dims@, i as int);
                assert(self.dims@.take(i + 1) =~= self.dims@.subrange(0, i + 1));
            }
            size = size * self.dims[i];
            i = i + 1;
        }
        proof {
            assert(self.dims@.take(self.dims@.len() as int) =~= self.dims@);
        }
        size
    }
}

impl Shape {
    /// Returns a new shape with the given dimensions spliced in at the
    /// given position.
    pub fn insert(&self, pos: usize, dims: &[usize]) -> (r: Self)
        requires
            self.wf(),
            pos <= self.model().len(),
            dims_fit(self.model().take(pos as int) + dims@ + self.model().skip(pos as int)),
        ensures
            r.model() == self.model().take(pos as int) + dims@ + self.model().skip(
                pos as int,
            ),
            r.wf(),
    {
        let ghost target = self.model().take(pos as int) + dims@ + self.model().skip(
            pos as int,
        );
        let mut dims2: Vec<usize> = Vec::new();
        let mut i: usize = 0;
        while i < pos
            invariant
                i <= pos <= self.model().len(),
                dims2@ == self.model().take(i as int),
            decreases pos - i,
        {
            dims2.push(self.dims[i]);
            proof {
                assert(dims2@ =~= self.model().take(i + 1 as int));
            }
            i = i + 1;
        }
        let mut j: usize = 0;
        while j < dims.len()
            invariant
                j <= dims@.len(),
                pos <= self.model().len(),
                dims2@ == self.model().take(pos as int) + dims@.take(j as int),
            decreases dims@.len() - j,
        {
            dims2.push(dims[j]);
            proof {
                assert(dims2@ =~= self.model().take(pos as int) + dims@.take(j + 1 as int));
            }
            j = j + 1;
        }
        let mut k: usize = pos;
        while k < self.dims.len()
            invariant
                pos <= k <= self.model().len(),
                dims2@ == self.model().take(pos as int) + dims@ + self.model().subrange(
                    pos as int,
                    k as int,
                ),
            decreases self.dims@.len() - k,
        {
            dims2.push(self.dims[k]);
            proof {
                assert(dims2@ =~= self.model().take(pos as int) + dims@
                    + self.model().subrange(pos as int, k + 1 as int));
            }
            k = k + 1;
        }
        proof {
            assert(dims@.take(dims@.len() as int) =~= dims@);
            assert(dims2@ =~= target);
        }
        Shape::new(dims2)
    }

    /// Creates a mapping suitable for a polymer operation: the initial
    /// segment is the given partial mapping, whose entries must lie below
    /// `rest`, and the remaining entries count up from `rest`.
    pub fn mapping(&self, part: &[usize], rest: usize) -> (r: Vec<usize>)
        requires
            part@.len() <= self.model().len(),
            forall|i: int| 0 <= i < part@.len() ==> part@[i] < rest,
            rest + (self.model().len() - part@.len()) <= usize::MAX,
        ensures
            r@.len() == self.model().len(),
            forall|i: int| 0 <= i < part@.len() ==> r@[i] == part@[i],
            forall|i: int|
                part@.len() <= i < self.model().len() ==> r@[i] == rest + (i - part@.len()),
    {
        let mut mapping: Vec<usize> = Vec::with_capacity(self.dims.len());
        let mut i: usize = 0;
        while i < part.len()
            invariant
                i <= part@.len() <= self.model().len(),
                mapping@.len() == i,
                forall|j: int| 0 <= j < i ==> mapping@[j] == part@[j],
            decreases part@.len() - i,
        {
            mapping.push(part[i]);
            i = i + 1;
        }
        let count = self.dims.len() - part.len();
        let mut j: usize = 0;
        while j < count
            invariant
                j <= count,
                count == self.model().len() - part@.len(),
                rest + count <= usize::MAX,
                mapping@.len() == part@.len() + j,
                forall|k: int| 0 <= k < part@.len() ==> mapping@[k] == part@[k],
                forall|k: int|
                    part@.len() <= k < part@.len() + j ==> mapping@[k] == rest + (k
                        - part@.len()),
            decreases count - j,
        {
            mapping.push(rest + j);
            j = j + 1;
        }
        mapping
    }

    /// Returns the row-major linear index of the element at the given
    /// coordinates; each coordinate must lie below its dimension.
    fn index(&self, coords: &[usize]) -> (r: usize)
        requires
            self.wf(),
            coords_in(self.model(), coords@),
        ensures
            r == index_model(self.model(), coords@),
            r < size_model(self.model()),
    {
        proof {
            lemma_index_model_bound(self.model(), coords@);
        }
        let mut index: usize = 0;
        let mut size: usize = 1;
        let mut i: usize = 0;
        while i < self.dims.len()
            invariant
                i <= self.dims@.len(),
                self.wf(),
                coords_in(self.model(), coords@),
                size == size_model(self.model().take(i as int)),
                index == index_model(self.model().take(i as int), coords@.take(i as int)),
                index < size,
            decreases self.dims@.len() - i,
        {
            let ghost di = self.model().take(i as int);
            let ghost ci = coords@.take(i as int);
            proof {
                lemma_size_model_take_step(self.model(), i as int);
                lemma_index_model_push(di, ci, self.model()[i as int], coords@[i as int]);
                assert(self.model().take(i + 1) =~= di.push(self.model()[i as int]));
                assert(coords@.take(i + 1) =~= ci.push(coords@[i as int]));
                assert(index + (coords@[i as int] as nat) * size < size * (
                self.model()[i as int] as nat)) by (nonlinear_arith)
                    requires
                        index < size,
                        (coords@[i as int] as nat) < (self.model()[i as int] as nat),
                ;
            }
            index = index + coords[i] * size;
            size = size * self.dims[i];
            i = i + 1;
        }
        proof {
            assert(self.model().take(self.model().len() as int) =~= self.model());
            assert(coords@.take(coords@.len() as int) =~= coords@);
        }
        index
    }

    /// Returns the vector of strides for linear indexing: the stride of a
    /// dimension is the product of the dimensions before it.
    fn strides(&self) -> (r: Vec<usize>)
        requires
            self.wf(),
        ensures
            r@.len() == self.model().len(),
            forall|i: int|
                0 <= i < r@.len() ==> r@[i] == size_model(self.model().take(i)),
    {
        let mut strides: Vec<usize> = Vec::with_capacity(self.dims.len());
        let mut size: usize = 1;
        let mut i: usize = 0;
        while i < self.dims.len()
            invariant
                i <= self.dims@.len(),
                self.wf(),
                size == size_model(self.model().take(i as int)),
                strides@.len() == i,
                forall|j: int|
                    0 <= j < i ==> strides@[j] == size_model(self.model().take(j)),
            decreases self.dims@.len() - i,
        {
            proof {
                lemma_size_model_take_step(self.model(), i as int);
            }
            strides.push(size);
            size = size * self.dims[i];
            i = i + 1;
        }
        strides
    }
}

/// The size of concatenated dimensions is the product of the sizes.
pub proof fn lemma_size_model_concat(a: Seq<usize>, b: Seq<usize>)
    ensures
        size_model(a + b) == size_model(a) * size_model(b),
    decreases a.len(),
{
    if a.len() == 0 {
        assert(a + b =~= b);
        assert(size_model(a) == 1);
        assert(1 * size_model(b) == size_model(b)) by (nonlinear_arith);
    } else {
        assert((a + b).drop_first() =~= a.drop_first() + b);
        assert((a + b).first() == a.first());
        lemma_size_model_concat(a.drop_first(), b);
        assert((a.first() as nat) * (size_model(a.drop_first()) * size_model(b)) == ((
        a.first() as nat) * size_model(a.drop_first())) * size_model(b))
            by (nonlinear_arith);
    }
}

/// The source coordinates that a polymer mapping assigns to the given
/// target coordinates: source dimension `i` reads target coordinate
/// `mapping[i]`.
pub open spec fn map_coords(coords: Seq<usize>, mapping: Seq<usize>) -> Seq<usize> {
    Seq::new(mapping.len(), |i: int| coords[mapping[i] as int])
}

/// A multidimensional array of elements over the storage selected by the
/// element type.
pub struct Tensor<ELEM: GenElem> {
    shape: Shape,
    elems: GenVec<ELEM>,
}

impl<ELEM: GenElem> Tensor<ELEM> {
    /// The dimension sizes of the tensor.
    pub closed spec fn shape_model(&self) -> Seq<usize> {
        self.shape.model()
    }

    /// The flat row-major contents of the tensor.
    pub closed spec fn elems_model(&self) -> Seq<ELEM> {
        self.elems.model()
    }

    /// A tensor is well formed when its shape is and its storage holds
    /// exactly one element per cell.
    pub open spec fn wf(&self) -> bool {
        dims_fit(self.shape_model()) && self.elems_model().len() == size_model(
            self.shape_model(),
        )
    }

    /// The element stored at the given coordinates.
    pub open spec fn cell(&self, coords: Seq<usize>) -> ELEM {
        self.elems_model()[index_model(self.shape_model(), coords) as int]
    }

    /// Creates a tensor of the given shape from the given elements, which
    /// must number exactly the shape's size.
    pub fn new(shape: Shape, elems: GenVec<ELEM>) -> (r: Self)
        requires
            shape.wf(),
            elems.model().len() == size_model(shape.model()),
        ensures
            r.shape_model() == shape.model(),
            r.elems_model() == elems.model(),
            r.wf(),
    {
        Tensor { shape, elems }
    }

    /// Creates a tensor filled with a constant value.
    pub fn constant(shape: Shape, elem: ELEM) -> (r: Self)
        requires
            shape.wf(),
        ensures
            r.shape_model() == shape.model(),
            r.elems_model() == Seq::new(size_model(shape.model()), |i: int| elem),
            r.wf(),
    {
        let size = shape.size();
        let mut elems: GenVec<ELEM> = GenVector::with_capacity(size);
        elems.resize(size, elem);
        proof {
            assert(elems.model() =~= Seq::new(size_model(shape.model()), |i: int| elem));
        }
        Tensor { shape, elems }
    }

    /// Returns the shape of the tensor.
    pub fn shape(&self) -> (r: &Shape)
        ensures
            r.model() == self.shape_model(),
    {
        &self.shape
    }

    /// Returns the element at the given coordinates. The access works one
    /// coordinate at a time, so hot paths should iterate linearly instead.
    pub fn very_slow_get(&self, coords: &[usize]) -> (r: ELEM)
        requires
            self.wf(),
            coords_in(self.shape_model(), coords@),
        ensures
            r == self.cell(coords@),
    {
        proof {
            lemma_index_model_bound(self.shape_model(), coords@);
        }
        self.elems.get(self.shape.index(coords))
    }

    /// Replaces the element at the given coordinates. The access works one
    /// coordinate at a time, so hot paths should iterate linearly instead.
    pub fn very_slow_set(&mut self, coords: &[usize], elem: ELEM)
        requires
            old(self).wf(),
            coords_in(old(self).shape_model(), coords@),
        ensures
            final(self).wf(),
            final(self).shape_model() == old(self).shape_model(),
            final(self).elems_model() == old(self).elems_model().update(
                index_model(old(self).shape_model(), coords@) as int,
                elem,
            ),
    {
        proof {
            lemma_index_model_bound(self.shape_model(), coords@);
        }
        let index = self.shape.index(coords);
        self.elems.set(index, elem);
    }

    /// Creates a new tensor of the given shape from this tensor with
    /// permuted, identified or new dummy coordinates. Entry `i` of the
    /// mapping names the target dimension that dimension `i` of this
    /// tensor corresponds to; every cell of the result holds the source
    /// cell found by reading its coordinates back through the mapping.
    pub fn polymer(&self, shape: Shape, mapping: &[usize]) -> (r: Self)
        requires
            self.wf(),
            shape.wf(),
            mapping@.len() == self.shape_model().len(),
            forall|i: int|
                #![trigger mapping@[i]]
                0 <= i < mapping@.len() ==> mapping@[i] < shape.model().len()
                    && self.shape_model()[i] == shape.model()[mapping@[i] as int],
        ensures
            r.wf(),
            r.shape_model() == shape.model(),
            forall|c: Seq<usize>|
                coords_in(shape.model(), c) ==> #[trigger] r.cell(c) == self.cell(
                    map_coords(c, mapping@),
                ),
            forall|n: int|
                #![trigger r.elems_model()[n]]
                0 <= n < r.elems_model().len() ==> exists|m: int|
                    0 <= m < self.elems_model().len() && r.elems_model()[n]
                        == self.elems_model()[m],
    {
        let ghost tdims = shape.model();
        let ghost sdims = self.shape_model();
        let tsize = shape.size();
        if tsize == 0 {
            let elems: GenVec<ELEM> = GenVector::new();
            let r = Tensor { shape, elems };
            proof {
                lemma_size_model_zero(tdims);
                assert forall|c: Seq<usize>| coords_in(tdims, c) implies #[trigger] r.cell(
                    c,
                ) == self.cell(map_coords(c, mapping@)) by {
                    let j = choose|j: int| 0 <= j < tdims.len() && tdims[j] == 0;
                    assert(c[j] < tdims[j]);
                };
            }
            return r;
        }
        let mut iter = StrideIter::new(&shape);
        let strides = self.shape.strides();
        proof {
            lemma_size_model_zero(tdims);
            assert forall|k: int| #![trigger mapping@[k]] 0 <= k < mapping@.len() implies
                mapping@[k] < tdims.len() && sdims[k] == tdims[mapping@[k] as int] by {
                assert(mapping@[k] < shape.model().len());
                assert(self.shape_model()[k] == shape.model()[mapping@[k] as int]);
            };
            lemma_max_emit_zeros(iter.dims(), iter.strides());
            assert(sdims.take(0) =~= Seq::<usize>::empty());
            assert(size_model(Seq::<usize>::empty()) == 1);
            assert forall|c: Seq<usize>| #![trigger dot_model(c, iter.strides())]
                coords_in(tdims, c) implies dot_model(c, iter.strides()) == index_model(
                sdims.take(0),
                map_coords(c, mapping@).take(0),
            ) by {
                lemma_dot_model_zero_strides(c, iter.strides());
                assert(map_coords(c, mapping@).take(0) =~= Seq::<usize>::empty());
                assert(index_model(sdims.take(0), map_coords(c, mapping@).take(0)) == 0);
            };
        }
        let mut i: usize = 0;
        while i < mapping.len()
            invariant
                i <= mapping@.len(),
                self.wf(),
                tdims == shape.model(),
                sdims == self.shape_model(),
                mapping@.len() == sdims.len(),
                forall|k: int|
                    #![trigger mapping@[k]]
                    0 <= k < mapping@.len() ==> mapping@[k] < tdims.len() && sdims[k]
                        == tdims[mapping@[k] as int],
                strides@.len() == sdims.len(),
                forall|k: int|
                    0 <= k < strides@.len() ==> strides@[k] == size_model(sdims.take(k)),
                iter.inv(),
                !iter.is_done(),
                iter.dims() == tdims,
                forall|j: int| 0 <= j < iter.cnts().len() ==> iter.cnts()[j] == 0,
                max_emit_model(tdims, iter.strides()) + 1 == size_model(sdims.take(i as int)),
                forall|c: Seq<usize>|
                    #![trigger dot_model(c, iter.strides())]
                    coords_in(tdims, c) ==> dot_model(c, iter.strides()) == index_model(
                        sdims.take(i as int),
                        map_coords(c, mapping@).take(i as int),
                    ),
            decreases mapping@.len() - i,
        {
            let j = mapping[i];
            let ghost olds = iter.strides();
            let ghost d = tdims[j as int];
            let ghost p = size_model(sdims.take(i as int));
            proof {
                lemma_size_model_take_step(sdims, i as int);
                assert(d == sdims[i as int]);
                assert(d >= 1) by {
                    if sdims[i as int] == 0 {
                        lemma_size_model_zero(tdims);
                        assert(tdims[mapping@[i as int] as int] == 0);
                    }
                };
                assert(strides@[i as int] == p);
                assert(((d - 1) as nat) * p + p == (d as nat) * p) by (nonlinear_arith)
                    requires
                        d >= 1,
                ;
                assert(size_model(sdims.take(i + 1)) == p * (d as nat));
                assert(p * (d as nat) == (d as nat) * p) by (nonlinear_arith);
                assert(max_emit_model(tdims, iter.strides()) + ((d - 1) as nat) * p
                    <= usize::MAX);
            }
            iter.add_stride(j, strides[i]);
            proof {
                let news = iter.strides();
                if d > 1 {
                    lemma_max_emit_term_bound(tdims, olds, j as int);
                    assert(olds[j as int] + p <= usize::MAX) by (nonlinear_arith)
                        requires
                            d >= 2,
                            ((d - 1) as nat) * (olds[j as int] as nat) + ((d - 1) as nat)
                                * p <= usize::MAX,
                    ;
                    assert((((olds[j as int] + p) as usize) as nat) == (
                    olds[j as int] as nat) + p);
                    assert(news == olds.update(j as int, (olds[j as int] + p) as usize));
                    lemma_max_emit_update(
                        tdims,
                        olds,
                        j as int,
                        (olds[j as int] + p) as usize,
                    );
                    assert(((d - 1) as nat) * ((olds[j as int] as nat) + p) == ((d
                        - 1) as nat) * (olds[j as int] as nat) + ((d - 1) as nat) * p)
                        by (nonlinear_arith);
                } else {
                    assert(news == olds);
                    assert(size_model(sdims.take(i + 1)) == size_model(
                        sdims.take(i as int),
                    )) by {
                        assert(size_model(sdims.take(i + 1)) == size_model(
                            sdims.take(i as int),
                        ) * (sdims[i as int] as nat));
                        assert(size_model(sdims.take(i as int)) * 1 == size_model(
                            sdims.take(i as int),
                        )) by (nonlinear_arith);
                    };
                }
                assert(sdims.take(i + 1) =~= sdims.take(i as int).push(sdims[i as int]));
                lemma_size_model_push(sdims.take(i as int), sdims[i as int]);
                assert forall|c: Seq<usize>| #![trigger dot_model(c, iter.strides())]
                    coords_in(tdims, c) implies dot_model(c, iter.strides())
                    == index_model(sdims.take(i + 1), map_coords(c, mapping@).take(i + 1)) by {
                    assert(dot_model(c, olds) == index_model(
                        sdims.take(i as int),
                        map_coords(c, mapping@).take(i as int),
                    ));
                    let mc = map_coords(c, mapping@);
                    assert(mc.take(i + 1) =~= mc.take(i as int).push(mc[i as int]));
                    lemma_index_model_push(
                        sdims.take(i as int),
                        mc.take(i as int),
                        sdims[i as int],
                        mc[i as int],
                    );
                    assert(mc[i as int] == c[j as int]);
                    if d > 1 {
                        lemma_dot_model_update_strides(
                            c,
                            olds,
                            j as int,
                            (olds[j as int] + p) as usize,
                        );
                        assert((c[j as int] as nat) * ((olds[j as int] as nat) + p) == (
                        c[j as int] as nat) * (olds[j as int] as nat) + (c[j as int] as nat)
                            * p) by (nonlinear_arith);
                    } else {
                        assert(c[j as int] == 0);
                        assert((0 as nat) * p == 0) by (nonlinear_arith);
                    }
                };
            }
            i = i + 1;
        }
        proof {
            assert(sdims.take(sdims.len() as int) =~= sdims);
            assert forall|c: Seq<usize>| #![trigger dot_model(c, iter.strides())]
                coords_in(tdims, c) implies dot_model(c, iter.strides()) == index_model(
                sdims,
                map_coords(c, mapping@),
            ) by {
                assert(map_coords(c, mapping@).take(mapping@.len() as int) =~= map_coords(
                    c,
                    mapping@,
                ));
            };
        }
        let ghost fstrides = iter.strides();
        proof {
            lemma_index_model_zeros(tdims, iter.cnts());
        }
        let mut elems: GenVec<ELEM> = GenVector::with_capacity(tsize);
        let mut n: usize = 0;
        while n < tsize
            invariant
                n <= tsize,
                tsize == size_model(tdims),
                self.wf(),
                tdims == shape.model(),
                sdims == self.shape_model(),
                iter.inv(),
                iter.dims() == tdims,
                iter.strides() == fstrides,
                forall|c: Seq<usize>|
                    #![trigger dot_model(c, fstrides)]
                    coords_in(tdims, c) ==> dot_model(c, fstrides) == index_model(
                        sdims,
                        map_coords(c, mapping@),
                    ),
                forall|k: int|
                    #![trigger mapping@[k]]
                    0 <= k < mapping@.len() ==> mapping@[k] < tdims.len() && sdims[k]
                        == tdims[mapping@[k] as int],
                mapping@.len() == sdims.len(),
                n < tsize ==> !iter.is_done() && iter.pos() == n,
                n == tsize ==> iter.is_done(),
                elems.model().len() == n,
                forall|c: Seq<usize>|
                    #![trigger index_model(tdims, c)]
                    coords_in(tdims, c) && index_model(tdims, c) < n ==> elems.model()[
                        index_model(tdims, c) as int
                    ] == self.elems_model()[dot_model(c, fstrides) as int],
                forall|p: int|
                    #![trigger elems.model()[p]]
                    0 <= p < n ==> exists|m: int|
                        0 <= m < self.elems_model().len() && elems.model()[p]
                            == self.elems_model()[m],
            decreases tsize - n,
        {
            let ghost cn = iter.cnts();
            proof {
                assert(coords_in(tdims, cn));
                let mc = map_coords(cn, mapping@);
                assert forall|q: int| 0 <= q < sdims.len() implies mc[q] < sdims[q] by {
                    assert(mc[q] == cn[mapping@[q] as int]);
                    assert(cn[mapping@[q] as int] < tdims[mapping@[q] as int]);
                };
                assert(coords_in(sdims, mc));
                lemma_index_model_bound(sdims, mc);
                lemma_dot_le_max_emit(tdims, cn, fstrides);
                assert(dot_model(cn, fstrides) == index_model(sdims, mc));
            }
            let kopt = iter.next();
            let k = kopt.unwrap();
            proof {
                assert(k as nat == dot_model(cn, fstrides));
                assert((k as nat) < self.elems_model().len());
            }
            let ghost prev = elems.model();
            elems.push(self.elems.get(k));
            proof {
                assert forall|c: Seq<usize>|
                    #![trigger index_model(tdims, c)]
                    coords_in(tdims, c) && index_model(tdims, c) < n + 1 implies
                    elems.model()[index_model(tdims, c) as int] == self.elems_model()[
                        dot_model(c, fstrides) as int
                    ] by {
                    if index_model(tdims, c) == n {
                        lemma_index_model_injective(tdims, c, cn);
                        assert(elems.model()[n as int] == self.elems_model()[dot_model(
                            cn,
                            fstrides,
                        ) as int]);
                    } else {
                        let m = index_model(tdims, c) as int;
                        assert(prev[m] == self.elems_model()[dot_model(c, fstrides) as int]);
                        assert(elems.model()[m] == prev[m]);
                    }
                };
                assert forall|p: int| #![trigger elems.model()[p]] 0 <= p < n + 1 implies
                    exists|m: int|
                        0 <= m < self.elems_model().len() && elems.model()[p]
                            == self.elems_model()[m] by {
                    if p == n {
                        assert(elems.model()[p] == self.elems_model()[k as int]);
                    } else {
                        let m = choose|m: int|
                            0 <= m < self.elems_model().len() && prev[p]
                                == self.elems_model()[m];
                        assert(elems.model()[p] == prev[p]);
                    }
                };
            }
            n = n + 1;
        }
        let r = Tensor { shape, elems };
        proof {
            assert forall|c: Seq<usize>| coords_in(tdims, c) implies #[trigger] r.cell(c)
                == self.cell(map_coords(c, mapping@)) by {
                lemma_index_model_bound(tdims, c);
                assert(elems.model()[index_model(tdims, c) as int] == self.elems_model()[
                    dot_model(c, fstrides) as int
                ]);
            };
        }
        r
    }
}

impl<ELEM: GenElem> Tensor<ELEM> {
    /// Joins the first `count` dimensions into a single dimension whose
    /// size is their product. The underlying data does not change, only
    /// the shape.
    pub fn reshape_join(&mut self, count: usize)
        requires
            old(self).wf(),
            count <= old(self).shape_model().len(),
        ensures
            final(self).wf(),
            final(self).elems_model() == old(self).elems_model(),
            final(self).shape_model() == seq![
                size_model(old(self).shape_model().take(count as int)) as usize
            ] + old(self).shape_model().skip(count as int),
    {
        let ghost odims = self.shape_model();
        let mut joined: usize = 1;
        let mut i: usize = 0;
        while i < count
            invariant
                i <= count <= odims.len(),
                odims == self.shape_model(),
                self.wf(),
                joined == size_model(odims.take(i as int)),
            decreases count - i,
        {
            proof {
                lemma_size_model_take_step(odims, i as int);
            }
            joined = joined * self.shape.dims[i];
            i = i + 1;
        }
        let mut dims2: Vec<usize> = Vec::with_capacity(self.shape.dims.len() - count);
        dims2.push(joined);
        let mut k: usize = count;
        while k < self.shape.dims.len()
            invariant
                count <= k <= odims.len(),
                odims == self.shape_model(),
                self.wf(),
                joined == size_model(odims.take(count as int)),
                dims2@ == seq![joined] + odims.subrange(count as int, k as int),
            decreases odims.len() - k,
        {
            dims2.push(self.shape.dims[k]);
            proof {
                assert(dims2@ =~= seq![joined] + odims.subrange(count as int, k + 1 as int));
            }
            k = k + 1;
        }
        let ghost ndims = seq![(size_model(odims.take(count as int)) as usize)]
            + odims.skip(count as int);
        proof {
            assert(dims2@ =~= ndims);
            assert forall|a: int, b: int| 0 <= a <= b <= ndims.len() implies size_model(
                #[trigger] ndims.subrange(a, b),
            ) <= usize::MAX by {
                if a >= 1 {
                    assert(ndims.subrange(a, b) =~= odims.subrange(
                        count + a - 1,
                        count + b - 1,
                    ));
                } else if b == 0 {
                    assert(ndims.subrange(0, 0) =~= Seq::<usize>::empty());
                    assert(size_model(Seq::<usize>::empty()) == 1);
                } else {
                    assert(ndims.subrange(0, b) =~= seq![(size_model(odims.take(
                        count as int,
                    )) as usize)] + odims.subrange(count as int, count + b - 1));
                    lemma_size_model_concat(
                        seq![(size_model(odims.take(count as int)) as usize)],
                        odims.subrange(count as int, count + b - 1),
                    );
                    assert(size_model(seq![(size_model(odims.take(count as int)) as usize)])
                        == size_model(odims.take(count as int))) by {
                        let single = seq![(size_model(odims.take(count as int)) as usize)];
                        assert(single.drop_first() =~= Seq::<usize>::empty());
                        assert(size_model(Seq::<usize>::empty()) == 1);
                        assert(size_model(single) == (single.first() as nat) * 1);
                        assert((single.first() as nat) * 1 == single.first() as nat)
                            by (nonlinear_arith);
                    };
                    assert(odims.take(count as int) + odims.subrange(
                        count as int,
                        count + b - 1,
                    ) =~= odims.subrange(0, count + b - 1));
                    lemma_size_model_concat(
                        odims.take(count as int),
                        odims.subrange(count as int, count + b - 1),
                    );
                }
            };
            assert(dims_fit(ndims));
            assert(dims_fit(dims2@));
        }
        self.shape = Shape::new(dims2);
        proof {
            assert(odims.take(count as int) + odims.skip(count as int) =~= odims);
            lemma_size_model_concat(odims.take(count as int), odims.skip(count as int));
            assert(ndims =~= seq![(size_model(odims.take(count as int)) as usize)]
                + odims.subrange(count as int, odims.len() as int));
            lemma_size_model_concat(
                seq![(size_model(odims.take(count as int)) as usize)],
                odims.skip(count as int),
            );
            let single = seq![(size_model(odims.take(count as int)) as usize)];
            assert(single.drop_first() =~= Seq::<usize>::empty());
            assert(size_model(Seq::<usize>::empty()) == 1);
            assert(size_model(single) == (single.first() as nat) * 1);
            assert((single.first() as nat) * 1 == single.first() as nat)
                by (nonlinear_arith);
        }
    }
}

/// Every contiguous run of a contiguous run is a contiguous run of the
/// whole, so fitting is inherited by subranges.
pub proof fn lemma_dims_fit_subrange(dims: Seq<usize>, a: int, b: int)
    requires
        dims_fit(dims),
        0 <= a <= b <= dims.len(),
    ensures
        dims_fit(dims.subrange(a, b)),
{
    assert forall|i: int, j: int| 0 <= i <= j <= dims.subrange(a, b).len() implies size_model(
        #[trigger] dims.subrange(a, b).subrange(i, j),
    ) <= usize::MAX by {
        assert(dims.subrange(a, b).subrange(i, j) =~= dims.subrange(a + i, a + j));
    };
}

/// The weighted sum of a counter vector against a stride vector: the
/// linear index that the counters address.
pub open spec fn dot_model(cnts: Seq<usize>, strides: Seq<usize>) -> nat
    decreases cnts.len(),
{
    if cnts.len() == 0 {
        0
    } else {
        (cnts.first() as nat) * (strides.first() as nat) + dot_model(
            cnts.drop_first(),
            strides.drop_first(),
        )
    }
}

/// The largest weighted sum that in-range counters can reach: each counter
/// at its dimension less one.
pub open spec fn max_emit_model(dims: Seq<usize>, strides: Seq<usize>) -> nat
    decreases dims.len(),
{
    if dims.len() == 0 {
        0
    } else {
        (if dims.first() == 0 {
            0
        } else {
            ((dims.first() - 1) as nat) * (strides.first() as nat)
        }) + max_emit_model(dims.drop_first(), strides.drop_first())
    }
}

/// In-range counters reach at most the largest weighted sum.
proof fn lemma_dot_le_max_emit(dims: Seq<usize>, cnts: Seq<usize>, strides: Seq<usize>)
    requires
        cnts.len() == dims.len(),
        strides.len() == dims.len(),
        forall|j: int| 0 <= j < dims.len() ==> cnts[j] < dims[j],
    ensures
        dot_model(cnts, strides) <= max_emit_model(dims, strides),
    decreases dims.len(),
{
    if dims.len() > 0 {
        assert(forall|j: int|
            0 <= j < dims.drop_first().len() ==> cnts.drop_first()[j]
                < dims.drop_first()[j]);
        lemma_dot_le_max_emit(dims.drop_first(), cnts.drop_first(), strides.drop_first());
        assert((cnts.first() as nat) * (strides.first() as nat) <= ((dims.first()
            - 1) as nat) * (strides.first() as nat)) by (nonlinear_arith)
            requires
                cnts.first() < dims.first(),
        ;
    }
}

/// Replacing one counter shifts the weighted sum by the difference times
/// that counter's stride.
proof fn lemma_dot_model_update(cnts: Seq<usize>, strides: Seq<usize>, j: int, x: usize)
    requires
        cnts.len() == strides.len(),
        0 <= j < cnts.len(),
    ensures
        dot_model(cnts.update(j, x), strides) + (cnts[j] as nat) * (strides[j] as nat)
            == dot_model(cnts, strides) + (x as nat) * (strides[j] as nat),
    decreases j,
{
    if j == 0 {
        assert(cnts.update(0, x).drop_first() =~= cnts.drop_first());
        assert(cnts.update(0, x).first() == x);
    } else {
        assert(cnts.update(j, x).drop_first() =~= cnts.drop_first().update(j - 1, x));
        assert(cnts.update(j, x).first() == cnts.first());
        lemma_dot_model_update(cnts.drop_first(), strides.drop_first(), j - 1, x);
    }
}

/// Replacing one coordinate shifts the row-major index by the difference
/// times the product of the dimensions before it.
proof fn lemma_index_model_update(dims: Seq<usize>, coords: Seq<usize>, j: int, x: usize)
    requires
        coords.len() == dims.len(),
        0 <= j < dims.len(),
    ensures
        index_model(dims, coords.update(j, x)) + (coords[j] as nat) * size_model(
            dims.take(j),
        ) == index_model(dims, coords) + (x as nat) * size_model(dims.take(j)),
    decreases j,
{
    if j == 0 {
        assert(coords.update(0, x).drop_first() =~= coords.drop_first());
        assert(coords.update(0, x).first() == x);
        assert(dims.take(0) =~= Seq::<usize>::empty());
        assert(size_model(dims.take(0)) == 1);
        assert(index_model(dims, coords.update(0, x)) == (x as nat) + (
        dims.first() as nat) * index_model(dims.drop_first(), coords.drop_first()));
        assert(index_model(dims, coords) == (coords[0] as nat) + (dims.first() as nat)
            * index_model(dims.drop_first(), coords.drop_first()));
        assert((coords[j] as nat) * size_model(dims.take(j)) == coords[j] as nat)
            by (nonlinear_arith)
            requires
                size_model(dims.take(j)) == 1,
        ;
        assert((x as nat) * size_model(dims.take(j)) == x as nat) by (nonlinear_arith)
            requires
                size_model(dims.take(j)) == 1,
        ;
    } else {
        assert(coords.update(j, x).drop_first() =~= coords.drop_first().update(j - 1, x));
        assert(coords.update(j, x).first() == coords.first());
        lemma_index_model_update(dims.drop_first(), coords.drop_first(), j - 1, x);
        assert(dims.drop_first().take(j - 1) =~= dims.take(j).drop_first());
        let d0 = dims.first() as nat;
        let p = size_model(dims.take(j).drop_first());
        let c0 = coords.first() as nat;
        let rnew = index_model(dims.drop_first(), coords.drop_first().update(j - 1, x));
        let rold = index_model(dims.drop_first(), coords.drop_first());
        let cj = coords[j] as nat;
        assert(size_model(dims.take(j)) == (dims.take(j).first() as nat) * p);
        assert(dims.take(j).first() == dims.first());
        assert(rnew + cj * p == rold + (x as nat) * p);
        assert(c0 + d0 * rnew + cj * (d0 * p) == c0 + d0 * rold + (x as nat) * (d0 * p))
            by (nonlinear_arith)
            requires
                rnew + cj * p == rold + (x as nat) * p,
        ;
        assert(index_model(dims, coords.update(j, x)) + (coords[j] as nat) * size_model(
            dims.take(j),
        ) == index_model(dims, coords) + (x as nat) * size_model(dims.take(j)));
    }
}

/// A counter vector of zeros addresses index zero.
proof fn lemma_index_model_zeros(dims: Seq<usize>, coords: Seq<usize>)
    requires
        coords.len() == dims.len(),
        forall|j: int| 0 <= j < coords.len() ==> coords[j] == 0,
    ensures
        index_model(dims, coords) == 0,
    decreases dims.len(),
{
    if dims.len() > 0 {
        assert forall|j: int| 0 <= j < coords.drop_first().len() implies coords.drop_first()[j]
            == 0 by {
            assert(coords[j + 1] == 0);
        };
        lemma_index_model_zeros(dims.drop_first(), coords.drop_first());
        assert(coords.first() == 0);
        assert(index_model(dims, coords) == 0 + (dims.first() as nat) * 0);
    }
}

/// Any counters have weighted sum zero against strides of zeros.
proof fn lemma_dot_model_zero_strides(cnts: Seq<usize>, strides: Seq<usize>)
    requires
        forall|j: int| 0 <= j < strides.len() ==> strides[j] == 0,
        cnts.len() <= strides.len(),
    ensures
        dot_model(cnts, strides) == 0,
    decreases cnts.len(),
{
    if cnts.len() > 0 {
        assert forall|j: int| 0 <= j < strides.drop_first().len() implies
            strides.drop_first()[j] == 0 by {
            assert(strides[j + 1] == 0);
        };
        lemma_dot_model_zero_strides(cnts.drop_first(), strides.drop_first());
        assert(strides.first() == 0);
        assert((cnts.first() as nat) * 0 == 0) by (nonlinear_arith);
    }
}

/// Replacing one stride shifts the weighted sum by the difference times
/// that dimension's counter.
proof fn lemma_dot_model_update_strides(cnts: Seq<usize>, strides: Seq<usize>, j: int, x: usize)
    requires
        cnts.len() == strides.len(),
        0 <= j < strides.len(),
    ensures
        dot_model(cnts, strides.update(j, x)) + (cnts[j] as nat) * (strides[j] as nat)
            == dot_model(cnts, strides) + (cnts[j] as nat) * (x as nat),
    decreases j,
{
    if j == 0 {
        assert(strides.update(0, x).drop_first() =~= strides.drop_first());
        assert(strides.update(0, x).first() == x);
    } else {
        assert(strides.update(j, x).drop_first() =~= strides.drop_first().update(j - 1, x));
        assert(strides.update(j, x).first() == strides.first());
        lemma_dot_model_update_strides(cnts.drop_first(), strides.drop_first(), j - 1, x);
    }
}

/// A counter vector of zeros has weighted sum zero against any strides.
proof fn lemma_dot_model_zeros(cnts: Seq<usize>, strides: Seq<usize>)
    requires
        forall|j: int| 0 <= j < cnts.len() ==> cnts[j] == 0,
    ensures
        dot_model(cnts, strides) == 0,
    decreases cnts.len(),
{
    if cnts.len() > 0 {
        lemma_dot_model_zeros(cnts.drop_first(), strides.drop_first());
    }
}

/// A shape spans no elements exactly when one of its dimensions is zero.
pub proof fn lemma_size_model_zero(dims: Seq<usize>)
    ensures
        (size_model(dims) == 0) == (exists|j: int| 0 <= j < dims.len() && dims[j] == 0),
    decreases dims.len(),
{
    if dims.len() == 0 {
    } else {
        lemma_size_model_zero(dims.drop_first());
        let d0 = dims.first() as nat;
        let rest = size_model(dims.drop_first());
        assert((d0 * rest == 0) == (d0 == 0 || rest == 0)) by (nonlinear_arith);
        if d0 == 0 {
            assert(dims[0] == 0);
        }
        if rest == 0 {
            let j = choose|j: int|
                0 <= j < dims.drop_first().len() && dims.drop_first()[j] == 0;
            assert(dims[j + 1] == 0);
        }
        if exists|j: int| 0 <= j < dims.len() && dims[j] == 0 {
            let j = choose|j: int| 0 <= j < dims.len() && dims[j] == 0;
            if j > 0 {
                assert(dims.drop_first()[j - 1] == 0);
            }
        }
    }
}

/// Two in-range coordinate vectors with the same row-major index are equal.
pub proof fn lemma_index_model_injective(dims: Seq<usize>, c1: Seq<usize>, c2: Seq<usize>)
    requires
        coords_in(dims, c1),
        coords_in(dims, c2),
        index_model(dims, c1) == index_model(dims, c2),
    ensures
        c1 == c2,
    decreases dims.len(),
{
    if dims.len() == 0 {
        assert(c1 =~= c2);
    } else {
        let d0 = dims.first() as nat;
        let a = c1.first() as nat;
        let b = c2.first() as nat;
        let r1 = index_model(dims.drop_first(), c1.drop_first());
        let r2 = index_model(dims.drop_first(), c2.drop_first());
        assert(a + d0 * r1 == b + d0 * r2);
        assert(a == b && r1 == r2) by (nonlinear_arith)
            requires
                a < d0,
                b < d0,
                a + d0 * r1 == b + d0 * r2,
        ;
        assert(coords_in(dims.drop_first(), c1.drop_first()));
        assert(coords_in(dims.drop_first(), c2.drop_first()));
        lemma_index_model_injective(dims.drop_first(), c1.drop_first(), c2.drop_first());
        assert forall|i: int| 0 <= i < c1.len() implies c1[i] == c2[i] by {
            if i == 0 {
                assert(c1.first() == c2.first());
            } else {
                assert(c1.drop_first()[i - 1] == c2.drop_first()[i - 1]);
            }
        };
        assert(c1 =~= c2);
    }
}

/// One counter's contribution is at most the whole weighted sum.
proof fn lemma_dot_term_bound(cnts: Seq<usize>, strides: Seq<usize>, j: int)
    requires
        cnts.len() == strides.len(),
        0 <= j < cnts.len(),
    ensures
        (cnts[j] as nat) * (strides[j] as nat) <= dot_model(cnts, strides),
    decreases j,
{
    if j == 0 {
    } else {
        lemma_dot_term_bound(cnts.drop_first(), strides.drop_first(), j - 1);
    }
}

/// One dimension's largest contribution is at most the largest weighted sum.
proof fn lemma_max_emit_term_bound(dims: Seq<usize>, strides: Seq<usize>, j: int)
    requires
        dims.len() == strides.len(),
        0 <= j < dims.len(),
    ensures
        (if dims[j] == 0 {
            0
        } else {
            ((dims[j] - 1) as nat) * (strides[j] as nat)
        }) <= max_emit_model(dims, strides),
    decreases j,
{
    if j == 0 {
    } else {
        lemma_max_emit_term_bound(dims.drop_first(), strides.drop_first(), j - 1);
    }
}

/// Replacing one stride shifts the largest weighted sum by the difference
/// of that dimension's contributions.
proof fn lemma_max_emit_update(dims: Seq<usize>, strides: Seq<usize>, j: int, x: usize)
    requires
        dims.len() == strides.len(),
        0 <= j < dims.len(),
    ensures
        max_emit_model(dims, strides.update(j, x)) + (if dims[j] == 0 {
            0
        } else {
            ((dims[j] - 1) as nat) * (strides[j] as nat)
        }) == max_emit_model(dims, strides) + (if dims[j] == 0 {
            0
        } else {
            ((dims[j] - 1) as nat) * (x as nat)
        }),
    decreases j,
{
    if j == 0 {
        assert(strides.update(0, x).drop_first() =~= strides.drop_first());
        assert(strides.update(0, x).first() == x);
    } else {
        assert(strides.update(j, x).drop_first() =~= strides.drop_first().update(j - 1, x));
        assert(strides.update(j, x).first() == strides.first());
        lemma_max_emit_update(dims.drop_first(), strides.drop_first(), j - 1, x);
    }
}

/// With all strides zero the largest weighted sum is zero.
proof fn lemma_max_emit_zeros(dims: Seq<usize>, strides: Seq<usize>)
    requires
        dims.len() == strides.len(),
        forall|j: int| 0 <= j < strides.len() ==> strides[j] == 0,
    ensures
        max_emit_model(dims, strides) == 0,
    decreases dims.len(),
{
    if dims.len() > 0 {
        assert forall|j: int| 0 <= j < strides.drop_first().len() implies
            strides.drop_first()[j] == 0 by {
            assert(strides[j + 1] == 0);
        };
        lemma_max_emit_zeros(dims.drop_first(), strides.drop_first());
        if strides.len() > 0 {
            assert(strides.first() == 0);
        }
        if dims.first() != 0 {
            assert(((dims.first() - 1) as nat) * (strides.first() as nat) == 0);
        }
    }
}

/// Iterator state for the polymer operation: one counter, bound and
/// accumulated stride per target dimension. The counters walk the target
/// cells in row-major order like an odometer, while the running index
/// carries the matching source linear index.
struct StrideIter {
    entries: Vec<(usize, usize, usize)>,
    index: usize,
    done: bool,
}

impl StrideIter {
    /// The target dimensions.
    spec fn dims(&self) -> Seq<usize> {
        self.entries@.map_values(|e: (usize, usize, usize)| e.1)
    }

    /// The current counters, one per target dimension.
    spec fn cnts(&self) -> Seq<usize> {
        self.entries@.map_values(|e: (usize, usize, usize)| e.0)
    }

    /// The accumulated strides, one per target dimension.
    spec fn strides(&self) -> Seq<usize> {
        self.entries@.map_values(|e: (usize, usize, usize)| e.2)
    }

    /// The row-major target position that the counters spell.
    spec fn pos(&self) -> nat {
        index_model(self.dims(), self.cnts())
    }

    /// Whether the iterator is exhausted.
    spec fn is_done(&self) -> bool {
        self.done
    }

    spec fn inv(&self) -> bool {
        &&& max_emit_model(self.dims(), self.strides()) <= usize::MAX
        &&& self.index == dot_model(self.cnts(), self.strides())
        &&& (if self.done {
            forall|j: int| 0 <= j < self.cnts().len() ==> self.cnts()[j] == 0
        } else {
            forall|j: int| 0 <= j < self.cnts().len() ==> self.cnts()[j] < self.dims()[j]
        })
    }

    fn new(shape: &Shape) -> (r: Self)
        ensures
            r.inv(),
            r.dims() == shape.model(),
            forall|j: int| 0 <= j < r.strides().len() ==> r.strides()[j] == 0,
            forall|j: int| 0 <= j < r.cnts().len() ==> r.cnts()[j] == 0,
            r.is_done() == (size_model(shape.model()) == 0),
            r.pos() == 0,
    {
        let mut entries: Vec<(usize, usize, usize)> = Vec::new();
        let mut done = false;
        let mut i: usize = 0;
        while i < shape.dims.len()
            invariant
                i <= shape.model().len(),
                entries@.len() == i,
                forall|j: int|
                    0 <= j < i ==> entries@[j] == (0usize, shape.model()[j], 0usize),
                done == (exists|j: int| 0 <= j < i && shape.model()[j] == 0),
            decreases shape.dims@.len() - i,
        {
            let d = shape.dims[i];
            if d == 0 {
                done = true;
            }
            entries.push((0, d, 0));
            i = i + 1;
        }
        let r = StrideIter { entries, index: 0, done };
        proof {
            assert(r.dims() =~= shape.model());
            lemma_max_emit_zeros(r.dims(), r.strides());
            lemma_dot_model_zeros(r.cnts(), r.strides());
            lemma_index_model_zeros(r.dims(), r.cnts());
            lemma_size_model_zero(shape.model());
        }
        r
    }

    /// Adds a further source stride onto the given target dimension. This
    /// is meaningful only before iteration begins, with all counters zero.
    /// A dimension of size zero or one never contributes to an emitted
    /// index, so its stride needs no accumulation.
    fn add_stride(&mut self, idx: usize, stride: usize)
        requires
            old(self).inv(),
            idx < old(self).dims().len(),
            forall|j: int| 0 <= j < old(self).cnts().len() ==> old(self).cnts()[j] == 0,
            max_emit_model(old(self).dims(), old(self).strides()) + (if old(self).dims()[
                idx as int
            ] == 0 {
                0
            } else {
                ((old(self).dims()[idx as int] - 1) as nat) * (stride as nat)
            }) <= usize::MAX,
        ensures
            final(self).inv(),
            final(self).dims() == old(self).dims(),
            final(self).cnts() == old(self).cnts(),
            final(self).is_done() == old(self).is_done(),
            old(self).dims()[idx as int] <= 1 ==> final(self).strides() == old(
                self,
            ).strides(),
            old(self).dims()[idx as int] > 1 ==> final(self).strides() == old(
                self,
            ).strides().update(
                idx as int,
                (old(self).strides()[idx as int] + stride) as usize,
            ),
    {
        let entry = self.entries[idx];
        let c = entry.0;
        let d = entry.1;
        let s = entry.2;
        if d > 1 {
            proof {
                lemma_max_emit_update(self.dims(), self.strides(), idx as int, 0);
                lemma_max_emit_term_bound(self.dims(), self.strides(), idx as int);
                assert((s as nat) + (stride as nat) <= ((d - 1) as nat) * ((s
                    + stride) as nat)) by (nonlinear_arith)
                    requires
                        d > 1,
                ;
                assert(((d - 1) as nat) * ((s as nat) + (stride as nat)) == ((d
                    - 1) as nat) * (s as nat) + ((d - 1) as nat) * (stride as nat))
                    by (nonlinear_arith);
            }
            let ghost olds = self.strides();
            let ghost oldc = self.cnts();
            self.entries[idx] = (c, d, s + stride);
            proof {
                assert(self.dims() =~= old(self).dims());
                assert(self.cnts() =~= oldc);
                assert(self.strides() =~= olds.update(idx as int, (s + stride) as usize));
                lemma_max_emit_update(
                    self.dims(),
                    olds,
                    idx as int,
                    (s + stride) as usize,
                );
                lemma_dot_model_zeros(self.cnts(), self.strides());
                lemma_dot_model_zeros(oldc, olds);
            }
        }
    }

    /// Emits the source index of the current target cell and advances the
    /// counters to the next cell, carrying over exhausted dimensions.
    fn next(&mut self) -> (r: Option<usize>)
        requires
            old(self).inv(),
        ensures
            final(self).inv(),
            final(self).dims() == old(self).dims(),
            final(self).strides() == old(self).strides(),
            old(self).is_done() ==> r is None && final(self).is_done(),
            !old(self).is_done() ==> r == Some(
                dot_model(old(self).cnts(), old(self).strides()) as usize,
            ),
            !old(self).is_done() && old(self).pos() + 1 < size_model(old(self).dims())
                ==> !final(self).is_done() && final(self).pos() == old(self).pos() + 1,
            !old(self).is_done() && old(self).pos() + 1 == size_model(old(self).dims())
                ==> final(self).is_done(),
    {
        if self.done {
            return None;
        }
        proof {
            lemma_index_model_bound(self.dims(), self.cnts());
        }
        let emitted = self.index;
        let ghost pos0 = self.pos();
        proof {
            assert(self.dims().take(0) =~= Seq::<usize>::empty());
        }
        let n = self.entries.len();
        let mut j: usize = 0;
        while j < n
            invariant
                j <= n,
                n == self.entries@.len(),
                !self.done,
                !old(self).is_done(),
                pos0 == index_model(old(self).dims(), old(self).cnts()),
                self.dims() == old(self).dims(),
                self.strides() == old(self).strides(),
                emitted == dot_model(old(self).cnts(), old(self).strides()),
                max_emit_model(self.dims(), self.strides()) <= usize::MAX,
                self.index == dot_model(self.cnts(), self.strides()),
                index_model(self.dims(), self.cnts()) + size_model(
                    self.dims().take(j as int),
                ) == pos0 + 1,
                forall|k: int| 0 <= k < j ==> self.cnts()[k] == 0,
                forall|k: int| 0 <= k < j ==> self.dims()[k] >= 1,
                forall|k: int|
                    j <= k < n ==> self.cnts()[k] == old(self).cnts()[k] && self.cnts()[k]
                        < self.dims()[k],
                pos0 + 1 <= size_model(self.dims()),
            decreases n - j,
        {
            let entry = self.entries[j];
            let c = entry.0;
            let d = entry.1;
            let s = entry.2;
            let ghost oldc = self.cnts();
            proof {
                assert(c == self.cnts()[j as int]);
                assert(d == self.dims()[j as int]);
                assert(s == self.strides()[j as int]);
                assert(c < d);
            }
            if c + 1 < d {
                proof {
                    lemma_index_model_update(self.dims(), oldc, j as int, (c + 1) as usize);
                    lemma_dot_model_update(oldc, self.strides(), j as int, (c + 1) as usize);
                    assert(((c + 1) as nat) * (self.strides()[j as int] as nat) == (
                    c as nat) * (self.strides()[j as int] as nat) + (
                    self.strides()[j as int] as nat)) by (nonlinear_arith);
                    assert(((c + 1) as nat) * size_model(self.dims().take(j as int)) == (
                    c as nat) * size_model(self.dims().take(j as int)) + size_model(
                        self.dims().take(j as int),
                    )) by (nonlinear_arith);
                }
                self.entries[j] = (c + 1, d, s);
                proof {
                    assert(self.dims() =~= old(self).dims());
                    assert(self.strides() =~= old(self).strides());
                    assert(self.cnts() =~= oldc.update(j as int, (c + 1) as usize));
                    assert forall|k: int| 0 <= k < n implies self.cnts()[k]
                        < self.dims()[k] by {};
                    lemma_dot_le_max_emit(self.dims(), self.cnts(), self.strides());
                    lemma_index_model_bound(self.dims(), self.cnts());
                }
                self.index = self.index + s;
                return Some(emitted);
            } else {
                proof {
                    assert(c + 1 == d);
                    lemma_index_model_update(self.dims(), oldc, j as int, 0);
                    lemma_dot_model_update(oldc, self.strides(), j as int, 0);
                    lemma_dot_term_bound(oldc, self.strides(), j as int);
                    lemma_size_model_take_step(self.dims(), j as int);
                    assert((0 as nat) * (self.strides()[j as int] as nat) == 0)
                        by (nonlinear_arith);
                    assert((0 as nat) * size_model(self.dims().take(j as int)) == 0)
                        by (nonlinear_arith);
                    assert((c as nat) * size_model(self.dims().take(j as int))
                        + size_model(self.dims().take(j as int)) == (d as nat)
                        * size_model(self.dims().take(j as int))) by (nonlinear_arith)
                        requires
                            c + 1 == d,
                    ;
                }
                let ci = c * s;
                self.entries[j] = (0, d, s);
                self.index = self.index - ci;
                proof {
                    assert(self.dims() =~= old(self).dims());
                    assert(self.strides() =~= old(self).strides());
                    assert(self.cnts() =~= oldc.update(j as int, 0));
                }
                j = j + 1;
            }
        }
        proof {
            lemma_index_model_zeros(self.dims(), self.cnts());
            assert(self.dims().take(n as int) =~= self.dims());
            assert(pos0 + 1 == size_model(self.dims()));
        }
        self.done = true;
        Some(emitted)
    }
}

/// The product of one more dimension of a prefix.
proof fn lemma_size_model_take_step(dims: Seq<usize>, i: int)
    requires
        0 <= i < dims.len(),
    ensures
        size_model(dims.take(i + 1)) == size_model(dims.take(i)) * dims[i],
        dims_fit(dims) ==> size_model(dims.take(i)) * dims[i] <= usize::MAX,
{
    assert(dims.take(i + 1) =~= dims.take(i).push(dims[i]));
    lemma_size_model_push(dims.take(i), dims[i]);
    if dims_fit(dims) {
        assert(dims.take(i + 1) =~= dims.subrange(0, i + 1));
        assert(size_model(dims.subrange(0, i + 1)) <= usize::MAX);
    }
}

/// Every element of the sequence is a valid handle of the algebra.
pub open spec fn elems_inv<ALG: BoolAlg>(alg: ALG, s: Seq<ALG::Elem>) -> bool {
    forall|i: int| 0 <= i < s.len() ==> alg.elem_inv(#[trigger] s[i])
}

/// The `i`-th run of `head` consecutive elements of the flat storage: the
/// elements folded into cell `i` when the first axis of size `head` is
/// folded away.
pub open spec fn axis_slice<ALG: BoolAlg>(s: Seq<ALG::Elem>, head: usize, i: int) -> Seq<
    ALG::Elem,
> {
    s.subrange(i * (head as int), i * (head as int) + (head as int))
}

/// The parity of the elements' truth values under an assignment.
pub open spec fn xor_fold<ALG: BoolAlg>(s: Seq<ALG::Elem>, asg: Seq<bool>) -> bool
    decreases s.len(),
{
    if s.len() == 0 {
        false
    } else {
        xor_fold::<ALG>(s.drop_last(), asg) != ALG::eval(s.last(), asg)
    }
}

impl Shape {
    /// Returns a shape with the same dimensions.
    fn duplicate(&self) -> (r: Self)
        ensures
            r.model() == self.model(),
            r.wf() == self.wf(),
    {
        let mut dims: Vec<usize> = Vec::with_capacity(self.dims.len());
        let mut i: usize = 0;
        while i < self.dims.len()
            invariant
                i <= self.dims@.len(),
                dims@ == self.dims@.take(i as int),
            decreases self.dims@.len() - i,
        {
            dims.push(self.dims[i]);
            proof {
                assert(dims@ =~= self.dims@.take(i + 1 as int));
            }
            i = i + 1;
        }
        proof {
            assert(dims@ =~= self.dims@);
        }
        Shape { dims }
    }
}

/// The tensor operations that any boolean algebra supports: elementwise
/// gates, folds along the first axis and reshaping, each stated over the
/// truth values of the cells under every assignment consistent with the
/// algebra's grown state.
pub trait TensorAlg: BoolAlg {
    /// Returns the shape of the tensor.
    fn shape(elem: &Tensor<Self::Elem>) -> (r: &Shape)
        ensures
            r.model() == elem.shape_model(),
    {
        &elem.shape
    }

    /// Creates a new scalar tensor holding the lifted constant.
    fn scalar(&mut self, elem: bool) -> (r: Tensor<Self::Elem>)
        requires
            old(self).inv(),
        ensures
            final(self).inv(),
            forall|e: Self::Elem| #[trigger]
                old(self).elem_inv(e) ==> final(self).elem_inv(e),
            forall|asg: Seq<bool>| #[trigger]
                final(self).models(asg) ==> old(self).models(asg),
            r.wf(),
            r.shape_model() == Seq::<usize>::empty(),
            r.elems_model().len() == 1,
            elems_inv(*final(self), r.elems_model()),
            forall|asg: Seq<bool>| #[trigger]
                final(self).models(asg) ==> Self::eval(r.elems_model()[0], asg) == elem,
    ;

    /// Returns a diagonal tensor of rank two with true elements on the
    /// diagonal and false elements everywhere else.
    fn diagonal(&mut self, dim: usize) -> (r: Tensor<Self::Elem>)
        requires
            old(self).inv(),
            dim * dim <= usize::MAX,
        ensures
            final(self).inv(),
            forall|e: Self::Elem| #[trigger]
                old(self).elem_inv(e) ==> final(self).elem_inv(e),
            forall|asg: Seq<bool>| #[trigger]
                final(self).models(asg) ==> old(self).models(asg),
            r.wf(),
            r.shape_model() == seq![dim, dim],
            elems_inv(*final(self), r.elems_model()),
            forall|asg: Seq<bool>, c: Seq<usize>|
                #![trigger final(self).models(asg), r.cell(c)]
                final(self).models(asg) && coords_in(seq![dim, dim], c) ==> Self::eval(
                    r.cell(c),
                    asg,
                ) == (c[0] == c[1]),
    ;

    /// Creates a new tensor of the given shape from the given old tensor
    /// with permuted, identified or new dummy coordinates; entry `i` of the
    /// mapping names the target dimension that dimension `i` of the old
    /// tensor corresponds to.
    fn polymer(&self, elem: &Tensor<Self::Elem>, shape: Shape, mapping: &[usize]) -> (r:
        Tensor<Self::Elem>)
        requires
            elem.wf(),
            shape.wf(),
            mapping@.len() == elem.shape_model().len(),
            forall|i: int|
                #![trigger mapping@[i]]
                0 <= i < mapping@.len() ==> mapping@[i] < shape.model().len()
                    && elem.shape_model()[i] == shape.model()[mapping@[i] as int],
        ensures
            r.wf(),
            r.shape_model() == shape.model(),
            forall|c: Seq<usize>|
                coords_in(shape.model(), c) ==> #[trigger] r.cell(c) == elem.cell(
                    map_coords(c, mapping@),
                ),
            forall|alg: Self|
                elems_inv(alg, elem.elems_model()) ==> #[trigger] elems_inv(
                    alg,
                    r.elems_model(),
                ),
    {
        let r = elem.polymer(shape, mapping);
        proof {
            assert forall|alg: Self|
                elems_inv(alg, elem.elems_model()) implies #[trigger] elems_inv(
                alg,
                r.elems_model(),
            ) by {
                assert forall|q: int| 0 <= q < r.elems_model().len() implies alg.elem_inv(
                    #[trigger] r.elems_model()[q],
                ) by {
                    let m = choose|m: int|
                        0 <= m < elem.elems_model().len() && r.elems_model()[q]
                            == elem.elems_model()[m];
                    assert(alg.elem_inv(elem.elems_model()[m]));
                };
            };
        }
        r
    }

    /// Joins the first `count` dimensions of the tensor into a single
    /// dimension of their product size; the underlying data is unchanged.
    fn reshape_join(&self, elem: &Tensor<Self::Elem>, count: usize) -> (r: Tensor<
        Self::Elem,
    >)
        requires
            elem.wf(),
            count <= elem.shape_model().len(),
        ensures
            r.wf(),
            r.elems_model() == elem.elems_model(),
            r.shape_model() == seq![
                size_model(elem.shape_model().take(count as int)) as usize
            ] + elem.shape_model().skip(count as int),
    {
        let shape = elem.shape.duplicate();
        let mut r = Tensor { shape, elems: elem.elems.clone_of() };
        r.reshape_join(count);
        r
    }

    /// Returns a new tensor whose elements are the negations of the
    /// original elements.
    fn tensor_not(&mut self, elem: &Tensor<Self::Elem>) -> (r: Tensor<Self::Elem>)
        requires
            old(self).inv(),
            elem.wf(),
            elems_inv(*old(self), elem.elems_model()),
        ensures
            final(self).inv(),
            forall|e: Self::Elem| #[trigger]
                old(self).elem_inv(e) ==> final(self).elem_inv(e),
            forall|asg: Seq<bool>| #[trigger]
                final(self).models(asg) ==> old(self).models(asg),
            r.wf(),
            r.shape_model() == elem.shape_model(),
            elems_inv(*final(self), r.elems_model()),
            forall|asg: Seq<bool>, j: int|
                #![trigger final(self).models(asg), r.elems_model()[j]]
                final(self).models(asg) && 0 <= j < r.elems_model().len() ==> Self::eval(
                    r.elems_model()[j],
                    asg,
                ) == !Self::eval(elem.elems_model()[j], asg),
    ;

    /// Returns a new tensor whose elements are the disjunctions of the
    /// original elements.
    fn tensor_or(&mut self, elem1: &Tensor<Self::Elem>, elem2: &Tensor<Self::Elem>) -> (r:
        Tensor<Self::Elem>)
        requires
            old(self).inv(),
            elem1.wf(),
            elem2.wf(),
            elem1.shape_model() == elem2.shape_model(),
            elems_inv(*old(self), elem1.elems_model()),
            elems_inv(*old(self), elem2.elems_model()),
        ensures
            final(self).inv(),
            forall|e: Self::Elem| #[trigger]
                old(self).elem_inv(e) ==> final(self).elem_inv(e),
            forall|asg: Seq<bool>| #[trigger]
                final(self).models(asg) ==> old(self).models(asg),
            r.wf(),
            r.shape_model() == elem1.shape_model(),
            elems_inv(*final(self), r.elems_model()),
            forall|asg: Seq<bool>, j: int|
                #![trigger final(self).models(asg), r.elems_model()[j]]
                final(self).models(asg) && 0 <= j < r.elems_model().len() ==> Self::eval(
                    r.elems_model()[j],
                    asg,
                ) == (Self::eval(elem1.elems_model()[j], asg) || Self::eval(elem2.elems_model()[j], asg)),
    ;

    /// Returns a new tensor whose elements are the conjunctions of the
    /// original elements.
    fn tensor_and(&mut self, elem1: &Tensor<Self::Elem>, elem2: &Tensor<Self::Elem>) -> (r:
        Tensor<Self::Elem>)
        requires
            old(self).inv(),
            elem1.wf(),
            elem2.wf(),
            elem1.shape_model() == elem2.shape_model(),
            elems_inv(*old(self), elem1.elems_model()),
            elems_inv(*old(self), elem2.elems_model()),
        ensures
            final(self).inv(),
            forall|e: Self::Elem| #[trigger]
                old(self).elem_inv(e) ==> final(self).elem_inv(e),
            forall|asg: Seq<bool>| #[trigger]
                final(self).models(asg) ==> old(self).models(asg),
            r.wf(),
            r.shape_model() == elem1.shape_model(),
            elems_inv(*final(self), r.elems_model()),
            forall|asg: Seq<bool>, j: int|
                #![trigger final(self).models(asg), r.elems_model()[j]]
                final(self).models(asg) && 0 <= j < r.elems_model().len() ==> Self::eval(
                    r.elems_model()[j],
                    asg,
                ) == (Self::eval(elem1.elems_model()[j], asg) && Self::eval(elem2.elems_model()[j], asg)),
    ;

    /// Returns a new tensor whose elements are the boolean additions of the
    /// original elements.
    fn tensor_xor(&mut self, elem1: &Tensor<Self::Elem>, elem2: &Tensor<Self::Elem>) -> (r:
        Tensor<Self::Elem>)
        requires
            old(self).inv(),
            elem1.wf(),
            elem2.wf(),
            elem1.shape_model() == elem2.shape_model(),
            elems_inv(*old(self), elem1.elems_model()),
            elems_inv(*old(self), elem2.elems_model()),
        ensures
            final(self).inv(),
            forall|e: Self::Elem| #[trigger]
                old(self).elem_inv(e) ==> final(self).elem_inv(e),
            forall|asg: Seq<bool>| #[trigger]
                final(self).models(asg) ==> old(self).models(asg),
            r.wf(),
            r.shape_model() == elem1.shape_model(),
            elems_inv(*final(self), r.elems_model()),
            forall|asg: Seq<bool>, j: int|
                #![trigger final(self).models(asg), r.elems_model()[j]]
                final(self).models(asg) && 0 <= j < r.elems_model().len() ==> Self::eval(
                    r.elems_model()[j],
                    asg,
                ) == (Self::eval(elem1.elems_model()[j], asg) != Self::eval(elem2.elems_model()[j], asg)),
    ;

    /// Returns a new tensor whose elements are the logical equivalences of the
    /// original elements.
    fn tensor_equ(&mut self, elem1: &Tensor<Self::Elem>, elem2: &Tensor<Self::Elem>) -> (r:
        Tensor<Self::Elem>)
        requires
            old(self).inv(),
            elem1.wf(),
            elem2.wf(),
            elem1.shape_model() == elem2.shape_model(),
            elems_inv(*old(self), elem1.elems_model()),
            elems_inv(*old(self), elem2.elems_model()),
        ensures
            final(self).inv(),
            forall|e: Self::Elem| #[trigger]
                old(self).elem_inv(e) ==> final(self).elem_inv(e),
            forall|asg: Seq<bool>| #[trigger]
                final(self).models(asg) ==> old(self).models(asg),
            r.wf(),
            r.shape_model() == elem1.shape_model(),
            elems_inv(*final(self), r.elems_model()),
            forall|asg: Seq<bool>, j: int|
                #![trigger final(self).models(asg), r.elems_model()[j]]
                final(self).models(asg) && 0 <= j < r.elems_model().len() ==> Self::eval(
                    r.elems_model()[j],
                    asg,
                ) == (Self::eval(elem1.elems_model()[j], asg) == Self::eval(elem2.elems_model()[j], asg)),
    ;

    /// Returns a new tensor whose elements are the logical implications of the
    /// original elements.
    fn tensor_imp(&mut self, elem1: &Tensor<Self::Elem>, elem2: &Tensor<Self::Elem>) -> (r:
        Tensor<Self::Elem>)
        requires
            old(self).inv(),
            elem1.wf(),
            elem2.wf(),
            elem1.shape_model() == elem2.shape_model(),
            elems_inv(*old(self), elem1.elems_model()),
            elems_inv(*old(self), elem2.elems_model()),
        ensures
            final(self).inv(),
            forall|e: Self::Elem| #[trigger]
                old(self).elem_inv(e) ==> final(self).elem_inv(e),
            forall|asg: Seq<bool>| #[trigger]
                final(self).models(asg) ==> old(self).models(asg),
            r.wf(),
            r.shape_model() == elem1.shape_model(),
            elems_inv(*final(self), r.elems_model()),
            forall|asg: Seq<bool>, j: int|
                #![trigger final(self).models(asg), r.elems_model()[j]]
                final(self).models(asg) && 0 <= j < r.elems_model().len() ==> Self::eval(
                    r.elems_model()[j],
                    asg,
                ) == (!Self::eval(elem1.elems_model()[j], asg) || Self::eval(elem2.elems_model()[j], asg)),
    ;

    /// Returns a new tensor with the first dimension removed where each
    /// element is the conjunction of the elements along that dimension.
    fn tensor_all(&mut self, elem: &Tensor<Self::Elem>) -> (r: Tensor<Self::Elem>)
        requires
            old(self).inv(),
            elem.wf(),
            elem.shape_model().len() > 0,
            elems_inv(*old(self), elem.elems_model()),
        ensures
            final(self).inv(),
            forall|e: Self::Elem| #[trigger]
                old(self).elem_inv(e) ==> final(self).elem_inv(e),
            forall|asg: Seq<bool>| #[trigger]
                final(self).models(asg) ==> old(self).models(asg),
            r.wf(),
            r.shape_model() == elem.shape_model().drop_first(),
            elems_inv(*final(self), r.elems_model()),
            forall|asg: Seq<bool>, i: int|
                #![trigger final(self).models(asg), r.elems_model()[i]]
                final(self).models(asg) && 0 <= i < r.elems_model().len() ==> Self::eval(
                    r.elems_model()[i],
                    asg,
                ) == (forall|q: int|
                    0 <= q < elem.shape_model()[0] ==> Self::eval(
                        #[trigger] axis_slice::<Self>(
                            elem.elems_model(),
                            elem.shape_model()[0],
                            i,
                        )[q],
                        asg,
                    )),
    ;

    /// Returns a new tensor with the first dimension removed where each
    /// element is the disjunction of the elements along that dimension.
    fn tensor_any(&mut self, elem: &Tensor<Self::Elem>) -> (r: Tensor<Self::Elem>)
        requires
            old(self).inv(),
            elem.wf(),
            elem.shape_model().len() > 0,
            elems_inv(*old(self), elem.elems_model()),
        ensures
            final(self).inv(),
            forall|e: Self::Elem| #[trigger]
                old(self).elem_inv(e) ==> final(self).elem_inv(e),
            forall|asg: Seq<bool>| #[trigger]
                final(self).models(asg) ==> old(self).models(asg),
            r.wf(),
            r.shape_model() == elem.shape_model().drop_first(),
            elems_inv(*final(self), r.elems_model()),
            forall|asg: Seq<bool>, i: int|
                #![trigger final(self).models(asg), r.elems_model()[i]]
                final(self).models(asg) && 0 <= i < r.elems_model().len() ==> Self::eval(
                    r.elems_model()[i],
                    asg,
                ) == (exists|q: int|
                    0 <= q < elem.shape_model()[0] && Self::eval(
                        #[trigger] axis_slice::<Self>(
                            elem.elems_model(),
                            elem.shape_model()[0],
                            i,
                        )[q],
                        asg,
                    )),
    ;

    /// Returns a new tensor with the first dimension removed where each
    /// element is the binary sum of the elements along that dimension.
    fn tensor_sum(&mut self, elem: &Tensor<Self::Elem>) -> (r: Tensor<Self::Elem>)
        requires
            old(self).inv(),
            elem.wf(),
            elem.shape_model().len() > 0,
            elems_inv(*old(self), elem.elems_model()),
        ensures
            final(self).inv(),
            forall|e: Self::Elem| #[trigger]
                old(self).elem_inv(e) ==> final(self).elem_inv(e),
            forall|asg: Seq<bool>| #[trigger]
                final(self).models(asg) ==> old(self).models(asg),
            r.wf(),
            r.shape_model() == elem.shape_model().drop_first(),
            elems_inv(*final(self), r.elems_model()),
            forall|asg: Seq<bool>, i: int|
                #![trigger final(self).models(asg), r.elems_model()[i]]
                final(self).models(asg) && 0 <= i < r.elems_model().len() ==> Self::eval(
                    r.elems_model()[i],
                    asg,
                ) == (xor_fold::<Self>(
                    axis_slice::<Self>(elem.elems_model(), elem.shape_model()[0], i),
                    asg,
                )),
    ;

}

impl<ALG: BoolAlg> TensorAlg for ALG {
    fn scalar(&mut self, elem: bool) -> (r: Tensor<Self::Elem>) {
        let e = self.bool_lift(elem);
        let mut elems: GenVec<Self::Elem> = GenVector::with_capacity(1);
        elems.push(e);
        let mut dims: Vec<usize> = Vec::new();
        proof {
            assert forall|a: int, b: int| 0 <= a <= b <= dims@.len() implies size_model(
                #[trigger] dims@.subrange(a, b),
            ) <= usize::MAX by {
                assert(dims@.subrange(a, b) =~= Seq::<usize>::empty());
                assert(size_model(Seq::<usize>::empty()) == 1);
            };
            assert(elems.model() =~= seq![e]);
        }
        let shape = Shape::new(dims);
        Tensor { shape, elems }
    }

    fn diagonal(&mut self, dim: usize) -> (r: Tensor<Self::Elem>) {
        let zero = self.bool_zero();
        let unit = self.bool_unit();
        let ghost st1 = *self;
        let ghost dims: Seq<usize> = seq![dim, dim];
        proof {
            lemma_diag_dims_fit(dim);
        }
        let mut dvec: Vec<usize> = Vec::with_capacity(2);
        dvec.push(dim);
        dvec.push(dim);
        proof {
            assert(dvec@ =~= dims);
        }
        let shape = Shape::new(dvec);
        proof {
            lemma_size_model_pair(dim, dim);
        }
        let mut tensor: Tensor<Self::Elem> = Tensor::constant(shape, zero);
        let mut idx: usize = 0;
        while idx < dim
            invariant
                idx <= dim,
                *self == st1,
                st1.inv(),
                self.elem_inv(zero),
                self.elem_inv(unit),
                forall|e: Self::Elem| #[trigger]
                    old(self).elem_inv(e) ==> self.elem_inv(e),
                forall|asg: Seq<bool>| #[trigger]
                    self.models(asg) ==> old(self).models(asg),
                forall|asg: Seq<bool>| #[trigger]
                    self.models(asg) ==> Self::eval(zero, asg) == false && Self::eval(
                        unit,
                        asg,
                    ) == true,
                dims == seq![dim, dim],
                tensor.shape_model() == dims,
                tensor.wf(),
                tensor.elems_model().len() == (dim as nat) * (dim as nat),
                (dim as nat) * (dim as nat) <= usize::MAX,
                forall|p: int|
                    #![trigger tensor.elems_model()[p]]
                    0 <= p < tensor.elems_model().len() ==> tensor.elems_model()[p] == (
                    if exists|k: int| 0 <= k < idx && p == #[trigger] diag_pos(k, dim) {
                        unit
                    } else {
                        zero
                    }),
            decreases dim - idx,
        {
            proof {
                assert(dim < usize::MAX) by (nonlinear_arith)
                    requires
                        (dim as nat) * (dim as nat) <= usize::MAX,
                        idx < dim,
                ;
                assert(idx * ((dim + 1) as int) < (dim as nat) * (dim as nat))
                    by (nonlinear_arith)
                    requires
                        0 <= idx < dim,
                ;
            }
            let ghost prevt = tensor.elems_model();
            let pos = idx * (dim + 1);
            tensor.elems.set(pos, unit);
            proof {
                assert forall|p: int|
                    #![trigger tensor.elems_model()[p]]
                    0 <= p < tensor.elems_model().len() implies tensor.elems_model()[p] == (
                if exists|k: int| 0 <= k < idx + 1 && p == #[trigger] diag_pos(k, dim) {
                    unit
                } else {
                    zero
                }) by {
                    if p == idx * ((dim + 1) as int) {
                        assert(0 <= (idx as int) < idx + 1 && p == diag_pos(
                            idx as int,
                            dim,
                        ));
                    } else {
                        assert(tensor.elems_model()[p] == prevt[p]);
                        if exists|k: int| 0 <= k < idx + 1 && p == #[trigger] diag_pos(
                            k,
                            dim,
                        ) {
                            let k = choose|k: int|
                                0 <= k < idx + 1 && p == #[trigger] diag_pos(k, dim);
                            assert(k != idx);
                            assert(0 <= k < idx && p == diag_pos(k, dim));
                        }
                    }
                };
            }
            idx = idx + 1;
        }
        proof {
            assert forall|asg: Seq<bool>, c: Seq<usize>|
                #![trigger self.models(asg), tensor.cell(c)]
                self.models(asg) && coords_in(seq![dim, dim], c) implies Self::eval(
                tensor.cell(c),
                asg,
            ) == (c[0] == c[1]) by {
                let p = index_model(dims, c) as int;
                lemma_index_model_bound(dims, c);
                lemma_size_model_pair(dim, dim);
                assert(c =~= seq![c[0], c[1]]);
                lemma_index_model_pair(dim, dim, c[0], c[1]);
                assert(index_model(dims, c) == (c[0] as nat) + (dim as nat) * (
                c[1] as nat));
                if c[0] == c[1] {
                    let k = c[0] as int;
                    assert(p == k * ((dim + 1) as int)) by (nonlinear_arith)
                        requires
                            p == c[0] + (dim as int) * c[1],
                            c[0] == c[1],
                            k == c[0] as int,
                    ;
                    assert(p == diag_pos(k, dim));
                    assert(tensor.elems_model()[p] == unit);
                } else {
                    if exists|k: int| 0 <= k < dim && p == #[trigger] diag_pos(k, dim) {
                        let k = choose|k: int|
                            0 <= k < dim && p == #[trigger] diag_pos(k, dim);
                        assert(p == k * ((dim + 1) as int));
                        let ghost ck: Seq<usize> = seq![k as usize, k as usize];
                        lemma_index_model_pair(dim, dim, k as usize, k as usize);
                        assert(index_model(dims, ck) == (k as nat) + (dim as nat) * (
                        k as nat));
                        assert(k + (dim as int) * k == k * ((dim + 1) as int))
                            by (nonlinear_arith);
                        assert(coords_in(dims, ck));
                        assert(index_model(dims, ck) == index_model(dims, c));
                        lemma_index_model_injective(dims, c, ck);
                        assert(false);
                    }
                    assert(tensor.elems_model()[p] == zero);
                }
            };
        }
        tensor
    }

    fn tensor_not(&mut self, elem: &Tensor<Self::Elem>) -> (r: Tensor<Self::Elem>) {
        let n = elem.elems.len();
        let mut elems: GenVec<Self::Elem> = GenVector::with_capacity(n);
        let mut i: usize = 0;
        while i < n
            invariant
                i <= n,
                n == elem.elems_model().len(),
                elem.wf(),
                elems_inv(*old(self), elem.elems_model()),
                self.inv(),
                forall|e: Self::Elem| #[trigger]
                    old(self).elem_inv(e) ==> self.elem_inv(e),
                forall|asg: Seq<bool>| #[trigger]
                    self.models(asg) ==> old(self).models(asg),
                elems.model().len() == i,
                elems_inv(*self, elems.model()),
                forall|asg: Seq<bool>, j: int|
                    #![trigger self.models(asg), elems.model()[j]]
                    self.models(asg) && 0 <= j < i ==> Self::eval(elems.model()[j], asg)
                        == !Self::eval(elem.elems_model()[j], asg),
            decreases n - i,
        {
            let ghost prevst = *self;
            let ghost preve = elems.model();
            proof {
                assert(old(self).elem_inv(elem.elems_model()[i as int]));
            }
            let a = elem.elems.get(i);
            let x = self.bool_not(a);
            elems.push(x);
            proof {
                assert forall|asg: Seq<bool>, j: int|
                    #![trigger self.models(asg), elems.model()[j]]
                    self.models(asg) && 0 <= j < i + 1 implies Self::eval(
                    elems.model()[j],
                    asg,
                ) == !Self::eval(elem.elems_model()[j], asg) by {
                    assert(prevst.models(asg));
                    if j < i {
                        assert(elems.model()[j] == preve[j]);
                        assert(Self::eval(preve[j], asg) == !Self::eval(
                            elem.elems_model()[j],
                            asg,
                        ));
                    } else {
                        assert(elems.model()[j] == x);
                    }
                };
                assert forall|q: int| 0 <= q < i + 1 implies self.elem_inv(
                    #[trigger] elems.model()[q],
                ) by {
                    if q < i {
                        assert(preve[q] == elems.model()[q]);
                        assert(prevst.elem_inv(preve[q]));
                    }
                };
            }
            i = i + 1;
        }
        let shape = elem.shape.duplicate();
        Tensor { shape, elems }
    }

    fn tensor_or(&mut self, elem1: &Tensor<Self::Elem>, elem2: &Tensor<Self::Elem>) -> (r:
        Tensor<Self::Elem>) {
        let n = elem1.elems.len();
        let mut elems: GenVec<Self::Elem> = GenVector::with_capacity(n);
        let mut i: usize = 0;
        while i < n
            invariant
                i <= n,
                n == elem1.elems_model().len(),
                elem1.wf(),
                elem2.wf(),
                elem1.shape_model() == elem2.shape_model(),
                elems_inv(*old(self), elem1.elems_model()),
                elems_inv(*old(self), elem2.elems_model()),
                self.inv(),
                forall|e: Self::Elem| #[trigger]
                    old(self).elem_inv(e) ==> self.elem_inv(e),
                forall|asg: Seq<bool>| #[trigger]
                    self.models(asg) ==> old(self).models(asg),
                elems.model().len() == i,
                elems_inv(*self, elems.model()),
                forall|asg: Seq<bool>, j: int|
                    #![trigger self.models(asg), elems.model()[j]]
                    self.models(asg) && 0 <= j < i ==> Self::eval(elems.model()[j], asg)
                        == (Self::eval(elem1.elems_model()[j], asg) || Self::eval(elem2.elems_model()[j], asg)),
            decreases n - i,
        {
            let ghost prevst = *self;
            let ghost preve = elems.model();
            proof {
                assert(old(self).elem_inv(elem1.elems_model()[i as int]));
                assert(old(self).elem_inv(elem2.elems_model()[i as int]));
            }
            let a = elem1.elems.get(i);
            let b = elem2.elems.get(i);
            let x = self.bool_or(a, b);
            elems.push(x);
            proof {
                assert forall|asg: Seq<bool>, j: int|
                    #![trigger self.models(asg), elems.model()[j]]
                    self.models(asg) && 0 <= j < i + 1 implies Self::eval(
                    elems.model()[j],
                    asg,
                ) == (Self::eval(elem1.elems_model()[j], asg) || Self::eval(elem2.elems_model()[j], asg)) by {
                    assert(prevst.models(asg));
                    if j < i {
                        assert(elems.model()[j] == preve[j]);
                        assert(Self::eval(preve[j], asg) == (Self::eval(elem1.elems_model()[j], asg) || Self::eval(elem2.elems_model()[j], asg)));
                    } else {
                        assert(elems.model()[j] == x);
                    }
                };
                assert forall|q: int| 0 <= q < i + 1 implies self.elem_inv(
                    #[trigger] elems.model()[q],
                ) by {
                    if q < i {
                        assert(preve[q] == elems.model()[q]);
                        assert(prevst.elem_inv(preve[q]));
                    }
                };
            }
            i = i + 1;
        }
        let shape = elem1.shape.duplicate();
        Tensor { shape, elems }
    }

    fn tensor_and(&mut self, elem1: &Tensor<Self::Elem>, elem2: &Tensor<Self::Elem>) -> (r:
        Tensor<Self::Elem>) {
        let n = elem1.elems.len();
        let mut elems: GenVec<Self::Elem> = GenVector::with_capacity(n);
        let mut i: usize = 0;
        while i < n
            invariant
                i <= n,
                n == elem1.elems_model().len(),
                elem1.wf(),
                elem2.wf(),
                elem1.shape_model() == elem2.shape_model(),
                elems_inv(*old(self), elem1.elems_model()),
                elems_inv(*old(self), elem2.elems_model()),
                self.inv(),
                forall|e: Self::Elem| #[trigger]
                    old(self).elem_inv(e) ==> self.elem_inv(e),
                forall|asg: Seq<bool>| #[trigger]
                    self.models(asg) ==> old(self).models(asg),
                elems.model().len() == i,
                elems_inv(*self, elems.model()),
                forall|asg: Seq<bool>, j: int|
                    #![trigger self.models(asg), elems.model()[j]]
                    self.models(asg) && 0 <= j < i ==> Self::eval(elems.model()[j], asg)
                        == (Self::eval(elem1.elems_model()[j], asg) && Self::eval(elem2.elems_model()[j], asg)),
            decreases n - i,
        {
            let ghost prevst = *self;
            let ghost preve = elems.model();
            proof {
                assert(old(self).elem_inv(elem1.elems_model()[i as int]));
                assert(old(self).elem_inv(elem2.elems_model()[i as int]));
            }
            let a = elem1.elems.get(i);
            let b = elem2.elems.get(i);
            let x = self.bool_and(a, b);
            elems.push(x);
            proof {
                assert forall|asg: Seq<bool>, j: int|
                    #![trigger self.models(asg), elems.model()[j]]
                    self.models(asg) && 0 <= j < i + 1 implies Self::eval(
                    elems.model()[j],
                    asg,
                ) == (Self::eval(elem1.elems_model()[j], asg) && Self::eval(elem2.elems_model()[j], asg)) by {
                    assert(prevst.models(asg));
                    if j < i {
                        assert(elems.model()[j] == preve[j]);
                        assert(Self::eval(preve[j], asg) == (Self::eval(elem1.elems_model()[j], asg) && Self::eval(elem2.elems_model()[j], asg)));
                    } else {
                        assert(elems.model()[j] == x);
                    }
                };
                assert forall|q: int| 0 <= q < i + 1 implies self.elem_inv(
                    #[trigger] elems.model()[q],
                ) by {
                    if q < i {
                        assert(preve[q] == elems.model()[q]);
                        assert(prevst.elem_inv(preve[q]));
                    }
                };
            }
            i = i + 1;
        }
        let shape = elem1.shape.duplicate();
        Tensor { shape, elems }
    }

    fn tensor_xor(&mut self, elem1: &Tensor<Self::Elem>, elem2: &Tensor<Self::Elem>) -> (r:
        Tensor<Self::Elem>) {
        let n = elem1.elems.len();
        let mut elems: GenVec<Self::Elem> = GenVector::with_capacity(n);
        let mut i: usize = 0;
        while i < n
            invariant
                i <= n,
                n == elem1.elems_model().len(),
                elem1.wf(),
                elem2.wf(),
                elem1.shape_model() == elem2.shape_model(),
                elems_inv(*old(self), elem1.elems_model()),
                elems_inv(*old(self), elem2.elems_model()),
                self.inv(),
                forall|e: Self::Elem| #[trigger]
                    old(self).elem_inv(e) ==> self.elem_inv(e),
                forall|asg: Seq<bool>| #[trigger]
                    self.models(asg) ==> old(self).models(asg),
                elems.model().len() == i,
                elems_inv(*self, elems.model()),
                forall|asg: Seq<bool>, j: int|
                    #![trigger self.models(asg), elems.model()[j]]
                    self.models(asg) && 0 <= j < i ==> Self::eval(elems.model()[j], asg)
                        == (Self::eval(elem1.elems_model()[j], asg) != Self::eval(elem2.elems_model()[j], asg)),
            decreases n - i,
        {
            let ghost prevst = *self;
            let ghost preve = elems.model();
            proof {
                assert(old(self).elem_inv(elem1.elems_model()[i as int]));
                assert(old(self).elem_inv(elem2.elems_model()[i as int]));
            }
            let a = elem1.elems.get(i);
            let b = elem2.elems.get(i);
            let x = self.bool_xor(a, b);
            elems.push(x);
            proof {
                assert forall|asg: Seq<bool>, j: int|
                    #![trigger self.models(asg), elems.model()[j]]
                    self.models(asg) && 0 <= j < i + 1 implies Self::eval(
                    elems.model()[j],
                    asg,
                ) == (Self::eval(elem1.elems_model()[j], asg) != Self::eval(elem2.elems_model()[j], asg)) by {
                    assert(prevst.models(asg));
                    if j < i {
                        assert(elems.model()[j] == preve[j]);
                        assert(Self::eval(preve[j], asg) == (Self::eval(elem1.elems_model()[j], asg) != Self::eval(elem2.elems_model()[j], asg)));
                    } else {
                        assert(elems.model()[j] == x);
                    }
                };
                assert forall|q: int| 0 <= q < i + 1 implies self.elem_inv(
                    #[trigger] elems.model()[q],
                ) by {
                    if q < i {
                        assert(preve[q] == elems.model()[q]);
                        assert(prevst.elem_inv(preve[q]));
                    }
                };
            }
            i = i + 1;
        }
        let shape = elem1.shape.duplicate();
        Tensor { shape, elems }
    }

    fn tensor_equ(&mut self, elem1: &Tensor<Self::Elem>, elem2: &Tensor<Self::Elem>) -> (r:
        Tensor<Self::Elem>) {
        let n = elem1.elems.len();
        let mut elems: GenVec<Self::Elem> = GenVector::with_capacity(n);
        let mut i: usize = 0;
        while i < n
            invariant
                i <= n,
                n == elem1.elems_model().len(),
                elem1.wf(),
                elem2.wf(),
                elem1.shape_model() == elem2.shape_model(),
                elems_inv(*old(self), elem1.elems_model()),
                elems_inv(*old(self), elem2.elems_model()),
                self.inv(),
                forall|e: Self::Elem| #[trigger]
                    old(self).elem_inv(e) ==> self.elem_inv(e),
                forall|asg: Seq<bool>| #[trigger]
                    self.models(asg) ==> old(self).models(asg),
                elems.model().len() == i,
                elems_inv(*self, elems.model()),
                forall|asg: Seq<bool>, j: int|
                    #![trigger self.models(asg), elems.model()[j]]
                    self.models(asg) && 0 <= j < i ==> Self::eval(elems.model()[j], asg)
                        == (Self::eval(elem1.elems_model()[j], asg) == Self::eval(elem2.elems_model()[j], asg)),
            decreases n - i,
        {
            let ghost prevst = *self;
            let ghost preve = elems.model();
            proof {
                assert(old(self).elem_inv(elem1.elems_model()[i as int]));
                assert(old(self).elem_inv(elem2.elems_model()[i as int]));
            }
            let a = elem1.elems.get(i);
            let b = elem2.elems.get(i);
            let x = self.bool_equ(a, b);
            elems.push(x);
            proof {
                assert forall|asg: Seq<bool>, j: int|
                    #![trigger self.models(asg), elems.model()[j]]
                    self.models(asg) && 0 <= j < i + 1 implies Self::eval(
                    elems.model()[j],
                    asg,
                ) == (Self::eval(elem1.elems_model()[j], asg) == Self::eval(elem2.elems_model()[j], asg)) by {
                    assert(prevst.models(asg));
                    if j < i {
                        assert(elems.model()[j] == preve[j]);
                        assert(Self::eval(preve[j], asg) == (Self::eval(elem1.elems_model()[j], asg) == Self::eval(elem2.elems_model()[j], asg)));
                    } else {
                        assert(elems.model()[j] == x);
                    }
                };
                assert forall|q: int| 0 <= q < i + 1 implies self.elem_inv(
                    #[trigger] elems.model()[q],
                ) by {
                    if q < i {
                        assert(preve[q] == elems.model()[q]);
                        assert(prevst.elem_inv(preve[q]));
                    }
                };
            }
            i = i + 1;
        }
        let shape = elem1.shape.duplicate();
        Tensor { shape, elems }
    }

    fn tensor_imp(&mut self, elem1: &Tensor<Self::Elem>, elem2: &Tensor<Self::Elem>) -> (r:
        Tensor<Self::Elem>) {
        let n = elem1.elems.len();
        let mut elems: GenVec<Self::Elem> = GenVector::with_capacity(n);
        let mut i: usize = 0;
        while i < n
            invariant
                i <= n,
                n == elem1.elems_model().len(),
                elem1.wf(),
                elem2.wf(),
                elem1.shape_model() == elem2.shape_model(),
                elems_inv(*old(self), elem1.elems_model()),
                elems_inv(*old(self), elem2.elems_model()),
                self.inv(),
                forall|e: Self::Elem| #[trigger]
                    old(self).elem_inv(e) ==> self.elem_inv(e),
                forall|asg: Seq<bool>| #[trigger]
                    self.models(asg) ==> old(self).models(asg),
                elems.model().len() == i,
                elems_inv(*self, elems.model()),
                forall|asg: Seq<bool>, j: int|
                    #![trigger self.models(asg), elems.model()[j]]
                    self.models(asg) && 0 <= j < i ==> Self::eval(elems.model()[j], asg)
                        == (!Self::eval(elem1.elems_model()[j], asg) || Self::eval(elem2.elems_model()[j], asg)),
            decreases n - i,
        {
            let ghost prevst = *self;
            let ghost preve = elems.model();
            proof {
                assert(old(self).elem_inv(elem1.elems_model()[i as int]));
                assert(old(self).elem_inv(elem2.elems_model()[i as int]));
            }
            let a = elem1.elems.get(i);
            let b = elem2.elems.get(i);
            let x = self.bool_imp(a, b);
            elems.push(x);
            proof {
                assert forall|asg: Seq<bool>, j: int|
                    #![trigger self.models(asg), elems.model()[j]]
                    self.models(asg) && 0 <= j < i + 1 implies Self::eval(
                    elems.model()[j],
                    asg,
                ) == (!Self::eval(elem1.elems_model()[j], asg) || Self::eval(elem2.elems_model()[j], asg)) by {
                    assert(prevst.models(asg));
                    if j < i {
                        assert(elems.model()[j] == preve[j]);
                        assert(Self::eval(preve[j], asg) == (!Self::eval(elem1.elems_model()[j], asg) || Self::eval(elem2.elems_model()[j], asg)));
                    } else {
                        assert(elems.model()[j] == x);
                    }
                };
                assert forall|q: int| 0 <= q < i + 1 implies self.elem_inv(
                    #[trigger] elems.model()[q],
                ) by {
                    if q < i {
                        assert(preve[q] == elems.model()[q]);
                        assert(prevst.elem_inv(preve[q]));
                    }
                };
            }
            i = i + 1;
        }
        let shape = elem1.shape.duplicate();
        Tensor { shape, elems }
    }

    fn tensor_all(&mut self, elem: &Tensor<Self::Elem>) -> (r: Tensor<Self::Elem>) {
        let (head, tshape) = elem.shape.split();
        let tsize = tshape.size();
        let total = elem.elems.len();
        proof {
            assert(elem.elems_model().len() == (head as nat) * (tsize as nat));
        }
        let mut elems: GenVec<Self::Elem> = GenVector::with_capacity(tsize);
        let mut i: usize = 0;
        while i < tsize
            invariant
                i <= tsize,
                tsize == size_model(elem.shape_model().drop_first()),
                elem.wf(),
                elem.shape_model().len() > 0,
                head == elem.shape_model()[0],
                elem.elems_model().len() == (head as nat) * (tsize as nat),
                total == elem.elems_model().len(),
                elems_inv(*old(self), elem.elems_model()),
                self.inv(),
                forall|e: Self::Elem| #[trigger]
                    old(self).elem_inv(e) ==> self.elem_inv(e),
                forall|asg: Seq<bool>| #[trigger]
                    self.models(asg) ==> old(self).models(asg),
                elems.model().len() == i,
                elems_inv(*self, elems.model()),
                forall|asg: Seq<bool>, j: int|
                    #![trigger self.models(asg), elems.model()[j]]
                    self.models(asg) && 0 <= j < i ==> Self::eval(elems.model()[j], asg)
                        == (forall|q: int|
                        0 <= q < elem.shape_model()[0] ==> Self::eval(
                            #[trigger] axis_slice::<Self>(
                                elem.elems_model(),
                                elem.shape_model()[0],
                                j,
                            )[q],
                            asg,
                        )),
            decreases tsize - i,
        {
            proof {
                assert((i + 1) * (head as int) <= (tsize as int) * (head as int))
                    by (nonlinear_arith)
                    requires
                        0 <= i < tsize,
                ;
                assert((tsize as int) * (head as int) == (head as nat) * (tsize as nat))
                    by (nonlinear_arith);
                assert(i * (head as int) + (head as int) == (i + 1) * (head as int))
                    by (nonlinear_arith);
                assert(i * (head as int) + (head as int) <= total);
            }
            let base = i * head;
            let ghost slice = axis_slice::<Self>(elem.elems_model(), head, i as int);
            let mut acc = self.bool_unit();
            let mut j: usize = 0;
            while j < head
                invariant
                    j <= head,
                    i < tsize,
                    base == i * (head as int),
                    base + head <= elem.elems_model().len(),
                    tsize == size_model(elem.shape_model().drop_first()),
                    elem.wf(),
                    elem.shape_model().len() > 0,
                    head == elem.shape_model()[0],
                    elem.elems_model().len() == (head as nat) * (tsize as nat),
                    total == elem.elems_model().len(),
                    slice == axis_slice::<Self>(elem.elems_model(), head, i as int),
                    elems_inv(*old(self), elem.elems_model()),
                    self.inv(),
                    self.elem_inv(acc),
                    forall|e: Self::Elem| #[trigger]
                        old(self).elem_inv(e) ==> self.elem_inv(e),
                    forall|asg: Seq<bool>| #[trigger]
                        self.models(asg) ==> old(self).models(asg),
                    elems.model().len() == i,
                    elems_inv(*self, elems.model()),
                    forall|asg: Seq<bool>, q: int|
                        #![trigger self.models(asg), elems.model()[q]]
                        self.models(asg) && 0 <= q < i ==> Self::eval(elems.model()[q], asg)
                            == (forall|p: int|
                            0 <= p < elem.shape_model()[0] ==> Self::eval(
                                #[trigger] axis_slice::<Self>(
                                    elem.elems_model(),
                                    elem.shape_model()[0],
                                    q,
                                )[p],
                                asg,
                            )),
                    forall|asg: Seq<bool>| #[trigger]
                        self.models(asg) ==> Self::eval(acc, asg) == (forall|p: int|
                            0 <= p < j ==> Self::eval(#[trigger] slice[p], asg)),
                decreases head - j,
            {
                proof {
                    assert(slice[j as int] == elem.elems_model()[base + j]);
                    assert(old(self).elem_inv(elem.elems_model()[base + j]));
                }
                let x = elem.elems.get(base + j);
                let ghost prevst = *self;
                let ghost prevacc = acc;
                acc = self.bool_and(acc, x);
                proof {
                    assert forall|asg: Seq<bool>| #[trigger] self.models(asg) implies
                        Self::eval(acc, asg) == (forall|p: int|
                        0 <= p < j + 1 ==> Self::eval(#[trigger] slice[p], asg)) by {
                        assert(prevst.models(asg));
                        assert(Self::eval(prevacc, asg) == (forall|p: int|
                            0 <= p < j ==> Self::eval(#[trigger] slice[p], asg)));
                        assert(Self::eval(x, asg) == Self::eval(slice[j as int], asg));
                    };
                }
                j = j + 1;
            }
            let ghost prevst = *self;
            let ghost preve = elems.model();
            proof {
                assert(slice.take(head as int) =~= slice);
            }
            elems.push(acc);
            proof {
                assert forall|asg: Seq<bool>, q: int|
                    #![trigger self.models(asg), elems.model()[q]]
                    self.models(asg) && 0 <= q < i + 1 implies Self::eval(
                    elems.model()[q],
                    asg,
                ) == (forall|p: int|
                            0 <= p < elem.shape_model()[0] ==> Self::eval(
                                #[trigger] axis_slice::<Self>(
                                    elem.elems_model(),
                                    elem.shape_model()[0],
                                    q,
                                )[p],
                                asg,
                            )) by {
                    assert(prevst.models(asg));
                    if q < i {
                        assert(elems.model()[q] == preve[q]);
                        assert(Self::eval(preve[q], asg) == (forall|p: int|
                            0 <= p < elem.shape_model()[0] ==> Self::eval(
                                #[trigger] axis_slice::<Self>(
                                    elem.elems_model(),
                                    elem.shape_model()[0],
                                    q,
                                )[p],
                                asg,
                            )));
                    } else {
                        assert(elems.model()[q] == acc);
                    }
                };
                assert forall|q: int| 0 <= q < i + 1 implies self.elem_inv(
                    #[trigger] elems.model()[q],
                ) by {
                    if q < i {
                        assert(preve[q] == elems.model()[q]);
                        assert(prevst.elem_inv(preve[q]));
                    }
                };
            }
            i = i + 1;
        }
        Tensor { shape: tshape, elems }
    }

    fn tensor_any(&mut self, elem: &Tensor<Self::Elem>) -> (r: Tensor<Self::Elem>) {
        let (head, tshape) = elem.shape.split();
        let tsize = tshape.size();
        let total = elem.elems.len();
        proof {
            assert(elem.elems_model().len() == (head as nat) * (tsize as nat));
        }
        let mut elems: GenVec<Self::Elem> = GenVector::with_capacity(tsize);
        let mut i: usize = 0;
        while i < tsize
            invariant
                i <= tsize,
                tsize == size_model(elem.shape_model().drop_first()),
                elem.wf(),
                elem.shape_model().len() > 0,
                head == elem.shape_model()[0],
                elem.elems_model().len() == (head as nat) * (tsize as nat),
                total == elem.elems_model().len(),
                elems_inv(*old(self), elem.elems_model()),
                self.inv(),
                forall|e: Self::Elem| #[trigger]
                    old(self).elem_inv(e) ==> self.elem_inv(e),
                forall|asg: Seq<bool>| #[trigger]
                    self.models(asg) ==> old(self).models(asg),
                elems.model().len() == i,
                elems_inv(*self, elems.model()),
                forall|asg: Seq<bool>, j: int|
                    #![trigger self.models(asg), elems.model()[j]]
                    self.models(asg) && 0 <= j < i ==> Self::eval(elems.model()[j], asg)
                        == (exists|q: int|
                        0 <= q < elem.shape_model()[0] && Self::eval(
                            #[trigger] axis_slice::<Self>(
                                elem.elems_model(),
                                elem.shape_model()[0],
                                j,
                            )[q],
                            asg,
                        )),
            decreases tsize - i,
        {
            proof {
                assert((i + 1) * (head as int) <= (tsize as int) * (head as int))
                    by (nonlinear_arith)
                    requires
                        0 <= i < tsize,
                ;
                assert((tsize as int) * (head as int) == (head as nat) * (tsize as nat))
                    by (nonlinear_arith);
                assert(i * (head as int) + (head as int) == (i + 1) * (head as int))
                    by (nonlinear_arith);
                assert(i * (head as int) + (head as int) <= total);
            }
            let base = i * head;
            let ghost slice = axis_slice::<Self>(elem.elems_model(), head, i as int);
            let mut acc = self.bool_zero();
            let mut j: usize = 0;
            while j < head
                invariant
                    j <= head,
                    i < tsize,
                    base == i * (head as int),
                    base + head <= elem.elems_model().len(),
                    tsize == size_model(elem.shape_model().drop_first()),
                    elem.wf(),
                    elem.shape_model().len() > 0,
                    head == elem.shape_model()[0],
                    elem.elems_model().len() == (head as nat) * (tsize as nat),
                    total == elem.elems_model().len(),
                    slice == axis_slice::<Self>(elem.elems_model(), head, i as int),
                    elems_inv(*old(self), elem.elems_model()),
                    self.inv(),
                    self.elem_inv(acc),
                    forall|e: Self::Elem| #[trigger]
                        old(self).elem_inv(e) ==> self.elem_inv(e),
                    forall|asg: Seq<bool>| #[trigger]
                        self.models(asg) ==> old(self).models(asg),
                    elems.model().len() == i,
                    elems_inv(*self, elems.model()),
                    forall|asg: Seq<bool>, q: int|
                        #![trigger self.models(asg), elems.model()[q]]
                        self.models(asg) && 0 <= q < i ==> Self::eval(elems.model()[q], asg)
                            == (exists|p: int|
                            0 <= p < elem.shape_model()[0] && Self::eval(
                                #[trigger] axis_slice::<Self>(
                                    elem.elems_model(),
                                    elem.shape_model()[0],
                                    q,
                                )[p],
                                asg,
                            )),
                    forall|asg: Seq<bool>| #[trigger]
                        self.models(asg) ==> Self::eval(acc, asg) == (exists|p: int|
                            0 <= p < j && Self::eval(#[trigger] slice[p], asg)),
                decreases head - j,
            {
                proof {
                    assert(slice[j as int] == elem.elems_model()[base + j]);
                    assert(old(self).elem_inv(elem.elems_model()[base + j]));
                }
                let x = elem.elems.get(base + j);
                let ghost prevst = *self;
                let ghost prevacc = acc;
                acc = self.bool_or(acc, x);
                proof {
                    assert forall|asg: Seq<bool>| #[trigger] self.models(asg) implies
                        Self::eval(acc, asg) == (exists|p: int|
                        0 <= p < j + 1 && Self::eval(#[trigger] slice[p], asg)) by {
                        assert(prevst.models(asg));
                        assert(Self::eval(prevacc, asg) == (exists|p: int|
                            0 <= p < j && Self::eval(#[trigger] slice[p], asg)));
                        assert(Self::eval(x, asg) == Self::eval(slice[j as int], asg));
                        if Self::eval(slice[j as int], asg) {
                            assert(0 <= (j as int) < j + 1 && Self::eval(
                                slice[j as int],
                                asg,
                            ));
                        }
                    };
                }
                j = j + 1;
            }
            let ghost prevst = *self;
            let ghost preve = elems.model();
            proof {
                assert(slice.take(head as int) =~= slice);
            }
            elems.push(acc);
            proof {
                assert forall|asg: Seq<bool>, q: int|
                    #![trigger self.models(asg), elems.model()[q]]
                    self.models(asg) && 0 <= q < i + 1 implies Self::eval(
                    elems.model()[q],
                    asg,
                ) == (exists|p: int|
                            0 <= p < elem.shape_model()[0] && Self::eval(
                                #[trigger] axis_slice::<Self>(
                                    elem.elems_model(),
                                    elem.shape_model()[0],
                                    q,
                                )[p],
                                asg,
                            )) by {
                    assert(prevst.models(asg));
                    if q < i {
                        assert(elems.model()[q] == preve[q]);
                        assert(Self::eval(preve[q], asg) == (exists|p: int|
                            0 <= p < elem.shape_model()[0] && Self::eval(
                                #[trigger] axis_slice::<Self>(
                                    elem.elems_model(),
                                    elem.shape_model()[0],
                                    q,
                                )[p],
                                asg,
                            )));
                    } else {
                        assert(elems.model()[q] == acc);
                    }
                };
                assert forall|q: int| 0 <= q < i + 1 implies self.elem_inv(
                    #[trigger] elems.model()[q],
                ) by {
                    if q < i {
                        assert(preve[q] == elems.model()[q]);
                        assert(prevst.elem_inv(preve[q]));
                    }
                };
            }
            i = i + 1;
        }
        Tensor { shape: tshape, elems }
    }

    fn tensor_sum(&mut self, elem: &Tensor<Self::Elem>) -> (r: Tensor<Self::Elem>) {
        let (head, tshape) = elem.shape.split();
        let tsize = tshape.size();
        let total = elem.elems.len();
        proof {
            assert(elem.elems_model().len() == (head as nat) * (tsize as nat));
        }
        let mut elems: GenVec<Self::Elem> = GenVector::with_capacity(tsize);
        let mut i: usize = 0;
        while i < tsize
            invariant
                i <= tsize,
                tsize == size_model(elem.shape_model().drop_first()),
                elem.wf(),
                elem.shape_model().len() > 0,
                head == elem.shape_model()[0],
                elem.elems_model().len() == (head as nat) * (tsize as nat),
                total == elem.elems_model().len(),
                elems_inv(*old(self), elem.elems_model()),
                self.inv(),
                forall|e: Self::Elem| #[trigger]
                    old(self).elem_inv(e) ==> self.elem_inv(e),
                forall|asg: Seq<bool>| #[trigger]
                    self.models(asg) ==> old(self).models(asg),
                elems.model().len() == i,
                elems_inv(*self, elems.model()),
                forall|asg: Seq<bool>, j: int|
                    #![trigger self.models(asg), elems.model()[j]]
                    self.models(asg) && 0 <= j < i ==> Self::eval(elems.model()[j], asg)
                        == (xor_fold::<Self>(
                        axis_slice::<Self>(elem.elems_model(), elem.shape_model()[0], j),
                        asg,
                    )),
            decreases tsize - i,
        {
            proof {
                assert((i + 1) * (head as int) <= (tsize as int) * (head as int))
                    by (nonlinear_arith)
                    requires
                        0 <= i < tsize,
                ;
                assert((tsize as int) * (head as int) == (head as nat) * (tsize as nat))
                    by (nonlinear_arith);
                assert(i * (head as int) + (head as int) == (i + 1) * (head as int))
                    by (nonlinear_arith);
                assert(i * (head as int) + (head as int) <= total);
            }
            let base = i * head;
            let ghost slice = axis_slice::<Self>(elem.elems_model(), head, i as int);
            let mut acc = self.bool_zero();
            let mut j: usize = 0;
            while j < head
                invariant
                    j <= head,
                    i < tsize,
                    base == i * (head as int),
                    base + head <= elem.elems_model().len(),
                    tsize == size_model(elem.shape_model().drop_first()),
                    elem.wf(),
                    elem.shape_model().len() > 0,
                    head == elem.shape_model()[0],
                    elem.elems_model().len() == (head as nat) * (tsize as nat),
                    total == elem.elems_model().len(),
                    slice == axis_slice::<Self>(elem.elems_model(), head, i as int),
                    elems_inv(*old(self), elem.elems_model()),
                    self.inv(),
                    self.elem_inv(acc),
                    forall|e: Self::Elem| #[trigger]
                        old(self).elem_inv(e) ==> self.elem_inv(e),
                    forall|asg: Seq<bool>| #[trigger]
                        self.models(asg) ==> old(self).models(asg),
                    elems.model().len() == i,
                    elems_inv(*self, elems.model()),
                    forall|asg: Seq<bool>, q: int|
                        #![trigger self.models(asg), elems.model()[q]]
                        self.models(asg) && 0 <= q < i ==> Self::eval(elems.model()[q], asg)
                            == (xor_fold::<Self>(
                            axis_slice::<Self>(elem.elems_model(), elem.shape_model()[0], q),
                            asg,
                        )),
                    forall|asg: Seq<bool>| #[trigger]
                        self.models(asg) ==> Self::eval(acc, asg) == (xor_fold::<Self>(slice.take(j as int), asg)),
                decreases head - j,
            {
                proof {
                    assert(slice[j as int] == elem.elems_model()[base + j]);
                    assert(old(self).elem_inv(elem.elems_model()[base + j]));
                }
                let x = elem.elems.get(base + j);
                let ghost prevst = *self;
                let ghost prevacc = acc;
                acc = self.bool_xor(acc, x);
                proof {
                    assert forall|asg: Seq<bool>| #[trigger] self.models(asg) implies
                        Self::eval(acc, asg) == (xor_fold::<Self>(slice.take(j + 1), asg)) by {
                        assert(prevst.models(asg));
                        assert(Self::eval(prevacc, asg) == (xor_fold::<Self>(slice.take(j as int), asg)));
                        assert(Self::eval(x, asg) == Self::eval(slice[j as int], asg));
                        assert(slice.take(j + 1) =~= slice.take(j as int).push(
                            slice[j as int],
                        ));
                        assert(slice.take(j + 1).drop_last() =~= slice.take(j as int));
                        assert(slice.take(j + 1).last() == slice[j as int]);
                    };
                }
                j = j + 1;
            }
            let ghost prevst = *self;
            let ghost preve = elems.model();
            proof {
                assert(slice.take(head as int) =~= slice);
            }
            elems.push(acc);
            proof {
                assert forall|asg: Seq<bool>, q: int|
                    #![trigger self.models(asg), elems.model()[q]]
                    self.models(asg) && 0 <= q < i + 1 implies Self::eval(
                    elems.model()[q],
                    asg,
                ) == (xor_fold::<Self>(
                            axis_slice::<Self>(elem.elems_model(), elem.shape_model()[0], q),
                            asg,
                        )) by {
                    assert(prevst.models(asg));
                    if q < i {
                        assert(elems.model()[q] == preve[q]);
                        assert(Self::eval(preve[q], asg) == (xor_fold::<Self>(
                            axis_slice::<Self>(elem.elems_model(), elem.shape_model()[0], q),
                            asg,
                        )));
                    } else {
                        assert(elems.model()[q] == acc);
                    }
                };
                assert forall|q: int| 0 <= q < i + 1 implies self.elem_inv(
                    #[trigger] elems.model()[q],
                ) by {
                    if q < i {
                        assert(preve[q] == elems.model()[q]);
                        assert(prevst.elem_inv(preve[q]));
                    }
                };
            }
            i = i + 1;
        }
        Tensor { shape: tshape, elems }
    }

}

/// The size of a one-dimension shape is that dimension.
pub proof fn lemma_size_model_single(d: usize)
    ensures
        size_model(seq![d]) == d,
{
    assert(seq![d].drop_first() =~= Seq::<usize>::empty());
    assert(size_model(Seq::<usize>::empty()) == 1);
    assert(size_model(seq![d]) == (d as nat) * 1);
    assert((d as nat) * 1 == d as nat) by (nonlinear_arith);
}

/// The size of a two-dimension shape is the product of the dimensions.
pub proof fn lemma_size_model_pair(a: usize, b: usize)
    ensures
        size_model(seq![a, b]) == (a as nat) * (b as nat),
{
    lemma_size_model_single(b);
    assert(seq![a, b].drop_first() =~= seq![b]);
    assert(size_model(seq![a, b]) == (a as nat) * size_model(seq![a, b].drop_first()));
}

/// The row-major index in a two-dimension shape spelled out.
pub proof fn lemma_index_model_pair(a: usize, b: usize, c0: usize, c1: usize)
    ensures
        index_model(seq![a, b], seq![c0, c1]) == (c0 as nat) + (a as nat) * (c1 as nat),
{
    assert(seq![b].drop_first() =~= Seq::<usize>::empty());
    assert(seq![c1].drop_first() =~= Seq::<usize>::empty());
    assert(index_model(Seq::<usize>::empty(), Seq::<usize>::empty()) == 0);
    assert(index_model(seq![b], seq![c1]) == (c1 as nat) + (b as nat) * 0);
    assert(seq![a, b].drop_first() =~= seq![b]);
    assert(seq![c0, c1].drop_first() =~= seq![c1]);
    assert(index_model(seq![a, b], seq![c0, c1]) == (c0 as nat) + (a as nat)
        * index_model(seq![b], seq![c1]));
}

/// The linear index of the `k`-th diagonal cell of a rank-two square
/// tensor.
spec fn diag_pos(k: int, dim: usize) -> int {
    k * ((dim + 1) as int)
}

/// A rank-two square shape's partial products all fit.
proof fn lemma_diag_dims_fit(dim: usize)
    requires
        (dim as nat) * (dim as nat) <= usize::MAX,
    ensures
        dims_fit(seq![dim, dim]),
{
    let dims: Seq<usize> = seq![dim, dim];
    assert forall|a: int, b: int| 0 <= a <= b <= dims.len() implies size_model(
        #[trigger] dims.subrange(a, b),
    ) <= usize::MAX by {
        let sub = dims.subrange(a, b);
        if b - a == 0 {
            assert(sub =~= Seq::<usize>::empty());
            assert(size_model(sub) == 1);
        } else if b - a == 1 {
            assert(sub =~= seq![dim]);
            lemma_size_model_single(dim);
            assert(dim <= (dim as nat) * (dim as nat) || dim == 0) by (nonlinear_arith);
        } else {
            assert(sub =~= dims);
            lemma_size_model_pair(dim, dim);
        }
    };
}

/// Whether, at cell position `p`, at least one of the parallel tensors
/// holds an element that is true under the assignment.
pub open spec fn cell_clause_holds<ALG: BoolAlg>(
    ts: Seq<&Tensor<ALG::Elem>>,
    p: int,
    asg: Seq<bool>,
) -> bool {
    exists|ti: int| 0 <= ti < ts.len() && ALG::eval(#[trigger] ts[ti].elems_model()[p], asg)
}

/// The tensor operations special to a satisfiability-backed algebra:
/// tensors of fresh variables, clauses built cell by cell from parallel
/// tensors, solving, and reading a whole tensor back from the found model.
pub trait TensorSat: TensorAlg + BoolSat {
    /// Creates a new tensor of the given shape filled with fresh
    /// variables.
    fn tensor_add_variable(&mut self, shape: Shape) -> (r: Tensor<Self::Elem>)
        requires
            old(self).inv(),
            shape.wf(),
        ensures
            final(self).inv(),
            forall|e: Self::Elem| #[trigger]
                old(self).elem_inv(e) ==> final(self).elem_inv(e),
            forall|asg: Seq<bool>| #[trigger]
                final(self).models(asg) ==> old(self).models(asg),
            r.wf(),
            r.shape_model() == shape.model(),
            elems_inv(*final(self), r.elems_model()),
            final(self).live() ==> old(self).live(),
    ;

    /// Adds one disjunctive clause per cell position, each over the cells
    /// of the given parallel tensors at that position; with no tensors the
    /// empty, unsatisfiable clause is added.
    fn tensor_add_clause(&mut self, tensors: &[&Tensor<Self::Elem>])
        requires
            old(self).inv(),
            forall|ti: int|
                #![trigger tensors@[ti]]
                0 <= ti < tensors@.len() ==> tensors@[ti].wf() && elems_inv(
                    *old(self),
                    tensors@[ti].elems_model(),
                ) && tensors@[ti].shape_model() == tensors@[0].shape_model(),
        ensures
            final(self).inv(),
            forall|e: Self::Elem| #[trigger]
                old(self).elem_inv(e) ==> final(self).elem_inv(e),
            forall|asg: Seq<bool>| #[trigger]
                final(self).models(asg) ==> old(self).models(asg),
            tensors@.len() == 0 ==> forall|asg: Seq<bool>| !(#[trigger] final(self).models(
                asg,
            )),
            tensors@.len() > 0 ==> forall|asg: Seq<bool>| #[trigger]
                final(self).models(asg) ==> forall|p: int|
                    0 <= p < size_model(tensors@[0].shape_model())
                        ==> #[trigger] cell_clause_holds::<Self>(tensors@, p, asg),
            tensors@.len() > 0 ==> forall|asg: Seq<bool>|
                old(self).models(asg) && (forall|p: int|
                    0 <= p < size_model(tensors@[0].shape_model())
                        ==> #[trigger] cell_clause_holds::<Self>(tensors@, p, asg))
                    ==> #[trigger] final(self).models(asg),
    ;

    /// Runs the external solver on the accumulated constraints; on success
    /// a model consistent with all of them is stored.
    fn tensor_find_model(&mut self) -> (r: bool)
        requires
            old(self).inv(),
        ensures
            final(self).inv(),
            forall|e: Self::Elem| #[trigger]
                final(self).elem_inv(e) == old(self).elem_inv(e),
            forall|asg: Seq<bool>| #[trigger]
                final(self).models(asg) == old(self).models(asg),
            r ==> final(self).has_model() && final(self).models(final(self).model()),
    ;

    /// Returns the boolean value of every cell of the tensor in the model
    /// that was found.
    fn tensor_get_value(&self, elem: &Tensor<Self::Elem>) -> (r: Tensor<bool>)
        requires
            self.inv(),
            self.has_model(),
            elem.wf(),
            elems_inv(*self, elem.elems_model()),
        ensures
            r.wf(),
            r.shape_model() == elem.shape_model(),
            forall|i: int|
                #![trigger r.elems_model()[i]]
                0 <= i < r.elems_model().len() ==> r.elems_model()[i] == Self::eval(
                    elem.elems_model()[i],
                    self.model(),
                ),
    ;
}

impl<ALG: BoolSat> TensorSat for ALG {
    fn tensor_add_variable(&mut self, shape: Shape) -> (r: Tensor<Self::Elem>) {
        let size = shape.size();
        let mut elems: GenVec<Self::Elem> = GenVector::with_capacity(size);
        let mut i: usize = 0;
        while i < size
            invariant
                i <= size,
                self.inv(),
                forall|e: Self::Elem| #[trigger]
                    old(self).elem_inv(e) ==> self.elem_inv(e),
                forall|asg: Seq<bool>| #[trigger]
                    self.models(asg) ==> old(self).models(asg),
                self.live() ==> old(self).live(),
                elems.model().len() == i,
                elems_inv(*self, elems.model()),
            decreases size - i,
        {
            let ghost prevst = *self;
            let ghost preve = elems.model();
            let x = self.bool_add_variable();
            elems.push(x);
            proof {
                assert forall|q: int| 0 <= q < i + 1 implies self.elem_inv(
                    #[trigger] elems.model()[q],
                ) by {
                    if q < i {
                        assert(preve[q] == elems.model()[q]);
                        assert(prevst.elem_inv(preve[q]));
                    }
                };
            }
            i = i + 1;
        }
        Tensor { shape, elems }
    }

    fn tensor_add_clause(&mut self, tensors: &[&Tensor<Self::Elem>]) {
        if tensors.len() == 0 {
            let empty: Vec<Self::Elem> = Vec::new();
            self.bool_add_clause(empty.as_slice());
            return;
        }
        let size = tensors[0].elems.len();
        let ghost dims = tensors@[0].shape_model();
        let mut p: usize = 0;
        while p < size
            invariant
                p <= size,
                tensors@.len() > 0,
                size == size_model(dims),
                dims == tensors@[0].shape_model(),
                forall|ti: int|
                    #![trigger tensors@[ti]]
                    0 <= ti < tensors@.len() ==> tensors@[ti].wf() && elems_inv(
                        *old(self),
                        tensors@[ti].elems_model(),
                    ) && tensors@[ti].shape_model() == dims,
                self.inv(),
                forall|e: Self::Elem| #[trigger]
                    old(self).elem_inv(e) ==> self.elem_inv(e),
                forall|asg: Seq<bool>| #[trigger]
                    self.models(asg) ==> old(self).models(asg),
                forall|asg: Seq<bool>| #[trigger]
                    self.models(asg) ==> forall|q: int|
                        0 <= q < p ==> #[trigger] cell_clause_holds::<Self>(
                            tensors@,
                            q,
                            asg,
                        ),
                forall|asg: Seq<bool>|
                    old(self).models(asg) && (forall|q: int|
                        0 <= q < p ==> #[trigger] cell_clause_holds::<Self>(
                            tensors@,
                            q,
                            asg,
                        )) ==> #[trigger] self.models(asg),
            decreases size - p,
        {
            let mut clause: Vec<Self::Elem> = Vec::with_capacity(tensors.len());
            let mut ti: usize = 0;
            while ti < tensors.len()
                invariant
                    ti <= tensors@.len(),
                    p < size,
                    size == size_model(dims),
                    dims == tensors@[0].shape_model(),
                    forall|tj: int|
                        #![trigger tensors@[tj]]
                        0 <= tj < tensors@.len() ==> tensors@[tj].wf() && elems_inv(
                            *old(self),
                            tensors@[tj].elems_model(),
                        ) && tensors@[tj].shape_model() == dims,
                    self.inv(),
                    forall|e: Self::Elem| #[trigger]
                        old(self).elem_inv(e) ==> self.elem_inv(e),
                    forall|asg: Seq<bool>| #[trigger]
                        self.models(asg) ==> old(self).models(asg),
                    forall|asg: Seq<bool>| #[trigger]
                        self.models(asg) ==> forall|q: int|
                            0 <= q < p ==> #[trigger] cell_clause_holds::<Self>(
                                tensors@,
                                q,
                                asg,
                            ),
                    clause.len() == ti,
                    forall|tj: int|
                        #![trigger clause@[tj]]
                        0 <= tj < ti ==> clause@[tj] == tensors@[tj].elems_model()[p as int]
                            && self.elem_inv(clause@[tj]),
                decreases tensors@.len() - ti,
            {
                let t = tensors[ti];
                proof {
                    assert(tensors@[ti as int].elems_model().len() == size_model(dims));
                    assert(old(self).elem_inv(
                        tensors@[ti as int].elems_model()[p as int],
                    ));
                }
                clause.push(t.elems.get(p));
                ti = ti + 1;
            }
            let ghost prevst = *self;
            self.bool_add_clause(clause.as_slice());
            proof {
                assert forall|asg: Seq<bool>|
                    old(self).models(asg) && (forall|q: int|
                        0 <= q < p + 1 ==> #[trigger] cell_clause_holds::<Self>(
                            tensors@,
                            q,
                            asg,
                        )) implies #[trigger] self.models(asg) by {
                    assert(forall|q: int|
                        0 <= q < p ==> cell_clause_holds::<Self>(tensors@, q, asg));
                    assert(prevst.models(asg));
                    assert(cell_clause_holds::<Self>(tensors@, p as int, asg));
                    let ti = choose|ti: int|
                        0 <= ti < tensors@.len() && Self::eval(
                            #[trigger] tensors@[ti].elems_model()[p as int],
                            asg,
                        );
                    assert(clause@[ti] == tensors@[ti].elems_model()[p as int]);
                    assert(Self::eval(clause@[ti], asg));
                    assert(exists|i0: int|
                        0 <= i0 < clause@.len() && Self::eval(#[trigger] clause@[i0], asg));
                };
                assert forall|asg: Seq<bool>| #[trigger] self.models(asg) implies
                    forall|q: int|
                        0 <= q < p + 1 ==> #[trigger] cell_clause_holds::<Self>(
                            tensors@,
                            q,
                            asg,
                        ) by {
                    assert(prevst.models(asg));
                    assert forall|q: int| 0 <= q < p + 1 implies #[trigger]
                        cell_clause_holds::<Self>(tensors@, q, asg) by {
                        if q == p {
                            let i0 = choose|i0: int|
                                0 <= i0 < clause@.len() && Self::eval(
                                    #[trigger] clause@[i0],
                                    asg,
                                );
                            assert(clause@[i0] == tensors@[i0].elems_model()[q]);
                            assert(Self::eval(tensors@[i0].elems_model()[q], asg));
                        } else {
                            assert(cell_clause_holds::<Self>(tensors@, q, asg));
                        }
                    };
                };
            }
            p = p + 1;
        }
    }

    fn tensor_find_model(&mut self) -> (r: bool) {
        let empty: Vec<Self::Elem> = Vec::new();
        self.bool_find_model(empty.as_slice())
    }

    fn tensor_get_value(&self, elem: &Tensor<Self::Elem>) -> (r: Tensor<bool>) {
        let n = elem.elems.len();
        let mut elems: GenVec<bool> = GenVector::with_capacity(n);
        let mut i: usize = 0;
        while i < n
            invariant
                i <= n,
                n == elem.elems_model().len(),
                elem.wf(),
                self.inv(),
                self.has_model(),
                elems_inv(*self, elem.elems_model()),
                elems.model().len() == i,
                forall|q: int|
                    #![trigger elems.model()[q]]
                    0 <= q < i ==> elems.model()[q] == Self::eval(
                        elem.elems_model()[q],
                        self.model(),
                    ),
            decreases n - i,
        {
            let ghost preve = elems.model();
            let x = self.bool_get_value(elem.elems.get(i));
            elems.push(x);
            proof {
                assert forall|q: int|
                    #![trigger elems.model()[q]]
                    0 <= q < i + 1 implies elems.model()[q] == Self::eval(
                    elem.elems_model()[q],
                    self.model(),
                ) by {
                    if q < i {
                        assert(elems.model()[q] == preve[q]);
                    }
                };
            }
            i = i + 1;
        }
        let shape = elem.shape.duplicate();
        Tensor { shape, elems }
    }
}

} // verus!
