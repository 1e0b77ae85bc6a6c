//! Where the elements of a tensor lie: shape, strides and offset.

use vstd::prelude::*;

verus! {

/// The product of the dimensions from `i` on.
pub open spec fn suffix_product(shape: Seq<usize>, i: int) -> nat
    decreases shape.len() - i,
{
    if i >= shape.len() {
        1
    } else {
        shape[i] as nat * suffix_product(shape, i + 1)
    }
}

/// The strides of a tensor whose last dimension runs fastest.
pub open spec fn row_major(shape: Seq<usize>, strides: Seq<usize>) -> bool {
    &&& strides.len() >= shape.len()
    &&& forall|i: int|
        0 <= i < shape.len() ==> #[trigger] strides[i] == suffix_product(shape, i + 1)
}

/// Whether the products of the last dimensions, as many as one likes, are machine numbers.
pub open spec fn strides_fit(shape: Seq<usize>) -> bool {
    forall|i: int| 0 <= i <= shape.len() ==> #[trigger] suffix_product(shape, i) <= usize::MAX
}

/// The distance of an element along the dimensions from `i` on.
pub open spec fn distance(indices: Seq<usize>, strides: Seq<usize>, i: int) -> nat
    decreases indices.len() - i,
{
    if i >= indices.len() {
        0
    } else {
        indices[i] as nat * strides[i] as nat + distance(indices, strides, i + 1)
    }
}

/// Whether there is an index for each dimension, and within it.
pub open spec fn valid_indices(indices: Seq<usize>, shape: Seq<usize>) -> bool {
    &&& indices.len() == shape.len()
    &&& forall|i: int| 0 <= i < indices.len() ==> #[trigger] indices[i] < shape[i]
}

/// Shape, strides and offset of a tensor.
#[derive(Debug)]
pub struct Layout {
    pub shape: Vec<usize>,
    pub strides: Vec<usize>,
    pub offset: usize,
}

impl Layout {
    /// The number of elements.
    pub open spec fn spec_size(&self) -> nat {
        suffix_product(self.shape@, 0)
    }

    /// The place of an element.
    pub open spec fn spec_offset_for(&self, indices: Seq<usize>) -> nat {
        self.offset as nat + distance(indices, self.strides@, 0)
    }

    /// Whether the elements lie one after the other, the last dimension fastest.
    pub open spec fn contiguous(&self) -> bool {
        row_major(self.shape@, self.strides@)
    }

    /// The layout of a shape whose last dimension runs fastest.
    pub fn new(shape: Vec<usize>) -> (r: Layout)
        requires
            strides_fit(shape@),
        ensures
            r.shape@ == shape@,
            r.strides@ == Seq::new(
                shape@.len(),
                |i: int| suffix_product(shape@, i + 1) as usize,
            ),
            r.offset == 0,
            r.contiguous(),
    {
        let strides = Self::compute_strides(&shape);
        proof {
            assert forall|i: int| 0 <= i < shape@.len() implies #[trigger] strides@[i]
                == suffix_product(shape@, i + 1) by {
                assert(suffix_product(shape@, i + 1) <= usize::MAX);
            }
        }
        Layout { shape, strides, offset: 0 }
    }

    /// Whether a shape has a layout: whether the products of its last dimensions are machine
    /// numbers.
    pub fn fits(shape: &Vec<usize>) -> (r: bool)
        ensures
            r == strides_fit(shape@),
    {
        let mut product: usize = 1;
        let mut i: usize = shape.len();
        while i > 0
            invariant
                i <= shape@.len(),
                product == suffix_product(shape@, i as int),
                forall|k: int|
                    i <= k <= shape@.len() ==> #[trigger] suffix_product(shape@, k) <= usize::MAX,
            decreases i,
        {
            i -= 1;
            let ghost p = product;
            assert(p * shape@[i as int] == shape@[i as int] * p) by (nonlinear_arith);
            match product.checked_mul(shape[i]) {
                Some(n) => {
                    product = n;
                },
                None => {
                    assert(suffix_product(shape@, i as int) > usize::MAX);
                    return false;
                },
            }
        }
        true
    }

    pub fn with_strides(shape: Vec<usize>, strides: Vec<usize>) -> (r: Layout)
        ensures
            r == (Layout { shape, strides, offset: 0 }),
    {
        Layout { shape, strides, offset: 0 }
    }

    pub fn with_offset(shape: Vec<usize>, strides: Vec<usize>, offset: usize) -> (r: Layout)
        ensures
            r == (Layout { shape, strides, offset }),
    {
        Layout { shape, strides, offset }
    }

    fn compute_strides(shape: &Vec<usize>) -> (r: Vec<usize>)
        requires
            strides_fit(shape@),
        ensures
            r@ == Seq::new(shape@.len(), |i: int| suffix_product(shape@, i + 1) as usize),
    {
        let n: usize = shape.len();
        let mut strides: Vec<usize> = vec![1; n];
        let mut stride: usize = 1;
        let mut i: usize = n;
        while i > 0
            invariant
                i <= n,
                n == shape@.len(),
                strides@.len() == n,
                strides_fit(shape@),
                stride == suffix_product(shape@, i as int),
                forall|k: int|
                    i <= k < n ==> #[trigger] strides@[k] == suffix_product(shape@, k + 1) as usize,
            decreases i,
        {
            i -= 1;
            strides.set(i, stride);
            assert(suffix_product(shape@, i as int) == shape@[i as int] as nat * stride as nat);
            assert(suffix_product(shape@, i as int) <= usize::MAX);
            assert(stride * shape@[i as int] == shape@[i as int] * stride) by (nonlinear_arith);
            stride = stride * shape[i];
        }
        assert(strides@ =~= Seq::new(
            shape@.len(),
            |i: int| suffix_product(shape@, i + 1) as usize,
        ));
        strides
    }

    pub fn shape(&self) -> (r: &[usize])
        ensures
            r@ == self.shape@,
    {
        self.shape.as_slice()
    }

    pub fn strides(&self) -> (r: &[usize])
        ensures
            r@ == self.strides@,
    {
        self.strides.as_slice()
    }

    pub fn offset(&self) -> (r: usize)
        ensures
            r == self.offset,
    {
        self.offset
    }

    pub fn ndim(&self) -> (r: usize)
        ensures
            r == self.shape@.len(),
    {
        self.shape.len()
    }

    /// The number of elements.
    pub fn size(&self) -> (r: usize)
        requires
            self.spec_size() <= usize::MAX,
        ensures
            r == self.spec_size(),
    {
        let n: usize = self.shape.len();
        let mut i: usize = 0;
        while i < n
            invariant
                i <= n,
                n == self.shape@.len(),
                forall|k: int| 0 <= k < i ==> #[trigger] self.shape@[k] >= 1,
            decreases n - i,
        {
            if self.shape[i] == 0 {
                proof {
                    lemma_zero_dimension(self.shape@, 0, i as int);
                }
                return 0;
            }
            i += 1;
        }
        let mut p: usize = 1;
        while i > 0
            invariant
                i <= n,
                n == self.shape@.len(),
                self.spec_size() <= usize::MAX,
                forall|k: int| 0 <= k < n ==> #[trigger] self.shape@[k] >= 1,
                p == suffix_product(self.shape@, i as int),
            decreases i,
        {
            i -= 1;
            proof {
                lemma_suffix_at_most(self.shape@, i as int);
                assert(p * self.shape@[i as int] == self.shape@[i as int] * p) by (nonlinear_arith);
            }
            p = p * self.shape[i];
        }
        p
    }

    /// The place of an element in the buffer.
    pub fn offset_for(&self, indices: &[usize]) -> (r: usize)
        requires
            valid_indices(indices@, self.shape@),
            self.strides@.len() >= self.shape@.len(),
            self.spec_offset_for(indices@) <= usize::MAX,
        ensures
            r == self.spec_offset_for(indices@),
    {
        let mut index: usize = self.offset;
        let mut i: usize = 0;
        while i < indices.len()
            invariant
                i <= indices@.len(),
                indices@.len() <= self.strides@.len(),
                index + distance(indices@, self.strides@, i as int) == self.spec_offset_for(
                    indices@,
                ),
                self.spec_offset_for(indices@) <= usize::MAX,
            decreases indices@.len() - i,
        {
            let a: usize = indices[i];
            let b: usize = self.strides[i];
            assert(0 <= a * b) by (nonlinear_arith)
                requires
                    a >= 0,
                    b >= 0,
            ;
            index = index + a * b;
            i += 1;
        }
        index
    }

    /// Whether the elements lie one after the other.
    pub fn is_contiguous(&self) -> (r: bool)
        requires
            self.strides@.len() >= self.shape@.len(),
        ensures
            r == self.contiguous(),
    {
        let mut expected: Option<usize> = Some(1);
        let mut i: usize = self.shape.len();
        while i > 0
            invariant
                i <= self.shape@.len() <= self.strides@.len(),
                forall|k: int|
                    i <= k < self.shape@.len() ==> #[trigger] self.strides@[k] == suffix_product(
                        self.shape@,
                        k + 1,
                    ),
                match expected {
                    Some(e) => e == suffix_product(self.shape@, i as int),
                    None => suffix_product(self.shape@, i as int) > usize::MAX,
                },
            decreases i,
        {
            i -= 1;
            match expected {
                Some(e) => {
                    if self.strides[i] != e {
                        assert(self.strides@[i as int] != suffix_product(self.shape@, i + 1));
                        return false;
                    }
                    assert(e * self.shape@[i as int] == self.shape@[i as int] * e)
                        by (nonlinear_arith);
                    expected = e.checked_mul(self.shape[i]);
                },
                None => {
                    assert(self.strides@[i as int] != suffix_product(self.shape@, i + 1));
                    return false;
                },
            }
        }
        true
    }
}

/// Where a dimension is empty there are no elements.
pub proof fn lemma_zero_dimension(shape: Seq<usize>, i: int, k: int)
    requires
        0 <= i <= k < shape.len(),
        shape[k] == 0,
    ensures
        suffix_product(shape, i) == 0,
    decreases k - i,
{
    if i < k {
        lemma_zero_dimension(shape, i + 1, k);
    }
    assert(suffix_product(shape, i) == shape[i] as nat * suffix_product(shape, i + 1));
    if i < k {
        assert(shape[i] as nat * 0 == 0);
    } else {
        assert(0 * suffix_product(shape, i + 1) == 0);
    }
}

/// Where no dimension is empty, the product of the last ones is at most that of all.
pub proof fn lemma_suffix_at_most(shape: Seq<usize>, i: int)
    requires
        0 <= i <= shape.len(),
        forall|k: int| 0 <= k < shape.len() ==> #[trigger] shape[k] >= 1,
    ensures
        suffix_product(shape, i) <= suffix_product(shape, 0),
    decreases i,
{
    if i > 0 {
        lemma_suffix_at_most(shape, i - 1);
        assert(shape[i - 1] >= 1);
        let a = shape[i - 1] as nat;
        let b = suffix_product(shape, i);
        assert(suffix_product(shape, i - 1) == a * b);
        assert(b <= a * b) by (nonlinear_arith)
            requires
                a >= 1,
                b >= 0,
        ;
    }
}

/// The distance along the dimensions from `i` on is less than their product.
proof fn lemma_distance_bound(indices: Seq<usize>, shape: Seq<usize>, strides: Seq<usize>, i: int)
    requires
        row_major(shape, strides),
        valid_indices(indices, shape),
        0 <= i <= shape.len(),
    ensures
        distance(indices, strides, i) < suffix_product(shape, i),
    decreases shape.len() - i,
{
    if i < shape.len() {
        lemma_distance_bound(indices, shape, strides, i + 1);
        let a = indices[i] as nat;
        let d = shape[i] as nat;
        let s = suffix_product(shape, i + 1);
        let rest = distance(indices, strides, i + 1);
        assert(strides[i] == s);
        assert(a < d);
        assert(a * s + rest < d * s) by (nonlinear_arith)
            requires
                a + 1 <= d,
                rest < s,
        ;
    }
}

proof fn lemma_distance_unique(
    a: Seq<usize>,
    b: Seq<usize>,
    shape: Seq<usize>,
    strides: Seq<usize>,
    i: int,
)
    requires
        row_major(shape, strides),
        valid_indices(a, shape),
        valid_indices(b, shape),
        0 <= i <= shape.len(),
        distance(a, strides, i) == distance(b, strides, i),
    ensures
        forall|k: int| i <= k < shape.len() ==> a[k] == b[k],
    decreases shape.len() - i,
{
    if i < shape.len() {
        lemma_distance_bound(a, shape, strides, i + 1);
        lemma_distance_bound(b, shape, strides, i + 1);
        let s = suffix_product(shape, i + 1);
        let ra = distance(a, strides, i + 1);
        let rb = distance(b, strides, i + 1);
        let x = a[i] as int;
        let y = b[i] as int;
        assert(strides[i] == s);
        assert(x == y) by (nonlinear_arith)
            requires
                x * s + ra == y * s + rb,
                0 <= ra < s,
                0 <= rb < s,
        ;
        lemma_distance_unique(a, b, shape, strides, i + 1);
    }
}

/// In a contiguous layout every element has a place among as many as there are elements,
/// counted from the offset.
pub proof fn law_offset_in_bounds(l: &Layout, indices: Seq<usize>)
    requires
        l.contiguous(),
        valid_indices(indices, l.shape@),
    ensures
        l.offset <= l.spec_offset_for(indices) < l.offset + l.spec_size(),
{
    lemma_distance_bound(indices, l.shape@, l.strides@, 0);
}

/// In a contiguous layout no two elements have the same place.
pub proof fn law_offset_unique(l: &Layout, a: Seq<usize>, b: Seq<usize>)
    requires
        l.contiguous(),
        valid_indices(a, l.shape@),
        valid_indices(b, l.shape@),
        l.spec_offset_for(a) == l.spec_offset_for(b),
    ensures
        a == b,
{
    lemma_distance_unique(a, b, l.shape@, l.strides@, 0);
    assert(a =~= b);
}

/// Whether indices come before others: smaller at the first place where they differ.
pub open spec fn comes_before(a: Seq<usize>, b: Seq<usize>, k: int) -> bool {
    &&& 0 <= k < a.len()
    &&& a.take(k) == b.take(k)
    &&& a[k] < b[k]
}

proof fn lemma_distance_grows(
    a: Seq<usize>,
    b: Seq<usize>,
    shape: Seq<usize>,
    strides: Seq<usize>,
    i: int,
    k: int,
)
    requires
        row_major(shape, strides),
        valid_indices(a, shape),
        valid_indices(b, shape),
        0 <= i <= k < shape.len(),
        forall|j: int| i <= j < k ==> a[j] == b[j],
        a[k] < b[k],
    ensures
        distance(a, strides, i) < distance(b, strides, i),
    decreases k - i,
{
    if i < k {
        lemma_distance_grows(a, b, shape, strides, i + 1, k);
        assert(a[i] == b[i]);
    } else {
        lemma_distance_bound(a, shape, strides, i + 1);
        let s = suffix_product(shape, i + 1);
        let ra = distance(a, strides, i + 1);
        let rb = distance(b, strides, i + 1);
        let x = a[i] as int;
        let y = b[i] as int;
        assert(strides[i] == s);
        assert(x * s + ra < y * s + rb) by (nonlinear_arith)
            requires
                x + 1 <= y,
                0 <= ra < s,
                0 <= rb,
        ;
    }
}

/// In a contiguous layout the places grow with the indices, the first ones counting most.
pub proof fn law_offset_ordered(l: &Layout, a: Seq<usize>, b: Seq<usize>, k: int)
    requires
        l.contiguous(),
        valid_indices(a, l.shape@),
        valid_indices(b, l.shape@),
        comes_before(a, b, k),
    ensures
        l.spec_offset_for(a) < l.spec_offset_for(b),
{
    assert forall|j: int| 0 <= j < k implies a[j] == b[j] by {
        assert(a.take(k)[j] == a[j]);
        assert(b.take(k)[j] == b[j]);
    }
    lemma_distance_grows(a, b, l.shape@, l.strides@, 0, k);
}

/// The indices from dimension `i` on whose distance is `v`, behind any indices before them.
proof fn lemma_distance_reached(
    before: Seq<usize>,
    shape: Seq<usize>,
    strides: Seq<usize>,
    i: int,
    v: nat,
) -> (indices: Seq<usize>)
    requires
        row_major(shape, strides),
        0 <= i <= shape.len(),
        before.len() == i,
        forall|k: int| 0 <= k < i ==> #[trigger] before[k] < shape[k],
        v < suffix_product(shape, i),
    ensures
        valid_indices(indices, shape),
        indices.take(i) == before,
        distance(indices, strides, i) == v,
    decreases shape.len() - i,
{
    if i == shape.len() {
        assert(before.take(i) =~= before);
        before
    } else {
        let s = suffix_product(shape, i + 1);
        let d = shape[i] as nat;
        assert(s > 0) by (nonlinear_arith)
            requires
                v < d * s,
                s >= 0,
                d >= 0,
                v >= 0,
        ;
        let x = v / s;
        let rest = v % s;
        vstd::arithmetic::div_mod::lemma_fundamental_div_mod(v as int, s as int);
        vstd::arithmetic::div_mod::lemma_mod_bound(v as int, s as int);
        assert(x < d) by (nonlinear_arith)
            requires
                v < d * s,
                v == s * x + rest,
                rest >= 0,
                s > 0,
        ;
        let next = before.push(x as usize);
        let indices = lemma_distance_reached(next, shape, strides, i + 1, rest);
        assert(indices[i] == indices.take(i + 1)[i]);
        assert(indices.take(i) =~= before) by {
            assert forall|k: int| 0 <= k < i implies indices[k] == before[k] by {
                assert(indices.take(i + 1)[k] == next[k]);
            }
        }
        assert(strides[i] == s);
        assert(x * s == s * x) by (nonlinear_arith);
        indices
    }
}

/// In a contiguous layout every place from the offset on, as many as there are elements, is
/// that of one element.
pub proof fn law_offset_reached(l: &Layout, place: nat) -> (indices: Seq<usize>)
    requires
        l.contiguous(),
        l.offset <= place < l.offset + l.spec_size(),
    ensures
        valid_indices(indices, l.shape@),
        l.spec_offset_for(indices) == place,
        forall|other: Seq<usize>|
            valid_indices(other, l.shape@) && #[trigger] l.spec_offset_for(other) == place
                ==> other == indices,
{
    let indices = lemma_distance_reached(
        Seq::empty(),
        l.shape@,
        l.strides@,
        0,
        (place - l.offset) as nat,
    );
    assert forall|other: Seq<usize>|
        valid_indices(other, l.shape@) && #[trigger] l.spec_offset_for(other) == place implies other
        == indices by {
        law_offset_unique(l, other, indices);
    }
    indices
}

} // verus!
