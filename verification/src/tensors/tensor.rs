//! Tensors in memory, of single-precision bit patterns.

use vstd::prelude::*;

use crate::tensors::layout::law_offset_in_bounds;
use crate::tensors::layout::law_offset_unique;
use crate::tensors::layout::strides_fit;
use crate::tensors::layout::suffix_product;
use crate::tensors::layout::valid_indices;
use crate::tensors::layout::Layout;

verus! {

/// A tensor: a contiguous layout and as many elements as it has.
#[derive(Debug)]
pub struct CpuTensor {
    pub layout: Layout,
    pub data: Vec<u32>,
}

impl CpuTensor {
    pub open spec fn wf(&self) -> bool {
        &&& self.layout.contiguous()
        &&& self.layout.offset == 0
        &&& self.data@.len() == self.layout.spec_size()
        &&& self.layout.spec_size() <= usize::MAX
    }

    /// The element at some indices.
    pub open spec fn at(&self, indices: Seq<usize>) -> u32 {
        self.data@[self.layout.spec_offset_for(indices) as int]
    }

    /// A tensor of a shape with the given elements, the last dimension fastest.
    pub fn new(shape: Vec<usize>, data: Vec<u32>) -> (r: CpuTensor)
        requires
            strides_fit(shape@),
            suffix_product(shape@, 0) == data@.len(),
        ensures
            r.wf(),
            r.layout.shape@ == shape@,
            r.data@ == data@,
    {
        let _len: usize = data.len();
        let layout = Layout::new(shape);
        CpuTensor { layout, data }
    }

    /// A tensor of zeros.
    pub fn zeros(shape: Vec<usize>) -> (r: CpuTensor)
        requires
            strides_fit(shape@),
        ensures
            r.wf(),
            r.layout.shape@ == shape@,
            r.data@ == Seq::new(suffix_product(shape@, 0), |i: int| 0u32),
    {
        assert(suffix_product(shape@, 0) <= usize::MAX);
        let layout = Layout::new(shape);
        let size: usize = layout.size();
        let data: Vec<u32> = vec![0u32; size];
        assert(data@ =~= Seq::new(suffix_product(shape@, 0), |i: int| 0u32));
        CpuTensor { layout, data }
    }

    pub fn layout(&self) -> (r: &Layout)
        ensures
            *r == self.layout,
    {
        &self.layout
    }

    pub fn shape(&self) -> (r: &[usize])
        ensures
            r@ == self.layout.shape@,
    {
        self.layout.shape()
    }

    pub fn strides(&self) -> (r: &[usize])
        ensures
            r@ == self.layout.strides@,
    {
        self.layout.strides()
    }

    pub fn size(&self) -> (r: usize)
        requires
            self.wf(),
        ensures
            r == self.data@.len(),
            r == self.layout.spec_size(),
    {
        self.layout.size()
    }

    /// All elements, the last dimension fastest.
    pub fn data(&self) -> (r: &[u32])
        ensures
            r@ == self.data@,
    {
        self.data.as_slice()
    }

    /// All elements, to be changed in place.
    pub fn data_mut(&mut self) -> (r: &mut [u32])
        requires
            old(self).wf(),
        ensures
            r@ == old(self).data@,
            final(self).data@ == final(r)@,
            final(self).layout == old(self).layout,
            final(r)@.len() == r@.len() ==> final(self).wf(),
    {
        self.data.as_mut_slice()
    }

    /// The element at some indices.
    pub fn get(&self, indices: &[usize]) -> (r: u32)
        requires
            self.wf(),
            valid_indices(indices@, self.layout.shape@),
        ensures
            r == self.at(indices@),
    {
        proof {
            law_offset_in_bounds(&self.layout, indices@);
        }
        let idx: usize = self.layout.offset_for(indices);
        self.data[idx]
    }

    /// Changes the element at some indices, and no other.
    pub fn set(&mut self, indices: &[usize], val: u32)
        requires
            old(self).wf(),
            valid_indices(indices@, old(self).layout.shape@),
        ensures
            final(self).wf(),
            final(self).layout == old(self).layout,
            final(self).data@ == old(self).data@.update(
                old(self).layout.spec_offset_for(indices@) as int,
                val,
            ),
            final(self).at(indices@) == val,
    {
        proof {
            law_offset_in_bounds(&self.layout, indices@);
        }
        let idx: usize = self.layout.offset_for(indices);
        self.data.set(idx, val);
    }
}

/// What was set is read back, and every other element stays as it was.
pub proof fn law_set_then_get(
    before: &CpuTensor,
    after: &CpuTensor,
    a: Seq<usize>,
    val: u32,
    b: Seq<usize>,
)
    requires
        before.wf(),
        valid_indices(a, before.layout.shape@),
        valid_indices(b, before.layout.shape@),
        after.layout == before.layout,
        after.data@ == before.data@.update(before.layout.spec_offset_for(a) as int, val),
    ensures
        after.at(b) == (if a == b {
            val
        } else {
            before.at(b)
        }),
{
    law_offset_in_bounds(&before.layout, a);
    law_offset_in_bounds(&before.layout, b);
    if before.layout.spec_offset_for(a) == before.layout.spec_offset_for(b) {
        law_offset_unique(&before.layout, a, b);
    }
}

/// What was set is read back by the same indices, and what other indices read stays as it was.
pub proof fn law_set_is_read(
    t: &mut CpuTensor,
    a: &[usize],
    val: u32,
    b: &[usize],
    read: u32,
    before: u32,
    after: u32,
)
    requires
        old(t).wf(),
        valid_indices(a@, old(t).layout.shape@),
        valid_indices(b@, old(t).layout.shape@),
        a@ != b@,
        call_ensures(CpuTensor::set, (t, a, val), ()),
        call_ensures(CpuTensor::get, (&*final(t), a), read),
        call_ensures(CpuTensor::get, (&*old(t), b), before),
        call_ensures(CpuTensor::get, (&*final(t), b), after),
    ensures
        read == val,
        after == before,
        final(t).layout.shape@ == old(t).layout.shape@,
{
    law_set_then_get(old(t), final(t), a@, val, a@);
    law_set_then_get(old(t), final(t), a@, val, b@);
}

/// An element of a matrix lies behind the rows before it and the elements before it in its row.
pub proof fn law_matrix_in_rows(t: &CpuTensor, at: &[usize], read: u32)
    requires
        t.wf(),
        t.layout.shape@.len() == 2,
        valid_indices(at@, t.layout.shape@),
        call_ensures(CpuTensor::get, (t, at), read),
    ensures
        read == t.data@[at@[0] * t.layout.shape@[1] + at@[1]],
        at@[0] * t.layout.shape@[1] + at@[1] < t.data@.len(),
        t.data@.len() == t.layout.shape@[0] * t.layout.shape@[1],
{
    law_offset_in_bounds(&t.layout, at@);
    let s = t.layout.shape@;
    let st = t.layout.strides@;
    reveal_with_fuel(suffix_product, 3);
    reveal_with_fuel(crate::tensors::layout::distance, 3);
    assert(suffix_product(s, 2) == 1);
    assert(suffix_product(s, 1) == s[1] as nat * 1);
    assert(st[0] == suffix_product(s, 1) && st[1] == suffix_product(s, 2));
    assert(s[1] as nat * 1 == s[1]) by (nonlinear_arith);
    assert(at@[1] as nat * 1 == at@[1]) by (nonlinear_arith);
}

} // verus!
