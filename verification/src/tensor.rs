//! Tensors: a shape and the elements in row-major order.

use crate::shape::{fits, numel, Shape};
use vstd::prelude::*;

verus! {

/// The type of a tensor's elements.
#[allow(non_camel_case_types)]
#[derive(Debug, Clone, Copy, PartialEq, Eq, Structural)]
pub enum Dtype {
    F32,
    F16,
    BF16,
    Q8_0,
    Q4_K,
    Q5_K,
    Q6_K,
}

/// The elements of a tensor, as bit patterns.
#[derive(Debug)]
pub enum AnyData {
    F32(Vec<u32>),
    F16(Vec<u16>),
}

/// The elements of a tensor as a sequence of bit patterns.
#[verifier::ext_equal]
pub enum DataView {
    F32(Seq<u32>),
    F16(Seq<u16>),
}

impl View for AnyData {
    type V = DataView;

    open spec fn view(&self) -> DataView {
        match self {
            AnyData::F32(v) => DataView::F32(v@),
            AnyData::F16(v) => DataView::F16(v@),
        }
    }
}

impl DataView {
    /// The number of elements.
    pub open spec fn len(self) -> nat {
        match self {
            DataView::F32(v) => v.len(),
            DataView::F16(v) => v.len(),
        }
    }
}

/// A dense row-major tensor.
#[derive(Debug)]
pub struct Tensor {
    pub data: AnyData,
    pub shape: Shape,
    pub dtype: Dtype,
}

/// The contents of a [`Tensor`].
#[verifier::ext_equal]
pub struct TensorView {
    pub data: DataView,
    pub shape: Seq<usize>,
    pub dtype: Dtype,
}

impl View for Tensor {
    type V = TensorView;

    open spec fn view(&self) -> TensorView {
        TensorView { data: self.data@, shape: self.shape@, dtype: self.dtype }
    }
}

impl TensorView {
    /// One element for every position of the shape, all positions machine-sized.
    pub open spec fn wf(self) -> bool {
        &&& fits(self.shape)
        &&& self.data.len() == numel(self.shape)
    }

    /// The elements, for a single-precision tensor.
    pub open spec fn singles(self) -> Seq<u32> {
        match self.data {
            DataView::F32(v) => v,
            DataView::F16(_) => Seq::empty(),
        }
    }
}

/// A single-precision tensor with the given elements.
pub open spec fn single(data: Seq<u32>, shape: Seq<usize>) -> TensorView {
    TensorView { data: DataView::F32(data), shape, dtype: Dtype::F32 }
}

impl Tensor {
    /// The invariant of a tensor.
    pub open spec fn wf(&self) -> bool {
        self@.wf()
    }

    /// A single-precision tensor with the given elements.
    pub fn new(data: Vec<u32>, shape: Shape) -> (t: Tensor)
        requires
            fits(shape@),
            data@.len() == numel(shape@),
        ensures
            t.wf(),
            t@ == single(data@, shape@),
    {
        Tensor { data: AnyData::F32(data), shape, dtype: Dtype::F32 }
    }

    /// A tensor with the given elements and element type.
    pub fn new_with_data(data: AnyData, shape: Shape, dtype: Dtype) -> (t: Tensor)
        requires
            fits(shape@),
            data@.len() == numel(shape@),
        ensures
            t.wf(),
            t@ == (TensorView { data: data@, shape: shape@, dtype }),
    {
        Tensor { data, shape, dtype }
    }

    /// The elements of a single-precision tensor.
    pub fn data(&self) -> (d: &Vec<u32>)
        requires
            self.data is F32,
        ensures
            d@ == self@.singles(),
            self@.data == DataView::F32(d@),
    {
        match &self.data {
            AnyData::F32(v) => v,
            AnyData::F16(_) => {
                proof {
                    assert(false);
                }
                vstd::pervasive::unreached()
            },
        }
    }

    /// The elements, whatever their type.
    pub fn data_raw(&self) -> (d: &AnyData)
        ensures
            d@ == self@.data,
    {
        &self.data
    }

    /// The shape.
    pub fn shape(&self) -> (s: &Shape)
        ensures
            s@ == self@.shape,
    {
        &self.shape
    }

    /// A copy of the tensor.
    pub fn copy(&self) -> (t: Tensor)
        ensures
            t@ == self@,
    {
        let data: AnyData = match &self.data {
            AnyData::F32(v) => AnyData::F32(copy_words(v)),
            AnyData::F16(v) => AnyData::F16(copy_halves(v)),
        };
        Tensor { data, shape: self.shape.copy(), dtype: self.dtype }
    }
}

/// Copies a list of bit patterns.
pub fn copy_words(v: &Vec<u32>) -> (out: Vec<u32>)
    ensures
        out@ == v@,
{
    let out = v.clone();
    proof {
        assert(out@ =~= v@);
    }
    out
}

/// Copies a list of half-precision bit patterns.
pub fn copy_halves(v: &Vec<u16>) -> (out: Vec<u16>)
    ensures
        out@ == v@,
{
    let out = v.clone();
    proof {
        assert(out@ =~= v@);
    }
    out
}

/// Whether two lists of bit patterns are the same.
fn same_words(a: &Vec<u32>, b: &Vec<u32>) -> (r: bool)
    ensures
        r == (a@ == b@),
{
    if a.len() != b.len() {
        return false;
    }
    for i in 0..a.len()
        invariant
            a@.len() == b@.len(),
            forall|j: int| 0 <= j < i ==> a@[j] == b@[j],
    {
        if a[i] != b[i] {
            return false;
        }
    }
    proof {
        assert(a@ =~= b@);
    }
    true
}

/// Whether two lists of half-precision bit patterns are the same.
fn same_halves(a: &Vec<u16>, b: &Vec<u16>) -> (r: bool)
    ensures
        r == (a@ == b@),
{
    if a.len() != b.len() {
        return false;
    }
    for i in 0..a.len()
        invariant
            a@.len() == b@.len(),
            forall|j: int| 0 <= j < i ==> a@[j] == b@[j],
    {
        if a[i] != b[i] {
            return false;
        }
    }
    proof {
        assert(a@ =~= b@);
    }
    true
}

/// Whether two tensors have the same shape, element type and bits.
pub fn same_tensor(a: &Tensor, b: &Tensor) -> (r: bool)
    ensures
        r == (a@ == b@),
{
    let same_data: bool = match (&a.data, &b.data) {
        (AnyData::F32(x), AnyData::F32(y)) => same_words(x, y),
        (AnyData::F16(x), AnyData::F16(y)) => same_halves(x, y),
        _ => false,
    };
    same_data && crate::shape::same_dims(&a.shape.dims, &b.shape.dims) && a.dtype == b.dtype
}

} // verus!
