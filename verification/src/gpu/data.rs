//! Launches that move data: concatenation, convolution, dequantization, and
//! the bytes that are handed to the device.

use crate::codegen::ast::dtype_name;
use crate::error::{Error, ErrorView};
use crate::gpu::plan::{
    check_small_shape, div_up, flat, multiplies, planned, product, product_of, small, small_shape,
    Dispatch, DispatchView, Kernel, GROUP,
};
use crate::op::shape_views;
use crate::shape::{checked_numel, fits, get_strides, numel, stride, Shape};
use crate::tensor::Dtype;
use vstd::prelude::*;
use vstd::string::*;

verus! {

/// The extents of the first `n` inputs along an axis, added up.
pub open spec fn offset_along(shapes: Seq<Seq<usize>>, axis: int, n: nat) -> nat
    decreases n,
{
    if n == 0 {
        0
    } else {
        offset_along(shapes, axis, (n - 1) as nat) + shapes[n - 1][axis] as nat
    }
}

/// How many elements lie between two steps along the axis before this one.
pub open spec fn axis_stride(dims: Seq<usize>, axis: int) -> nat {
    dims[axis] as nat * stride(dims, axis)
}

/// A shape whose elements can be counted in 32 bits from an axis on.
pub open spec fn axis_fits(dims: Seq<usize>, axis: usize) -> bool {
    &&& axis < dims.len()
    &&& small_shape(dims)
    &&& stride(dims, axis as int) <= u32::MAX
    &&& axis_stride(dims, axis as int) <= u32::MAX
}

/// Inputs that can be put one after the other along an axis.
pub open spec fn concat_fits(shapes: Seq<Seq<usize>>, axis: usize, out: Seq<usize>) -> bool {
    &&& axis_fits(out, axis)
    &&& forall|i: int| 0 <= i < shapes.len() ==> axis_fits(#[trigger] shapes[i], axis)
    &&& forall|i: nat| i <= shapes.len() ==> #[trigger] offset_along(shapes, axis as int, i)
        <= u32::MAX
}

/// The copy of input `i` to its place.
pub open spec fn concat_step(shapes: Seq<Seq<usize>>, axis: usize, out: Seq<usize>, i: int) -> DispatchView {
    let dims = shapes[i];
    flat(
        Kernel::ConcatCopy,
        seq![
            axis_stride(dims, axis as int) as u32,
            axis_stride(out, axis as int) as u32,
            stride(dims, axis as int) as u32,
            offset_along(shapes, axis as int, i as nat) as u32,
            numel(dims) as u32,
        ],
        numel(dims),
        numel(out),
    )
}

/// The stride of an axis and the number of elements from the axis on, if they
/// are 32-bit numbers.
fn axis_words(dims: &Vec<usize>, axis: usize) -> (r: Option<(u32, u32)>)
    ensures
        match r {
            Some((whole, inner)) => axis_fits(dims@, axis) && whole == axis_stride(
                dims@,
                axis as int,
            ) && inner == stride(dims@, axis as int),
            None => !axis_fits(dims@, axis),
        },
{
    if axis >= dims.len() || !check_small_shape(dims) {
        return None;
    }
    let strides = get_strides(dims);
    let inner: usize = strides[axis];
    let whole: usize = match dims[axis].checked_mul(inner) {
        Some(w) => w,
        None => {
            return None;
        },
    };
    match (small(whole), small(inner)) {
        (Some(w), Some(i)) => Some((w, i)),
        _ => None,
    }
}

/// Launches one copy per input.
pub fn plan_concat(shapes: &Vec<Shape>, axis: usize, out: &Shape) -> (r: Option<Vec<Dispatch>>)
    ensures
        match r {
            Some(ds) => {
                &&& concat_fits(shape_views(shapes@), axis, out@)
                &&& ds@.len() == shapes@.len()
                &&& forall|i: int|
                    0 <= i < ds@.len() ==> (#[trigger] ds@[i])@ == concat_step(
                        shape_views(shapes@),
                        axis,
                        out@,
                        i,
                    )
            },
            None => !concat_fits(shape_views(shapes@), axis, out@),
        },
{
    let ghost ss = shape_views(shapes@);
    let (whole, _inner): (u32, u32) = match axis_words(&out.dims, axis) {
        Some(w) => w,
        None => {
            return None;
        },
    };
    let count: usize = match checked_numel(&out.dims) {
        Some(n) => n,
        None => 0,
    };
    let mut offset: u32 = 0;
    let mut ds: Vec<Dispatch> = Vec::new();
    for i in 0..shapes.len()
        invariant
            ss == shape_views(shapes@),
            axis_fits(out@, axis),
            whole == axis_stride(out@, axis as int),
            count == numel(out@),
            offset == offset_along(ss, axis as int, i as nat),
            ds@.len() == i,
            forall|j: int| 0 <= j < i ==> axis_fits(#[trigger] ss[j], axis),
            forall|j: nat| j <= i ==> #[trigger] offset_along(ss, axis as int, j) <= u32::MAX,
            forall|j: int| 0 <= j < i ==> (#[trigger] ds@[j])@ == concat_step(ss, axis, out@, j),
    {
        let dims = &shapes[i].dims;
        proof {
            assert(ss[i as int] == dims@);
        }
        let (mine, inner): (u32, u32) = match axis_words(dims, axis) {
            Some(w) => w,
            None => {
                proof {
                    assert(!axis_fits(ss[i as int], axis));
                }
                return None;
            },
        };
        let n: u32 = match checked_numel(dims) {
            Some(n) => n as u32,
            None => 0,
        };
        let params = vec![mine, whole, inner, offset, n];
        proof {
            assert(params@ =~= seq![mine, whole, inner, offset, n]);
        }
        ds.push(
            Dispatch {
                kernel: Kernel::ConcatCopy,
                params,
                groups: (div_up(n, GROUP), 1, 1),
                output: count,
            },
        );
        offset =
        match offset.checked_add(dims[axis] as u32) {
            Some(o) => o,
            None => {
                proof {
                    assert(offset_along(ss, axis as int, (i + 1) as nat) > u32::MAX);
                }
                return None;
            },
        };
    }
    Some(ds)
}

/// The extent of a convolution's result along one axis.
pub open spec fn conv_extent(len: nat, kernel: nat, stride: nat, padding: nat) -> Option<nat> {
    if stride > 0 && len + 2 * padding <= u32::MAX && kernel <= len + 2 * padding {
        Some(((len + 2 * padding - kernel) as nat) / stride + 1)
    } else {
        None
    }
}

fn extent_of(len: u32, kernel: u32, stride: u32, padding: u32) -> (r: Option<u32>)
    ensures
        match r {
            Some(e) => conv_extent(len as nat, kernel as nat, stride as nat, padding as nat)
                == Some(e as nat),
            None => match conv_extent(len as nat, kernel as nat, stride as nat, padding as nat) {
                Some(e) => e > u32::MAX,
                None => true,
            },
        },
{
    if stride == 0 {
        return None;
    }
    let wide: u64 = len as u64 + 2 * padding as u64;
    if wide > u32::MAX as u64 || (kernel as u64) > wide {
        return None;
    }
    let steps: u64 = (wide - kernel as u64) / stride as u64;
    proof {
        assert(steps <= wide - kernel) by (nonlinear_arith)
            requires
                steps == (wide - kernel) as nat / stride as nat,
                stride > 0,
                wide >= kernel,
        ;
    }
    if steps == u32::MAX as u64 {
        return None;
    }
    Some(steps as u32 + 1)
}

/// The sizes of a convolution on the device.
#[verifier::ext_equal]
pub struct ConvSizes {
    pub x: Seq<usize>,
    pub w: Seq<usize>,
    pub stride: usize,
    pub padding: usize,
}

impl ConvSizes {
    /// Every extent is a 32-bit number.
    pub open spec fn small(self) -> bool {
        &&& self.x.len() >= 4
        &&& self.w.len() >= 4
        &&& self.x[0] <= u32::MAX && self.x[1] <= u32::MAX && self.x[2] <= u32::MAX && self.x[3]
            <= u32::MAX
        &&& self.w[0] <= u32::MAX && self.w[2] <= u32::MAX && self.w[3] <= u32::MAX
        &&& self.stride <= u32::MAX && self.padding <= u32::MAX
    }

    /// The height of the result.
    pub open spec fn height(self) -> Option<nat> {
        conv_extent(
            self.x[2] as nat,
            self.w[2] as nat,
            self.stride as nat,
            self.padding as nat,
        )
    }

    /// The width of the result.
    pub open spec fn width(self) -> Option<nat> {
        conv_extent(
            self.x[3] as nat,
            self.w[3] as nat,
            self.stride as nat,
            self.padding as nat,
        )
    }
}

/// A convolution: one thread for every element of the result.
pub open spec fn conv2d_plan(c: ConvSizes) -> Option<DispatchView> {
    if !c.small() {
        None
    } else {
        match (c.height(), c.width()) {
            (Some(h), Some(w)) => if h > u32::MAX || w > u32::MAX {
                None
            } else {
                let s = seq![c.x[0] as u32, c.w[0] as u32, h as u32, w as u32];
                if multiplies(s) {
                    Some(
                        flat(
                            Kernel::Conv2d,
                            seq![
                                c.x[0] as u32,
                                c.w[0] as u32,
                                c.x[1] as u32,
                                c.x[2] as u32,
                                c.x[3] as u32,
                                c.w[2] as u32,
                                c.w[3] as u32,
                                h as u32,
                                w as u32,
                                c.stride as u32,
                                c.padding as u32,
                            ],
                            product(s),
                            product(s),
                        ),
                    )
                } else {
                    None
                }
            },
            _ => None,
        }
    }
}

/// Launches [`Kernel::Conv2d`].
pub fn plan_conv2d(x: &Shape, w: &Shape, stride: usize, padding: usize) -> (r: Option<Dispatch>)
    ensures
        planned(r, conv2d_plan(ConvSizes { x: x@, w: w@, stride, padding })),
{
    let most: usize = u32::MAX as usize;
    let xd = &x.dims;
    let wd = &w.dims;
    if xd.len() < 4 || wd.len() < 4 || xd[0] > most || xd[1] > most || xd[2] > most || xd[3] > most
        || wd[0] > most || wd[2] > most || wd[3] > most || stride > most || padding > most {
        return None;
    }
    let ghost c = ConvSizes { x: x@, w: w@, stride, padding };
    let n: u32 = xd[0] as u32;
    let o: u32 = wd[0] as u32;
    match (
        extent_of(xd[2] as u32, wd[2] as u32, stride as u32, padding as u32),
        extent_of(xd[3] as u32, wd[3] as u32, stride as u32, padding as u32),
    ) {
        (Some(h_out), Some(w_out)) => {
            let v = vec![n, o, h_out, w_out];
            let params = vec![
                n,
                o,
                xd[1] as u32,
                xd[2] as u32,
                xd[3] as u32,
                wd[2] as u32,
                wd[3] as u32,
                h_out,
                w_out,
                stride as u32,
                padding as u32,
            ];
            proof {
                assert(v@ =~= seq![n, o, h_out, w_out]);
                assert(params@ =~= seq![
                    n,
                    o,
                    x@[1] as u32,
                    x@[2] as u32,
                    x@[3] as u32,
                    w@[2] as u32,
                    w@[3] as u32,
                    h_out,
                    w_out,
                    stride as u32,
                    padding as u32,
                ]);
            }
            match product_of(&v) {
                Some(p) => Some(
                    Dispatch {
                        kernel: Kernel::Conv2d,
                        params,
                        groups: (div_up(p, GROUP), 1, 1),
                        output: p as usize,
                    },
                ),
                None => None,
            }
        },
        _ => None,
    }
}

/// The kernel that dequantizes an element type.
pub open spec fn dequant_kernel(dtype: Dtype) -> Option<Kernel> {
    match dtype {
        Dtype::Q4_K => Some(Kernel::DequantQ4_K),
        Dtype::Q5_K => Some(Kernel::DequantQ5_K),
        Dtype::Q6_K => Some(Kernel::DequantQ6_K),
        Dtype::Q8_0 => Some(Kernel::DequantQ8_0),
        _ => None,
    }
}

/// The message for an element type that is not dequantized on the device.
pub open spec fn no_dequant(dtype: Dtype) -> Seq<char> {
    "Unsupported GPU dequantization dtype: "@ + dtype_name(dtype)
}

/// Launches the dequantization of a tensor of the given shape. Where the
/// shape is too large for the device, the result is empty.
pub fn plan_dequantize(dtype: Dtype, shape: &Vec<usize>) -> (r: Result<Option<Dispatch>, Error>)
    ensures
        match r {
            Ok(d) => dequant_kernel(dtype) is Some && planned(
                d,
                if fits(shape@) && numel(shape@) <= u32::MAX {
                    Some(
                        flat(
                            dequant_kernel(dtype).unwrap(),
                            Seq::empty(),
                            numel(shape@),
                            numel(shape@),
                        ),
                    )
                } else {
                    None
                },
            ),
            Err(e) => dequant_kernel(dtype) is None && e@ == ErrorView::ExecutionError(
                no_dequant(dtype),
            ),
        },
{
    let kernel: Kernel = match dtype {
        Dtype::Q4_K => Kernel::DequantQ4_K,
        Dtype::Q5_K => Kernel::DequantQ5_K,
        Dtype::Q6_K => Kernel::DequantQ6_K,
        Dtype::Q8_0 => Kernel::DequantQ8_0,
        _ => {
            let mut message = String::from_str("Unsupported GPU dequantization dtype: ");
            message.append(crate::codegen::ast::dtype_text(dtype));
            return Err(Error::ExecutionError(message));
        },
    };
    match checked_numel(shape) {
        Some(n) => match small(n) {
            Some(x) => Ok(
                Some(
                    Dispatch {
                        kernel,
                        params: Vec::new(),
                        groups: (div_up(x, GROUP), 1, 1),
                        output: n,
                    },
                ),
            ),
            None => Ok(None),
        },
        None => Ok(None),
    }
}

/// Bytes filled up with zeros to a whole number of words.
pub open spec fn padded(bytes: Seq<u8>) -> Seq<u8> {
    bytes + Seq::new(((4 - bytes.len() % 4) % 4) as nat, |i: int| 0u8)
}

/// Fills bytes up with zeros to a whole number of words.
pub fn pad_to_words(bytes: &Vec<u8>) -> (out: Vec<u8>)
    ensures
        out@ == padded(bytes@),
        out@.len() % 4 == 0,
{
    let mut out: Vec<u8> = bytes.clone();
    let size: usize = bytes.len();
    let missing: usize = (4 - size % 4) % 4;
    proof {
        assert(out@ =~= bytes@);
    }
    for i in 0..missing
        invariant
            missing == (4 - bytes@.len() % 4) % 4,
            out@ == bytes@ + Seq::new(i as nat, |j: int| 0u8),
    {
        out.push(0);
        proof {
            assert(out@ =~= bytes@ + Seq::new((i + 1) as nat, |j: int| 0u8));
        }
    }
    proof {
        assert(out@ =~= padded(bytes@));
    }
    out
}

/// The four bytes of a word, the low one first.
pub open spec fn little(w: u32) -> Seq<u8> {
    seq![
        (w % 256) as u8,
        (w / 256 % 256) as u8,
        (w / 65536 % 256) as u8,
        (w / 16777216 % 256) as u8,
    ]
}

/// The bytes are those of the words, in the byte order of a machine: the low
/// byte first in every word, or the high byte first in every word.
pub open spec fn are_bytes_of(words: Seq<u32>, bytes: Seq<u8>) -> bool {
    &&& bytes.len() == 4 * words.len()
    &&& {
        ||| forall|i: int|
            #![trigger words[i]]
            0 <= i < words.len() ==> bytes.subrange(4 * i, 4 * i + 4) == little(words[i])
        ||| forall|i: int|
            #![trigger words[i]]
            0 <= i < words.len() ==> bytes.subrange(4 * i, 4 * i + 4) == little(words[i]).reverse()
    }
}

/// `bytemuck::cast_slice` from words to bytes: the bytes as they stand in
/// memory. Which byte of a word comes first depends on the machine.
#[verifier::external_body]
fn memory_bytes(words: &Vec<u32>) -> (bytes: Vec<u8>)
    ensures
        are_bytes_of(words@, bytes@),
{
    bytemuck::cast_slice::<u32, u8>(words).to_vec()
}

impl Dispatch {
    /// The bytes of the uniform block, in the byte order of the machine.
    pub fn uniform_bytes(&self) -> (bytes: Vec<u8>)
        ensures
            are_bytes_of(self.params@, bytes@),
    {
        memory_bytes(&self.params)
    }
}

} // verus!
