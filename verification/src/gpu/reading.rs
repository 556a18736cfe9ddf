//! Where shaders read and write: the uniform block of the plan leads every
//! thread to the element that the operation is defined on.

use crate::gpu::data::{concat_fits, concat_step, offset_along};
use crate::gpu::plan::{
    broadcast_strides, four, four_strides, fused_fits, is_broadcasting, strides_of_input,
    sum_dim_plan,
};
use crate::gpu::select::shapes_of;
use crate::kernels::movement::{concat_shape, concat_source, extents, located, total_extent};
use crate::kernels::reduce::summed_into;
use crate::shape::{
    broadcast_coords, broadcast_index, broadcasts_to, coord, coords, in_range,
    law_coords_of_ravel, law_ravel_of_coords, lemma_broadcast_in_range, lemma_coords_in_range,
    lemma_numel_step, lemma_positive_dims, lemma_ravel_bound, lemma_suffix_bound, numel, ravel,
    stride,
};
use crate::tensor::TensorView;
use vstd::arithmetic::div_mod::*;
use vstd::prelude::*;

verus! {

/// The coordinate along axis `k` of four that the shader computes for thread
/// `g`, from the extents of the output.
pub open spec fn shader_coord(out: Seq<u32>, g: nat, k: int) -> nat {
    if k == 3 {
        g % out[3] as nat
    } else if k == 2 {
        (g / out[3] as nat) % out[2] as nat
    } else if k == 1 {
        (g / (out[2] as nat * out[3] as nat)) % out[1] as nat
    } else {
        g / (out[1] as nat * out[2] as nat * out[3] as nat)
    }
}

/// The position that the shader reads an input at, from the extents of the
/// output and the strides of the input.
pub open spec fn shader_index(out: Seq<u32>, strides: Seq<u32>, g: nat) -> nat {
    shader_coord(out, g, 0) * strides[0] as nat + shader_coord(out, g, 1) * strides[1] as nat
        + shader_coord(out, g, 2) * strides[2] as nat + shader_coord(out, g, 3) * strides[3] as nat
}

/// A shape of at most four axes, filled up in front with ones.
spec fn widened(s: Seq<usize>) -> Seq<usize> {
    Seq::new(
        4,
        |i: int|
            if i < 4 - s.len() {
                1
            } else {
                s[i - (4 - s.len())]
            },
    )
}

/// Coordinates of at most four axes, filled up in front with zeros.
spec fn lifted(c: Seq<nat>) -> Seq<nat> {
    Seq::new(
        4,
        |i: int|
            if i < 4 - c.len() {
                0
            } else {
                c[i - (4 - c.len())]
            },
    )
}

/// Filling up in front keeps the strides.
proof fn lemma_widened_stride(s: Seq<usize>, i: int)
    requires
        s.len() <= 4,
        4 - s.len() <= i < 4,
    ensures
        stride(widened(s), i) == stride(s, i - (4 - s.len())),
{
    assert(widened(s).skip(i + 1) =~= s.skip(i - (4 - s.len()) + 1));
}

/// The strides of four axes.
proof fn lemma_four_strides(w: Seq<usize>)
    requires
        w.len() == 4,
    ensures
        stride(w, 3) == 1,
        stride(w, 2) == w[3] as nat,
        stride(w, 1) == w[2] as nat * w[3] as nat,
        stride(w, 0) == w[1] as nat * w[2] as nat * w[3] as nat,
{
    lemma_numel_step(w, 3);
    lemma_numel_step(w, 2);
    lemma_numel_step(w, 1);
    let (a, b, c) = (w[1] as nat, w[2] as nat, w[3] as nat);
    assert(w.skip(4).len() == 0);
    assert(c * 1 == c);
    assert(a * (b * c) == a * b * c) by (nonlinear_arith);
}

/// A position as a sum over four axes.
proof fn lemma_ravel_four(w: Seq<usize>, c: Seq<nat>)
    requires
        w.len() == 4,
        c.len() == 4,
    ensures
        ravel(w, c) == c[0] * stride(w, 0) + c[1] * stride(w, 1) + c[2] * stride(w, 2) + c[3]
            * stride(w, 3),
{
    reveal_with_fuel(ravel, 5);
    assert(w.skip(1).skip(1) =~= w.skip(2));
    assert(w.skip(2).skip(1) =~= w.skip(3));
    assert(w.skip(3).skip(1) =~= w.skip(4));
    assert(c.skip(1).skip(1) =~= c.skip(2));
    assert(c.skip(2).skip(1) =~= c.skip(3));
    assert(ravel(w.skip(4), c.skip(3).skip(1)) == 0);
    assert(ravel(w.skip(3), c.skip(3)) == c[3] * numel(w.skip(4)));
    assert(ravel(w.skip(2), c.skip(2)) == c[2] * numel(w.skip(3)) + ravel(w.skip(3), c.skip(3)));
    assert(ravel(w.skip(1), c.skip(1)) == c[1] * numel(w.skip(2)) + ravel(w.skip(2), c.skip(2)));
}

/// Filling up in front keeps the position.
proof fn lemma_lifted_ravel(s: Seq<usize>, c: Seq<nat>)
    requires
        s.len() <= 4,
        c.len() == s.len(),
    ensures
        ravel(widened(s), lifted(c)) == ravel(s, c),
{
    lemma_lifted_from(s, c, 0);
    assert(widened(s).skip(0) =~= widened(s));
    assert(lifted(c).skip(0) =~= lifted(c));
}

proof fn lemma_lifted_from(s: Seq<usize>, c: Seq<nat>, i: int)
    requires
        s.len() <= 4,
        c.len() == s.len(),
        0 <= i <= 4 - s.len(),
    ensures
        ravel(widened(s).skip(i), lifted(c).skip(i)) == ravel(s, c),
    decreases 4 - i,
{
    let w = widened(s).skip(i);
    let l = lifted(c).skip(i);
    if i == 4 - s.len() {
        assert(w =~= s);
        assert(l =~= c);
    } else {
        lemma_lifted_from(s, c, i + 1);
        assert(w.skip(1) =~= widened(s).skip(i + 1));
        assert(l.skip(1) =~= lifted(c).skip(i + 1));
        assert(l[0] == 0);
        assert(0 * numel(w.skip(1)) == 0);
    }
}

/// The shader's coordinates are those of the output, on the axes that the
/// output has.
proof fn lemma_shader_coord(out: Seq<usize>, g: nat, k: int)
    requires
        out.len() <= 4,
        numel(out) <= u32::MAX,
        g < numel(out),
        4 - out.len() <= k < 4,
    ensures
        shader_coord(four(out), g, k) == coord(out, g, k - (4 - out.len())),
{
    let w = widened(out);
    let p = 4 - out.len();
    lemma_positive_dims(out);
    lemma_four_strides(w);
    lemma_widened_stride(out, k);
    assert forall|i: int| 0 <= i < 4 implies #[trigger] four(out)[i] as nat == w[i] as nat by {
        if i >= p {
            lemma_suffix_bound(out, i - p);
            lemma_numel_step(out, i - p);
            lemma_positive_dims(out);
            let (a, b) = (out[i - p] as nat, numel(out.skip(i - p + 1)));
            assert(a <= a * b) by (nonlinear_arith)
                requires
                    b > 0,
            ;
        }
    }
    if k == 0 {
        assert(out.skip(0) =~= out);
        lemma_numel_step(out, 0);
        let (d, t) = (out[0] as nat, stride(out, 0));
        assert(g / t < d) by (nonlinear_arith)
            requires
                g < d * t,
                t > 0,
        ;
        lemma_small_mod(g / t, d);
    }
    if k == 3 {
        assert(g / 1 == g);
    }
}

/// A broadcast kernel reads each of its two inputs where the operation does.
pub proof fn law_shader_reads_broadcast(
    shapes: Seq<Seq<usize>>,
    out: Seq<usize>,
    i: int,
    g: nat,
)
    requires
        fused_fits(shapes, out),
        is_broadcasting(shapes, out),
        0 <= i < 2,
        i < shapes.len(),
        broadcasts_to(shapes[i], out),
        g < numel(out),
    ensures
        shader_index(four(out), strides_of_input(shapes, i), g) == broadcast_index(
            shapes[i],
            out,
            g,
        ),
        broadcast_index(shapes[i], out, g) < numel(shapes[i]),
{
    let a = shapes[i];
    let c = coords(out, g);
    let bc = broadcast_coords(a, c);
    let bs = broadcast_strides(a);
    let w = widened(a);
    let l = lifted(bc);
    lemma_broadcast_in_range(a, out, g);
    lemma_positive_dims(a);
    lemma_lifted_ravel(a, bc);
    lemma_ravel_four(w, l);
    assert forall|k: int| 0 <= k < 4 implies shader_coord(four(out), g, k) * (#[trigger] bs[k]) as nat
        == l[k] * stride(w, k) by {
        let m = 4 - a.len();
        if k < m {
            assert(l[k] == 0);
            assert(shader_coord(four(out), g, k) * 0 == 0);
            assert(0 * stride(w, k) == 0);
        } else if a[k - m] == 1 {
            assert(l[k] == bc[k - m]);
            assert(shader_coord(four(out), g, k) * 0 == 0);
            assert(0 * stride(w, k) == 0);
        } else {
            assert(l[k] == bc[k - m]);
            assert(bc[k - m] == c[c.len() - a.len() + (k - m)]);
            lemma_shader_coord(out, g, k);
            lemma_widened_stride(a, k);
            lemma_suffix_bound(a, k - m + 1);
        }
    }
    assert(bs[0] == strides_of_input(shapes, i)[0]);
}

/// Where the shader of a concatenation writes element `i` of an input, by the
/// uniform block of its copy.
pub open spec fn copy_target(params: Seq<u32>, i: nat) -> nat {
    let mine = params[0] as nat;
    let inner = params[2] as nat;
    (i / mine) * params[1] as nat + (params[3] as nat + (i % mine) / inner) * inner + (i % mine)
        % inner
}

/// The element count splits at every axis.
proof fn lemma_numel_split(s: Seq<usize>, k: int)
    requires
        0 <= k <= s.len(),
    ensures
        numel(s) == numel(s.take(k)) * numel(s.skip(k)),
    decreases k,
{
    if k == 0 {
        assert(s.skip(0) =~= s);
        assert(s.take(0).len() == 0);
        assert(1 * numel(s) == numel(s));
    } else {
        let u = s.skip(1);
        lemma_numel_split(u, k - 1);
        assert(u.take(k - 1) =~= s.take(k).skip(1));
        assert(u.skip(k - 1) =~= s.skip(k));
        assert(s.take(k)[0] == s[0]);
        let (a, b, c) = (s[0] as nat, numel(u.take(k - 1)), numel(s.skip(k)));
        assert(a * (b * c) == (a * b) * c) by (nonlinear_arith);
    }
}

/// A position splits into the parts before, along and behind an axis.
proof fn lemma_ravel_split(s: Seq<usize>, c: Seq<nat>, axis: int)
    requires
        c.len() == s.len(),
        0 <= axis < s.len(),
    ensures
        ravel(s, c) == ravel(s.take(axis), c.take(axis)) * numel(s.skip(axis)) + c[axis] * stride(
            s,
            axis,
        ) + ravel(s.skip(axis + 1), c.skip(axis + 1)),
    decreases axis,
{
    if axis == 0 {
        assert(s.take(0).len() == 0);
        assert(ravel(s.take(0), c.take(0)) == 0);
        assert(0 * numel(s.skip(0)) == 0);
    } else {
        let u = s.skip(1);
        let e = c.skip(1);
        lemma_ravel_split(u, e, axis - 1);
        lemma_numel_split(u, axis - 1);
        assert(u.take(axis - 1) =~= s.take(axis).skip(1));
        assert(e.take(axis - 1) =~= c.take(axis).skip(1));
        assert(u.skip(axis - 1) =~= s.skip(axis));
        assert(u.skip(axis) =~= s.skip(axis + 1));
        assert(e.skip(axis) =~= c.skip(axis + 1));
        assert(s.take(axis)[0] == s[0]);
        assert(c.take(axis)[0] == c[0]);
        let (x, n, a) = (c[0], numel(u.take(axis - 1)), numel(s.skip(axis)));
        let r = ravel(u.take(axis - 1), e.take(axis - 1));
        assert(x * (n * a) + r * a == (x * n + r) * a) by (nonlinear_arith);
    }
}

/// The inputs before, at and behind input `n` make up the whole.
proof fn lemma_offset_total(xs: Seq<TensorView>, axis: int, n: nat)
    requires
        n <= xs.len(),
    ensures
        offset_along(shapes_of(xs), axis, n) + total_extent(extents(xs, axis), n as int)
            == total_extent(extents(xs, axis), 0),
    decreases n,
{
    if n > 0 {
        let before = (n - 1) as nat;
        lemma_offset_total(xs, axis, before);
        assert(total_extent(extents(xs, axis), before as int) == extents(xs, axis)[before as int] as nat
            + total_extent(extents(xs, axis), n as int));
    }
}

/// A place behind the offset of an input is found in that input.
proof fn lemma_located_at(xs: Seq<TensorView>, axis: int, t: int, v: nat, n: nat)
    requires
        n <= t < xs.len(),
        v < xs[t].shape[axis],
    ensures
        offset_along(shapes_of(xs), axis, n) <= offset_along(shapes_of(xs), axis, t as nat),
        located(
            extents(xs, axis),
            (offset_along(shapes_of(xs), axis, t as nat) - offset_along(shapes_of(xs), axis, n)
                + v) as nat,
            n as int,
        ) == (t, v),
    decreases t - n,
{
    let sizes = extents(xs, axis);
    assert(sizes[t] == xs[t].shape[axis]);
    if n < t {
        lemma_located_at(xs, axis, t, v, n + 1);
        assert(offset_along(shapes_of(xs), axis, n + 1) == offset_along(shapes_of(xs), axis, n)
            + sizes[n as int] as nat);
    }
}

/// The parts of a position can be told apart.
proof fn lemma_parts(pre: nat, v: nat, tail: nat, mine: nat, inner: nat, d: nat)
    requires
        mine == d * inner,
        v < d,
        tail < inner,
    ensures
        (pre * mine + v * inner + tail) / mine == pre,
        (pre * mine + v * inner + tail) % mine == v * inner + tail,
        (v * inner + tail) / inner == v,
        (v * inner + tail) % inner == tail,
{
    let p = v * inner + tail;
    assert(p < mine) by (nonlinear_arith)
        requires
            p == v * inner + tail,
            mine == d * inner,
            v + 1 <= d,
            tail < inner,
    ;
    assert(v * inner == inner * v) by (nonlinear_arith);
    assert(pre * mine == mine * pre) by (nonlinear_arith);
    lemma_fundamental_div_mod_converse((pre * mine + p) as int, mine as int, pre as int, p as int);
    lemma_fundamental_div_mod_converse(p as int, inner as int, v as int, tail as int);
}

/// The copies of a concatenation put every element of every input where the
/// concatenation takes it from.
pub proof fn law_concat_copies_agree(xs: Seq<TensorView>, axis: usize, t: int, i: nat)
    requires
        0 <= t < xs.len(),
        axis < xs[0].shape.len(),
        forall|j: int| 0 <= j < xs.len() ==> (#[trigger] xs[j]).shape.len() == xs[0].shape.len(),
        forall|j: int, a: int|
            0 <= j < xs.len() && 0 <= a < xs[0].shape.len() && a != axis ==> #[trigger] xs[j].shape[a]
                == xs[0].shape[a],
        concat_fits(shapes_of(xs), axis, concat_shape(xs, axis as int)),
        i < numel(xs[t].shape),
    ensures
        ({
            let out = concat_shape(xs, axis as int);
            let to = copy_target(concat_step(shapes_of(xs), axis, out, t).params, i);
            to < numel(out) && concat_source(xs, axis as int, to) == (t, i)
        }),
{
    let k = axis as int;
    let ss = shapes_of(xs);
    let out = concat_shape(xs, k);
    let s = xs[t].shape;
    let c = coords(s, i);
    let off = offset_along(ss, k, t as nat);
    let d = c.update(k, c[k] + off);
    lemma_coords_in_range(s, i);
    law_ravel_of_coords(s, i);
    lemma_positive_dims(s);
    assert(s.skip(0) =~= s);
    assert(ss[t] == s);
    // The place along the axis.
    lemma_offset_total(xs, k, t as nat);
    lemma_offset_total(xs, k, xs.len());
    assert(total_extent(extents(xs, k), t) == extents(xs, k)[t] as nat + total_extent(
        extents(xs, k),
        t + 1,
    ));
    assert(offset_along(ss, k, xs.len()) <= u32::MAX);
    assert(out[k] as nat == total_extent(extents(xs, k), 0));
    assert(c[k] < s[k]);
    assert(d[k] < out[k]);
    assert forall|a: int| 0 <= a < out.len() implies #[trigger] d[a] < out[a] by {
        if a != k {
            assert(xs[t].shape[a] == xs[0].shape[a]);
            assert(c[a] < s[a]);
        }
    }
    assert(in_range(out, d));
    // The position in the result.
    assert(out.take(k) =~= s.take(k)) by {
        assert forall|a: int| 0 <= a < k implies out[a] == s[a] by {
            assert(xs[t].shape[a] == xs[0].shape[a]);
        }
    }
    assert(out.skip(k + 1) =~= s.skip(k + 1)) by {
        assert forall|a: int| k < a < s.len() implies out[a] == s[a] by {
            assert(xs[t].shape[a] == xs[0].shape[a]);
        }
    }
    assert(d.take(k) =~= c.take(k));
    assert(d.skip(k + 1) =~= c.skip(k + 1));
    lemma_ravel_split(s, c, k);
    lemma_ravel_split(out, d, k);
    lemma_numel_step(s, k);
    lemma_numel_step(out, k);
    let pre = ravel(s.take(k), c.take(k));
    let inner = stride(s, k);
    let tail = ravel(s.skip(k + 1), c.skip(k + 1));
    assert(in_range(s.skip(k + 1), c.skip(k + 1))) by {
        assert forall|a: int| 0 <= a < s.skip(k + 1).len() implies #[trigger] c.skip(k + 1)[a]
            < s.skip(k + 1)[a] by {
            assert(c[a + k + 1] < s[a + k + 1]);
        }
    }
    lemma_ravel_bound(s.skip(k + 1), c.skip(k + 1));
    lemma_parts(pre, c[k], tail, numel(s.skip(k)), inner, s[k] as nat);
    let params = concat_step(ss, axis, out, t).params;
    assert(params[0] as nat == numel(s.skip(k)));
    assert(params[1] as nat == numel(out.skip(k)));
    assert(params[2] as nat == inner);
    assert(params[3] as nat == off);
    let to = copy_target(params, i);
    assert(to == ravel(out, d));
    lemma_ravel_bound(out, d);
    law_coords_of_ravel(out, d);
    lemma_located_at(xs, k, t, c[k], 0);
    assert(d.update(k, c[k]) =~= c);
}

/// Where the shader of a sum along an axis reads at step `k` for thread `j`,
/// by its uniform block.
pub open spec fn sum_source(params: Seq<u32>, j: nat, k: nat) -> nat {
    sum_term(params, j, k, 0) + sum_term(params, j, k, 1) + sum_term(params, j, k, 2) + sum_term(
        params,
        j,
        k,
        3,
    )
}

/// What axis `m` of four adds to the position that the shader reads.
pub open spec fn sum_term(params: Seq<u32>, j: nat, k: nat, m: int) -> nat {
    (if m == params[2] {
        k
    } else {
        shader_coord(params.subrange(4, 8), j, m)
    }) * params[12 + m] as nat
}

/// The position that is read has the coordinates of the thread, and the step
/// along the axis.
proof fn lemma_sum_source(dims: Seq<usize>, axis: usize, j: nat, k: nat)
    requires
        sum_dim_plan(dims, axis) is Some,
        j < numel(dims.update(axis as int, 1)),
        k < dims[axis as int],
    ensures
        sum_source(sum_dim_plan(dims, axis).unwrap().params, j, k) == ravel(
            dims,
            coords(dims.update(axis as int, 1), j).update(axis as int, k),
        ),
        in_range(dims, coords(dims.update(axis as int, 1), j).update(axis as int, k)),
{
    let out = dims.update(axis as int, 1);
    let params = sum_dim_plan(dims, axis).unwrap().params;
    let pad = 4 - dims.len();
    let c = coords(out, j);
    let d = c.update(axis as int, k);
    let w = widened(dims);
    let l = lifted(d);
    assert(params.subrange(4, 8) =~= four(out));
    assert(params.subrange(12, 16) =~= four_strides(dims));
    lemma_coords_in_range(out, j);
    lemma_positive_dims(out);
    assert forall|a: int| 0 <= a < dims.len() implies #[trigger] d[a] < dims[a] by {
        if a != axis {
            assert(c[a] < out[a]);
        }
    }
    lemma_numel_from_range(dims, d);
    lemma_lifted_ravel(dims, d);
    lemma_ravel_four(w, l);
    assert forall|m: int| 0 <= m < 4 implies #[trigger] sum_term(params, j, k, m) == l[m] * stride(
        w,
        m,
    ) by {
        assert(params[12 + m] == params.subrange(12, 16)[m]);
        if m < pad {
            assert(params[12 + m] == 0);
            assert(l[m] == 0);
            assert(shader_coord(four(out), j, m) * 0 == 0);
            assert(0 * stride(w, m) == 0);
        } else {
            lemma_widened_stride(dims, m);
            lemma_suffix_bound(dims, m - pad + 1);
            lemma_shader_coord(out, j, m);
            assert(l[m] == d[m - pad]);
        }
    }
    let terms = |m: int| sum_term(params, j, k, m);
    assert(terms(0) == l[0] * stride(w, 0));
    assert(terms(1) == l[1] * stride(w, 1));
    assert(terms(2) == l[2] * stride(w, 2));
    assert(terms(3) == l[3] * stride(w, 3));
}

/// Where there are coordinates, there are elements.
proof fn lemma_numel_from_range(s: Seq<usize>, c: Seq<nat>)
    requires
        in_range(s, c),
    ensures
        numel(s) > 0,
{
    lemma_ravel_bound(s, c);
}

/// Thread `j` of a sum along an axis reads elements that are summed into place
/// `j`.
pub proof fn law_sum_reads_its_elements(dims: Seq<usize>, axis: usize, j: nat, k: nat)
    requires
        sum_dim_plan(dims, axis) is Some,
        j < numel(dims.update(axis as int, 1)),
        k < dims[axis as int],
    ensures
        ({
            let p = sum_source(sum_dim_plan(dims, axis).unwrap().params, j, k);
            p < numel(dims) && summed_into(dims, axis as int, j as int)(p as int)
        }),
{
    let out = dims.update(axis as int, 1);
    let c = coords(out, j);
    let d = c.update(axis as int, k);
    lemma_sum_source(dims, axis, j, k);
    lemma_ravel_bound(dims, d);
    law_coords_of_ravel(dims, d);
    lemma_coords_in_range(out, j);
    law_ravel_of_coords(out, j);
    assert(c[axis as int] < out[axis as int]);
    assert(d.update(axis as int, 0) =~= c);
}

/// Thread `j` of a sum along an axis reads every element that is summed into
/// place `j`, at the step that is the element's place along the axis.
pub proof fn law_sum_reads_all_elements(dims: Seq<usize>, axis: usize, j: nat, idx: nat)
    requires
        sum_dim_plan(dims, axis) is Some,
        idx < numel(dims),
        summed_into(dims, axis as int, j as int)(idx as int),
    ensures
        coord(dims, idx, axis as int) < dims[axis as int],
        sum_source(
            sum_dim_plan(dims, axis).unwrap().params,
            j,
            coord(dims, idx, axis as int),
        ) == idx,
{
    let out = dims.update(axis as int, 1);
    let e = coords(dims, idx);
    let f = e.update(axis as int, 0);
    lemma_coords_in_range(dims, idx);
    law_ravel_of_coords(dims, idx);
    assert forall|a: int| 0 <= a < out.len() implies #[trigger] f[a] < out[a] by {
        if a != axis {
            assert(e[a] < dims[a]);
        }
    }
    lemma_ravel_bound(out, f);
    law_coords_of_ravel(out, f);
    assert(e[axis as int] < dims[axis as int]);
    lemma_sum_source(dims, axis, j, e[axis as int]);
    assert(f.update(axis as int, e[axis as int]) =~= e);
}

} // verus!
