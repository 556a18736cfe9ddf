//! Tensor shapes: element counts, row-major strides, and the correspondence
//! between flat positions and coordinates.

use vstd::arithmetic::div_mod::*;
use vstd::arithmetic::mul::*;
use vstd::prelude::*;

verus! {

/// The extents of a tensor along each of its axes.
#[derive(Debug)]
pub struct Shape {
    pub dims: Vec<usize>,
}

impl View for Shape {
    type V = Seq<usize>;

    open spec fn view(&self) -> Seq<usize> {
        self.dims@
    }
}

/// The number of elements of a tensor with the given extents.
pub open spec fn numel(s: Seq<usize>) -> nat
    decreases s.len(),
{
    if s.len() == 0 {
        1
    } else {
        s[0] as nat * numel(s.skip(1))
    }
}

/// Every stride, and the element count, is a machine-sized number.
pub open spec fn fits(s: Seq<usize>) -> bool {
    forall|i: int| 0 <= i <= s.len() ==> numel(#[trigger] s.skip(i)) <= usize::MAX
}

/// Every stride is a machine-sized number. The first extent has no influence.
pub open spec fn strides_fit(s: Seq<usize>) -> bool {
    forall|i: int| 1 <= i <= s.len() ==> numel(#[trigger] s.skip(i)) <= usize::MAX
}

/// The distance, in elements, between neighbours along axis `i`.
pub open spec fn stride(s: Seq<usize>, i: int) -> nat {
    numel(s.skip(i + 1))
}

/// The coordinate along axis `i` of the element at flat position `idx`.
pub open spec fn coord(s: Seq<usize>, idx: nat, i: int) -> nat
    recommends
        0 <= i < s.len(),
{
    (idx / stride(s, i)) % (s[i] as nat)
}

/// All coordinates of the element at flat position `idx`.
pub open spec fn coords(s: Seq<usize>, idx: nat) -> Seq<nat> {
    Seq::new(s.len(), |i: int| coord(s, idx, i))
}

/// The flat position of the element with coordinates `c`.
pub open spec fn ravel(s: Seq<usize>, c: Seq<nat>) -> nat
    decreases s.len(),
{
    if s.len() == 0 || c.len() == 0 {
        0
    } else {
        c[0] * numel(s.skip(1)) + ravel(s.skip(1), c.skip(1))
    }
}

/// `c` names an element of a tensor of shape `s`.
pub open spec fn in_range(s: Seq<usize>, c: Seq<nat>) -> bool {
    &&& c.len() == s.len()
    &&& forall|i: int| 0 <= i < s.len() ==> #[trigger] c[i] < s[i]
}

pub proof fn lemma_in_range_skip(s: Seq<usize>, c: Seq<nat>)
    requires
        in_range(s, c),
        s.len() > 0,
    ensures
        in_range(s.skip(1), c.skip(1)),
        c[0] < s[0],
{
    assert forall|i: int| 0 <= i < s.skip(1).len() implies #[trigger] c.skip(1)[i] < s.skip(1)[i] by {
        assert(c[i + 1] < s[i + 1]);
    }
}

/// A flat position computed from coordinates in range is in range.
pub proof fn lemma_ravel_bound(s: Seq<usize>, c: Seq<nat>)
    requires
        in_range(s, c),
    ensures
        ravel(s, c) < numel(s),
    decreases s.len(),
{
    if s.len() > 0 {
        lemma_in_range_skip(s, c);
        lemma_ravel_bound(s.skip(1), c.skip(1));
        let n = numel(s.skip(1));
        let c0 = c[0];
        let s0 = s[0] as nat;
        assert(c0 * n + n <= s0 * n) by (nonlinear_arith)
            requires
                c0 < s0,
        ;
    }
}

pub proof fn lemma_numel_positive(s: Seq<usize>)
    requires
        forall|i: int| 0 <= i < s.len() ==> #[trigger] s[i] > 0,
    ensures
        numel(s) > 0,
    decreases s.len(),
{
    if s.len() > 0 {
        assert forall|i: int| 0 <= i < s.skip(1).len() implies #[trigger] s.skip(1)[i] > 0 by {
            assert(s[i + 1] > 0);
        }
        lemma_numel_positive(s.skip(1));
        let a = s[0] as nat;
        let b = numel(s.skip(1));
        assert(a * b > 0) by (nonlinear_arith)
            requires
                a > 0,
                b > 0,
        ;
    }
}

/// A shape with an element has no empty axis.
pub proof fn lemma_positive_dims(s: Seq<usize>)
    requires
        numel(s) > 0,
    ensures
        forall|i: int| 0 <= i < s.len() ==> #[trigger] s[i] > 0,
        forall|i: int| 0 <= i <= s.len() ==> numel(#[trigger] s.skip(i)) > 0,
    decreases s.len(),
{
    if s.len() > 0 {
        let a = s[0] as nat;
        let b = numel(s.skip(1));
        assert(a > 0 && b > 0) by (nonlinear_arith)
            requires
                a * b > 0,
                a >= 0,
                b >= 0,
        ;
        lemma_positive_dims(s.skip(1));
        assert forall|i: int| 0 <= i < s.len() implies #[trigger] s[i] > 0 by {
            if i > 0 {
                assert(s.skip(1)[i - 1] == s[i]);
            }
        }
        assert forall|i: int| 0 <= i <= s.len() implies numel(#[trigger] s.skip(i)) > 0 by {
            if i > 0 {
                assert(s.skip(1).skip(i - 1) =~= s.skip(i));
            } else {
                assert(s.skip(0) =~= s);
            }
        }
    } else {
        assert(s.skip(0) =~= s);
    }
}

/// The element count of a suffix splits off its first extent.
pub proof fn lemma_numel_step(s: Seq<usize>, i: int)
    requires
        0 <= i < s.len(),
    ensures
        numel(s.skip(i)) == s[i] as nat * numel(s.skip(i + 1)),
{
    assert(s.skip(i)[0] == s[i]);
    assert(s.skip(i).skip(1) =~= s.skip(i + 1));
}

/// The element count of a suffix is at most that of the whole, unless there
/// are no elements.
pub proof fn lemma_suffix_bound(s: Seq<usize>, i: int)
    requires
        0 < numel(s),
        0 <= i <= s.len(),
    ensures
        0 < numel(s.skip(i)) <= numel(s),
    decreases i,
{
    if i == 0 {
        assert(s.skip(0) =~= s);
    } else {
        lemma_suffix_bound(s, i - 1);
        lemma_numel_step(s, i - 1);
        let a = s[i - 1] as nat;
        let b = numel(s.skip(i));
        assert(0 < b <= a * b) by (nonlinear_arith)
            requires
                a * b > 0,
                a >= 0,
                b >= 0,
        ;
    }
}

pub proof fn lemma_fits_suffix(s: Seq<usize>)
    requires
        fits(s),
        s.len() > 0,
    ensures
        fits(s.skip(1)),
{
    assert forall|i: int| 0 <= i <= s.skip(1).len() implies numel(#[trigger] s.skip(1).skip(i))
        <= usize::MAX by {
        assert(s.skip(1).skip(i) =~= s.skip(i + 1));
    }
}

/// Coordinates of a flat position are within the extents.
pub proof fn lemma_coords_in_range(s: Seq<usize>, idx: nat)
    requires
        numel(s) > 0,
    ensures
        in_range(s, coords(s, idx)),
{
    lemma_positive_dims(s);
    assert forall|i: int| 0 <= i < s.len() implies #[trigger] coords(s, idx)[i] < s[i] by {
        lemma_mod_bound((idx / stride(s, i)) as int, s[i] as int);
    }
}

pub proof fn lemma_coords_skip(s: Seq<usize>, idx: nat)
    requires
        s.len() > 0,
        idx < numel(s),
    ensures
        coords(s, idx)[0] == idx / numel(s.skip(1)),
        coords(s, idx).skip(1) =~= coords(s.skip(1), idx % numel(s.skip(1))),
        numel(s.skip(1)) > 0,
{
    lemma_positive_dims(s);
    let n = numel(s.skip(1));
    let d0 = s[0] as nat;
    assert(s.skip(1) == s.skip(0int + 1));
    assert(n > 0);
    assert(idx < d0 * n);
    assert(idx / n < d0) by {
        lemma_mul_is_commutative(d0 as int, n as int);
        lemma_multiply_divide_lt(idx as int, n as int, d0 as int);
    }
    lemma_small_mod(idx / n, d0);
    let t = s.skip(1);
    let m = idx % n;
    assert forall|i: int| 0 <= i < t.len() implies #[trigger] coords(s, idx).skip(1)[i] == coords(
        t,
        m,
    )[i] by {
        assert(t.skip(i + 1) =~= s.skip(i + 2));
        let w = stride(s, i + 1);
        let d = s[i + 1] as nat;
        assert(stride(t, i) == w);
        assert(w > 0) by {
            assert(s.skip(i + 2) == s.skip(i + 1 + 1));
        }
        // n is a multiple of d * w, so taking the remainder modulo n does not
        // change the digit at weight w.
        let q = lemma_stride_divides(t, i);
        assert(n == q * (d * w));
        assert(d > 0);
        let k = idx / n;
        lemma_fundamental_div_mod(idx as int, n as int);
        assert(idx == m + (k * q * d) * w) by (nonlinear_arith)
            requires
                idx == n * k + m,
                n == q * (d * w),
        ;
        lemma_div_add_multiple((k * q * d) as int, m as int, w as int);
        assert(idx / w == (k * q) * d + m / w);
        lemma_mod_add_multiple((k * q) as int, (m / w) as int, d as int);
    }
}

/// `(q * w + m) / w == q + m / w`.
proof fn lemma_div_add_multiple(q: int, m: int, w: int)
    requires
        w > 0,
        m >= 0,
    ensures
        (m + q * w) / w == q + m / w,
{
    lemma_hoist_over_denominator(m, q, w as nat);
    lemma_mul_is_commutative(q, w);
}

/// `(q * d + m) % d == m % d`.
proof fn lemma_mod_add_multiple(q: int, m: int, d: int)
    requires
        d > 0,
    ensures
        (q * d + m) % d == m % d,
{
    lemma_mod_multiples_vanish(q, m, d);
    lemma_mul_is_commutative(q, d);
}

/// The element count is a multiple of every extent times its stride.
proof fn lemma_stride_divides(s: Seq<usize>, i: int) -> (q: nat)
    requires
        0 <= i < s.len(),
    ensures
        numel(s) == q * (s[i] as nat * stride(s, i)),
    decreases i,
{
    if i == 0 {
        assert(s.skip(1) == s.skip(0int + 1));
        1
    } else {
        let t = s.skip(1);
        let q = lemma_stride_divides(t, i - 1);
        assert(t.skip(i) =~= s.skip(i + 1));
        let e = s[i] as nat * stride(s, i);
        assert(numel(t) == q * e);
        let d0 = s[0] as nat;
        assert(d0 * (q * e) == (d0 * q) * e) by (nonlinear_arith);
        d0 * q
    }
}

/// Turning a flat position into coordinates and back gives the position.
pub proof fn law_ravel_of_coords(s: Seq<usize>, idx: nat)
    requires
        idx < numel(s),
    ensures
        ravel(s, coords(s, idx)) == idx,
    decreases s.len(),
{
    if s.len() > 0 {
        lemma_coords_skip(s, idx);
        let n = numel(s.skip(1));
        lemma_mod_bound(idx as int, n as int);
        law_ravel_of_coords(s.skip(1), idx % n);
        lemma_fundamental_div_mod(idx as int, n as int);
        lemma_mul_is_commutative(n as int, (idx / n) as int);
    }
}

/// Turning coordinates into a flat position and back gives the coordinates.
pub proof fn law_coords_of_ravel(s: Seq<usize>, c: Seq<nat>)
    requires
        in_range(s, c),
    ensures
        coords(s, ravel(s, c)) == c,
    decreases s.len(),
{
    if s.len() > 0 {
        lemma_ravel_bound(s, c);
        lemma_in_range_skip(s, c);
        lemma_ravel_bound(s.skip(1), c.skip(1));
        law_coords_of_ravel(s.skip(1), c.skip(1));
        let n = numel(s.skip(1));
        let r = ravel(s.skip(1), c.skip(1));
        let idx = ravel(s, c);
        lemma_coords_skip(s, idx);
        lemma_fundamental_div_mod_converse(idx as int, n as int, c[0] as int, r as int);
        assert(coords(s, idx)[0] == c[0]);
        assert(coords(s, idx).skip(1) =~= c.skip(1));
        assert forall|i: int| 0 <= i < c.len() implies coords(s, idx)[i] == c[i] by {
            if i > 0 {
                assert(coords(s, idx).skip(1)[i - 1] == c.skip(1)[i - 1]);
            }
        }
        assert(coords(s, idx) =~= c);
    } else {
        assert(coords(s, ravel(s, c)) =~= c);
    }
}

/// Different coordinates have different flat positions.
pub proof fn law_ravel_injective(s: Seq<usize>, c: Seq<nat>, d: Seq<nat>)
    requires
        in_range(s, c),
        in_range(s, d),
        ravel(s, c) == ravel(s, d),
    ensures
        c == d,
{
    law_coords_of_ravel(s, c);
    law_coords_of_ravel(s, d);
}

/// The coordinates as machine numbers.
pub open spec fn as_nats(c: Seq<usize>) -> Seq<nat> {
    Seq::new(c.len(), |i: int| c[i] as nat)
}

/// Row-major strides of the given extents: the last axis is contiguous. The
/// first extent has no influence.
pub fn get_strides(dims: &Vec<usize>) -> (strides: Vec<usize>)
    requires
        strides_fit(dims@),
    ensures
        strides@.len() == dims@.len(),
        forall|i: int| 0 <= i < dims@.len() ==> #[trigger] strides@[i] == stride(dims@, i),
{
    let n: usize = dims.len();
    let mut strides: Vec<usize> = vec![1; n];
    let mut i: usize = n;
    while i > 0
        invariant
            i <= n,
            n == dims@.len(),
            strides@.len() == n,
            strides_fit(dims@),
            forall|j: int| i <= j < n ==> #[trigger] strides@[j] == stride(dims@, j),
        decreases i,
    {
        i = i - 1;
        if i + 1 < n {
            proof {
                assert(strides@[i + 1] == stride(dims@, i + 1));
                lemma_numel_step(dims@, i + 1);
                lemma_mul_is_commutative(dims@[i + 1] as int, strides@[i + 1] as int);
                assert(numel(dims@.skip(i + 1)) <= usize::MAX);
            }
            strides[i] = strides[i + 1] * dims[i + 1];
        } else {
            proof {
                assert(dims@.skip(n as int).len() == 0);
            }
            strides[i] = 1;
        }
    }
    strides
}

/// The coordinates of the element at flat position `idx`.
pub fn unravel(idx: usize, dims: &Vec<usize>) -> (c: Vec<usize>)
    requires
        numel(dims@) > 0,
    ensures
        as_nats(c@) == coords(dims@, idx as nat),
        in_range(dims@, as_nats(c@)),
{
    let n: usize = dims.len();
    let mut c: Vec<usize> = vec![0; n];
    let mut temp: usize = idx;
    let mut i: usize = n;
    proof {
        lemma_positive_dims(dims@);
        assert(dims@.skip(n as int).len() == 0);
        assert(numel(dims@.skip(n as int)) == 1);
        lemma_div_basics(idx as int);
    }
    while i > 0
        invariant
            i <= n,
            n == dims@.len(),
            c@.len() == n,
            temp == idx as nat / numel(dims@.skip(i as int)),
            forall|j: int| 0 <= j < n ==> #[trigger] dims@[j] > 0,
            forall|j: int| 0 <= j <= n ==> numel(#[trigger] dims@.skip(j)) > 0,
            forall|j: int| i <= j < n ==> #[trigger] c@[j] == coord(dims@, idx as nat, j),
        decreases i,
    {
        i = i - 1;
        c[i] = temp % dims[i];
        proof {
            lemma_numel_step(dims@, i as int);
            lemma_div_denominator(
                idx as int,
                numel(dims@.skip(i + 1)) as int,
                dims@[i as int] as int,
            );
            lemma_mul_is_commutative(
                dims@[i as int] as int,
                numel(dims@.skip(i + 1)) as int,
            );
        }
        temp = temp / dims[i];
    }
    proof {
        assert(as_nats(c@) =~= coords(dims@, idx as nat));
        lemma_coords_in_range(dims@, idx as nat);
    }
    c
}

/// The flat position of the element with coordinates `c`.
pub fn ravel_index(c: &Vec<usize>, dims: &Vec<usize>, strides: &Vec<usize>) -> (idx: usize)
    requires
        in_range(dims@, as_nats(c@)),
        fits(dims@),
        strides@.len() == dims@.len(),
        forall|i: int| 0 <= i < dims@.len() ==> #[trigger] strides@[i] == stride(dims@, i),
    ensures
        idx == ravel(dims@, as_nats(c@)),
        idx < numel(dims@),
{
    let n: usize = c.len();
    let mut idx: usize = 0;
    let ghost s = dims@;
    let ghost cs = as_nats(c@);
    proof {
        lemma_ravel_bound(s, cs);
        assert(s.skip(0) =~= s);
        assert(cs.skip(0) =~= cs);
        assert(numel(s.skip(0)) <= usize::MAX);
    }
    for i in 0..n
        invariant
            n == c@.len() == s.len(),
            s == dims@,
            cs == as_nats(c@),
            strides@.len() == n,
            forall|j: int| 0 <= j < n ==> #[trigger] strides@[j] == stride(s, j),
            idx + ravel(s.skip(i as int), cs.skip(i as int)) == ravel(s, cs),
            ravel(s, cs) < numel(s) <= usize::MAX,
    {
        proof {
            let t = s.skip(i as int);
            let d = cs.skip(i as int);
            assert(t.skip(1) =~= s.skip(i + 1));
            assert(d.skip(1) =~= cs.skip(i + 1));
            assert(d[0] == c@[i as int]);
            assert(strides@[i as int] == stride(s, i as int));
        }
        idx = idx + c[i] * strides[i];
    }
    idx
}

/// The flat position that coordinates along the first axes come to, whether
/// or not they are in range, if it is machine-sized.
pub fn checked_ravel(c: &Vec<usize>, dims: &Vec<usize>, strides: &Vec<usize>) -> (idx: Option<
    usize,
>)
    requires
        c@.len() <= dims@.len(),
        strides@.len() == dims@.len(),
        forall|i: int| 0 <= i < dims@.len() ==> #[trigger] strides@[i] == stride(dims@, i),
    ensures
        match idx {
            Some(v) => v == ravel(dims@, as_nats(c@)),
            None => ravel(dims@, as_nats(c@)) > usize::MAX,
        },
{
    let n: usize = c.len();
    let mut idx: usize = 0;
    let ghost s = dims@;
    let ghost cs = as_nats(c@);
    proof {
        assert(s.skip(0) =~= s);
        assert(cs.skip(0) =~= cs);
    }
    for i in 0..n
        invariant
            n == c@.len(),
            n <= s.len(),
            s == dims@,
            cs == as_nats(c@),
            strides@.len() == s.len(),
            forall|j: int| 0 <= j < s.len() ==> #[trigger] strides@[j] == stride(s, j),
            idx + ravel(s.skip(i as int), cs.skip(i as int)) == ravel(s, cs),
    {
        proof {
            let t = s.skip(i as int);
            let d = cs.skip(i as int);
            assert(t.skip(1) =~= s.skip(i + 1));
            assert(d.skip(1) =~= cs.skip(i + 1));
            assert(d[0] == c@[i as int]);
            assert(strides@[i as int] == stride(s, i as int));
        }
        let term: usize = match c[i].checked_mul(strides[i]) {
            Some(t) => t,
            None => {
                return None;
            },
        };
        idx = match idx.checked_add(term) {
            Some(v) => v,
            None => {
                return None;
            },
        };
    }
    Some(idx)
}

/// The shape that two shapes broadcast to, aligned at their last axes: extents
/// agree or one of them is 1.
pub open spec fn broadcast_of(a: Seq<usize>, b: Seq<usize>) -> Option<Seq<usize>> {
    if forall|i: int|
        0 <= i < max_len(a, b) ==> {
            let x = #[trigger] aligned(a, max_len(a, b), i);
            let y = aligned(b, max_len(a, b), i);
            x == y || x == 1 || y == 1
        } {
        Some(Seq::new(max_len(a, b), |i: int| broadcast_dim(a, b, i)))
    } else {
        None
    }
}

pub open spec fn max_len(a: Seq<usize>, b: Seq<usize>) -> nat {
    if a.len() >= b.len() {
        a.len()
    } else {
        b.len()
    }
}

/// Extent `i` of `a` padded on the left with ones to `n` axes.
pub open spec fn aligned(a: Seq<usize>, n: nat, i: int) -> usize {
    if i < n - a.len() {
        1
    } else {
        a[i - (n - a.len())]
    }
}

pub open spec fn broadcast_dim(a: Seq<usize>, b: Seq<usize>, i: int) -> usize {
    let x = aligned(a, max_len(a, b), i);
    let y = aligned(b, max_len(a, b), i);
    if x == 1 {
        y
    } else {
        x
    }
}

/// A tensor of shape `a` can be read as one of shape `out`.
pub open spec fn broadcasts_to(a: Seq<usize>, out: Seq<usize>) -> bool {
    &&& a.len() <= out.len()
    &&& forall|i: int|
        0 <= i < a.len() ==> #[trigger] a[i] == 1 || a[i] == out[out.len() - a.len() + i]
}

/// The coordinates, in a tensor of shape `a`, of what stands at coordinates
/// `c` of the tensor it is broadcast to.
pub open spec fn broadcast_coords(a: Seq<usize>, c: Seq<nat>) -> Seq<nat> {
    Seq::new(
        a.len(),
        |i: int| if a[i] == 1 {
            0
        } else {
            c[c.len() - a.len() + i]
        },
    )
}

/// The flat position, in a tensor of shape `a`, that is read for flat position
/// `idx` of a tensor of shape `out`.
pub open spec fn broadcast_index(a: Seq<usize>, out: Seq<usize>, idx: nat) -> nat {
    ravel(a, broadcast_coords(a, coords(out, idx)))
}

/// Both operands of a broadcast can be read at every position of the result.
pub proof fn law_broadcast_operands(a: Seq<usize>, b: Seq<usize>)
    requires
        broadcast_of(a, b) is Some,
    ensures
        broadcasts_to(a, broadcast_of(a, b).unwrap()),
        broadcasts_to(b, broadcast_of(a, b).unwrap()),
{
    let n = max_len(a, b);
    let out = broadcast_of(a, b).unwrap();
    assert forall|i: int| 0 <= i < a.len() implies #[trigger] a[i] == 1 || a[i] == out[out.len()
        - a.len() + i] by {
        let j = n - a.len() + i;
        assert(aligned(a, n, j) == a[i]);
    }
    assert forall|i: int| 0 <= i < b.len() implies #[trigger] b[i] == 1 || b[i] == out[out.len()
        - b.len() + i] by {
        let j = n - b.len() + i;
        assert(aligned(b, n, j) == b[i]);
        let x = aligned(a, n, j);
    }
}

/// The position read by a broadcast is within the operand.
pub proof fn lemma_broadcast_in_range(a: Seq<usize>, out: Seq<usize>, idx: nat)
    requires
        broadcasts_to(a, out),
        idx < numel(out),
    ensures
        in_range(a, broadcast_coords(a, coords(out, idx))),
        broadcast_index(a, out, idx) < numel(a),
{
    lemma_coords_in_range(out, idx);
    lemma_positive_dims(out);
    let c = coords(out, idx);
    let bc = broadcast_coords(a, c);
    assert forall|i: int| 0 <= i < a.len() implies #[trigger] bc[i] < a[i] by {
        let j = out.len() - a.len() + i;
        assert(c[j] < out[j]);
        assert(a[i] == 1 || a[i] == out[j]);
    }
    lemma_ravel_bound(a, bc);
}

/// Broadcasting a tensor to its own shape reads every element in place.
pub proof fn law_broadcast_same_shape(a: Seq<usize>, idx: nat)
    requires
        idx < numel(a),
    ensures
        broadcasts_to(a, a),
        broadcast_index(a, a, idx) == idx,
{
    lemma_coords_in_range(a, idx);
    assert(broadcast_coords(a, coords(a, idx)) =~= coords(a, idx)) by {
        assert forall|i: int| 0 <= i < a.len() implies broadcast_coords(a, coords(a, idx))[i]
            == coords(a, idx)[i] by {
            assert(coords(a, idx)[i] < a[i]);
        }
    }
    law_ravel_of_coords(a, idx);
}

/// The shape that two shapes broadcast to, if they do.
pub fn broadcast_shapes(a: &Vec<usize>, b: &Vec<usize>) -> (out: Option<Vec<usize>>)
    ensures
        match out {
            Some(v) => broadcast_of(a@, b@) == Some(v@),
            None => broadcast_of(a@, b@) is None,
        },
{
    let na: usize = a.len();
    let nb: usize = b.len();
    let n: usize = if na >= nb {
        na
    } else {
        nb
    };
    let mut out: Vec<usize> = Vec::new();
    for i in 0..n
        invariant
            na == a@.len(),
            nb == b@.len(),
            n == max_len(a@, b@),
            out@.len() == i,
            forall|j: int| 0 <= j < i ==> #[trigger] out@[j] == broadcast_dim(a@, b@, j),
            forall|j: int|
                0 <= j < i ==> {
                    let x = #[trigger] aligned(a@, n as nat, j);
                    let y = aligned(b@, n as nat, j);
                    x == y || x == 1 || y == 1
                },
    {
        let x: usize = if i < n - na {
            1
        } else {
            a[i - (n - na)]
        };
        let y: usize = if i < n - nb {
            1
        } else {
            b[i - (n - nb)]
        };
        proof {
            assert(x == aligned(a@, n as nat, i as int));
            assert(y == aligned(b@, n as nat, i as int));
        }
        if x != y && x != 1 && y != 1 {
            return None;
        }
        out.push(
            if x == 1 {
                y
            } else {
                x
            },
        );
    }
    proof {
        assert(out@ =~= Seq::new(max_len(a@, b@), |i: int| broadcast_dim(a@, b@, i)));
    }
    Some(out)
}

/// Of `len` numbers, read as a tensor of shape `a`, the one is there that is
/// read for flat position `idx` of a tensor of shape `out`.
pub open spec fn is_there(a: Seq<usize>, len: nat, out: Seq<usize>, idx: nat) -> bool {
    a.len() <= out.len() && broadcast_index(a, out, idx) < len
}

/// `len` numbers can be read as a tensor of shape `a` for every position of a
/// tensor of shape `out`.
pub open spec fn covers(a: Seq<usize>, len: nat, out: Seq<usize>) -> bool {
    &&& strides_fit(a)
    &&& forall|i: nat| i < numel(out) ==> #[trigger] is_there(a, len, out, i)
}

/// A tensor that broadcasts to a shape can be read for every position of it.
pub proof fn law_broadcasts_cover(a: Seq<usize>, len: nat, out: Seq<usize>)
    requires
        fits(a),
        numel(a) <= len,
        broadcasts_to(a, out),
    ensures
        covers(a, len, out),
{
    assert forall|i: nat| i < numel(out) implies #[trigger] is_there(a, len, out, i) by {
        lemma_broadcast_in_range(a, out, i);
    }
}

/// The flat position that a broadcast operand of `len` numbers is read at, from
/// the coordinates of the result, if the operand goes that far.
pub fn broadcast_position(
    dims: &Vec<usize>,
    len: usize,
    strides: &Vec<usize>,
    c: &Vec<usize>,
    out_dims: &Vec<usize>,
    idx: usize,
) -> (pos: Option<usize>)
    requires
        as_nats(c@) == coords(out_dims@, idx as nat),
        strides@.len() == dims@.len(),
        forall|i: int| 0 <= i < dims@.len() ==> #[trigger] strides@[i] == stride(dims@, i),
    ensures
        match pos {
            Some(p) => is_there(dims@, len as nat, out_dims@, idx as nat) && p == broadcast_index(
                dims@,
                out_dims@,
                idx as nat,
            ),
            None => !is_there(dims@, len as nat, out_dims@, idx as nat),
        },
{
    let n: usize = dims.len();
    let m: usize = out_dims.len();
    if n > m {
        return None;
    }
    proof {
        assert(c@.len() == as_nats(c@).len());
    }
    let mut bc: Vec<usize> = Vec::new();
    for i in 0..n
        invariant
            n == dims@.len(),
            m == out_dims@.len() == c@.len(),
            n <= m,
            bc@.len() == i,
            as_nats(c@) == coords(out_dims@, idx as nat),
            forall|j: int|
                0 <= j < i ==> #[trigger] bc@[j] == broadcast_coords(
                    dims@,
                    coords(out_dims@, idx as nat),
                )[j],
    {
        let v: usize = if dims[i] == 1 {
            0
        } else {
            c[m - n + i]
        };
        proof {
            assert(as_nats(c@)[m - n + i] == c@[m - n + i]);
        }
        bc.push(v);
    }
    proof {
        assert(as_nats(bc@) =~= broadcast_coords(dims@, coords(out_dims@, idx as nat)));
    }
    match checked_ravel(&bc, dims, strides) {
        Some(p) => if p < len {
            Some(p)
        } else {
            None
        },
        None => None,
    }
}

/// The strides of the given extents, if they are machine-sized.
pub fn checked_strides(dims: &Vec<usize>) -> (strides: Option<Vec<usize>>)
    ensures
        match strides {
            Some(v) => {
                &&& strides_fit(dims@)
                &&& v@.len() == dims@.len()
                &&& forall|i: int| 0 <= i < dims@.len() ==> #[trigger] v@[i] == stride(dims@, i)
            },
            None => !strides_fit(dims@),
        },
{
    let len: usize = dims.len();
    let mut acc: usize = 1;
    let mut i: usize = len;
    proof {
        assert(dims@.skip(len as int).len() == 0);
    }
    while i > 1
        invariant
            i <= len,
            len == dims@.len(),
            acc == numel(dims@.skip(i as int)),
            forall|j: int| i <= j <= len ==> numel(#[trigger] dims@.skip(j)) <= usize::MAX,
        decreases i,
    {
        i = i - 1;
        proof {
            lemma_numel_step(dims@, i as int);
        }
        match dims[i].checked_mul(acc) {
            Some(v) => {
                acc = v;
            },
            None => {
                proof {
                    assert(numel(dims@.skip(i as int)) > usize::MAX);
                }
                return None;
            },
        }
    }
    Some(get_strides(dims))
}

/// Whether no extent is zero.
pub fn all_positive(dims: &Vec<usize>) -> (r: bool)
    ensures
        r == (numel(dims@) > 0),
{
    for i in 0..dims.len()
        invariant
            forall|j: int| 0 <= j < i ==> #[trigger] dims@[j] > 0,
    {
        if dims[i] == 0 {
            proof {
                if numel(dims@) > 0 {
                    lemma_positive_dims(dims@);
                }
            }
            return false;
        }
    }
    proof {
        lemma_numel_positive(dims@);
    }
    true
}

/// The element count, if every stride and the count are machine-sized.
pub fn checked_numel(dims: &Vec<usize>) -> (n: Option<usize>)
    ensures
        match n {
            Some(v) => fits(dims@) && v == numel(dims@),
            None => !fits(dims@),
        },
{
    let len: usize = dims.len();
    let mut acc: usize = 1;
    let mut i: usize = len;
    proof {
        assert(dims@.skip(len as int).len() == 0);
    }
    while i > 0
        invariant
            i <= len,
            len == dims@.len(),
            acc == numel(dims@.skip(i as int)),
            forall|j: int| i <= j <= len ==> numel(#[trigger] dims@.skip(j)) <= usize::MAX,
        decreases i,
    {
        i = i - 1;
        proof {
            lemma_numel_step(dims@, i as int);
        }
        match dims[i].checked_mul(acc) {
            Some(v) => {
                acc = v;
            },
            None => {
                proof {
                    assert(numel(dims@.skip(i as int)) > usize::MAX);
                }
                return None;
            },
        }
    }
    proof {
        assert(dims@.skip(0) =~= dims@);
    }
    Some(acc)
}

/// Copies a list of extents.
pub fn copy_dims(dims: &Vec<usize>) -> (out: Vec<usize>)
    ensures
        out@ == dims@,
{
    let out = dims.clone();
    proof {
        assert(out@ =~= dims@);
    }
    out
}

/// Whether two lists of extents are the same.
pub fn same_dims(a: &Vec<usize>, b: &Vec<usize>) -> (r: bool)
    ensures
        r == (a@ == b@),
{
    if a.len() != b.len() {
        return false;
    }
    for i in 0..a.len()
        invariant
            a@.len() == b@.len(),
            forall|j: int| 0 <= j < i ==> a@[j] == b@[j],
    {
        if a[i] != b[i] {
            return false;
        }
    }
    proof {
        assert(a@ =~= b@);
    }
    true
}

impl Shape {
    /// A shape with the given extents.
    pub fn new(dims: Vec<usize>) -> (s: Shape)
        ensures
            s@ == dims@,
    {
        Shape { dims }
    }

    /// The extents.
    pub fn dims(&self) -> (d: &Vec<usize>)
        ensures
            d@ == self@,
    {
        &self.dims
    }

    /// The number of axes.
    pub fn ndim(&self) -> (n: usize)
        ensures
            n == self@.len(),
    {
        self.dims.len()
    }

    /// The number of elements.
    pub fn num_elements(&self) -> (n: usize)
        requires
            fits(self@),
        ensures
            n == numel(self@),
    {
        match checked_numel(&self.dims) {
            Some(n) => n,
            None => 0,
        }
    }

    /// A copy of the shape.
    pub fn copy(&self) -> (s: Shape)
        ensures
            s@ == self@,
    {
        Shape { dims: copy_dims(&self.dims) }
    }
}

} // verus!
