//! Choosing among scores.

use crate::float::{
    abs_of, at_least, bits, computes, do_abs, do_larger, do_minus, greater, gt, is_nan, larger_of,
    minus, Float, Fx, ZERO,
};
use vstd::prelude::*;

verus! {

/// The place of the largest of the first `n` scores, from the left; a score
/// takes over unless the largest so far exceeds it.
pub open spec fn best_of(v: Seq<u32>, n: nat) -> int
    decreases n,
{
    if n <= 1 {
        0
    } else {
        let b = best_of(v, (n - 1) as nat);
        if greater(v[b], v[n - 1]) {
            b
        } else {
            n - 1
        }
    }
}

/// The place of the largest score; zero where there is none.
pub fn argmax(v: &Vec<u32>) -> (r: usize)
    ensures
        r == best_of(v@, v@.len()),
        v@.len() > 0 ==> r < v@.len(),
{
    let size: usize = v.len();
    let mut b: usize = 0;
    for i in 0..size
        invariant
            size == v@.len(),
            b == best_of(v@, i as nat),
            i > 0 ==> b < i,
            i == 0 ==> b == 0,
    {
        if i > 0 && !gt(v[b], v[i]) {
            b = i;
        }
    }
    b
}

/// Where all scores are numbers, the chosen place holds the largest, and the
/// last one among equals.
pub proof fn law_argmax_is_largest(v: Seq<u32>, i: int)
    requires
        0 <= i < v.len(),
        forall|j: int| 0 <= j < v.len() ==> !is_nan(#[trigger] v[j]),
    ensures
        at_least(v[best_of(v, v.len())], v[i]),
        i > best_of(v, v.len()) ==> greater(v[best_of(v, v.len())], v[i]),
{
    lemma_best(v, v.len(), i);
}

proof fn lemma_best(v: Seq<u32>, n: nat, i: int)
    requires
        0 <= i < n <= v.len(),
        forall|j: int| 0 <= j < v.len() ==> !is_nan(#[trigger] v[j]),
    ensures
        0 <= best_of(v, n) < n,
        at_least(v[best_of(v, n)], v[i]),
        i > best_of(v, n) ==> greater(v[best_of(v, n)], v[i]),
    decreases n,
{
    if n > 1 {
        let b = best_of(v, (n - 1) as nat);
        if i < n - 1 {
            lemma_best(v, (n - 1) as nat, i);
        } else {
            lemma_best(v, (n - 1) as nat, 0);
        }
        assert(!is_nan(v[b]));
        assert(!is_nan(v[n - 1]));
        assert(!is_nan(v[i]));
    }
}

/// Place and score of a candidate.
pub struct Scored {
    pub place: usize,
    pub score: u32,
}

/// The candidate is one of the list.
pub open spec fn picked(out: Seq<Scored>, place: int) -> bool {
    exists|i: int| 0 <= i < out.len() && (#[trigger] out[i]).place == place
}

/// The `k` largest scores with their places, in falling order. Among equal
/// scores any may come first.
pub open spec fn is_top(v: Seq<u32>, k: int, out: Seq<Scored>) -> bool {
    &&& out.len() == (if k < v.len() {
        k
    } else {
        v.len() as int
    })
    &&& forall|i: int|
        0 <= i < out.len() ==> (#[trigger] out[i]).place < v.len() && out[i].score
            == v[out[i].place as int]
    &&& forall|i: int, j: int|
        0 <= i < j < out.len() ==> (#[trigger] out[i]).place != (#[trigger] out[j]).place
            && at_least(out[i].score, out[j].score)
    &&& forall|i: int, p: int|
        0 <= i < out.len() && 0 <= p < v.len() && !picked(out, p) ==> at_least(
            (#[trigger] out[i]).score,
            #[trigger] v[p],
        )
}

/// The best candidate that has not been taken.
fn next_best(v: &Vec<u32>, taken: &Vec<bool>) -> (r: Option<usize>)
    requires
        v@.len() == taken@.len(),
        forall|j: int| 0 <= j < v@.len() ==> !is_nan(#[trigger] v@[j]),
    ensures
        match r {
            Some(b) => b < v@.len() && !taken@[b as int] && forall|p: int|
                0 <= p < v@.len() && !taken@[p] ==> at_least(v@[b as int], #[trigger] v@[p]),
            None => forall|p: int| 0 <= p < v@.len() ==> #[trigger] taken@[p],
        },
{
    let size: usize = v.len();
    let mut best: Option<usize> = None;
    for i in 0..size
        invariant
            size == v@.len() == taken@.len(),
            forall|j: int| 0 <= j < v@.len() ==> !is_nan(#[trigger] v@[j]),
            match best {
                Some(b) => b < i && !taken@[b as int] && forall|p: int|
                    0 <= p < i && !taken@[p] ==> at_least(v@[b as int], #[trigger] v@[p]),
                None => forall|p: int| 0 <= p < i ==> #[trigger] taken@[p],
            },
    {
        proof {
            assert(!is_nan(v@[i as int]));
        }
        if !taken[i] {
            match best {
                Some(b) => {
                    if gt(v[i], v[b]) {
                        best = Some(i);
                    }
                },
                None => {
                    best = Some(i);
                },
            }
        }
    }
    best
}

/// The `k` largest scores, in falling order. Scores that are compared are
/// numbers.
pub fn top_k(v: &Vec<u32>, k: usize) -> (out: Vec<Scored>)
    requires
        v@.len() > 1 ==> forall|j: int| 0 <= j < v@.len() ==> !is_nan(#[trigger] v@[j]),
    ensures
        is_top(v@, k as int, out@),
{
    let size: usize = v.len();
    if size == 1 && k > 0 {
        let out: Vec<Scored> = vec![Scored { place: 0, score: v[0] }];
        proof {
            assert(out@[0].place == 0);
        }
        return out;
    }
    if size <= 1 {
        return Vec::new();
    }
    let n: usize = if k < size {
        k
    } else {
        size
    };
    let mut taken: Vec<bool> = Vec::new();
    for i in 0..size
        invariant
            taken@.len() == i,
            forall|p: int| 0 <= p < i ==> !#[trigger] taken@[p],
    {
        taken.push(false);
    }
    let mut out: Vec<Scored> = Vec::new();
    proof {
        assert(forall|p: int| 0 <= p < size ==> !picked(out@, p));
    }
    for i in 0..n
        invariant
            size == v@.len() == taken@.len(),
            n <= size,
            forall|j: int| 0 <= j < v@.len() ==> !is_nan(#[trigger] v@[j]),
            out@.len() == i,
            forall|p: int| 0 <= p < size ==> #[trigger] taken@[p] == picked(out@, p),
            is_top(v@, i as int, out@),
    {
        match next_best(v, &taken) {
            Some(b) => {
                let ghost before = out@;
                let ghost was = taken@;
                out.push(Scored { place: b, score: v[b] });
                taken.set(b, true);
                proof {
                    assert forall|p: int| 0 <= p < size implies #[trigger] taken@[p] == picked(
                        out@,
                        p,
                    ) by {
                        lemma_picked_push(before, out@, p);
                        assert(was[p] == picked(before, p));
                    }
                    lemma_top_push(v@, i as int, before, out@, b as int);
                }
            },
            None => {
                proof {
                    lemma_one_left(taken@, out@);
                }
            },
        }
    }
    out
}

proof fn lemma_picked_push(before: Seq<Scored>, after: Seq<Scored>, p: int)
    requires
        after.len() == before.len() + 1,
        after.drop_last() =~= before,
    ensures
        picked(after, p) == (picked(before, p) || after.last().place == p),
{
    let n = before.len() as int;
    assert(forall|i: int| 0 <= i < n ==> after[i] == before[i]) by {
        assert forall|i: int| 0 <= i < n implies after[i] == before[i] by {
            assert(after.drop_last()[i] == before[i]);
        }
    }
    if picked(before, p) {
        let i = choose|i: int| 0 <= i < before.len() && (#[trigger] before[i]).place == p;
        assert(after[i].place == p);
    }
    if after.last().place == p {
        assert(after[n].place == p);
    }
    if picked(after, p) {
        let i = choose|i: int| 0 <= i < after.len() && (#[trigger] after[i]).place == p;
        if i < n {
            assert(before[i].place == p);
        }
    }
}

proof fn lemma_top_push(v: Seq<u32>, k: int, before: Seq<Scored>, after: Seq<Scored>, b: int)
    requires
        is_top(v, k, before),
        0 <= k < v.len(),
        before.len() == k,
        after.len() == k + 1,
        after.drop_last() =~= before,
        0 <= b < v.len(),
        after.last().place == b,
        after.last().score == v[b],
        !picked(before, b),
        forall|p: int| 0 <= p < v.len() && !picked(before, p) ==> at_least(v[b], #[trigger] v[p]),
    ensures
        is_top(v, k + 1, after),
{
    assert forall|i: int| 0 <= i < k implies after[i] == before[i] by {
        assert(after.drop_last()[i] == before[i]);
    }
    assert(after[k] == after.last());
    assert forall|i: int, j: int| 0 <= i < j < after.len() implies (#[trigger] after[i]).place != (
    #[trigger] after[j]).place && at_least(after[i].score, after[j].score) by {
        assert(after[i] == before[i]);
        if j == k {
            assert(before[i].place != b);
            assert(at_least(before[i].score, v[b]));
        } else {
            assert(after[j] == before[j]);
        }
    }
    assert forall|i: int, p: int|
        0 <= i < after.len() && 0 <= p < v.len() && !picked(after, p) implies at_least(
        (#[trigger] after[i]).score,
        #[trigger] v[p],
    ) by {
        lemma_picked_push(before, after, p);
        if i < k {
            assert(after[i] == before[i]);
        }
    }
}

/// Fewer candidates than places leave a place that is not taken.
proof fn lemma_one_left(taken: Seq<bool>, out: Seq<Scored>)
    requires
        out.len() < taken.len(),
        forall|p: int| 0 <= p < taken.len() ==> #[trigger] taken[p] == picked(out, p),
    ensures
        exists|p: int| 0 <= p < taken.len() && !#[trigger] taken[p],
{
    if forall|p: int| 0 <= p < taken.len() ==> #[trigger] taken[p] {
        lemma_places_counted(taken, out);
    }
}

/// Candidates for all places are at least as many as the places.
proof fn lemma_places_counted(taken: Seq<bool>, out: Seq<Scored>)
    requires
        forall|p: int| 0 <= p < taken.len() ==> #[trigger] taken[p] && picked(out, p),
    ensures
        out.len() >= taken.len(),
{
    let places = out.map_values(|s: Scored| s.place as int);
    let s = places.to_set();
    let all = vstd::set_lib::set_int_range(0, taken.len() as int);
    places.lemma_cardinality_of_set();
    vstd::set_lib::lemma_int_range(0, taken.len() as int);
    assert forall|p: int| #[trigger] all.contains(p) implies s.contains(p) by {
        assert(taken[p]);
        let i = choose|i: int| 0 <= i < out.len() && (#[trigger] out[i]).place == p;
        assert(places[i] == p);
        assert(places.contains(p));
    }
    assert(all.subset_of(s));
    vstd::set_lib::lemma_len_subset(all, s);
}

/// The largest distance between the first `n` numbers of two lists.
pub open spec fn distance(a: Seq<u32>, b: Seq<u32>, n: nat) -> Fx
    decreases n,
{
    if n == 0 {
        bits(ZERO)
    } else {
        larger_of(
            distance(a, b, (n - 1) as nat),
            abs_of(minus(bits(a[n - 1]), bits(b[n - 1]))),
        )
    }
}

/// The largest distance between two lists, place by place, as far as both go.
pub fn max_diff<F: Float>(f: &F, a: &Vec<u32>, b: &Vec<u32>) -> (r: u32)
    ensures
        computes(
            *f,
            distance(
                a@,
                b@,
                if a@.len() < b@.len() {
                    a@.len()
                } else {
                    b@.len()
                },
            ),
            r,
        ),
{
    let n: usize = if a.len() < b.len() {
        a.len()
    } else {
        b.len()
    };
    let mut acc: u32 = ZERO;
    for i in 0..n
        invariant
            n <= a@.len(),
            n <= b@.len(),
            computes(*f, distance(a@, b@, i as nat), acc),
    {
        let x: u32 = a[i];
        let y: u32 = b[i];
        let ghost e = minus(bits(x), bits(y));
        let ghost before = distance(a@, b@, i as nat);
        let d: u32 = do_minus(f, x, y, Ghost(bits(x)), Ghost(bits(y)));
        let m: u32 = do_abs(f, d, Ghost(e));
        acc = do_larger(f, acc, m, Ghost(before), Ghost(abs_of(e)));
    }
    acc
}

} // verus!
