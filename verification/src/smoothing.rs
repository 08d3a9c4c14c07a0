use vstd::prelude::*;
use crate::graph_nodes::strictly_increasing;
use crate::graph_nodes::contains_index;

verus! {

/// Denominator of the uniform clamped cubic knot vector with `n_knots` knots:
/// the number of interior spans, or 1 when there are none.
pub open spec fn knot_denominator(n_knots: nat) -> nat {
    if n_knots - 7 <= 0 {
        1
    } else {
        (n_knots - 7) as nat
    }
}

/// Numerator of knot `p` of the uniform clamped cubic knot vector with `n_knots`
/// knots: four knots at 0, interior knots 1, 2, ..., and the rest at the
/// denominator (the value 1).
pub open spec fn knot_numerator(n_knots: nat, p: nat) -> nat {
    if p < 4 {
        0
    } else if p + 7 < n_knots + 3 {
        (p - 3) as nat
    } else {
        knot_denominator(n_knots)
    }
}

/// In a stable ranking by decreasing key, index `j` comes before index `i`:
/// its key is larger, or the keys tie and `j` comes first.
pub open spec fn outranks(keys: Seq<u64>, j: int, i: int) -> bool {
    keys[j] > keys[i] || (keys[j] == keys[i] && j < i)
}

/// `order` lists indices in ranking order: each one outranks all that follow it.
pub open spec fn ranked(keys: Seq<u64>, order: Seq<usize>) -> bool {
    forall|a: int, b: int| 0 <= a < b < order.len() ==> outranks(keys, order[a] as int, order[b] as int)
}

/// Helpers of the smoothing toolkit that work on exact values.
pub struct SmoothingToolkit;

impl SmoothingToolkit {
    /// Knot vector of the uniform clamped cubic spline used for least-squares
    /// smoothing, as numerators over a common denominator: knot `p` is
    /// `numerators[p] / denominator`. `num_knots` below 5 is raised to 5.
    pub fn spline_knot_numerators(num_knots: usize) -> (res: (Vec<usize>, usize))
        requires
            num_knots >= 7,
        ensures
            res.1 == knot_denominator(num_knots as nat),
            res.0.len() == num_knots,
            forall|p: int| 0 <= p < res.0.len() ==> res.0[p] == knot_numerator(num_knots as nat, p as nat),
            res.1 == (if num_knots >= 8 { num_knots - 7 } else { 1 }),
            forall|p: int| 0 <= p < 4 ==> res.0[p] == 0,
            forall|p: int| 4 <= p < num_knots ==> res.0[p] >= 1,
            forall|p: int| 4 <= p && p + 4 < num_knots ==> res.0[p] == p - 3,
            forall|p: int| 4 <= p < num_knots && p + 4 >= num_knots ==> res.0[p] == res.1,
    {
        let degree: usize = 3;
        let n_knots = if num_knots > degree + 2 {
            num_knots
        } else {
            degree + 2
        };
        let n_control = n_knots - degree - 1;
        let spans = n_knots - 2 * degree - 1;
        let denominator: usize = if spans == 0 {
            1
        } else {
            spans
        };
        let mut knots: Vec<usize> = Vec::new();
        let mut c: usize = 0;
        while c <= degree
            invariant
                degree == 3,
                c <= degree + 1,
                knots.len() == c,
                forall|p: int| 0 <= p < c ==> knots[p] == 0,
            decreases degree + 1 - c,
        {
            knots.push(0);
            c = c + 1;
        }
        let mut i: usize = 1;
        while i < spans
            invariant
                degree == 3,
                1 <= i,
                spans + 7 == n_knots,
                i <= spans || spans == 0,
                spans == 0 ==> i == 1,
                knots.len() == i + 3,
                forall|p: int| 0 <= p < 4 ==> knots[p] == 0,
                forall|p: int| 4 <= p < i + 3 ==> knots[p] == p - 3,
            decreases spans - i,
        {
            knots.push(i);
            i = i + 1;
        }
        let ghost interior = knots.len();
        assert(interior == (if spans == 0 { 4 } else { spans + 3 }));
        let mut c: usize = 0;
        while c <= degree
            invariant
                degree == 3,
                c <= degree + 1,
                knots.len() == interior + c,
                forall|p: int| 0 <= p < interior ==> knots[p] == knot_numerator(n_knots as nat, p as nat),
                forall|p: int| interior <= p < interior + c ==> knots[p] == denominator,
            decreases degree + 1 - c,
        {
            knots.push(denominator);
            c = c + 1;
        }
        assert(knots.len() >= n_control + degree + 1);
        while knots.len() < n_control + degree + 1
            invariant
                knots.len() >= n_control + degree + 1,
                forall|p: int| 0 <= p < interior ==> knots[p] == knot_numerator(n_knots as nat, p as nat),
                forall|p: int| interior <= p < knots.len() ==> knots[p] == denominator,
            decreases n_control + degree + 1 - knots.len(),
        {
            knots.push(denominator);
        }
        knots.truncate(n_control + degree + 1);
        assert forall|p: int| 0 <= p < knots.len() implies knots[p] == knot_numerator(num_knots as nat, p as nat) by {
            if p >= interior {
                assert(knots[p] == denominator);
            }
        }
        assert forall|p: int| 0 <= p < knots.len() implies knots[p] == knot_numerator(num_knots as nat, p as nat)
            && (p < 4 ==> knots[p] == 0)
            && (4 <= p ==> knots[p] >= 1)
            && (4 <= p && p + 4 < num_knots ==> knots[p] == p - 3)
            && (4 <= p && p + 4 >= num_knots ==> knots[p] == denominator) by {
            law_spline_knots_clamped_uniform(num_knots as nat, p as nat, p as nat);
        }
        (knots, denominator)
    }

    /// Number of knots the spline stage of denoising uses for a signal of length `n`:
    /// a quarter of the samples, but at least `degree + 2`.
    pub fn denoise_knot_count(n: usize, degree: usize) -> (count: usize)
        requires
            degree + 2 <= usize::MAX,
        ensures
            count == (if n / 4 > degree + 2 { (n / 4) as int } else { degree + 2 }),
    {
        let quarter = n / 4;
        if quarter > degree + 2 {
            quarter
        } else {
            degree + 2
        }
    }

    /// Picks the `k` indices with the largest keys, ties going to the earlier index,
    /// and returns them in increasing order (all indices when `k >= keys.len()`).
    /// Keys are compared as unsigned integers: for curvatures, which are never
    /// negative, their bit patterns order exactly as the values do.
    pub fn top_curvature_indices(keys: &Vec<u64>, k: usize) -> (selected: Vec<usize>)
        ensures
            selected.len() == (if k < keys.len() { k } else { keys.len() }),
            strictly_increasing(selected@),
            forall|a: int| 0 <= a < selected.len() ==> #[trigger] selected[a] < keys.len(),
            forall|a: int, j: int|
                0 <= a < selected.len() && 0 <= j < keys.len() && #[trigger] outranks(keys@, j, selected[a] as int)
                    ==> selected@.contains(j as usize),
    {
        let n = keys.len();
        // Rank all indices by decreasing key (stable).
        let mut order: Vec<usize> = Vec::new();
        let mut i: usize = 0;
        while i < n
            invariant
                n == keys.len(),
                i <= n,
                order.len() == i,
                forall|a: int| 0 <= a < order.len() ==> #[trigger] order[a] < i,
                forall|j: usize| j < i ==> order@.contains(j),
                ranked(keys@, order@),
            decreases n - i,
        {
            let mut pos: usize = 0;
            while pos < order.len() && !(keys[i] > keys[order[pos]])
                invariant
                    n == keys.len(),
                    i < n,
                    order.len() == i,
                    pos <= order.len(),
                    forall|a: int| 0 <= a < order.len() ==> #[trigger] order[a] < i,
                    forall|a: int| 0 <= a < pos ==> outranks(keys@, #[trigger] order[a] as int, i as int),
                    forall|j: usize| j < i ==> order@.contains(j),
                    ranked(keys@, order@),
                decreases order.len() - pos,
            {
                pos = pos + 1;
            }
            proof {
                assert forall|b: int| pos <= b < order.len() implies outranks(keys@, i as int, #[trigger] order[b] as int) by {
                    if b > pos {
                        assert(outranks(keys@, order[pos as int] as int, order[b] as int));
                    }
                }
            }
            let ghost before = order@;
            order.insert(pos, i);
            proof {
                assert(order@ == before.insert(pos as int, i));
                assert forall|j: usize| j < i + 1 implies order@.contains(j) by {
                    if j < i {
                        assert(before.contains(j));
                        let w = choose|w: int| 0 <= w < before.len() && before[w] == j;
                        if w < pos {
                            assert(order@[w] == j);
                        } else {
                            assert(order@[w + 1] == j);
                        }
                    } else {
                        assert(order@[pos as int] == j);
                    }
                }
                assert forall|a: int, b: int| 0 <= a < b < order.len() implies outranks(
                    keys@,
                    order[a] as int,
                    order[b] as int,
                ) by {
                    if b < pos {
                    } else if b == pos {
                        assert(order[a] == before[a]);
                    } else if a < pos {
                        assert(order[b] == before[b - 1]);
                        assert(outranks(keys@, before[a] as int, i as int));
                    } else if a == pos {
                        assert(order[b] == before[b - 1]);
                    } else {
                        assert(order[a] == before[a - 1]);
                        assert(order[b] == before[b - 1]);
                    }
                }
            }
            i = i + 1;
        }
        // Keep the first `k` and list them in increasing order.
        let m: usize = if k < n {
            k
        } else {
            n
        };
        let mut selected: Vec<usize> = Vec::new();
        let mut t: usize = 0;
        while t < m
            invariant
                n == keys.len(),
                m <= n,
                order.len() == n,
                forall|a: int| 0 <= a < order.len() ==> #[trigger] order[a] < n,
                forall|j: usize| j < n ==> order@.contains(j),
                ranked(keys@, order@),
                t <= m,
                selected.len() == t,
                strictly_increasing(selected@),
                forall|y: usize| #[trigger] selected@.contains(y) <==> exists|a: int| 0 <= a < t && order[a] == y,
            decreases m - t,
        {
            let x = order[t];
            proof {
                if selected@.contains(x) {
                    let a = choose|a: int| 0 <= a < t && order[a] == x;
                    assert(outranks(keys@, order[a] as int, order[t as int] as int));
                }
            }
            let mut pos: usize = 0;
            while pos < selected.len() && selected[pos] < x
                invariant
                    pos <= selected.len(),
                    forall|a: int| 0 <= a < pos ==> #[trigger] selected[a] < x,
                    strictly_increasing(selected@),
                    forall|y: usize| #[trigger] selected@.contains(y) <==> exists|a: int| 0 <= a < t && order[a] == y,
                    !selected@.contains(x),
                    order.len() == n,
                    t < m,
                    m <= n,
                decreases selected.len() - pos,
            {
                pos = pos + 1;
            }
            let ghost before = selected@;
            selected.insert(pos, x);
            proof {
                assert(selected@ == before.insert(pos as int, x));
                if pos < before.len() {
                    assert(before[pos as int] != x) by {
                        assert(before.contains(before[pos as int]));
                    }
                }
                assert forall|a: int, b: int| 0 <= a < b < selected.len() implies selected[a] < selected[b] by {
                    if b < pos {
                    } else if b == pos {
                    } else if a < pos {
                        assert(selected[b] == before[b - 1]);
                        if b - 1 > pos {
                            assert(before[pos as int] < before[b - 1]);
                        }
                    } else if a == pos {
                        assert(selected[b] == before[b - 1]);
                        if b - 1 > pos {
                            assert(before[pos as int] < before[b - 1]);
                        }
                    } else {
                        assert(selected[a] == before[a - 1]);
                        assert(selected[b] == before[b - 1]);
                    }
                }
                assert forall|y: usize| #[trigger] selected@.contains(y) <==> exists|a: int|
                    0 <= a < t + 1 && order[a] == y by {
                    if selected@.contains(y) {
                        let w = choose|w: int| 0 <= w < selected.len() && selected@[w] == y;
                        if w < pos {
                            assert(before[w] == y);
                            assert(before.contains(y));
                        } else if w > pos {
                            assert(before[w - 1] == y);
                            assert(before.contains(y));
                        } else {
                            assert(order[t as int] == y);
                        }
                    }
                    if exists|a: int| 0 <= a < t + 1 && order[a] == y {
                        let a = choose|a: int| 0 <= a < t + 1 && order[a] == y;
                        if a < t {
                            assert(before.contains(y));
                            let w = choose|w: int| 0 <= w < before.len() && before[w] == y;
                            if w < pos {
                                assert(selected@[w] == y);
                            } else {
                                assert(selected@[w + 1] == y);
                            }
                        } else {
                            assert(selected@[pos as int] == y);
                        }
                    }
                }
            }
            t = t + 1;
        }
        proof {
            assert forall|a: int| 0 <= a < selected.len() implies #[trigger] selected[a] < keys.len() by {
                assert(selected@.contains(selected[a]));
            }
            assert forall|a: int, j: int|
                0 <= a < selected.len() && 0 <= j < keys.len() && #[trigger] outranks(keys@, j, selected[a] as int)
                implies selected@.contains(j as usize) by {
                assert(selected@.contains(selected[a]));
                let c = choose|c: int| 0 <= c < m && order[c] == selected[a];
                assert(order@.contains(j as usize));
                let d = choose|d: int| 0 <= d < order.len() && order[d] == j as usize;
                if d >= c {
                    if d > c {
                        assert(outranks(keys@, order[c] as int, order[d] as int));
                    }
                }
                assert(d < c);
            }
        }
        selected
    }

    /// Indices `0..len` of a signal that are not listed as missing, in increasing order:
    /// the nodes whose values are kept when the missing ones are interpolated.
    pub fn observed_indices(len: usize, missing: &Vec<usize>) -> (observed: Vec<usize>)
        ensures
            strictly_increasing(observed@),
            forall|a: int|
                0 <= a < observed.len() ==> #[trigger] observed[a] < len && !missing@.contains(observed[a]),
            forall|i: usize| i < len && !missing@.contains(i) ==> observed@.contains(i),
    {
        let mut observed: Vec<usize> = Vec::new();
        let mut i: usize = 0;
        while i < len
            invariant
                i <= len,
                strictly_increasing(observed@),
                forall|a: int|
                    0 <= a < observed.len() ==> #[trigger] observed[a] < i && !missing@.contains(observed[a]),
                forall|b: usize| b < i && !missing@.contains(b) ==> observed@.contains(b),
            decreases len - i,
        {
            let ghost before = observed@;
            if !contains_index(missing, i) {
                observed.push(i);
                assert(observed[observed.len() - 1] == i);
            }
            assert forall|b: usize| b < i + 1 && !missing@.contains(b) implies observed@.contains(b) by {
                if b < i {
                    let w = choose|w: int| 0 <= w < before.len() && before[w] == b;
                    assert(observed@[w] == b);
                } else {
                    assert(observed@[observed.len() - 1] == b);
                }
            }
            i = i + 1;
        }
        observed
    }
}

/// The smoothing knot vector is a clamped uniform one: non-decreasing, between 0
/// and the denominator (the values 0 and 1), with exactly four knots at 0, ending
/// with at least three at 1 (four once there are eight knots or more), and equally
/// spaced inside: the denominator is the number of interior spans n_knots - 7
/// (1 when there is none) and interior knot p is (p - 3) / (n_knots - 7), so the
/// first interior knot (index 4) is one span past 0.
pub proof fn law_spline_knots_clamped_uniform(n_knots: nat, p: nat, q: nat)
    requires
        n_knots >= 7,
        p <= q < n_knots,
    ensures
        knot_numerator(n_knots, p) <= knot_numerator(n_knots, q),
        knot_numerator(n_knots, q) <= knot_denominator(n_knots),
        p < 4 ==> knot_numerator(n_knots, p) == 0,
        q + 3 >= n_knots ==> knot_numerator(n_knots, q) == knot_denominator(n_knots),
        n_knots >= 8 && q + 4 >= n_knots ==> knot_numerator(n_knots, q) == knot_denominator(n_knots),
        4 <= p && p + 5 <= n_knots ==> knot_numerator(n_knots, p + 1) == knot_numerator(n_knots, p) + 1,
        knot_denominator(n_knots) == (if n_knots >= 8 { n_knots - 7 } else { 1 }),
        4 <= p ==> knot_numerator(n_knots, p) >= 1,
        p == 4 ==> knot_numerator(n_knots, p) == 1,
        4 <= p && p + 4 < n_knots ==> knot_numerator(n_knots, p) == p - 3,
        4 <= p && p + 4 >= n_knots ==> knot_numerator(n_knots, p) == knot_denominator(n_knots),
{
}

} // verus!
