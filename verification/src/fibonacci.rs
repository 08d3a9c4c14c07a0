use vstd::prelude::*;

verus! {

/// Cost of a Cox-de Boor evaluation at degree `p`:
/// count(0) = 1, count(1) = 3, count(p) = count(p-1) + count(p-2) + 1.
pub open spec fn eval_count(p: nat) -> nat
    decreases p,
{
    if p == 0 {
        1
    } else if p == 1 {
        3
    } else {
        eval_count((p - 1) as nat) + eval_count((p - 2) as nat) + 1
    }
}

/// The Fibonacci numbers: fib(0) = 0, fib(1) = 1, fib(n) = fib(n-1) + fib(n-2).
pub open spec fn fib(n: nat) -> nat
    decreases n,
{
    if n == 0 {
        0
    } else if n == 1 {
        1
    } else {
        fib((n - 1) as nat) + fib((n - 2) as nat)
    }
}

/// Number of B-spline basis functions for `n_knots` knots at `degree` (zero when too few knots).
pub open spec fn basis_count_spec(n_knots: nat, degree: nat) -> nat {
    if n_knots <= degree + 1 {
        0
    } else {
        (n_knots - degree - 1) as nat
    }
}

/// Number of control points of the Fibonacci-knotted spline (at least one).
pub open spec fn fib_control_count(degree: nat, n_knots: nat) -> nat {
    if n_knots > degree + 1 {
        (n_knots - degree - 1) as nat
    } else {
        1
    }
}

/// Length of the Fibonacci-knotted knot vector: control points + degree + 1.
pub open spec fn fib_knot_count(degree: nat, n_knots: nat) -> nat {
    fib_control_count(degree, n_knots) + degree + 1
}

/// Knot `i` of the Fibonacci-knotted spline: `degree + 1` zeros, then Fibonacci
/// numbers fib(2), fib(3), ..., and the last `degree + 1` knots clamped to fib(n_knots)
/// (fib(1) when `n_knots` is zero).
pub open spec fn fib_knot(degree: nat, n_knots: nat, i: nat) -> nat {
    let table_len: nat = if n_knots < 2 { 2 } else { n_knots };
    let last: nat = if n_knots >= 1 { (n_knots - 1) as nat } else { 0 };
    if i < degree + 1 {
        0
    } else if i >= fib_control_count(degree, n_knots) {
        fib(last + 1)
    } else {
        let fi: nat = if i - degree <= table_len - 1 { (i - degree) as nat } else { (table_len - 1) as nat };
        fib(fi + 1)
    }
}

/// Fibonacci-structured bookkeeping for B-spline evaluation.
pub struct FibonacciSpline {
    pub degree: usize,
    pub depths: Vec<usize>,
}

impl FibonacciSpline {
    /// Number of basis-function evaluations of the Cox-de Boor recurrence at `degree`.
    pub fn evaluation_count(degree: usize) -> (count: u64)
        requires
            eval_count(degree as nat) <= u64::MAX,
        ensures
            count == eval_count(degree as nat),
    {
        if degree == 0 {
            return 1;
        }
        if degree == 1 {
            return 3;
        }
        let mut a: u64 = 1;
        let mut b: u64 = 3;
        let mut k: usize = 1;
        while k < degree
            invariant
                1 <= k <= degree,
                eval_count(degree as nat) <= u64::MAX,
                a == eval_count((k - 1) as nat),
                b == eval_count(k as nat),
            decreases degree - k,
        {
            proof {
                lemma_eval_count_monotone((k + 1) as nat, degree as nat);
            }
            let c = b + a + 1;
            a = b;
            b = c;
            k = k + 1;
        }
        b
    }

    /// Number of basis functions at `degree` with `n_knots` knots.
    pub fn basis_count(n_knots: usize, degree: usize) -> (count: usize)
        requires
            degree < usize::MAX,
        ensures
            count == basis_count_spec(n_knots as nat, degree as nat),
    {
        if n_knots <= degree + 1 {
            return 0;
        }
        n_knots - degree - 1
    }

    /// The knot vector of a clamped spline whose interior knots follow the
    /// Fibonacci sequence, as exact integers (knot `i` is `fib_knot(degree, n_knots, i)`).
    pub fn fibonacci_knot_values(degree: usize, n_knots: usize) -> (knots: Vec<u64>)
        requires
            degree + 2 <= usize::MAX,
            fib(n_knots as nat) <= u64::MAX,
        ensures
            knots.len() == fib_knot_count(degree as nat, n_knots as nat),
            forall|i: int|
                0 <= i < knots.len() ==> knots[i] == fib_knot(degree as nat, n_knots as nat, i as nat),
            forall|i: int, j: int| 0 <= i <= j < knots.len() ==> knots[i] <= knots[j],
            knots.len() == (if n_knots > degree + 1 { n_knots as int } else { degree + 2 }),
            forall|i: int| 0 <= i < knots.len() && i <= degree ==> knots[i] == 0,
            forall|i: int|
                degree < i && i + degree + 1 < n_knots ==> knots[i] == fib((i - degree + 1) as nat),
            forall|i: int|
                degree < i < knots.len() && i + degree + 1 >= n_knots ==> knots[i] == fib(
                    if n_knots >= 1 { n_knots as nat } else { 1 },
                ),
            2 * degree + 2 < n_knots ==> knots[degree + 1] == 1,
    {
        let mut table: Vec<u64> = vec![1u64, 1u64];
        assert(fib(2) == 1) by {
            reveal_with_fuel(fib, 3);
        }
        while table.len() < n_knots
            invariant
                2 <= table.len(),
                table.len() <= n_knots || table.len() == 2,
                fib(n_knots as nat) <= u64::MAX,
                forall|k: int| 0 <= k < table.len() ==> table[k] == fib((k + 1) as nat),
            decreases n_knots - table.len(),
        {
            let len = table.len();
            proof {
                lemma_fib_monotone((len + 1) as nat, n_knots as nat);
            }
            let next = table[len - 1] + table[len - 2];
            table.push(next);
        }
        let table_len = table.len();
        let n_control = if n_knots > degree + 1 {
            n_knots - degree - 1
        } else {
            1
        };
        let total_knots = n_control + degree + 1;
        let last = n_knots.saturating_sub(1);
        let mut knots: Vec<u64> = Vec::new();
        let mut i: usize = 0;
        while i < total_knots
            invariant
                table.len() == table_len,
                2 <= table_len,
                table_len == (if n_knots < 2 { 2 } else { n_knots }),
                forall|k: int| 0 <= k < table_len ==> table[k] == fib((k + 1) as nat),
                n_control == fib_control_count(degree as nat, n_knots as nat),
                total_knots == n_control + degree + 1,
                last == (if n_knots >= 1 { (n_knots - 1) as nat } else { 0 }),
                i <= total_knots,
                knots.len() == i,
                forall|k: int|
                    0 <= k < i ==> knots[k] == fib_knot(degree as nat, n_knots as nat, k as nat),
            decreases total_knots - i,
        {
            if i < degree + 1 {
                knots.push(0);
            } else if i >= total_knots - degree - 1 {
                knots.push(table[last]);
            } else {
                let fi = if i - degree <= table_len - 1 {
                    i - degree
                } else {
                    table_len - 1
                };
                knots.push(table[fi]);
            }
            i = i + 1;
        }
        // Keep the knots non-decreasing.
        let mut j: usize = 1;
        while j < knots.len()
            invariant
                1 <= j,
                knots.len() == total_knots,
                total_knots == fib_knot_count(degree as nat, n_knots as nat),
                forall|k: int|
                    0 <= k < knots.len() ==> knots[k] == fib_knot(degree as nat, n_knots as nat, k as nat),
            decreases knots.len() - j,
        {
            proof {
                lemma_fib_knots_sorted(degree as nat, n_knots as nat, (j - 1) as nat, j as nat);
            }
            if knots[j] < knots[j - 1] {
                let prev = knots[j - 1];
                knots.set(j, prev);
            }
            j = j + 1;
        }
        assert forall|a: int, b: int| 0 <= a <= b < knots.len() implies knots[a] <= knots[b] by {
            lemma_fib_knots_sorted(degree as nat, n_knots as nat, a as nat, b as nat);
        }
        assert forall|a: int| 0 <= a < knots.len() implies knots[a] == fib_knot(degree as nat, n_knots as nat, a as nat)
            && (a <= degree ==> knots[a] == 0)
            && (degree < a && a + degree + 1 < n_knots ==> knots[a] == fib((a - degree + 1) as nat))
            && (degree < a && a + degree + 1 >= n_knots ==> knots[a] == fib(
                if n_knots >= 1 { n_knots as nat } else { 1 },
            )) by {
            law_fibonacci_knots_follow_fibonacci(degree as nat, n_knots as nat, a as nat);
        }
        proof {
            if 2 * degree + 2 < n_knots {
                law_fibonacci_knots_follow_fibonacci(degree as nat, n_knots as nat, (degree + 1) as nat);
            }
        }
        knots
    }
}

/// The Cox-de Boor evaluation count is Fibonacci in disguise:
/// count(p) + 1 == 2 * fib(p + 2) for every degree p.
pub proof fn law_evaluation_count_is_fibonacci(p: nat)
    ensures
        eval_count(p) + 1 == 2 * fib(p + 2),
    decreases p,
{
    reveal_with_fuel(fib, 4);
    if p >= 2 {
        law_evaluation_count_is_fibonacci((p - 1) as nat);
        law_evaluation_count_is_fibonacci((p - 2) as nat);
        assert(fib(p + 2) == fib(p + 1) + fib(p as nat));
    }
}

/// The Fibonacci-knotted knot vector is clamped and Fibonacci inside: knots
/// 0..=degree are 0; each interior knot `i` (up to the number of control points)
/// is fib(i - degree + 1), i.e. 1, 2, 3, 5, 8, ... starting at knot degree + 1;
/// and the last knots all equal fib(n_knots) (fib(1) when there are no knots).
pub proof fn law_fibonacci_knots_follow_fibonacci(degree: nat, n_knots: nat, i: nat)
    requires
        i < fib_knot_count(degree, n_knots),
    ensures
        fib_knot_count(degree, n_knots) == (if n_knots > degree + 1 { n_knots } else { degree + 2 }),
        i <= degree ==> fib_knot(degree, n_knots, i) == 0,
        degree < i && i + degree + 1 < n_knots ==> fib_knot(degree, n_knots, i) == fib((i - degree + 1) as nat),
        degree < i && i + degree + 1 >= n_knots ==> fib_knot(degree, n_knots, i) == fib(
            if n_knots >= 1 { n_knots } else { 1 },
        ),
        i == degree + 1 && i + degree + 1 < n_knots ==> fib_knot(degree, n_knots, i) == 1,
{
    assert(fib(2) == 1) by {
        reveal_with_fuel(fib, 3);
    }
}

/// Whenever there are basis functions, knots = basis functions + degree + 1,
/// the shape every B-spline must have; and the Fibonacci-knotted spline then
/// has exactly that many control points.
pub proof fn law_basis_count_shape(n_knots: nat, degree: nat)
    requires
        n_knots > degree + 1,
    ensures
        basis_count_spec(n_knots, degree) + degree + 1 == n_knots,
        fib_control_count(degree, n_knots) == basis_count_spec(n_knots, degree),
        fib_knot_count(degree, n_knots) == n_knots,
{
}

/// The Fibonacci numbers never decrease.
pub proof fn lemma_fib_monotone(i: nat, j: nat)
    requires
        i <= j,
    ensures
        fib(i) <= fib(j),
    decreases j,
{
    if i < j {
        lemma_fib_monotone(i, (j - 1) as nat);
    }
}

/// The Fibonacci knot vector is non-decreasing.
pub proof fn lemma_fib_knots_sorted(degree: nat, n_knots: nat, i: nat, j: nat)
    requires
        i <= j < fib_knot_count(degree, n_knots),
    ensures
        fib_knot(degree, n_knots, i) <= fib_knot(degree, n_knots, j),
{
    let table_len: nat = if n_knots < 2 { 2 } else { n_knots };
    let last: nat = if n_knots >= 1 { (n_knots - 1) as nat } else { 0 };
    if i >= degree + 1 && i < fib_control_count(degree, n_knots) {
        let fi_i: nat = if i - degree <= table_len - 1 { (i - degree) as nat } else { (table_len - 1) as nat };
        assert(fi_i <= last);
        if j < fib_control_count(degree, n_knots) {
            let fi_j: nat = if j - degree <= table_len - 1 { (j - degree) as nat } else { (table_len - 1) as nat };
            lemma_fib_monotone(fi_i + 1, fi_j + 1);
        } else {
            lemma_fib_monotone(fi_i + 1, last + 1);
        }
    }
}

/// The evaluation count never decreases with the degree.
pub proof fn lemma_eval_count_monotone(i: nat, j: nat)
    requires
        i <= j,
    ensures
        eval_count(i) <= eval_count(j),
    decreases j,
{
    if i < j {
        lemma_eval_count_monotone(i, (j - 1) as nat);
    }
}

} // verus!
