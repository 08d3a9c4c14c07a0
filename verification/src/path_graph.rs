use vstd::prelude::*;

verus! {

/// Edge weight between nodes `i` and `j` of the path graph 0 - 1 - ... - (n-1).
pub open spec fn path_adj(n: nat, i: nat, j: nat) -> int {
    if i < n && j < n && (i + 1 == j || j + 1 == i) {
        1
    } else {
        0
    }
}

/// Degree of node `i` of the path graph on `n` nodes.
pub open spec fn path_degree(n: nat, i: nat) -> int {
    (if i > 0 { 1int } else { 0int }) + (if i + 1 < n { 1int } else { 0int })
}

/// Entry (i, j) of the path-graph Laplacian: the degree on the diagonal,
/// -1 between neighbours, 0 elsewhere.
pub open spec fn path_lap(n: nat, i: nat, j: nat) -> int {
    if i == j {
        path_degree(n, i)
    } else {
        -path_adj(n, i, j)
    }
}

/// Sum of the first `m` entries of row `i` of the path adjacency matrix.
pub open spec fn adj_row_sum(n: nat, i: nat, m: nat) -> int
    decreases m,
{
    if m == 0 {
        0
    } else {
        adj_row_sum(n, i, (m - 1) as nat) + path_adj(n, i, (m - 1) as nat)
    }
}

/// Sum of the first `m` entries of row `i` of the path Laplacian.
pub open spec fn lap_row_sum(n: nat, i: nat, m: nat) -> int
    decreases m,
{
    if m == 0 {
        0
    } else {
        lap_row_sum(n, i, (m - 1) as nat) + path_lap(n, i, (m - 1) as nat)
    }
}

/// Entry `i` of L f, summed over the first `m` columns.
pub open spec fn lap_apply(n: nat, f: Seq<int>, i: nat, m: nat) -> int
    decreases m,
{
    if m == 0 {
        0
    } else {
        lap_apply(n, f, i, (m - 1) as nat) + path_lap(n, i, (m - 1) as nat) * f[m - 1]
    }
}

/// The quadratic form f^T L f of the path Laplacian, summed over the first `m` rows.
pub open spec fn lap_quadratic_form(n: nat, f: Seq<int>, m: nat) -> int
    decreases m,
{
    if m == 0 {
        0
    } else {
        lap_quadratic_form(n, f, (m - 1) as nat) + f[m - 1] * lap_apply(n, f, (m - 1) as nat, n)
    }
}

/// Dirichlet energy of `f` over the first `m` edges (e, e+1) of the path.
pub open spec fn edge_energy(f: Seq<int>, m: nat) -> int
    decreases m,
{
    if m == 0 {
        0
    } else {
        edge_energy(f, (m - 1) as nat) + (f[m - 1] - f[m as int]) * (f[m - 1] - f[m as int])
    }
}

/// Adjacency matrix of the path graph on `n` nodes (1 between consecutive nodes).
pub fn path_adjacency(n: usize) -> (adj: Vec<Vec<u64>>)
    ensures
        adj.len() == n,
        forall|i: int| 0 <= i < n ==> #[trigger] adj[i].len() == n,
        forall|i: int, j: int|
            0 <= i < n && 0 <= j < n ==> adj[i][j] == path_adj(n as nat, i as nat, j as nat),
{
    let mut adj: Vec<Vec<u64>> = Vec::new();
    let mut i: usize = 0;
    while i < n
        invariant
            i <= n,
            adj.len() == i,
            forall|a: int| 0 <= a < i ==> #[trigger] adj[a].len() == n,
            forall|a: int, b: int|
                0 <= a < i && 0 <= b < n ==> adj[a][b] == path_adj(n as nat, a as nat, b as nat),
        decreases n - i,
    {
        let mut row: Vec<u64> = Vec::new();
        let mut j: usize = 0;
        while j < n
            invariant
                i < n,
                j <= n,
                row.len() == j,
                forall|b: int| 0 <= b < j ==> row[b] == path_adj(n as nat, i as nat, b as nat),
            decreases n - j,
        {
            if i + 1 == j || j + 1 == i {
                row.push(1);
            } else {
                row.push(0);
            }
            j = j + 1;
        }
        adj.push(row);
        i = i + 1;
    }
    adj
}

/// Laplacian L = D - A of the path graph on `n` nodes.
pub fn path_laplacian(n: usize) -> (lap: Vec<Vec<i64>>)
    ensures
        lap.len() == n,
        forall|i: int| 0 <= i < n ==> #[trigger] lap[i].len() == n,
        forall|i: int, j: int|
            0 <= i < n && 0 <= j < n ==> lap[i][j] == path_lap(n as nat, i as nat, j as nat),
{
    let mut lap: Vec<Vec<i64>> = Vec::new();
    let mut i: usize = 0;
    while i < n
        invariant
            i <= n,
            lap.len() == i,
            forall|a: int| 0 <= a < i ==> #[trigger] lap[a].len() == n,
            forall|a: int, b: int|
                0 <= a < i && 0 <= b < n ==> lap[a][b] == path_lap(n as nat, a as nat, b as nat),
        decreases n - i,
    {
        let mut row: Vec<i64> = Vec::new();
        let mut j: usize = 0;
        while j < n
            invariant
                i < n,
                j <= n,
                row.len() == j,
                forall|b: int| 0 <= b < j ==> row[b] == path_lap(n as nat, i as nat, b as nat),
            decreases n - j,
        {
            if i == j {
                let mut deg: i64 = 0;
                if i > 0 {
                    deg = deg + 1;
                }
                if i + 1 < n {
                    deg = deg + 1;
                }
                row.push(deg);
            } else if i + 1 == j || j + 1 == i {
                row.push(-1);
            } else {
                row.push(0);
            }
            j = j + 1;
        }
        lap.push(row);
        i = i + 1;
    }
    lap
}

/// Row `i` of the path adjacency matrix sums to the degree of node `i`.
pub proof fn lemma_adj_row_sum(n: nat, i: nat, m: nat)
    requires
        i < n,
        m <= n,
    ensures
        adj_row_sum(n, i, m) == (if i > 0 && i - 1 < m { 1int } else { 0int }) + (if i + 1 < m { 1int } else { 0int }),
    decreases m,
{
    if m > 0 {
        lemma_adj_row_sum(n, i, (m - 1) as nat);
    }
}

/// Row `i` of the path Laplacian, summed over its first `m` entries, equals the
/// degree (when the diagonal is reached) minus the adjacency sum.
pub proof fn lemma_lap_row_sum(n: nat, i: nat, m: nat)
    requires
        i < n,
        m <= n,
    ensures
        lap_row_sum(n, i, m) == (if i < m { path_degree(n, i) } else { 0 }) - adj_row_sum(n, i, m),
    decreases m,
{
    if m > 0 {
        lemma_lap_row_sum(n, i, (m - 1) as nat);
    }
}

/// The path-graph Laplacian is L = D - A: each diagonal entry is the row sum of
/// the adjacency matrix, each off-diagonal entry is minus the edge weight; it is
/// symmetric and every row sums to zero (constants lie in its kernel).
pub proof fn law_path_laplacian_is_degree_minus_adjacency(n: nat, i: nat, j: nat)
    requires
        i < n,
        j < n,
    ensures
        path_lap(n, i, j) == (if i == j { adj_row_sum(n, i, n) } else { 0 }) - path_adj(n, i, j),
        path_lap(n, i, j) == path_lap(n, j, i),
        path_adj(n, i, j) == path_adj(n, j, i),
        lap_row_sum(n, i, n) == 0,
{
    lemma_adj_row_sum(n, i, n);
    lemma_lap_row_sum(n, i, n);
}

/// Row `i` of L f: the degree times f[i] minus the neighbours' values.
proof fn lemma_lap_apply(n: nat, f: Seq<int>, i: nat, m: nat)
    requires
        i < n,
        m <= n,
        f.len() == n,
    ensures
        lap_apply(n, f, i, m) == (if i < m {
            (if i > 0 { f[i as int] } else { 0 }) + (if i + 1 < n { f[i as int] } else { 0 })
        } else {
            0
        }) - (if i > 0 && i - 1 < m { f[i - 1] } else { 0 }) - (if i + 1 < m { f[i + 1int] } else { 0 }),
    decreases m,
{
    if m > 0 {
        lemma_lap_apply(n, f, i, (m - 1) as nat);
        let j = (m - 1) as nat;
        let p = path_lap(n, i, j);
        let x = f[j as int];
        if j == i {
            let d = path_degree(n, i);
            if d == 0 {
                assert(p * x == 0) by (nonlinear_arith) requires p == 0;
            } else if d == 1 {
                assert(p * x == x) by (nonlinear_arith) requires p == 1;
            } else {
                assert(p * x == 2 * x) by (nonlinear_arith) requires p == 2;
            }
        } else if (i > 0 && j == i - 1) || j == i + 1 {
            assert(p * x == -x) by (nonlinear_arith) requires p == -1;
        } else {
            assert(p * x == 0) by (nonlinear_arith) requires p == 0;
        }
    }
}

/// Prefix of the quadratic form: the energy of the first m - 1 edges plus a
/// boundary term f[m-1] (f[m-1] - f[m]).
proof fn lemma_quadratic_form_prefix(n: nat, f: Seq<int>, m: nat)
    requires
        1 <= m < n,
        f.len() == n,
    ensures
        lap_quadratic_form(n, f, m) == edge_energy(f, (m - 1) as nat) + f[m - 1] * (f[m - 1] - f[m as int]),
    decreases m,
{
    let i = (m - 1) as nat;
    lemma_lap_apply(n, f, i, n);
    if m == 1 {
        assert(lap_apply(n, f, 0, n) == f[0] - f[1]);
        assert(lap_quadratic_form(n, f, 1) == lap_quadratic_form(n, f, 0) + f[0] * lap_apply(n, f, 0, n));
        assert(edge_energy(f, 0) == 0);
    } else {
        lemma_quadratic_form_prefix(n, f, (m - 1) as nat);
        let a = f[i - 1];
        let b = f[i as int];
        let c = f[m as int];
        assert(lap_apply(n, f, i, n) == 2 * b - a - c);
        assert(a * (a - b) + b * (2 * b - a - c) == (a - b) * (a - b) + b * (b - c)) by (nonlinear_arith);
        assert(lap_quadratic_form(n, f, m) == lap_quadratic_form(n, f, i) + b * lap_apply(n, f, i, n));
        assert(edge_energy(f, i) == edge_energy(f, (i - 1) as nat) + (a - b) * (a - b));
    }
}

/// The path Laplacian's quadratic form is the Dirichlet energy: f^T L f is the sum
/// over the edges (i, i+1) of (f[i] - f[i+1])^2. Hence it is never negative, and it
/// vanishes on constant signals.
pub proof fn law_path_laplacian_energy(n: nat, f: Seq<int>)
    requires
        f.len() == n,
    ensures
        n >= 1 ==> lap_quadratic_form(n, f, n) == edge_energy(f, (n - 1) as nat),
        n == 0 ==> lap_quadratic_form(n, f, n) == 0,
        lap_quadratic_form(n, f, n) >= 0,
        (forall|i: int| 0 <= i < n ==> #[trigger] f[i] == f[0]) ==> lap_quadratic_form(n, f, n) == 0,
{
    if n == 1 {
        lemma_lap_apply(n, f, 0, n);
        assert(lap_apply(n, f, 0, n) == 0);
        assert(lap_quadratic_form(n, f, 1) == lap_quadratic_form(n, f, 0) + f[0] * lap_apply(n, f, 0, n));
        let y = f[0];
        assert(y * 0 == 0) by (nonlinear_arith);
    } else if n >= 2 {
        let m = (n - 1) as nat;
        lemma_quadratic_form_prefix(n, f, m);
        lemma_lap_apply(n, f, m, n);
        let a = f[m - 1];
        let b = f[m as int];
        assert(lap_apply(n, f, m, n) == b - a);
        assert(a * (a - b) + b * (b - a) == (a - b) * (a - b)) by (nonlinear_arith);
        assert(lap_quadratic_form(n, f, n) == edge_energy(f, m));
    }
    lemma_edge_energy(f, if n >= 1 { (n - 1) as nat } else { 0 });
}

/// The edge energy is a sum of squares: never negative, zero on constant signals.
proof fn lemma_edge_energy(f: Seq<int>, m: nat)
    requires
        m < f.len() || m == 0,
    ensures
        edge_energy(f, m) >= 0,
        (forall|i: int| 0 <= i < f.len() ==> #[trigger] f[i] == f[0]) ==> edge_energy(f, m) == 0,
    decreases m,
{
    if m > 0 {
        lemma_edge_energy(f, (m - 1) as nat);
        let d = f[m - 1] - f[m as int];
        assert(d * d >= 0) by (nonlinear_arith);
        if forall|i: int| 0 <= i < f.len() ==> #[trigger] f[i] == f[0] {
            assert(f[m - 1] == f[0] && f[m as int] == f[0]);
            assert(d * d == 0) by (nonlinear_arith) requires d == 0;
        }
    }
}

} // verus!
