use vstd::prelude::*;

verus! {

/// `s` is strictly increasing.
pub open spec fn strictly_increasing(s: Seq<usize>) -> bool {
    forall|a: int, b: int| 0 <= a < b < s.len() ==> s[a] < s[b]
}

/// Position `k` is the last constraint on node `node`.
pub open spec fn is_last_constraint(nodes: Seq<usize>, node: usize, k: int) -> bool {
    &&& 0 <= k < nodes.len()
    &&& nodes[k] == node
    &&& forall|l: int| k < l < nodes.len() ==> nodes[l] != node
}

/// Value held at `node` after writing `vals[c]` to node `nodes[c]` for the first
/// `m` constraints, one after another, starting from `default`.
pub open spec fn value_after_writes<V>(nodes: Seq<usize>, vals: Seq<V>, default: V, node: usize, m: nat) -> V
    decreases m,
{
    if m == 0 {
        default
    } else if nodes[m - 1] == node {
        vals[m - 1]
    } else {
        value_after_writes(nodes, vals, default, node, (m - 1) as nat)
    }
}

/// Writing every constraint's value in order leaves each constrained node holding
/// the value of its last constraint (the one `partition_nodes` records as its
/// source), and leaves every other node at its default.
pub proof fn law_last_constraint_wins<V>(nodes: Seq<usize>, vals: Seq<V>, default: V, node: usize, k: int)
    requires
        vals.len() == nodes.len(),
    ensures
        is_last_constraint(nodes, node, k) ==> value_after_writes(nodes, vals, default, node, nodes.len()) == vals[k],
        !nodes.contains(node) ==> value_after_writes(nodes, vals, default, node, nodes.len()) == default,
{
    lemma_value_after_writes(nodes, vals, default, node, k, nodes.len());
}

proof fn lemma_value_after_writes<V>(nodes: Seq<usize>, vals: Seq<V>, default: V, node: usize, k: int, m: nat)
    requires
        m <= nodes.len(),
    ensures
        is_last_constraint(nodes, node, k) && k < m ==> value_after_writes(nodes, vals, default, node, m) == vals[k],
        !nodes.contains(node) ==> value_after_writes(nodes, vals, default, node, m) == default,
    decreases m,
{
    if m > 0 {
        lemma_value_after_writes(nodes, vals, default, node, k, (m - 1) as nat);
        if !nodes.contains(node) {
            assert(nodes[m - 1] != node) by {
                if nodes[m - 1] == node {
                    assert(nodes.contains(node));
                }
            }
        }
    }
}

/// How the nodes 0..n of a graph split under a list of constrained nodes.
pub struct NodePartition {
    /// Unconstrained nodes, in increasing order.
    pub free: Vec<usize>,
    /// Constrained nodes below `n`, in increasing order.
    pub constrained: Vec<usize>,
    /// For each constrained node, the index of the last constraint naming it
    /// (later constraints override earlier ones).
    pub source: Vec<usize>,
}

/// `v@` contains `x`.
pub fn contains_index(v: &Vec<usize>, x: usize) -> (found: bool)
    ensures
        found == v@.contains(x),
{
    let mut i: usize = 0;
    while i < v.len()
        invariant
            i <= v.len(),
            forall|k: int| 0 <= k < i ==> v[k] != x,
        decreases v.len() - i,
    {
        if v[i] == x {
            return true;
        }
        i = i + 1;
    }
    false
}

/// Splits nodes 0..n into free and constrained ones, given the node of each
/// constraint in order, and records which constraint fixes each constrained node.
/// Constraints on nodes `>= n` are ignored.
pub fn partition_nodes(n: usize, nodes: &Vec<usize>) -> (part: NodePartition)
    ensures
        strictly_increasing(part.free@),
        strictly_increasing(part.constrained@),
        forall|a: int|
            0 <= a < part.free.len() ==> part.free[a] < n && !nodes@.contains(#[trigger] part.free[a]),
        forall|a: int|
            0 <= a < part.constrained.len() ==> part.constrained[a] < n && nodes@.contains(
                #[trigger] part.constrained[a],
            ),
        forall|j: usize| j < n && !nodes@.contains(j) ==> part.free@.contains(j),
        forall|j: usize| j < n && nodes@.contains(j) ==> part.constrained@.contains(j),
        part.free.len() + part.constrained.len() == n,
        part.source.len() == part.constrained.len(),
        forall|c: int|
            0 <= c < part.source.len() ==> is_last_constraint(
                nodes@,
                part.constrained[c],
                #[trigger] part.source[c] as int,
            ),
{
    // For every node below n: whether it is constrained and by which constraint last.
    let mut is_set: Vec<bool> = Vec::new();
    let mut last: Vec<usize> = Vec::new();
    let mut j: usize = 0;
    while j < n
        invariant
            j <= n,
            is_set.len() == j,
            last.len() == j,
            forall|a: int| 0 <= a < j ==> !is_set[a],
        decreases n - j,
    {
        is_set.push(false);
        last.push(0);
        j = j + 1;
    }
    let mut k: usize = 0;
    while k < nodes.len()
        invariant
            k <= nodes.len(),
            is_set.len() == n,
            last.len() == n,
            forall|a: int|
                0 <= a < n ==> (#[trigger] is_set[a] <==> nodes@.subrange(0, k as int).contains(
                    a as usize,
                )),
            forall|a: int|
                0 <= a < n && is_set[a] ==> #[trigger] last[a] < k && nodes[last[a] as int] == a
                    && forall|l: int| last[a] < l < k ==> nodes[l] != a,
        decreases nodes.len() - k,
    {
        let node = nodes[k];
        if node < n {
            is_set.set(node, true);
            last.set(node, k);
        }
        proof {
            assert forall|a: int| 0 <= a < n implies (#[trigger] is_set[a]
                <==> nodes@.subrange(0, k + 1).contains(a as usize)) by {
                let s0 = nodes@.subrange(0, k as int);
                let s1 = nodes@.subrange(0, k + 1);
                if s0.contains(a as usize) {
                    let w = choose|w: int| 0 <= w < s0.len() && s0[w] == a as usize;
                    assert(s1[w] == a as usize);
                }
                if s1.contains(a as usize) {
                    let w = choose|w: int| 0 <= w < s1.len() && s1[w] == a as usize;
                    if w < k {
                        assert(s0[w] == a as usize);
                    }
                }
                if a == node as int {
                    assert(s1[k as int] == a as usize);
                }
            }
        }
        k = k + 1;
    }
    assert(nodes@.subrange(0, nodes.len() as int) == nodes@);
    let mut free: Vec<usize> = Vec::new();
    let mut constrained: Vec<usize> = Vec::new();
    let mut source: Vec<usize> = Vec::new();
    let mut i: usize = 0;
    while i < n
        invariant
            i <= n,
            is_set.len() == n,
            last.len() == n,
            forall|a: int| 0 <= a < n ==> (#[trigger] is_set[a] <==> nodes@.contains(a as usize)),
            forall|a: int|
                0 <= a < n && is_set[a] ==> is_last_constraint(nodes@, a as usize, #[trigger] last[a] as int),
            strictly_increasing(free@),
            strictly_increasing(constrained@),
            forall|a: int| 0 <= a < free.len() ==> #[trigger] free[a] < i && !nodes@.contains(free[a]),
            forall|a: int|
                0 <= a < constrained.len() ==> #[trigger] constrained[a] < i && nodes@.contains(
                    constrained[a],
                ),
            forall|b: usize| b < i && !nodes@.contains(b) ==> free@.contains(b),
            forall|b: usize| b < i && nodes@.contains(b) ==> constrained@.contains(b),
            free.len() + constrained.len() == i,
            source.len() == constrained.len(),
            forall|c: int|
                0 <= c < source.len() ==> is_last_constraint(
                    nodes@,
                    constrained[c],
                    #[trigger] source[c] as int,
                ),
        decreases n - i,
    {
        let ghost old_free = free@;
        let ghost old_constrained = constrained@;
        if is_set[i] {
            constrained.push(i);
            source.push(last[i]);
            assert(constrained[constrained.len() - 1] == i);
        } else {
            free.push(i);
            assert(free[free.len() - 1] == i);
        }
        assert forall|b: usize| b < i + 1 && !nodes@.contains(b) implies free@.contains(b) by {
            if b < i {
                let w = choose|w: int| 0 <= w < old_free.len() && old_free[w] == b;
                assert(free@[w] == b);
            } else {
                assert(free@[free.len() - 1] == b);
            }
        }
        assert forall|b: usize| b < i + 1 && nodes@.contains(b) implies constrained@.contains(b) by {
            if b < i {
                let w = choose|w: int| 0 <= w < old_constrained.len() && old_constrained[w] == b;
                assert(constrained@[w] == b);
            } else {
                assert(constrained@[constrained.len() - 1] == b);
            }
        }
        i = i + 1;
    }
    NodePartition { free, constrained, source }
}

} // verus!
