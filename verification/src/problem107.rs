//! Minimal network.
//!
//! An undirected network is given as a square matrix of edge weights, row
//! by row, with no entry where two vertices are not joined. Wanted: how
//! much weight can be saved by removing edges while all vertices stay
//! connected, that is, the weight of the network less the weight of a
//! spanning tree grown by always taking the lightest edge that leaves the
//! tree.

use vstd::prelude::*;
use std::collections::HashSet;
use crate::problem345::matrix::lemma_offset;

verus! {

/// The weight of the edge at place `k` of the matrix, zero where there is
/// none.
pub open spec fn weight_at(m: Seq<Option<usize>>, k: int) -> int {
    match m[k] {
        Some(w) => w as int,
        None => 0,
    }
}

/// The weight of the edges from vertex `i` to the vertices below `j`.
pub open spec fn row_weight(m: Seq<Option<usize>>, n: int, i: int, j: int) -> int
    decreases j,
{
    if j <= 0 {
        0
    } else {
        row_weight(m, n, i, j - 1) + weight_at(m, i * n + (j - 1))
    }
}

/// The weight of the edges between the vertices below `i`: every edge
/// counted once, at the place below the diagonal.
pub open spec fn network_weight(m: Seq<Option<usize>>, n: int, i: int) -> int
    decreases i,
{
    if i <= 0 {
        0
    } else {
        network_weight(m, n, i - 1) + row_weight(m, n, i - 1, i - 1)
    }
}

/// The weights grow with the part of the matrix that is counted.
pub proof fn lemma_weights_grow(m: Seq<Option<usize>>, n: int, i: int, j: int, k: int)
    requires
        0 <= j <= k,
    ensures
        0 <= row_weight(m, n, i, j) <= row_weight(m, n, i, k),
        0 <= network_weight(m, n, j) <= network_weight(m, n, k),
    decreases k,
{
    if k > 0 {
        if j < k {
            lemma_weights_grow(m, n, i, j, k - 1);
        } else {
            lemma_weights_grow(m, n, i, j - 1, k - 1);
        }
        lemma_weights_grow(m, n, k - 1, 0, k - 1);
    }
}

/// The weight of an undirected network in matrix form.
pub fn weight(m: &Vec<Option<usize>>, n: usize) -> (total: usize)
    requires
        m.len() == n * n,
        network_weight(m@, n as int, n as int) <= usize::MAX,
    ensures
        total == network_weight(m@, n as int, n as int),
{
    let mut total: usize = 0;
    if n == 0 {
        return total;
    }
    let mut i: usize = 1;
    proof {
        reveal_with_fuel(network_weight, 2);
        assert(row_weight(m@, n as int, 0, 0) == 0);
    }
    while i < n
        invariant
            1 <= i <= n,
            m.len() == n * n,
            total == network_weight(m@, n as int, i as int),
            network_weight(m@, n as int, n as int) <= usize::MAX,
        decreases n - i,
    {
        let mut j: usize = 0;
        let ghost start = total;
        proof {
            lemma_weights_grow(m@, n as int, 0, i + 1, n as int);
        }
        while j < i
            invariant
                j <= i < n,
                m.len() == n * n,
                start == network_weight(m@, n as int, i as int),
                total == start + row_weight(m@, n as int, i as int, j as int),
                start + row_weight(m@, n as int, i as int, i as int) <= usize::MAX,
            decreases i - j,
        {
            proof {
                lemma_offset(n as int, i as int, j as int);
                lemma_weights_grow(m@, n as int, i as int, j + 1, i as int);
            }
            let x = i * n + j;
            if let Some(w) = m[x] {
                total += w;
            }
            j += 1;
        }
        i += 1;
    }
    total
}

/// An edge leads from vertex `ri`, flagged as inside the tree, to vertex
/// `ci`, flagged as outside.
pub open spec fn is_crossing(
    m: Seq<Option<usize>>,
    n: int,
    inside: Seq<bool>,
    outside: Seq<bool>,
    ri: int,
    ci: int,
) -> bool {
    inside[ri] && outside[ci] && m[ri * n + ci] is Some
}

/// The vertices below `n`, each with the flag whether the set holds it.
pub open spec fn flags_of(set: Set<usize>, n: int) -> Seq<bool> {
    Seq::new(n as nat, |v: int| set.contains(v as usize))
}

/// The vertices that are not flagged.
pub open spec fn rest_of(picked: Seq<bool>) -> Seq<bool> {
    Seq::new(picked.len(), |v: int| !picked[v])
}

/// The lightest edge found among the first `k` places of the matrix that
/// leads out of the tree: the vertex it leads to and its weight. The first
/// of several lightest edges wins; without any, the vertex is 0 and the
/// weight the greatest number.
pub open spec fn lightest(
    m: Seq<Option<usize>>,
    n: int,
    inside: Seq<bool>,
    outside: Seq<bool>,
    k: int,
) -> (usize, usize)
    decreases k,
{
    if k <= 0 {
        (0usize, usize::MAX)
    } else {
        let before = lightest(m, n, inside, outside, k - 1);
        let ri = (k - 1) / n;
        let ci = (k - 1) % n;
        if is_crossing(m, n, inside, outside, ri, ci) && m[k - 1]->Some_0 < before.1 {
            (ci as usize, m[k - 1]->Some_0)
        } else {
            before
        }
    }
}

/// Finds the lightest edge from a vertex of `r`, the vertices inside the
/// tree, to a vertex of `c`, those outside. The vertices are tried in
/// ascending order, and the first of several lightest edges wins.
pub fn find_minimum(
    m: &Vec<Option<usize>>,
    r: &HashSet<usize>,
    c: &HashSet<usize>,
    n: usize,
) -> (edge: (usize, usize))
    requires
        m.len() == n * n,
    ensures
        edge == lightest(m@, n as int, flags_of(r@, n as int), flags_of(c@, n as int), n * n),
{
    let ghost inside = flags_of(r@, n as int);
    let ghost outside = flags_of(c@, n as int);
    let mut i_sel: usize = 0;
    let mut w_min: usize = usize::MAX;
    let mut ri: usize = 0;
    proof {
        assert(0 * n == 0) by (nonlinear_arith);
    }
    while ri < n
        invariant
            ri <= n,
            m.len() == n * n,
            inside == flags_of(r@, n as int),
            outside == flags_of(c@, n as int),
            (i_sel, w_min) == lightest(m@, n as int, inside, outside, ri * n),
        decreases n - ri,
    {
        let mut ci: usize = 0;
        while ci < n
            invariant
                ci <= n,
                ri < n,
                m.len() == n * n,
                inside == flags_of(r@, n as int),
                outside == flags_of(c@, n as int),
                (i_sel, w_min) == lightest(m@, n as int, inside, outside, ri * n + ci),
            decreases n - ci,
        {
            proof {
                lemma_offset(n as int, ri as int, ci as int);
            }
            let i = ri * n + ci;
            if r.contains(&ri) && c.contains(&ci) {
                if let Some(w) = m[i] {
                    if w < w_min {
                        w_min = w;
                        i_sel = ci;
                    }
                }
            }
            ci += 1;
        }
        proof {
            assert((ri + 1) * n == ri * n + n) by (nonlinear_arith);
        }
        ri += 1;
    }
    (i_sel, w_min)
}

/// The tree with only vertex 0 inside.
pub open spec fn seed(n: int) -> Seq<bool> {
    Seq::new(n as nat, |v: int| v == 0)
}

/// The tree after `steps` vertices have been taken in.
pub open spec fn tree_after(m: Seq<Option<usize>>, n: int, steps: int) -> Seq<bool>
    decreases steps,
{
    if steps <= 0 {
        seed(n)
    } else {
        let before = tree_after(m, n, steps - 1);
        before.update(lightest(m, n, before, rest_of(before), n * n).0 as int, true)
    }
}

/// The edge by which the tree grows at step `k`: the lightest that leads
/// out of the tree as it is after `k` steps.
pub open spec fn edge_at(m: Seq<Option<usize>>, n: int, k: int) -> (usize, usize) {
    lightest(m, n, tree_after(m, n, k), rest_of(tree_after(m, n, k)), n * n)
}

/// The weight of the edges by which the first `steps` vertices were taken
/// in.
pub open spec fn tree_weight(m: Seq<Option<usize>>, n: int, steps: int) -> int
    decreases steps,
{
    if steps <= 0 {
        0
    } else {
        tree_weight(m, n, steps - 1) + edge_at(m, n, steps - 1).1
    }
}

/// At each of the first `steps` steps an edge leads out of the tree.
pub open spec fn grows_for(m: Seq<Option<usize>>, n: int, steps: int) -> bool {
    forall|k: int| 0 <= k < steps ==> (#[trigger] edge_at(m, n, k)).1 < usize::MAX
}

/// The lightest edge leads to a vertex outside the tree, if there is one.
pub proof fn lemma_lightest(
    m: Seq<Option<usize>>,
    n: int,
    inside: Seq<bool>,
    outside: Seq<bool>,
    k: int,
)
    requires
        1 <= n <= usize::MAX,
        0 <= k <= n * n,
    ensures
        lightest(m, n, inside, outside, k).0 < n,
        lightest(m, n, inside, outside, k).1 < usize::MAX ==> outside[lightest(
            m,
            n,
            inside,
            outside,
            k,
        ).0 as int],
    decreases k,
{
    if k > 0 {
        lemma_lightest(m, n, inside, outside, k - 1);
        vstd::arithmetic::div_mod::lemma_mod_bound(k - 1, n);
    }
}

/// How many vertices are outside the tree.
pub open spec fn outside(picked: Seq<bool>) -> nat
    decreases picked.len(),
{
    if picked.len() == 0 {
        0
    } else {
        outside(picked.drop_last()) + if picked.last() {
            0nat
        } else {
            1nat
        }
    }
}

/// Taking a vertex in leaves one vertex fewer outside.
pub proof fn lemma_take_in(picked: Seq<bool>, v: int)
    requires
        0 <= v < picked.len(),
        !picked[v],
    ensures
        outside(picked.update(v, true)) == outside(picked) - 1,
    decreases picked.len(),
{
    let after = picked.update(v, true);
    if v == picked.len() - 1 {
        assert(after.drop_last() =~= picked.drop_last());
    } else {
        assert(after.drop_last() =~= picked.drop_last().update(v, true));
        lemma_take_in(picked.drop_last(), v);
    }
}

/// With only vertex 0 inside, all the others are outside.
pub proof fn lemma_seed(n: int, k: int)
    requires
        1 <= k <= n,
    ensures
        outside(seed(n).take(k)) == k - 1,
    decreases k,
{
    if k > 1 {
        lemma_seed(n, k - 1);
        assert(seed(n).take(k).drop_last() =~= seed(n).take(k - 1));
    } else {
        assert(seed(n).take(1).drop_last() =~= Seq::<bool>::empty());
        assert(outside(Seq::<bool>::empty()) == 0);
    }
}

/// The sets `r` and `c` hold the vertices inside and outside the tree.
pub open spec fn sets_hold(r: Set<usize>, c: Set<usize>, inside: Seq<bool>, n: int) -> bool {
    &&& inside.len() == n
    &&& forall|v: usize| #[trigger] r.contains(v) <==> v < n && inside[v as int]
    &&& forall|v: usize| #[trigger] c.contains(v) <==> v < n && !inside[v as int]
}

/// Sets that hold a tree hold its flags.
pub proof fn lemma_sets_hold(r: Set<usize>, c: Set<usize>, inside: Seq<bool>, n: int)
    requires
        0 <= n <= usize::MAX,
        sets_hold(r, c, inside, n),
    ensures
        flags_of(r, n) == inside,
        flags_of(c, n) == rest_of(inside),
{
    assert(flags_of(r, n) =~= inside);
    assert(flags_of(c, n) =~= rest_of(inside));
}

/// With every vertex inside, none is outside.
pub proof fn lemma_none_outside(picked: Seq<bool>)
    requires
        forall|v: int| 0 <= v < picked.len() ==> picked[v],
    ensures
        outside(picked) == 0,
    decreases picked.len(),
{
    if picked.len() > 0 {
        lemma_none_outside(picked.drop_last());
    }
}

/// The sets of the tree with only vertex 0 inside.
fn start_sets(n: usize) -> (sets: (HashSet<usize>, HashSet<usize>))
    requires
        n >= 1,
    ensures
        sets_hold(sets.0@, sets.1@, seed(n as int), n as int),
{
    let mut r: HashSet<usize> = HashSet::with_capacity(n);
    let mut c: HashSet<usize> = HashSet::new();
    let mut v: usize = 1;
    while v < n
        invariant
            1 <= v <= n,
            forall|x: usize| #[trigger] c@.contains(x) <==> 1 <= x < v,
        decreases n - v,
    {
        c.insert(v);
        v += 1;
    }
    r.insert(0);
    (r, c)
}

/// Taking the vertex of the lightest edge in: what the sets, the tree and
/// the count of the vertices outside become.
proof fn lemma_tree_step(
    m: Seq<Option<usize>>,
    n: int,
    k: int,
    r: Set<usize>,
    c: Set<usize>,
    ci: usize,
)
    requires
        1 <= n <= usize::MAX,
        k >= 0,
        sets_hold(r, c, tree_after(m, n, k), n),
        edge_at(m, n, k).0 == ci,
        edge_at(m, n, k).1 < usize::MAX,
    ensures
        ci < n,
        c.contains(ci),
        sets_hold(r.insert(ci), c.remove(ci), tree_after(m, n, k + 1), n),
        outside(tree_after(m, n, k + 1)) == outside(tree_after(m, n, k)) - 1,
{
    let inside = tree_after(m, n, k);
    lemma_lightest(m, n, inside, rest_of(inside), n * n);
    lemma_take_in(inside, ci as int);
    assert(tree_after(m, n, k + 1) == inside.update(ci as int, true));
}

/// The weight of the spanning tree that grows from vertex 0 by always
/// taking the lightest edge that leaves the tree.
pub fn prim(m: &Vec<Option<usize>>, n: usize) -> (total: usize)
    requires
        m.len() == n * n,
        grows_for(m@, n as int, n - 1),
        tree_weight(m@, n as int, n - 1) <= usize::MAX,
    ensures
        total == tree_weight(m@, n as int, n - 1),
{
    let mut total: usize = 0;
    if n == 0 {
        return total;
    }
    let sets = start_sets(n);
    let mut r = sets.0;
    let mut c = sets.1;
    let ghost mut left: int = n - 1;
    proof {
        lemma_seed(n as int, n as int);
        assert(seed(n as int).take(n as int) =~= seed(n as int));
    }
    while !c.is_empty()
        invariant
            n >= 1,
            0 <= left <= n - 1,
            m.len() == n * n,
            sets_hold(r@, c@, tree_after(m@, n as int, n - 1 - left), n as int),
            total == tree_weight(m@, n as int, n - 1 - left),
            outside(tree_after(m@, n as int, n - 1 - left)) == left,
            grows_for(m@, n as int, n - 1),
            tree_weight(m@, n as int, n - 1) <= usize::MAX,
        decreases left,
    {
        let ghost k = n - 1 - left;
        let ghost inside = tree_after(m@, n as int, k);
        proof {
            let v = choose|v: usize| c@.contains(v);
            assert(c@.contains(v));
            lemma_take_in(inside, v as int);
            lemma_sets_hold(r@, c@, inside, n as int);
        }
        let (ci, w) = find_minimum(m, &r, &c, n);
        proof {
            assert(edge_at(m@, n as int, k).1 < usize::MAX);
            lemma_tree_step(m@, n as int, k, r@, c@, ci);
            lemma_tree_weight_grows(m@, n as int, k + 1, n - 1);
        }
        total += w;
        c.remove(&ci);
        r.insert(ci);
        proof {
            left = left - 1;
        }
    }
    proof {
        let inside = tree_after(m@, n as int, n - 1 - left);
        assert forall|v: int| 0 <= v < inside.len() implies inside[v] by {
            assert(!c@.contains(v as usize));
        }
        lemma_none_outside(inside);
    }
    total
}

/// The weight of the tree grows with it.
pub proof fn lemma_tree_weight_grows(m: Seq<Option<usize>>, n: int, j: int, k: int)
    requires
        0 <= j <= k,
    ensures
        0 <= tree_weight(m, n, j) <= tree_weight(m, n, k),
    decreases k,
{
    if k > 0 {
        if j < k {
            lemma_tree_weight_grows(m, n, j, k - 1);
        } else {
            lemma_tree_weight_grows(m, n, j - 1, k - 1);
        }
    }
}

/// The weights of the sample network, row by row, with zero for no edge.
pub open spec fn sample_weights() -> Seq<usize> {
    seq![
         0, 16, 12, 21,  0,  0,  0,
        16,  0,  0, 17, 20,  0,  0,
        12,  0,  0, 28,  0, 31,  0,
        21, 17, 28,  0, 18, 19, 23,
         0, 20,  0, 18,  0,  0, 11,
         0,  0, 31, 19,  0,  0, 27,
         0,  0,  0, 23, 11, 27,  0,
    ]
}

/// The matrix of a network whose weights are given with zero for no edge.
pub open spec fn network_of(weights: Seq<usize>) -> Seq<Option<usize>> {
    Seq::new(
        weights.len(),
        |k: int|
            if weights[k] == 0 {
                None::<usize>
            } else {
                Some(weights[k])
            },
    )
}

/// The sample network of seven vertices: its side and its matrix.
pub fn sample_network() -> (network: (usize, Vec<Option<usize>>))
    ensures
        network.0 == 7,
        network.1@ == network_of(sample_weights()),
{
    let n: usize = 7;
    let a: Vec<usize> = vec![
         0, 16, 12, 21,  0,  0,  0,
        16,  0,  0, 17, 20,  0,  0,
        12,  0,  0, 28,  0, 31,  0,
        21, 17, 28,  0, 18, 19, 23,
         0, 20,  0, 18,  0,  0, 11,
         0,  0, 31, 19,  0,  0, 27,
         0,  0,  0, 23, 11, 27,  0,
    ];
    let mut v: Vec<Option<usize>> = Vec::new();
    let mut i: usize = 0;
    while i < a.len()
        invariant
            i <= a.len(),
            a.len() == 49,
            v.len() == i,
            forall|k: int|
                0 <= k < i ==> #[trigger] v[k] == if a[k] == 0 {
                    None::<usize>
                } else {
                    Some(a[k])
                },
        decreases a.len() - i,
    {
        let x = a[i];
        if x == 0 {
            v.push(None);
        } else {
            v.push(Some(x));
        }
        i += 1;
    }
    proof {
        assert(a@ =~= sample_weights());
        assert(v@ =~= network_of(sample_weights()));
    }
    (n, v)
}

/// The weight of the spanning tree, or nothing where the matrix does not
/// hold `n`×`n` places, where some vertex cannot be reached from vertex 0,
/// or where the weight does not fit.
pub fn checked_prim(m: &Vec<Option<usize>>, n: usize) -> (total: Option<usize>)
    ensures
        match total {
            Some(w) => m.len() == n * n && grows_for(m@, n as int, n - 1) && w == tree_weight(
                m@,
                n as int,
                n - 1,
            ),
            None => m.len() != n * n || !grows_for(m@, n as int, n - 1) || tree_weight(
                m@,
                n as int,
                n - 1,
            ) > usize::MAX,
        },
{
    match n.checked_mul(n) {
        Some(area) => {
            if area != m.len() {
                return None;
            }
        },
        None => {
            let len = m.len();
            return None;
        },
    }
    let mut total: usize = 0;
    if n == 0 {
        return Some(total);
    }
    let sets = start_sets(n);
    let mut r = sets.0;
    let mut c = sets.1;
    let ghost mut left: int = n - 1;
    proof {
        lemma_seed(n as int, n as int);
        assert(seed(n as int).take(n as int) =~= seed(n as int));
    }
    while !c.is_empty()
        invariant
            n >= 1,
            0 <= left <= n - 1,
            m.len() == n * n,
            sets_hold(r@, c@, tree_after(m@, n as int, n - 1 - left), n as int),
            total == tree_weight(m@, n as int, n - 1 - left),
            outside(tree_after(m@, n as int, n - 1 - left)) == left,
            grows_for(m@, n as int, n - 1 - left),
        decreases left,
    {
        let ghost k = n - 1 - left;
        let ghost inside = tree_after(m@, n as int, k);
        proof {
            let v = choose|v: usize| c@.contains(v);
            assert(c@.contains(v));
            lemma_take_in(inside, v as int);
            lemma_sets_hold(r@, c@, inside, n as int);
        }
        let (ci, w) = find_minimum(m, &r, &c, n);
        if w == usize::MAX {
            assert(edge_at(m@, n as int, k).1 == usize::MAX);
            assert(!grows_for(m@, n as int, n - 1));
            return None;
        }
        proof {
            lemma_tree_step(m@, n as int, k, r@, c@, ci);
            lemma_tree_weight_grows(m@, n as int, k + 1, n - 1);
        }
        match total.checked_add(w) {
            Some(sum) => {
                total = sum;
            },
            None => {
                return None;
            },
        }
        c.remove(&ci);
        r.insert(ci);
        proof {
            left = left - 1;
        }
    }
    proof {
        let inside = tree_after(m@, n as int, n - 1 - left);
        assert forall|v: int| 0 <= v < inside.len() implies inside[v] by {
            assert(!c@.contains(v as usize));
        }
        lemma_none_outside(inside);
    }
    Some(total)
}

/// The weight of the network, or nothing where the matrix does not hold
/// `n`×`n` places or where the weight does not fit.
pub fn checked_weight(m: &Vec<Option<usize>>, n: usize) -> (total: Option<usize>)
    ensures
        match total {
            Some(w) => m.len() == n * n && w == network_weight(m@, n as int, n as int),
            None => m.len() != n * n || network_weight(m@, n as int, n as int) > usize::MAX,
        },
{
    match n.checked_mul(n) {
        Some(area) => {
            if area != m.len() {
                return None;
            }
        },
        None => {
            let len = m.len();
            return None;
        },
    }
    let mut total: usize = 0;
    if n == 0 {
        return Some(total);
    }
    let mut i: usize = 1;
    proof {
        reveal_with_fuel(network_weight, 2);
        assert(row_weight(m@, n as int, 0, 0) == 0);
    }
    while i < n
        invariant
            1 <= i <= n,
            m.len() == n * n,
            total == network_weight(m@, n as int, i as int),
        decreases n - i,
    {
        let mut j: usize = 0;
        let ghost start = total;
        while j < i
            invariant
                j <= i < n,
                m.len() == n * n,
                start == network_weight(m@, n as int, i as int),
                total == start + row_weight(m@, n as int, i as int, j as int),
            decreases i - j,
        {
            proof {
                lemma_offset(n as int, i as int, j as int);
            }
            let x = i * n + j;
            if let Some(w) = m[x] {
                match total.checked_add(w) {
                    Some(sum) => {
                        total = sum;
                    },
                    None => {
                        proof {
                            lemma_weights_grow(m@, n as int, i as int, j + 1, i as int);
                            lemma_weights_grow(m@, n as int, 0, i + 1, n as int);
                        }
                        return None;
                    },
                }
            }
            j += 1;
        }
        i += 1;
    }
    Some(total)
}

/// What removing the redundant edges saves: the weight of the network less
/// the weight of the spanning tree. Nothing where either cannot be had.
pub fn savings(m: &Vec<Option<usize>>, n: usize) -> (saved: Option<usize>)
    ensures
        match saved {
            Some(s) => m.len() == n * n && grows_for(m@, n as int, n - 1) && s == network_weight(
                m@,
                n as int,
                n as int,
            ) - tree_weight(m@, n as int, n - 1),
            None => m.len() != n * n || !grows_for(m@, n as int, n - 1) || tree_weight(
                m@,
                n as int,
                n - 1,
            ) > usize::MAX || network_weight(m@, n as int, n as int) > usize::MAX
                || network_weight(m@, n as int, n as int) < tree_weight(m@, n as int, n - 1),
        },
{
    let w1 = match checked_weight(m, n) {
        Some(w) => w,
        None => {
            return None;
        },
    };
    let w2 = match checked_prim(m, n) {
        Some(w) => w,
        None => {
            return None;
        },
    };
    if w1 < w2 {
        return None;
    }
    Some(w1 - w2)
}

/// The byte separates two entries: a comma, a blank, or one of the
/// control characters from tab to carriage return.
pub open spec fn is_separator(b: u8) -> bool {
    b == 44 || b == 32 || 9 <= b <= 13
}

/// The byte is a decimal digit.
pub open spec fn is_digit(b: u8) -> bool {
    48 <= b <= 57
}

/// The number that the digits write.
pub open spec fn number(digits: Seq<u8>) -> nat
    decreases digits.len(),
{
    if digits.len() == 0 {
        0
    } else {
        number(digits.drop_last()) * 10 + (digits.last() - 48) as nat
    }
}

/// The digits of an entry: the entry without a plus sign at its front.
pub open spec fn unsigned(entry: Seq<u8>) -> Seq<u8> {
    if entry.len() > 0 && entry[0] == 43 {
        entry.skip(1)
    } else {
        entry
    }
}

/// The weight that an entry stands for: the number it writes, with or
/// without a plus sign, if it is made of digits, at least one, and fits;
/// else no edge.
pub open spec fn entry_value(entry: Seq<u8>) -> Option<usize> {
    let digits = unsigned(entry);
    if digits.len() > 0 && (forall|i: int| 0 <= i < digits.len() ==> is_digit(#[trigger] digits[i]))
        && number(digits) <= usize::MAX {
        Some(number(digits) as usize)
    } else {
        None
    }
}

/// The entries of a text that are closed by a separator, in order.
pub open spec fn closed_entries(text: Seq<u8>) -> Seq<Option<usize>>
    decreases text.len(),
{
    if text.len() == 0 {
        Seq::empty()
    } else if is_separator(text.last()) {
        closed_entries(text.drop_last()).push(entry_value(open_entry(text.drop_last())))
    } else {
        closed_entries(text.drop_last())
    }
}

/// The entry at the end of a text that no separator has closed yet.
pub open spec fn open_entry(text: Seq<u8>) -> Seq<u8>
    decreases text.len(),
{
    if text.len() == 0 || is_separator(text.last()) {
        Seq::empty()
    } else {
        open_entry(text.drop_last()).push(text.last())
    }
}

/// The matrix that a text stands for: its entries, separated by commas or
/// white space, each a weight or no edge. A text without any separator is
/// one entry.
pub open spec fn network_in(text: Seq<u8>) -> Seq<Option<usize>> {
    closed_entries(text).push(entry_value(open_entry(text)))
}

/// The number written by the first digits is not above the number written
/// by all.
pub proof fn lemma_number_grows(digits: Seq<u8>, k: int)
    requires
        0 <= k <= digits.len(),
        forall|i: int| 0 <= i < digits.len() ==> is_digit(#[trigger] digits[i]),
    ensures
        number(digits.take(k)) <= number(digits),
    decreases digits.len() - k,
{
    if k < digits.len() {
        lemma_number_grows(digits, k + 1);
        assert(digits.take(k + 1).drop_last() =~= digits.take(k));
        assert(digits.take(k + 1).last() == digits[k]);
    } else {
        assert(digits.take(k) =~= digits);
    }
}

/// The weight that an entry stands for.
pub fn parse_entry(entry: &Vec<u8>) -> (value: Option<usize>)
    ensures
        value == entry_value(entry@),
{
    let start: usize = if entry.len() > 0 && entry[0] == 43 {
        1
    } else {
        0
    };
    let ghost digits = unsigned(entry@);
    if start == entry.len() {
        return None;
    }
    let mut value: usize = 0;
    let mut k: usize = start;
    proof {
        assert(digits.take(0) =~= Seq::<u8>::empty());
    }
    while k < entry.len()
        invariant
            start <= k <= entry.len(),
            start <= 1,
            digits == unsigned(entry@),
            digits.len() == entry.len() - start,
            forall|i: int| 0 <= i < digits.len() ==> #[trigger] digits[i] == entry[i + start],
            forall|i: int| 0 <= i < k - start ==> is_digit(#[trigger] digits[i]),
            value == number(digits.take(k - start)),
        decreases entry.len() - k,
    {
        let b = entry[k];
        if b < 48 || b > 57 {
            assert(!is_digit(digits[k - start]));
            return None;
        }
        proof {
            assert(digits.take(k - start + 1).drop_last() =~= digits.take(k - start));
            assert(digits.take(k - start + 1).last() == b);
        }
        let next = match value.checked_mul(10) {
            Some(tens) => tens.checked_add((b - 48) as usize),
            None => None,
        };
        match next {
            Some(x) => {
                value = x;
            },
            None => {
                proof {
                    if forall|i: int| 0 <= i < digits.len() ==> is_digit(#[trigger] digits[i]) {
                        lemma_number_grows(digits, k - start + 1);
                    }
                }
                return None;
            },
        }
        k += 1;
    }
    proof {
        assert(digits.take(digits.len() as int) =~= digits);
    }
    Some(value)
}

/// Reads the matrix of a network from a text: the entries are separated by
/// commas or white space, and an entry that is no number stands for no
/// edge.
pub fn parse_network(text: &[u8]) -> (m: Vec<Option<usize>>)
    ensures
        m@ == network_in(text@),
{
    let mut m: Vec<Option<usize>> = Vec::new();
    let mut entry: Vec<u8> = Vec::new();
    let mut k: usize = 0;
    proof {
        assert(text@.take(0) =~= Seq::<u8>::empty());
    }
    while k < text.len()
        invariant
            k <= text.len(),
            m@ == closed_entries(text@.take(k as int)),
            entry@ == open_entry(text@.take(k as int)),
        decreases text.len() - k,
    {
        let b = text[k];
        proof {
            assert(text@.take(k + 1).drop_last() =~= text@.take(k as int));
            assert(text@.take(k + 1).last() == b);
        }
        if b == 44 || b == 32 || (9 <= b && b <= 13) {
            m.push(parse_entry(&entry));
            entry = Vec::new();
        } else {
            entry.push(b);
        }
        k += 1;
    }
    proof {
        assert(text@.take(text.len() as int) =~= text@);
    }
    m.push(parse_entry(&entry));
    m
}

/// The side of the network in the problem's file.
pub const N: usize = 40;

/// What removing the redundant edges saves in the network of forty
/// vertices that `text` holds. Nothing where the text does not hold that
/// network.
pub fn answer(text: &[u8]) -> (saved: Option<u64>)
    ensures
        match saved {
            Some(s) => network_in(text@).len() == N * N && grows_for(
                network_in(text@),
                N as int,
                N - 1,
            ) && s == network_weight(network_in(text@), N as int, N as int) - tree_weight(
                network_in(text@),
                N as int,
                N - 1,
            ),
            None => network_in(text@).len() != N * N || !grows_for(
                network_in(text@),
                N as int,
                N - 1,
            ) || tree_weight(network_in(text@), N as int, N - 1) > usize::MAX || network_weight(
                network_in(text@),
                N as int,
                N as int,
            ) > usize::MAX || network_weight(network_in(text@), N as int, N as int) < tree_weight(
                network_in(text@),
                N as int,
                N - 1,
            ),
        },
{
    let v = parse_network(text);
    match savings(&v, N) {
        Some(s) => Some(s as u64),
        None => None,
    }
}

} // verus!
