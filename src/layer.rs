//! The diagonals ("layers", "wavefronts") of an `n` by `m` index grid.

use vstd::prelude::*;

verus! {

/// `p` is a cell of the `n` by `m` grid.
pub open spec fn in_grid(p: (usize, usize), n: int, m: int) -> bool {
    p.0 < n && p.1 < m
}

/// `p` is a cell of the `n` by `m` grid that lies on diagonal `d`.
pub open spec fn in_layer(p: (usize, usize), d: int, n: int, m: int) -> bool {
    in_grid(p, n, m) && p.0 + p.1 == d
}

/// `s` is diagonal `d` of the grid: each of its cells exactly once, by increasing row.
pub open spec fn is_layer(s: Seq<(usize, usize)>, d: int, n: int, m: int) -> bool {
    &&& forall|k: int| 0 <= k < s.len() ==> in_layer(#[trigger] s[k], d, n, m)
    &&& forall|k1: int, k2: int| 0 <= k1 < k2 < s.len() ==> (#[trigger] s[k1]).0 < (#[trigger] s[k2]).0
    &&& forall|p: (usize, usize)| in_layer(p, d, n, m) ==> #[trigger] s.contains(p)
}

/// Returns the cells `(i, j)` of the `n` by `m` grid with `i + j == d`, by increasing `i`.
pub fn build_layer(d: usize, n: usize, m: usize) -> (r: Vec<(usize, usize)>)
    requires
        n >= 1,
        m >= 1,
        d <= n + m - 2,
    ensures
        is_layer(r@, d as int, n as int, m as int),
        r@.len() <= n,
        r@.len() <= m,
        r@.len() <= d + 1,
        r@.len() <= n + m - 1 - d,
{
    let start: usize = if d >= m { d - m + 1 } else { 0 };
    let end: usize = if d < n { d } else { n - 1 };
    let mut layer: Vec<(usize, usize)> = Vec::new();
    let mut i: usize = start;
    while i <= end
        invariant
            start <= i <= end + 1,
            end < n,
            start + m > d,
            start <= d,
            end <= d,
            layer@.len() == i - start,
            forall|k: int| 0 <= k < layer@.len() ==> #[trigger] layer@[k] == (
            (start + k) as usize,
            (d - start - k) as usize,
            ),
        decreases end + 1 - i,
    {
        layer.push((i, d - i));
        i = i + 1;
    }
    assert forall|p: (usize, usize)| in_layer(p, d as int, n as int, m as int) implies layer@.contains(
        p,
    ) by {
        let k = p.0 - start;
        assert(layer@[k] == p);
    }
    layer
}

/// The diagonals `0 ..= n + m - 2` of a non-empty grid partition it: every cell
/// they hold is in the grid, every cell of the grid is on one of them, and no
/// cell appears twice, neither on two diagonals nor twice on one.
pub proof fn lemma_layers_partition_grid(n: int, m: int, layers: Seq<Seq<(usize, usize)>>)
    requires
        n >= 1,
        m >= 1,
        layers.len() == n + m - 1,
        forall|d: int| 0 <= d < layers.len() ==> is_layer(#[trigger] layers[d], d, n, m),
    ensures
        forall|d: int, k: int|
            0 <= d < layers.len() && 0 <= k < layers[d].len() ==> in_grid(
                #[trigger] layers[d][k],
                n,
                m,
            ),
        forall|p: (usize, usize)|
            in_grid(p, n, m) ==> exists|d: int| 0 <= d < layers.len() && #[trigger] layers[d].contains(p),
        forall|d1: int, k1: int, d2: int, k2: int|
            0 <= d1 < layers.len() && 0 <= k1 < layers[d1].len() && 0 <= d2 < layers.len() && 0 <= k2
                < layers[d2].len() && #[trigger] layers[d1][k1] == #[trigger] layers[d2][k2] ==> d1 == d2
                && k1 == k2,
{
    assert forall|d: int, k: int|
        0 <= d < layers.len() && 0 <= k < layers[d].len() implies in_grid(
        #[trigger] layers[d][k],
        n,
        m,
    ) by {
        assert(is_layer(layers[d], d, n, m));
        assert(in_layer(layers[d][k], d, n, m));
    }
    assert forall|p: (usize, usize)| in_grid(p, n, m) implies exists|d: int|
        0 <= d < layers.len() && #[trigger] layers[d].contains(p) by {
        let d = p.0 + p.1;
        assert(is_layer(layers[d], d, n, m));
        assert(in_layer(p, d, n, m));
        assert(layers[d].contains(p));
    }
    assert forall|d1: int, k1: int, d2: int, k2: int|
        0 <= d1 < layers.len() && 0 <= k1 < layers[d1].len() && 0 <= d2 < layers.len() && 0 <= k2
            < layers[d2].len() && #[trigger] layers[d1][k1] == #[trigger] layers[d2][k2] implies d1 == d2
        && k1 == k2 by {
        assert(is_layer(layers[d1], d1, n, m));
        assert(is_layer(layers[d2], d2, n, m));
        assert(in_layer(layers[d1][k1], d1, n, m));
        assert(in_layer(layers[d2][k2], d2, n, m));
        if k1 < k2 {
            assert(layers[d1][k1].0 < layers[d1][k2].0);
        } else if k2 < k1 {
            assert(layers[d1][k2].0 < layers[d1][k1].0);
        }
    }
}

} // verus!
