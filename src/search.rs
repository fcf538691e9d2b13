//! The diagonal search engine: layers are tried in increasing order, the
//! pairs of one layer in parallel, and the search stops at the first layer
//! that holds an accepted pair.

use vstd::prelude::*;

use crate::layer::{build_layer, in_grid, in_layer, is_layer};

use rayon::iter::IntoParallelRefIterator;
use rayon::iter::ParallelIterator;

verus! {

/// rayon's thread pool, carried through as an opaque value.
#[verifier::external_type_specification]
#[verifier::external_body]
pub struct ExThreadPool(rayon::ThreadPool);

/// Relies on rayon's `ThreadPoolBuilder::build`: a pool of `threads` workers,
/// or `None` where the pool could not be created.
#[verifier::external_body]
fn build_pool(threads: usize) -> (r: Option<rayon::ThreadPool>) {
    rayon::ThreadPoolBuilder::new().num_threads(threads).build().ok()
}

/// Relies on rayon's `ThreadPool::install`: runs `op` once, on the pool's
/// workers, and hands back what it returned.
#[verifier::external_body]
fn install_in<R: Send, F: FnOnce() -> R + Send>(pool: &rayon::ThreadPool, op: F) -> (r: R)
    requires
        op.requires(()),
    ensures
        op.ensures((), r),
{
    pool.install(op)
}

/// Relies on rayon's `ParallelIterator::find_map_any`: `f` is run on the
/// items in parallel; the result is `None` only where `f` ran on every item and
/// returned `None` each time, else one of the values `f` returned.
#[verifier::external_body]
fn find_map_any_pair<F: Fn(usize, usize) -> Option<(usize, usize)> + Sync + Send>(
    items: &[(usize, usize)],
    f: F,
) -> (r: Option<(usize, usize)>)
    requires
        forall|k: int| 0 <= k < items@.len() ==> f.requires((items@[k].0, items@[k].1)),
    ensures
        r is None ==> forall|k: int|
            0 <= k < items@.len() ==> f.ensures((items@[k].0, items@[k].1), None),
        r matches Some(v) ==> exists|k: int|
            0 <= k < items@.len() && f.ensures((items@[k].0, items@[k].1), Some(v)),
{
    items.par_iter().find_map_any(|&(x, y)| f(x, y))
}

/// `pred`, tried on the user and the password that the pair of indices `p`
/// names, may answer `b`.
pub open spec fn pair_answered<A: Fn(&str, &str) -> bool>(
    pred: &A,
    usernames: Seq<&str>,
    passwords: Seq<&str>,
    p: (usize, usize),
    b: bool,
) -> bool {
    pred.ensures((usernames[p.0 as int], passwords[p.1 as int]), b)
}

/// Every pair of `layer` names a user and a password.
pub open spec fn layer_in_range(layer: Seq<(usize, usize)>, n: int, m: int) -> bool {
    forall|k: int| 0 <= k < layer.len() ==> in_grid(#[trigger] layer[k], n, m)
}

/// `pred` may be tried on any pair of strings.
pub open spec fn callable<A: Fn(&str, &str) -> bool>(pred: &A) -> bool {
    forall|user: &str, pass: &str| #[trigger] pred.requires((user, pass))
}

/// What the pass over one layer reports: `None` when every pair of it was
/// tried and answered `false`, else a pair of it that was answered `true`.
pub open spec fn is_layer_outcome<A: Fn(&str, &str) -> bool>(
    pred: &A,
    usernames: Seq<&str>,
    passwords: Seq<&str>,
    layer: Seq<(usize, usize)>,
    r: Option<(usize, usize)>,
) -> bool {
    match r {
        None => forall|k: int|
            0 <= k < layer.len() ==> pair_answered(pred, usernames, passwords, #[trigger] layer[k], false),
        Some(p) => layer.contains(p) && pair_answered(pred, usernames, passwords, p, true),
    }
}

/// One trial: reports it to `progress`, then asks `pred`; the pair when the
/// answer is `true`.
fn try_pair<A: Fn(&str, &str) -> bool, F: Fn()>(
    usernames: &[&str],
    passwords: &[&str],
    pred: &A,
    progress: &F,
    x: usize,
    y: usize,
) -> (r: Option<(usize, usize)>)
    requires
        x < usernames@.len(),
        y < passwords@.len(),
        progress.requires(()),
        callable(pred),
    ensures
        match r {
            Some(p) => p == (x, y) && pair_answered(pred, usernames@, passwords@, (x, y), true),
            None => pair_answered(pred, usernames@, passwords@, (x, y), false),
        },
{
    progress();
    if pred(usernames[x], passwords[y]) {
        Some((x, y))
    } else {
        None
    }
}

/// Tries the pairs of `layer` one after the other on the calling thread and
/// stops at the first one answered `true`.
fn process_layer_in_order<A: Fn(&str, &str) -> bool, F: Fn()>(
    layer: &[(usize, usize)],
    usernames: &[&str],
    passwords: &[&str],
    pred: &A,
    progress: &F,
) -> (r: Option<(usize, usize)>)
    requires
        layer_in_range(layer@, usernames@.len() as int, passwords@.len() as int),
        progress.requires(()),
        callable(pred),
    ensures
        is_layer_outcome(pred, usernames@, passwords@, layer@, r),
        r matches Some(p) ==> exists|k: int|
            0 <= k < layer@.len() && layer@[k] == p && forall|k2: int|
                0 <= k2 < k ==> pair_answered(pred, usernames@, passwords@, #[trigger] layer@[k2], false),
{
    let mut k: usize = 0;
    while k < layer.len()
        invariant
            k <= layer@.len(),
            layer_in_range(layer@, usernames@.len() as int, passwords@.len() as int),
            progress.requires(()),
            callable(pred),
            forall|k2: int|
                0 <= k2 < k ==> pair_answered(pred, usernames@, passwords@, #[trigger] layer@[k2], false),
        decreases layer@.len() - k,
    {
        let (x, y) = layer[k];
        assert(in_grid(layer@[k as int], usernames@.len() as int, passwords@.len() as int));
        let found = try_pair(usernames, passwords, pred, progress, x, y);
        if found.is_some() {
            assert(layer@[k as int] == (x, y));
            return found;
        }
        k = k + 1;
    }
    None
}

/// Tries the pairs of `layer` in parallel, on the pool that is current, and
/// reports one pair answered `true`, or `None` when every pair was answered
/// `false`. Once a pair is answered `true`, no further trial of the layer is
/// started.
pub fn process_layer_cpu<A: Fn(&str, &str) -> bool + Sync, F: Fn() + Sync>(
    layer: &[(usize, usize)],
    usernames: &[&str],
    passwords: &[&str],
    pred: &A,
    progress: &F,
) -> (r: Option<(usize, usize)>)
    requires
        layer_in_range(layer@, usernames@.len() as int, passwords@.len() as int),
        progress.requires(()),
        callable(pred),
    ensures
        is_layer_outcome(pred, usernames@, passwords@, layer@, r),
{
    let n = usernames.len();
    let m = passwords.len();
    let trial = |x: usize, y: usize| -> (r: Option<(usize, usize)>)
        requires
            x < n,
            y < m,
        ensures
            match r {
                Some(p) => p == (x, y) && pair_answered(pred, usernames@, passwords@, (x, y), true),
                None => pair_answered(pred, usernames@, passwords@, (x, y), false),
            },
        { try_pair(usernames, passwords, pred, progress, x, y) };
    assert forall|k: int| 0 <= k < layer@.len() implies trial.requires((layer@[k].0, layer@[k].1)) by {
        assert(in_grid(layer@[k], n as int, m as int));
    }
    let r = find_map_any_pair(layer, trial);
    match r {
        None => {},
        Some(p) => proof {
            let k = choose|k: int|
                0 <= k < layer@.len() && trial.ensures((layer@[k].0, layer@[k].1), Some(p));
            assert(layer@[k] == p);
        },
    }
    r
}

/// `r` is a result the search may report over the grid of `usernames` by
/// `passwords`: `None` when every pair was answered `false`, else a pair
/// answered `true` whose lower diagonals were all answered `false`.
pub open spec fn is_search_result<A: Fn(&str, &str) -> bool>(
    pred: &A,
    usernames: Seq<&str>,
    passwords: Seq<&str>,
    r: Option<(usize, usize)>,
) -> bool {
    let n = usernames.len() as int;
    let m = passwords.len() as int;
    match r {
        None => forall|q: (usize, usize)|
            in_grid(q, n, m) ==> #[trigger] pair_answered(pred, usernames, passwords, q, false),
        Some(p) => {
            &&& in_grid(p, n, m)
            &&& pair_answered(pred, usernames, passwords, p, true)
            &&& forall|q: (usize, usize)|
                in_grid(q, n, m) && q.0 + q.1 < p.0 + p.1 ==> #[trigger] pair_answered(
                    pred,
                    usernames,
                    passwords,
                    q, false)
        },
    }
}

/// `r` is a search result that is also the first pair answered `true` in the
/// order of the walk: by diagonal, then by row within a diagonal.
pub open spec fn is_first_result<A: Fn(&str, &str) -> bool>(
    pred: &A,
    usernames: Seq<&str>,
    passwords: Seq<&str>,
    r: Option<(usize, usize)>,
) -> bool {
    &&& is_search_result(pred, usernames, passwords, r)
    &&& r matches Some(p) ==> forall|q: (usize, usize)|
        in_grid(q, usernames.len() as int, passwords.len() as int) && q.0 + q.1 == p.0 + p.1 && q.0
            < p.0 ==> #[trigger] pair_answered(pred, usernames, passwords, q, false)
}

/// Searches the grid of `usernames` by `passwords` one diagonal at a time,
/// from `(0, 0)` outward, and returns the pair of indices that `login_attempt`
/// answered `true`, or `None` when it answered `false` on every pair.
///
/// Each diagonal is finished before the next one starts, and none is started
/// once a pair has been answered `true`. With `threads == 0` the pairs of a
/// diagonal are tried on rayon's global pool; with `threads > 1` on a pool of
/// that many workers made for this call (on the global pool where such a pool
/// cannot be made); with `threads == 1` one after the other on the calling
/// thread, which makes the result the first pair answered `true` in the order
/// of the walk. `progress_update` is called once before each trial.
pub fn diagonal_bruteforce_core<A: Fn(&str, &str) -> bool + Sync, F: Fn() + Sync>(
    usernames: &[&str],
    passwords: &[&str],
    threads: usize,
    login_attempt: &A,
    progress_update: &F,
) -> (r: Option<(usize, usize)>)
    requires
        usernames@.len() + passwords@.len() <= usize::MAX,
        progress_update.requires(()),
        callable(login_attempt),
    ensures
        is_search_result(login_attempt, usernames@, passwords@, r),
        threads == 1 ==> is_first_result(login_attempt, usernames@, passwords@, r),
        usernames@.len() == 0 || passwords@.len() == 0 ==> r is None,
{
    let n = usernames.len();
    let m = passwords.len();
    if n == 0 || m == 0 {
        return None;
    }
    let pool: Option<rayon::ThreadPool> = if threads > 1 {
        build_pool(threads)
    } else {
        None
    };
    let last: usize = n + m - 2;
    let mut d: usize = 0;
    while d <= last
        invariant
            n == usernames@.len(),
            m == passwords@.len(),
            n >= 1,
            m >= 1,
            n + m <= usize::MAX,
            last == n + m - 2,
            d <= last + 1,
            progress_update.requires(()),
            callable(login_attempt),
            forall|q: (usize, usize)|
                in_grid(q, n as int, m as int) && q.0 + q.1 < d ==> #[trigger] pair_answered(
                    login_attempt,
                    usernames@,
                    passwords@,
                    q, false),
        decreases last + 1 - d,
    {
        let layer = build_layer(d, n, m);
        let cells = layer.as_slice();
        assert(layer_in_range(cells@, n as int, m as int)) by {
            assert forall|k: int| 0 <= k < cells@.len() implies in_grid(
                #[trigger] cells@[k],
                n as int,
                m as int,
            ) by {
                assert(in_layer(cells@[k], d as int, n as int, m as int));
            }
        }
        let found = if threads == 1 {
            process_layer_in_order(cells, usernames, passwords, login_attempt, progress_update)
        } else {
            match &pool {
                Some(workers) => {
                    let op = || -> (r: Option<(usize, usize)>)
                        requires
                            layer_in_range(cells@, n as int, m as int),
                            n == usernames@.len(),
                            m == passwords@.len(),
                            progress_update.requires(()),
                            callable(login_attempt),
                        ensures
                            is_layer_outcome(login_attempt, usernames@, passwords@, cells@, r),
                        {
                            process_layer_cpu(
                                cells,
                                usernames,
                                passwords,
                                login_attempt,
                                progress_update,
                            )
                        };
                    install_in(workers, op)
                },
                None => process_layer_cpu(
                    cells,
                    usernames,
                    passwords,
                    login_attempt,
                    progress_update,
                ),
            }
        };
        match found {
            Some(p) => {
                proof {
                    let k = choose|k: int| 0 <= k < cells@.len() && cells@[k] == p;
                    assert(in_layer(cells@[k], d as int, n as int, m as int));
                    if threads == 1 {
                        assert forall|q: (usize, usize)|
                            in_grid(q, n as int, m as int) && q.0 + q.1 == p.0 + p.1 && q.0
                                < p.0 implies #[trigger] pair_answered(
                            login_attempt,
                            usernames@,
                            passwords@,
                            q, false) by {
                            assert(in_layer(q, d as int, n as int, m as int));
                            assert(cells@.contains(q));
                            let k2 = choose|k2: int| 0 <= k2 < cells@.len() && cells@[k2] == q;
                            let k1 = choose|k1: int|
                                0 <= k1 < cells@.len() && cells@[k1] == p && forall|k3: int|
                                    0 <= k3 < k1 ==> pair_answered(
                                        login_attempt,
                                        usernames@,
                                        passwords@,
                                        #[trigger] cells@[k3], false);
                            if k1 < k2 {
                                assert(cells@[k1].0 < cells@[k2].0);
                            }
                        }
                    }
                }
                return Some(p);
            },
            None => {},
        }
        assert forall|q: (usize, usize)|
            in_grid(q, n as int, m as int) && q.0 + q.1 < d + 1 implies #[trigger] pair_answered(
            login_attempt,
            usernames@,
            passwords@,
            q, false) by {
            if q.0 + q.1 == d {
                assert(in_layer(q, d as int, n as int, m as int));
                assert(cells@.contains(q));
                let k = choose|k: int| 0 <= k < cells@.len() && cells@[k] == q;
                assert(pair_answered(login_attempt, usernames@, passwords@, cells@[k], false));
            }
        }
        d = d + 1;
    }
    None
}

/// When the predicate answers `true` on one pair of the grid and `false` on
/// every other, the search reports that pair.
pub proof fn lemma_single_success_found<A: Fn(&str, &str) -> bool>(
    pred: &A,
    usernames: Seq<&str>,
    passwords: Seq<&str>,
    target: (usize, usize),
    r: Option<(usize, usize)>,
)
    requires
        in_grid(target, usernames.len() as int, passwords.len() as int),
        forall|q: (usize, usize), b: bool|
            in_grid(q, usernames.len() as int, passwords.len() as int) && #[trigger] pair_answered(
                pred,
                usernames,
                passwords,
                q,
                b,
            ) ==> b == (q == target),
        is_search_result(pred, usernames, passwords, r),
    ensures
        r == Some(target),
{
    if r is None {
        assert(pair_answered(pred, usernames, passwords, target, false));
    }
}

/// When the predicate answers `false` on every pair of the grid, the search
/// reports `None`.
pub proof fn lemma_no_success_exhausted<A: Fn(&str, &str) -> bool>(
    pred: &A,
    usernames: Seq<&str>,
    passwords: Seq<&str>,
    r: Option<(usize, usize)>,
)
    requires
        forall|q: (usize, usize), b: bool|
            in_grid(q, usernames.len() as int, passwords.len() as int) && #[trigger] pair_answered(
                pred,
                usernames,
                passwords,
                q,
                b,
            ) ==> !b,
        is_search_result(pred, usernames, passwords, r),
    ensures
        r is None,
{
}

/// When the predicate answers `true` on exactly two pairs, on different
/// diagonals, and `false` on every other, the search reports the pair on the
/// lower diagonal.
pub proof fn lemma_lower_diagonal_wins<A: Fn(&str, &str) -> bool>(
    pred: &A,
    usernames: Seq<&str>,
    passwords: Seq<&str>,
    a: (usize, usize),
    b: (usize, usize),
    r: Option<(usize, usize)>,
)
    requires
        in_grid(a, usernames.len() as int, passwords.len() as int),
        in_grid(b, usernames.len() as int, passwords.len() as int),
        a.0 + a.1 < b.0 + b.1,
        forall|q: (usize, usize), ok: bool|
            in_grid(q, usernames.len() as int, passwords.len() as int) && #[trigger] pair_answered(
                pred,
                usernames,
                passwords,
                q,
                ok,
            ) ==> ok == (q == a || q == b),
        is_search_result(pred, usernames, passwords, r),
    ensures
        r == Some(a),
{
    if r is None {
        assert(pair_answered(pred, usernames, passwords, a, false));
    }
    if let Some(p) = r {
        if p != a {
            assert(pair_answered(pred, usernames, passwords, a, false));
        }
    }
}

/// With a predicate that gives each pair one answer, the first accepted pair
/// in the order of the walk is unique: two searches that each report it report
/// the same thing.
pub proof fn lemma_first_result_unique<A: Fn(&str, &str) -> bool>(
    pred: &A,
    usernames: Seq<&str>,
    passwords: Seq<&str>,
    r1: Option<(usize, usize)>,
    r2: Option<(usize, usize)>,
)
    requires
        forall|q: (usize, usize), b1: bool, b2: bool|
            #[trigger] pair_answered(pred, usernames, passwords, q, b1) && #[trigger] pair_answered(
                pred,
                usernames,
                passwords,
                q,
                b2,
            ) ==> b1 == b2,
        is_first_result(pred, usernames, passwords, r1),
        is_first_result(pred, usernames, passwords, r2),
    ensures
        r1 == r2,
{
    match (r1, r2) {
        (Some(p1), Some(p2)) => {
            assert(pair_answered(pred, usernames, passwords, p1, true));
            assert(pair_answered(pred, usernames, passwords, p2, true));
            if p2.0 + p2.1 < p1.0 + p1.1 || (p2.0 + p2.1 == p1.0 + p1.1 && p2.0 < p1.0) {
                assert(pair_answered(pred, usernames, passwords, p2, false));
            }
            if p1.0 + p1.1 < p2.0 + p2.1 || (p1.0 + p1.1 == p2.0 + p2.1 && p1.0 < p2.0) {
                assert(pair_answered(pred, usernames, passwords, p1, false));
            }
            assert(p1.0 == p2.0 && p1.1 == p2.1);
        },
        (Some(p1), None) => {
            assert(pair_answered(pred, usernames, passwords, p1, true));
            assert(pair_answered(pred, usernames, passwords, p1, false));
        },
        (None, Some(p2)) => {
            assert(pair_answered(pred, usernames, passwords, p2, true));
            assert(pair_answered(pred, usernames, passwords, p2, false));
        },
        (None, None) => {},
    }
}

} // verus!
