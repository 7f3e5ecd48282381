//! Minimum-cost assignment of workers to distinct jobs.
//!
//! The algorithm is the potential-based shortest augmenting path method: a dual solution is
//! kept feasible throughout, and every assigned pair is tight, so the assignment reached is
//! of least total cost.

use vstd::prelude::*;

use crate::reach::lemma_pigeonhole;

verus! {

/// Costs from here on mark a pair as infeasible.
pub const INFEASIBLE: u32 = 2147483647;

/// Stands for an infinite reduced cost.
const INF: i128 = 0x2000_0000_0000_0000_0000_0000_0000_0000;

/// Half of `INF`: reduced costs from here on cannot come from feasible pairs.
const HALF_INF: i128 = 0x1000_0000_0000_0000_0000_0000_0000_0000;

/// A cost matrix: the cost of giving a worker a job.
pub type Costs = spec_fn(int, int) -> int;

/// The cost matrix of a table with a row for each worker.
pub open spec fn matrix(t: Seq<Seq<u32>>) -> Costs {
    |worker: int, job: int| t[worker][job] as int
}

/// `t` holds what `f` returns for each of `n` workers and `m` jobs.
pub open spec fn tabulates<F: Fn(usize, usize) -> u32>(
    f: F,
    n: usize,
    m: usize,
    t: Seq<Seq<u32>>,
) -> bool {
    &&& t.len() == n
    &&& forall|i: int| 0 <= i < n ==> #[trigger] t[i].len() == m
    &&& forall|i: usize, j: usize|
        i < n && j < m ==> f.ensures((i, j), #[trigger] t[i as int][j as int])
}

/// `a` gives each of `n` workers a job of its own among `m`, at a feasible cost.
pub open spec fn assigns(c: Costs, n: int, m: int, a: Seq<int>) -> bool {
    &&& a.len() == n
    &&& forall|i: int| 0 <= i < n ==> 0 <= #[trigger] a[i] < m && c(i, a[i]) < INFEASIBLE
    &&& forall|i: int, j: int| 0 <= i < j < n ==> a[i] != a[j]
}

/// Sum of the costs of an assignment.
pub open spec fn total(c: Costs, a: Seq<int>) -> int
    decreases a.len(),
{
    if a.len() == 0 {
        0
    } else {
        total(c, a.drop_last()) + c(a.len() - 1, a.last())
    }
}

/// `a` is an assignment, and none costs less.
pub open spec fn is_best(c: Costs, n: int, m: int, a: Seq<int>) -> bool {
    &&& assigns(c, n, m, a)
    &&& forall|b: Seq<int>| #[trigger] assigns(c, n, m, b) ==> total(c, a) <= total(c, b)
}

/// The least total cost of an assignment, or `INFEASIBLE` when there is none. A total that does
/// not fit 32 bits counts as the largest number that does.
pub open spec fn matching_cost(c: Costs, n: int, m: int) -> int {
    if exists|a: Seq<int>| assigns(c, n, m, a) {
        let best = total(c, choose|a: Seq<int>| is_best(c, n, m, a));
        if best > u32::MAX {
            u32::MAX as int
        } else {
            best
        }
    } else {
        INFEASIBLE as int
    }
}

/// The cheapest job below `m` for a worker.
pub open spec fn cheapest(c: Costs, worker: int, m: int) -> int
    decreases m,
{
    if m <= 1 {
        c(worker, 0)
    } else if c(worker, m - 1) < cheapest(c, worker, m - 1) {
        c(worker, m - 1)
    } else {
        cheapest(c, worker, m - 1)
    }
}

/// The sum of the workers' cheapest jobs, shared or not.
pub open spec fn greedy_sum(c: Costs, n: int, m: int) -> int
    decreases n,
{
    if n <= 0 {
        0
    } else {
        greedy_sum(c, n - 1, m) + cheapest(c, n - 1, m)
    }
}

// ── Sums ──────────────────────────────────────────────────────────────────

/// Sum of `f` over a sequence of jobs.
spec fn sum_at(f: spec_fn(int) -> int, a: Seq<int>) -> int
    decreases a.len(),
{
    if a.len() == 0 {
        0
    } else {
        sum_at(f, a.drop_last()) + f(a.last())
    }
}

/// Sum of `f` over the jobs below `m`.
spec fn sum_to(f: spec_fn(int) -> int, m: nat) -> int
    decreases m,
{
    if m == 0 {
        0
    } else {
        sum_to(f, (m - 1) as nat) + f(m - 1)
    }
}

proof fn lemma_sum_remove(f: spec_fn(int) -> int, a: Seq<int>, k: int)
    requires
        0 <= k < a.len(),
    ensures
        sum_at(f, a) == sum_at(f, a.remove(k)) + f(a[k]),
    decreases a.len(),
{
    if k == a.len() - 1 {
        assert(a.remove(k) =~= a.drop_last());
    } else {
        lemma_sum_remove(f, a.drop_last(), k);
        assert(a.remove(k).drop_last() =~= a.drop_last().remove(k));
        assert(a.remove(k).last() == a.last());
    }
}

proof fn lemma_sum_to_le(f: spec_fn(int) -> int, m: nat)
    requires
        forall|j: int| 0 <= j < m ==> #[trigger] f(j) <= 0,
    ensures
        sum_to(f, m) <= 0,
    decreases m,
{
    if m > 0 {
        lemma_sum_to_le(f, (m - 1) as nat);
        assert(f(m - 1) <= 0);
    }
}

proof fn lemma_sum_to_zero(f: spec_fn(int) -> int, m: nat)
    requires
        forall|j: int| 0 <= j < m ==> #[trigger] f(j) == 0,
    ensures
        sum_to(f, m) == 0,
    decreases m,
{
    if m > 0 {
        lemma_sum_to_zero(f, (m - 1) as nat);
        assert(f(m - 1) == 0);
    }
}

/// The last job below `m` taken out of a sequence of distinct jobs.
proof fn lemma_without_last(a: Seq<int>, m: nat, k: int)
    requires
        m > 0,
        0 <= k < a.len(),
        a[k] == m - 1,
        forall|i: int| 0 <= i < a.len() ==> 0 <= #[trigger] a[i] < m,
        forall|i: int, j: int| 0 <= i < j < a.len() ==> a[i] != a[j],
    ensures
        forall|i: int| 0 <= i < a.remove(k).len() ==> 0 <= #[trigger] a.remove(k)[i] < m - 1,
        forall|i: int, j: int|
            0 <= i < j < a.remove(k).len() ==> a.remove(k)[i] != a.remove(k)[j],
        forall|x: int| x != m - 1 && a.contains(x) ==> #[trigger] a.remove(k).contains(x),
{
    let t = a.remove(k);
    assert forall|i: int| 0 <= i < t.len() implies 0 <= #[trigger] t[i] < m - 1 by {
        if i < k {
            assert(t[i] == a[i]);
        } else {
            assert(t[i] == a[i + 1]);
        }
    }
    assert forall|i: int, j: int| 0 <= i < j < t.len() implies t[i] != t[j] by {
        let p = if i < k {
            i
        } else {
            i + 1
        };
        let q = if j < k {
            j
        } else {
            j + 1
        };
        assert(t[i] == a[p] && t[j] == a[q]);
    }
    assert forall|x: int| x != m - 1 && a.contains(x) implies #[trigger] t.contains(x) by {
        let i = choose|i: int| 0 <= i < a.len() && a[i] == x;
        if i < k {
            assert(t[i] == x);
        } else {
            assert(t[i - 1] == x);
        }
    }
}

/// A sum of nonpositive terms over distinct jobs is at least the sum over all jobs.
proof fn lemma_sum_some(f: spec_fn(int) -> int, a: Seq<int>, m: nat)
    requires
        forall|i: int| 0 <= i < a.len() ==> 0 <= #[trigger] a[i] < m,
        forall|i: int, j: int| 0 <= i < j < a.len() ==> a[i] != a[j],
        forall|j: int| 0 <= j < m ==> #[trigger] f(j) <= 0,
    ensures
        sum_at(f, a) >= sum_to(f, m),
    decreases m,
{
    if a.len() == 0 {
        lemma_sum_to_le(f, m);
    } else {
        assert(0 <= a[0] < m);
        assert(f(m - 1) <= 0);
        if exists|k: int| 0 <= k < a.len() && a[k] == m - 1 {
            let k = choose|k: int| 0 <= k < a.len() && a[k] == m - 1;
            lemma_without_last(a, m, k);
            lemma_sum_remove(f, a, k);
            lemma_sum_some(f, a.remove(k), (m - 1) as nat);
        } else {
            lemma_sum_some(f, a, (m - 1) as nat);
        }
    }
}

/// A sum over distinct jobs outside which the terms vanish is the sum over all jobs.
proof fn lemma_sum_all(f: spec_fn(int) -> int, a: Seq<int>, m: nat)
    requires
        forall|i: int| 0 <= i < a.len() ==> 0 <= #[trigger] a[i] < m,
        forall|i: int, j: int| 0 <= i < j < a.len() ==> a[i] != a[j],
        forall|j: int| 0 <= j < m && !a.contains(j) ==> #[trigger] f(j) == 0,
    ensures
        sum_at(f, a) == sum_to(f, m),
    decreases m,
{
    if a.len() == 0 {
        lemma_sum_to_zero(f, m);
    } else {
        assert(0 <= a[0] < m);
        if exists|k: int| 0 <= k < a.len() && a[k] == m - 1 {
            let k = choose|k: int| 0 <= k < a.len() && a[k] == m - 1;
            lemma_without_last(a, m, k);
            lemma_sum_remove(f, a, k);
            assert forall|j: int| 0 <= j < m - 1 && !a.remove(k).contains(j) implies
                #[trigger] f(j) == 0 by {
                assert(!a.contains(j));
            }
            lemma_sum_all(f, a.remove(k), (m - 1) as nat);
        } else {
            assert(!a.contains(m - 1));
            assert(f(m - 1) == 0);
            lemma_sum_all(f, a, (m - 1) as nat);
        }
    }
}

// ── Potentials ────────────────────────────────────────────────────────────
//
// Workers and jobs are numbered from 1 here; job 0 holds the worker that is being added, and
// worker 0 stands for none.

/// Bound on the potentials between augmentations.
spec fn cap(n: int) -> int {
    (2 * n + 1) * INFEASIBLE
}

/// Cost of a pair, numbered from 1.
spec fn cc(c: Costs, w: int, j: int) -> int {
    c(w - 1, j - 1)
}

/// The pair is feasible.
spec fn can(c: Costs, w: int, j: int) -> bool {
    cc(c, w, j) < INFEASIBLE
}

/// No feasible pair of the first `k` workers costs less than its potentials.
spec fn duals(c: Costs, m: int, k: int, u: Seq<i128>, v: Seq<i128>) -> bool {
    forall|w: int, j: int|
        1 <= w <= k && 1 <= j <= m && #[trigger] can(c, w, j) ==> u[w] + v[j] <= cc(c, w, j)
}

/// The pair costs exactly its potentials.
spec fn tight(c: Costs, u: Seq<i128>, v: Seq<i128>, w: int, j: int) -> bool {
    can(c, w, j) && u[w] + v[j] == cc(c, w, j)
}

/// Every job with a worker has it at a tight cost.
spec fn all_tight(
    c: Costs,
    m: int,
    k: int,
    u: Seq<i128>,
    v: Seq<i128>,
    p: Seq<usize>,
    hole: int,
) -> bool {
    forall|j: int|
        1 <= j <= m && j != hole && p[j] != 0 ==> 1 <= #[trigger] p[j] <= k && tight(
            c,
            u,
            v,
            p[j] as int,
            j,
        )
}

/// No worker has two jobs.
spec fn no_shared(m: int, p: Seq<usize>, hole: int) -> bool {
    forall|j: int, l: int|
        0 <= j < l <= m && j != hole && l != hole && p[j] != 0 ==> #[trigger] p[j]
            != #[trigger] p[l]
}

/// Worker `w` has a job.
spec fn placed(m: int, p: Seq<usize>, hole: int, w: int) -> bool {
    exists|j: int| 0 <= j <= m && j != hole && #[trigger] p[j] == w
}

/// Every one of the first `k` workers has a job.
spec fn all_placed(m: int, k: int, p: Seq<usize>, hole: int) -> bool {
    forall|w: int| 1 <= w <= k ==> #[trigger] placed(m, p, hole, w)
}

/// The state between augmentations, with the first `k` workers placed.
spec fn settled(
    c: Costs,
    n: int,
    m: int,
    k: int,
    u: Seq<i128>,
    v: Seq<i128>,
    p: Seq<usize>,
) -> bool {
    &&& u.len() == n + 1 && v.len() == m + 1 && p.len() == m + 1
    &&& 0 <= k <= n
    &&& duals(c, m, k, u, v)
    &&& all_tight(c, m, k, u, v, p, 0)
    &&& no_shared(m, p, 0)
    &&& all_placed(m, k, p, 0)
    &&& forall|w: int| 0 <= w <= n ==> 0 <= #[trigger] u[w] <= cap(n)
    &&& forall|w: int| k < w <= n ==> #[trigger] u[w] == 0
    &&& forall|j: int| 1 <= j <= m ==> -cap(n) <= #[trigger] v[j] <= 0
    &&& forall|j: int| 1 <= j <= m && p[j] == 0 ==> #[trigger] v[j] == 0
}

/// Job `tree[q]` was reached from an earlier job of the tree at a tight cost.
spec fn linked(
    c: Costs,
    u: Seq<i128>,
    v: Seq<i128>,
    p: Seq<usize>,
    way: Seq<usize>,
    tree: Seq<int>,
    q: int,
    r: int,
) -> bool {
    &&& 0 <= r < q
    &&& way[tree[q]] == tree[r]
    &&& tight(c, u, v, p[tree[r]] as int, tree[q])
}

spec fn has_link(
    c: Costs,
    u: Seq<i128>,
    v: Seq<i128>,
    p: Seq<usize>,
    way: Seq<usize>,
    tree: Seq<int>,
    q: int,
) -> bool {
    exists|r: int| #[trigger] linked(c, u, v, p, way, tree, q, r)
}

/// The jobs of the alternating tree rooted at job 0.
spec fn is_tree(
    c: Costs,
    n: int,
    m: int,
    k: int,
    u: Seq<i128>,
    v: Seq<i128>,
    p: Seq<usize>,
    way: Seq<usize>,
    tree: Seq<int>,
) -> bool {
    &&& u.len() == n + 1 && v.len() == m + 1 && p.len() == m + 1 && way.len() == m + 1
    &&& 1 <= k <= n
    &&& p[0] == k
    &&& tree.len() >= 1
    &&& tree[0] == 0
    &&& forall|q: int| 0 <= q < tree.len() ==> 0 <= #[trigger] tree[q] <= m
    &&& forall|q: int, r: int| 0 <= q < r < tree.len() ==> tree[q] != tree[r]
    &&& forall|q: int|
        0 <= q < tree.len() ==> 1 <= p[#[trigger] tree[q]] <= k
    &&& forall|q: int|
        1 <= q < tree.len() ==> #[trigger] has_link(c, u, v, p, way, tree, q)
    &&& duals(c, m, k, u, v)
    &&& all_tight(c, m, k, u, v, p, -1)
    &&& no_shared(m, p, -1)
    &&& all_placed(m, k, p, -1)
    &&& forall|w: int| 0 <= w <= n ==> 0 <= #[trigger] u[w] <= 2 * cap(n)
    &&& forall|w: int| k < w <= n ==> #[trigger] u[w] == 0
    &&& forall|w: int|
        0 <= w <= n && !in_tree(p, tree, w) ==> #[trigger] u[w] <= cap(n)
    &&& forall|j: int| 1 <= j <= m ==> -2 * cap(n) <= #[trigger] v[j] <= 0
    &&& forall|j: int| 1 <= j <= m && !tree.contains(j) ==> -cap(n) <= #[trigger] v[j]
    &&& forall|j: int| 1 <= j <= m && p[j] == 0 ==> #[trigger] v[j] == 0
    &&& forall|q: int|
        0 <= q < tree.len() ==> near(u[p[#[trigger] tree[q]] as int] as int, u[k] as int, tree.len() - 1)
}

/// Two potentials differ by at most `t` costs.
spec fn near(a: int, b: int, t: int) -> bool {
    -(t * INFEASIBLE) <= a - b <= t * INFEASIBLE
}

/// Worker `w` sits at a job of the tree.
spec fn in_tree(p: Seq<usize>, tree: Seq<int>, w: int) -> bool {
    exists|q: int| 0 <= q < tree.len() && p[#[trigger] tree[q]] == w
}

/// The jobs marked as used are those of the tree.
spec fn marked(used: Seq<bool>, m: int, tree: Seq<int>) -> bool {
    used.len() == m + 1 && forall|j: int| 0 <= j <= m ==> (#[trigger] used[j] <==> tree.contains(j))
}

/// For every job outside the tree, the least reduced cost from a worker of it.
spec fn slacks(
    c: Costs,
    m: int,
    k: int,
    u: Seq<i128>,
    v: Seq<i128>,
    p: Seq<usize>,
    way: Seq<usize>,
    tree: Seq<int>,
    used: Seq<bool>,
    min_val: Seq<i128>,
) -> bool {
    &&& min_val.len() == m + 1
    &&& forall|j: int, q: int|
        1 <= j <= m && !used[j] && 0 <= q < tree.len() && can(c, p[#[trigger] tree[q]] as int, j)
            ==> #[trigger] min_val[j] <= cc(c, p[tree[q]] as int, j) - u[p[tree[q]] as int] - v[j]
    &&& forall|j: int|
        1 <= j <= m && !used[j] ==> {
            ||| #[trigger] min_val[j] == INF - u[k]
            ||| attained(c, u, v, p, way, tree, min_val, j)
        }
    &&& forall|j: int| 1 <= j <= m && !used[j] ==> 0 <= #[trigger] min_val[j] <= INF
}

/// The reduced cost recorded for job `j` is that of the worker at job `way[j]` of the tree.
spec fn attained(
    c: Costs,
    u: Seq<i128>,
    v: Seq<i128>,
    p: Seq<usize>,
    way: Seq<usize>,
    tree: Seq<int>,
    min_val: Seq<i128>,
    j: int,
) -> bool {
    let w = p[way[j] as int] as int;
    &&& tree.contains(way[j] as int)
    &&& min_val[j] == reduced(c, u, v, w, j)
}

/// Reduced cost of a pair.
spec fn reduced(c: Costs, u: Seq<i128>, v: Seq<i128>, w: int, j: int) -> int {
    (if can(c, w, j) {
        cc(c, w, j)
    } else {
        INF as int
    }) - u[w] - v[j]
}

/// The limits that keep the arithmetic within 128 bits.
spec fn limits(c: Costs, n: int, m: int) -> bool {
    &&& 1 <= n <= m
    &&& 4 * cap(n) <= HALF_INF
    &&& forall|i: int, j: int| 0 <= #[trigger] c(i, j)
}

/// A tree has at most as many jobs as workers have been considered.
proof fn lemma_tree_size(
    c: Costs,
    n: int,
    m: int,
    k: int,
    u: Seq<i128>,
    v: Seq<i128>,
    p: Seq<usize>,
    way: Seq<usize>,
    tree: Seq<int>,
)
    requires
        is_tree(c, n, m, k, u, v, p, way, tree),
    ensures
        tree.len() <= k,
{
    let s = Seq::new(tree.len(), |q: int| p[tree[q]] - 1);
    assert forall|q: int| 0 <= q < s.len() implies 0 <= #[trigger] s[q] < k by {
        assert(1 <= p[tree[q]] <= k);
    }
    assert forall|q: int, r: int| 0 <= q < r < s.len() implies s[q] != s[r] by {
        assert(1 <= p[tree[q]] <= k);
        assert(tree[q] != tree[r]);
        assert(0 <= tree[q] <= m && 0 <= tree[r] <= m);
        if tree[q] < tree[r] {
            assert(p[tree[q]] != p[tree[r]]);
        } else {
            assert(p[tree[r]] != p[tree[q]]);
        }
    }
    lemma_pigeonhole(s, k as nat);
}

/// When no worker of the tree can take a job outside it, there is no assignment.
proof fn lemma_no_way_out(
    c: Costs,
    n: int,
    m: int,
    k: int,
    u: Seq<i128>,
    v: Seq<i128>,
    p: Seq<usize>,
    way: Seq<usize>,
    tree: Seq<int>,
    a: Seq<int>,
)
    requires
        is_tree(c, n, m, k, u, v, p, way, tree),
        forall|q: int, j: int|
            0 <= q < tree.len() && 1 <= j <= m && !tree.contains(j) ==> !#[trigger] can(
                c,
                p[tree[q]] as int,
                j,
            ),
    ensures
        !assigns(c, n, m, a),
{
    if assigns(c, n, m, a) {
        let job = |q: int| a[p[tree[q]] - 1] + 1;
        let s = Seq::new(tree.len(), |q: int| tree.index_of(job(q)) - 1);
        assert forall|q: int| 0 <= q < tree.len() implies tree.contains(#[trigger] job(q)) && 1
            <= job(q) <= m by {
            let w = p[tree[q]] as int;
            assert(1 <= p[tree[q]] <= k);
            assert(0 <= a[w - 1] < m && c(w - 1, a[w - 1]) < INFEASIBLE);
            if !tree.contains(job(q)) {
                assert(!can(c, p[tree[q]] as int, job(q)));
            }
        }
        assert forall|q: int| 0 <= q < s.len() implies 0 <= #[trigger] s[q] < tree.len() - 1 by {
            assert(tree.contains(job(q)));
            let x = tree.index_of(job(q));
            assert(tree[x] == job(q));
        }
        assert forall|q: int, r: int| 0 <= q < r < s.len() implies s[q] != s[r] by {
            assert(tree.contains(job(q)));
            assert(tree.contains(job(r)));
            assert(tree[tree.index_of(job(q))] == job(q));
            assert(tree[tree.index_of(job(r))] == job(r));
            assert(1 <= p[tree[q]] <= k);
            assert(1 <= p[tree[r]] <= k);
            assert(tree[q] != tree[r]);
            assert(0 <= tree[q] <= m && 0 <= tree[r] <= m);
            let wq = p[tree[q]] as int;
            let wr = p[tree[r]] as int;
            assert(wq != wr);
            if wq < wr {
                assert(a[wq - 1] != a[wr - 1]);
            } else {
                assert(a[wr - 1] != a[wq - 1]);
            }
            assert(job(q) != job(r));
        }
        lemma_pigeonhole(s, (tree.len() - 1) as nat);
        assert(false);
    }
}

/// Potentials after raising those of the tree's workers and lowering those of its jobs.
spec fn raised(
    n: int,
    m: int,
    p: Seq<usize>,
    tree: Seq<int>,
    delta: int,
    u: Seq<i128>,
    v: Seq<i128>,
    u2: Seq<i128>,
    v2: Seq<i128>,
) -> bool {
    &&& u2.len() == n + 1
    &&& v2.len() == m + 1
    &&& forall|w: int|
        0 <= w <= n ==> #[trigger] u2[w] == (if in_tree(p, tree, w) {
            u[w] + delta
        } else {
            u[w] as int
        })
    &&& forall|j: int|
        1 <= j <= m ==> #[trigger] v2[j] == (if tree.contains(j) {
            v[j] - delta
        } else {
            v[j] as int
        })
}

/// Raising the potentials by the least reduced cost keeps the tree, and makes the pair that
/// attains it tight.
proof fn lemma_raise(
    c: Costs,
    n: int,
    m: int,
    k: int,
    u: Seq<i128>,
    v: Seq<i128>,
    p: Seq<usize>,
    way: Seq<usize>,
    tree: Seq<int>,
    used: Seq<bool>,
    min_val: Seq<i128>,
    delta: int,
    j1: int,
    u2: Seq<i128>,
    v2: Seq<i128>,
    min2: Seq<i128>,
)
    requires
        limits(c, n, m),
        is_tree(c, n, m, k, u, v, p, way, tree),
        marked(used, m, tree),
        slacks(c, m, k, u, v, p, way, tree, used, min_val),
        1 <= j1 <= m,
        !used[j1],
        delta == min_val[j1],
        delta < HALF_INF,
        forall|j: int| 1 <= j <= m && !used[j] ==> delta <= #[trigger] min_val[j],
        raised(n, m, p, tree, delta, u, v, u2, v2),
        min2.len() == m + 1,
        forall|j: int| 1 <= j <= m && !used[j] ==> #[trigger] min2[j] == min_val[j] - delta,
    ensures
        is_tree(c, n, m, k, u2, v2, p, way, tree),
        slacks(c, m, k, u2, v2, p, way, tree, used, min2),
        tree.contains(way[j1] as int),
        tight(c, u2, v2, p[way[j1] as int] as int, j1),
        forall|q: int|
            0 <= q < tree.len() ==> u2[p[#[trigger] tree[q]] as int] <= INFEASIBLE - v[j1] + 2 * (
            tree.len() - 1) * INFEASIBLE,
{
    lemma_tree_size(c, n, m, k, u, v, p, way, tree);
    let t = tree.len() - 1;
    assert(!tree.contains(j1));
    assert(-cap(n) <= v[j1]);
    // The pair that attains the least reduced cost is feasible.
    assert(min_val[j1] == INF - u[k] || attained(c, u, v, p, way, tree, min_val, j1));
    assert(0 <= u[k] <= 2 * cap(n));
    assert(attained(c, u, v, p, way, tree, min_val, j1));
    let w1 = p[way[j1] as int] as int;
    let r1 = choose|r: int| 0 <= r < tree.len() && tree[r] == way[j1];
    assert(1 <= p[tree[r1]] <= k);
    assert(0 <= u[w1] <= 2 * cap(n));
    assert(can(c, w1, j1));
    assert(in_tree(p, tree, w1));
    assert(tight(c, u2, v2, w1, j1));
    // All workers of the tree are raised.
    assert forall|q: int| 0 <= q < tree.len() implies u2[p[#[trigger] tree[q]] as int]
        == u[p[tree[q]] as int] + delta by {
        assert(1 <= p[tree[q]] <= k);
        assert(in_tree(p, tree, p[tree[q]] as int));
    }
    assert(p[tree[0]] == k);
    assert(u2[k] == u[k] + delta);
    assert(near(u[p[tree[r1]] as int] as int, u[k] as int, t));
    assert(0 <= cc(c, w1, j1));
    assert(u2[w1] <= INFEASIBLE - v[j1]);
    assert forall|q: int| 0 <= q < tree.len() implies u2[p[#[trigger] tree[q]] as int]
        <= INFEASIBLE - v[j1] + 2 * t * INFEASIBLE by {
        assert(near(u[p[tree[q]] as int] as int, u[k] as int, t));
    }
    assert(cap(n) == (2 * n + 1) * INFEASIBLE);
    assert forall|q: int| 0 <= q < tree.len() implies u2[p[#[trigger] tree[q]] as int] <= 2 * cap(
        n,
    ) by {}
    assert(delta >= 0);
    assert forall|w: int| 0 <= w <= n implies 0 <= #[trigger] u2[w] <= 2 * cap(n) by {
        assert(0 <= u[w] <= 2 * cap(n));
        if in_tree(p, tree, w) {
            let q = choose|q: int| 0 <= q < tree.len() && p[#[trigger] tree[q]] == w;
            assert(u2[p[tree[q]] as int] <= 2 * cap(n));
        }
    }
    assert forall|w: int| k < w <= n implies #[trigger] u2[w] == 0 by {
        assert(u[w] == 0);
        if in_tree(p, tree, w) {
            let q = choose|q: int| 0 <= q < tree.len() && p[#[trigger] tree[q]] == w;
            assert(1 <= p[tree[q]] <= k);
        }
    }
    assert forall|w: int| 0 <= w <= n && !in_tree(p, tree, w) implies #[trigger] u2[w] <= cap(
        n,
    ) by {
        assert(u[w] <= cap(n));
    }
    // Which workers sit in the tree.
    assert forall|j: int| 1 <= j <= m && p[j] != 0 implies (in_tree(p, tree, #[trigger] p[j] as int)
        <==> tree.contains(j)) by {
        if tree.contains(j) {
            let q = choose|q: int| 0 <= q < tree.len() && tree[q] == j;
            assert(p[tree[q]] == p[j]);
        }
        if in_tree(p, tree, p[j] as int) {
            let q = choose|q: int| 0 <= q < tree.len() && p[#[trigger] tree[q]] == p[j];
            assert(0 <= tree[q] <= m);
            if tree[q] < j {
                assert(p[tree[q]] != p[j]);
            } else if j < tree[q] {
                assert(p[j] != p[tree[q]]);
            }
        }
    }
    assert forall|j: int| 1 <= j <= m && p[j] != 0 implies 1 <= #[trigger] p[j] <= k && tight(
        c,
        u2,
        v2,
        p[j] as int,
        j,
    ) by {
        assert(tight(c, u, v, p[j] as int, j));
        assert(in_tree(p, tree, p[j] as int) <==> tree.contains(j));
    }
    assert(all_tight(c, m, k, u2, v2, p, -1));
    assert forall|j: int| 1 <= j <= m implies -2 * cap(n) <= #[trigger] v2[j] <= 0 by {
        assert(-2 * cap(n) <= v[j] <= 0);
        if tree.contains(j) {
            let q = choose|q: int| 0 <= q < tree.len() && tree[q] == j;
            assert(1 <= p[tree[q]] <= k);
            assert(tight(c, u2, v2, p[j] as int, j));
            assert(0 <= cc(c, p[j] as int, j));
            assert(u2[p[j] as int] <= 2 * cap(n));
        }
    }
    assert forall|j: int| 1 <= j <= m && !tree.contains(j) implies -cap(n) <= #[trigger] v2[j] by {
        assert(-cap(n) <= v[j]);
    }
    assert forall|j: int| 1 <= j <= m && p[j] == 0 implies #[trigger] v2[j] == 0 by {
        assert(v[j] == 0);
        if tree.contains(j) {
            let q = choose|q: int| 0 <= q < tree.len() && tree[q] == j;
            assert(1 <= p[tree[q]] <= k);
        }
    }
    assert forall|w: int, j: int| 1 <= w <= k && 1 <= j <= m && #[trigger] can(c, w, j) implies u2[w]
        + v2[j] <= cc(c, w, j) by {
        assert(u[w] + v[j] <= cc(c, w, j));
        if in_tree(p, tree, w) && !tree.contains(j) {
            let q = choose|q: int| 0 <= q < tree.len() && p[#[trigger] tree[q]] == w;
            assert(!used[j]);
            assert(can(c, p[tree[q]] as int, j));
            assert(min_val[j] <= cc(c, w, j) - u[w] - v[j]);
        }
    }
    assert forall|q: int| 1 <= q < tree.len() implies #[trigger] has_link(
        c,
        u2,
        v2,
        p,
        way,
        tree,
        q,
    ) by {
        assert(has_link(c, u, v, p, way, tree, q));
        let r = choose|r: int| #[trigger] linked(c, u, v, p, way, tree, q, r);
        assert(1 <= p[tree[r]] <= k);
        assert(0 <= tree[q] <= m);
        assert(tree[0] != tree[q]);
        assert(tree.contains(tree[q]));
        assert(linked(c, u2, v2, p, way, tree, q, r));
    }
    assert forall|q: int| 0 <= q < tree.len() implies near(
        u2[p[#[trigger] tree[q]] as int] as int,
        u2[k] as int,
        t,
    ) by {
        assert(near(u[p[tree[q]] as int] as int, u[k] as int, t));
    }
    assert(is_tree(c, n, m, k, u2, v2, p, way, tree));
    assert forall|j: int, q: int|
        1 <= j <= m && !used[j] && 0 <= q < tree.len() && can(
            c,
            p[#[trigger] tree[q]] as int,
            j,
        ) implies #[trigger] min2[j] <= cc(c, p[tree[q]] as int, j) - u2[p[tree[q]] as int]
        - v2[j] by {
        assert(min_val[j] <= cc(c, p[tree[q]] as int, j) - u[p[tree[q]] as int] - v[j]);
        assert(!tree.contains(j));
    }
    assert forall|j: int| 1 <= j <= m && !used[j] implies {
        ||| #[trigger] min2[j] == INF - u2[k]
        ||| attained(c, u2, v2, p, way, tree, min2, j)
    } by {
        assert(min_val[j] == INF - u[k] || attained(c, u, v, p, way, tree, min_val, j));
        assert(!tree.contains(j));
        if attained(c, u, v, p, way, tree, min_val, j) {
            let r = choose|r: int| 0 <= r < tree.len() && tree[r] == way[j];
            assert(1 <= p[tree[r]] <= k);
            assert(in_tree(p, tree, p[way[j] as int] as int));
        }
    }
}

/// The tree with the newly reached job, when that job has a worker.
proof fn lemma_grow(
    c: Costs,
    n: int,
    m: int,
    k: int,
    u: Seq<i128>,
    v: Seq<i128>,
    p: Seq<usize>,
    way: Seq<usize>,
    tree: Seq<int>,
    j1: int,
)
    requires
        limits(c, n, m),
        is_tree(c, n, m, k, u, v, p, way, tree),
        1 <= j1 <= m,
        !tree.contains(j1),
        tree.contains(way[j1] as int),
        tight(c, u, v, p[way[j1] as int] as int, j1),
        p[j1] != 0,
    ensures
        is_tree(c, n, m, k, u, v, p, way, tree.push(j1)),
{
    let tree2 = tree.push(j1);
    let t = tree.len() - 1;
    assert(tree2.len() - 1 == t + 1);
    let r1 = choose|r: int| 0 <= r < tree.len() && tree[r] == way[j1];
    assert(1 <= p[tree[r1]] <= k);
    assert(near(u[p[tree[r1]] as int] as int, u[k] as int, t));
    assert(tight(c, u, v, p[j1] as int, j1));
    assert(0 <= cc(c, p[j1] as int, j1));
    assert(0 <= cc(c, p[way[j1] as int] as int, j1));
    assert forall|q: int| 1 <= q < tree2.len() implies #[trigger] has_link(
        c,
        u,
        v,
        p,
        way,
        tree2,
        q,
    ) by {
        if q < tree.len() {
            assert(has_link(c, u, v, p, way, tree, q));
            let r = choose|r: int| #[trigger] linked(c, u, v, p, way, tree, q, r);
            assert(linked(c, u, v, p, way, tree2, q, r));
        } else {
            assert(linked(c, u, v, p, way, tree2, q, r1));
        }
    }
    assert forall|q: int, r: int| 0 <= q < r < tree2.len() implies tree2[q] != tree2[r] by {
        if r == tree.len() {
            assert(tree.contains(tree[q]));
        }
    }
    assert forall|q: int| 0 <= q < tree2.len() implies 0 <= #[trigger] tree2[q] <= m by {
        if q < tree.len() {
            assert(tree2[q] == tree[q]);
        }
    }
    assert forall|q: int| 0 <= q < tree2.len() implies 1 <= p[#[trigger] tree2[q]] <= k by {
        if q < tree.len() {
            assert(tree2[q] == tree[q]);
        }
    }
    assert forall|w: int| 0 <= w <= n && !in_tree(p, tree2, w) implies #[trigger] u[w] <= cap(
        n,
    ) by {
        if in_tree(p, tree, w) {
            let q = choose|q: int| 0 <= q < tree.len() && p[#[trigger] tree[q]] == w;
            assert(p[tree2[q]] == w);
        }
    }
    assert forall|j: int| 1 <= j <= m && !tree2.contains(j) implies -cap(n) <= #[trigger] v[j] by {
        if tree.contains(j) {
            let q = choose|q: int| 0 <= q < tree.len() && tree[q] == j;
            assert(tree2[q] == j);
        }
    }
    assert forall|q: int| 0 <= q < tree2.len() implies near(
        u[p[#[trigger] tree2[q]] as int] as int,
        u[k] as int,
        tree2.len() - 1,
    ) by {
        if q < tree.len() {
            assert(tree2[q] == tree[q]);
            assert(near(u[p[tree[q]] as int] as int, u[k] as int, t));
        }
    }
}

/// A tight assignment of all workers is of least cost.
proof fn lemma_optimal(
    c: Costs,
    n: int,
    m: int,
    u: Seq<i128>,
    v: Seq<i128>,
    p: Seq<usize>,
) -> (a: Seq<int>)
    requires
        limits(c, n, m),
        settled(c, n, m, n, u, v, p),
    ensures
        is_best(c, n, m, a),
        total(c, a) == sum_to(
            |j: int| if p[j + 1] != 0 {
                c(p[j + 1] - 1, j)
            } else {
                0
            },
            m as nat,
        ),
{
    let holds = |i: int, j: int| 0 <= j < m && p[j + 1] == i + 1;
    let a = Seq::new(n as nat, |i: int| choose|j: int| #[trigger] holds(i, j));
    assert forall|i: int| 0 <= i < n implies holds(i, #[trigger] a[i]) by {
        assert(placed(m, p, 0, i + 1));
        let j = choose|j: int| 0 <= j <= m && j != 0 && #[trigger] p[j] == i + 1;
        assert(holds(i, j - 1));
    }
    assert forall|i: int| 0 <= i < n implies 0 <= #[trigger] a[i] < m && c(i, a[i]) < INFEASIBLE
        && c(i, a[i]) == u[i + 1] + v[a[i] + 1] by {
        assert(holds(i, a[i]));
        let w = p[a[i] + 1];
        assert(tight(c, u, v, w as int, a[i] + 1));
    }
    assert forall|i: int, j: int| 0 <= i < j < n implies a[i] != a[j] by {
        assert(holds(i, a[i]));
        assert(holds(j, a[j]));
    }
    assert(assigns(c, n, m, a));
    let vf = |j: int| v[j + 1] as int;
    let cf = |j: int| if p[j + 1] != 0 {
        c(p[j + 1] - 1, j)
    } else {
        0
    };
    // A job outside the assignment has no worker.
    assert forall|j: int| 0 <= j < m && !a.contains(j) implies p[j + 1] == 0 by {
        if p[j + 1] != 0 {
            let w = p[j + 1];
            assert(1 <= p[j + 1] <= n);
            assert(holds(w - 1, a[w - 1]));
            let l = a[w - 1] + 1;
            if l < j + 1 {
                assert(p[l] != p[j + 1]);
            } else if j + 1 < l {
                assert(p[j + 1] != p[l]);
            }
            assert(a[w - 1] == j);
        }
    }
    assert forall|j: int| 0 <= j < m && !a.contains(j) implies #[trigger] vf(j) == 0 by {
        assert(p[j + 1] == 0);
        assert(v[j + 1] == 0);
    }
    lemma_sum_all(vf, a, m as nat);
    assert forall|j: int| 0 <= j < m && !a.contains(j) implies #[trigger] cf(j) == 0 by {}
    lemma_sum_all(cf, a, m as nat);
    lemma_total_tight(c, u, vf, cf, a, p);
    assert forall|b: Seq<int>| #[trigger] assigns(c, n, m, b) implies total(c, a) <= total(c, b) by {
        assert forall|j: int| 0 <= j < m implies #[trigger] vf(j) <= 0 by {
            assert(v[j + 1] <= 0);
        }
        lemma_sum_some(vf, b, m as nat);
        assert forall|i: int| 0 <= i < n implies u[i + 1] + vf(#[trigger] b[i]) <= c(i, b[i]) by {
            assert(can(c, i + 1, b[i] + 1));
        }
        lemma_total_bound(c, u, vf, b);
    }
    assert(sum_to(cf, m as nat) == total(c, a));
    a
}

/// Sum of the potentials of the first workers.
spec fn sum_u(u: Seq<i128>, n: nat) -> int
    decreases n,
{
    if n == 0 {
        0
    } else {
        sum_u(u, (n - 1) as nat) + u[n as int]
    }
}

proof fn lemma_total_tight(
    c: Costs,
    u: Seq<i128>,
    vf: spec_fn(int) -> int,
    cf: spec_fn(int) -> int,
    a: Seq<int>,
    p: Seq<usize>,
)
    requires
        forall|i: int|
            0 <= i < a.len() ==> c(i, #[trigger] a[i]) == u[i + 1] + vf(a[i]) && cf(a[i]) == c(
                i,
                a[i],
            ),
    ensures
        total(c, a) == sum_u(u, a.len()) + sum_at(vf, a),
        total(c, a) == sum_at(cf, a),
    decreases a.len(),
{
    if a.len() > 0 {
        let b = a.drop_last();
        assert forall|i: int| 0 <= i < b.len() implies c(i, #[trigger] b[i]) == u[i + 1] + vf(b[i])
            && cf(b[i]) == c(i, b[i]) by {
            assert(b[i] == a[i]);
        }
        lemma_total_tight(c, u, vf, cf, b, p);
        let i = a.len() - 1;
        assert(c(i, a[i]) == u[i + 1] + vf(a[i]));
    }
}

proof fn lemma_total_bound(c: Costs, u: Seq<i128>, vf: spec_fn(int) -> int, b: Seq<int>)
    requires
        forall|i: int| 0 <= i < b.len() ==> u[i + 1] + vf(#[trigger] b[i]) <= c(i, b[i]),
    ensures
        sum_u(u, b.len()) + sum_at(vf, b) <= total(c, b),
    decreases b.len(),
{
    if b.len() > 0 {
        let d = b.drop_last();
        assert forall|i: int| 0 <= i < d.len() implies u[i + 1] + vf(#[trigger] d[i]) <= c(
            i,
            d[i],
        ) by {
            assert(d[i] == b[i]);
        }
        lemma_total_bound(c, u, vf, d);
        let i = b.len() - 1;
        assert(u[i + 1] + vf(b[i]) <= c(i, b[i]));
    }
}

// ── The algorithm ─────────────────────────────────────────────────────────

/// The rows of a table.
spec fn rows(table: &Vec<Vec<u32>>) -> Seq<Seq<u32>> {
    Seq::new(table@.len(), |i: int| table@[i]@)
}

/// The cost matrix that a table holds.
spec fn costs_in(table: &Vec<Vec<u32>>) -> Costs {
    matrix(rows(table))
}

/// The table has a row of `m` costs for each of `n` workers.
spec fn shaped(table: &Vec<Vec<u32>>, n: int, m: int) -> bool {
    table@.len() == n && forall|i: int| 0 <= i < n ==> #[trigger] table@[i]@.len() == m
}

/// The reduced costs and predecessors recorded once the jobs below `l` have been compared with
/// worker `w` at job `j0`.
spec fn scanned(
    c: Costs,
    m: int,
    u: Seq<i128>,
    v: Seq<i128>,
    w: int,
    j0: usize,
    used: Seq<bool>,
    min0: Seq<i128>,
    min_val: Seq<i128>,
    way0: Seq<usize>,
    way: Seq<usize>,
    l: int,
) -> bool {
    &&& forall|j: int|
        0 <= j <= m ==> #[trigger] min_val[j] == (if 1 <= j < l && !used[j] && reduced(
            c,
            u,
            v,
            w,
            j,
        ) < min0[j] {
            reduced(c, u, v, w, j)
        } else {
            min0[j] as int
        })
    &&& forall|j: int|
        0 <= j <= m ==> #[trigger] way[j] == (if 1 <= j < l && !used[j] && reduced(c, u, v, w, j)
            < min0[j] {
            j0
        } else {
            way0[j]
        })
}

/// Lower the least reduced costs by those of worker `i0` at job `j0`; gives the least of them
/// and the job that attains it.
fn scan(
    table: &Vec<Vec<u32>>,
    n: usize,
    m: usize,
    i0: usize,
    j0: usize,
    u: &Vec<i128>,
    v: &Vec<i128>,
    used: &Vec<bool>,
    min_val: &mut Vec<i128>,
    way: &mut Vec<usize>,
) -> (r: (i128, usize))
    requires
        shaped(table, n as int, m as int),
        m < usize::MAX,
        1 <= i0 <= n,
        u@.len() == n + 1,
        v@.len() == m + 1,
        used@.len() == m + 1,
        old(min_val)@.len() == m + 1,
        old(way)@.len() == m + 1,
        0 <= u@[i0 as int] <= INF,
        forall|j: int| 1 <= j <= m && !used@[j] ==> -INF <= #[trigger] v@[j] <= 0,
        forall|j: int| 1 <= j <= m && !used@[j] ==> #[trigger] old(min_val)@[j] <= INF,
    ensures
        final(min_val)@.len() == m + 1,
        final(way)@.len() == m + 1,
        scanned(
            costs_in(table),
            m as int,
            u@,
            v@,
            i0 as int,
            j0,
            used@,
            old(min_val)@,
            final(min_val)@,
            old(way)@,
            final(way)@,
            m + 1,
        ),
        r.0 <= INF,
        forall|j: int| 1 <= j <= m && !used@[j] ==> r.0 <= #[trigger] final(min_val)@[j],
        r.0 < INF ==> 1 <= r.1 <= m && !used@[r.1 as int] && r.0 == final(min_val)@[r.1 as int],
{
    let ghost c = costs_in(table);
    let mut delta: i128 = INF;
    let mut j1: usize = 0;
    let mut j: usize = 1;
    while j <= m
        invariant
            1 <= j <= m + 1,
            m < usize::MAX,
            c == costs_in(table),
            shaped(table, n as int, m as int),
            1 <= i0 <= n,
            u@.len() == n + 1,
            v@.len() == m + 1,
            used@.len() == m + 1,
            min_val@.len() == m + 1,
            way@.len() == m + 1,
            0 <= u@[i0 as int] <= INF,
            forall|l: int| 1 <= l <= m && !used@[l] ==> -INF <= #[trigger] v@[l] <= 0,
            forall|l: int| 1 <= l <= m && !used@[l] ==> #[trigger] old(min_val)@[l] <= INF,
            old(min_val)@.len() == m + 1,
            old(way)@.len() == m + 1,
            scanned(
                c,
                m as int,
                u@,
                v@,
                i0 as int,
                j0,
                used@,
                old(min_val)@,
                min_val@,
                old(way)@,
                way@,
                j as int,
            ),
            delta <= INF,
            forall|l: int| 1 <= l < j && !used@[l] ==> delta <= #[trigger] min_val@[l],
            delta < INF ==> 1 <= j1 < j && !used@[j1 as int] && delta == min_val@[j1 as int],
        decreases m + 1 - j,
    {
        if !used[j] {
            assert(table@[i0 - 1]@.len() == m);
            let raw = table[i0 - 1][j - 1];
            assert(cc(c, i0 as int, j as int) == raw);
            let cost: i128 = if raw >= INFEASIBLE {
                INF
            } else {
                raw as i128
            };
            assert(-INF <= v@[j as int] <= 0);
            assert(min_val@[j as int] == old(min_val)@[j as int]);
            let val: i128 = cost - u[i0] - v[j];
            assert(val == reduced(c, u@, v@, i0 as int, j as int));
            if val < min_val[j] {
                min_val[j] = val;
                way[j] = j0;
            }
            if min_val[j] < delta {
                delta = min_val[j];
                j1 = j;
            }
        }
        j += 1;
    }
    (delta, j1)
}

/// Worker `w` sits at one of the used jobs below `l`.
spec fn sits(p: Seq<usize>, used: Seq<bool>, l: int, w: int) -> bool {
    exists|j: int| 0 <= j < l && #[trigger] used[j] && p[j] == w
}

/// Raise the potentials of the workers at used jobs, and lower those of the used jobs and the
/// recorded reduced costs of the others.
fn raise(
    n: usize,
    m: usize,
    p: &Vec<usize>,
    used: &Vec<bool>,
    delta: i128,
    u: &mut Vec<i128>,
    v: &mut Vec<i128>,
    min_val: &mut Vec<i128>,
)
    requires
        m < usize::MAX,
        p@.len() == m + 1,
        used@.len() == m + 1,
        old(u)@.len() == n + 1,
        old(v)@.len() == m + 1,
        old(min_val)@.len() == m + 1,
        used@[0],
        forall|j: int| 0 <= j <= m && used@[j] ==> 1 <= #[trigger] p@[j] <= n,
        forall|j: int, l: int|
            0 <= j < l <= m && used@[j] && used@[l] ==> #[trigger] p@[j] != #[trigger] p@[l],
        0 <= delta <= HALF_INF,
        forall|w: int| 0 <= w <= n ==> 0 <= #[trigger] old(u)@[w] <= HALF_INF,
        forall|j: int| 1 <= j <= m ==> -HALF_INF <= #[trigger] old(v)@[j] <= 0,
        forall|j: int|
            1 <= j <= m && !used@[j] ==> 0 <= #[trigger] old(min_val)@[j] <= INF,
    ensures
        final(u)@.len() == n + 1,
        final(v)@.len() == m + 1,
        final(min_val)@.len() == m + 1,
        forall|w: int|
            0 <= w <= n ==> #[trigger] final(u)@[w] == (if sits(p@, used@, m + 1, w) {
                old(u)@[w] + delta
            } else {
                old(u)@[w] as int
            }),
        forall|j: int|
            1 <= j <= m ==> #[trigger] final(v)@[j] == (if used@[j] {
                old(v)@[j] - delta
            } else {
                old(v)@[j] as int
            }),
        forall|j: int|
            1 <= j <= m && !used@[j] ==> #[trigger] final(min_val)@[j] == old(min_val)@[j] - delta,
{
    let mut j: usize = 0;
    while j <= m
        invariant
            j <= m + 1,
            m < usize::MAX,
            p@.len() == m + 1,
            used@.len() == m + 1,
            u@.len() == n + 1,
            v@.len() == m + 1,
            min_val@.len() == m + 1,
            used@[0],
            forall|l: int| 0 <= l <= m && used@[l] ==> 1 <= #[trigger] p@[l] <= n,
            forall|i: int, l: int|
                0 <= i < l <= m && used@[i] && used@[l] ==> #[trigger] p@[i] != #[trigger] p@[l],
            0 <= delta <= HALF_INF,
            forall|w: int| 0 <= w <= n ==> 0 <= #[trigger] old(u)@[w] <= HALF_INF,
            forall|l: int| 1 <= l <= m ==> -HALF_INF <= #[trigger] old(v)@[l] <= 0,
            forall|l: int|
                1 <= l <= m && !used@[l] ==> 0 <= #[trigger] old(min_val)@[l] <= INF,
            forall|w: int|
                0 <= w <= n ==> #[trigger] u@[w] == (if sits(p@, used@, j as int, w) {
                    old(u)@[w] + delta
                } else {
                    old(u)@[w] as int
                }),
            forall|l: int|
                1 <= l < j ==> #[trigger] v@[l] == (if used@[l] {
                    old(v)@[l] - delta
                } else {
                    old(v)@[l] as int
                }),
            forall|l: int| j <= l <= m ==> #[trigger] v@[l] == old(v)@[l],
            forall|l: int|
                1 <= l < j && !used@[l] ==> #[trigger] min_val@[l] == old(min_val)@[l] - delta,
            forall|l: int| j <= l <= m ==> #[trigger] min_val@[l] == old(min_val)@[l],
        decreases m + 1 - j,
    {
        let ghost u1 = u@;
        if used[j] {
            let w = p[j];
            proof {
                assert(1 <= p@[j as int] <= n);
                assert(0 <= old(u)@[w as int] <= HALF_INF);
                if sits(p@, used@, j as int, w as int) {
                    let l = choose|l: int| 0 <= l < j && #[trigger] used@[l] && p@[l] == w;
                    assert(p@[l] != p@[j as int]);
                }
            }
            u[w] = u[w] + delta;
            if j >= 1 {
                assert(-HALF_INF <= old(v)@[j as int] <= 0);
                assert(v@[j as int] == old(v)@[j as int]);
                v[j] = v[j] - delta;
            }
        } else {
            assert(0 <= old(min_val)@[j as int] <= INF);
            assert(min_val@[j as int] == old(min_val)@[j as int]);
            min_val[j] = min_val[j] - delta;
        }
        proof {
            assert forall|x: int| 0 <= x <= n implies #[trigger] u@[x] == (if sits(
                p@,
                used@,
                j + 1,
                x,
            ) {
                old(u)@[x] + delta
            } else {
                old(u)@[x] as int
            }) by {
                assert(u1[x] == (if sits(p@, used@, j as int, x) {
                    old(u)@[x] + delta
                } else {
                    old(u)@[x] as int
                }));
                if sits(p@, used@, j as int, x) {
                    let l = choose|l: int| 0 <= l < j && #[trigger] used@[l] && p@[l] == x;
                    assert(used@[l] && p@[l] == x);
                }
                if used@[j as int] && p@[j as int] == x {
                    assert(sits(p@, used@, j + 1, x));
                }
            }
        }
        j += 1;
    }
}

/// Hand the workers along the path of `way` from job `start` to job 0 one job further.
fn flip(
    p: &mut Vec<usize>,
    way: &Vec<usize>,
    start: usize,
    Ghost(c): Ghost<Costs>,
    Ghost(n): Ghost<int>,
    Ghost(m): Ghost<int>,
    Ghost(k): Ghost<int>,
    Ghost(u): Ghost<Seq<i128>>,
    Ghost(v): Ghost<Seq<i128>>,
    Ghost(tree): Ghost<Seq<int>>,
)
    requires
        is_tree(c, n, m, k, u, v, old(p)@, way@, tree),
        1 <= start <= m,
        !tree.contains(start as int),
        tree.contains(way@[start as int] as int),
        tight(c, u, v, old(p)@[way@[start as int] as int] as int, start as int),
        old(p)@[start as int] == 0,
    ensures
        final(p)@.len() == m + 1,
        all_tight(c, m, k, u, v, final(p)@, 0),
        no_shared(m, final(p)@, 0),
        all_placed(m, k, final(p)@, 0),
        forall|j: int| 1 <= j <= m && #[trigger] final(p)@[j] == 0 ==> old(p)@[j] == 0,
{
    let ghost path = tree.push(start as int);
    let ghost mut q: int = tree.len() as int;
    let mut j0 = start;
    proof {
        assert forall|w: int| 1 <= w <= k implies #[trigger] placed(m, p@, start as int, w) by {
            assert(placed(m, p@, -1, w));
            let j = choose|j: int| 0 <= j <= m && j != -1 && #[trigger] p@[j] == w;
            assert(p@[j] == w);
        }
    }
    loop
        invariant_except_break
            1 <= q <= tree.len(),
            j0 == path[q],
        invariant
            path == tree.push(start as int),
            is_tree(c, n, m, k, u, v, old(p)@, way@, tree),
            1 <= start <= m,
            !tree.contains(start as int),
            tree.contains(way@[start as int] as int),
            tight(c, u, v, old(p)@[way@[start as int] as int] as int, start as int),
            p@.len() == m + 1,
            0 <= q <= tree.len(),
            j0 == path[q],
            all_tight(c, m, k, u, v, p@, j0 as int),
            no_shared(m, p@, j0 as int),
            all_placed(m, k, p@, j0 as int),
            forall|s: int| 0 <= s < q ==> p@[#[trigger] path[s]] == old(p)@[path[s]],
            forall|j: int|
                0 <= j <= m && j != j0 && #[trigger] p@[j] == 0 ==> old(p)@[j] == 0,
        ensures
            j0 == 0,
        decreases q,
    {
        let ghost r: int;
        proof {
            if q == tree.len() {
                r = choose|r: int| 0 <= r < tree.len() && tree[r] == way@[start as int];
                assert(tight(c, u, v, old(p)@[tree[r]] as int, start as int));
            } else {
                assert(path[q] == tree[q]);
                assert(has_link(c, u, v, old(p)@, way@, tree, q));
                r = choose|r: int| #[trigger] linked(c, u, v, old(p)@, way@, tree, q, r);
            }
            assert(path[r] == tree[r]);
            assert(0 <= tree[r] <= m);
            assert(1 <= old(p)@[tree[r]] <= k);
            assert(path[q] != path[r]) by {
                if q == tree.len() {
                    assert(tree.contains(tree[r]));
                }
            }
            assert(q >= 1 ==> path[q] >= 1) by {
                if q < tree.len() {
                    assert(tree[0] != tree[q]);
                    assert(0 <= tree[q] <= m);
                }
            }
            assert(p@[path[r]] == old(p)@[path[r]]);
        }
        assert(way@[j0 as int] == path[r]);
        assert(1 <= j0 <= m) by {
            if q < tree.len() {
                assert(0 <= tree[q] <= m);
            }
        }
        let j1 = way[j0];
        let ghost p1 = p@;
        let worker = p[j1];
        p[j0] = worker;
        proof {
            let h = j0 as int;
            let g = j1 as int;
            assert forall|j: int| 1 <= j <= m && j != g && p@[j] != 0 implies 1 <= #[trigger] p@[j]
                <= k && tight(c, u, v, p@[j] as int, j) by {
                if j != h {
                    assert(p@[j] == p1[j]);
                }
            }
            assert forall|j: int, l: int|
                0 <= j < l <= m && j != g && l != g && p@[j] != 0 implies #[trigger] p@[j]
                != #[trigger] p@[l] by {
                if j == h {
                    assert(p@[l] == p1[l]);
                    if g < l {
                        assert(p1[g] != p1[l]);
                    } else {
                        if p1[l] != 0 {
                            assert(p1[l] != p1[g]);
                        }
                    }
                } else if l == h {
                    assert(p@[j] == p1[j]);
                    if g < j {
                        assert(p1[g] != p1[j]);
                    } else {
                        assert(p1[j] != p1[g]);
                    }
                } else {
                    assert(p@[j] == p1[j] && p@[l] == p1[l]);
                }
            }
            assert forall|w: int| 1 <= w <= k implies #[trigger] placed(m, p@, g, w) by {
                assert(placed(m, p1, h, w));
                let j = choose|j: int| 0 <= j <= m && j != h && #[trigger] p1[j] == w;
                if j == g {
                    assert(p@[h] == w);
                } else {
                    assert(p@[j] == w);
                }
            }
            assert forall|s: int| 0 <= s < r implies p@[#[trigger] path[s]] == old(p)@[path[s]] by {
                assert(path[s] == tree[s]);
                assert(0 <= tree[s] <= m);
                assert(path[s] != path[q]) by {
                    if q == tree.len() {
                        assert(tree.contains(tree[s]));
                    }
                }
            }
            assert forall|j: int| 0 <= j <= m && j != g && #[trigger] p@[j] == 0 implies old(
                p,
            )@[j] == 0 by {
                if j != h {
                    assert(p@[j] == p1[j]);
                }
            }
            q = r;
        }
        j0 = j1;
        if j0 == 0 {
            break;
        }
        assert(q >= 1);
    }
}

/// The tree that holds only job 0, when worker `k` is put there.
proof fn lemma_phase_start(
    c: Costs,
    n: int,
    m: int,
    k: int,
    u: Seq<i128>,
    v: Seq<i128>,
    p0: Seq<usize>,
    p: Seq<usize>,
    way: Seq<usize>,
)
    requires
        limits(c, n, m),
        1 <= k <= n <= usize::MAX,
        settled(c, n, m, k - 1, u, v, p0),
        p == p0.update(0, k as usize),
        way.len() == m + 1,
    ensures
        is_tree(c, n, m, k, u, v, p, way, seq![0int]),
        u[k] == 0,
{
    let tree = seq![0int];
    assert(u[k] == 0);
    assert(cap(n) >= 0);
    assert forall|w: int, j: int| 1 <= w <= k && 1 <= j <= m && #[trigger] can(c, w, j) implies u[w]
        + v[j] <= cc(c, w, j) by {
        if w == k {
            assert(v[j] <= 0);
            assert(0 <= cc(c, w, j));
        }
    }
    assert forall|j: int| 1 <= j <= m && j != -1 && p[j] != 0 implies 1 <= #[trigger] p[j] <= k
        && tight(c, u, v, p[j] as int, j) by {
        assert(p[j] == p0[j]);
        assert(1 <= p0[j] <= k - 1);
    }
    assert forall|j: int, l: int| 0 <= j < l <= m && p[j] != 0 implies #[trigger] p[j]
        != #[trigger] p[l] by {
        assert(p[l] == p0[l]);
        if j == 0 {
            if p0[l] != 0 {
                assert(1 <= p0[l] <= k - 1);
            }
        } else {
            assert(p[j] == p0[j]);
        }
    }
    assert forall|w: int| 1 <= w <= k implies #[trigger] placed(m, p, -1, w) by {
        if w == k {
            assert(p[0] == w);
        } else {
            assert(placed(m, p0, 0, w));
            let j = choose|j: int| 0 <= j <= m && j != 0 && #[trigger] p0[j] == w;
            assert(p[j] == w);
        }
    }
    assert forall|w: int| 0 <= w <= n implies 0 <= #[trigger] u[w] <= 2 * cap(n) by {
        assert(0 <= u[w] <= cap(n));
    }
    assert forall|j: int| 1 <= j <= m implies -2 * cap(n) <= #[trigger] v[j] <= 0 by {
        assert(-cap(n) <= v[j] <= 0);
    }
    assert forall|j: int| 1 <= j <= m && p[j] == 0 implies #[trigger] v[j] == 0 by {
        assert(p[j] == p0[j]);
    }
    assert forall|q: int| 0 <= q < tree.len() implies near(
        u[p[#[trigger] tree[q]] as int] as int,
        u[k] as int,
        tree.len() - 1,
    ) by {
        assert(p[tree[q]] == k);
    }
}

proof fn lemma_mark_used(
    used0: Seq<bool>,
    used: Seq<bool>,
    m: int,
    done: Seq<int>,
    j0: int,
)
    requires
        marked(used0, m, done),
        0 <= j0 <= m,
        used == used0.update(j0, true),
    ensures
        marked(used, m, done.push(j0)),
{
    let tree = done.push(j0);
    assert forall|j: int| 0 <= j <= m implies (#[trigger] used[j] <==> tree.contains(j)) by {
        assert(used0[j] <==> done.contains(j));
        if done.contains(j) {
            let q = choose|q: int| 0 <= q < done.len() && done[q] == j;
            assert(tree[q] == j);
        }
        if j == j0 {
            assert(tree[done.len() as int] == j);
        }
        if tree.contains(j) && j != j0 {
            let q = choose|q: int| 0 <= q < tree.len() && tree[q] == j;
            assert(done[q] == j);
        }
    }
}

/// What a scan from the last job of the tree does to the recorded reduced costs.
proof fn lemma_scanned(
    c: Costs,
    n: int,
    m: int,
    k: int,
    u: Seq<i128>,
    v: Seq<i128>,
    p: Seq<usize>,
    way0: Seq<usize>,
    way: Seq<usize>,
    done: Seq<int>,
    tree: Seq<int>,
    used0: Seq<bool>,
    used: Seq<bool>,
    min0: Seq<i128>,
    min_val: Seq<i128>,
    j0: usize,
)
    requires
        limits(c, n, m),
        is_tree(c, n, m, k, u, v, p, way0, tree),
        tree == done.push(j0 as int),
        marked(used0, m, done),
        marked(used, m, tree),
        slacks(c, m, k, u, v, p, way0, done, used0, min0),
        min_val.len() == m + 1,
        way.len() == m + 1,
        scanned(c, m, u, v, p[j0 as int] as int, j0, used, min0, min_val, way0, way, m + 1),
    ensures
        is_tree(c, n, m, k, u, v, p, way, tree),
        slacks(c, m, k, u, v, p, way, tree, used, min_val),
{
    let i0 = p[j0 as int] as int;
    let last = tree.len() - 1;
    assert(tree[last] == j0);
    assert(1 <= p[tree[last]] <= k);
    assert forall|q: int| 1 <= q < tree.len() implies #[trigger] has_link(
        c,
        u,
        v,
        p,
        way,
        tree,
        q,
    ) by {
        assert(has_link(c, u, v, p, way0, tree, q));
        let r = choose|r: int| #[trigger] linked(c, u, v, p, way0, tree, q, r);
        assert(0 <= tree[q] <= m);
        assert(tree.contains(tree[q]));
        assert(used[tree[q]]);
        assert(linked(c, u, v, p, way, tree, q, r));
    }
    assert forall|j: int| 1 <= j <= m && !used[j] implies !used0[j] && 0 <= min0[j] <= INF
        && #[trigger] reduced(c, u, v, i0, j) >= 0 by {
        assert(!tree.contains(j));
        if done.contains(j) {
            let q = choose|q: int| 0 <= q < done.len() && done[q] == j;
            assert(tree[q] == j);
        }
        assert(0 <= min0[j] <= INF);
        assert(0 <= u[i0] <= 2 * cap(n));
        assert(v[j] <= 0);
        if can(c, i0, j) {
            assert(u[i0] + v[j] <= cc(c, i0, j));
        }
    }
    assert forall|j: int, q: int|
        1 <= j <= m && !used[j] && 0 <= q < tree.len() && can(
            c,
            p[#[trigger] tree[q]] as int,
            j,
        ) implies #[trigger] min_val[j] <= cc(c, p[tree[q]] as int, j) - u[p[tree[q]] as int]
        - v[j] by {
        assert(reduced(c, u, v, i0, j) >= 0);
        if q < last {
            assert(tree[q] == done[q]);
            assert(can(c, p[done[q]] as int, j));
            assert(min0[j] <= cc(c, p[done[q]] as int, j) - u[p[done[q]] as int] - v[j]);
        }
    }
    assert forall|j: int| 1 <= j <= m && !used[j] implies {
        ||| #[trigger] min_val[j] == INF - u[k]
        ||| attained(c, u, v, p, way, tree, min_val, j)
    } by {
        assert(reduced(c, u, v, i0, j) >= 0);
        assert(min0[j] == INF - u[k] || attained(c, u, v, p, way0, done, min0, j));
        if reduced(c, u, v, i0, j) < min0[j] {
            assert(way[j] == j0);
            assert(tree.contains(tree[last]));
        } else if attained(c, u, v, p, way0, done, min0, j) {
            let q = choose|q: int| 0 <= q < done.len() && done[q] == way0[j];
            assert(tree[q] == way[j]);
        }
    }
    assert forall|j: int| 1 <= j <= m && !used[j] implies 0 <= #[trigger] min_val[j] <= INF by {
        assert(reduced(c, u, v, i0, j) >= 0);
    }
}

/// With no small reduced cost left there is no assignment.
proof fn lemma_stuck(
    c: Costs,
    n: int,
    m: int,
    k: int,
    u: Seq<i128>,
    v: Seq<i128>,
    p: Seq<usize>,
    way: Seq<usize>,
    tree: Seq<int>,
    used: Seq<bool>,
    min_val: Seq<i128>,
    a: Seq<int>,
)
    requires
        limits(c, n, m),
        is_tree(c, n, m, k, u, v, p, way, tree),
        marked(used, m, tree),
        slacks(c, m, k, u, v, p, way, tree, used, min_val),
        forall|j: int| 1 <= j <= m && !used[j] ==> HALF_INF <= #[trigger] min_val[j],
    ensures
        !assigns(c, n, m, a),
{
    assert forall|q: int, j: int|
        0 <= q < tree.len() && 1 <= j <= m && !tree.contains(j) implies !#[trigger] can(
        c,
        p[tree[q]] as int,
        j,
    ) by {
        assert(!used[j]);
        assert(HALF_INF <= min_val[j]);
        assert(1 <= p[tree[q]] <= k);
        assert(0 <= u[p[tree[q]] as int]);
        assert(-2 * cap(n) <= v[j]);
        assert(cap(n) >= INFEASIBLE);
    }
    lemma_no_way_out(c, n, m, k, u, v, p, way, tree, a);
}

/// The workers at used jobs are those of the tree.
proof fn lemma_sits(m: int, p: Seq<usize>, tree: Seq<int>, used: Seq<bool>, w: int)
    requires
        marked(used, m, tree),
        forall|q: int| 0 <= q < tree.len() ==> 0 <= #[trigger] tree[q] <= m,
    ensures
        sits(p, used, m + 1, w) <==> in_tree(p, tree, w),
{
    if sits(p, used, m + 1, w) {
        let j = choose|j: int| 0 <= j < m + 1 && #[trigger] used[j] && p[j] == w;
        assert(tree.contains(j));
        let q = choose|q: int| 0 <= q < tree.len() && tree[q] == j;
        assert(p[tree[q]] == w);
    }
    if in_tree(p, tree, w) {
        let q = choose|q: int| 0 <= q < tree.len() && p[#[trigger] tree[q]] == w;
        assert(tree.contains(tree[q]));
        assert(used[tree[q]]);
    }
}

/// The state after an augmentation.
proof fn lemma_phase_end(
    c: Costs,
    n: int,
    m: int,
    k: int,
    u: Seq<i128>,
    v: Seq<i128>,
    p0: Seq<usize>,
    p: Seq<usize>,
    way: Seq<usize>,
    tree: Seq<int>,
)
    requires
        limits(c, n, m),
        is_tree(c, n, m, k, u, v, p0, way, tree),
        forall|q: int|
            0 <= q < tree.len() ==> u[p0[#[trigger] tree[q]] as int] <= INFEASIBLE + 2 * (tree.len()
                - 1) * INFEASIBLE,
        p.len() == m + 1,
        all_tight(c, m, k, u, v, p, 0),
        no_shared(m, p, 0),
        all_placed(m, k, p, 0),
        forall|j: int| 1 <= j <= m && #[trigger] p[j] == 0 ==> p0[j] == 0,
    ensures
        settled(c, n, m, k, u, v, p),
{
    lemma_tree_size(c, n, m, k, u, v, p0, way, tree);
    assert forall|w: int| 0 <= w <= n implies 0 <= #[trigger] u[w] <= cap(n) by {
        if in_tree(p0, tree, w) {
            let q = choose|q: int| 0 <= q < tree.len() && p0[#[trigger] tree[q]] == w;
            assert(u[p0[tree[q]] as int] <= INFEASIBLE + 2 * (tree.len() - 1) * INFEASIBLE);
        }
    }
    assert forall|j: int| 1 <= j <= m implies -cap(n) <= #[trigger] v[j] <= 0 by {
        if tree.contains(j) {
            let q = choose|q: int| 0 <= q < tree.len() && tree[q] == j;
            assert(1 <= p0[tree[q]] <= k);
            assert(tight(c, u, v, p0[j] as int, j));
            assert(0 <= cc(c, p0[j] as int, j));
            assert(u[p0[j] as int] <= cap(n));
        }
    }
    assert forall|j: int| 1 <= j <= m && p[j] == 0 implies #[trigger] v[j] == 0 by {
        assert(p0[j] == 0);
    }
}

/// Add worker `k` to the assignment by a shortest augmenting path. Gives `false` when there is
/// none, and then there is no assignment of all workers.
fn augment(
    table: &Vec<Vec<u32>>,
    n: usize,
    m: usize,
    k: usize,
    u: &mut Vec<i128>,
    v: &mut Vec<i128>,
    p: &mut Vec<usize>,
    way: &mut Vec<usize>,
) -> (r: bool)
    requires
        shaped(table, n as int, m as int),
        limits(costs_in(table), n as int, m as int),
        m < usize::MAX,
        1 <= k <= n,
        settled(costs_in(table), n as int, m as int, k - 1, old(u)@, old(v)@, old(p)@),
        old(way)@.len() == m + 1,
    ensures
        final(way)@.len() == m + 1,
        r ==> settled(
            costs_in(table),
            n as int,
            m as int,
            k as int,
            final(u)@,
            final(v)@,
            final(p)@,
        ),
        !r ==> forall|a: Seq<int>| !#[trigger] assigns(costs_in(table), n as int, m as int, a),
{
    let ghost c = costs_in(table);
    let ghost p_old = p@;
    p[0] = k;
    let mut j0: usize = 0;
    let mut min_val: Vec<i128> = vec![INF; m + 1];
    let mut used: Vec<bool> = vec![false; m + 1];
    let ghost mut tree: Seq<int> = seq![0int];
    let ghost mut done: Seq<int> = Seq::empty();
    proof {
        lemma_phase_start(c, n as int, m as int, k as int, u@, v@, p_old, p@, way@);
    }
    loop
        invariant_except_break
            is_tree(c, n as int, m as int, k as int, u@, v@, p@, way@, tree),
            j0 == tree.last(),
            tree == done.push(j0 as int),
            marked(used@, m as int, done),
            slacks(c, m as int, k as int, u@, v@, p@, way@, done, used@, min_val@),
        invariant
            c == costs_in(table),
            shaped(table, n as int, m as int),
            limits(c, n as int, m as int),
            m < usize::MAX,
            1 <= k <= n,
        ensures
            is_tree(c, n as int, m as int, k as int, u@, v@, p@, way@, tree),
            1 <= j0 <= m,
            !tree.contains(j0 as int),
            tree.contains(way@[j0 as int] as int),
            tight(c, u@, v@, p@[way@[j0 as int] as int] as int, j0 as int),
            p@[j0 as int] == 0,
            forall|q: int|
                0 <= q < tree.len() ==> u@[p@[#[trigger] tree[q]] as int] <= INFEASIBLE + 2 * (
                tree.len() - 1) * INFEASIBLE,
        decreases n - tree.len(),
    {
        proof {
            lemma_tree_size(c, n as int, m as int, k as int, u@, v@, p@, way@, tree);
            assert(0 <= tree[tree.len() - 1] <= m);
            assert(1 <= p@[tree[tree.len() - 1]] <= k);
        }
        let ghost used0 = used@;
        let ghost way0 = way@;
        let ghost min0 = min_val@;
        used[j0] = true;
        let i0 = p[j0];
        proof {
            lemma_mark_used(used0, used@, m as int, done, j0 as int);
            assert(0 <= u@[i0 as int] <= 2 * cap(n as int));
        }
        let (delta, j1) = scan(table, n, m, i0, j0, u, v, &used, &mut min_val, way);
        proof {
            lemma_scanned(
                c, n as int, m as int, k as int, u@, v@, p@, way0, way@, done, tree, used0, used@,
                min0, min_val@, j0,
            );
        }
        if delta >= HALF_INF {
            proof {
                assert forall|a: Seq<int>| !#[trigger] assigns(c, n as int, m as int, a) by {
                    lemma_stuck(
                        c, n as int, m as int, k as int, u@, v@, p@, way@, tree, used@, min_val@, a,
                    );
                }
            }
            return false;
        }
        let ghost u1 = u@;
        let ghost v1 = v@;
        let ghost min1 = min_val@;
        proof {
            assert forall|j: int| 0 <= j <= m && used@[j] implies 1 <= #[trigger] p@[j] <= n by {
                let q = choose|q: int| 0 <= q < tree.len() && tree[q] == j;
                assert(1 <= p@[tree[q]] <= k);
            }
            assert(tree.contains(tree[0]));
            assert(used@[0]);
        }
        raise(n, m, p, &used, delta, u, v, &mut min_val);
        proof {
            assert forall|w: int| 0 <= w <= n implies #[trigger] u@[w] == (if in_tree(p@, tree, w) {
                u1[w] + delta
            } else {
                u1[w] as int
            }) by {
                lemma_sits(m as int, p@, tree, used@, w);
            }
            assert(raised(n as int, m as int, p@, tree, delta as int, u1, v1, u@, v@));
            lemma_raise(
                c, n as int, m as int, k as int, u1, v1, p@, way@, tree, used@, min1,
                delta as int, j1 as int, u@, v@, min_val@,
            );
        }
        j0 = j1;
        if p[j0] == 0 {
            proof {
                assert(v1[j0 as int] == 0);
            }
            break;
        }
        proof {
            lemma_grow(c, n as int, m as int, k as int, u@, v@, p@, way@, tree, j0 as int);
            done = tree;
            tree = tree.push(j0 as int);
            lemma_tree_size(c, n as int, m as int, k as int, u@, v@, p@, way@, tree);
        }
    }
    let ghost p1 = p@;
    flip(
        p,
        way,
        j0,
        Ghost(c),
        Ghost(n as int),
        Ghost(m as int),
        Ghost(k as int),
        Ghost(u@),
        Ghost(v@),
        Ghost(tree),
    );
    proof {
        lemma_phase_end(c, n as int, m as int, k as int, u@, v@, p1, p@, way@, tree);
    }
    true
}

/// The cost of a best assignment.
proof fn lemma_matching_cost(c: Costs, n: int, m: int, a: Seq<int>)
    requires
        is_best(c, n, m, a),
    ensures
        matching_cost(c, n, m) == (if total(c, a) > u32::MAX {
            u32::MAX as int
        } else {
            total(c, a)
        }),
{
    let b = choose|b: Seq<int>| is_best(c, n, m, b);
    assert(is_best(c, n, m, b));
}

/// A sum as a 32-bit number that stops at the largest one.
spec fn capped(x: int) -> int {
    if x > u32::MAX {
        u32::MAX as int
    } else {
        x
    }
}

/// Ask for the cost of every pair.
fn tabulate<F: Fn(usize, usize) -> u32>(n: usize, m: usize, cost_fn: F) -> (table: Vec<Vec<u32>>)
    requires
        forall|i: usize, j: usize| i < n && j < m ==> #[trigger] cost_fn.requires((i, j)),
    ensures
        shaped(&table, n as int, m as int),
        tabulates(cost_fn, n, m, rows(&table)),
{
    let mut table: Vec<Vec<u32>> = Vec::new();
    let mut i: usize = 0;
    while i < n
        invariant
            i <= n,
            forall|w: usize, l: usize| w < n && l < m ==> #[trigger] cost_fn.requires((w, l)),
            shaped(&table, i as int, m as int),
            tabulates(cost_fn, i, m, rows(&table)),
        decreases n - i,
    {
        let ghost before = rows(&table);
        let mut row: Vec<u32> = Vec::new();
        let mut j: usize = 0;
        while j < m
            invariant
                i < n,
                j <= m,
                forall|w: usize, l: usize| w < n && l < m ==> #[trigger] cost_fn.requires((w, l)),
                row@.len() == j,
                forall|l: usize| l < j ==> cost_fn.ensures((i, l), #[trigger] row@[l as int]),
            decreases m - j,
        {
            row.push(cost_fn(i, j));
            j += 1;
        }
        table.push(row);
        proof {
            let after = rows(&table);
            assert forall|w: usize, l: usize| w < i + 1 && l < m implies cost_fn.ensures(
                (w, l),
                #[trigger] after[w as int][l as int],
            ) by {
                if w < i {
                    assert(after[w as int] == before[w as int]);
                    assert(cost_fn.ensures((w, l), before[w as int][l as int]));
                } else {
                    assert(after[w as int] == row@);
                    assert(cost_fn.ensures((i, l), row@[l as int]));
                }
            }
            assert forall|w: int| 0 <= w < i + 1 implies #[trigger] after[w].len() == m by {
                if w < i {
                    assert(after[w] == before[w]);
                }
            }
        }
        i += 1;
    }
    table
}

/// Solve the minimum-cost assignment problem: give each of the workers a job of its own so that
/// the sum of `cost_fn(worker, job)` is least. Costs from `INFEASIBLE` on mark a pair that
/// cannot be used. Gives `INFEASIBLE` when there is no assignment of all workers.
pub fn hungarian_matching<F: Fn(usize, usize) -> u32>(
    n_workers: usize,
    n_jobs: usize,
    cost_fn: F,
) -> (r: u32)
    requires
        forall|i: usize, j: usize|
            i < n_workers && j < n_jobs ==> #[trigger] cost_fn.requires((i, j)),
        0 < n_workers <= n_jobs ==> n_jobs < usize::MAX,
    ensures
        n_workers == 0 ==> r == 0,
        n_workers > n_jobs ==> r == INFEASIBLE,
        0 < n_workers <= n_jobs ==> exists|t: Seq<Seq<u32>>| #[trigger]
            tabulates(cost_fn, n_workers, n_jobs, t) && r == matching_cost(
                matrix(t),
                n_workers as int,
                n_jobs as int,
            ),
{
    if n_workers == 0 {
        return 0;
    }
    if n_workers > n_jobs {
        return INFEASIBLE;
    }
    let table = tabulate(n_workers, n_jobs, cost_fn);
    least_cost(n_workers, n_jobs, &table)
}

/// The least cost of an assignment by a table.
fn least_cost(n_workers: usize, n_jobs: usize, table: &Vec<Vec<u32>>) -> (r: u32)
    requires
        shaped(table, n_workers as int, n_jobs as int),
        1 <= n_workers <= n_jobs < usize::MAX,
    ensures
        r == matching_cost(costs_in(table), n_workers as int, n_jobs as int),
{
    let ghost c = costs_in(table);
    let ghost n = n_workers as int;
    let ghost m = n_jobs as int;
    let mut u: Vec<i128> = vec![0; n_workers + 1];
    let mut v: Vec<i128> = vec![0; n_jobs + 1];
    let mut p: Vec<usize> = vec![0; n_jobs + 1];
    let mut way: Vec<usize> = vec![0; n_jobs + 1];
    let mut k: usize = 1;
    assert(limits(c, n, m));
    while k <= n_workers
        invariant
            1 <= k <= n_workers + 1,
            n_workers <= n_jobs < usize::MAX,
            n == n_workers,
            m == n_jobs,
            c == costs_in(table),
            shaped(table, n, m),
            limits(c, n, m),
            settled(c, n, m, k - 1, u@, v@, p@),
            way@.len() == m + 1,
        decreases n_workers + 1 - k,
    {
        if !augment(table, n_workers, n_jobs, k, &mut u, &mut v, &mut p, &mut way) {
            return INFEASIBLE;
        }
        k += 1;
    }
    let ghost a = lemma_optimal(c, n, m, u@, v@, p@);
    let ghost f = |j: int| if p@[j + 1] != 0 {
        c(p@[j + 1] - 1, j)
    } else {
        0
    };
    proof {
        lemma_matching_cost(c, n, m, a);
    }
    let mut total_cost: u32 = 0;
    let mut j: usize = 1;
    while j <= n_jobs
        invariant
            1 <= j <= n_jobs + 1,
            n_jobs < usize::MAX,
            n == n_workers,
            m == n_jobs,
            c == costs_in(table),
            shaped(table, n, m),
            limits(c, n, m),
            settled(c, n, m, n, u@, v@, p@),
            f == |i: int|
                if p@[i + 1] != 0 {
                    c(p@[i + 1] - 1, i)
                } else {
                    0
                },
            total_cost == capped(sum_to(f, (j - 1) as nat)),
            0 <= sum_to(f, (j - 1) as nat),
        decreases n_jobs + 1 - j,
    {
        proof {
            assert(sum_to(f, j as nat) == sum_to(f, (j - 1) as nat) + f(j - 1));
        }
        if p[j] > 0 {
            proof {
                assert(1 <= p@[j as int] <= n);
                assert(tight(c, u@, v@, p@[j as int] as int, j as int));
                assert(table@[p@[j as int] - 1]@.len() == m);
            }
            let cost = table[p[j] - 1][j - 1];
            if cost >= INFEASIBLE {
                return INFEASIBLE;
            }
            total_cost = total_cost.saturating_add(cost);
        }
        j += 1;
    }
    total_cost
}

/// More workers than jobs cannot be assigned.
pub proof fn lemma_too_many_workers(c: Costs, n: int, m: int)
    requires
        n > m >= 0,
    ensures
        matching_cost(c, n, m) == INFEASIBLE,
{
    if exists|a: Seq<int>| assigns(c, n, m, a) {
        let a = choose|a: Seq<int>| assigns(c, n, m, a);
        lemma_pigeonhole(a, m as nat);
    }
}

/// The matching cost depends only on the costs of the pairs.
pub proof fn lemma_same_costs(c: Costs, d: Costs, n: int, m: int)
    requires
        forall|i: int, j: int| 0 <= i < n && 0 <= j < m ==> #[trigger] c(i, j) == d(i, j),
        forall|i: int, j: int| 0 <= #[trigger] c(i, j),
        forall|i: int, j: int| 0 <= #[trigger] d(i, j),
    ensures
        matching_cost(c, n, m) == matching_cost(d, n, m),
{
    assert forall|a: Seq<int>| #[trigger] assigns(c, n, m, a) implies assigns(d, n, m, a) && total(
        c,
        a,
    ) == total(d, a) by {
        lemma_same_total(c, d, m, a);
    }
    assert forall|a: Seq<int>| #[trigger] assigns(d, n, m, a) implies assigns(c, n, m, a) by {
        assert forall|i: int| 0 <= i < n implies 0 <= #[trigger] a[i] < m && c(i, a[i])
            < INFEASIBLE by {
            assert(c(i, a[i]) == d(i, a[i]));
        }
    }
    if exists|a: Seq<int>| assigns(c, n, m, a) {
        let a = choose|a: Seq<int>| assigns(c, n, m, a);
        lemma_best_exists(c, n, m, a);
        let b = choose|b: Seq<int>| is_best(c, n, m, b);
        assert(is_best(d, n, m, b));
        lemma_matching_cost(c, n, m, b);
        lemma_matching_cost(d, n, m, b);
    }
}

proof fn lemma_same_total(c: Costs, d: Costs, m: int, a: Seq<int>)
    requires
        forall|i: int, j: int| 0 <= i < a.len() && 0 <= j < m ==> #[trigger] c(i, j) == d(i, j),
        forall|i: int| 0 <= i < a.len() ==> 0 <= #[trigger] a[i] < m,
    ensures
        total(c, a) == total(d, a),
        forall|i: int| 0 <= i < a.len() ==> c(i, #[trigger] a[i]) == d(i, a[i]),
    decreases a.len(),
{
    if a.len() > 0 {
        let b = a.drop_last();
        assert forall|i: int| 0 <= i < b.len() implies 0 <= #[trigger] b[i] < m by {
            assert(b[i] == a[i]);
        }
        lemma_same_total(c, d, m, b);
        assert(0 <= a[a.len() - 1] < m);
        assert(c(a.len() - 1, a.last()) == d(a.len() - 1, a.last()));
    }
}

// ── Laws ──────────────────────────────────────────────────────────────────

/// Where there is an assignment there is a best one.
proof fn lemma_best_exists(c: Costs, n: int, m: int, a: Seq<int>)
    requires
        assigns(c, n, m, a),
        forall|i: int, j: int| 0 <= #[trigger] c(i, j),
    ensures
        exists|b: Seq<int>| is_best(c, n, m, b),
    decreases total(c, a),
{
    if !is_best(c, n, m, a) {
        let b = choose|b: Seq<int>| #[trigger] assigns(c, n, m, b) && total(c, b) < total(c, a);
        lemma_total_nonnegative(c, b);
        lemma_best_exists(c, n, m, b);
    }
}

proof fn lemma_total_nonnegative(c: Costs, a: Seq<int>)
    requires
        forall|i: int, j: int| 0 <= #[trigger] c(i, j),
    ensures
        0 <= total(c, a),
    decreases a.len(),
{
    if a.len() > 0 {
        lemma_total_nonnegative(c, a.drop_last());
        assert(0 <= c(a.len() - 1, a.last()));
    }
}

/// The matching cost is not negative.
pub proof fn lemma_matching_cost_nonnegative(c: Costs, n: int, m: int)
    requires
        forall|i: int, j: int| 0 <= #[trigger] c(i, j),
    ensures
        0 <= matching_cost(c, n, m),
{
    if exists|a: Seq<int>| assigns(c, n, m, a) {
        lemma_total_nonnegative(c, choose|a: Seq<int>| is_best(c, n, m, a));
    }
}

/// The matching cost is a lower bound: no assignment of all workers to distinct jobs costs less.
pub proof fn law_no_assignment_is_cheaper(c: Costs, n: int, m: int, a: Seq<int>)
    requires
        assigns(c, n, m, a),
        forall|i: int, j: int| 0 <= #[trigger] c(i, j),
    ensures
        matching_cost(c, n, m) <= total(c, a),
{
    lemma_best_exists(c, n, m, a);
    let b = choose|b: Seq<int>| is_best(c, n, m, b);
    lemma_matching_cost(c, n, m, b);
}

/// Where all workers can be assigned, the matching cost is that of some assignment, as far as it
/// fits 32 bits.
pub proof fn law_matching_cost_is_attained(c: Costs, n: int, m: int, a: Seq<int>)
    requires
        assigns(c, n, m, a),
        forall|i: int, j: int| 0 <= #[trigger] c(i, j),
    ensures
        matching_cost(c, n, m) < u32::MAX ==> exists|b: Seq<int>| #[trigger]
            assigns(c, n, m, b) && total(c, b) == matching_cost(c, n, m),
{
    lemma_best_exists(c, n, m, a);
    let b = choose|b: Seq<int>| is_best(c, n, m, b);
    lemma_matching_cost(c, n, m, b);
    assert(assigns(c, n, m, b));
}

proof fn lemma_cheapest(c: Costs, worker: int, m: int, j: int)
    requires
        0 <= j < m,
    ensures
        cheapest(c, worker, m) <= c(worker, j),
    decreases m,
{
    if m > 1 && j < m - 1 {
        lemma_cheapest(c, worker, m - 1, j);
    }
}

proof fn lemma_greedy(c: Costs, m: int, a: Seq<int>)
    requires
        forall|i: int| 0 <= i < a.len() ==> 0 <= #[trigger] a[i] < m,
    ensures
        greedy_sum(c, a.len() as int, m) <= total(c, a),
    decreases a.len(),
{
    if a.len() > 0 {
        let b = a.drop_last();
        assert forall|i: int| 0 <= i < b.len() implies 0 <= #[trigger] b[i] < m by {
            assert(b[i] == a[i]);
        }
        lemma_greedy(c, m, b);
        assert(0 <= a[a.len() - 1] < m);
        lemma_cheapest(c, a.len() - 1, m, a.last());
    }
}

/// The greedy sum, in which two workers may share a job, is at most the matching cost, as far as
/// that fits 32 bits.
pub proof fn law_greedy_at_most_matching(c: Costs, n: int, m: int, a: Seq<int>)
    requires
        assigns(c, n, m, a),
        forall|i: int, j: int| 0 <= #[trigger] c(i, j),
        greedy_sum(c, n, m) <= u32::MAX,
    ensures
        greedy_sum(c, n, m) <= matching_cost(c, n, m),
{
    lemma_best_exists(c, n, m, a);
    let b = choose|b: Seq<int>| is_best(c, n, m, b);
    lemma_matching_cost(c, n, m, b);
    lemma_greedy(c, m, b);
}

/// An assignment gives each worker a job that can be done at a cost below half of what 32 bits can
/// say, no job twice, and costs what the workers cost together.
pub proof fn law_assignments_are_one_to_one(c: Costs, n: int, m: int, a: Seq<int>, job: int)
    requires
        n >= 0,
        a.len() == n,
    ensures
        assigns(c, n + 1, m, a.push(job)) <==> assigns(c, n, m, a) && 0 <= job < m && c(n, job)
            < u32::MAX / 2 && !a.contains(job),
        total(c, a.push(job)) == total(c, a) + c(n, job),
        assigns(c, 0, m, Seq::empty()),
        total(c, Seq::empty()) == 0,
{
    let b = a.push(job);
    assert(b.drop_last() =~= a);
    if assigns(c, n + 1, m, b) {
        assert forall|i: int| 0 <= i < n implies 0 <= #[trigger] a[i] < m && c(i, a[i])
            < INFEASIBLE by {
            assert(b[i] == a[i]);
        }
        assert forall|i: int, j: int| 0 <= i < j < n implies a[i] != a[j] by {
            assert(b[i] == a[i] && b[j] == a[j]);
        }
        assert(b[n] == job);
        if a.contains(job) {
            let i = choose|i: int| 0 <= i < a.len() && a[i] == job;
            assert(b[i] == job && i < n);
        }
    }
    if assigns(c, n, m, a) && 0 <= job < m && c(n, job) < u32::MAX / 2 && !a.contains(job) {
        assert forall|i: int| 0 <= i < n + 1 implies 0 <= #[trigger] b[i] < m && c(i, b[i])
            < INFEASIBLE by {
            if i < n {
                assert(b[i] == a[i]);
            }
        }
        assert forall|i: int, j: int| 0 <= i < j < n + 1 implies b[i] != b[j] by {
            assert(b[i] == a[i]);
            assert(a.contains(a[i]));
        }
    }
}

} // verus!
