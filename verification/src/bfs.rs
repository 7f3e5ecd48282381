//! Breadth-first exploration as a ghost structure.
//!
//! An exploration records the cells discovered so far in the order of their discovery, each
//! with the directions that led to it. Because cells are expanded in that order and directions
//! are tried in increasing order, the recorded directions are the least ones that lead to the
//! cell: shortest first, then lexicographic.

use vstd::prelude::*;

use crate::grid::{follow, reaches, Cell, Step};

verus! {

/// Lexicographic order on direction sequences of equal length.
pub open spec fn lex_lt(a: Seq<int>, b: Seq<int>) -> bool
    decreases a.len(),
{
    if a.len() == 0 || b.len() == 0 {
        false
    } else {
        ||| lex_lt(a.drop_last(), b.drop_last())
        ||| a.drop_last() == b.drop_last() && a.last() < b.last()
    }
}

/// Shorter sequences first; sequences of equal length in lexicographic order.
pub open spec fn before(a: Seq<int>, b: Seq<int>) -> bool {
    a.len() < b.len() || (a.len() == b.len() && lex_lt(a, b))
}

/// The order `before` or equality.
pub open spec fn not_after(a: Seq<int>, b: Seq<int>) -> bool {
    a == b || before(a, b)
}

proof fn lemma_lex_irreflexive(a: Seq<int>)
    ensures
        !lex_lt(a, a),
    decreases a.len(),
{
    if a.len() > 0 {
        lemma_lex_irreflexive(a.drop_last());
    }
}

proof fn lemma_lex_transitive(a: Seq<int>, b: Seq<int>, c: Seq<int>)
    requires
        lex_lt(a, b),
        lex_lt(b, c),
    ensures
        lex_lt(a, c),
    decreases a.len(),
{
    if lex_lt(a.drop_last(), b.drop_last()) && lex_lt(b.drop_last(), c.drop_last()) {
        lemma_lex_transitive(a.drop_last(), b.drop_last(), c.drop_last());
    }
}

/// `order` holds the cells that steps lead to from `start`, in the order in which a breadth-first
/// exploration discovers them.
pub open spec fn discovers(step: Step, start: Cell, order: Seq<Cell>) -> bool {
    exists|paths: Seq<Seq<int>>|
        (#[trigger] explored(order, paths)).inv(step, start, order.len() as int, 0)
}

/// The exploration with the given cells and directions.
pub open spec fn explored(order: Seq<Cell>, paths: Seq<Seq<int>>) -> Exploration {
    Exploration { order, paths }
}

/// The order is irreflexive.
pub proof fn lemma_before_irreflexive(a: Seq<int>)
    ensures
        !before(a, a),
{
    lemma_lex_irreflexive(a);
}

/// The order is transitive.
pub proof fn lemma_before_transitive(a: Seq<int>, b: Seq<int>, c: Seq<int>)
    requires
        not_after(a, b),
        not_after(b, c),
    ensures
        not_after(a, c),
        before(a, b) || before(b, c) ==> before(a, c),
{
    if a != b && b != c {
        if a.len() == b.len() && b.len() == c.len() {
            lemma_lex_transitive(a, b, c);
        }
    }
}

/// Extending both sequences by one direction keeps their order.
pub proof fn lemma_before_push(a: Seq<int>, b: Seq<int>, d: int, e: int)
    requires
        before(a, b) || (a == b && d < e),
    ensures
        before(a.push(d), b.push(e)),
{
    assert(a.push(d).drop_last() =~= a);
    assert(b.push(e).drop_last() =~= b);
}

/// Following one more direction.
pub proof fn lemma_follow_push(step: Step, from: Cell, dirs: Seq<int>, d: int)
    ensures
        follow(step, from, dirs.push(d)) == match follow(step, from, dirs) {
            Some(m) => if 0 <= d < 4 {
                step(m, d)
            } else {
                None
            },
            None => None::<Cell>,
        },
{
    assert(dirs.push(d).drop_last() =~= dirs);
}

/// Following two sequences one after the other.
pub proof fn lemma_follow_concat(step: Step, from: Cell, a: Seq<int>, b: Seq<int>)
    ensures
        follow(step, from, a + b) == match follow(step, from, a) {
            Some(m) => follow(step, m, b),
            None => None::<Cell>,
        },
    decreases b.len(),
{
    if b.len() == 0 {
        assert(a + b =~= a);
    } else {
        lemma_follow_concat(step, from, a, b.drop_last());
        assert((a + b).drop_last() =~= a + b.drop_last());
    }
}

/// The cells discovered so far and the directions that led to each.
pub struct Exploration {
    pub order: Seq<Cell>,
    pub paths: Seq<Seq<int>>,
}

impl Exploration {
    /// Direction `e` of the `i`-th cell has been tried, when all directions of the cells before
    /// `head` and the directions below `dir` of the cell at `head` have been.
    pub open spec fn tried(i: int, e: int, head: int, dir: int) -> bool {
        0 <= i && 0 <= e < 4 && (i < head || (i == head && e < dir))
    }

    /// The `j`-th cell was discovered from the `i`-th by direction `e`.
    pub open spec fn found_from(&self, step: Step, j: int, i: int, e: int) -> bool {
        &&& 0 <= i < j
        &&& self.paths[j] == self.paths[i].push(e)
        &&& step(self.order[i], e) == Some(self.order[j])
    }

    /// The `j`-th cell was discovered by a direction tried before `(head, dir)`.
    pub open spec fn has_source(&self, step: Step, j: int, head: int, dir: int) -> bool {
        exists|i: int, e: int| #[trigger]
            self.found_from(step, j, i, e) && Self::tried(i, e, head, dir)
    }

    /// Cell `c` is among the discovered ones, by directions not after `dirs`.
    pub open spec fn has(&self, c: Cell, dirs: Seq<int>) -> bool {
        exists|j: int|
            0 <= j < self.order.len() && #[trigger] self.order[j] == c && not_after(
                self.paths[j],
                dirs,
            )
    }

    /// The exploration from `start`, with the directions tried up to `(head, dir)`.
    pub open spec fn inv(&self, step: Step, start: Cell, head: int, dir: int) -> bool {
        &&& self.order.len() == self.paths.len()
        &&& self.order.len() >= 1
        &&& self.order[0] == start
        &&& self.paths[0] == Seq::<int>::empty()
        &&& 0 <= head <= self.order.len()
        &&& 0 <= dir <= 4
        &&& (head == self.order.len() ==> dir == 0)
        &&& forall|i: int|
            0 <= i < self.order.len() ==> follow(step, start, #[trigger] self.paths[i]) == Some(
                self.order[i],
            )
        &&& forall|i: int, j: int|
            0 <= i < j < self.order.len() ==> #[trigger] self.order[i] != #[trigger] self.order[j]
        &&& forall|i: int, j: int|
            0 <= i < j < self.order.len() ==> before(
                #[trigger] self.paths[i],
                #[trigger] self.paths[j],
            )
        &&& forall|j: int|
            1 <= j < self.order.len() ==> #[trigger] self.has_source(step, j, head, dir)
        &&& forall|i: int, e: int|
            #![trigger step(self.order[i], e)]
            i < self.order.len() && Self::tried(i, e, head, dir) ==> match step(self.order[i], e) {
                Some(c) => self.has(c, self.paths[i].push(e)),
                None => true,
            }
    }

    /// Nothing tried yet.
    pub open spec fn begin(start: Cell) -> Exploration {
        Exploration { order: seq![start], paths: seq![Seq::<int>::empty()] }
    }

    /// The exploration with one more cell, found from the cell at `head` by direction `dir`.
    pub open spec fn add(&self, c: Cell, head: int, dir: int) -> Exploration {
        Exploration { order: self.order.push(c), paths: self.paths.push(self.paths[head].push(dir)) }
    }
}

/// A fresh exploration is one.
pub proof fn lemma_begin(step: Step, start: Cell)
    ensures
        Exploration::begin(start).inv(step, start, 0, 0),
{
    let x = Exploration::begin(start);
    assert(follow(step, start, x.paths[0]) == Some(start));
}

/// Every discovered cell comes before what the next direction would discover.
proof fn lemma_all_before(x: Exploration, step: Step, start: Cell, head: int, dir: int, j: int)
    requires
        x.inv(step, start, head, dir),
        head < x.order.len(),
        dir < 4,
        0 <= j < x.order.len(),
    ensures
        before(x.paths[j], x.paths[head].push(dir)),
{
    if j > 0 {
        assert(x.has_source(step, j, head, dir));
        let (i, e) = choose|i: int, e: int| #[trigger]
            x.found_from(step, j, i, e) && Exploration::tried(i, e, head, dir);
        if i < head {
            assert(before(x.paths[i], x.paths[head]));
        }
        lemma_before_push(x.paths[i], x.paths[head], e, dir);
    }
}

/// Direction `dir` of the cell at `head` leads nowhere new.
pub proof fn lemma_skip(x: Exploration, step: Step, start: Cell, head: int, dir: int)
    requires
        x.inv(step, start, head, dir),
        head < x.order.len(),
        dir < 4,
        step(x.order[head], dir) matches Some(c) ==> x.order.contains(c),
    ensures
        x.inv(step, start, head, dir + 1),
{
    if let Some(c) = step(x.order[head], dir) {
        let j = choose|j: int| 0 <= j < x.order.len() && x.order[j] == c;
        lemma_all_before(x, step, start, head, dir, j);
        assert(x.has(c, x.paths[head].push(dir)));
    }
    assert forall|j: int| 1 <= j < x.order.len() implies #[trigger] x.has_source(
        step,
        j,
        head,
        dir + 1,
    ) by {
        assert(x.has_source(step, j, head, dir));
        let (i, e) = choose|i: int, e: int| #[trigger]
            x.found_from(step, j, i, e) && Exploration::tried(i, e, head, dir);
        assert(x.found_from(step, j, i, e) && Exploration::tried(i, e, head, dir + 1));
    }
}

/// Direction `dir` of the cell at `head` leads to the new cell `c`.
pub proof fn lemma_discover(
    x: Exploration,
    step: Step,
    start: Cell,
    head: int,
    dir: int,
    c: Cell,
)
    requires
        x.inv(step, start, head, dir),
        head < x.order.len(),
        dir < 4,
        step(x.order[head], dir) == Some(c),
        !x.order.contains(c),
    ensures
        x.add(c, head, dir).inv(step, start, head, dir + 1),
{
    let y = x.add(c, head, dir);
    let n = x.order.len() as int;
    lemma_follow_push(step, start, x.paths[head], dir);
    assert forall|i: int| 0 <= i < y.order.len() implies follow(step, start, #[trigger] y.paths[i])
        == Some(y.order[i]) by {
        if i < n {
            assert(y.paths[i] == x.paths[i]);
        }
    }
    assert forall|i: int, j: int| 0 <= i < j < y.order.len() implies before(
        #[trigger] y.paths[i],
        #[trigger] y.paths[j],
    ) by {
        if j == n {
            lemma_all_before(x, step, start, head, dir, i);
        } else {
            assert(y.paths[i] == x.paths[i] && y.paths[j] == x.paths[j]);
        }
    }
    assert forall|i: int, j: int| 0 <= i < j < y.order.len() implies #[trigger] y.order[i]
        != #[trigger] y.order[j] by {
        if j == n {
            assert(y.order[i] == x.order[i]);
        }
    }
    assert forall|j: int| 1 <= j < y.order.len() implies #[trigger] y.has_source(
        step,
        j,
        head,
        dir + 1,
    ) by {
        if j < n {
            assert(x.has_source(step, j, head, dir));
            let (i, e) = choose|i: int, e: int| #[trigger]
                x.found_from(step, j, i, e) && Exploration::tried(i, e, head, dir);
            assert(y.found_from(step, j, i, e) && Exploration::tried(i, e, head, dir + 1));
        } else {
            assert(y.found_from(step, j, head, dir) && Exploration::tried(
                head,
                dir,
                head,
                dir + 1,
            ));
        }
    }
    assert forall|i: int, e: int|
        #![trigger step(y.order[i], e)]
        i < y.order.len() && Exploration::tried(i, e, head, dir + 1) implies match step(
        y.order[i],
        e,
    ) {
        Some(b) => y.has(b, y.paths[i].push(e)),
        None => true,
    } by {
        assert(y.order[i] == x.order[i]);
        assert(y.paths[i] == x.paths[i]);
        if i == head && e == dir {
            assert(y.order[n] == c);
        } else if let Some(b) = step(x.order[i], e) {
            assert(x.has(b, x.paths[i].push(e)));
            let j = choose|j: int|
                0 <= j < x.order.len() && #[trigger] x.order[j] == b && not_after(
                    x.paths[j],
                    x.paths[i].push(e),
                );
            assert(y.order[j] == b);
            assert(y.paths[j] == x.paths[j]);
        }
    }
}

/// All directions of the cell at `head` have been tried: the next cell is due.
pub proof fn lemma_advance(x: Exploration, step: Step, start: Cell, head: int)
    requires
        x.inv(step, start, head, 4),
        head < x.order.len(),
    ensures
        x.inv(step, start, head + 1, 0),
{
    assert forall|j: int| 1 <= j < x.order.len() implies #[trigger] x.has_source(
        step,
        j,
        head + 1,
        0,
    ) by {
        assert(x.has_source(step, j, head, 4));
        let (i, e) = choose|i: int, e: int| #[trigger]
            x.found_from(step, j, i, e) && Exploration::tried(i, e, head, 4);
        assert(x.found_from(step, j, i, e) && Exploration::tried(i, e, head + 1, 0));
    }
    assert forall|i: int, e: int|
        #![trigger step(x.order[i], e)]
        i < x.order.len() && Exploration::tried(i, e, head + 1, 0) implies match step(
        x.order[i],
        e,
    ) {
        Some(c) => x.has(c, x.paths[i].push(e)),
        None => true,
    } by {
        assert(Exploration::tried(i, e, head, 4));
    }
}

/// A cell that some directions lead to has been discovered, by directions not after those, as
/// soon as the exploration has come past them.
pub proof fn lemma_found(
    x: Exploration,
    step: Step,
    start: Cell,
    head: int,
    dir: int,
    dirs: Seq<int>,
    c: Cell,
)
    requires
        x.inv(step, start, head, dir),
        head < x.order.len() ==> before(dirs, x.paths[head].push(dir)),
        follow(step, start, dirs) == Some(c),
    ensures
        x.has(c, dirs),
    decreases dirs.len(),
{
    if dirs.len() == 0 {
        assert(dirs =~= x.paths[0]);
        assert(x.order[0] == c);
    } else {
        let pre = dirs.drop_last();
        let e = dirs.last();
        assert(pre.push(e) =~= dirs);
        let m = follow(step, start, pre)->0;
        if head < x.order.len() {
            assert(x.paths[head].push(dir).drop_last() =~= x.paths[head]);
            assert(before(pre, x.paths[head].push(dir)));
        }
        lemma_found(x, step, start, head, dir, pre, m);
        let i = choose|i: int|
            0 <= i < x.order.len() && #[trigger] x.order[i] == m && not_after(x.paths[i], pre);
        if head < x.order.len() {
            // pre comes before, or is, the path of the cell at `head`.
            assert(not_after(pre, x.paths[head]));
            lemma_before_transitive(x.paths[i], pre, x.paths[head]);
            lemma_before_irreflexive(x.paths[head]);
            if i > head {
                assert(before(x.paths[head], x.paths[i]));
                lemma_before_transitive(x.paths[head], x.paths[i], x.paths[head]);
                assert(false);
            }
            if i == head {
                if pre != x.paths[head] {
                    lemma_before_transitive(x.paths[i], pre, x.paths[head]);
                }
                assert(pre == x.paths[head]);
                assert(e < dir) by {
                    lemma_lex_irreflexive(pre);
                }
            }
        }
        assert(Exploration::tried(i, e, head, dir));
        assert(step(x.order[i], e) == Some(c));
        assert(x.has(c, x.paths[i].push(e)));
        let j = choose|j: int|
            0 <= j < x.order.len() && #[trigger] x.order[j] == c && not_after(
                x.paths[j],
                x.paths[i].push(e),
            );
        if x.paths[i] != pre {
            lemma_before_push(x.paths[i], pre, e, e);
        }
        lemma_before_transitive(x.paths[j], x.paths[i].push(e), dirs);
    }
}

proof fn lemma_lex_total(a: Seq<int>, b: Seq<int>)
    requires
        a.len() == b.len(),
    ensures
        a == b || lex_lt(a, b) || lex_lt(b, a),
    decreases a.len(),
{
    if a.len() > 0 {
        lemma_lex_total(a.drop_last(), b.drop_last());
        if a.drop_last() == b.drop_last() && a.last() == b.last() {
            assert(a =~= a.drop_last().push(a.last()));
            assert(b =~= b.drop_last().push(b.last()));
        }
    } else {
        assert(a =~= b);
    }
}

/// Of two different sequences, one comes before the other.
pub proof fn lemma_before_total(a: Seq<int>, b: Seq<int>)
    ensures
        before(a, b) || not_after(b, a),
{
    if a.len() == b.len() {
        lemma_lex_total(a, b);
    }
}

/// The directions to a discovered cell are no more than the cells discovered before it.
pub proof fn lemma_path_len(x: Exploration, step: Step, start: Cell, head: int, dir: int, j: int)
    requires
        x.inv(step, start, head, dir),
        0 <= j < x.order.len(),
    ensures
        x.paths[j].len() <= j,
    decreases j,
{
    if j > 0 {
        assert(x.has_source(step, j, head, dir));
        let (i, e) = choose|i: int, e: int| #[trigger]
            x.found_from(step, j, i, e) && Exploration::tried(i, e, head, dir);
        lemma_path_len(x, step, start, head, dir, i);
    }
}

/// `dirs` lead from `from` to `to`, and no directions that do come before them.
pub open spec fn is_least_path(step: Step, from: Cell, to: Cell, dirs: Seq<int>) -> bool {
    &&& follow(step, from, dirs) == Some(to)
    &&& forall|other: Seq<int>| #[trigger]
        follow(step, from, other) == Some(to) ==> not_after(dirs, other)
}

/// The directions by which a cell is discovered are the least ones that lead to it.
pub proof fn lemma_least(
    x: Exploration,
    step: Step,
    start: Cell,
    head: int,
    dir: int,
    c: Cell,
)
    requires
        x.inv(step, start, head, dir),
        head < x.order.len(),
        dir < 4,
        step(x.order[head], dir) == Some(c),
        !x.order.contains(c),
    ensures
        is_least_path(step, start, c, x.paths[head].push(dir)),
{
    let dirs = x.paths[head].push(dir);
    lemma_follow_push(step, start, x.paths[head], dir);
    assert forall|other: Seq<int>| #[trigger]
        follow(step, start, other) == Some(c) implies not_after(dirs, other) by {
        lemma_before_total(other, dirs);
        if before(other, dirs) {
            lemma_found(x, step, start, head, dir, other, c);
        }
    }
}

/// Once all directions of all cells have been tried, the directions recorded for a cell are the
/// least ones that lead to it, and a cell that was not discovered cannot be reached.
pub proof fn lemma_finished(x: Exploration, step: Step, start: Cell, c: Cell)
    requires
        x.inv(step, start, x.order.len() as int, 0),
    ensures
        reaches(step, start, c) <==> x.order.contains(c),
        forall|j: int|
            0 <= j < x.order.len() && #[trigger] x.order[j] == c ==> is_least_path(
                step,
                start,
                c,
                x.paths[j],
            ),
{
    let head = x.order.len() as int;
    if x.order.contains(c) {
        let j = choose|j: int| 0 <= j < x.order.len() && x.order[j] == c;
        assert(follow(step, start, x.paths[j]) == Some(c));
    }
    if reaches(step, start, c) {
        let dirs = choose|dirs: Seq<int>| #[trigger] follow(step, start, dirs) == Some(c);
        lemma_found(x, step, start, head, 0, dirs, c);
    }
    assert forall|j: int| 0 <= j < x.order.len() && #[trigger] x.order[j] == c implies is_least_path(
        step,
        start,
        c,
        x.paths[j],
    ) by {
        assert(follow(step, start, x.paths[j]) == Some(c));
        assert forall|other: Seq<int>| #[trigger]
            follow(step, start, other) == Some(c) implies not_after(x.paths[j], other) by {
            lemma_found(x, step, start, head, 0, other, c);
            let i = choose|i: int|
                0 <= i < x.order.len() && #[trigger] x.order[i] == c && not_after(
                    x.paths[i],
                    other,
                );
            if i < j {
                assert(x.order[i] != x.order[j]);
            } else if j < i {
                assert(x.order[j] != x.order[i]);
            }
        }
    }
}

/// The discovered cells are those that can be reached, each once.
pub proof fn lemma_discovers(step: Step, start: Cell, order: Seq<Cell>)
    requires
        discovers(step, start, order),
    ensures
        forall|c: Cell| order.contains(c) <==> #[trigger] reaches(step, start, c),
        forall|i: int, j: int| 0 <= i < j < order.len() ==> order[i] != order[j],
{
    let paths = choose|paths: Seq<Seq<int>>|
        (#[trigger] explored(order, paths)).inv(step, start, order.len() as int, 0);
    let x = explored(order, paths);
    assert forall|c: Cell| order.contains(c) <==> #[trigger] reaches(step, start, c) by {
        lemma_finished(x, step, start, c);
    }
    assert forall|i: int, j: int| 0 <= i < j < order.len() implies order[i] != order[j] by {
        assert(x.order[i] != x.order[j]);
    }
}

/// `s` satisfies `p`, and no sequence of its length that does comes before it.
spec fn is_lex_least(p: spec_fn(Seq<int>) -> bool, s: Seq<int>) -> bool {
    &&& p(s)
    &&& forall|t: Seq<int>| t.len() == s.len() && #[trigger] p(t) ==> s == t || lex_lt(s, t)
}

/// The last of the directions satisfy `p` after `s`.
spec fn extends_to(p: spec_fn(Seq<int>) -> bool, s: Seq<int>, d: int) -> bool {
    0 <= d < 4 && p(s.push(d))
}

/// Among sequences of directions of one length there is a least.
proof fn lemma_lex_least(p: spec_fn(Seq<int>) -> bool, s: Seq<int>)
    requires
        p(s),
        forall|t: Seq<int>| #[trigger] p(t) && t.len() == s.len() && t.len() > 0 ==> 0 <= t.last() < 4,
        forall|t: Seq<int>, i: int|
            #[trigger] p(t) && t.len() == s.len() && 0 <= i < t.len() ==> 0 <= #[trigger] t[i] < 4,
    ensures
        exists|t: Seq<int>| #[trigger] is_lex_least(p, t) && t.len() == s.len(),
    decreases s.len(),
{
    if s.len() == 0 {
        assert forall|t: Seq<int>| t.len() == s.len() && #[trigger] p(t) implies s == t
            || lex_lt(s, t) by {
            assert(t =~= s);
        }
        assert(is_lex_least(p, s));
    } else {
        let pre = |t: Seq<int>| exists|d: int| #[trigger] extends_to(p, t, d);
        assert(s.drop_last().push(s.last()) =~= s);
        assert(extends_to(p, s.drop_last(), s.last()));
        assert(pre(s.drop_last()));
        assert forall|t: Seq<int>, i: int|
            #[trigger] pre(t) && t.len() == s.drop_last().len() && 0 <= i < t.len() implies 0
            <= #[trigger] t[i] < 4 by {
            let d = choose|d: int| #[trigger] extends_to(p, t, d);
            assert(p(t.push(d)));
            assert(t.push(d)[i] == t[i]);
        }
        assert forall|t: Seq<int>| #[trigger]
            pre(t) && t.len() == s.drop_last().len() && t.len() > 0 implies 0 <= t.last() < 4 by {
            assert(0 <= t[t.len() - 1] < 4);
        }
        lemma_lex_least(pre, s.drop_last());
        let m = choose|m: Seq<int>| #[trigger]
            is_lex_least(pre, m) && m.len() == s.drop_last().len();
        assert(pre(m));
        let any = choose|d: int| #[trigger] extends_to(p, m, d);
        let d: int = if extends_to(p, m, 0) {
            0
        } else if extends_to(p, m, 1) {
            1
        } else if extends_to(p, m, 2) {
            2
        } else {
            3
        };
        assert(extends_to(p, m, d));
        let best = m.push(d);
        assert(best.drop_last() =~= m);
        assert forall|t: Seq<int>| t.len() == best.len() && #[trigger] p(t) implies best == t
            || lex_lt(best, t) by {
            let front = t.drop_last();
            assert(front.push(t.last()) =~= t);
            assert(0 <= t.last() < 4);
            assert(extends_to(p, front, t.last()));
            assert(pre(front));
            if front == m {
                assert(extends_to(p, m, t.last()));
            }
        }
        assert(is_lex_least(p, best));
    }
}

/// Directions that can be followed are directions.
pub proof fn lemma_followed_in_range(step: Step, from: Cell, dirs: Seq<int>)
    requires
        follow(step, from, dirs) is Some,
    ensures
        forall|i: int| 0 <= i < dirs.len() ==> 0 <= #[trigger] dirs[i] < 4,
    decreases dirs.len(),
{
    if dirs.len() > 0 {
        lemma_followed_in_range(step, from, dirs.drop_last());
        assert forall|i: int| 0 <= i < dirs.len() implies 0 <= #[trigger] dirs[i] < 4 by {
            if i < dirs.len() - 1 {
                assert(dirs[i] == dirs.drop_last()[i]);
            }
        }
    }
}

/// Where some directions lead to a cell, there are least ones that do.
pub proof fn lemma_least_exists(step: Step, from: Cell, to: Cell, dirs: Seq<int>)
    requires
        follow(step, from, dirs) == Some(to),
    ensures
        exists|least: Seq<int>| is_least_path(step, from, to, least),
    decreases dirs.len(),
{
    if exists|other: Seq<int>| #[trigger]
        follow(step, from, other) == Some(to) && other.len() < dirs.len() {
        let other = choose|other: Seq<int>| #[trigger]
            follow(step, from, other) == Some(to) && other.len() < dirs.len();
        lemma_least_exists(step, from, to, other);
    } else {
        let p = |s: Seq<int>| follow(step, from, s) == Some(to);
        assert forall|t: Seq<int>, i: int|
            #[trigger] p(t) && t.len() == dirs.len() && 0 <= i < t.len() implies 0
            <= #[trigger] t[i] < 4 by {
            lemma_followed_in_range(step, from, t);
        }
        assert forall|t: Seq<int>| #[trigger]
            p(t) && t.len() == dirs.len() && t.len() > 0 implies 0 <= t.last() < 4 by {
            lemma_followed_in_range(step, from, t);
            assert(0 <= t[t.len() - 1] < 4);
        }
        assert(p(dirs));
        lemma_lex_least(p, dirs);
        let least = choose|t: Seq<int>| #[trigger] is_lex_least(p, t) && t.len() == dirs.len();
        assert forall|other: Seq<int>| #[trigger]
            follow(step, from, other) == Some(to) implies not_after(least, other) by {
            assert(p(other));
        }
        assert(p(least));
        assert(is_least_path(step, from, to, least));
    }
}

/// Of two ways of one length the one comes first that takes the lower direction where they part.
pub proof fn law_first_difference_decides(a: Seq<int>, b: Seq<int>) -> (k: int)
    requires
        lex_lt(a, b),
        a.len() == b.len(),
    ensures
        0 <= k < a.len(),
        a.take(k) == b.take(k),
        a[k] < b[k],
    decreases a.len(),
{
    let n = a.len() - 1;
    if lex_lt(a.drop_last(), b.drop_last()) {
        let k = law_first_difference_decides(a.drop_last(), b.drop_last());
        assert(a.take(k) =~= a.drop_last().take(k));
        assert(b.take(k) =~= b.drop_last().take(k));
        k
    } else {
        assert(a.take(n) =~= a.drop_last());
        assert(b.take(n) =~= b.drop_last());
        n
    }
}

/// The least way is a way, no other is shorter, and of the others of its length none takes a lower
/// direction where the two part.
pub proof fn law_least_way_is_shortest(
    step: Step,
    from: Cell,
    to: Cell,
    dirs: Seq<int>,
    other: Seq<int>,
) -> (k: int)
    requires
        is_least_path(step, from, to, dirs),
        follow(step, from, other) == Some(to),
    ensures
        follow(step, from, dirs) == Some(to),
        dirs.len() <= other.len(),
        dirs.len() == other.len() && dirs != other ==> 0 <= k < dirs.len() && dirs.take(k)
            == other.take(k) && dirs[k] < other[k],
{
    assert(not_after(dirs, other));
    if dirs.len() == other.len() && dirs != other {
        law_first_difference_decides(dirs, other)
    } else {
        0
    }
}

} // verus!
