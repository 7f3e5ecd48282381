//! Deadlock sets: groups of cells that can hold only so many boxes.
//!
//! Every family of sets shares one registry, so that a push needs to ask only one question:
//! does the box that lands here overflow any set that this cell belongs to?

use vstd::prelude::*;
use vstd::string::StringExecFns;

use crate::bitplane::{cell_count, BitPlane};
use crate::grid::{lemma_pos, on_grid, pos, Cell};
use crate::text::{
    decimal, law_decimal_is_read_back, law_lines_end_at_line_feeds, lines, push_decimal,
};

verus! {

/// The family that a deadlock set comes from.
#[derive(Clone, Copy, Debug, PartialEq, Eq, Hash, Structural)]
pub enum DeadlockSetKind {
    /// A run of cells along a wall whose ends are closed.
    ClosedEdge,
    /// All that a box on some cell can be pushed to.
    GeneralClosed,
    /// Sets that control access to other cells.
    Controller,
    /// Sets of boxes that freeze each other.
    Freeze,
    /// Sets round the centre of a diagonal.
    DiagonalCenter,
    /// Sets found during a search.
    Dynamic,
}

/// A group of cells with the number of boxes that it can hold.
///
/// For closed-edge and general-closed sets the capacity is the number of goals in the set; other
/// families may have a lower one.
pub struct DeadlockSet {
    pub cells: Vec<(u8, u8)>,
    pub goal_count: u32,
    pub capacity: u32,
    pub kind: DeadlockSetKind,
}

/// What a deadlock set stands for.
pub ghost struct SetModel {
    pub cells: Seq<Cell>,
    pub goal_count: int,
    pub capacity: int,
    pub kind: DeadlockSetKind,
}

impl View for DeadlockSet {
    type V = SetModel;

    open spec fn view(&self) -> SetModel {
        SetModel {
            cells: self.cells@,
            goal_count: self.goal_count as int,
            capacity: self.capacity as int,
            kind: self.kind,
        }
    }
}

/// How many of the cells are at position `f`.
pub open spec fn hits(cells: Seq<Cell>, w: u8, f: int) -> nat
    decreases cells.len(),
{
    if cells.len() == 0 {
        0
    } else {
        hits(cells.drop_last(), w, f) + if pos(w, cells.last()) == f {
            1nat
        } else {
            0
        }
    }
}

/// How many of the cells have their bit set.
pub open spec fn count_set(cells: Seq<Cell>, w: u8, bits: Seq<bool>) -> nat
    decreases cells.len(),
{
    if cells.len() == 0 {
        0
    } else {
        count_set(cells.drop_last(), w, bits) + if bits[pos(w, cells.last())] {
            1nat
        } else {
            0
        }
    }
}

/// The index that is listed for set `i`: as many low bits of it as an index has.
pub open spec fn index_of_set(i: int) -> u32 {
    (i % 0x1_0000_0000) as u32
}

/// The indices of the sets with a cell at position `f`, one for each such cell.
pub open spec fn listing(sets: Seq<SetModel>, w: u8, f: int) -> Seq<u32>
    decreases sets.len(),
{
    if sets.len() == 0 {
        Seq::empty()
    } else {
        listing(sets.drop_last(), w, f) + Seq::new(
            hits(sets.last().cells, w, f),
            |i: int| index_of_set(sets.len() - 1),
        )
    }
}

/// Some set with a cell at the position of `c` holds more boxes than its capacity.
pub open spec fn overflows(sets: Seq<SetModel>, w: u8, boxes: Seq<bool>, c: Cell) -> bool {
    exists|i: int|
        0 <= i < sets.len() && hits((#[trigger] sets[i]).cells, w, pos(w, c)) > 0 && count_set(
            sets[i].cells,
            w,
            boxes,
        ) > sets[i].capacity
}

/// The largest of some numbers, 0 for none.
pub open spec fn largest(counts: Seq<int>) -> int
    decreases counts.len(),
{
    if counts.len() == 0 {
        0
    } else if counts.last() > largest(counts.drop_last()) {
        counts.last()
    } else {
        largest(counts.drop_last())
    }
}

/// The largest number that has a line of its own in a histogram.
pub open spec fn histogram_cap(counts: Seq<int>) -> int {
    if largest(counts) > 10 {
        10
    } else {
        largest(counts)
    }
}

/// How many of some numbers belong to line `i` of a histogram: those equal to `i`, or for the
/// line after `cap` those above it.
pub open spec fn bar(counts: Seq<int>, cap: int, i: int) -> nat
    decreases counts.len(),
{
    if counts.len() == 0 {
        0
    } else {
        let c = counts.last();
        bar(counts.drop_last(), cap, i) + if c == i && c <= cap || c > cap && i == cap + 1 {
            1nat
        } else {
            0
        }
    }
}

/// Line `i` of a histogram.
pub open spec fn bar_line(cap: int, i: int, n: nat) -> Seq<char> {
    let label = if i == cap + 1 {
        "    >"@ + decimal(cap as nat)
    } else {
        "    "@ + decimal(i as nat)
    };
    label + "  → "@ + decimal(n) + "\n"@
}

/// The first `n` lines of a histogram.
pub open spec fn histogram(counts: Seq<int>, cap: int, n: int) -> Seq<char>
    decreases n,
{
    if n <= 0 {
        Seq::empty()
    } else {
        histogram(counts, cap, n - 1) + bar_line(cap, n - 1, bar(counts, cap, n - 1))
    }
}

/// A report on a registry whose cells belong to `counts` sets.
pub open spec fn report(sets: int, counts: Seq<int>) -> Seq<char> {
    "deadlock sets: "@ + decimal(sets as nat) + "  |  max memberships per cell: "@ + decimal(
        largest(counts) as nat,
    ) + "\n  histogram (memberships → cell count):\n"@ + histogram(
        counts,
        histogram_cap(counts),
        histogram_cap(counts) + 2,
    )
}

/// Deadlock sets with an index by cell: `membership[flat]` lists the sets that the cell at
/// `flat` belongs to.
pub struct DeadlockSetRegistry {
    pub sets: Vec<DeadlockSet>,
    pub membership: Vec<Vec<u32>>,
    pub width: u8,
}

impl View for DeadlockSetRegistry {
    type V = Seq<SetModel>;

    open spec fn view(&self) -> Seq<SetModel> {
        Seq::new(self.sets@.len(), |i: int| self.sets@[i]@)
    }
}

/// Every cell is within `n` positions.
pub open spec fn cells_below(cells: Seq<Cell>, w: u8, n: int) -> bool {
    forall|i: int| 0 <= i < cells.len() ==> pos(w, #[trigger] cells[i]) < n
}

/// Append line `i` of a histogram.
fn push_bar(out: &mut String, cap: usize, i: usize, n: usize)
    requires
        cap <= 10,
    ensures
        final(out)@ == old(out)@ + bar_line(cap as int, i as int, n as nat),
{
    if i == cap + 1 {
        out.append("    >");
        push_decimal(out, cap as u64);
    } else {
        out.append("    ");
        push_decimal(out, i as u64);
    }
    out.append("  → ");
    push_decimal(out, n as u64);
    out.append("\n");
    assert(out@ =~= old(out)@ + bar_line(cap as int, i as int, n as nat));
}

impl DeadlockSetRegistry {
    /// Number of cells of the grid.
    pub open spec fn size(&self) -> int {
        self.membership@.len() as int
    }

    /// The index lists exactly the sets of each cell.
    pub open spec fn lists_all(&self) -> bool {
        &&& forall|f: int|
            0 <= f < self.size() ==> #[trigger] self.membership@[f]@ == listing(
                self@,
                self.width,
                f,
            )
        &&& forall|i: int|
            0 <= i < self@.len() ==> cells_below(
                (#[trigger] self@[i]).cells,
                self.width,
                self.size(),
            )
    }

    /// The index lists exactly the sets of each cell, and sets and cells can be counted.
    pub open spec fn wf(&self) -> bool {
        &&& self@.len() <= u32::MAX
        &&& self.lists_all()
        &&& forall|i: int| 0 <= i < self@.len() ==> (#[trigger] self@[i]).cells.len() <= u32::MAX
    }

    /// An empty registry for a `width` by `height` grid.
    pub fn new(width: u8, height: u8) -> (r: Self)
        ensures
            r.wf(),
            r@ == Seq::<SetModel>::empty(),
            r.width == width,
            r.size() == width * height,
    {
        let n = cell_count(width, height);
        let mut membership: Vec<Vec<u32>> = Vec::new();
        let mut i: usize = 0;
        while i < n
            invariant
                i <= n,
                membership@.len() == i,
                forall|f: int| 0 <= f < i ==> #[trigger] membership@[f]@ == Seq::<u32>::empty(),
            decreases n - i,
        {
            membership.push(Vec::new());
            i += 1;
        }
        let r = DeadlockSetRegistry { sets: Vec::new(), membership, width };
        assert(r@ =~= Seq::<SetModel>::empty());
        r
    }

    /// Append a set and index its cells. Gives the index of the set.
    pub fn add(&mut self, set: DeadlockSet) -> (idx: u32)
        requires
            old(self).lists_all(),
            cells_below(set.cells@, old(self).width, old(self).size()),
        ensures
            idx == index_of_set(old(self)@.len() as int),
            final(self)@ == old(self)@.push(set@),
            final(self).width == old(self).width,
            final(self).size() == old(self).size(),
            forall|f: int|
                0 <= f < final(self).size() ==> #[trigger] final(self).membership@[f]@ == old(
                    self,
                ).membership@[f]@ + Seq::new(
                    hits(set.cells@, old(self).width, f),
                    |i: int| idx,
                ),
            final(self).lists_all(),
            old(self).wf() && old(self)@.len() < u32::MAX && set.cells@.len() <= u32::MAX
                ==> final(self).wf() && idx == old(self)@.len(),
    {
        let ghost models = self@;
        let ghost w = self.width;
        let ghost cells = set.cells@;
        let n = self.sets.len() as u64;
        let idx = n as u32;
        assert(idx == n % 0x1_0000_0000) by (bit_vector)
            requires
                idx == n as u32,
        ;
        let mut k: usize = 0;
        assert(cells.take(0) =~= Seq::<Cell>::empty());
        while k < set.cells.len()
            invariant
                k <= set.cells@.len(),
                cells == set.cells@,
                w == self.width,
                self.width == old(self).width,
                self.sets@ == old(self).sets@,
                self.size() == old(self).size(),
                cells_below(cells, w, self.size()),
                models == old(self)@,
                forall|f: int|
                    0 <= f < self.size() ==> #[trigger] self.membership@[f]@ == listing(models, w, f)
                        + Seq::new(hits(cells.take(k as int), w, f), |i: int| idx),
            decreases set.cells@.len() - k,
        {
            let (x, y) = set.cells[k];
            let flat: usize = cell_count(y, self.width) + x as usize;
            assert(flat == pos(w, cells[k as int]));
            let ghost before = self.membership@;
            self.membership[flat].push(idx);
            proof {
                assert(cells.take(k + 1).drop_last() =~= cells.take(k as int));
                assert forall|f: int|
                    0 <= f < self.size() implies #[trigger] self.membership@[f]@ == listing(
                    models,
                    w,
                    f,
                ) + Seq::new(hits(cells.take(k + 1), w, f), |i: int| idx) by {
                    assert(before[f]@ == listing(models, w, f) + Seq::new(
                        hits(cells.take(k as int), w, f),
                        |i: int| idx,
                    ));
                    if f == flat {
                        assert(self.membership@[f]@ =~= listing(models, w, f) + Seq::new(
                            hits(cells.take(k + 1), w, f),
                            |i: int| idx,
                        ));
                    }
                }
            }
            k += 1;
        }
        let ghost model = set@;
        self.sets.push(set);
        proof {
            assert(cells.take(k as int) =~= cells);
            assert(self@ =~= models.push(model));
            assert(self@.drop_last() =~= models);
            assert forall|f: int| 0 <= f < self.size() implies #[trigger] self.membership@[f]@
                == listing(self@, self.width, f) by {
                assert(self.membership@[f]@ =~= listing(self@, w, f));
            }
            assert forall|i: int| 0 <= i < self@.len() implies cells_below(
                (#[trigger] self@[i]).cells,
                self.width,
                self.size(),
            ) && (i < models.len() ==> self@[i] == models[i]) by {
                if i < models.len() {
                    assert(self@[i] == models[i]);
                }
            }
        }
        idx
    }

    /// To how many sets each cell belongs.
    pub open spec fn memberships(&self) -> Seq<int> {
        Seq::new(self.membership@.len(), |f: int| listing(self@, self.width, f).len() as int)
    }

    /// A report on the sets: their number, the largest number of sets that a cell belongs to, and
    /// how many cells belong to how many sets.
    pub fn diagnostics(&self) -> (out: String)
        requires
            self.wf(),
        ensures
            out@ == report(self@.len() as int, self.memberships()),
    {
        let ghost counts = self.memberships();
        let mut max_count: usize = 0;
        let mut f: usize = 0;
        assert(counts.take(0) =~= Seq::<int>::empty());
        while f < self.membership.len()
            invariant
                self.wf(),
                f <= self.membership@.len(),
                counts == self.memberships(),
                max_count == largest(counts.take(f as int)),
            decreases self.membership@.len() - f,
        {
            let c = self.membership[f].len();
            proof {
                assert(self.membership@[f as int]@ == listing(self@, self.width, f as int));
                assert(counts.take(f + 1).drop_last() =~= counts.take(f as int));
            }
            if c > max_count {
                max_count = c;
            }
            f += 1;
        }
        assert(counts.take(f as int) =~= counts);
        let cap: usize = if max_count > 10 {
            10
        } else {
            max_count
        };
        let mut hist: Vec<usize> = vec![0; cap + 2];
        f = 0;
        while f < self.membership.len()
            invariant
                self.wf(),
                f <= self.membership@.len(),
                counts == self.memberships(),
                cap <= 10,
                hist@.len() == cap + 2,
                forall|i: int|
                    0 <= i < cap + 2 ==> #[trigger] hist@[i] == bar(
                        counts.take(f as int),
                        cap as int,
                        i,
                    ) && hist@[i] <= f,
            decreases self.membership@.len() - f,
        {
            let c = self.membership[f].len();
            proof {
                assert(self.membership@[f as int]@ == listing(self@, self.width, f as int));
                assert(counts.take(f + 1).drop_last() =~= counts.take(f as int));
            }
            let slot: usize = if c <= cap {
                c
            } else {
                cap + 1
            };
            hist[slot] = hist[slot] + 1;
            f += 1;
        }
        assert(counts.take(f as int) =~= counts);
        let mut out = String::new();
        out.append("deadlock sets: ");
        push_decimal(&mut out, self.sets.len() as u64);
        out.append("  |  max memberships per cell: ");
        push_decimal(&mut out, max_count as u64);
        out.append("\n  histogram (memberships → cell count):\n");
        let ghost head = out@;
        let mut i: usize = 0;
        assert(out@ =~= head + histogram(counts, cap as int, 0));
        while i < hist.len()
            invariant
                i <= hist@.len(),
                cap <= 10,
                hist@.len() == cap + 2,
                forall|j: int|
                    0 <= j < cap + 2 ==> #[trigger] hist@[j] == bar(counts, cap as int, j),
                out@ == head + histogram(counts, cap as int, i as int),
            decreases hist@.len() - i,
        {
            push_bar(&mut out, cap, i, hist[i]);
            i += 1;
            assert(out@ =~= head + histogram(counts, cap as int, i as int));
        }
        assert(out@ =~= report(self@.len() as int, counts));
        out
    }

    /// Whether some set that the cell `(x, y)` belongs to holds more boxes than its capacity.
    /// `boxes` already holds the box that was placed on the cell.
    pub fn has_overflow_deadlock(&self, x: u8, y: u8, boxes: &BitPlane) -> (r: bool)
        requires
            self.wf(),
            pos(self.width, (x, y)) < self.size(),
            boxes.width == self.width,
            self.size() <= boxes@.len(),
        ensures
            r == overflows(self@, self.width, boxes@, (x, y)),
    {
        let flat: usize = cell_count(y, self.width) + x as usize;
        let ghost f = flat as int;
        let ghost list = listing(self@, self.width, f);
        let mut k: usize = 0;
        proof {
            assert(self.membership@[f]@ == list);
            lemma_listing(self@, self.width, f);
        }
        while k < self.membership[flat].len()
            invariant
                self.wf(),
                f == flat,
                f == pos(self.width, (x, y)),
                f < self.size(),
                boxes.width == self.width,
                self.size() <= boxes@.len(),
                list == listing(self@, self.width, f),
                self.membership@[f]@ == list,
                k <= list.len(),
                forall|j: int|
                    0 <= j < list.len() ==> #[trigger] list[j] < self@.len() && hits(
                        self@[list[j] as int].cells,
                        self.width,
                        f,
                    ) > 0,
                forall|j: int|
                    0 <= j < k ==> count_set(
                        self@[#[trigger] list[j] as int].cells,
                        self.width,
                        boxes@,
                    ) <= self@[list[j] as int].capacity,
            decreases list.len() - k,
        {
            let idx = self.membership[flat][k];
            assert(list[k as int] == idx);
            let set = &self.sets[idx as usize];
            assert(self@[idx as int] == set@);
            let count = count_cells(&set.cells, boxes);
            if count > set.capacity {
                return true;
            }
            k += 1;
        }
        proof {
            assert forall|i: int|
                0 <= i < self@.len() && hits(
                    (#[trigger] self@[i]).cells,
                    self.width,
                    f,
                ) > 0 implies count_set(self@[i].cells, self.width, boxes@) <= self@[i].capacity by {
                lemma_listed(self@, self.width, f, i);
                let j = choose|j: int| 0 <= j < list.len() && list[j] == i;
                assert(self@[list[j] as int] == self@[i]);
            }
        }
        false
    }
}

/// The listed indices are those of sets with a cell at the position.
proof fn lemma_listing(sets: Seq<SetModel>, w: u8, f: int)
    requires
        sets.len() <= 0x1_0000_0000,
    ensures
        forall|j: int|
            0 <= j < listing(sets, w, f).len() ==> (#[trigger] listing(sets, w, f)[j]) < sets.len()
                && hits(sets[listing(sets, w, f)[j] as int].cells, w, f) > 0,
    decreases sets.len(),
{
    if sets.len() > 0 {
        lemma_listing(sets.drop_last(), w, f);
        let before = listing(sets.drop_last(), w, f);
        let all = listing(sets, w, f);
        assert forall|j: int| 0 <= j < all.len() implies (#[trigger] all[j]) < sets.len() && hits(
            sets[all[j] as int].cells,
            w,
            f,
        ) > 0 by {
            if j < before.len() {
                assert(all[j] == before[j]);
            }
        }
    }
}

/// Every set with a cell at the position is listed.
proof fn lemma_listed(sets: Seq<SetModel>, w: u8, f: int, i: int)
    requires
        sets.len() <= 0x1_0000_0000,
        0 <= i < sets.len(),
        hits(sets[i].cells, w, f) > 0,
    ensures
        exists|j: int| 0 <= j < listing(sets, w, f).len() && listing(sets, w, f)[j] == i,
    decreases sets.len(),
{
    let before = listing(sets.drop_last(), w, f);
    let all = listing(sets, w, f);
    if i == sets.len() - 1 {
        assert(all[before.len() as int] == i);
    } else {
        lemma_listed(sets.drop_last(), w, f, i);
        let j = choose|j: int| 0 <= j < before.len() && before[j] == i;
        assert(all[j] == i);
    }
}

/// Different cells are at different positions, so that a set lists each once.
pub proof fn law_set_lists_a_cell_once(w: u8, h: u8, cells: Seq<Cell>, c: Cell)
    requires
        on_grid(w, h, c),
        forall|i: int| 0 <= i < cells.len() ==> on_grid(w, h, #[trigger] cells[i]),
        forall|i: int, j: int| 0 <= i < j < cells.len() ==> cells[i] != cells[j],
    ensures
        hits(cells, w, pos(w, c)) == if cells.contains(c) {
            1nat
        } else {
            0
        },
    decreases cells.len(),
{
    if cells.len() > 0 {
        let less = cells.drop_last();
        let last = cells.last();
        assert forall|i: int| 0 <= i < less.len() implies on_grid(w, h, #[trigger] less[i]) by {
            assert(less[i] == cells[i]);
        }
        law_set_lists_a_cell_once(w, h, less, c);
        assert(on_grid(w, h, cells[cells.len() - 1]));
        lemma_pos(w, h, c);
        lemma_pos(w, h, last);
        assert(cells[cells.len() - 1] == last);
        if less.contains(c) {
            let i = choose|i: int| 0 <= i < less.len() && less[i] == c;
            assert(cells[i] == c);
            assert(cells[i] != cells[cells.len() - 1]);
        }
        if cells.contains(c) && c != last {
            let i = choose|i: int| 0 <= i < cells.len() && cells[i] == c;
            assert(less[i] == c);
        }
    }
}

/// The index of a cell lists the sets that the cell is in, and no others, in ascending order, each
/// once for every time that the set holds the cell. There may be as many sets as indices.
pub proof fn law_index_lists_the_sets(sets: Seq<SetModel>, w: u8, f: int)
    requires
        sets.len() <= 0x1_0000_0000,
    ensures
        forall|i: int|
            0 <= i < sets.len() && hits((#[trigger] sets[i]).cells, w, f) > 0 ==> listing(
                sets,
                w,
                f,
            ).contains(i as u32),
        forall|j: int|
            0 <= j < listing(sets, w, f).len() ==> (#[trigger] listing(sets, w, f)[j]) < sets.len()
                && hits(sets[listing(sets, w, f)[j] as int].cells, w, f) > 0,
        forall|i: int, j: int|
            0 <= i < j < listing(sets, w, f).len() ==> (#[trigger] listing(sets, w, f)[i]) <= (
            #[trigger] listing(sets, w, f)[j]),
{
    lemma_listing(sets, w, f);
    lemma_listing_ascends(sets, w, f);
    assert forall|i: int| 0 <= i < sets.len() && hits(
        (#[trigger] sets[i]).cells,
        w,
        f,
    ) > 0 implies listing(sets, w, f).contains(i as u32) by {
        lemma_listed(sets, w, f, i);
    }
}

proof fn lemma_listing_ascends(sets: Seq<SetModel>, w: u8, f: int)
    requires
        sets.len() <= 0x1_0000_0000,
    ensures
        forall|i: int, j: int|
            0 <= i < j < listing(sets, w, f).len() ==> (#[trigger] listing(sets, w, f)[i]) <= (
            #[trigger] listing(sets, w, f)[j]),
    decreases sets.len(),
{
    if sets.len() > 0 {
        let less = sets.drop_last();
        let before = listing(less, w, f);
        let all = listing(sets, w, f);
        lemma_listing_ascends(less, w, f);
        lemma_listing(less, w, f);
        assert forall|i: int, j: int| 0 <= i < j < all.len() implies (#[trigger] all[i]) <= (
        #[trigger] all[j]) by {
            if j < before.len() {
                assert(all[i] == before[i] && all[j] == before[j]);
            } else if i < before.len() {
                assert(all[i] == before[i]);
            }
        }
    }
}

/// How many of the cells a plane has set.
pub fn count_cells(cells: &Vec<(u8, u8)>, plane: &BitPlane) -> (r: u32)
    requires
        cells@.len() <= u32::MAX,
        cells_below(cells@, plane.width, plane@.len() as int),
    ensures
        r == count_set(cells@, plane.width, plane@),
        r <= cells@.len(),
{
    let mut r: u32 = 0;
    let mut k: usize = 0;
    assert(cells@.take(0) =~= Seq::<Cell>::empty());
    while k < cells.len()
        invariant
            k <= cells@.len() <= u32::MAX,
            cells_below(cells@, plane.width, plane@.len() as int),
            r == count_set(cells@.take(k as int), plane.width, plane@),
            r <= k,
        decreases cells@.len() - k,
    {
        let (x, y) = cells[k];
        assert(pos(plane.width, cells@[k as int]) < plane@.len());
        assert(cells@.take(k + 1).drop_last() =~= cells@.take(k as int));
        if plane.get(x, y) {
            r += 1;
        }
        k += 1;
    }
    assert(cells@.take(k as int) =~= cells@);
    r
}

/// Cells are counted one by one: the count of a list is that of its parts, and a cell alone counts
/// if its bit is set.
pub proof fn law_cells_are_counted_one_by_one(a: Seq<Cell>, b: Seq<Cell>, w: u8, bits: Seq<bool>)
    ensures
        count_set(a + b, w, bits) == count_set(a, w, bits) + count_set(b, w, bits),
        a.len() == 1 ==> count_set(a, w, bits) == if bits[a[0].1 * w + a[0].0] {
            1nat
        } else {
            0
        },
        a.len() == 0 ==> count_set(a, w, bits) == 0,
    decreases b.len(),
{
    if b.len() == 0 {
        assert(a + b =~= a);
    } else {
        law_cells_are_counted_one_by_one(a, b.drop_last(), w, bits);
        assert((a + b).drop_last() =~= a + b.drop_last());
    }
    if a.len() == 1 {
        assert(a.drop_last().len() == 0);
        assert(count_set(a.drop_last(), w, bits) == 0);
    }
}

/// The largest number is one of the numbers, and none is larger.
pub proof fn law_largest_is_the_maximum(counts: Seq<int>)
    requires
        counts.len() > 0,
        forall|i: int| 0 <= i < counts.len() ==> 0 <= #[trigger] counts[i],
    ensures
        counts.contains(largest(counts)),
        forall|i: int| 0 <= i < counts.len() ==> #[trigger] counts[i] <= largest(counts),
        histogram_cap(counts) <= 10,
        histogram_cap(counts) == largest(counts) || histogram_cap(counts) == 10 < largest(counts),
    decreases counts.len(),
{
    let less = counts.drop_last();
    assert(counts[counts.len() - 1] >= 0);
    if less.len() > 0 {
        assert forall|i: int| 0 <= i < less.len() implies 0 <= #[trigger] less[i] by {
            assert(less[i] == counts[i]);
        }
        law_largest_is_the_maximum(less);
        assert forall|i: int| 0 <= i < counts.len() implies #[trigger] counts[i] <= largest(
            counts,
        ) by {
            if i < less.len() {
                assert(less[i] == counts[i]);
            }
        }
        if counts.last() <= largest(less) {
            let i = choose|i: int| 0 <= i < less.len() && less[i] == largest(less);
            assert(counts[i] == largest(counts));
        } else {
            assert(counts[counts.len() - 1] == largest(counts));
        }
    } else {
        assert(largest(less) == 0);
        assert(counts[0] == largest(counts));
    }
}

/// Every number counts in the bar of its own, or in the last one if it is above the cap, and in no
/// other.
pub proof fn law_every_number_is_in_one_bar(counts: Seq<int>, cap: int, c: int, i: int)
    requires
        0 <= cap,
        0 <= c,
        0 <= i <= cap + 1,
    ensures
        bar(counts.push(c), cap, i) == bar(counts, cap, i) + if i == (if c <= cap {
            c
        } else {
            cap + 1
        }) {
            1nat
        } else {
            0
        },
        bar(Seq::empty(), cap, i) == 0,
{
    assert(counts.push(c).drop_last() =~= counts);
}

/// A number in decimal is part of a line.
proof fn lemma_plain_number(n: nat)
    ensures
        decimal(n).len() > 0,
        forall|k: int|
            0 <= k < decimal(n).len() ==> #[trigger] decimal(n)[k] != '\n' && decimal(n)[k] != '\r',
{
    law_decimal_is_read_back(n);
    assert forall|k: int| 0 <= k < decimal(n).len() implies #[trigger] decimal(n)[k] != '\n'
        && decimal(n)[k] != '\r' by {
        assert('0' <= decimal(n)[k] <= '9');
    }
}

/// The line of a bar.
spec fn bar_text(counts: Seq<int>, cap: int, i: int) -> Seq<char> {
    "    "@ + (if i <= cap {
        decimal(i as nat)
    } else {
        ">"@ + decimal(cap as nat)
    }) + "  → "@ + decimal(bar(counts, cap, i))
}

proof fn lemma_bar_text(counts: Seq<int>, cap: int, i: int)
    requires
        0 <= i <= cap + 1,
    ensures
        bar_line(cap, i, bar(counts, cap, i)) == bar_text(counts, cap, i) + seq!['\n'],
        !bar_text(counts, cap, i).contains('\n'),
        bar_text(counts, cap, i).len() > 0,
        bar_text(counts, cap, i).last() != '\r',
{
    reveal_strlit("    ");
    reveal_strlit("    >");
    reveal_strlit(">");
    reveal_strlit("  → ");
    reveal_strlit("\n");
    let n = bar(counts, cap, i);
    lemma_plain_number(i as nat);
    lemma_plain_number(cap as nat);
    lemma_plain_number(n);
    assert("\n"@ =~= seq!['\n']);
    assert("    >"@ =~= "    "@ + ">"@);
    let t = bar_text(counts, cap, i);
    assert(bar_line(cap, i, n) =~= t + seq!['\n']);
    assert(t.last() == decimal(n).last());
    let label = if i <= cap {
        decimal(i as nat)
    } else {
        ">"@ + decimal(cap as nat)
    };
    assert forall|k: int| 0 <= k < label.len() implies #[trigger] label[k] != '\n' by {
        if i > cap && k > 0 {
            assert(label[k] == decimal(cap as nat)[k - 1]);
        }
    }
    assert forall|k: int| 0 <= k < t.len() implies #[trigger] t[k] != '\n' by {
        if k < 4 {
            assert(t[k] == "    "@[k]);
        } else if k < 4 + label.len() {
            assert(t[k] == label[k - 4]);
        } else if k < 8 + label.len() {
            assert(t[k] == "  → "@[k - 4 - label.len()]);
        } else {
            assert(t[k] == decimal(n)[k - 8 - label.len()]);
        }
    }
}

proof fn lemma_bar_lines(counts: Seq<int>, cap: int, n: int, rest: Seq<char>)
    requires
        0 <= n <= cap + 2,
    ensures
        lines(histogram(counts, cap, n) + rest) == Seq::new(
            n as nat,
            |i: int| bar_text(counts, cap, i),
        ) + lines(rest),
    decreases n,
{
    let texts = Seq::new(n as nat, |i: int| bar_text(counts, cap, i));
    if n > 0 {
        let t = bar_text(counts, cap, n - 1);
        let more = t + seq!['\n'] + rest;
        lemma_bar_text(counts, cap, n - 1);
        lemma_bar_lines(counts, cap, n - 1, more);
        law_lines_end_at_line_feeds(t, rest);
        assert(histogram(counts, cap, n) + rest =~= histogram(counts, cap, n - 1) + more);
        assert(texts =~= Seq::new((n - 1) as nat, |i: int| bar_text(counts, cap, i)).push(t));
        assert(texts + lines(rest) =~= Seq::new(
            (n - 1) as nat,
            |i: int| bar_text(counts, cap, i),
        ) + (seq![t] + lines(rest)));
    } else {
        assert(histogram(counts, cap, n) + rest =~= rest);
        assert(texts + lines(rest) =~= lines(rest));
    }
}

/// The report has two lines and then a bar for each number up to the cap, and one for those above.
pub proof fn law_report_has_a_line_for_each_bar(sets: int, counts: Seq<int>, i: int)
    requires
        0 <= i <= histogram_cap(counts) + 1,
    ensures
        ({
            let cap = histogram_cap(counts);
            let rows = lines(report(sets, counts));
            &&& rows.len() == cap + 4
            &&& rows[0] == "deadlock sets: "@ + decimal(sets as nat)
                + "  |  max memberships per cell: "@ + decimal(largest(counts) as nat)
            &&& rows[1] == "  histogram (memberships → cell count):"@
            &&& rows[i + 2] == "    "@ + (if i <= cap {
                decimal(i as nat)
            } else {
                ">"@ + decimal(cap as nat)
            }) + "  → "@ + decimal(bar(counts, cap, i))
        }),
{
    let cap = histogram_cap(counts);
    let first = report_head(sets, counts);
    let second = "  histogram (memberships → cell count):"@;
    let bars = histogram(counts, cap, cap + 2);
    lemma_report_head(sets, counts);
    law_lines_end_at_line_feeds(first, second + seq!['\n'] + bars);
    law_lines_end_at_line_feeds(second, bars);
    lemma_bar_lines(counts, cap, cap + 2, Seq::empty());
    assert(bars + Seq::<char>::empty() =~= bars);
    assert(lines(Seq::<char>::empty()) =~= Seq::<Seq<char>>::empty());
    let texts = Seq::new((cap + 2) as nat, |k: int| bar_text(counts, cap, k));
    assert(lines(report(sets, counts)) == seq![first] + (seq![second] + (texts + lines(
        Seq::<char>::empty(),
    ))));
}

spec fn report_head(sets: int, counts: Seq<int>) -> Seq<char> {
    "deadlock sets: "@ + decimal(sets as nat) + "  |  max memberships per cell: "@ + decimal(
        largest(counts) as nat,
    )
}

proof fn lemma_report_head(sets: int, counts: Seq<int>)
    ensures
        ({
            let first = report_head(sets, counts);
            let second = "  histogram (memberships → cell count):"@;
            let bars = histogram(counts, histogram_cap(counts), histogram_cap(counts) + 2);
            &&& !first.contains('\n') && first.len() > 0 && first.last() != '\r'
            &&& !second.contains('\n') && second.len() > 0 && second.last() != '\r'
            &&& report(sets, counts) == first + seq!['\n'] + (second + seq!['\n'] + bars)
        }),
{
    let (a, b) = (decimal(sets as nat), decimal(largest(counts) as nat));
    let (p, q) = ("deadlock sets: "@, "  |  max memberships per cell: "@);
    let first = report_head(sets, counts);
    let second = "  histogram (memberships → cell count):"@;
    reveal_strlit("deadlock sets: ");
    reveal_strlit("  |  max memberships per cell: ");
    reveal_strlit("  histogram (memberships → cell count):");
    reveal_strlit("\n  histogram (memberships → cell count):\n");
    lemma_plain_number(sets as nat);
    lemma_plain_number(largest(counts) as nat);
    let bars = histogram(counts, histogram_cap(counts), histogram_cap(counts) + 2);
    assert("\n  histogram (memberships → cell count):\n"@ =~= seq!['\n'] + second + seq!['\n']);
    assert(report(sets, counts) =~= first + seq!['\n'] + (second + seq!['\n'] + bars));
    assert forall|k: int| 0 <= k < first.len() implies #[trigger] first[k] != '\n' by {
        if k < p.len() {
            assert(first[k] == p[k]);
        } else if k < p.len() + a.len() {
            assert(first[k] == a[k - p.len()]);
        } else if k < p.len() + a.len() + q.len() {
            assert(first[k] == q[k - p.len() - a.len()]);
        } else {
            assert(first[k] == b[k - p.len() - a.len() - q.len()]);
        }
    }
    assert(first.last() == b.last());
}

} // verus!
