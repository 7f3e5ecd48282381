//! The nodes of the search that wait to be expanded, in a binary heap.

use vstd::prelude::*;

use crate::moves::Push;
use crate::pushes::State;

verus! {

/// `slice::swap` exchanges two elements of a slice.
pub assume_specification<T>[ <[T]>::swap ](s: &mut [T], a: usize, b: usize)
    requires
        a < old(s)@.len(),
        b < old(s)@.len(),
    ensures
        final(s)@ == old(s)@.update(a as int, old(s)@[b as int]).update(
            b as int,
            old(s)@[a as int],
        ),
;

/// A node of the search: a state, how it was reached, and the estimate of the whole cost.
pub struct Node {
    pub f: u64,
    pub cost: u64,
    pub state: State,
    pub path: Vec<Push>,
}

/// What a node stands for.
pub ghost struct NodeModel {
    pub f: int,
    pub cost: int,
    pub boxes: Seq<bool>,
    pub player: int,
    pub path: Seq<Push>,
}

impl View for Node {
    type V = NodeModel;

    open spec fn view(&self) -> NodeModel {
        NodeModel {
            f: self.f as int,
            cost: self.cost as int,
            boxes: self.state.boxes@,
            player: self.state.player_norm as int,
            path: self.path@,
        }
    }
}

/// The nodes that wait to be expanded, in a binary heap.
pub struct Frontier {
    pub items: Vec<Node>,
}

/// The parent of a position in a heap.
pub open spec fn parent(i: int) -> int {
    (i - 1) / 2
}

/// What the items of a heap stand for.
pub open spec fn models(items: Seq<Node>) -> Seq<NodeModel> {
    Seq::new(items.len(), |i: int| items[i]@)
}

/// All items satisfy `p`.
pub open spec fn all_items(items: Seq<Node>, p: spec_fn(Node) -> bool) -> bool {
    forall|i: int| 0 <= i < items.len() ==> p(#[trigger] items[i])
}

/// What all items of `a` satisfy, all items of `b` satisfy.
pub open spec fn carries_over(a: Seq<Node>, b: Seq<Node>) -> bool {
    forall|p: spec_fn(Node) -> bool| all_items(a, p) ==> #[trigger] all_items(b, p)
}

/// Two items exchanged.
pub open spec fn swapped(s: Seq<NodeModel>, i: int, j: int) -> Seq<NodeModel> {
    s.update(i, s[j]).update(j, s[i])
}

/// The heap after the item at `p` has moved up to where it does not come before its parent.
pub open spec fn raised(s: Seq<NodeModel>, p: int) -> Seq<NodeModel>
    decreases p,
{
    if 0 < p < s.len() && s[p].f < s[parent(p)].f {
        raised(swapped(s, p, parent(p)), parent(p))
    } else {
        s
    }
}

/// The heap with one more node.
pub open spec fn inserted(s: Seq<NodeModel>, n: NodeModel) -> Seq<NodeModel> {
    raised(s.push(n), s.len() as int)
}

/// The child of an item that comes first, the second of two that come at once.
pub open spec fn lesser_of(s: Seq<NodeModel>, p: int) -> int {
    if 2 * p + 2 < s.len() && s[2 * p + 1].f >= s[2 * p + 2].f {
        2 * p + 2
    } else {
        2 * p + 1
    }
}

/// The heap after the item at `p` has moved down to the bottom, past the lesser children, and up
/// again from there.
pub open spec fn lowered(s: Seq<NodeModel>, p: int) -> Seq<NodeModel>
    decreases s.len() - p,
{
    if 0 <= p && 2 * p + 1 < s.len() {
        lowered(swapped(s, p, lesser_of(s, p)), lesser_of(s, p))
    } else {
        raised(s, p)
    }
}

/// The heap without its first node: the last takes its place and moves down.
pub open spec fn without_first(s: Seq<NodeModel>) -> Seq<NodeModel> {
    if s.len() <= 1 {
        Seq::empty()
    } else {
        lowered(s.update(0, s.last()).drop_last(), 0)
    }
}

/// No item comes before its parent.
pub open spec fn is_heap(s: Seq<NodeModel>) -> bool {
    forall|i: int| 0 < i < s.len() ==> s[parent(i)].f <= (#[trigger] s[i]).f
}

/// A heap but for the item at `p`, which may come before its parent.
spec fn heap_above(s: Seq<NodeModel>, p: int) -> bool {
    &&& forall|i: int| 0 < i < s.len() && i != p ==> s[parent(i)].f <= (#[trigger] s[i]).f
    &&& forall|i: int|
        0 < i < s.len() && p > 0 && parent(i) == p ==> s[parent(p)].f <= (#[trigger] s[i]).f
}

/// A heap but for the item at `p`, which may come anywhere.
spec fn heap_but(s: Seq<NodeModel>, p: int) -> bool {
    &&& forall|i: int|
        0 < i < s.len() && i != p && parent(i) != p ==> s[parent(i)].f <= (#[trigger] s[i]).f
    &&& forall|i: int|
        0 < i < s.len() && p > 0 && parent(i) == p ==> s[parent(p)].f <= (#[trigger] s[i]).f
}

proof fn lemma_swapped(s: Seq<NodeModel>, i: int, j: int)
    requires
        0 <= i < s.len(),
        0 <= j < s.len(),
    ensures
        swapped(s, i, j).to_multiset() == s.to_multiset(),
        swapped(s, i, j).len() == s.len(),
{
    broadcast use vstd::seq_lib::group_to_multiset_ensures;

    vstd::seq_lib::to_multiset_update(s, i, s[j]);
    vstd::seq_lib::to_multiset_update(s.update(i, s[j]), j, s[i]);
    if i != j {
        assert(s.update(i, s[j])[j] == s[j]);
        assert(swapped(s, i, j).to_multiset() =~= s.to_multiset());
    } else {
        assert(swapped(s, i, j) =~= s);
    }
}

/// An item that comes before its parent changes places with it.
proof fn lemma_up_step(s: Seq<NodeModel>, p: int)
    requires
        0 < p < s.len(),
        heap_above(s, p),
        s[p].f < s[parent(p)].f,
    ensures
        heap_above(swapped(s, p, parent(p)), parent(p)),
{
    let q = parent(p);
    let t = swapped(s, p, q);
    assert forall|i: int| 0 < i < t.len() && i != q implies t[parent(i)].f <= (#[trigger] t[i]).f by {
        if i == p {
        } else if parent(i) == q {
            assert(s[q].f <= s[i].f);
        } else if parent(i) == p {
            assert(s[parent(p)].f <= s[i].f);
        } else {
            assert(s[parent(i)].f <= s[i].f);
        }
    }
    assert forall|i: int| 0 < i < t.len() && q > 0 && parent(i) == q implies t[parent(q)].f <= (
    #[trigger] t[i]).f by {
        assert(s[parent(q)].f <= s[q].f);
        if i != p {
            assert(s[q].f <= s[i].f);
        }
    }
}

/// An item changes places with the lesser of its children.
proof fn lemma_down_step(s: Seq<NodeModel>, p: int, child: int)
    requires
        0 <= p < child < s.len(),
        parent(child) == p,
        heap_but(s, p),
        forall|i: int| 0 < i < s.len() && parent(i) == p ==> s[child].f <= (#[trigger] s[i]).f,
    ensures
        heap_but(swapped(s, p, child), child),
{
    let t = swapped(s, p, child);
    assert forall|i: int| 0 < i < t.len() && i != child && parent(i) != child implies t[parent(
        i,
    )].f <= (#[trigger] t[i]).f by {
        if i == p {
            assert(s[parent(p)].f <= s[child].f);
        } else if parent(i) == p {
            assert(s[child].f <= s[i].f);
        } else {
            assert(s[parent(i)].f <= s[i].f);
        }
    }
    assert forall|i: int| 0 < i < t.len() && parent(i) == child implies t[parent(child)].f <= (
    #[trigger] t[i]).f by {
        assert(s[parent(i)].f <= s[i].f);
    }
}

/// The first item of a heap is the least.
pub proof fn lemma_root_is_least(s: Seq<NodeModel>, i: int)
    requires
        is_heap(s),
        0 <= i < s.len(),
    ensures
        s[0].f <= s[i].f,
    decreases i,
{
    if i > 0 {
        lemma_root_is_least(s, parent(i));
        assert(s[parent(i)].f <= s[i].f);
    }
}

/// Moving an item up where only it comes before its parent makes a heap of the same items.
proof fn lemma_raised(s: Seq<NodeModel>, p: int)
    requires
        0 <= p < s.len(),
        heap_above(s, p),
    ensures
        is_heap(raised(s, p)),
        raised(s, p).to_multiset() == s.to_multiset(),
    decreases p,
{
    if 0 < p && s[p].f < s[parent(p)].f {
        lemma_up_step(s, p);
        lemma_swapped(s, p, parent(p));
        lemma_raised(swapped(s, p, parent(p)), parent(p));
    } else {
        assert forall|i: int| 0 < i < s.len() implies s[parent(i)].f <= (#[trigger] s[i]).f by {
            if i == p {
            }
        }
    }
}

/// A heap with one more node is a heap of the nodes.
pub proof fn lemma_inserted(s: Seq<NodeModel>, n: NodeModel)
    requires
        is_heap(s),
    ensures
        is_heap(inserted(s, n)),
        inserted(s, n).to_multiset() == s.to_multiset().insert(n),
{
    let t = s.push(n);
    vstd::seq_lib::to_multiset_build(s, n);
    assert forall|i: int| 0 < i < t.len() && i != s.len() implies t[parent(i)].f <= (
    #[trigger] t[i]).f by {
        assert(s[parent(i)].f <= s[i].f);
    }
    lemma_raised(t, s.len() as int);
}

proof fn lemma_lesser(s: Seq<NodeModel>, p: int)
    requires
        0 <= p,
        2 * p + 1 < s.len(),
    ensures
        p < lesser_of(s, p) < s.len(),
        parent(lesser_of(s, p)) == p,
        forall|i: int|
            0 < i < s.len() && parent(i) == p ==> s[lesser_of(s, p)].f <= (#[trigger] s[i]).f,
{
    assert forall|i: int| 0 < i < s.len() && parent(i) == p implies s[lesser_of(s, p)].f <= (
    #[trigger] s[i]).f by {
        assert(i == 2 * p + 1 || i == 2 * p + 2);
    }
}

/// Moving an item down and up where only it is out of place makes a heap of the same items.
proof fn lemma_lowered(s: Seq<NodeModel>, p: int)
    requires
        0 <= p < s.len(),
        heap_but(s, p),
    ensures
        is_heap(lowered(s, p)),
        lowered(s, p).to_multiset() == s.to_multiset(),
    decreases s.len() - p,
{
    if 2 * p + 1 < s.len() {
        let child = lesser_of(s, p);
        lemma_lesser(s, p);
        lemma_down_step(s, p, child);
        lemma_swapped(s, p, child);
        lemma_lowered(swapped(s, p, child), child);
    } else {
        assert forall|i: int| 0 < i < s.len() && i != p implies s[parent(i)].f <= (
        #[trigger] s[i]).f by {
            assert(parent(i) != p);
        }
        lemma_raised(s, p);
    }
}

/// A heap without its first node is a heap of the other nodes.
pub proof fn lemma_without_first(s: Seq<NodeModel>)
    requires
        is_heap(s),
        s.len() > 0,
    ensures
        is_heap(without_first(s)),
        without_first(s).to_multiset() == s.to_multiset().remove(s[0]),
        s.to_multiset().count(s[0]) > 0,
{
    let t = s.update(0, s.last()).drop_last();
    lemma_first_out(s);
    if s.len() > 1 {
        assert forall|i: int|
            0 < i < t.len() && i != 0 && parent(i) != 0 implies t[parent(i)].f <= (
        #[trigger] t[i]).f by {
            assert(s[parent(i)].f <= s[i].f);
        }
        lemma_lowered(t, 0);
    } else {
        assert(t =~= Seq::<NodeModel>::empty());
    }
}

/// Which nodes a heap with one more node holds.
pub proof fn lemma_inserted_holds(s: Seq<NodeModel>, n: NodeModel, m: NodeModel)
    requires
        is_heap(s),
    ensures
        inserted(s, n).contains(m) <==> m == n || s.contains(m),
{
    lemma_inserted(s, n);
    vstd::seq_lib::to_multiset_contains(inserted(s, n), m);
    vstd::seq_lib::to_multiset_contains(s, m);
}

/// Which nodes a heap without its first node holds.
pub proof fn lemma_without_first_holds(s: Seq<NodeModel>, m: NodeModel)
    requires
        is_heap(s),
        s.len() > 0,
    ensures
        without_first(s).contains(m) ==> s.contains(m),
        s.contains(m) && m != s[0] ==> without_first(s).contains(m),
{
    lemma_without_first(s);
    vstd::seq_lib::to_multiset_contains(without_first(s), m);
    vstd::seq_lib::to_multiset_contains(s, m);
}

impl View for Frontier {
    type V = Seq<NodeModel>;

    open spec fn view(&self) -> Seq<NodeModel> {
        models(self.items@)
    }
}

impl Frontier {
    /// No nodes.
    pub fn new() -> (r: Self)
        ensures
            r@ == Seq::<NodeModel>::empty(),
            r.items@.len() == 0,
    {
        let r = Frontier { items: Vec::new() };
        assert(r@ =~= Seq::<NodeModel>::empty());
        r
    }

    fn swap(&mut self, i: usize, j: usize)
        requires
            i < old(self).items@.len(),
            j < old(self).items@.len(),
        ensures
            final(self)@ == swapped(old(self)@, i as int, j as int),
            final(self).items@.len() == old(self).items@.len(),
            carries_over(old(self).items@, final(self).items@),
    {
        self.items.as_mut_slice().swap(i, j);
        assert(self@ =~= swapped(old(self)@, i as int, j as int));
        assert forall|p: spec_fn(Node) -> bool| all_items(
            old(self).items@,
            p,
        ) implies #[trigger] all_items(self.items@, p) by {}
    }

    /// Move an item up to where it does not come before its parent.
    fn sift_up(&mut self, start: usize)
        requires
            start < old(self).items@.len(),
        ensures
            final(self)@ == raised(old(self)@, start as int),
            carries_over(old(self).items@, final(self).items@),
    {
        let mut p = start;
        while p > 0 && self.items[p].f < self.items[(p - 1) / 2].f
            invariant
                p < self.items@.len(),
                raised(self@, p as int) == raised(old(self)@, start as int),
                carries_over(old(self).items@, self.items@),
            decreases p,
        {
            let q: usize = (p - 1) / 2;
            assert(q == parent(p as int));
            self.swap(p, q);
            p = q;
        }
        assert(p > 0 ==> self@[parent(p as int)] == self.items@[(p - 1) / 2]@);
    }

    /// Add a node.
    pub fn push(&mut self, node: Node)
        ensures
            final(self)@ == inserted(old(self)@, node@),
            forall|p: spec_fn(Node) -> bool|
                all_items(old(self).items@, p) && p(node) ==> #[trigger] all_items(
                    final(self).items@,
                    p,
                ),
    {
        let last = self.items.len();
        self.items.push(node);
        assert(self@ =~= old(self)@.push(node@));
        self.sift_up(last);
    }

    /// The child of an item that comes first, the second of two that come at once.
    fn lesser_child(&self, p: usize) -> (child: usize)
        requires
            p < self.items@.len() / 2,
        ensures
            p < child < self.items@.len(),
            child == lesser_of(self@, p as int),
    {
        let end = self.items.len();
        let mut child: usize = 2 * p + 1;
        if child + 1 < end && self.items[child].f >= self.items[child + 1].f {
            child += 1;
        }
        child
    }

    /// Move the first item down to the bottom, past the lesser children, and up again from there.
    fn sift_down(&mut self)
        requires
            old(self).items@.len() > 0,
        ensures
            final(self)@ == lowered(old(self)@, 0),
            carries_over(old(self).items@, final(self).items@),
    {
        let end = self.items.len();
        let mut p: usize = 0;
        while p < end / 2
            invariant
                end == self.items@.len(),
                end > 0,
                p < end,
                lowered(self@, p as int) == lowered(old(self)@, 0),
                carries_over(old(self).items@, self.items@),
            decreases end - p,
        {
            let child = self.lesser_child(p);
            self.swap(p, child);
            p = child;
        }
        self.sift_up(p);
    }

    /// Take the first node, which has the least estimate.
    pub fn pop(&mut self) -> (r: Option<Node>)
        ensures
            carries_over(old(self).items@, final(self).items@),
            r matches Some(node) ==> exists|i: int|
                0 <= i < old(self).items@.len() && #[trigger] old(self).items@[i] == node,
            match r {
                Some(node) => {
                    &&& old(self)@.len() > 0
                    &&& node@ == old(self)@[0]
                    &&& final(self)@ == without_first(old(self)@)
                },
                None => old(self)@.len() == 0 && final(self)@ == old(self)@,
            },
    {
        if self.items.len() == 0 {
            return None;
        }
        let ghost before = self@;
        let node = self.items.swap_remove(0);
        proof {
            assert(node@ == before[0]);
            assert(self@ =~= before.update(0, before.last()).drop_last());
        }
        if self.items.len() > 0 {
            self.sift_down();
        } else {
            assert(self@ =~= Seq::<NodeModel>::empty());
        }
        Some(node)
    }
}

/// The items that are left when the first is taken out and the last put in its place.
proof fn lemma_first_out(s: Seq<NodeModel>)
    requires
        s.len() > 0,
    ensures
        s.update(0, s.last()).drop_last().to_multiset() == s.to_multiset().remove(s[0]),
        s.to_multiset().count(s[0]) > 0,
{
    let t = s.update(0, s.last());
    vstd::seq_lib::to_multiset_update(s, 0, s.last());
    vstd::seq_lib::to_multiset_remove(t, t.len() - 1);
    vstd::seq_lib::to_multiset_contains(s, s[0]);
    assert(s.contains(s[0]));
    assert(t.remove(t.len() - 1) =~= t.drop_last());
    let ms = s.to_multiset();
    assert(ms.insert(s.last()).remove(s[0]).remove(s.last()) =~= ms.remove(s[0])) by {
        broadcast use vstd::multiset::group_multiset_axioms;

    }
}

} // verus!
