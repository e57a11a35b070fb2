//! A max-heap kept in a vector: each element orders at or after its children.
use vstd::prelude::*;
use vstd::seq_lib::group_to_multiset_ensures;

use crate::order::{is_total_order, less, lemma_total_order, lt};

verus! {

broadcast use group_to_multiset_ensures;

/// A priority queue whose largest element comes out first.
pub struct BinaryHeap<T: Ord> {
    values: Vec<T>,
}

/// Where a walk over the heap's tree arrived at a position from.
#[derive(Clone, Copy)]
enum TraverseFrom {
    Parent,
    Left,
    Right,
}

/// The elements of a heap, each position before its left subtree and that
/// before its right subtree.
pub struct Iter<'a, T: Ord> {
    heap: &'a BinaryHeap<T>,
    index: Option<usize>,
    flag: TraverseFrom,
}

/// Relies on `<[T]>::swap`: exchanges the elements at `i` and `j`.
#[verifier::external_body]
fn swap_at<T>(v: &mut Vec<T>, i: usize, j: usize)
    requires
        i < old(v)@.len(),
        j < old(v)@.len(),
    ensures
        final(v)@ == old(v)@.update(i as int, old(v)@[j as int]).update(j as int, old(v)@[i as int]),
{
    v.swap(i, j)
}

pub open spec fn parent_of(i: int) -> int {
    (i - 1) / 2
}

/// The positions of the subtree at `i` in a heap of `n` elements: `i`, then
/// its left subtree, then its right subtree.
pub open spec fn preorder(i: int, n: int) -> Seq<int>
    decreases (if i < n {
        n - i
    } else {
        0
    }),
{
    if i < 0 || i >= n {
        Seq::empty()
    } else {
        seq![i] + preorder(2 * i + 1, n) + preorder(2 * i + 2, n)
    }
}

/// The positions that a walk in `preorder` from the root visits after the
/// whole subtree at `i`.
pub open spec fn after_subtree(i: int, n: int) -> Seq<int>
    decreases i,
{
    if i <= 0 {
        Seq::empty()
    } else if i % 2 == 1 {
        preorder(i + 1, n) + after_subtree(parent_of(i), n)
    } else {
        after_subtree(parent_of(i), n)
    }
}

/// The positions still to visit after position `i` was reached from `flag`'s side.
spec fn after_visit(i: int, n: int, flag: TraverseFrom) -> Seq<int> {
    match flag {
        TraverseFrom::Parent => preorder(2 * i + 1, n) + preorder(2 * i + 2, n) + after_subtree(i, n),
        TraverseFrom::Left => preorder(2 * i + 2, n) + after_subtree(i, n),
        TraverseFrom::Right => after_subtree(i, n),
    }
}

/// Position `k` lies in the subtree at position `i`.
pub open spec fn in_subtree(i: int, k: int) -> bool
    decreases k,
{
    if k <= 0 {
        k == i
    } else {
        k == i || (k > i && in_subtree(i, parent_of(k)))
    }
}

proof fn lemma_in_subtree_at_least(i: int, k: int)
    requires
        in_subtree(i, k),
    ensures
        k >= i,
    decreases k,
{
    if k > 0 && k != i {
        lemma_in_subtree_at_least(i, parent_of(k));
    }
}

/// What lies under a child lies under its parent.
proof fn lemma_in_subtree_of_child(i: int, c: int, k: int)
    requires
        0 <= i,
        c == 2 * i + 1 || c == 2 * i + 2,
        in_subtree(c, k),
    ensures
        in_subtree(i, k),
    decreases k,
{
    lemma_in_subtree_at_least(c, k);
    if k != c {
        lemma_in_subtree_of_child(i, c, parent_of(k));
    } else {
        assert(parent_of(k) == i);
        assert(in_subtree(i, i));
    }
}

/// What lies strictly under `i` lies under one of its children.
proof fn lemma_in_subtree_via_child(i: int, k: int)
    requires
        0 <= i,
        in_subtree(i, k),
        k != i,
    ensures
        in_subtree(2 * i + 1, k) || in_subtree(2 * i + 2, k),
    decreases k,
{
    lemma_in_subtree_at_least(i, k);
    let p = parent_of(k);
    if p == i {
        assert(k == 2 * i + 1 || k == 2 * i + 2);
    } else {
        lemma_in_subtree_via_child(i, p);
        assert(k > p);
        if in_subtree(2 * i + 1, p) {
            lemma_in_subtree_at_least(2 * i + 1, p);
        } else {
            lemma_in_subtree_at_least(2 * i + 2, p);
        }
    }
}

/// The subtrees of two siblings share no position.
proof fn lemma_sibling_subtrees_disjoint(i: int, k: int)
    requires
        0 <= i,
    ensures
        !(in_subtree(2 * i + 1, k) && in_subtree(2 * i + 2, k)),
    decreases k,
{
    if in_subtree(2 * i + 1, k) && in_subtree(2 * i + 2, k) {
        lemma_in_subtree_at_least(2 * i + 2, k);
        if k == 2 * i + 1 {
        } else if k == 2 * i + 2 {
            lemma_in_subtree_at_least(2 * i + 1, parent_of(k));
        } else {
            lemma_sibling_subtrees_disjoint(i, parent_of(k));
        }
    }
}

/// The walk from `i` visits exactly the positions of the subtree at `i`, each once.
proof fn lemma_preorder_members(i: int, n: int)
    requires
        0 <= i,
    ensures
        preorder(i, n).no_duplicates(),
        forall|k: int| #[trigger] preorder(i, n).contains(k) <==> 0 <= k < n && in_subtree(i, k),
    decreases (if i < n {
        n - i
    } else {
        0
    }),
{
    if i >= n {
        assert forall|k: int| #[trigger] preorder(i, n).contains(k) <==> 0 <= k < n && in_subtree(i, k) by {
            if in_subtree(i, k) {
                lemma_in_subtree_at_least(i, k);
            }
        }
    } else {
        let a = preorder(2 * i + 1, n);
        let b = preorder(2 * i + 2, n);
        lemma_preorder_members(2 * i + 1, n);
        lemma_preorder_members(2 * i + 2, n);
        let w = preorder(i, n);
        assert(w == seq![i] + a + b);
        assert forall|k: int| #[trigger] w.contains(k) <==> 0 <= k < n && in_subtree(i, k) by {
            if w.contains(k) {
                let x = choose|x: int| 0 <= x < w.len() && w[x] == k;
                if x == 0 {
                } else if x < 1 + a.len() {
                    assert(a[x - 1] == k);
                    assert(a.contains(k));
                    lemma_in_subtree_of_child(i, 2 * i + 1, k);
                } else {
                    assert(b[x - 1 - a.len()] == k);
                    assert(b.contains(k));
                    lemma_in_subtree_of_child(i, 2 * i + 2, k);
                }
            }
            if 0 <= k < n && in_subtree(i, k) {
                if k == i {
                    assert(w[0] == k);
                } else {
                    lemma_in_subtree_via_child(i, k);
                    if in_subtree(2 * i + 1, k) {
                        assert(a.contains(k));
                        let x = choose|x: int| 0 <= x < a.len() && a[x] == k;
                        assert(w[1 + x] == k);
                    } else {
                        assert(b.contains(k));
                        let x = choose|x: int| 0 <= x < b.len() && b[x] == k;
                        assert(w[1 + a.len() + x] == k);
                    }
                }
            }
        }
        assert forall|x: int, y: int| 0 <= x < w.len() && 0 <= y < w.len() && x != y implies w[x] != w[y] by {
            let k = w[x];
            if w[x] == w[y] {
                assert(w.contains(k));
                if x == 0 || y == 0 {
                    let z = if x == 0 {
                        y
                    } else {
                        x
                    };
                    if z < 1 + a.len() {
                        assert(a.contains(w[z]));
                        lemma_in_subtree_at_least(2 * i + 1, w[z]);
                    } else {
                        assert(b.contains(w[z]));
                        lemma_in_subtree_at_least(2 * i + 2, w[z]);
                    }
                } else if x < 1 + a.len() && y < 1 + a.len() {
                    assert(a[x - 1] == a[y - 1]);
                } else if x >= 1 + a.len() && y >= 1 + a.len() {
                    assert(b[x - 1 - a.len()] == b[y - 1 - a.len()]);
                } else {
                    let (xa, yb) = if x < 1 + a.len() {
                        (x, y)
                    } else {
                        (y, x)
                    };
                    assert(a.contains(w[xa]));
                    assert(b.contains(w[yb]));
                    lemma_sibling_subtrees_disjoint(i, k);
                }
            }
        }
    }
}

/// A walk of a heap of `n` elements from the root visits each position
/// below `n` exactly once and no other.
pub proof fn lemma_walk_visits_each_position_once(n: int)
    requires
        0 <= n,
    ensures
        preorder(0, n).no_duplicates(),
        forall|k: int| #[trigger] preorder(0, n).contains(k) <==> 0 <= k < n,
{
    lemma_preorder_members(0, n);
    assert forall|k: int| #[trigger] preorder(0, n).contains(k) <==> 0 <= k < n by {
        if 0 <= k < n {
            lemma_root_holds_all(k);
        }
    }
}

/// Every position lies in the subtree at the root.
proof fn lemma_root_holds_all(k: int)
    requires
        0 <= k,
    ensures
        in_subtree(0, k),
    decreases k,
{
    if k > 0 {
        lemma_root_holds_all(parent_of(k));
    }
}

/// Each element of `s` but the first orders at or before its parent.
pub open spec fn is_heap<T: Ord>(s: Seq<T>) -> bool {
    forall|k: int| 0 < k < s.len() ==> !lt(s[parent_of(k)], #[trigger] s[k])
}

proof fn lemma_swap_keeps_multiset<T>(s: Seq<T>, i: int, j: int)
    requires
        0 <= i < s.len(),
        0 <= j < s.len(),
    ensures
        s.update(i, s[j]).update(j, s[i]).to_multiset() == s.to_multiset(),
{
    broadcast use vstd::multiset::group_multiset_properties;

    let t = s.update(i, s[j]);
    if i == j {
        assert(s.update(i, s[j]).update(j, s[i]) =~= s);
    } else {
        assert(t.to_multiset() == s.to_multiset().insert(s[j]).remove(s[i]));
        assert(t.update(j, s[i]).to_multiset() == t.to_multiset().insert(s[i]).remove(t[j]));
        assert(t[j] == s[j]);
        assert(s.to_multiset().count(s[i]) > 0);
        assert(s.to_multiset().count(s[j]) > 0);
        assert(t.update(j, s[i]).to_multiset() =~= s.to_multiset());
    }
}

/// The first element of a heap orders at or after every element.
proof fn lemma_root_is_largest<T: Ord>(s: Seq<T>, k: int)
    requires
        is_total_order::<T>(),
        is_heap(s),
        0 <= k < s.len(),
    ensures
        !lt(s[0], s[k]),
    decreases k,
{
    lemma_total_order::<T>();
    if k > 0 {
        lemma_root_is_largest(s, parent_of(k));
        assert(!lt(s[parent_of(k)], s[k]));
    }
}

fn is_root_node(index: usize) -> (r: bool)
    ensures
        r == (index == 0),
{
    index == 0
}

fn is_left_node(index: usize) -> (r: bool)
    ensures
        r == (index % 2 == 1),
{
    index % 2 == 1
}

fn parent_index(index: usize) -> (r: usize)
    requires
        index > 0,
    ensures
        r == parent_of(index as int),
        r < index,
{
    (index - 1) / 2
}

fn left_child_index(index: usize) -> (r: usize)
    requires
        2 * index + 1 <= usize::MAX,
    ensures
        r == 2 * index + 1,
{
    index * 2 + 1
}

fn right_child_index(index: usize) -> (r: usize)
    requires
        2 * index + 2 <= usize::MAX,
    ensures
        r == 2 * index + 2,
{
    index * 2 + 2
}

impl<T: Ord> View for BinaryHeap<T> {
    type V = Seq<T>;

    /// The elements in the vector's order: the root first, the children of
    /// position `i` at `2i+1` and `2i+2`.
    closed spec fn view(&self) -> Seq<T> {
        self.values@
    }
}

impl<T: Ord> BinaryHeap<T> {
    /// Every element orders at or before its parent.
    pub closed spec fn well_formed(&self) -> bool {
        is_heap(self@)
    }

    /// The elements as a walk visits them: each position, then its left
    /// subtree, then its right subtree.
    pub open spec fn spec_preorder(&self) -> Seq<T> {
        preorder(0, self@.len() as int).map_values(|k: int| self@[k])
    }

    /// An empty heap.
    pub fn new() -> (r: BinaryHeap<T>)
        ensures
            r.well_formed(),
            r@ == Seq::<T>::empty(),
    {
        BinaryHeap { values: Vec::new() }
    }

    fn insertion_index(&self) -> (r: usize)
        ensures
            r == self@.len(),
    {
        self.values.len()
    }

    fn has_left_child(&self, index: usize) -> (r: bool)
        ensures
            r == (2 * index + 1 < self@.len()),
            self@.len() <= usize::MAX,
    {
        index < self.values.len() / 2
    }

    fn has_right_child(&self, index: usize) -> (r: bool)
        ensures
            r == (2 * index + 2 < self@.len()),
            self@.len() <= usize::MAX,
    {
        index < self.values.len() / 2 && 2 * index + 2 < self.values.len()
    }

    /// The elements, each position before its left subtree and that before
    /// its right subtree.
    pub fn iter(&self) -> (r: Iter<'_, T>)
        ensures
            r.well_formed(),
            r@ == self.spec_preorder(),
    {
        let it = Iter {
            heap: self,
            index: if self.values.is_empty() {
                None
            } else {
                Some(0)
            },
            flag: TraverseFrom::Parent,
        };
        proof {
            if self@.len() == 0 {
                assert(preorder(0, 0) == Seq::<int>::empty());
                assert(self.spec_preorder() =~= Seq::<T>::empty());
            } else {
                assert(after_subtree(0, self@.len() as int) == Seq::<int>::empty());
                assert(preorder(0, self@.len() as int) + after_subtree(0, self@.len() as int) =~= preorder(
                    0,
                    self@.len() as int,
                ));
            }
        }
        it
    }

    /// The largest element, or `None` when the heap is empty.
    pub fn peek(&self) -> (r: Option<&T>)
        requires
            is_total_order::<T>(),
            self.well_formed(),
        ensures
            self@.len() == 0 ==> r is None,
            self@.len() > 0 ==> r == Some(&self@[0]) && forall|k: int|
                0 <= k < self@.len() ==> !lt(self@[0], #[trigger] self@[k]),
    {
        proof {
            assert forall|k: int| 0 <= k < self@.len() implies !lt(self@[0], #[trigger] self@[k]) by {
                lemma_root_is_largest(self@, k);
            }
        }
        if self.values.len() == 0 {
            None
        } else {
            Some(&self.values[0])
        }
    }

    /// The number of elements.
    pub fn len(&self) -> (r: usize)
        ensures
            r == self@.len(),
    {
        self.values.len()
    }

    /// Whether there are no elements.
    pub fn is_empty(&self) -> (r: bool)
        ensures
            r == (self@.len() == 0),
    {
        self.values.is_empty()
    }

    /// Adds `value`, moving it up past every parent that orders before it.
    pub fn push(&mut self, value: T)
        requires
            is_total_order::<T>(),
            old(self).well_formed(),
            old(self)@.len() < usize::MAX,
        ensures
            final(self).well_formed(),
            final(self)@.len() == old(self)@.len() + 1,
            final(self)@.to_multiset() == old(self)@.to_multiset().insert(value),
    {
        proof {
            lemma_total_order::<T>();
        }
        let mut index = self.insertion_index();
        self.values.push(value);
        loop
            invariant
                is_total_order::<T>(),
                index < self@.len(),
                self@.len() == old(self)@.len() + 1,
                self@.to_multiset() == old(self)@.to_multiset().insert(value),
                forall|k: int|
                    0 < k < self@.len() && k != index ==> !lt(self@[parent_of(k)], #[trigger] self@[k]),
                index > 0 ==> forall|c: int|
                    0 < c < self@.len() && parent_of(c) == index ==> !lt(
                        self@[parent_of(index as int)],
                        #[trigger] self@[c],
                    ),
            ensures
                is_heap(self@),
                self@.len() == old(self)@.len() + 1,
                self@.to_multiset() == old(self)@.to_multiset().insert(value),
            decreases index,
        {
            proof {
                lemma_total_order::<T>();
            }
            if index == 0 {
                break ;
            }
            let parent = parent_index(index);
            if less(&self.values[parent], &self.values[index]) {
                let ghost before = self@;
                proof {
                    lemma_swap_keeps_multiset(before, index as int, parent as int);
                }
                swap_at(&mut self.values, index, parent);
                proof {
                    let s = self@;
                    assert(s[parent as int] == before[index as int]);
                    assert(s[index as int] == before[parent as int]);
                    assert forall|k: int|
                        0 < k < s.len() && k != parent implies !lt(s[parent_of(k)], #[trigger] s[k]) by {
                        if 0 < k < s.len() && k != parent {
                            if k == index {
                                assert(lt(before[parent as int], before[index as int]));
                            } else if parent_of(k) == index {
                                assert(!lt(before[parent as int], before[k]));
                            } else if parent_of(k) == parent {
                                assert(!lt(before[parent as int], before[k]));
                                assert(lt(before[parent as int], before[index as int]));
                            } else {
                                assert(s[k] == before[k]);
                                assert(s[parent_of(k)] == before[parent_of(k)]);
                            }
                        }
                    }
                    if parent > 0 {
                        assert forall|c: int|
                            0 < c < s.len() && parent_of(c) == parent implies !lt(
                                s[parent_of(parent as int)],
                                #[trigger] s[c],
                            ) by {
                            if 0 < c < s.len() && parent_of(c) == parent {
                                let g = parent_of(parent as int);
                                assert(s[g] == before[g]);
                                assert(!lt(before[g], before[parent as int]));
                                if c == index {
                                } else {
                                    assert(s[c] == before[c]);
                                    assert(!lt(before[parent as int], before[c]));
                                }
                            }
                        }
                    }
                }
                index = parent;
            } else {
                break ;
            }
        }
    }

    /// Takes out the largest element, or returns `None` when the heap is empty.
    pub fn pop(&mut self) -> (r: Option<T>)
        requires
            is_total_order::<T>(),
            old(self).well_formed(),
        ensures
            final(self).well_formed(),
            old(self)@.len() == 0 ==> r is None && final(self)@ == old(self)@,
            old(self)@.len() > 0 ==> {
                &&& r == Some(old(self)@[0])
                &&& forall|k: int| 0 <= k < old(self)@.len() ==> !lt(old(self)@[0], #[trigger] old(self)@[k])
                &&& final(self)@.to_multiset() == old(self)@.to_multiset().remove(old(self)@[0])
            },
    {
        proof {
            lemma_total_order::<T>();
            assert forall|k: int| 0 <= k < old(self)@.len() implies !lt(old(self)@[0], #[trigger] old(self)@[k]) by {
                lemma_root_is_largest(old(self)@, k);
            }
        }
        if self.values.is_empty() {
            return None;
        }
        let ghost start = self@;
        let ret = self.values.swap_remove(0);
        proof {
            let u = start.update(0, start.last());
            assert(u.to_multiset() == start.to_multiset().insert(start.last()).remove(start[0]));
            assert(u =~= self@.push(start.last()));
            assert(u.to_multiset() == self@.to_multiset().insert(start.last()));
            assert(start.to_multiset().count(start[0]) > 0);
            assert forall|x: T|
                #[trigger] self@.to_multiset().count(x) == start.to_multiset().remove(start[0]).count(x) by {
                assert(u.to_multiset().count(x) == self@.to_multiset().insert(start.last()).count(x));
                assert(u.to_multiset().count(x) == start.to_multiset().insert(start.last()).remove(
                    start[0],
                ).count(x));
            }
            assert(self@.to_multiset() =~= start.to_multiset().remove(start[0]));
        }
        let mut index: usize = 0;
        loop
            invariant
                is_total_order::<T>(),
                index < self@.len() || self@.len() == 0,
                self@.to_multiset() == start.to_multiset().remove(start[0]),
                forall|k: int|
                    0 < k < self@.len() && parent_of(k) != index ==> !lt(self@[parent_of(k)], #[trigger] self@[k]),
                index > 0 ==> forall|c: int|
                    0 < c < self@.len() && parent_of(c) == index ==> !lt(
                        self@[parent_of(index as int)],
                        #[trigger] self@[c],
                    ),
            ensures
                is_heap(self@),
                self@.to_multiset() == start.to_multiset().remove(start[0]),
            decreases self@.len() - index,
        {
            proof {
                lemma_total_order::<T>();
            }
            if !self.has_left_child(index) {
                break ;
            }
            let left = left_child_index(index);
            let right_exists = self.has_right_child(index);
            let right = if right_exists {
                right_child_index(index)
            } else {
                left
            };
            let target;
            if less(&self.values[index], &self.values[left]) {
                if right_exists && less(&self.values[left], &self.values[right]) {
                    target = right;
                } else {
                    target = left;
                }
            } else if right_exists && less(&self.values[index], &self.values[right]) {
                target = right;
            } else {
                proof {
                    assert forall|k: int| 0 < k < self@.len() implies !lt(self@[parent_of(k)], #[trigger] self@[k]) by {
                        if parent_of(k) == index {
                            assert(k == left || (right_exists && k == right));
                        }
                    }
                }
                break ;
            }
            let ghost before = self@;
            proof {
                lemma_swap_keeps_multiset(before, index as int, target as int);
                // the element moving up orders at or after its sibling
                assert(right_exists ==> !lt(before[target as int], before[left as int]));
                assert(right_exists ==> !lt(before[target as int], before[right as int]));
                assert(!lt(before[target as int], before[left as int]));
                assert(lt(before[index as int], before[target as int]));
            }
            swap_at(&mut self.values, index, target);
            proof {
                let s = self@;
                assert(s[index as int] == before[target as int]);
                assert(s[target as int] == before[index as int]);
                assert forall|k: int|
                    0 < k < s.len() && parent_of(k) != target implies !lt(s[parent_of(k)], #[trigger] s[k]) by {
                    if 0 < k < s.len() && parent_of(k) != target {
                        if k == target {
                        } else if k == index {
                            assert(!lt(before[parent_of(index as int)], before[target as int]));
                        } else if parent_of(k) == index {
                            assert(k == left || k == right);
                            assert(s[k] == before[k]);
                        } else {
                            assert(s[k] == before[k]);
                            assert(s[parent_of(k)] == before[parent_of(k)]);
                        }
                    }
                }
                assert forall|c: int|
                    0 < c < s.len() && parent_of(c) == target implies !lt(
                        s[parent_of(target as int)],
                        #[trigger] s[c],
                    ) by {
                    if 0 < c < s.len() && parent_of(c) == target {
                        assert(s[c] == before[c]);
                        assert(!lt(before[target as int], before[c]));
                    }
                }
            }
            index = target;
        }
        Some(ret)
    }

    /// Removes every element.
    pub fn clear(&mut self)
        ensures
            final(self).well_formed(),
            final(self)@ == Seq::<T>::empty(),
    {
        self.values.clear();
    }

    /// Moves every element of `other` into this heap.
    pub fn append(&mut self, other: &mut BinaryHeap<T>)
        requires
            is_total_order::<T>(),
            old(self).well_formed(),
            old(self)@.len() + old(other)@.len() <= usize::MAX,
        ensures
            final(self).well_formed(),
            final(self)@.to_multiset() == old(self)@.to_multiset().add(old(other)@.to_multiset()),
            final(other)@ == Seq::<T>::empty(),
    {
        broadcast use vstd::multiset::group_multiset_properties;

        let mut reversed: Vec<T> = Vec::new();
        while other.values.len() > 0
            invariant
                reversed@.len() + other@.len() == old(other)@.len(),
                forall|k: int| 0 <= k < other@.len() ==> other@[k] == old(other)@[k],
                forall|k: int|
                    0 <= k < reversed@.len() ==> reversed@[k] == old(other)@[old(other)@.len() - 1 - k],
            decreases other@.len(),
        {
            let v = other.values.pop().unwrap();
            reversed.push(v);
        }
        let ghost moved = old(other)@;
        while reversed.len() > 0
            invariant
                is_total_order::<T>(),
                self.well_formed(),
                other@ == Seq::<T>::empty(),
                reversed@.len() <= moved.len(),
                forall|k: int| 0 <= k < reversed@.len() ==> reversed@[k] == moved[moved.len() - 1 - k],
                self@.len() == old(self)@.len() + (moved.len() - reversed@.len()),
                self@.len() + reversed@.len() <= usize::MAX,
                self@.to_multiset() == old(self)@.to_multiset().add(
                    moved.take(moved.len() - reversed@.len()).to_multiset(),
                ),
            decreases reversed@.len(),
        {
            let ghost done = moved.len() - reversed@.len();
            let v = reversed.pop().unwrap();
            proof {
                assert(v == moved[done]);
                assert(moved.take(done + 1) =~= moved.take(done).push(v));
            }
            self.push(v);
        }
        proof {
            assert(moved.take(moved.len() as int) =~= moved);
        }
    }
}

/// The position a walk in `preorder` goes to after reaching `index` from `flag`'s side.
fn next_index<T: Ord>(heap: &BinaryHeap<T>, index: usize, flag: TraverseFrom) -> (r: (
    Option<usize>,
    TraverseFrom,
))
    requires
        index < heap@.len(),
    ensures
        r.1 == TraverseFrom::Parent,
        r.0 is None ==> after_visit(index as int, heap@.len() as int, flag) == Seq::<int>::empty(),
        r.0 matches Some(j) ==> j < heap@.len() && preorder(j as int, heap@.len() as int) + after_subtree(
            j as int,
            heap@.len() as int,
        ) == after_visit(index as int, heap@.len() as int, flag),
    decreases index,
{
    let ghost n = heap@.len() as int;
    let ghost i = index as int;
    proof {
        if 2 * i + 1 >= n {
            assert(preorder(2 * i + 1, n) == Seq::<int>::empty());
        }
        if 2 * i + 2 >= n {
            assert(preorder(2 * i + 2, n) == Seq::<int>::empty());
        }
        if i > 0 {
            if i % 2 == 1 {
                assert(after_subtree(i, n) == preorder(i + 1, n) + after_subtree(parent_of(i), n));
                assert(2 * parent_of(i) + 2 == i + 1);
            } else {
                assert(after_subtree(i, n) == after_subtree(parent_of(i), n));
            }
        } else {
            assert(after_subtree(0, n) == Seq::<int>::empty());
        }
    }
    if is_root_node(index) {
        match flag {
            TraverseFrom::Parent => {
                if heap.has_left_child(index) {
                    proof {
                        assert(after_subtree(1, n) =~= preorder(2, n) + after_subtree(0, n));
                        assert(preorder(1, n) + after_subtree(1, n) =~= after_visit(i, n, flag));
                    }
                    (Some(left_child_index(index)), TraverseFrom::Parent)
                } else {
                    assert(after_visit(i, n, flag) =~= Seq::<int>::empty());
                    (None, TraverseFrom::Parent)
                }
            },
            TraverseFrom::Left => {
                if heap.has_right_child(index) {
                    proof {
                        assert(after_subtree(2, n) == after_subtree(0, n));
                        assert(preorder(2, n) + after_subtree(2, n) =~= after_visit(i, n, flag));
                    }
                    (Some(right_child_index(index)), TraverseFrom::Parent)
                } else {
                    assert(after_visit(i, n, flag) =~= Seq::<int>::empty());
                    (None, TraverseFrom::Parent)
                }
            },
            TraverseFrom::Right => (None, TraverseFrom::Parent),
        }
    } else {
        match flag {
            TraverseFrom::Parent => {
                if heap.has_left_child(index) {
                    proof {
                        let j = 2 * i + 1;
                        assert(parent_of(j) == i);
                        assert(after_subtree(j, n) == preorder(j + 1, n) + after_subtree(i, n));
                        assert(preorder(j, n) + after_subtree(j, n) =~= after_visit(i, n, flag));
                    }
                    (Some(left_child_index(index)), TraverseFrom::Parent)
                } else if is_left_node(index) {
                    assert(after_visit(i, n, flag) =~= after_visit(parent_of(i), n, TraverseFrom::Left));
                    next_index(heap, parent_index(index), TraverseFrom::Left)
                } else {
                    assert(after_visit(i, n, flag) =~= after_visit(parent_of(i), n, TraverseFrom::Right));
                    next_index(heap, parent_index(index), TraverseFrom::Right)
                }
            },
            TraverseFrom::Left => {
                if heap.has_right_child(index) {
                    proof {
                        let j = 2 * i + 2;
                        assert(parent_of(j) == i);
                        assert(after_subtree(j, n) == after_subtree(i, n));
                        assert(preorder(j, n) + after_subtree(j, n) =~= after_visit(i, n, flag));
                    }
                    (Some(right_child_index(index)), TraverseFrom::Parent)
                } else if is_left_node(index) {
                    assert(after_visit(i, n, flag) =~= after_visit(parent_of(i), n, TraverseFrom::Left));
                    next_index(heap, parent_index(index), TraverseFrom::Left)
                } else {
                    assert(after_visit(i, n, flag) =~= after_visit(parent_of(i), n, TraverseFrom::Right));
                    next_index(heap, parent_index(index), TraverseFrom::Right)
                }
            },
            TraverseFrom::Right => {
                if is_left_node(index) {
                    assert(after_visit(i, n, flag) =~= after_visit(parent_of(i), n, TraverseFrom::Left));
                    next_index(heap, parent_index(index), TraverseFrom::Left)
                } else {
                    assert(after_visit(i, n, flag) =~= after_visit(parent_of(i), n, TraverseFrom::Right));
                    next_index(heap, parent_index(index), TraverseFrom::Right)
                }
            },
        }
    }
}

impl<'a, T: Ord> View for Iter<'a, T> {
    type V = Seq<T>;

    /// The elements not yet handed out, in the order they will come.
    closed spec fn view(&self) -> Seq<T> {
        match self.index {
            None => Seq::empty(),
            Some(i) => (preorder(i as int, self.heap@.len() as int) + after_subtree(
                i as int,
                self.heap@.len() as int,
            )).map_values(|k: int| self.heap@[k]),
        }
    }
}

impl<'a, T: Ord> Iter<'a, T> {
    /// The walk stands at a position of the heap, reached from its parent.
    pub closed spec fn well_formed(&self) -> bool {
        &&& self.flag == TraverseFrom::Parent
        &&& self.index matches Some(i) ==> i < self.heap@.len()
    }

    /// The next element, or `None` once all have been handed out.
    pub fn next(&mut self) -> (r: Option<&'a T>)
        requires
            old(self).well_formed(),
        ensures
            final(self).well_formed(),
            old(self)@.len() == 0 ==> r is None && final(self)@ == old(self)@,
            old(self)@.len() > 0 ==> r == Some(&old(self)@[0]) && final(self)@ == old(self)@.drop_first(),
    {
        if let Some(index) = self.index {
            let ghost n = self.heap@.len() as int;
            let ret = Some(&self.heap.values[index]);
            let (index2, flag) = next_index(self.heap, index, self.flag);
            self.index = index2;
            self.flag = flag;
            proof {
                let i = index as int;
                let whole = preorder(i, n) + after_subtree(i, n);
                assert(preorder(i, n) == seq![i] + preorder(2 * i + 1, n) + preorder(2 * i + 2, n));
                assert(whole.drop_first() =~= after_visit(i, n, TraverseFrom::Parent));
                assert(old(self)@ == whole.map_values(|k: int| self.heap@[k]));
                assert(whole[0] == i);
                match index2 {
                    Some(j) => {
                        assert(self@ =~= old(self)@.drop_first());
                    },
                    None => {
                        assert(self@ =~= old(self)@.drop_first());
                    },
                }
            }
            ret
        } else {
            None
        }
    }
}

} // verus!
