//! A B-tree of keys: nodes hold up to twice the tree's order of keys, and a
//! node that overflows splits around its middle key.
use vstd::prelude::*;

use crate::order::{ascending, is_total_order, less, lemma_total_order, lt, sorted_insert};
use crate::InsertError;

verus! {

/// A set of keys kept in a B-tree.
pub struct Btree<T: Ord> {
    root: Box<NodeData<T>>,
    count: usize,
}

/// The keys of a B-tree in ascending order, handed out from either end.
pub struct Iter<'a, T: Ord> {
    refs: Vec<&'a T>,
    index: usize,
    index_back: usize,
}

struct NodeData<T: Ord> {
    order: usize,
    keys: Vec<T>,
    children: Vec<Box<NodeData<T>>>,
}

/// What an insertion into a subtree hands to the level above.
enum InsertionResult<T: Ord> {
    /// The subtree took the key in place.
    NotFull,
    /// The subtree overflowed and split: the middle key, and the subtrees of
    /// the keys before and after it.
    Full(T, Box<NodeData<T>>, Box<NodeData<T>>),
}

impl<T: Ord> NodeData<T> {
    spec fn is_leaf_spec(self) -> bool {
        self.children.len() == 0
    }

    /// The keys from child `j` on: that child's keys, key `j`, and so on to the end.
    spec fn inorder_from(self, j: int) -> Seq<T>
        decreases self, self.keys.len() + 1 - j,
    {
        if self.children.len() == 0 {
            if j == 0 {
                self.keys@
            } else {
                Seq::empty()
            }
        } else if 0 <= j < self.children.len() && j <= self.keys.len() {
            self.children@[j].inorder_from(0) + if j < self.keys.len() {
                seq![self.keys@[j]] + self.inorder_from(j + 1)
            } else {
                Seq::empty()
            }
        } else {
            Seq::empty()
        }
    }

    /// The keys of the subtree, left to right.
    spec fn inorder(self) -> Seq<T> {
        self.inorder_from(0)
    }

    /// The keys after child `i`: key `i`, then the keys from child `i + 1` on.
    spec fn post(self, i: int) -> Seq<T> {
        if i < self.keys.len() {
            seq![self.keys@[i]] + self.inorder_from(i + 1)
        } else {
            Seq::empty()
        }
    }

    /// The keys before child `i`: each earlier child's keys, each followed by its key.
    spec fn prefix(self, i: int) -> Seq<T>
        decreases i,
    {
        if i <= 0 {
            Seq::empty()
        } else {
            self.prefix(i - 1) + self.children@[i - 1].inorder() + seq![self.keys@[i - 1]]
        }
    }

    /// Nodes on the path from this node down its first children to a leaf.
    spec fn height(self) -> nat
        decreases self,
    {
        if self.children.len() == 0 {
            0
        } else {
            1 + self.children@[0].height()
        }
    }

    /// Every node holds the tree's order and at most twice that many keys; an
    /// internal node holds at least one key and one more child than keys; and
    /// below this node every node holds at least the order of keys and every
    /// leaf lies at the same depth.
    spec fn wf(self, order: nat) -> bool
        decreases self, self.children.len() + 1,
    {
        &&& self.order == order
        &&& 1 <= order
        &&& 2 * order + 2 <= usize::MAX
        &&& self.keys.len() <= 2 * order
        &&& self.children.len() == 0 || self.children.len() == self.keys.len() + 1
        &&& self.children.len() > 0 ==> self.keys.len() >= 1
        &&& self.children_wf(order, 0)
    }

    /// The children from `j` on are well formed, hold at least the order of
    /// keys, and sit one level below this node.
    spec fn children_wf(self, order: nat, j: int) -> bool
        decreases self, self.children.len() - j,
    {
        if 0 <= j < self.children.len() {
            &&& self.children@[j].wf(order)
            &&& self.children@[j].keys.len() >= order
            &&& self.children@[j].height() + 1 == self.height()
            &&& self.children_wf(order, j + 1)
        } else {
            true
        }
    }

    /// Each node's keys with its depth below a node at `depth`: the node
    /// first, then the layout of each child in turn.
    spec fn layout(self, depth: int) -> Seq<(int, Seq<T>)>
        decreases self, self.children.len() + 1,
    {
        seq![(depth, self.keys@)] + self.layout_children(depth + 1, 0)
    }

    /// The layouts of the children from `j` on, each child at `depth`.
    spec fn layout_children(self, depth: int, j: int) -> Seq<(int, Seq<T>)>
        decreases self, self.children.len() - j,
    {
        if 0 <= j < self.children.len() {
            self.children@[j].layout(depth) + self.layout_children(depth, j + 1)
        } else {
            Seq::empty()
        }
    }

    /// Child `i` is well formed, holds at least the order of keys, and sits one
    /// level below this node.
    spec fn child_fits(self, i: int, order: nat) -> bool {
        &&& self.children@[i].wf(order)
        &&& self.children@[i].keys.len() >= order
        &&& self.children@[i].height() + 1 == self.height()
    }
}

proof fn lemma_children_wf<T: Ord>(n: NodeData<T>, order: nat, j: int)
    requires
        0 <= j,
    ensures
        n.children_wf(order, j) <==> forall|i: int| j <= i < n.children.len() ==> #[trigger] n.child_fits(i, order),
    decreases n.children.len() - j,
{
    if j < n.children.len() {
        lemma_children_wf(n, order, j + 1);
        assert(n.children_wf(order, j) == (n.child_fits(j, order) && n.children_wf(order, j + 1)));
        if forall|i: int| j <= i < n.children.len() ==> #[trigger] n.child_fits(i, order) {
            assert(n.child_fits(j, order));
        }
    }
}

proof fn lemma_wf_intro<T: Ord>(n: NodeData<T>, order: nat)
    requires
        n.order == order,
        1 <= order,
        2 * order + 2 <= usize::MAX,
        n.keys.len() <= 2 * order,
        n.children.len() == 0 || n.children.len() == n.keys.len() + 1,
        n.children.len() > 0 ==> n.keys.len() >= 1,
        forall|i: int| 0 <= i < n.children.len() ==> #[trigger] n.child_fits(i, order),
    ensures
        n.wf(order),
{
    lemma_children_wf(n, order, 0);
}

proof fn lemma_wf_elim<T: Ord>(n: NodeData<T>, order: nat)
    requires
        n.wf(order),
    ensures
        n.order == order,
        1 <= order,
        2 * order + 2 <= usize::MAX,
        n.keys.len() <= 2 * order,
        n.children.len() == 0 || n.children.len() == n.keys.len() + 1,
        n.children.len() > 0 ==> n.keys.len() >= 1,
        forall|i: int| 0 <= i < n.children.len() ==> #[trigger] n.child_fits(i, order),
{
    lemma_children_wf(n, order, 0);
}

/// A subtree is no deeper than it has keys.
proof fn lemma_height_at_most_size<T: Ord>(n: NodeData<T>, order: nat)
    requires
        n.wf(order),
    ensures
        n.height() <= n.inorder().len(),
    decreases n,
{
    lemma_wf_elim(n, order);
    if n.children.len() > 0 {
        assert(n.child_fits(0, order));
        lemma_height_at_most_size(*n.children@[0], order);
        lemma_split_at(n, 1);
        assert(n.prefix(0) == Seq::<T>::empty());
        assert(n.prefix(1) =~= n.children@[0].inorder() + seq![n.keys@[0]]);
    }
}

/// An internal node's keys are the keys before child `i` followed by those from child `i` on.
proof fn lemma_split_at<T: Ord>(n: NodeData<T>, i: int)
    requires
        n.children.len() == n.keys.len() + 1,
        0 <= i <= n.keys.len(),
    ensures
        n.inorder() == n.prefix(i) + n.inorder_from(i),
    decreases i,
{
    if i == 0 {
        assert(n.prefix(0) + n.inorder_from(0) =~= n.inorder_from(0));
    } else {
        lemma_split_at(n, i - 1);
        assert(n.inorder_from(i - 1) == n.children@[i - 1].inorder() + (seq![n.keys@[i - 1]] + n.inorder_from(i)));
        assert(n.prefix(i) + n.inorder_from(i) =~= n.prefix(i - 1) + n.inorder_from(i - 1));
    }
}

/// Nodes that agree on their first `i` children and keys agree on the keys before child `i`.
proof fn lemma_prefix_eq<T: Ord>(a: NodeData<T>, b: NodeData<T>, i: int)
    requires
        0 <= i,
        i <= a.children.len(),
        i <= b.children.len(),
        i <= a.keys.len(),
        i <= b.keys.len(),
        forall|k: int| 0 <= k < i ==> a.children@[k] == b.children@[k],
        forall|k: int| 0 <= k < i ==> a.keys@[k] == b.keys@[k],
    ensures
        a.prefix(i) == b.prefix(i),
    decreases i,
{
    if i > 0 {
        lemma_prefix_eq(a, b, i - 1);
    }
}

/// Internal nodes whose children and keys agree from `ja` and from `jb` on agree
/// on the keys from there on.
proof fn lemma_suffix_eq<T: Ord>(a: NodeData<T>, b: NodeData<T>, ja: int, jb: int)
    requires
        a.children.len() == a.keys.len() + 1,
        b.children.len() == b.keys.len() + 1,
        0 <= ja <= a.keys.len(),
        0 <= jb <= b.keys.len(),
        a.keys.len() - ja == b.keys.len() - jb,
        forall|k: int| ja <= k <= a.keys.len() ==> #[trigger] a.children@[k] == b.children@[k - ja + jb],
        forall|k: int| ja <= k < a.keys.len() ==> #[trigger] a.keys@[k] == b.keys@[k - ja + jb],
    ensures
        a.inorder_from(ja) == b.inorder_from(jb),
    decreases a.keys.len() - ja,
{
    assert(a.children@[ja] == b.children@[jb]);
    if ja < a.keys.len() {
        assert(a.keys@[ja] == b.keys@[jb]);
        assert forall|k: int| ja + 1 <= k <= a.keys.len() implies #[trigger] a.children@[k] == b.children@[k
            - (ja + 1) + (jb + 1)] by {
            assert(a.children@[k] == b.children@[k - ja + jb]);
        }
        lemma_suffix_eq(a, b, ja + 1, jb + 1);
    }
}

/// Replacing child `i` of an internal node changes only that child's share of the keys.
proof fn lemma_replace_child<T: Ord>(a: NodeData<T>, b: NodeData<T>, i: int)
    requires
        a.children.len() == a.keys.len() + 1,
        b.children.len() == a.children.len(),
        b.keys@ == a.keys@,
        0 <= i <= a.keys.len(),
        forall|k: int| 0 <= k < a.children.len() && k != i ==> #[trigger] b.children@[k] == a.children@[k],
    ensures
        a.inorder() == a.prefix(i) + a.children@[i].inorder() + a.post(i),
        b.inorder() == a.prefix(i) + b.children@[i].inorder() + a.post(i),
{
    lemma_split_at(a, i);
    lemma_split_at(b, i);
    lemma_prefix_eq(a, b, i);
    if i < a.keys.len() {
        lemma_suffix_eq(a, b, i + 1, i + 1);
    }
    assert(a.inorder_from(i) == a.children@[i].inorder() + a.post(i));
    assert(b.inorder_from(i) == b.children@[i].inorder() + b.post(i));
    assert(a.inorder() =~= a.prefix(i) + a.children@[i].inorder() + a.post(i));
    assert(b.inorder() =~= a.prefix(i) + b.children@[i].inorder() + a.post(i));
}

/// Replacing child `i` by two children with key `m` between them puts their
/// keys in that child's place.
proof fn lemma_replace_child_by_two<T: Ord>(
    a: NodeData<T>,
    b: NodeData<T>,
    i: int,
    m: T,
    l: Box<NodeData<T>>,
    r: Box<NodeData<T>>,
)
    requires
        a.children.len() == a.keys.len() + 1,
        0 <= i <= a.keys.len(),
        b.keys@ == a.keys@.insert(i, m),
        b.children@ == a.children@.remove(i).insert(i, l).insert(i + 1, r),
    ensures
        a.inorder() == a.prefix(i) + a.children@[i].inorder() + a.post(i),
        b.inorder() == a.prefix(i) + (l.inorder() + seq![m] + r.inorder()) + a.post(i),
{
    lemma_split_at(a, i);
    lemma_split_at(b, i);
    assert forall|k: int| 0 <= k < i implies a.children@[k] == b.children@[k] && a.keys@[k] == b.keys@[k] by {
        assert(b.children@[k] == a.children@[k]);
    }
    lemma_prefix_eq(a, b, i);
    assert(b.children@[i] == l);
    assert(b.children@[i + 1] == r);
    assert(b.keys@[i] == m);
    assert(b.inorder_from(i) == l.inorder() + (seq![m] + b.inorder_from(i + 1)));
    assert(b.inorder_from(i + 1) == r.inorder() + b.post(i + 1));
    if i < a.keys.len() {
        assert(b.keys@[i + 1] == a.keys@[i]);
        assert forall|k: int| i + 1 <= k <= a.keys.len() implies #[trigger] a.children@[k] == b.children@[k
            - (i + 1) + (i + 2)] by {
            assert(b.children@[k + 1] == a.children@[k]);
        }
        assert forall|k: int| i + 1 <= k < a.keys.len() implies #[trigger] a.keys@[k] == b.keys@[k - (i + 1)
            + (i + 2)] by {
            assert(b.keys@[k + 1] == a.keys@[k]);
        }
        lemma_suffix_eq(a, b, i + 1, i + 2);
        assert(b.post(i + 1) == a.post(i));
    } else {
        assert(b.post(i + 1) =~= a.post(i));
    }
    assert(a.inorder_from(i) == a.children@[i].inorder() + a.post(i));
    assert(a.inorder() =~= a.prefix(i) + a.children@[i].inorder() + a.post(i));
    assert(b.inorder() =~= a.prefix(i) + (l.inorder() + seq![m] + r.inorder()) + a.post(i));
}

/// Putting a well-formed child back in place `i` keeps the node well formed.
proof fn lemma_reinsert_child<T: Ord>(a: NodeData<T>, b: NodeData<T>, i: int, order: nat)
    requires
        a.wf(order),
        a.children.len() == a.keys.len() + 1,
        0 <= i <= a.keys.len(),
        b.order == a.order,
        b.keys@ == a.keys@,
        b.children@ == a.children@.update(i, b.children@[i]),
        b.children@[i].wf(order),
        b.children@[i].keys.len() >= order,
        b.children@[i].height() == a.children@[i].height(),
    ensures
        b.wf(order),
        b.height() == a.height(),
        b.inorder() == a.prefix(i) + b.children@[i].inorder() + a.post(i),
{
    lemma_wf_elim(a, order);
    lemma_replace_child(a, b, i);
    assert(b.children@[0].height() == a.children@[0].height());
    assert forall|k: int| 0 <= k < b.children.len() implies #[trigger] b.child_fits(k, order) by {
        assert(a.child_fits(k, order));
        if k != i {
            assert(b.children@[k] == a.children@[k]);
        }
    }
    lemma_wf_intro(b, order);
}

/// Putting two well-formed children and a key between them in place of child
/// `i` keeps every child well formed.
proof fn lemma_insert_split_child<T: Ord>(
    a: NodeData<T>,
    b: NodeData<T>,
    i: int,
    m: T,
    l: Box<NodeData<T>>,
    r: Box<NodeData<T>>,
    order: nat,
)
    requires
        a.wf(order),
        a.children.len() == a.keys.len() + 1,
        0 <= i <= a.keys.len(),
        b.order == a.order,
        b.keys@ == a.keys@.insert(i, m),
        b.children@ == a.children@.remove(i).insert(i, l).insert(i + 1, r),
        l.wf(order),
        r.wf(order),
        l.keys.len() >= order,
        r.keys.len() >= order,
        l.height() == a.children@[i].height(),
        r.height() == a.children@[i].height(),
    ensures
        b.inorder() == a.prefix(i) + (l.inorder() + seq![m] + r.inorder()) + a.post(i),
        b.children.len() == b.keys.len() + 1,
        b.keys.len() == a.keys.len() + 1,
        b.height() == a.height(),
        forall|k: int| 0 <= k < b.children.len() ==> #[trigger] b.child_fits(k, order),
        b.keys.len() <= 2 * order ==> b.wf(order),
{
    lemma_wf_elim(a, order);
    lemma_replace_child_by_two(a, b, i, m, l, r);
    assert(a.child_fits(0, order));
    assert(b.children@[0].height() == a.children@[0].height()) by {
        if i == 0 {
            assert(b.children@[0] == l);
        } else {
            assert(b.children@[0] == a.children@[0]);
        }
    }
    assert forall|k: int| 0 <= k < b.children.len() implies #[trigger] b.child_fits(k, order) by {
        if k < i {
            assert(b.children@[k] == a.children@[k]);
            assert(a.child_fits(k, order));
        } else if k > i + 1 {
            assert(b.children@[k] == a.children@[k - 1]);
            assert(a.child_fits(k - 1, order));
        } else {
            assert(a.child_fits(i, order));
        }
    }
    if b.keys.len() <= 2 * order {
        lemma_wf_intro(b, order);
    }
}

/// A key that orders after all of `p` and before all of `q` is in `p + c + q`
/// exactly when it is in `c`, and goes in among the keys of `c`.
proof fn lemma_insert_between<T: Ord>(p: Seq<T>, c: Seq<T>, q: Seq<T>, v: T)
    requires
        is_total_order::<T>(),
        ascending(p + c + q),
        p.len() > 0 ==> lt(p.last(), v),
        q.len() > 0 ==> lt(v, q[0]),
    ensures
        ascending(c),
        (p + c + q).contains(v) <==> c.contains(v),
        sorted_insert(p + c + q, v) == p + sorted_insert(c, v) + q,
{
    lemma_total_order::<T>();
    let w = p + c + q;
    assert forall|i: int, j: int| 0 <= i < j < c.len() implies #[trigger] lt(c[i], c[j]) by {
        assert(w[p.len() + i] == c[i] && w[p.len() + j] == c[j]);
    }
    assert forall|i: int| 0 <= i < p.len() implies lt(#[trigger] p[i], v) by {
        if i < p.len() - 1 {
            assert(w[i] == p[i] && w[p.len() - 1] == p.last());
        }
    }
    assert forall|j: int| 0 <= j < q.len() implies lt(v, #[trigger] q[j]) by {
        if j > 0 {
            assert(w[(p.len() + c.len()) as int] == q[0] && w[p.len() + c.len() + j] == q[j]);
        }
    }
    if w.contains(v) {
        let k = choose|k: int| 0 <= k < w.len() && w[k] == v;
        if k < p.len() {
            assert(lt(p[k], v));
        } else if k >= p.len() + c.len() {
            assert(lt(v, q[k - p.len() - c.len()]));
        } else {
            assert(c[k - p.len()] == v);
        }
    }
    if c.contains(v) {
        let k = choose|k: int| 0 <= k < c.len() && c[k] == v;
        assert(w[p.len() + k] == v);
    }
    assert(p + c + q =~= p + (c + q));
    crate::order::lemma_sorted_insert_after(p, c + q, v);
    if q.len() > 0 {
        assert(!lt(q[0], v));
    }
    crate::order::lemma_sorted_insert_before(c, q, v);
    assert(p + (sorted_insert(c, v) + q) =~= p + sorted_insert(c, v) + q);
}

impl<T: Ord> NodeData<T> {
    fn new(order: usize) -> (r: Box<NodeData<T>>)
        ensures
            r.order == order,
            r.keys@ == Seq::<T>::empty(),
            r.children@ == Seq::<Box<NodeData<T>>>::empty(),
    {
        NodeData::with_keys(order, Vec::new())
    }

    fn with_keys(order: usize, keys: Vec<T>) -> (r: Box<NodeData<T>>)
        ensures
            r.order == order,
            r.keys@ == keys@,
            r.children@ == Seq::<Box<NodeData<T>>>::empty(),
    {
        NodeData::with_children(order, keys, Vec::new())
    }

    fn with_children(order: usize, keys: Vec<T>, children: Vec<Box<NodeData<T>>>) -> (r: Box<NodeData<T>>)
        ensures
            r.order == order,
            r.keys@ == keys@,
            r.children@ == children@,
    {
        Box::new(NodeData { order: order, keys: keys, children: children })
    }

    fn is_full(&self) -> (r: bool)
        requires
            2 * self.order <= usize::MAX,
        ensures
            r == (self.keys.len() == 2 * self.order),
    {
        self.keys.len() == self.order * 2
    }

    fn is_leaf(&self) -> (r: bool)
        ensures
            r == self.is_leaf_spec(),
    {
        self.children.len() == 0
    }

    /// Inserts `value` into the subtree, splitting nodes that overflow on the
    /// way back up; refuses a key that is already present.
    fn insert(&mut self, value: T) -> (r: Result<InsertionResult<T>, InsertError>)
        requires
            is_total_order::<T>(),
            old(self).wf(old(self).order as nat),
            ascending(old(self).inorder()),
        ensures
            r is Err <==> old(self).inorder().contains(value),
            r is Err ==> {
                &&& final(self).wf(old(self).order as nat)
                &&& final(self).inorder() == old(self).inorder()
                &&& final(self).keys.len() == old(self).keys.len()
                &&& final(self).height() == old(self).height()
            },
            r matches Ok(InsertionResult::NotFull) ==> {
                &&& final(self).wf(old(self).order as nat)
                &&& final(self).inorder() == sorted_insert(old(self).inorder(), value)
                &&& final(self).keys.len() >= old(self).keys.len()
                &&& final(self).height() == old(self).height()
            },
            r matches Ok(InsertionResult::Full(m, l, rr)) ==> {
                &&& l.wf(old(self).order as nat)
                &&& rr.wf(old(self).order as nat)
                &&& l.keys.len() == old(self).order
                &&& rr.keys.len() == old(self).order
                &&& l.height() == old(self).height()
                &&& rr.height() == old(self).height()
                &&& l.inorder() + seq![m] + rr.inorder() == sorted_insert(old(self).inorder(), value)
                &&& old(self).keys.len() == 2 * old(self).order
                &&& final(self).keys@.len() == 0
                &&& final(self).children@.len() == 0
            },
        decreases *old(self),
    {
        proof {
            lemma_total_order::<T>();
            lemma_wf_elim(*self, self.order as nat);
        }
        let ghost a = *self;
        let ghost order = self.order as nat;
        let mut i: usize = 0;
        while i < self.keys.len() && less(&self.keys[i], &value)
            invariant
                is_total_order::<T>(),
                *self == a,
                i <= self.keys.len(),
                forall|k: int| 0 <= k < i ==> lt(#[trigger] self.keys@[k], value),
            decreases self.keys.len() - i,
        {
            i = i + 1;
        }
        proof {
            if i > 0 {
                assert(lt(a.keys@[i - 1], value));
            }
        }
        let duplicate = i < self.keys.len() && !less(&value, &self.keys[i]);
        if self.is_leaf() {
            let ghost p = a.keys@.take(i as int);
            let ghost q = a.keys@.skip(i as int);
            proof {
                assert(a.inorder() == a.keys@);
                assert(p + Seq::<T>::empty() + q =~= a.keys@);
            }
            if duplicate {
                proof {
                    assert(a.keys@[i as int] == value);
                }
                return Err(InsertError::DuplicateKey);
            }
            proof {
                lemma_insert_between(p, Seq::<T>::empty(), q, value);
                assert(sorted_insert(Seq::<T>::empty(), value) == seq![value]);
            }
            let full = self.is_full();
            self.keys.insert(i, value);
            proof {
                assert(self.keys@ =~= p + seq![value] + q);
                assert(self.inorder() == self.keys@);
                lemma_children_wf(*self, order, 0);
            }
            if !full {
                proof {
                    lemma_wf_intro(*self, order);
                }
                return Ok(InsertionResult::NotFull);
            } else {
                return Ok(self.split());
            }
        }
        let ghost p = a.prefix(i as int);
        let ghost c = a.children@[i as int].inorder();
        let ghost q = a.post(i as int);
        proof {
            lemma_split_at(a, i as int);
            assert(a.inorder_from(i as int) == c + q);
            assert(a.inorder() == p + c + q);
            if i < a.keys.len() {
                assert(q[0] == a.keys@[i as int]);
            }
        }
        if duplicate {
            proof {
                assert(q[0] == value);
                assert((p + c + q)[(p.len() + c.len()) as int] == value);
            }
            return Err(InsertError::DuplicateKey);
        }
        proof {
            lemma_insert_between(p, c, q, value);
        }
        let mut child = self.children.remove(i);
        proof {
            assert(a.child_fits(i as int, order));
        }
        let result = child.insert(value);
        match result {
            Err(e) => {
                self.children.insert(i, child);
                proof {
                    assert(self.children@ =~= a.children@.update(i as int, child));
                    lemma_reinsert_child(a, *self, i as int, order);
                }
                Err(e)
            },
            Ok(InsertionResult::NotFull) => {
                self.children.insert(i, child);
                proof {
                    assert(self.children@ =~= a.children@.update(i as int, child));
                    lemma_reinsert_child(a, *self, i as int, order);
                }
                Ok(InsertionResult::NotFull)
            },
            Ok(InsertionResult::Full(median, left, right)) => {
                let ghost l = left;
                let ghost rr = right;
                let ghost m = median;
                self.keys.insert(i, median);
                self.children.insert(i, left);
                self.children.insert(i + 1, right);
                proof {
                    assert(self.children@ =~= a.children@.remove(i as int).insert(i as int, l).insert(i + 1, rr));
                    lemma_insert_split_child(a, *self, i as int, m, l, rr, order);
                }
                if self.keys.len() <= self.order * 2 {
                    Ok(InsertionResult::NotFull)
                } else {
                    Ok(self.split())
                }
            },
        }
    }

    /// Appends the subtree's keys, in order, to `out`.
    fn iterate<'a>(&'a self, out: &mut Vec<&'a T>)
        requires
            self.wf(self.order as nat),
        ensures
            final(out)@.map_values(|r: &T| *r) == old(out)@.map_values(|r: &T| *r) + self.inorder(),
        decreases self,
    {
        proof {
            lemma_wf_elim(*self, self.order as nat);
        }
        let leaf = self.is_leaf();
        let mut i: usize = 0;
        while i < self.keys.len()
            invariant
                self.wf(self.order as nat),
                leaf == self.is_leaf_spec(),
                !leaf ==> self.children.len() == self.keys.len() + 1,
                forall|k: int| 0 <= k < self.children.len() ==> #[trigger] self.child_fits(k, self.order as nat),
                i <= self.keys.len(),
                out@.map_values(|r: &T| *r) == old(out)@.map_values(|r: &T| *r) + if leaf {
                    self.keys@.take(i as int)
                } else {
                    self.prefix(i as int)
                },
            decreases self.keys.len() - i,
        {
            let ghost before = out@.map_values(|r: &T| *r);
            if !leaf {
                proof {
                    assert(self.child_fits(i as int, self.order as nat));
                    lemma_wf_elim(*self.children@[i as int], self.order as nat);
                }
                self.children[i].iterate(out);
            }
            let ghost mid = out@.map_values(|r: &T| *r);
            out.push(&self.keys[i]);
            proof {
                assert(out@.map_values(|r: &T| *r) =~= mid.push(self.keys@[i as int]));
                if leaf {
                    assert(self.keys@.take(i + 1) =~= self.keys@.take(i as int).push(self.keys@[i as int]));
                } else {
                    assert(self.prefix(i + 1) == self.prefix(i as int) + self.children@[i as int].inorder() + seq![
                        self.keys@[i as int],
                    ]);
                }
            }
            i = i + 1;
        }
        if !leaf {
            proof {
                assert(self.child_fits(self.keys.len() as int, self.order as nat));
                lemma_wf_elim(*self.children@[self.keys.len() as int], self.order as nat);
            }
            self.children[self.keys.len()].iterate(out);
            proof {
                lemma_split_at(*self, self.keys.len() as int);
                assert(self.inorder_from(self.keys.len() as int) =~= self.children@[self.keys.len() as int].inorder());
            }
        } else {
            proof {
                assert(self.keys@.take(self.keys.len() as int) =~= self.inorder());
            }
        }
    }

    /// Appends the layout of the subtree, found at `depth`, to `out`.
    fn collect_layout<'a>(&'a self, depth: usize, out: &mut Vec<(usize, &'a Vec<T>)>)
        requires
            self.wf(self.order as nat),
            depth + self.height() <= usize::MAX,
        ensures
            final(out)@.map_values(|e: (usize, &Vec<T>)| (e.0 as int, e.1@)) == old(out)@.map_values(
                |e: (usize, &Vec<T>)| (e.0 as int, e.1@),
            ) + self.layout(depth as int),
        decreases self,
    {
        proof {
            lemma_wf_elim(*self, self.order as nat);
        }
        let ghost shown = |e: (usize, &Vec<T>)| (e.0 as int, e.1@);
        out.push((depth, &self.keys));
        proof {
            assert(out@.map_values(shown) =~= old(out)@.map_values(shown) + seq![(depth as int, self.keys@)]);
        }
        let ghost start = out@.map_values(shown);
        let ghost mut done = Seq::<(int, Seq<T>)>::empty();
        let mut j: usize = 0;
        while j < self.children.len()
            invariant
                self.wf(self.order as nat),
                forall|k: int| 0 <= k < self.children.len() ==> #[trigger] self.child_fits(k, self.order as nat),
                self.children.len() > 0 ==> depth + 1 + self.children@[0].height() <= usize::MAX,
                j <= self.children.len(),
                shown == (|e: (usize, &Vec<T>)| (e.0 as int, e.1@)),
                out@.map_values(shown) == start + done,
                done + self.layout_children(depth + 1, j as int) == self.layout_children(depth + 1, 0),
            decreases self.children.len() - j,
        {
            proof {
                assert(self.child_fits(j as int, self.order as nat));
                assert(self.child_fits(0, self.order as nat));
                lemma_wf_elim(*self.children@[j as int], self.order as nat);
            }
            let ghost before = out@.map_values(shown);
            self.children[j].collect_layout(depth + 1, out);
            proof {
                let piece = self.children@[j as int].layout(depth + 1);
                assert(self.layout_children(depth + 1, j as int) == piece + self.layout_children(depth + 1, j + 1));
                assert(done + piece + self.layout_children(depth + 1, j + 1) =~= done + self.layout_children(
                    depth + 1,
                    j as int,
                ));
                done = done + piece;
            }
            j = j + 1;
        }
        proof {
            assert(self.layout_children(depth + 1, self.children.len() as int) == Seq::<(int, Seq<T>)>::empty());
            assert(done =~= self.layout_children(depth + 1, 0));
            assert(old(out)@.map_values(shown) + self.layout(depth as int) =~= start + done);
        }
    }

    /// Splits an overflowing node around its middle key, leaving it empty.
    fn split(&mut self) -> (r: InsertionResult<T>)
        requires
            1 <= old(self).order,
            2 * old(self).order + 2 <= usize::MAX,
            old(self).keys.len() == 2 * old(self).order + 1,
            old(self).children.len() == 0 || old(self).children.len() == old(self).keys.len() + 1,
            forall|i: int|
                0 <= i < old(self).children.len() ==> #[trigger] old(self).child_fits(
                    i,
                    old(self).order as nat,
                ),
        ensures
            r matches InsertionResult::Full(m, l, rr) && {
                &&& l.wf(old(self).order as nat)
                &&& rr.wf(old(self).order as nat)
                &&& l.keys.len() == old(self).order
                &&& rr.keys.len() == old(self).order
                &&& l.height() == old(self).height()
                &&& rr.height() == old(self).height()
                &&& l.inorder() + seq![m] + rr.inorder() == old(self).inorder()
                &&& m == old(self).keys@[old(self).order as int]
                &&& l.order == old(self).order
                &&& rr.order == old(self).order
                &&& l.keys@ == old(self).keys@.subrange(0, old(self).order as int)
                &&& rr.keys@ == old(self).keys@.subrange(
                    old(self).order + 1,
                    2 * old(self).order + 1,
                )
                &&& l.children@ == old(self).children@.take(
                    if old(self).children.len() == 0 {
                        0
                    } else {
                        old(self).order + 1
                    },
                )
                &&& rr.children@ == old(self).children@.skip(
                    if old(self).children.len() == 0 {
                        0
                    } else {
                        old(self).order + 1
                    },
                )
            },
            final(self).keys@.len() == 0,
            final(self).children@.len() == 0,
    {
        let ghost a = *self;
        let o = self.order;
        let right = self.keys.split_off(self.order + 1);
        let median = self.keys.pop().unwrap();
        let left = self.keys.split_off(0);
        let right_children;
        let left_children;
        if self.is_leaf() {
            right_children = Vec::new();
            left_children = Vec::new();
        } else {
            right_children = self.children.split_off(self.order + 1);
            left_children = self.children.split_off(0);
        }
        let l = NodeData::with_children(o, left, left_children);
        let rr = NodeData::with_children(o, right, right_children);
        proof {
            let oi = o as int;
            assert(median == a.keys@[oi]);
            if a.children.len() > 0 {
                assert(a.child_fits(0, o as nat));
                assert(a.child_fits(oi + 1, o as nat));
                assert(l.children@[0] == a.children@[0]);
                assert(rr.children@[0] == a.children@[oi + 1]);
            }
            assert(l.height() == a.height());
            assert(rr.height() == a.height());
            assert forall|i: int| 0 <= i < l.children.len() implies #[trigger] l.child_fits(i, o as nat) by {
                assert(l.children@[i] == a.children@[i]);
                assert(a.child_fits(i, o as nat));
            }
            assert forall|i: int| 0 <= i < rr.children.len() implies #[trigger] rr.child_fits(i, o as nat) by {
                assert(rr.children@[i] == a.children@[i + oi + 1]);
                assert(a.child_fits(i + oi + 1, o as nat));
            }
            if a.children.len() == 0 {
                assert(a.inorder() == a.keys@);
                assert(l.inorder() == l.keys@);
                assert(rr.inorder() == rr.keys@);
                assert(a.keys@ =~= l.keys@ + seq![median] + rr.keys@);
            } else {
                lemma_split_at(a, oi + 1);
                assert(a.prefix(oi + 1) == a.prefix(oi) + a.children@[oi].inorder() + seq![median]);
                lemma_split_at(*l, oi);
                assert forall|k: int| 0 <= k < oi implies a.children@[k] == l.children@[k] && a.keys@[k]
                    == l.keys@[k] by {}
                lemma_prefix_eq(a, *l, oi);
                assert(l.inorder_from(oi) =~= a.children@[oi].inorder());
                assert forall|k: int| oi + 1 <= k <= a.keys.len() implies #[trigger] a.children@[k]
                    == rr.children@[k - (oi + 1) + 0] by {}
                assert forall|k: int| oi + 1 <= k < a.keys.len() implies #[trigger] a.keys@[k] == rr.keys@[k
                    - (oi + 1) + 0] by {}
                lemma_suffix_eq(a, *rr, oi + 1, 0);
                assert(l.inorder() + seq![median] + rr.inorder() =~= a.inorder());
            }
            lemma_wf_intro(*l, o as nat);
            lemma_wf_intro(*rr, o as nat);
            assert(l.inorder() + seq![median] + rr.inorder() == a.inorder());
        }
        InsertionResult::Full(median, l, rr)
    }
}

impl<T: Ord> View for Btree<T> {
    type V = Seq<T>;

    /// The keys, left to right.
    closed spec fn view(&self) -> Seq<T> {
        self.root.inorder()
    }
}

impl<T: Ord> Btree<T> {
    /// The tree's invariant: nodes well formed for the tree's order, keys in
    /// ascending order, and a count that is the number of keys.
    pub closed spec fn well_formed(&self) -> bool {
        &&& self.root.wf(self.order())
        &&& ascending(self@)
        &&& self.count == self@.len()
    }

    /// The tree's order: every node holds at most twice this many keys, and
    /// every node but the root at least this many.
    pub closed spec fn order(&self) -> nat {
        self.root.order as nat
    }

    /// An empty tree of order three: its nodes hold up to six keys.
    pub fn new() -> (r: Self)
        ensures
            r.well_formed(),
            r.order() == 3,
            r@ == Seq::<T>::empty(),
    {
        let root = NodeData::new(3);
        proof {
            lemma_children_wf(*root, 3, 0);
            lemma_wf_intro(*root, 3);
            assert(root.inorder() =~= Seq::<T>::empty());
        }
        Btree { root: root, count: 0 }
    }

    /// The keys in ascending order.
    pub fn iter(&self) -> (r: Iter<'_, T>)
        requires
            self.well_formed(),
        ensures
            r.well_formed(),
            r@ == self@,
    {
        let mut refs = Vec::new();
        self.root.iterate(&mut refs);
        proof {
            assert(refs@.map_values(|r: &T| *r) =~= self@);
            assert(refs@.subrange(0, self.count as int) =~= refs@);
        }
        Iter { refs: refs, index: 0, index_back: self.count }
    }

    /// Each node's keys with the node's depth: a node first, then the nodes
    /// below each of its children in turn.
    pub closed spec fn spec_layout(&self) -> Seq<(int, Seq<T>)> {
        self.root.layout(0)
    }

    /// Each node's keys with the node's depth: a node first, then the nodes
    /// below each of its children in turn.
    pub fn layout(&self) -> (r: Vec<(usize, &Vec<T>)>)
        requires
            self.well_formed(),
        ensures
            r@.map_values(|e: (usize, &Vec<T>)| (e.0 as int, e.1@)) == self.spec_layout(),
    {
        let mut out = Vec::new();
        proof {
            lemma_height_at_most_size(*self.root, self.root.order as nat);
        }
        self.root.collect_layout(0, &mut out);
        proof {
            let shown = |e: (usize, &Vec<T>)| (e.0 as int, e.1@);
            assert(Seq::<(usize, &Vec<T>)>::empty().map_values(shown) + self.spec_layout() =~= self.spec_layout());
        }
        out
    }

    /// The number of keys.
    pub fn len(&self) -> (r: usize)
        requires
            self.well_formed(),
        ensures
            r == self@.len(),
    {
        self.count
    }

    /// Adds `value`, or refuses it and changes nothing when it is already present.
    pub fn insert(&mut self, value: T) -> (r: Result<(), InsertError>)
        requires
            is_total_order::<T>(),
            old(self).well_formed(),
            old(self)@.len() < usize::MAX,
        ensures
            final(self).well_formed(),
            final(self).order() == old(self).order(),
            r is Err <==> old(self)@.contains(value),
            r is Err ==> r == Err::<(), InsertError>(InsertError::DuplicateKey) && final(self)@ == old(self)@,
            r is Ok ==> final(self)@ == sorted_insert(old(self)@, value),
    {
        let order_of_nodes = self.root.order;
        let ghost order = order_of_nodes as nat;
        match self.root.insert(value) {
            Err(e) => Err(e),
            Ok(InsertionResult::NotFull) => {
                proof {
                    crate::order::lemma_sorted_insert_ascending(old(self)@, value);
                }
                self.count = self.count + 1;
                Ok(())
            },
            Ok(InsertionResult::Full(median, left, right)) => {
                let ghost m = median;
                let ghost l = left;
                let ghost rr = right;
                let new_root = NodeData::with_children(order_of_nodes, vec![median], vec![left, right]);
                proof {
                    crate::order::lemma_sorted_insert_ascending(old(self)@, value);
                    let n = *new_root;
                    assert(n.children@[0] == l);
                    assert(n.children@[1] == rr);
                    lemma_wf_elim(*l, order);
                    assert(n.height() == 1 + l.height());
                    assert forall|k: int| 0 <= k < n.children.len() implies #[trigger] n.child_fits(k, order) by {}
                    lemma_wf_intro(n, order);
                    assert(n.inorder_from(1) == rr.inorder() + Seq::<T>::empty());
                    assert(n.inorder() == l.inorder() + (seq![m] + n.inorder_from(1)));
                    assert(n.inorder() =~= l.inorder() + seq![m] + rr.inorder());
                }
                self.root = new_root;
                self.count = self.count + 1;
                Ok(())
            },
        }
    }
}

impl<'a, T: Ord> View for Iter<'a, T> {
    type V = Seq<T>;

    /// The keys not yet handed out, in ascending order.
    closed spec fn view(&self) -> Seq<T> {
        self.refs@.subrange(self.index as int, self.index_back as int).map_values(|r: &T| *r)
    }
}

impl<'a, T: Ord> Iter<'a, T> {
    /// The two ends lie within the collected keys, the front not past the back.
    pub closed spec fn well_formed(&self) -> bool {
        self.index <= self.index_back <= self.refs@.len()
    }

    /// The smallest key not yet handed out, or `None` once all have been.
    pub fn next(&mut self) -> (r: Option<&'a T>)
        requires
            old(self).well_formed(),
        ensures
            final(self).well_formed(),
            old(self)@.len() == 0 ==> r is None && final(self)@ == old(self)@,
            old(self)@.len() > 0 ==> r == Some(&old(self)@[0]) && final(self)@ == old(self)@.drop_first(),
    {
        if self.index >= self.index_back {
            None
        } else {
            let ret = self.refs[self.index];
            self.index = self.index + 1;
            assert(self@ =~= old(self)@.drop_first());
            Some(ret)
        }
    }

    /// The largest key not yet handed out, or `None` once all have been.
    pub fn next_back(&mut self) -> (r: Option<&'a T>)
        requires
            old(self).well_formed(),
        ensures
            final(self).well_formed(),
            old(self)@.len() == 0 ==> r is None && final(self)@ == old(self)@,
            old(self)@.len() > 0 ==> r == Some(&old(self)@.last()) && final(self)@ == old(self)@.drop_last(),
    {
        if self.index >= self.index_back {
            None
        } else {
            self.index_back = self.index_back - 1;
            let ret = self.refs[self.index_back];
            assert(self@ =~= old(self)@.drop_last());
            Some(ret)
        }
    }
}

} // verus!
