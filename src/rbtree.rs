//! A red-black tree of keys: an ordered set that stays balanced under insertion.
use core::cmp::Ordering;
use vstd::arithmetic::power2::{lemma_pow2_adds, lemma_pow2_strictly_increases, lemma_pow2_unfold, pow2};
use vstd::prelude::*;

use crate::order::{ascending, is_total_order, lemma_total_order, lt, sorted_insert};
pub use crate::InsertError;

verus! {

/// The color of a tree node. An empty subtree counts as black.
#[derive(Clone, Copy, PartialEq, Eq, Debug, Structural)]
pub enum Color {
    Red,
    Black,
}

/// A set of keys kept in a red-black tree.
pub struct Rbtree<T: Ord> {
    root: Box<Node<T>>,
    count: usize,
}

/// The keys of a tree in ascending order, handed out one at a time.
pub struct Iter<'a, T: Ord> {
    stack: Vec<&'a Internal<T>>,
}

enum Node<T: Ord> {
    Leaf,
    Internal(Internal<T>),
}

struct Internal<T: Ord> {
    value: T,
    color: Color,
    left: Box<Node<T>>,
    right: Box<Node<T>>,
}

impl<T: Ord> Node<T> {
    /// The keys of the subtree, left to right.
    spec fn inorder(self) -> Seq<T>
        decreases self,
    {
        match self {
            Node::Leaf => Seq::empty(),
            Node::Internal(n) => n.left.inorder() + seq![n.value] + n.right.inorder(),
        }
    }

    spec fn spec_color(&self) -> Color {
        match self {
            Node::Leaf => Color::Black,
            Node::Internal(n) => n.color,
        }
    }

    /// Black internal nodes on the path down the left edge.
    spec fn black_height(self) -> nat
        decreases self,
    {
        match self {
            Node::Leaf => 0,
            Node::Internal(n) => n.left.black_height() + if n.color == Color::Black {
                1nat
            } else {
                0nat
            },
        }
    }

    /// Every path from this node down to an empty subtree meets as many black nodes.
    spec fn balanced(self) -> bool
        decreases self,
    {
        match self {
            Node::Leaf => true,
            Node::Internal(n) => {
                &&& n.left.balanced()
                &&& n.right.balanced()
                &&& n.left.black_height() == n.right.black_height()
            },
        }
    }

    /// No red node has a red child.
    spec fn no_red_red(self) -> bool
        decreases self,
    {
        match self {
            Node::Leaf => true,
            Node::Internal(n) => {
                &&& n.left.no_red_red()
                &&& n.right.no_red_red()
                &&& n.color == Color::Red ==> n.left.spec_color() == Color::Black
                    && n.right.spec_color() == Color::Black
            },
        }
    }

    /// Nodes on the longest path from this node down to an empty subtree.
    spec fn height(self) -> nat
        decreases self,
    {
        match self {
            Node::Leaf => 0,
            Node::Internal(n) => 1 + if n.left.height() >= n.right.height() {
                n.left.height()
            } else {
                n.right.height()
            },
        }
    }

    /// Each node with its depth below a node at `depth` and its color, root
    /// first, then the left subtree, then the right.
    spec fn layout(self, depth: int) -> Seq<(int, Color, T)>
        decreases self,
    {
        match self {
            Node::Leaf => Seq::empty(),
            Node::Internal(n) => seq![(depth, n.color, n.value)] + n.left.layout(depth + 1) + n.right.layout(
                depth + 1,
            ),
        }
    }

    /// A red node whose one red child leaves it the single red-red pair of the subtree.
    spec fn red_with_one_red_child(self) -> bool {
        match self {
            Node::Leaf => false,
            Node::Internal(n) => {
                &&& n.color == Color::Red
                &&& n.left.no_red_red()
                &&& n.right.no_red_red()
                &&& (n.left.spec_color() == Color::Red) != (n.right.spec_color() == Color::Red)
            },
        }
    }

    /// The subtree after a left rotation at its root.
    spec fn rotated_left(self) -> Node<T> {
        match self {
            Node::Internal(a) => match *a.right {
                Node::Internal(b) => Node::Internal(
                    Internal {
                        value: b.value,
                        color: b.color,
                        left: Box::new(
                            Node::Internal(
                                Internal { value: a.value, color: a.color, left: a.left, right: b.left },
                            ),
                        ),
                        right: b.right,
                    },
                ),
                Node::Leaf => self,
            },
            Node::Leaf => self,
        }
    }

    /// The subtree after a right rotation at its root.
    spec fn rotated_right(self) -> Node<T> {
        match self {
            Node::Internal(a) => match *a.left {
                Node::Internal(b) => Node::Internal(
                    Internal {
                        value: b.value,
                        color: b.color,
                        left: b.left,
                        right: Box::new(
                            Node::Internal(
                                Internal { value: a.value, color: a.color, left: b.right, right: a.right },
                            ),
                        ),
                    },
                ),
                Node::Leaf => self,
            },
            Node::Leaf => self,
        }
    }

    /// A fresh red node holding `value` over two empty subtrees.
    fn internal(value: T) -> (r: Box<Node<T>>)
        ensures
            *r == Node::Internal(
                Internal { value, color: Color::Red, left: Box::new(Node::Leaf), right: Box::new(Node::Leaf) },
            ),
    {
        Box::new(
            Node::Internal(
                Internal { color: Color::Red, value: value, left: Node::leaf(), right: Node::leaf() },
            ),
        )
    }

    /// An empty subtree.
    fn leaf() -> (r: Box<Node<T>>)
        ensures
            *r == Node::<T>::Leaf,
    {
        Box::new(Node::Leaf)
    }

    /// The node's color; an empty subtree is black.
    #[verifier::when_used_as_spec(spec_color)]
    fn color(&self) -> (r: Color)
        ensures
            r == self.spec_color(),
    {
        match self {
            Node::Leaf => Color::Black,
            Node::Internal(node) => node.color,
        }
    }

    /// The fields of an internal node, to change in place.
    fn unwrap_internal_mut(&mut self) -> (r: &mut Internal<T>)
        requires
            *old(self) is Internal,
        ensures
            *r == (*old(self))->Internal_0,
            *final(self) == Node::Internal(*final(r)),
    {
        match self {
            Node::Internal(node) => node,
            Node::Leaf => vstd::pervasive::unreached(),
        }
    }

    /// Whether the node holds a key.
    fn is_internal(&self) -> (r: bool)
        ensures
            r == self is Internal,
    {
        match self {
            Node::Internal(_) => true,
            Node::Leaf => false,
        }
    }
}

/// A subtree is no deeper than it has keys.
proof fn lemma_height_at_most_size<T: Ord>(n: Node<T>)
    ensures
        n.height() <= n.inorder().len(),
    decreases n,
{
    if let Node::Internal(i) = n {
        lemma_height_at_most_size(*i.left);
        lemma_height_at_most_size(*i.right);
    }
}

/// Nodes on the longest path from `node` down to an empty subtree.
fn subtree_height<T: Ord>(node: &Box<Node<T>>) -> (r: usize)
    requires
        (**node).inorder().len() <= usize::MAX,
    ensures
        r == (**node).height(),
    decreases **node,
{
    proof {
        lemma_height_at_most_size(**node);
    }
    match &**node {
        Node::Leaf => 0,
        Node::Internal(n) => {
            let l = subtree_height(&n.left);
            let r = subtree_height(&n.right);
            if l >= r {
                l + 1
            } else {
                r + 1
            }
        },
    }
}

/// Appends the layout of the subtree at `node`, found at `depth`, to `out`.
fn collect_layout<'a, T: Ord>(node: &'a Box<Node<T>>, depth: usize, out: &mut Vec<(usize, Color, &'a T)>)
    requires
        depth + (**node).height() <= usize::MAX,
    ensures
        final(out)@.len() == old(out)@.len() + (**node).layout(depth as int).len(),
        forall|i: int| 0 <= i < old(out)@.len() ==> #[trigger] final(out)@[i] == old(out)@[i],
        forall|i: int|
            0 <= i < (**node).layout(depth as int).len() ==> {
                let e = #[trigger] final(out)@[old(out)@.len() + i];
                (e.0 as int, e.1, *e.2) == (**node).layout(depth as int)[i]
            },
    decreases **node,
{
    match &**node {
        Node::Leaf => {},
        Node::Internal(n) => {
            let ghost start = out@.len();
            out.push((depth, n.color, &n.value));
            collect_layout(&n.left, depth + 1, out);
            let ghost mid = out@.len();
            collect_layout(&n.right, depth + 1, out);
            proof {
                let whole = (**node).layout(depth as int);
                let ll = n.left.layout(depth + 1);
                let rl = n.right.layout(depth + 1);
                assert(whole == seq![(depth as int, n.color, n.value)] + ll + rl);
                assert forall|i: int| 0 <= i < whole.len() implies {
                    let e = #[trigger] out@[start + i];
                    (e.0 as int, e.1, *e.2) == whole[i]
                } by {
                    if i == 0 {
                    } else if i < 1 + ll.len() {
                        assert(out@[start + i] == out@[start + 1 + (i - 1)]);
                    } else {
                        assert(out@[start + i] == out@[mid + (i - 1 - ll.len())]);
                    }
                }
            }
        },
    }
}

/// Rotates the subtree left: its right child becomes its root.
fn left_rotate<T: Ord>(this: &mut Box<Node<T>>)
    requires
        **old(this) is Internal,
        *(old(this)->Internal_0).right is Internal,
    ensures
        **final(this) == (**old(this)).rotated_left(),
{
    let mut taken = Node::leaf();
    core::mem::swap(this, &mut taken);
    if let Node::Internal(Internal { value, color, left, right }) = *taken {
        if let Node::Internal(child) = *right {
            let Internal { value: c_value, color: c_color, left: c_left, right: c_right } = child;
            let lowered = Internal { value, color, left, right: c_left };
            *this = Box::new(
                Node::Internal(
                    Internal { value: c_value, color: c_color, left: Box::new(Node::Internal(lowered)), right: c_right },
                ),
            );
        }
    }
}

/// Rotates the subtree right: its left child becomes its root.
fn right_rotate<T: Ord>(this: &mut Box<Node<T>>)
    requires
        **old(this) is Internal,
        *(old(this)->Internal_0).left is Internal,
    ensures
        **final(this) == (**old(this)).rotated_right(),
{
    let mut taken = Node::leaf();
    core::mem::swap(this, &mut taken);
    if let Node::Internal(Internal { value, color, left, right }) = *taken {
        if let Node::Internal(child) = *left {
            let Internal { value: c_value, color: c_color, left: c_left, right: c_right } = child;
            let lowered = Internal { value, color, left: c_right, right };
            *this = Box::new(
                Node::Internal(
                    Internal { value: c_value, color: c_color, left: c_left, right: Box::new(Node::Internal(lowered)) },
                ),
            );
        }
    }
}

/// What an insertion into a subtree leaves for the levels above to repair.
enum InsertionResult {
    /// The subtree's root is red and valid; its parent has not yet been checked.
    Inserted,
    /// The subtree's root is red and has one red child; the grandparent repairs it.
    RequiresRebalance,
    /// The subtree is valid and its root keeps its color.
    Balanced,
}

/// The keys left of the root order before it, and those right of it after it.
proof fn lemma_ascending_parts<T: Ord>(n: Internal<T>)
    requires
        ascending(Node::Internal(n).inorder()),
    ensures
        ascending(n.left.inorder()),
        ascending(n.right.inorder()),
        forall|i: int| 0 <= i < n.left.inorder().len() ==> lt(#[trigger] n.left.inorder()[i], n.value),
        forall|j: int| 0 <= j < n.right.inorder().len() ==> lt(n.value, #[trigger] n.right.inorder()[j]),
{
    let l = n.left.inorder();
    let r = n.right.inorder();
    let s = Node::Internal(n).inorder();
    assert(s == l + seq![n.value] + r);
    assert forall|i: int, j: int| 0 <= i < j < l.len() implies #[trigger] lt(l[i], l[j]) by {
        assert(s[i] == l[i] && s[j] == l[j]);
    }
    assert forall|i: int, j: int| 0 <= i < j < r.len() implies #[trigger] lt(r[i], r[j]) by {
        assert(s[l.len() + 1 + i] == r[i] && s[l.len() + 1 + j] == r[j]);
    }
    assert forall|i: int| 0 <= i < l.len() implies lt(#[trigger] l[i], n.value) by {
        assert(s[i] == l[i] && s[l.len() as int] == n.value);
    }
    assert forall|j: int| 0 <= j < r.len() implies lt(n.value, #[trigger] r[j]) by {
        assert(s[l.len() + 1 + j] == r[j] && s[l.len() as int] == n.value);
    }
}

/// A key is in a subtree exactly when it is in one of its children or at its root.
proof fn lemma_inorder_contains<T: Ord>(n: Internal<T>, k: T)
    ensures
        Node::Internal(n).inorder().contains(k) <==> n.left.inorder().contains(k) || k == n.value
            || n.right.inorder().contains(k),
{
    let l = n.left.inorder();
    let r = n.right.inorder();
    let s = Node::Internal(n).inorder();
    if s.contains(k) {
        let i = choose|i: int| 0 <= i < s.len() && s[i] == k;
        if i < l.len() {
            assert(l[i] == k);
        } else if i > l.len() {
            assert(r[i - l.len() - 1] == k);
        }
    }
    if l.contains(k) {
        let i = choose|i: int| 0 <= i < l.len() && l[i] == k;
        assert(s[i] == k);
    }
    if r.contains(k) {
        let i = choose|i: int| 0 <= i < r.len() && r[i] == k;
        assert(s[l.len() + 1 + i] == k);
    }
    if k == n.value {
        assert(s[l.len() as int] == k);
    }
}

/// Rotations keep the keys in the same order.
proof fn lemma_rotations_keep_inorder<T: Ord>(n: Node<T>)
    ensures
        n.rotated_left().inorder() == n.inorder(),
        n.rotated_right().inorder() == n.inorder(),
{
    if let Node::Internal(a) = n {
        if let Node::Internal(b) = *a.right {
            let lowered = Node::Internal(Internal { value: a.value, color: a.color, left: a.left, right: b.left });
            assert(lowered.inorder() == a.left.inorder() + seq![a.value] + b.left.inorder());
            assert(a.right.inorder() == b.left.inorder() + seq![b.value] + b.right.inorder());
            assert(n.rotated_left().inorder() == lowered.inorder() + seq![b.value] + b.right.inorder());
            assert(n.rotated_left().inorder() =~= n.inorder());
        }
        if let Node::Internal(b) = *a.left {
            let lowered = Node::Internal(Internal { value: a.value, color: a.color, left: b.right, right: a.right });
            assert(lowered.inorder() == b.right.inorder() + seq![a.value] + a.right.inorder());
            assert(a.left.inorder() == b.left.inorder() + seq![b.value] + b.right.inorder());
            assert(n.rotated_right().inorder() == b.left.inorder() + seq![b.value] + lowered.inorder());
            assert(n.rotated_right().inorder() =~= n.inorder());
        }
    }
}

/// Inserts `value` into the subtree at `this` and reports what is left to repair.
fn insert<T: Ord>(this: &mut Box<Node<T>>, value: T) -> (r: Result<InsertionResult, InsertError>)
    requires
        is_total_order::<T>(),
        ascending((**old(this)).inorder()),
        (**old(this)).no_red_red(),
        (**old(this)).balanced(),
    ensures
        r is Err <==> (**old(this)).inorder().contains(value),
        r is Err ==> *final(this) == *old(this),
        r is Ok ==> {
            &&& (**final(this)).inorder() == sorted_insert((**old(this)).inorder(), value)
            &&& (**final(this)).balanced()
            &&& (**final(this)).black_height() == (**old(this)).black_height()
        },
        r == Ok::<InsertionResult, InsertError>(InsertionResult::Inserted) ==> {
            &&& (**old(this)).spec_color() == Color::Black
            &&& **final(this) is Internal
            &&& (**final(this)).spec_color() == Color::Red
            &&& (**final(this)).no_red_red()
        },
        r == Ok::<InsertionResult, InsertError>(InsertionResult::Balanced) ==> {
            &&& (**final(this)).spec_color() == (**old(this)).spec_color()
            &&& (**final(this)).no_red_red()
        },
        r == Ok::<InsertionResult, InsertError>(InsertionResult::RequiresRebalance) ==> {
            &&& (**old(this)).spec_color() == Color::Red
            &&& (**final(this)).red_with_one_red_child()
        },
    decreases **old(this),
{
    proof {
        lemma_total_order::<T>();
    }
    if !this.is_internal() {
        *this = Node::internal(value);
        assert((**this).inorder() =~= seq![value]);
        return Ok(InsertionResult::Inserted);
    }
    let mut taken = Node::leaf();
    core::mem::swap(this, &mut taken);
    let mut node = match *taken {
        Node::Internal(node) => node,
        Node::Leaf => vstd::pervasive::unreached(),
    };
    proof {
        lemma_ascending_parts(node);
        lemma_inorder_contains(node, value);
    }
    let ghost old_node = node;
    let ghost l = node.left.inorder();
    let ghost rt = node.right.inorder();
    match value.cmp(&node.value) {
        Ordering::Equal => {
            *this = Box::new(Node::Internal(node));
            assert(l.len() < (**this).inorder().len());
            assert((**this).inorder()[l.len() as int] == value);
            Err(InsertError::DuplicateKey)
        },
        Ordering::Less => {
            let result = insert(&mut node.left, value);
            proof {
                assert(lt(value, old_node.value));
                assert(!rt.contains(value)) by {
                    if rt.contains(value) {
                        let j = choose|j: int| 0 <= j < rt.len() && rt[j] == value;
                        assert(lt(old_node.value, rt[j]));
                    }
                }
                assert(l + seq![old_node.value] + rt =~= l + (seq![old_node.value] + rt));
                crate::order::lemma_sorted_insert_before(l, seq![old_node.value] + rt, value);
                assert(sorted_insert(l, value) + (seq![old_node.value] + rt) =~= sorted_insert(l, value)
                    + seq![old_node.value] + rt);
            }
            match result {
                Err(e) => {
                    *this = Box::new(Node::Internal(node));
                    return Err(e);
                },
                Ok(InsertionResult::Balanced) => {
                    *this = Box::new(Node::Internal(node));
                    return Ok(InsertionResult::Balanced);
                },
                Ok(InsertionResult::Inserted) => {
                    let red = node.color == Color::Red;
                    *this = Box::new(Node::Internal(node));
                    if red {
                        return Ok(InsertionResult::RequiresRebalance);
                    } else {
                        return Ok(InsertionResult::Balanced);
                    }
                },
                Ok(InsertionResult::RequiresRebalance) => {
                    if node.right.color() == Color::Red {
                        let ghost c = *node.left;
                        let ghost sib = *node.right;
                        node.right.unwrap_internal_mut().color = Color::Black;
                        node.left.unwrap_internal_mut().color = Color::Black;
                        node.color = Color::Red;
                        proof {
                            assert((*node.left).inorder() == c.inorder());
                            assert((*node.right).inorder() == sib.inorder());
                            assert((*node.left).black_height() == c.black_height() + 1);
                            assert((*node.right).black_height() == sib.black_height() + 1);
                            assert(sib.no_red_red());
                            assert(sib.balanced());
                            assert(sib is Internal);
                            assert(*node.right == Node::Internal(Internal { color: Color::Black, ..sib->Internal_0 }));
                            assert(old_node.color == Color::Black);
                            assert(c.black_height() == old_node.left.black_height());
                            assert(sib.black_height() == old_node.left.black_height());
                            assert((*node.left).no_red_red());
                            assert((*node.right).no_red_red());
                            assert((*node.left).balanced());
                            assert((*node.right).balanced());
                            assert(Node::Internal(node).no_red_red());
                            assert(Node::Internal(node).balanced());
                        }
                        *this = Box::new(Node::Internal(node));
                        return Ok(InsertionResult::Inserted);
                    }
                    let ghost c = *node.left;
                    let ghost sib = *node.right;
                    proof {
                        assert(sib.no_red_red());
                        assert(sib.balanced());
                        assert(old_node.color == Color::Black);
                        assert(c.black_height() == sib.black_height());
                    }
                    if node.left.unwrap_internal_mut().right.color() == Color::Red {
                        proof {
                            let ci = c->Internal_0;
                            let x = *ci.right;
                            assert(x.no_red_red());
                            assert(x.balanced());
                            assert((*ci.left).no_red_red());
                            assert((*ci.left).balanced());
                            lemma_rotations_keep_inorder(c);
                        }
                        left_rotate(&mut node.left);
                    }
                    let ghost c2 = *node.left;
                    proof {
                        let c2i = c2->Internal_0;
                        assert(c2.inorder() == c.inorder());
                        assert(c2i.color == Color::Red);
                        assert((*c2i.left).spec_color() == Color::Red);
                        assert((*c2i.left).no_red_red());
                        assert((*c2i.left).balanced());
                        assert((*c2i.right).spec_color() == Color::Black);
                        assert((*c2i.right).no_red_red());
                        assert((*c2i.right).balanced());
                        assert((*c2i.left).black_height() == sib.black_height());
                        assert((*c2i.right).black_height() == sib.black_height());
                    }
                    node.color = Color::Red;
                    node.left.unwrap_internal_mut().color = Color::Black;
                    proof {
                        assert((*node.left).inorder() == c2.inorder());
                    }
                    *this = Box::new(Node::Internal(node));
                    let ghost m = **this;
                    proof {
                        lemma_rotations_keep_inorder(m);
                    }
                    right_rotate(this);
                    proof {
                        let f = **this;
                        let fi = f->Internal_0;
                        assert((*fi.left).no_red_red());
                        assert((*fi.left).balanced());
                        assert((*fi.right).no_red_red());
                        assert((*fi.right).balanced());
                        assert(f.no_red_red());
                        assert(f.balanced());
                        assert(f.inorder() == m.inorder());
                        assert(m.inorder() == sorted_insert(Node::Internal(old_node).inorder(), value));
                        assert(f.black_height() == Node::Internal(old_node).black_height());
                    }
                    Ok(InsertionResult::Balanced)
                },
            }
        },
        Ordering::Greater => {
            let result = insert(&mut node.right, value);
            proof {
                assert(!l.contains(value)) by {
                    if l.contains(value) {
                        let i = choose|i: int| 0 <= i < l.len() && l[i] == value;
                        assert(lt(l[i], old_node.value));
                    }
                }
                assert(lt(old_node.value, value));
                let prefix = l + seq![old_node.value];
                assert forall|i: int| 0 <= i < prefix.len() implies lt(#[trigger] prefix[i], value) by {
                    if i < l.len() {
                        assert(lt(l[i], old_node.value));
                    }
                }
                crate::order::lemma_sorted_insert_after(prefix, rt, value);
            }
            match result {
                Err(e) => {
                    *this = Box::new(Node::Internal(node));
                    return Err(e);
                },
                Ok(InsertionResult::Balanced) => {
                    *this = Box::new(Node::Internal(node));
                    return Ok(InsertionResult::Balanced);
                },
                Ok(InsertionResult::Inserted) => {
                    let red = node.color == Color::Red;
                    *this = Box::new(Node::Internal(node));
                    if red {
                        return Ok(InsertionResult::RequiresRebalance);
                    } else {
                        return Ok(InsertionResult::Balanced);
                    }
                },
                Ok(InsertionResult::RequiresRebalance) => {
                    if node.left.color() == Color::Red {
                        let ghost c = *node.right;
                        let ghost sib = *node.left;
                        node.right.unwrap_internal_mut().color = Color::Black;
                        node.left.unwrap_internal_mut().color = Color::Black;
                        node.color = Color::Red;
                        proof {
                            assert((*node.right).inorder() == c.inorder());
                            assert((*node.left).inorder() == sib.inorder());
                            assert((*node.right).black_height() == c.black_height() + 1);
                            assert((*node.left).black_height() == sib.black_height() + 1);
                            assert(sib.no_red_red());
                            assert(sib.balanced());
                            assert(sib is Internal);
                            assert(*node.left == Node::Internal(Internal { color: Color::Black, ..sib->Internal_0 }));
                            assert(old_node.color == Color::Black);
                            assert(c.black_height() == old_node.right.black_height());
                            assert(sib.black_height() == old_node.right.black_height());
                            assert((*node.left).no_red_red());
                            assert((*node.right).no_red_red());
                            assert((*node.left).balanced());
                            assert((*node.right).balanced());
                            assert(Node::Internal(node).no_red_red());
                            assert(Node::Internal(node).balanced());
                        }
                        *this = Box::new(Node::Internal(node));
                        return Ok(InsertionResult::Inserted);
                    }
                    let ghost c = *node.right;
                    let ghost sib = *node.left;
                    proof {
                        assert(sib.no_red_red());
                        assert(sib.balanced());
                        assert(old_node.color == Color::Black);
                        assert(c.black_height() == sib.black_height());
                    }
                    if node.right.unwrap_internal_mut().left.color() == Color::Red {
                        proof {
                            let ci = c->Internal_0;
                            let x = *ci.left;
                            assert(x.no_red_red());
                            assert(x.balanced());
                            assert((*ci.right).no_red_red());
                            assert((*ci.right).balanced());
                            lemma_rotations_keep_inorder(c);
                        }
                        right_rotate(&mut node.right);
                    }
                    let ghost c2 = *node.right;
                    proof {
                        let c2i = c2->Internal_0;
                        assert(c2.inorder() == c.inorder());
                        assert(c2i.color == Color::Red);
                        assert((*c2i.right).spec_color() == Color::Red);
                        assert((*c2i.right).no_red_red());
                        assert((*c2i.right).balanced());
                        assert((*c2i.left).spec_color() == Color::Black);
                        assert((*c2i.left).no_red_red());
                        assert((*c2i.left).balanced());
                        assert((*c2i.right).black_height() == sib.black_height());
                        assert((*c2i.left).black_height() == sib.black_height());
                    }
                    node.color = Color::Red;
                    node.right.unwrap_internal_mut().color = Color::Black;
                    proof {
                        assert((*node.right).inorder() == c2.inorder());
                    }
                    *this = Box::new(Node::Internal(node));
                    let ghost m = **this;
                    proof {
                        lemma_rotations_keep_inorder(m);
                    }
                    left_rotate(this);
                    proof {
                        let f = **this;
                        let fi = f->Internal_0;
                        assert((*fi.left).no_red_red());
                        assert((*fi.left).balanced());
                        assert((*fi.right).no_red_red());
                        assert((*fi.right).balanced());
                        assert(f.no_red_red());
                        assert(f.balanced());
                        assert(f.inorder() == m.inorder());
                        assert(m.inorder() == sorted_insert(Node::Internal(old_node).inorder(), value));
                        assert(f.black_height() == Node::Internal(old_node).black_height());
                    }
                    Ok(InsertionResult::Balanced)
                },
            }
        },
    }
}

impl<T: Ord> View for Rbtree<T> {
    type V = Seq<T>;

    /// The keys, left to right.
    closed spec fn view(&self) -> Seq<T> {
        self.root.inorder()
    }
}

impl<T: Ord> Rbtree<T> {
    /// No red node has a red child.
    pub closed spec fn no_red_red(&self) -> bool {
        self.root.no_red_red()
    }

    /// Every path from the root to an empty subtree meets as many black nodes.
    pub closed spec fn black_balanced(&self) -> bool {
        self.root.balanced()
    }

    /// The root is black, or the tree is empty.
    pub closed spec fn root_is_black(&self) -> bool {
        self.root.spec_color() == Color::Black
    }

    /// The tree's invariant: keys ascend, the red-black rules hold and the
    /// count is the number of keys.
    pub closed spec fn well_formed(&self) -> bool {
        &&& ascending(self@)
        &&& self.no_red_red()
        &&& self.black_balanced()
        &&& self.root_is_black()
        &&& self.count == self@.len()
    }

    /// An empty tree.
    pub fn new() -> (r: Self)
        ensures
            r.well_formed(),
            r@ == Seq::<T>::empty(),
    {
        Rbtree { root: Node::leaf(), count: 0 }
    }

    /// The keys in ascending order.
    pub fn iter(&self) -> (r: Iter<'_, T>)
        ensures
            r@ == self@,
    {
        Iter::new(self)
    }

    /// The number of keys.
    pub fn len(&self) -> (r: usize)
        requires
            self.well_formed(),
        ensures
            r == self@.len(),
    {
        self.count
    }

    /// The color of the root; an empty tree counts as black.
    pub fn root_color(&self) -> (r: Color)
        ensures
            r == Color::Black <==> self.root_is_black(),
    {
        self.root.color()
    }

    /// Nodes on the longest path from the root down to an empty subtree.
    pub closed spec fn spec_height(&self) -> nat {
        self.root.height()
    }

    /// Nodes on the longest path from the root down to an empty subtree.
    pub fn height(&self) -> (r: usize)
        requires
            self.well_formed(),
        ensures
            r == self.spec_height(),
    {
        subtree_height(&self.root)
    }

    /// Each key with its depth and its node's color: the root first, then
    /// its left subtree, then its right subtree.
    pub closed spec fn spec_layout(&self) -> Seq<(int, Color, T)> {
        self.root.layout(0)
    }

    /// Each key with its depth and its node's color: the root first, then
    /// its left subtree, then its right subtree.
    pub fn layout(&self) -> (r: Vec<(usize, Color, &T)>)
        requires
            self.well_formed(),
        ensures
            r@.len() == self.spec_layout().len(),
            forall|i: int|
                0 <= i < r@.len() ==> {
                    let e = #[trigger] r@[i];
                    (e.0 as int, e.1, *e.2) == self.spec_layout()[i]
                },
    {
        let mut out = Vec::new();
        proof {
            lemma_height_at_most_size(*self.root);
        }
        collect_layout(&self.root, 0, &mut out);
        proof {
            assert forall|i: int| 0 <= i < out@.len() implies {
                let e = #[trigger] out@[i];
                (e.0 as int, e.1, *e.2) == self.spec_layout()[i]
            } by {
                assert(out@[0 + i] == out@[i]);
            }
        }
        out
    }

    /// Adds `value`, or refuses it and changes nothing when it is already present.
    pub fn insert(&mut self, value: T) -> (r: Result<(), InsertError>)
        requires
            is_total_order::<T>(),
            old(self).well_formed(),
            old(self)@.len() < usize::MAX,
        ensures
            final(self).well_formed(),
            final(self).no_red_red(),
            final(self).black_balanced(),
            final(self).root_is_black(),
            r is Err <==> old(self)@.contains(value),
            r is Err ==> r == Err::<(), InsertError>(InsertError::DuplicateKey) && *final(self) == *old(self),
            r is Ok ==> final(self)@ == sorted_insert(old(self)@, value),
    {
        proof {
            lemma_total_order::<T>();
        }
        match insert(&mut self.root, value) {
            Err(e) => Err(e),
            Ok(InsertionResult::Balanced) => {
                proof {
                    crate::order::lemma_sorted_insert_ascending(old(self)@, value);
                }
                self.count = self.count + 1;
                Ok(())
            },
            Ok(InsertionResult::Inserted) => {
                let ghost top = *self.root;
                self.root.unwrap_internal_mut().color = Color::Black;
                proof {
                    crate::order::lemma_sorted_insert_ascending(old(self)@, value);
                    assert(top.no_red_red());
                    assert(top.balanced());
                    assert(self.root.inorder() == top.inorder());
                }
                self.count = self.count + 1;
                Ok(())
            },
            Ok(InsertionResult::RequiresRebalance) => {
                // a black root never asks its parent to repair it
                proof {
                    assert(old(self).root_is_black());
                }
                vstd::pervasive::unreached()
            },
        }
    }
}

/// The keys of a tree that started empty after `keys` were inserted in turn,
/// a key already present being refused and leaving the tree as it was.
pub open spec fn inserted_all<T: Ord>(keys: Seq<T>) -> Seq<T>
    decreases keys.len(),
{
    if keys.len() == 0 {
        Seq::empty()
    } else {
        let before = inserted_all(keys.drop_last());
        if before.contains(keys.last()) {
            before
        } else {
            sorted_insert(before, keys.last())
        }
    }
}

/// Whatever keys are inserted, and in whatever order, the tree then holds
/// each distinct key exactly once, in strictly ascending order: as many keys
/// as there are distinct ones among those inserted.
pub proof fn lemma_insertions_ascending_complete<T: Ord>(keys: Seq<T>)
    requires
        is_total_order::<T>(),
    ensures
        ascending(inserted_all(keys)),
        inserted_all(keys).no_duplicates(),
        inserted_all(keys).to_set() == keys.to_set(),
        inserted_all(keys).len() == keys.to_set().len(),
    decreases keys.len(),
{
    lemma_total_order::<T>();
    let r = inserted_all(keys);
    if keys.len() == 0 {
        assert(r.to_set() =~= keys.to_set());
        assert(keys.to_set() =~= Set::<T>::empty());
    } else {
        let rest = keys.drop_last();
        let k = keys.last();
        let before = inserted_all(rest);
        lemma_insertions_ascending_complete(rest);
        assert(keys =~= rest.push(k));
        assert(keys.to_set() =~= rest.to_set().insert(k)) by {
            assert forall|x: T| keys.to_set().contains(x) <==> rest.to_set().contains(x) || x == k by {
                if keys.contains(x) {
                    let i = choose|i: int| 0 <= i < keys.len() && keys[i] == x;
                    if i < rest.len() {
                        assert(rest[i] == x);
                    }
                }
                if rest.contains(x) {
                    let i = choose|i: int| 0 <= i < rest.len() && rest[i] == x;
                    assert(keys[i] == x);
                }
                if x == k {
                    assert(keys[keys.len() - 1] == x);
                }
            }
        }
        if before.contains(k) {
            assert(before.to_set().contains(k));
            assert(keys.to_set() =~= rest.to_set());
        } else {
            crate::order::lemma_sorted_insert_ascending(before, k);
            assert(r.to_set() =~= before.to_set().insert(k)) by {
                assert forall|x: T| r.to_set().contains(x) <==> before.to_set().contains(x) || x == k by {
                    assert(r.contains(x) <==> before.contains(x) || x == k);
                }
            }
        }
        assert(r.no_duplicates()) by {
            assert forall|i: int, j: int| 0 <= i < r.len() && 0 <= j < r.len() && i != j implies r[i] != r[j] by {
                if i < j {
                    assert(lt(r[i], r[j]));
                } else {
                    assert(lt(r[j], r[i]));
                }
            }
        }
        r.unique_seq_to_set();
    }
}

/// A subtree that keeps the red-black rules holds at least `2^b - 1` keys,
/// where `b` is its black height.
proof fn lemma_size_from_black_height<T: Ord>(n: Node<T>)
    requires
        n.no_red_red(),
        n.balanced(),
    ensures
        pow2(n.black_height()) <= n.inorder().len() + 1,
    decreases n,
{
    match n {
        Node::Leaf => {
            assert(pow2(0) == 1) by {
                vstd::arithmetic::power2::lemma_pow2(0);
                vstd::arithmetic::power::lemma_pow0(2);
            }
        },
        Node::Internal(i) => {
            lemma_size_from_black_height(*i.left);
            lemma_size_from_black_height(*i.right);
            if i.color == Color::Black {
                lemma_pow2_unfold(n.black_height());
            }
        },
    }
}

/// A subtree that keeps the red-black rules is at most twice its black
/// height deep, one more when its root is red.
proof fn lemma_height_from_black_height<T: Ord>(n: Node<T>)
    requires
        n.no_red_red(),
        n.balanced(),
    ensures
        n.height() <= 2 * n.black_height() + if n.spec_color() == Color::Red {
            1int
        } else {
            0int
        },
    decreases n,
{
    if let Node::Internal(i) = n {
        lemma_height_from_black_height(*i.left);
        lemma_height_from_black_height(*i.right);
    }
}

/// A tree of `n` keys is at most `2 * log2(n + 1)` nodes deep: two to the
/// power of its height is at most `(n + 1)^2`.
pub proof fn lemma_height_logarithmic<T: Ord>(tree: Rbtree<T>)
    requires
        tree.well_formed(),
    ensures
        pow2(tree.spec_height()) <= (tree@.len() + 1) * (tree@.len() + 1),
{
    let n = *tree.root;
    let b = n.black_height();
    lemma_size_from_black_height(n);
    lemma_height_from_black_height(n);
    lemma_pow2_adds(b, b);
    if n.height() < 2 * b {
        lemma_pow2_strictly_increases(n.height(), 2 * b);
    }
    let k = n.inorder().len() + 1;
    assert(pow2(b) * pow2(b) <= k * k) by (nonlinear_arith)
        requires
            pow2(b) <= k,
            0 <= pow2(b),
    ;
}

/// The keys still to come from a stack of nodes: each node's own key, then
/// its right subtree, from the top of the stack down.
spec fn pending<T: Ord>(stack: Seq<&Internal<T>>) -> Seq<T>
    decreases stack.len(),
{
    if stack.len() == 0 {
        Seq::empty()
    } else {
        let top = stack.last();
        seq![top.value] + top.right.inorder() + pending(stack.drop_last())
    }
}

impl<'a, T: Ord> View for Iter<'a, T> {
    type V = Seq<T>;

    /// The keys not yet handed out, in the order they will come.
    closed spec fn view(&self) -> Seq<T> {
        pending(self.stack@)
    }
}

impl<'a, T: Ord> Iter<'a, T> {
    fn new(tree: &'a Rbtree<T>) -> (r: Self)
        ensures
            r@ == tree@,
    {
        let mut iter = Iter { stack: Vec::new() };
        iter.push(&tree.root);
        assert(tree@ + Seq::<T>::empty() =~= tree@);
        iter
    }

    /// Stacks `node` and its chain of left descendants.
    fn push(&mut self, node: &'a Box<Node<T>>)
        ensures
            final(self)@ == (**node).inorder() + old(self)@,
    {
        let mut cur = node;
        loop
            invariant
                (**cur).inorder() + pending(self.stack@) == (**node).inorder() + pending(old(self).stack@),
            ensures
                pending(self.stack@) == (**node).inorder() + pending(old(self).stack@),
            decreases (**cur).inorder().len(),
        {
            match &**cur {
                Node::Internal(internal) => {
                    let ghost before = self.stack@;
                    self.stack.push(internal);
                    proof {
                        assert(self.stack@.drop_last() == before);
                        assert(internal.left.inorder() + pending(self.stack@) =~= (**cur).inorder()
                            + pending(before));
                    }
                    cur = &internal.left;
                },
                Node::Leaf => {
                    assert((**cur).inorder() + pending(self.stack@) =~= pending(self.stack@));
                    break ;
                },
            }
        }
    }

    /// The next key, or `None` once all have been handed out.
    pub fn next(&mut self) -> (r: Option<&'a T>)
        ensures
            old(self)@.len() == 0 ==> r is None && final(self)@ == old(self)@,
            old(self)@.len() > 0 ==> r is Some && *r.unwrap() == old(self)@[0] && final(self)@
                == old(self)@.drop_first(),
    {
        match self.stack.pop() {
            Some(node) => {
                let ghost rest = self.stack@;
                proof {
                    assert(rest == old(self).stack@.drop_last());
                    assert(old(self)@ == seq![node.value] + node.right.inorder() + pending(rest));
                    assert(old(self)@.drop_first() =~= node.right.inorder() + pending(rest));
                }
                self.push(&node.right);
                Some(&node.value)
            },
            None => None,
        }
    }
}

} // verus!
