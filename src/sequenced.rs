//! A sequence of values that grows at both ends, held as a chain of owned nodes.
use vstd::prelude::*;

verus! {

/// A sequence of values that grows at both ends.
pub struct SequencedList<T> {
    length: usize,
    head: Option<Box<Node<T>>>,
}

struct Node<T> {
    value: T,
    next: Option<Box<Node<T>>>,
}

/// The values of a list, handed out from the front or from the back.
pub struct Iter<'a, T> {
    length: usize,
    head: &'a Option<Box<Node<T>>>,
}

/// The values of the chain that starts at `link`, first to last.
spec fn chain<T>(link: Option<Box<Node<T>>>) -> Seq<T>
    decreases link,
{
    match link {
        None => Seq::empty(),
        Some(node) => seq![node.value] + chain(node.next),
    }
}

impl<T> Node<T> {
    spec fn values(self) -> Seq<T> {
        seq![self.value] + chain(self.next)
    }

    fn new(val: T) -> (r: Self)
        ensures
            r.value == val,
            r.next is None,
    {
        Node { value: val, next: None }
    }

    /// Hangs a new last node holding `next_val` after this one.
    fn insert_next(&mut self, next_val: T)
        requires
            old(self).next is None,
        ensures
            final(self).values() == old(self).values().push(next_val),
    {
        self.next = Some(Box::new(Node::new(next_val)));
        assert(chain::<T>(None) == Seq::<T>::empty());
        assert(chain(self.next) =~= seq![next_val]);
        assert(self.values() =~= old(self).values().push(next_val));
    }

    /// The node `index` places further along the chain.
    fn nth(&self, index: usize) -> (r: &Self)
        requires
            index < self.values().len(),
        ensures
            r.values() == self.values().skip(index as int),
        decreases index,
    {
        if index == 0 {
            assert(self.values().skip(0) =~= self.values());
            self
        } else {
            match &self.next {
                Some(next) => {
                    let r = next.nth(index - 1);
                    assert(self.values().skip(index as int) =~= next.values().skip(index - 1));
                    r
                },
                None => vstd::pervasive::unreached(),
            }
        }
    }
}

/// Adds `val` after the last node of the chain at `link`.
fn push_back_link<T>(link: &mut Option<Box<Node<T>>>, val: T)
    ensures
        chain(*final(link)) == chain(*old(link)).push(val),
    decreases *old(link),
{
    match link {
        Some(node) => {
            if node.next.is_none() {
                node.insert_next(val);
            } else {
                push_back_link(&mut node.next, val);
                assert(node.values() =~= old(link).unwrap().values().push(val));
            }
        },
        None => {
            *link = Some(Box::new(Node::new(val)));
            assert(chain::<T>(None) == Seq::<T>::empty());
            assert(chain(*link) =~= seq![val]);
        },
    }
}

/// Hangs the chain `rest` after the last node of the chain at `link`.
fn append_link<T>(link: &mut Option<Box<Node<T>>>, rest: Option<Box<Node<T>>>)
    ensures
        chain(*final(link)) == chain(*old(link)) + chain(rest),
    decreases *old(link),
{
    match link {
        Some(node) => {
            append_link(&mut node.next, rest);
            assert(node.values() =~= old(link).unwrap().values() + chain(rest));
        },
        None => {
            *link = rest;
            assert(chain(rest) =~= Seq::<T>::empty() + chain(rest));
        },
    }
}

impl<T> View for SequencedList<T> {
    type V = Seq<T>;

    /// The values, front to back.
    closed spec fn view(&self) -> Seq<T> {
        chain(self.head)
    }
}

impl<T> SequencedList<T> {
    /// The stored length is the number of values.
    pub closed spec fn well_formed(&self) -> bool {
        self.length == self@.len()
    }

    /// An empty list.
    pub fn new() -> (r: SequencedList<T>)
        ensures
            r.well_formed(),
            r@ == Seq::<T>::empty(),
    {
        SequencedList { length: 0, head: None }
    }

    /// Puts `val` in front of the first value.
    pub fn push_front(&mut self, val: T)
        requires
            old(self).well_formed(),
            old(self)@.len() < usize::MAX,
        ensures
            final(self).well_formed(),
            final(self)@ == seq![val] + old(self)@,
    {
        self.length = self.length + 1;
        let mut node = Box::new(Node::new(val));
        core::mem::swap(&mut node.next, &mut self.head);
        self.head = Some(node);
    }

    /// Puts `val` after the last value.
    pub fn push_back(&mut self, val: T)
        requires
            old(self).well_formed(),
            old(self)@.len() < usize::MAX,
        ensures
            final(self).well_formed(),
            final(self)@ == old(self)@.push(val),
    {
        self.length = self.length + 1;
        push_back_link(&mut self.head, val);
    }

    /// The value at `index`, or `None` past the end.
    pub fn get(&self, index: usize) -> (r: Option<&T>)
        requires
            self.well_formed(),
        ensures
            index < self@.len() ==> r == Some(&self@[index as int]),
            index >= self@.len() ==> r is None,
    {
        if index >= self.length {
            None
        } else {
            match &self.head {
                Some(node) => {
                    let found = node.nth(index);
                    assert(found.values()[0] == node.values()[index as int]);
                    Some(&found.value)
                },
                None => None,
            }
        }
    }

    /// The values from front to back, or from back to front.
    pub fn iter(&self) -> (r: Iter<'_, T>)
        requires
            self.well_formed(),
        ensures
            r.well_formed(),
            r@ == self@,
    {
        Iter::new(self.length, &self.head)
    }

    /// The first value.
    pub fn front(&self) -> (r: Option<&T>)
        ensures
            self@.len() > 0 ==> r == Some(&self@[0]),
            self@.len() == 0 ==> r is None,
    {
        match &self.head {
            Some(node) => Some(&node.value),
            None => None,
        }
    }

    /// The last value.
    pub fn back(&self) -> (r: Option<&T>)
        requires
            self.well_formed(),
        ensures
            self@.len() > 0 ==> r == Some(&self@.last()),
            self@.len() == 0 ==> r is None,
    {
        if self.length == 0 {
            None
        } else {
            self.get(self.length - 1)
        }
    }

    /// Removes every value.
    pub fn clear(&mut self)
        ensures
            final(self).well_formed(),
            final(self)@ == Seq::<T>::empty(),
    {
        self.head = None;
        self.length = 0;
    }

    /// The number of values.
    pub fn len(&self) -> (r: usize)
        requires
            self.well_formed(),
        ensures
            r == self@.len(),
    {
        self.length
    }

    /// Whether there are no values.
    pub fn is_empty(&self) -> (r: bool)
        requires
            self.well_formed(),
        ensures
            r == (self@.len() == 0),
    {
        self.length == 0
    }

    /// Moves every value of `other`, in order, after the last value of this list.
    pub fn append(&mut self, other: &mut Self)
        requires
            old(self).well_formed(),
            old(other).well_formed(),
            old(self)@.len() + old(other)@.len() <= usize::MAX,
        ensures
            final(self).well_formed(),
            final(other).well_formed(),
            final(self)@ == old(self)@ + old(other)@,
            final(other)@ == Seq::<T>::empty(),
    {
        let mut rest = None;
        core::mem::swap(&mut rest, &mut other.head);
        self.length = self.length + other.length;
        other.length = 0;
        append_link(&mut self.head, rest);
    }
}

impl<'a, T> View for Iter<'a, T> {
    type V = Seq<T>;

    /// The values not yet handed out, front to back.
    closed spec fn view(&self) -> Seq<T> {
        chain(*self.head).take(self.length as int)
    }
}

impl<'a, T> Iter<'a, T> {
    /// There are at least as many values left in the chain as are still to
    /// be handed out.
    pub closed spec fn well_formed(&self) -> bool {
        self.length <= chain(*self.head).len()
    }

    fn new(length: usize, head: &'a Option<Box<Node<T>>>) -> (r: Self)
        requires
            length == chain(*head).len(),
        ensures
            r.well_formed(),
            r@ == chain(*head),
    {
        assert(chain(*head).take(length as int) =~= chain(*head));
        Iter { length: length, head: head }
    }

    /// The first value not yet handed out, or `None` once all have been.
    pub fn next(&mut self) -> (r: Option<&'a T>)
        requires
            old(self).well_formed(),
        ensures
            final(self).well_formed(),
            old(self)@.len() == 0 ==> r is None && final(self)@ == old(self)@,
            old(self)@.len() > 0 ==> r == Some(&old(self)@[0]) && final(self)@ == old(self)@.drop_first(),
    {
        if self.length == 0 {
            None
        } else {
            match self.head {
                Some(node) => {
                    self.length = self.length - 1;
                    self.head = &node.next;
                    assert(self@ =~= old(self)@.drop_first());
                    Some(&node.value)
                },
                None => None,
            }
        }
    }

    /// The last value not yet handed out, or `None` once all have been.
    pub fn next_back(&mut self) -> (r: Option<&'a T>)
        requires
            old(self).well_formed(),
        ensures
            final(self).well_formed(),
            old(self)@.len() == 0 ==> r is None && final(self)@ == old(self)@,
            old(self)@.len() > 0 ==> r == Some(&old(self)@.last()) && final(self)@ == old(self)@.drop_last(),
    {
        if self.length == 0 {
            None
        } else {
            match self.head {
                Some(node) => {
                    self.length = self.length - 1;
                    let found = node.nth(self.length);
                    assert(found.values()[0] == node.values()[self.length as int]);
                    assert(self@ =~= old(self)@.drop_last());
                    Some(&found.value)
                },
                None => None,
            }
        }
    }
}

} // verus!
