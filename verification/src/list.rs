//! A doubly-ended list of elements, used by the segmented policy for its
//! window and probation queues. Elements are kept front to back.

use vstd::prelude::*;

verus! {

/// One list element.
pub struct Node<V> {
    pub element: V,
}

impl<V> Node<V> {
    pub fn new(val: V) -> (n: Node<V>)
        ensures
            n.element == val,
    {
        Node { element: val }
    }

    pub fn into_element(self) -> (v: V)
        ensures
            v == self.element,
    {
        self.element
    }
}

/// The list; its view is the sequence of elements from front to back.
pub struct LinkedList<V> {
    items: Vec<V>,
}

impl<V> View for LinkedList<V> {
    type V = Seq<V>;

    closed spec fn view(&self) -> Seq<V> {
        self.items@
    }
}

impl<V> LinkedList<V> {
    pub fn new() -> (l: LinkedList<V>)
        ensures
            l@.len() == 0,
    {
        LinkedList { items: Vec::new() }
    }

    pub fn len(&self) -> (n: usize)
        ensures
            n == self@.len(),
    {
        self.items.len()
    }

    /// The element at the back, if any.
    pub fn back(&self) -> (r: Option<&V>)
        ensures
            self@.len() == 0 ==> r is None,
            self@.len() > 0 ==> (r matches Some(v) && *v == self@.last()),
    {
        let n = self.items.len();
        if n == 0 {
            None
        } else {
            Some(&self.items[n - 1])
        }
    }

    pub fn push_front(&mut self, val: V)
        ensures
            final(self)@ == seq![val] + old(self)@,
    {
        self.items.insert(0, val);
        proof {
            assert(final(self)@ =~= seq![val] + old(self)@);
        }
    }

    pub fn push_back(&mut self, val: V)
        ensures
            final(self)@ == old(self)@.push(val),
    {
        self.items.push(val);
    }

    pub fn pop_front(&mut self) -> (r: Option<V>)
        ensures
            old(self)@.len() == 0 ==> r is None && final(self)@ == old(self)@,
            old(self)@.len() > 0 ==> (r matches Some(v) && v == old(self)@[0] && final(self)@
                == old(self)@.drop_first()),
    {
        if self.items.len() == 0 {
            None
        } else {
            let v = self.items.remove(0);
            proof {
                assert(final(self)@ =~= old(self)@.drop_first());
            }
            Some(v)
        }
    }

    pub fn pop_back(&mut self) -> (r: Option<V>)
        ensures
            old(self)@.len() == 0 ==> r is None && final(self)@ == old(self)@,
            old(self)@.len() > 0 ==> (r matches Some(v) && v == old(self)@.last() && final(self)@
                == old(self)@.drop_last()),
    {
        let r = self.items.pop();
        proof {
            if old(self)@.len() > 0 {
                assert(final(self)@ =~= old(self)@.drop_last());
            }
        }
        r
    }
}

} // verus!
