//! A singly linked list of numbers with stack-style front operations.

use vstd::prelude::*;

verus! {

/// One list node: a value and the rest of the list.
pub struct Node {
    pub val: i32,
    pub next: Option<Box<Node>>,
}

impl Node {
    /// The values from this node onward.
    pub open spec fn view(self) -> Seq<i32>
        decreases self,
    {
        match self.next {
            Some(rest) => seq![self.val] + rest.view(),
            None => seq![self.val],
        }
    }
}

/// A singly linked list; empty when `head` is absent.
pub struct SinglyList {
    pub head: Option<Box<Node>>,
}

impl SinglyList {
    /// The values this list holds, front first.
    pub open spec fn view(self) -> Seq<i32> {
        match self.head {
            Some(n) => n.view(),
            None => Seq::<i32>::empty(),
        }
    }

    /// An empty list.
    pub fn new() -> (r: Self)
        ensures
            r.view() == Seq::<i32>::empty(),
    {
        SinglyList { head: None }
    }

    /// Prepend a value.
    pub fn push_front(&mut self, val: i32)
        ensures
            final(self).view() == seq![val] + old(self).view(),
    {
        let new_head = Box::new(Node { val, next: self.head.take() });
        self.head = Some(new_head);
        proof {
            assert(self.view() =~= seq![val] + old(self).view());
        }
    }

    /// Remove and return the front value, if any.
    pub fn pop_front(&mut self) -> (r: Option<i32>)
        ensures
            old(self).view().len() == 0 ==> r is None && final(self).view() == old(self).view(),
            old(self).view().len() > 0 ==> r == Some(old(self).view()[0]) && final(self).view()
                == old(self).view().drop_first(),
    {
        let taken = self.head.take();
        match taken {
            None => None,
            Some(node) => {
                let n = *node;
                self.head = n.next;
                proof {
                    assert(old(self).view() =~= seq![n.val] + self.view());
                    assert(self.view() =~= old(self).view().drop_first());
                }
                Some(n.val)
            },
        }
    }
}

} // verus!
