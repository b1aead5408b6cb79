//! A minimal singly-linked list: push-front, pop-front, peek, consuming
//! reverse, and linear search. Each node exclusively owns its successor,
//! so the list is a simple forward chain with no sharing. The length is
//! cached so the chaining set can read it in constant time; the cache
//! always equals the chain's true length.

use vstd::prelude::*;

use crate::settable::Settable;

verus! {

struct Node<T> {
    value: T,
    next: Option<Box<Node<T>>>,
}

/// A singly-linked list, viewed as the sequence of its values from the
/// front (most recently pushed first).
pub struct SimpleLinkedList<T> {
    head: Option<Box<Node<T>>>,
    len: usize,
}

spec fn link_view<T>(link: Option<Box<Node<T>>>) -> Seq<T>
    decreases link,
{
    match link {
        Option::None => Seq::empty(),
        Option::Some(node) => seq![node.value] + link_view(node.next),
    }
}

impl<T> View for SimpleLinkedList<T> {
    type V = Seq<T>;

    closed spec fn view(&self) -> Seq<T> {
        link_view(self.head)
    }
}

fn link_get<T>(link: &Option<Box<Node<T>>>, i: usize) -> (r: &T)
    requires
        i < link_view(*link).len(),
    ensures
        *r == link_view(*link)[i as int],
    decreases *link,
{
    match link {
        Option::Some(node) => {
            if i == 0 {
                &node.value
            } else {
                link_get(&node.next, i - 1)
            }
        },
        Option::None => vstd::pervasive::unreached(),
    }
}

impl<T> SimpleLinkedList<T> {
    /// The cached length matches the chain.
    pub closed spec fn wf(self) -> bool {
        self.len == self@.len()
    }

    /// An empty list.
    pub fn new() -> (r: Self)
        ensures
            r.wf(),
            r@ == Seq::<T>::empty(),
    {
        Self { head: Option::None, len: 0 }
    }

    /// Whether the list holds no value.
    pub fn is_empty(&self) -> (r: bool)
        ensures
            r == (self@.len() == 0),
    {
        match &self.head {
            Option::None => true,
            Option::Some(_) => {
                proof {
                    assert(self@.len() > 0);
                }
                false
            },
        }
    }

    /// The number of values in the list.
    pub fn len(&self) -> (r: usize)
        requires
            self.wf(),
        ensures
            r == self@.len(),
    {
        self.len
    }

    /// Prepends `element`: it becomes the new front.
    pub fn push(&mut self, element: T)
        requires
            old(self).wf(),
            old(self)@.len() < usize::MAX,
        ensures
            final(self).wf(),
            final(self)@ == seq![element] + old(self)@,
    {
        let mut taken: Option<Box<Node<T>>> = Option::None;
        core::mem::swap(&mut taken, &mut self.head);
        self.head = Option::Some(Box::new(Node { value: element, next: taken }));
        self.len = self.len + 1;
    }

    /// Removes and returns the front value, if any.
    pub fn pop(&mut self) -> (r: Option<T>)
        requires
            old(self).wf(),
        ensures
            final(self).wf(),
            old(self)@.len() == 0 ==> r is None && final(self)@ == old(self)@,
            old(self)@.len() > 0 ==> r == Option::Some(old(self)@[0]) && final(self)@ == old(
                self,
            )@.drop_first(),
    {
        let mut taken: Option<Box<Node<T>>> = Option::None;
        core::mem::swap(&mut taken, &mut self.head);
        match taken {
            Option::None => Option::None,
            Option::Some(node) => {
                let node = *node;
                self.head = node.next;
                self.len = self.len - 1;
                proof {
                    assert(old(self)@.drop_first() =~= final(self)@);
                }
                Option::Some(node.value)
            },
        }
    }

    /// The front value, without removing it.
    pub fn peek(&self) -> (r: Option<&T>)
        ensures
            self@.len() == 0 ==> r is None,
            self@.len() > 0 ==> r is Some && *r->Some_0 == self@[0],
    {
        match &self.head {
            Option::None => Option::None,
            Option::Some(node) => Option::Some(&node.value),
        }
    }

    /// The value at position `i` from the front.
    pub(crate) fn get(&self, i: usize) -> (r: &T)
        requires
            self.wf(),
            i < self@.len(),
        ensures
            *r == self@[i as int],
    {
        link_get(&self.head, i)
    }

    /// Consumes the list and returns it in the opposite order.
    pub fn rev(self) -> (r: SimpleLinkedList<T>)
        requires
            self.wf(),
        ensures
            r.wf(),
            r@ == self@.reverse(),
    {
        let ghost orig: Seq<T> = self@;
        let mut new_list = Self::new();
        let mut next = self.head;
        loop
            invariant
                new_list.wf(),
                orig.len() <= usize::MAX,
                orig == new_list@.reverse() + link_view(next),
            ensures
                new_list.wf(),
                new_list@ == orig.reverse(),
            decreases link_view(next).len(),
        {
            match next {
                Option::Some(node) => {
                    let node = *node;
                    proof {
                        assert(new_list@.len() + link_view(next).len() == orig.len()) by {
                            assert(new_list@.reverse().len() == new_list@.len());
                        }
                    }
                    let ghost prev: Seq<T> = new_list@;
                    new_list.push(node.value);
                    next = node.next;
                    proof {
                        assert(orig =~= new_list@.reverse() + link_view(next)) by {
                            assert(new_list@ == seq![node.value] + prev);
                            assert(new_list@.reverse() =~= prev.reverse() + seq![node.value]);
                        }
                    }
                },
                Option::None => {
                    proof {
                        assert(new_list@ =~= orig.reverse()) by {
                            assert(orig == new_list@.reverse());
                            assert(new_list@.reverse().reverse() =~= new_list@);
                        }
                    }
                    break ;
                },
            }
        }
        new_list
    }

    /// Consumes the list into a vector in original insertion order: the
    /// chain is kept most-recently-pushed first, so it is reversed on
    /// the way out.
    pub fn into_vec(self) -> (r: Vec<T>)
        requires
            self.wf(),
        ensures
            r@ == self@.reverse(),
    {
        let ghost target: Seq<T> = self@.reverse();
        let mut rev_list = self.rev();
        let mut r: Vec<T> = Vec::new();
        loop
            invariant
                rev_list.wf(),
                r@ + rev_list@ == target,
            ensures
                r@ == target,
            decreases rev_list@.len(),
        {
            let ghost remaining = rev_list@;
            match rev_list.pop() {
                Option::Some(x) => {
                    r.push(x);
                    proof {
                        assert(remaining == seq![x] + remaining.drop_first());
                        assert(r@ + rev_list@ =~= target);
                    }
                },
                Option::None => {
                    proof {
                        assert(r@ =~= target);
                    }
                    break ;
                },
            }
        }
        r
    }

    /// A cursor over the list, front to back.
    pub fn iter(&self) -> (r: Iter<'_, T>)
        requires
            self.wf(),
        ensures
            r.inv(),
            r.remaining() == self@,
    {
        Iter::new(self)
    }
}

impl<T: Settable> SimpleLinkedList<T> {
    /// Whether some value in the list equals `element`.
    pub fn contains(&self, element: &T) -> (r: bool)
        requires
            self.wf(),
        ensures
            r == self@.contains(*element),
    {
        let n = self.len();
        let mut i: usize = 0;
        while i < n
            invariant
                self.wf(),
                n == self@.len(),
                i <= n,
                forall|j: int| 0 <= j < i ==> self@[j] != *element,
            decreases n - i,
        {
            if self.get(i).eq_val(element) {
                return true;
            }
            i = i + 1;
        }
        proof {
            assert(!self@.contains(*element)) by {
                if self@.contains(*element) {
                    let j = choose|j: int| 0 <= j < self@.len() && self@[j] == *element;
                    assert(self@[j] != *element);
                }
            }
        }
        false
    }
}

/// A position in a borrowed list; `next` yields the values front to back.
pub struct Iter<'a, T> {
    list: &'a SimpleLinkedList<T>,
    pos: usize,
}

impl<'a, T> Iter<'a, T> {
    /// The cursor is within bounds of a well-formed list.
    pub closed spec fn inv(self) -> bool {
        self.list.wf() && self.pos <= self.list@.len()
    }

    /// The values not yet yielded, front to back.
    pub closed spec fn remaining(self) -> Seq<T> {
        self.list@.skip(self.pos as int)
    }

    /// A cursor at the front of `list`.
    pub fn new(list: &'a SimpleLinkedList<T>) -> (r: Self)
        requires
            list.wf(),
        ensures
            r.inv(),
            r.remaining() == list@,
    {
        proof {
            assert(list@.skip(0) =~= list@);
        }
        Iter { list, pos: 0 }
    }

    /// The next value, advancing the cursor.
    pub fn next(&mut self) -> (r: Option<&'a T>)
        requires
            old(self).inv(),
        ensures
            final(self).inv(),
            old(self).remaining().len() == 0 ==> r is None && final(self).remaining() == old(
                self,
            ).remaining(),
            old(self).remaining().len() > 0 ==> r is Some && *r->Some_0 == old(
                self,
            ).remaining()[0] && final(self).remaining() == old(self).remaining().drop_first(),
    {
        if self.pos < self.list.len() {
            let r = self.list.get(self.pos);
            self.pos = self.pos + 1;
            proof {
                assert(final(self).remaining() =~= old(self).remaining().drop_first());
                assert(*r == old(self).remaining()[0]);
            }
            Option::Some(r)
        } else {
            Option::None
        }
    }
}

} // verus!
