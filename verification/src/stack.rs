//! A linked stack whose view is the sequence of its items.

use vstd::prelude::*;

verus! {

struct Node<T> {
    item: T,
    next: Option<Box<Node<T>>>,
}

/// A singly linked stack: `push` puts an item on top, `pop` takes the top one.
/// Its view lists the items from the bottom (first pushed) to the top.
pub struct Stack<T> {
    head: Option<Box<Node<T>>>,
    len: usize,
}

spec fn chain<T>(node: Option<Box<Node<T>>>) -> Seq<T>
    decreases node,
{
    match node {
        None => Seq::empty(),
        Some(n) => chain(n.next).push(n.item),
    }
}

impl<T> View for Stack<T> {
    type V = Seq<T>;

    closed spec fn view(&self) -> Seq<T> {
        chain(self.head)
    }
}

impl<T> Stack<T> {
    #[verifier::type_invariant]
    spec fn counted(self) -> bool {
        self.len == chain(self.head).len()
    }

    /// An empty stack.
    pub fn new() -> (s: Self)
        ensures
            s@ == Seq::<T>::empty(),
    {
        Stack { head: None, len: 0 }
    }

    /// Puts `item` on top.
    pub fn push(&mut self, item: T)
        requires
            old(self)@.len() < usize::MAX,
        ensures
            final(self)@ == old(self)@.push(item),
    {
        proof {
            use_type_invariant(&*self);
        }
        let mut old_stack = Stack::new();
        std::mem::swap(&mut old_stack, self);
        proof {
            use_type_invariant(&old_stack);
        }
        let Stack { head, len } = old_stack;
        *self = Stack { head: Some(Box::new(Node { item, next: head })), len: len + 1 };
    }

    /// The number of items.
    pub fn len(&self) -> (n: usize)
        ensures
            n == self@.len(),
    {
        proof {
            use_type_invariant(self);
        }
        self.len
    }

    /// Takes the top item, or gives `None` when the stack is empty.
    pub fn pop(&mut self) -> (top: Option<T>)
        ensures
            old(self)@.len() == 0 ==> top is None && final(self)@ == old(self)@,
            old(self)@.len() > 0 ==> top == Some(old(self)@.last()) && final(self)@ == old(self)@.drop_last(),
    {
        proof {
            use_type_invariant(&*self);
        }
        let mut old_stack = Stack::new();
        std::mem::swap(&mut old_stack, self);
        proof {
            use_type_invariant(&old_stack);
        }
        let Stack { head, len } = old_stack;
        match head {
            None => {
                *self = Stack { head: None, len };
                None
            },
            Some(node) => {
                let Node { item, next } = *node;
                assert(chain(next) =~= chain(Some(node)).drop_last());
                *self = Stack { head: next, len: len - 1 };
                Some(item)
            },
        }
    }
}

/// Pushing an item and then popping gives that item back and leaves the stack as it
/// was: the view after `push` is `items.push(item)`, and `pop` returns its last item
/// and leaves `drop_last()`.
pub proof fn lemma_pop_undoes_push<T>(items: Seq<T>, item: T)
    ensures
        items.push(item).len() == items.len() + 1,
        items.push(item).last() == item,
        items.push(item).drop_last() == items,
{
    assert(items.push(item).drop_last() =~= items);
}

} // verus!
