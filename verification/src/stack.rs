//! A last-in, first-out stack.
use vstd::prelude::*;

verus! {

pub struct Stack<T> {
    elems: Vec<T>,
}

impl<T> View for Stack<T> {
    type V = Seq<T>;

    /// The elements, bottom first.
    closed spec fn view(&self) -> Seq<T> {
        self.elems@
    }
}

impl<T> Stack<T> {
    pub fn new() -> (s: Stack<T>)
        ensures
            s@ == Seq::<T>::empty(),
    {
        Stack { elems: Vec::new() }
    }

    pub fn push(&mut self, elem: T)
        ensures
            final(self)@ == old(self)@.push(elem),
    {
        self.elems.push(elem);
    }

    /// Takes the top element off, if any.
    pub fn pop(&mut self) -> (r: Option<T>)
        ensures
            old(self)@.len() == 0 ==> r is None && final(self)@ == old(self)@,
            old(self)@.len() > 0 ==> r == Some(old(self)@.last()) && final(self)@ == old(self)@.drop_last(),
    {
        self.elems.pop()
    }

    /// The top element, if any.
    pub fn peek(&self) -> (r: Option<&T>)
        ensures
            self@.len() == 0 ==> r is None,
            self@.len() > 0 ==> r == Some(&self@.last()),
    {
        self.elems.last()
    }

    pub fn is_empty(&self) -> (b: bool)
        ensures
            b == (self@.len() == 0),
    {
        self.elems.len() == 0
    }

    pub fn size(&self) -> (n: usize)
        ensures
            n == self@.len(),
    {
        self.elems.len()
    }

    pub fn clear(&mut self)
        ensures
            final(self)@ == Seq::<T>::empty(),
    {
        self.elems.clear();
    }
}

/// Popping right after a push gives the pushed element back and leaves the
/// stack as it was.
pub proof fn lemma_pop_undoes_push<T>(s: Seq<T>, e: T)
    ensures
        s.push(e).len() > 0,
        s.push(e).last() == e,
        s.push(e).drop_last() == s,
{
    assert(s.push(e).drop_last() =~= s);
}

} // verus!
