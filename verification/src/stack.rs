//! The machine's stack: a growable sequence of byte values, last in,
//! first out.  Reading from an empty stack is an error, never a panic.

use crate::defs::VmError;
use vstd::prelude::*;

verus! {

/// A stack of bytes.  Its view is the sequence of values from bottom to
/// top, so the top of the stack is the last element of the view.
pub struct Stack {
    stack: Vec<u8>,
}

impl View for Stack {
    type V = Seq<u8>;

    closed spec fn view(&self) -> Seq<u8> {
        self.stack@
    }
}

impl Stack {
    /// An empty stack.
    pub fn new() -> (s: Stack)
        ensures
            s@ == Seq::<u8>::empty(),
    {
        Stack { stack: Vec::new() }
    }

    /// How many values the stack holds.
    pub fn len(&self) -> (n: usize)
        ensures
            n == self@.len(),
    {
        self.stack.len()
    }

    /// The value at position `i`, counted from the bottom.
    pub fn get(&self, i: usize) -> (r: u8)
        requires
            i < self@.len(),
        ensures
            r == self@[i as int],
    {
        self.stack[i]
    }

    /// The top value, left in place; `EmptyStack` if there is none.
    pub fn top(&self) -> (r: Result<u8, VmError>)
        ensures
            self@.len() > 0 ==> r == Ok::<u8, VmError>(self@.last()),
            self@.len() == 0 ==> r == Err::<u8, VmError>(VmError::EmptyStack),
    {
        if self.stack.len() == 0 {
            Err(VmError::EmptyStack)
        } else {
            Ok(self.stack[self.stack.len() - 1])
        }
    }

    /// Removes and returns the top value; `EmptyStack`, with the stack
    /// unchanged, if there is none.
    pub fn pop(&mut self) -> (r: Result<u8, VmError>)
        ensures
            old(self)@.len() > 0 ==> r == Ok::<u8, VmError>(old(self)@.last()) && final(self)@
                == old(self)@.drop_last(),
            old(self)@.len() == 0 ==> r == Err::<u8, VmError>(VmError::EmptyStack) && final(self)@
                == old(self)@,
    {
        match self.stack.pop() {
            Some(value) => Ok(value),
            None => Err(VmError::EmptyStack),
        }
    }

    /// Appends a value on top of the stack.  Always succeeds.
    pub fn push(&mut self, value: u8)
        ensures
            final(self)@ == old(self)@.push(value),
    {
        self.stack.push(value);
    }
}

/// The values that `n` successive calls of `pop` hand back from a stack
/// whose view is `s`, in the order they come out.
pub open spec fn popped(s: Seq<u8>, n: nat) -> Seq<u8>
    decreases n,
{
    if n == 0 || s.len() == 0 {
        Seq::empty()
    } else {
        seq![s.last()] + popped(s.drop_last(), (n - 1) as nat)
    }
}

/// The stack is last in, first out: pushing the values of `vs` in order
/// onto any stack `s`, then popping as many values as `vs` holds, returns
/// exactly the values of `vs` in reverse order.
pub proof fn lemma_lifo(s: Seq<u8>, vs: Seq<u8>)
    ensures
        popped(s + vs, vs.len()) == vs.reverse(),
    decreases vs.len(),
{
    if vs.len() == 0 {
        assert(popped(s + vs, 0) =~= vs.reverse());
    } else {
        assert((s + vs).drop_last() =~= s + vs.drop_last());
        assert((s + vs).last() == vs.last());
        lemma_lifo(s, vs.drop_last());
        assert(seq![vs.last()] + vs.drop_last().reverse() =~= vs.reverse());
    }
}

} // verus!
