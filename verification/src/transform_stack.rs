use vstd::prelude::*;

verus! {

/// A stack of accumulated transforms. The base frame is never removed, so
/// there is always a current transform.
pub struct TransformStack<T> {
    stack: Vec<T>,
}

impl<T> View for TransformStack<T> {
    type V = Seq<T>;

    closed spec fn view(&self) -> Seq<T> {
        self.stack@
    }
}

/// The frames after a pop: the top frame goes unless it is the base.
pub open spec fn popped<T>(frames: Seq<T>) -> Seq<T> {
    if frames.len() > 1 {
        frames.drop_last()
    } else {
        frames
    }
}

impl<T> TransformStack<T> {
    #[verifier::type_invariant]
    spec fn inv(&self) -> bool {
        self.stack@.len() >= 1
    }
}

impl<T: Copy> TransformStack<T> {
    /// A stack whose only frame is `base` (the identity transform).
    pub fn new(base: T) -> (s: Self)
        ensures
            s@ == seq![base],
    {
        let mut stack = Vec::new();
        stack.push(base);
        assert(stack@ =~= seq![base]);
        TransformStack { stack }
    }

    /// Pushes the current transform composed with `transform`; `compose`
    /// is the composition (for matrices, the product `current * transform`).
    pub fn push<F: Fn(&T, &T) -> T>(&mut self, transform: T, compose: F)
        requires
            call_requires(compose, (&old(self)@.last(), &transform)),
        ensures
            old(self)@.len() >= 1,
            final(self)@.len() == old(self)@.len() + 1,
            final(self)@.drop_last() == old(self)@,
            call_ensures(compose, (&old(self)@.last(), &transform), final(self)@.last()),
    {
        proof {
            use_type_invariant(&*self);
        }
        let current = self.stack[self.stack.len() - 1];
        let next = compose(&current, &transform);
        let mut stack = Vec::new();
        stack.push(next);
        std::mem::swap(&mut stack, &mut self.stack);
        stack.push(next);
        self.stack = stack;
        assert(self.stack@.drop_last() =~= old(self)@);
    }

    /// Removes the top transform, but never the base frame.
    pub fn pop(&mut self)
        ensures
            old(self)@.len() >= 1,
            final(self)@.len() >= 1,
            final(self)@ == popped(old(self)@),
    {
        proof {
            use_type_invariant(&*self);
        }
        if self.stack.len() > 1 {
            let mut stack = Vec::new();
            stack.push(self.stack[0]);
            std::mem::swap(&mut stack, &mut self.stack);
            stack.pop();
            self.stack = stack;
            assert(self.stack@ =~= old(self)@.drop_last());
        }
    }

    /// The top transform.
    pub fn current(&self) -> (t: T)
        ensures
            self@.len() >= 1,
            t == self@.last(),
    {
        proof {
            use_type_invariant(self);
        }
        self.stack[self.stack.len() - 1]
    }
}

/// A pop undoes a push: pushing any frame onto a stack and popping it again
/// gives back the stack.
pub proof fn lemma_pop_undoes_push<T>(frames: Seq<T>, top: T)
    requires
        frames.len() >= 1,
    ensures
        popped(frames.push(top)) == frames,
{
    assert(frames.push(top).drop_last() =~= frames);
}

/// Popping the base frame alone changes nothing.
pub proof fn lemma_pop_keeps_base<T>(base: T)
    ensures
        popped(seq![base]) == seq![base],
{
}

} // verus!
