//! A value together with the auxiliary memory that building it took.
use vstd::prelude::*;
use vstd::layout::size_of;
use std::marker::PhantomData;

verus! {

/// A value and the number of bytes of working memory that were allocated
/// on the way to it. The count is cumulative: memory that was released
/// again still counts.
#[derive(Debug, Clone, Copy)]
#[must_use]
pub struct MemoryResult<T> {
    pub value: T,
    pub memory: usize,
}

impl<T> MemoryResult<T> {
    /// Starts an account with nothing on it.
    pub fn builder() -> (builder: Builder<T>)
        ensures
            builder.memory == 0,
    {
        Builder { memory: 0, _phantom: PhantomData }
    }

    /// Books the memory of this result on `builder` and hands out the value.
    pub fn add_to<S>(self, builder: &mut Builder<S>) -> (value: T)
        requires
            old(builder).memory + self.memory <= usize::MAX,
        ensures
            value == self.value,
            final(builder).memory == old(builder).memory + self.memory,
    {
        builder.memory += self.memory;
        self.value
    }
}

/// An account of working memory for a value of type `T` that is still
/// being built.
#[derive(Debug)]
pub struct Builder<T> {
    pub memory: usize,
    pub _phantom: PhantomData<T>,
}

impl<T> Clone for Builder<T> {
    fn clone(&self) -> (copy: Self)
        ensures
            copy == *self,
    {
        Builder { memory: self.memory, _phantom: PhantomData }
    }
}

impl<T> Copy for Builder<T> {

}

impl<T> Builder<T> {
    /// Closes the account and attaches it to `value`.
    pub fn build(self, value: T) -> (result: MemoryResult<T>)
        ensures
            result.value == value,
            result.memory == self.memory,
    {
        MemoryResult { value, memory: self.memory }
    }

    /// Books `num` values of type `S`.
    pub fn add_values<S>(&mut self, num: usize)
        requires
            old(self).memory + num * size_of::<S>() <= usize::MAX,
        ensures
            final(self).memory == old(self).memory + num * size_of::<S>(),
    {
        let width = core::mem::size_of::<S>();
        assert(0 <= num * width) by (nonlinear_arith)
            requires
                0 <= num,
                0 <= width,
        ;
        self.memory += num * width;
    }
}

} // verus!
