use vstd::prelude::*;
use crate::stream::{Frayed, head, somes};
use crate::prefix::{Prefix, prefixed};

verus! {

/// The prefix adapter in the form that can be asked to yield the prefix
/// even for an empty postfix producer.
#[verifier::reject_recursive_types(T)]
pub struct UnfusedPrefix<T: Copy, J: Frayed<Item = T>> {
    inner: Prefix<T, J>,
}

impl<T: Copy, J: Frayed<Item = T>> UnfusedPrefix<T, J> {
    pub closed spec fn armed(&self) -> bool {
        self.inner.armed()
    }

    pub closed spec fn prefix(&self) -> Seq<T> {
        self.inner.prefix()
    }

    /// Puts `prefix` before each group of `iter` that has an element.
    pub fn new(prefix: Vec<T>, iter: J) -> (r: Self)
        requires
            iter.wf(),
        ensures
            r.wf(),
            r.outputs() == prefixed(prefix@, iter.outputs()),
            r.prefix() == prefix@,
            r.armed() == (head(iter.outputs()) is Some),
    {
        UnfusedPrefix { inner: Prefix::new(prefix, iter) }
    }

    /// Yields the prefix even when the postfix producer is empty from the
    /// start.
    pub fn require_prefix(self) -> (r: Self)
        requires
            self.wf(),
        ensures
            r.wf(),
            r.prefix() == self.prefix(),
            r.outputs() == (if !self.armed() {
                somes(self.prefix()) + self.outputs()
            } else {
                self.outputs()
            }),
            r.armed(),
    {
        UnfusedPrefix { inner: self.inner.prefix_empty(true) }
    }
}

impl<T: Copy, J: Frayed<Item = T>> Frayed for UnfusedPrefix<T, J> {
    type Item = T;

    closed spec fn wf(&self) -> bool {
        self.inner.wf()
    }

    closed spec fn outputs(&self) -> Seq<Option<T>> {
        self.inner.outputs()
    }

    proof fn lemma_settled(&self) {
        self.inner.lemma_settled();
    }

    fn next(&mut self) -> (r: Option<T>) {
        self.inner.next()
    }
}

} // verus!
