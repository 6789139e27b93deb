use vstd::prelude::*;

pub mod stream;
pub mod defray;
pub mod prefix;
pub mod prefix_unfused;

pub use stream::{Frayed, FrayedIter};
pub use defray::{Defray, Group, GroupMap};
pub use prefix::Prefix;
pub use prefix_unfused::UnfusedPrefix;

use stream::{groups, group_at, somes};
use prefix::prefixed;

verus! {

/// Tools on frayed producers.
pub trait FrayedTools: Frayed {
    /// Splits the producer into its groups.
    fn defray(self) -> (r: Defray<Self>)
        requires
            self.wf(),
        ensures
            r.wf(),
            r.input() == self.outputs(),
            r.producer() == self,
            r.discovered() == 0,
            r.buffered() == 0,
            forall|g: int| g >= 0 ==> #[trigger] r.pending(g) == group_at(groups(self.outputs()), g),
    ;
}

impl<J: Frayed> FrayedTools for J {
    fn defray(self) -> (r: Defray<Self>) {
        Defray::new(self)
    }
}

/// Tools on ordinary sequences that take or make frayed producers.
pub trait FraughtTools: Sized {
    type Item: Copy;

    spec fn items(&self) -> Seq<Self::Item>;

    /// Uses this sequence as the prefix of each group of `postfixes`.
    fn prefix<J: Frayed<Item = Self::Item>>(self, postfixes: J) -> (r: Prefix<Self::Item, J>)
        requires
            postfixes.wf(),
        ensures
            r.wf(),
            r.outputs() == prefixed(self.items(), postfixes.outputs()),
            r.prefix() == self.items(),
    ;

    /// This sequence as a frayed producer: one group, then the end.
    fn frayed(self) -> (r: FrayedIter<Self::Item>)
        ensures
            r.wf(),
            r.outputs() == somes(self.items()),
    ;
}

impl<T: Copy> FraughtTools for Vec<T> {
    type Item = T;

    open spec fn items(&self) -> Seq<T> {
        self@
    }

    fn prefix<J: Frayed<Item = T>>(self, postfixes: J) -> (r: Prefix<T, J>) {
        Prefix::new(self, postfixes)
    }

    fn frayed(self) -> (r: FrayedIter<T>) {
        let mut outs: Vec<Option<T>> = Vec::new();
        let mut i: usize = 0;
        while i < self.len()
            invariant
                i <= self@.len(),
                outs@ == somes(self@.subrange(0, i as int)),
            decreases self@.len() - i,
        {
            outs.push(Some(self[i]));
            i += 1;
            assert(outs@ =~= somes(self@.subrange(0, i as int)));
        }
        assert(self@.subrange(0, i as int) =~= self@);
        let r = FrayedIter::new(outs);
        proof {
            stream::lemma_trim_somes(self@);
        }
        r
    }
}

} // verus!
