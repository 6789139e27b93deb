use vstd::prelude::*;

verus! {

/// The first output of a producer whose remaining outputs are `s`: past the
/// end of `s` a producer yields `None` forever.
pub open spec fn head<T>(s: Seq<Option<T>>) -> Option<T> {
    if s.len() == 0 {
        None
    } else {
        s[0]
    }
}

/// What remains after one output has been taken.
pub open spec fn tail<T>(s: Seq<Option<T>>) -> Seq<Option<T>> {
    if s.len() == 0 {
        s
    } else {
        s.drop_first()
    }
}

/// A finite list of outputs is written without trailing `None`s: those are
/// implied.
pub open spec fn settled<T>(s: Seq<Option<T>>) -> bool {
    s.len() == 0 || s.last() is Some
}

/// The elements of `s` before its first `None` (all of `s` when it has none).
pub open spec fn first_group<T>(s: Seq<Option<T>>) -> Seq<T>
    decreases s.len(),
{
    if s.len() == 0 || s[0] is None {
        Seq::empty()
    } else {
        seq![s[0]->0] + first_group(s.drop_first())
    }
}

/// What follows the first `None` of `s` (nothing when it has none).
pub open spec fn after_group<T>(s: Seq<Option<T>>) -> Seq<Option<T>>
    decreases s.len(),
{
    if s.len() == 0 {
        s
    } else if s[0] is None {
        s.drop_first()
    } else {
        after_group(s.drop_first())
    }
}

pub proof fn lemma_after_group_shorter<T>(s: Seq<Option<T>>)
    requires
        s.len() > 0,
    ensures
        after_group(s).len() < s.len(),
    decreases s.len(),
{
    if s[0] is Some {
        if s.len() > 1 {
            lemma_after_group_shorter(s.drop_first());
        } else {
            assert(after_group(s.drop_first()).len() == 0);
        }
    }
}

/// The groups that start right after a terminator. A terminator at once
/// (an empty group) is the second `None` in a row, which ends the sequence.
pub open spec fn later_groups<T>(s: Seq<Option<T>>) -> Seq<Seq<T>>
    decreases s.len(),
{
    if s.len() == 0 || s[0] is None {
        Seq::empty()
    } else {
        proof {
            lemma_after_group_shorter(s);
        }
        seq![first_group(s)] + later_groups(after_group(s))
    }
}

/// The groups of a frayed sequence that yields `s`: the first may be empty,
/// every later one is not.
pub open spec fn groups<T>(s: Seq<Option<T>>) -> Seq<Seq<T>> {
    seq![first_group(s)] + later_groups(after_group(s))
}

/// Group `g` of a list of groups, empty where there is no such group.
pub open spec fn group_at<T>(gs: Seq<Seq<T>>, g: int) -> Seq<T> {
    if 0 <= g < gs.len() {
        gs[g]
    } else {
        Seq::empty()
    }
}

/// `Some` of each element of `s`: an ordinary sequence read as one group.
pub open spec fn somes<T>(s: Seq<T>) -> Seq<Option<T>> {
    s.map_values(|x: T| Some(x))
}

/// A producer of optional elements in which one `None` ends a group and two
/// `None` in a row end the whole sequence.
pub trait Frayed: Sized {
    type Item;

    /// The producer's internal consistency.
    spec fn wf(&self) -> bool;

    /// Everything the producer will still yield, without the endless `None`s
    /// that follow.
    spec fn outputs(&self) -> Seq<Option<Self::Item>>;

    /// The outputs never end in `None`: those are implied.
    proof fn lemma_settled(&self)
        requires
            self.wf(),
        ensures
            settled(self.outputs()),
    ;

    /// Yields the next output and drops it from what is to come.
    fn next(&mut self) -> (r: Option<Self::Item>)
        requires
            old(self).wf(),
        ensures
            final(self).wf(),
            r == head(old(self).outputs()),
            final(self).outputs() == tail(old(self).outputs()),
    ;
}

/// `s` without its trailing `None`s.
pub open spec fn trim<T>(s: Seq<Option<T>>) -> Seq<Option<T>>
    decreases s.len(),
{
    if s.len() > 0 && s.last() is None {
        trim(s.drop_last())
    } else {
        s
    }
}

pub proof fn lemma_trim_somes<T>(s: Seq<T>)
    ensures
        trim(somes(s)) == somes(s),
{
    if s.len() > 0 {
        assert(somes(s).last() is Some);
    }
}

proof fn lemma_trim_settled<T>(s: Seq<Option<T>>)
    ensures
        settled(trim(s)),
    decreases s.len(),
{
    if s.len() > 0 && s.last() is None {
        lemma_trim_settled(s.drop_last());
    }
}

/// A frayed producer over a list of outputs held in memory.
pub struct FrayedIter<T> {
    /// The outputs still to come, the next one last.
    rev: Vec<Option<T>>,
}

impl<T> FrayedIter<T> {
    /// A producer that yields `items` in order, then `None` forever.
    pub fn new(items: Vec<Option<T>>) -> (r: Self)
        ensures
            r.wf(),
            r.outputs() == trim(items@),
    {
        let ghost all = items@;
        let mut items = items;
        while items.len() > 0 && items[items.len() - 1].is_none()
            invariant
                trim(items@) == trim(all),
            decreases items.len(),
        {
            items.pop();
        }
        proof {
            lemma_trim_settled(all);
        }
        let ghost kept = items@;
        let mut rev: Vec<Option<T>> = Vec::new();
        while items.len() > 0
            invariant
                kept == trim(all),
                items@ + rev@.reverse() == kept,
            decreases items.len(),
        {
            let x = items.pop().unwrap();
            rev.push(x);
            assert(items@ + rev@.reverse() =~= kept);
        }
        assert(rev@.reverse() =~= kept);
        FrayedIter { rev }
    }
}

impl<T> Frayed for FrayedIter<T> {
    type Item = T;

    closed spec fn wf(&self) -> bool {
        settled(self.outputs())
    }

    closed spec fn outputs(&self) -> Seq<Option<T>> {
        self.rev@.reverse()
    }

    proof fn lemma_settled(&self) {
    }

    fn next(&mut self) -> (r: Option<T>) {
        match self.rev.pop() {
            Some(x) => x,
            None => None,
        }
    }
}

} // verus!
