use vstd::prelude::*;
use std::collections::VecDeque;
use crate::stream::{Frayed, head, tail, groups, first_group, after_group, later_groups, group_at};

verus! {

/// The first element of `s`, if any.
pub open spec fn first_of<T>(s: Seq<T>) -> Option<T> {
    if s.len() == 0 {
        None
    } else {
        Some(s[0])
    }
}

/// `s` without its first element (empty stays empty).
pub open spec fn rest_of<T>(s: Seq<T>) -> Seq<T> {
    if s.len() == 0 {
        s
    } else {
        s.drop_first()
    }
}

proof fn lemma_suffix_refl<T>(s: Seq<T>)
    ensures
        s.is_suffix_of(s),
{
    assert(s =~= s.subrange(0, s.len() as int));
}

proof fn lemma_suffix_tail<T>(s: Seq<Option<T>>)
    ensures
        tail(s).is_suffix_of(s),
{
    if s.len() > 0 {
        assert(tail(s) =~= s.subrange(1, s.len() as int));
    } else {
        lemma_suffix_refl(s);
    }
}

proof fn lemma_suffix_trans<T>(a: Seq<T>, b: Seq<T>, c: Seq<T>)
    requires
        a.is_suffix_of(b),
        b.is_suffix_of(c),
    ensures
        a.is_suffix_of(c),
{
    assert forall|i: int| 0 <= i < a.len() implies a[i] == c[c.len() - a.len() + i] by {
        assert(a[i] == b[b.len() - a.len() + i]);
        assert(b[b.len() - a.len() + i] == c[c.len() - b.len() + (b.len() - a.len() + i)]);
    }
    assert(a =~= c.subrange(c.len() - a.len(), c.len() as int));
}

/// The groups from the active one onward, read off the producer's remaining
/// outputs `rest`. `lwn` says that the last output read was a terminator: a
/// terminator now would be the second in a row and end everything.
pub open spec fn live<T>(rest: Seq<Option<T>>, lwn: bool) -> Seq<Seq<T>> {
    if lwn && head(rest) is None {
        Seq::empty()
    } else {
        groups(rest)
    }
}

/// Reading an element off the active group leaves the groups after it as
/// they were.
proof fn lemma_live_read_elem<T>(rest: Seq<Option<T>>, lwn: bool, j: int)
    requires
        head(rest) is Some,
        j >= 0,
    ensures
        group_at(live(tail(rest), false), j) == (if j == 0 {
            rest_of(group_at(live(rest, lwn), j))
        } else {
            group_at(live(rest, lwn), j)
        }),
{
    let r2 = tail(rest);
    assert(first_group(rest) == seq![rest[0]->0] + first_group(r2));
    assert(seq![rest[0]->0] + first_group(r2) =~= first_group(rest));
    assert(rest_of(first_group(rest)) =~= first_group(r2));
    assert(after_group(rest) == after_group(r2));
}

/// Reading the terminator of the active group makes the next group active.
proof fn lemma_live_read_end<T>(rest: Seq<Option<T>>, lwn: bool, j: int)
    requires
        head(rest) is None,
        !lwn,
        j >= 0,
    ensures
        group_at(live(tail(rest), true), j) == group_at(live(rest, lwn), j + 1),
        group_at(live(rest, lwn), 0).len() == 0,
{
    let r2 = tail(rest);
    assert(after_group(rest) == r2);
    assert(first_group(rest).len() == 0);
    if head(r2) is Some {
        assert(later_groups(r2) == groups(r2));
    }
}

/// The splitting engine: one producer, read once, whose groups are handed
/// out by index in any order.
struct DefrayInner<J: Frayed> {
    iter: J,
    /// Set once two terminators in a row were read.
    done: bool,
    last_was_none: bool,
    /// The group being read straight off the producer.
    top_group: usize,
    /// The least group index whose queue may still hold elements.
    oldest_buffered_group: usize,
    /// The group index of `buffer[0]`; the slots below
    /// `oldest_buffered_group` are unused and are erased once enough of them
    /// have gathered.
    bottom_group: usize,
    /// Queues of groups read ahead of their turn, from `bottom_group` on.
    buffer: Vec<VecDeque<J::Item>>,
    /// The highest index of a group given up before its end.
    dropped_group: Option<usize>,
}

impl<J: Frayed> DefrayInner<J> {
    spec fn wf(&self) -> bool {
        &&& self.wf_core()
        &&& self.buffer@.len() == 0 ==> self.bottom_group == self.oldest_buffered_group
    }

    /// All of `wf` but what compaction restores.
    spec fn wf_core(&self) -> bool {
        &&& self.iter.wf()
        &&& self.bottom_group <= self.oldest_buffered_group
        &&& self.bottom_group + self.buffer@.len() <= self.top_group + 1
        &&& self.bottom_group + self.buffer@.len() == self.top_group + 1 ==> self.done
        &&& self.oldest_buffered_group <= self.top_group + 1
        &&& self.oldest_buffered_group == self.top_group + 1 ==> self.done
        &&& self.top_group + 1 < usize::MAX
    }

    /// What requests for group `g` will still yield.
    spec fn pending(&self, g: int) -> Seq<J::Item> {
        if g < self.oldest_buffered_group {
            Seq::empty()
        } else if g < self.bottom_group + self.buffer@.len() {
            self.buffer@[g - self.bottom_group]@
        } else if g < self.top_group || self.done {
            Seq::empty()
        } else {
            group_at(live(self.iter.outputs(), self.last_was_none), g - self.top_group)
        }
    }

    /// What the queues hold for group `g`.
    spec fn queued(&self, g: int) -> Seq<J::Item> {
        if g < self.oldest_buffered_group {
            Seq::empty()
        } else if g < self.bottom_group + self.buffer@.len() {
            self.buffer@[g - self.bottom_group]@
        } else {
            Seq::empty()
        }
    }

    /// Whether a request for the group after the active one `g` would read
    /// past the rest of `g` instead of queueing it: `g` is the highest
    /// index given up.
    spec fn discards(&self, g: int) -> bool {
        &&& !self.done
        &&& g == self.top_group
        &&& self.dropped_group == Some(self.top_group)
    }

    /// `new` is `self` after one request for group `client`: that group lost
    /// its first element and every other kept its elements, except that a
    /// request for the group after the active one drops what is left of the
    /// active group when that group was given up. The producer was only read
    /// on, and the reclamation marks only move up.
    spec fn stepped(&self, new: &Self, client: int) -> bool {
        &&& new.dropped_group == self.dropped_group
        &&& self.top_group <= new.top_group
        &&& self.oldest_buffered_group <= new.oldest_buffered_group
        &&& self.bottom_group <= new.bottom_group
        &&& new.iter.outputs().is_suffix_of(self.iter.outputs())
        &&& forall|g: int|
            #![trigger new.pending(g)]
            g >= 0 ==> (new.pending(g) == (if g == client {
                rest_of(self.pending(g))
            } else {
                self.pending(g)
            }) || (client == self.top_group + 1 && self.discards(g) && new.pending(g).len()
                == 0))
    }

    /// Takes the next output of the producer and keeps the two-terminator
    /// latch.
    fn next_element(&mut self) -> (r: Option<J::Item>)
        requires
            old(self).iter.wf(),
            !old(self).done,
        ensures
            final(self).iter.wf(),
            r == head(old(self).iter.outputs()),
            final(self).iter.outputs() == tail(old(self).iter.outputs()),
            final(self).last_was_none == (r is None),
            final(self).done == (r is None && old(self).last_was_none),
            final(self).top_group == old(self).top_group,
            final(self).oldest_buffered_group == old(self).oldest_buffered_group,
            final(self).bottom_group == old(self).bottom_group,
            final(self).buffer == old(self).buffer,
            final(self).dropped_group == old(self).dropped_group,
    {
        match self.iter.next() {
            None => {
                if self.last_was_none {
                    self.done = true;
                }
                self.last_was_none = true;
                None
            },
            otherwise => {
                self.last_was_none = false;
                otherwise
            },
        }
    }

    /// The request of the active group when nothing of it is buffered: no
    /// queue is touched.
    fn step_current(&mut self) -> (r: Option<J::Item>)
        requires
            old(self).wf(),
            !old(self).done,
            old(self).bottom_group + old(self).buffer@.len() <= old(self).top_group,
            old(self).top_group + 2 < usize::MAX,
        ensures
            final(self).wf(),
            old(self).stepped(&*final(self), old(self).top_group as int),
            r == first_of(old(self).pending(old(self).top_group as int)),
            final(self).buffer@.len() == old(self).buffer@.len(),
            r is None ==> final(self).top_group == old(self).top_group + 1,
            r is Some ==> final(self).top_group == old(self).top_group,
            final(self).done ==> r is None,
            final(self).bottom_group == old(self).bottom_group,
            final(self).oldest_buffered_group == old(self).oldest_buffered_group,
            final(self).buffer == old(self).buffer,
            final(self).dropped_group == old(self).dropped_group,
    {
        let ghost pre = *self;
        let elt = self.next_element();
        if elt.is_none() {
            self.top_group += 1;
        }
        proof {
            let rest = pre.iter.outputs();
            let top = pre.top_group as int;
            lemma_suffix_tail(rest);
            assert forall|g: int| g >= 0 implies #[trigger] self.pending(g) == (if g == top {
                rest_of(pre.pending(g))
            } else {
                pre.pending(g)
            }) by {
                if g >= top {
                    if elt is Some {
                        lemma_live_read_elem(rest, pre.last_was_none, g - top);
                    } else if !pre.last_was_none {
                        if g > top {
                            lemma_live_read_end(rest, pre.last_was_none, g - top - 1);
                        } else {
                            lemma_live_read_end(rest, pre.last_was_none, 0);
                        }
                    }
                }
            }
            if elt is Some {
                lemma_live_read_elem(rest, pre.last_was_none, 0);
            } else if !pre.last_was_none {
                lemma_live_read_end(rest, pre.last_was_none, 0);
            }
        }
        elt
    }

    /// The request of a group that has a queue, or that lies below the
    /// active one. An exhausted oldest group lets the oldest mark move on;
    /// once the unused slots make up half the buffer they are erased.
    fn lookup_buffer(&mut self, client: usize) -> (r: Option<J::Item>)
        requires
            old(self).wf(),
            old(self).oldest_buffered_group <= client <= old(self).top_group,
            client < old(self).top_group || client < old(self).bottom_group + old(self).buffer@.len(),
        ensures
            final(self).wf(),
            old(self).stepped(&*final(self), client as int),
            r == first_of(old(self).pending(client as int)),
            final(self).top_group == old(self).top_group,
            final(self).done == old(self).done,
            final(self).buffer@.len() <= old(self).buffer@.len(),
            final(self).iter == old(self).iter,
            final(self).last_was_none == old(self).last_was_none,
            old(self).bottom_group + old(self).buffer@.len() <= old(self).top_group
                ==> final(self).bottom_group + final(self).buffer@.len() <= final(self).top_group,
            r is Some || client != old(self).oldest_buffered_group ==> final(self).oldest_buffered_group == old(self).oldest_buffered_group && final(self).bottom_group
                == old(self).bottom_group && final(self).buffer@.len() == old(self).buffer@.len(),
            r is None && client == old(self).oldest_buffered_group ==> {
                &&& old(self).oldest_buffered_group < final(self).oldest_buffered_group
                &&& forall|g: int|
                    old(self).oldest_buffered_group <= g < final(self).oldest_buffered_group
                        ==> #[trigger] old(self).pending(g).len() == 0
                &&& final(self).oldest_buffered_group < final(self).bottom_group
                    + final(self).buffer@.len() ==> final(self).pending(
                    final(self).oldest_buffered_group as int,
                ).len() > 0
                &&& final(self).bottom_group == old(self).bottom_group ==> final(self).buffer@.len() == old(self).buffer@.len() && 2 * (final(self).oldest_buffered_group - final(self).bottom_group) < final(self).buffer@.len()
                &&& final(self).bottom_group != old(self).bottom_group ==> final(self).bottom_group
                    == final(self).oldest_buffered_group && final(self).buffer@
                    == old(self).buffer@.subrange(
                    final(self).bottom_group - old(self).bottom_group,
                    old(self).buffer@.len() as int,
                ) || (final(self).buffer@.len() == 0 && final(self).oldest_buffered_group
                    >= old(self).bottom_group + old(self).buffer@.len())
            },
    {
        let ghost pre = *self;
        let bufidx = client - self.bottom_group;
        let elt = if bufidx < self.buffer.len() {
            self.buffer[bufidx].pop_front()
        } else {
            None
        };
        let ghost mid = *self;
        proof {
            assert forall|g: int| g >= 0 implies #[trigger] mid.pending(g) == (if g == client {
                rest_of(pre.pending(g))
            } else {
                pre.pending(g)
            }) by {
                if g == client && bufidx < pre.buffer@.len() {
                    assert(pre.buffer@[g - pre.bottom_group]@.len() > 0 ==> rest_of(
                        pre.buffer@[g - pre.bottom_group]@,
                    ) =~= mid.buffer@[g - pre.bottom_group]@);
                }
            }
        }
        if elt.is_none() && client == self.oldest_buffered_group {
            assert(mid.pending(client as int) =~= Seq::empty());
            self.oldest_buffered_group += 1;
            while self.oldest_buffered_group - self.bottom_group < self.buffer.len()
                && self.buffer[self.oldest_buffered_group - self.bottom_group].len() == 0
                invariant
                    self.wf_core(),
                    self.top_group == mid.top_group,
                    self.done == mid.done,
                    self.bottom_group == mid.bottom_group,
                    self.oldest_buffered_group > mid.oldest_buffered_group,
                    self.buffer == mid.buffer,
                    self.iter == mid.iter,
                    self.last_was_none == mid.last_was_none,
                    self.dropped_group == mid.dropped_group,
                    forall|g: int| g >= 0 ==> #[trigger] self.pending(g) == mid.pending(g),
                    forall|g: int|
                        mid.oldest_buffered_group <= g < self.oldest_buffered_group
                            ==> #[trigger] pre.pending(g).len() == 0,
                    forall|g: int|
                        g >= 0 && g != client ==> #[trigger] mid.pending(g) == pre.pending(g),
                    mid.oldest_buffered_group == client,
                    mid.bottom_group + mid.buffer@.len() <= mid.top_group
                        ==> self.oldest_buffered_group <= self.top_group,
                decreases self.top_group + 1 - self.oldest_buffered_group,
            {
                let ghost prev = *self;
                self.oldest_buffered_group += 1;
                proof {
                    assert forall|g: int| g >= 0 implies #[trigger] self.pending(g) == mid.pending(
                        g,
                    ) by {
                        assert(prev.pending(g) == mid.pending(g));
                        if g == prev.oldest_buffered_group {
                            assert(mid.buffer@[g - self.bottom_group]@ =~= Seq::empty());
                        }
                    }
                    let g0 = prev.oldest_buffered_group as int;
                    assert(mid.pending(g0) == pre.pending(g0));
                    assert(mid.pending(g0).len() == 0);
                    assert forall|g: int|
                        mid.oldest_buffered_group <= g < self.oldest_buffered_group implies #[trigger] pre.pending(g).len() == 0 by {
                        if g < g0 {
                            assert(pre.pending(g).len() == 0);
                        }
                    }
                }
            }
            let nclear = self.oldest_buffered_group - self.bottom_group;
            if nclear > 0 && nclear >= self.buffer.len() / 2 {
                let ghost before = *self;
                if nclear >= self.buffer.len() {
                    self.buffer.clear();
                } else {
                    let kept = self.buffer.split_off(nclear);
                    self.buffer = kept;
                }
                self.bottom_group = self.oldest_buffered_group;
                proof {
                    assert forall|g: int| g >= 0 implies #[trigger] self.pending(g)
                        == before.pending(g) by {
                        if g >= self.oldest_buffered_group && g < self.bottom_group
                            + self.buffer@.len() {
                            assert(self.buffer@[g - self.bottom_group] == before.buffer@[g
                                - before.bottom_group]);
                        }
                    }
                }
            }
        }
        elt
    }

    /// Reads the rest of the active group into a queue (or past it, when
    /// it is the highest index given up) and starts the next one, which `client`
    /// asked for.
    fn step_buffering(&mut self, client: usize) -> (r: Option<J::Item>)
        requires
            old(self).wf(),
            !old(self).done,
            client == old(self).top_group + 1,
            old(self).bottom_group + old(self).buffer@.len() <= old(self).top_group,
            client + 1 < usize::MAX,
        ensures
            final(self).wf(),
            old(self).stepped(&*final(self), client as int),
            r == first_of(old(self).pending(client as int)),
            r is Some ==> final(self).top_group == client && !final(self).done,
            r is None ==> final(self).done && final(self).top_group == old(self).top_group,
            old(self).dropped_group == Some(old(self).top_group) ==> final(self).buffer
                == old(self).buffer && final(self).bottom_group == old(self).bottom_group
                && final(self).oldest_buffered_group == old(self).oldest_buffered_group,
            !(old(self).last_was_none && head(old(self).iter.outputs()) is None) ==> final(self).iter.outputs() == tail(after_group(old(self).iter.outputs())),
    {
        let ghost pre = *self;
        let ghost rest0 = self.iter.outputs();
        let ghost lwn0 = self.last_was_none;
        let keep = match self.dropped_group {
            Some(d) => self.top_group != d,
            None => true,
        };
        let mut group: VecDeque<J::Item> = VecDeque::new();
        proof {
            lemma_suffix_refl(rest0);
        }
        loop
            invariant_except_break
                !self.done,
                keep ==> group@ + first_group(self.iter.outputs()) == first_group(rest0),
                after_group(self.iter.outputs()) == after_group(rest0),
                self.last_was_none ==> lwn0 && self.iter.outputs() == rest0,
                lwn0 && head(rest0) is None ==> self.last_was_none && self.iter.outputs() == rest0,
            invariant
                self.iter.wf(),
                self.iter.outputs().is_suffix_of(rest0),
                self.top_group == pre.top_group,
                self.oldest_buffered_group == pre.oldest_buffered_group,
                self.bottom_group == pre.bottom_group,
                self.buffer == pre.buffer,
                self.dropped_group == pre.dropped_group,
            ensures
                keep ==> group@ == first_group(rest0),
                self.iter.outputs() == after_group(rest0),
                self.last_was_none,
                self.done == (lwn0 && head(rest0) is None),
            decreases self.iter.outputs().len(),
        {
            let ghost out = self.iter.outputs();
            let e = self.next_element();
            proof {
                lemma_suffix_tail(out);
                lemma_suffix_trans(self.iter.outputs(), out, rest0);
            }
            match e {
                Some(elt) => {
                    if keep {
                        group.push_back(elt);
                        assert(group@ + first_group(self.iter.outputs()) =~= first_group(rest0));
                    }
                },
                None => {
                    assert(first_group(out) =~= Seq::<J::Item>::empty());
                    assert(keep ==> group@ =~= group@ + first_group(out));
                    assert(after_group(out) == self.iter.outputs());
                    break ;
                },
            }
        }
        let ghost out1 = self.iter.outputs();
        let first_elt = if self.done {
            None
        } else {
            self.next_element()
        };
        proof {
            lemma_suffix_tail(out1);
            if !self.done {
                lemma_suffix_trans(self.iter.outputs(), out1, rest0);
            }
        }
        let ghost unpushed = *self;
        if keep {
            self.push_next_group(group);
        }
        let ghost pushed = *self;
        if first_elt.is_some() {
            self.top_group += 1;
        }
        proof {
            let top = pre.top_group as int;
            assert forall|g: int| 0 <= g < top implies #[trigger] pre.pending(g) == pre.queued(g)
                && self.pending(g) == self.queued(g) && self.queued(g) == pre.queued(g) by {
                assert(pushed.queued(g) == unpushed.queued(g));
                assert(self.queued(g) == pushed.queued(g));
            }
            if keep {
                assert(self.pending(top) == pre.pending(top));
            }
            if !(lwn0 && head(rest0) is None) {
                assert(live(rest0, lwn0) == groups(rest0));
                assert(pre.pending(client as int) == group_at(later_groups(out1), 0));
                if head(out1) is Some {
                    assert(later_groups(out1) =~= groups(out1));
                    assert(first_group(out1) == seq![out1[0]->0] + first_group(out1.drop_first()));
                    assert forall|g: int| g > top implies #[trigger] self.pending(g) == (if g
                        == client {
                        rest_of(pre.pending(g))
                    } else {
                        pre.pending(g)
                    }) by {
                        lemma_live_read_elem(out1, true, g - top - 1);
                    }
                } else {
                    assert(later_groups(out1) =~= Seq::<Seq<J::Item>>::empty());
                }
            }
        }
        first_elt
    }

    /// Gives the group just read ahead its queue, first filling the slots
    /// between the buffer's end and the active group.
    fn push_next_group(&mut self, group: VecDeque<J::Item>)
        requires
            old(self).bottom_group <= old(self).oldest_buffered_group <= old(self).top_group,
            old(self).bottom_group + old(self).buffer@.len() <= old(self).top_group,
            old(self).buffer@.len() == 0 ==> old(self).bottom_group
                == old(self).oldest_buffered_group,
        ensures
            final(self).bottom_group <= final(self).oldest_buffered_group <= final(self).top_group,
            final(self).bottom_group + final(self).buffer@.len() == final(self).top_group + 1,
            forall|g: int| g < old(self).top_group ==> #[trigger] final(self).queued(g) == old(self).queued(g),
            final(self).queued(old(self).top_group as int) == group@,
            old(self).bottom_group <= final(self).bottom_group,
            old(self).oldest_buffered_group <= final(self).oldest_buffered_group,
            old(self).buffer@.len() == 0 ==> final(self).bottom_group == old(self).top_group
                && final(self).oldest_buffered_group == old(self).top_group && final(self).buffer@.len() == 1,
            final(self).top_group == old(self).top_group,
            final(self).done == old(self).done,
            final(self).last_was_none == old(self).last_was_none,
            final(self).iter == old(self).iter,
            final(self).dropped_group == old(self).dropped_group,
    {
        let ghost pre = *self;
        while self.top_group - self.bottom_group > self.buffer.len()
            invariant
                self.bottom_group <= self.oldest_buffered_group <= self.top_group,
                self.bottom_group + self.buffer@.len() <= self.top_group,
                self.buffer@.len() == 0 ==> self.bottom_group == self.oldest_buffered_group,
                pre.bottom_group <= self.bottom_group,
                pre.oldest_buffered_group <= self.oldest_buffered_group,
                pre.buffer@.len() == 0 ==> self.buffer@.len() == 0,
                forall|g: int| g < pre.top_group ==> #[trigger] self.queued(g) == pre.queued(g),
                self.top_group == pre.top_group,
                self.done == pre.done,
                self.last_was_none == pre.last_was_none,
                self.iter == pre.iter,
                self.dropped_group == pre.dropped_group,
            decreases self.top_group - self.bottom_group - self.buffer@.len(),
        {
            let ghost prev = *self;
            if self.buffer.is_empty() {
                self.bottom_group += 1;
                self.oldest_buffered_group += 1;
                assert forall|g: int| g < pre.top_group implies #[trigger] self.queued(g)
                    == prev.queued(g) by {}
            } else {
                self.buffer.push(VecDeque::new());
                proof {
                    assert forall|g: int| g < pre.top_group implies #[trigger] self.queued(g)
                        == prev.queued(g) by {
                        if g >= self.oldest_buffered_group && g < prev.bottom_group
                            + prev.buffer@.len() {
                            assert(self.buffer@[g - self.bottom_group] == prev.buffer@[g
                                - self.bottom_group]);
                        }
                    }
                }
            }
        }
        let ghost prev = *self;
        self.buffer.push(group);
        proof {
            assert forall|g: int| g < pre.top_group implies #[trigger] self.queued(g)
                == prev.queued(g) by {
                if g >= self.oldest_buffered_group && g < prev.bottom_group + prev.buffer@.len() {
                    assert(self.buffer@[g - self.bottom_group] == prev.buffer@[g
                        - self.bottom_group]);
                }
            }
        }
    }

    /// The request of group `client` for its next element.
    fn step(&mut self, client: usize) -> (r: Option<J::Item>)
        requires
            old(self).wf(),
            client <= old(self).top_group + 1 || old(self).done,
            client + 2 < usize::MAX,
        ensures
            final(self).wf(),
            old(self).stepped(&*final(self), client as int),
            r == first_of(old(self).pending(client as int)),
            old(self).done ==> final(self).done && final(self).iter == old(self).iter
                && final(self).top_group == old(self).top_group,
            final(self).top_group == old(self).top_group || final(self).top_group <= client + 1,
            !final(self).done && client == old(self).top_group + 1 ==> final(self).top_group
                == client,
            client < old(self).oldest_buffered_group || (old(self).done && client
                >= old(self).top_group && client >= old(self).bottom_group + old(self).buffer@.len())
                ==> *final(self) == *old(self),
            client < old(self).top_group || client < old(self).bottom_group + old(self).buffer@.len()
                ==> final(self).iter == old(self).iter && final(self).done == old(self).done
                && final(self).last_was_none == old(self).last_was_none,
            old(self).buffer@.len() == 0 && (client <= old(self).top_group || old(self).done)
                ==> final(self).buffer@.len() == 0,
            old(self).buffer@.len() == 0 && client == old(self).top_group && !old(self).done
                ==> final(self).top_group == (if r is None {
                client + 1
            } else {
                client as int
            }),
            final(self).done && !old(self).done ==> (client == old(self).top_group
                && final(self).top_group == client + 1 && final(self).bottom_group
                + final(self).buffer@.len() <= final(self).top_group) || (client
                == old(self).top_group + 1 && final(self).top_group == old(self).top_group),
            old(self).done && old(self).bottom_group + old(self).buffer@.len()
                <= old(self).top_group ==> final(self).bottom_group + final(self).buffer@.len()
                <= final(self).top_group,
    {
        if client < self.oldest_buffered_group {
            None
        } else if client < self.top_group || (client == self.top_group && self.buffer.len()
            > self.top_group - self.bottom_group) {
            self.lookup_buffer(client)
        } else if self.done {
            None
        } else if self.top_group == client {
            self.step_current()
        } else {
            self.step_buffering(client)
        }
    }

    /// Notes that the cursor of group `client` was given up: only the
    /// highest such index is kept.
    fn drop_group(&mut self, client: usize)
        requires
            old(self).wf(),
        ensures
            final(self).wf(),
            forall|g: int| #[trigger] final(self).pending(g) == old(self).pending(g),
            final(self).dropped_group == (if old(self).dropped_group matches Some(d) && client
                <= d {
                old(self).dropped_group
            } else {
                Some(client)
            }),
            final(self).top_group == old(self).top_group,
            final(self).oldest_buffered_group == old(self).oldest_buffered_group,
            final(self).bottom_group == old(self).bottom_group,
            final(self).done == old(self).done,
            final(self).last_was_none == old(self).last_was_none,
            final(self).buffer == old(self).buffer,
            final(self).iter == old(self).iter,
    {
        let raise = match self.dropped_group {
            Some(d) => client > d,
            None => true,
        };
        if raise {
            self.dropped_group = Some(client);
        }
    }
}

/// `t + p` is group `full` handed out in part (`t`) with `p` still to come,
/// or, for a group given up, a beginning of it.
pub open spec fn accounted<T>(t: Seq<T>, p: Seq<T>, full: Seq<T>, given_up: bool) -> bool {
    if given_up {
        (t + p).is_prefix_of(full)
    } else {
        t + p == full
    }
}

/// Entry `g` of `t`, empty where there is none.
pub open spec fn taken_at<T>(t: Seq<Seq<T>>, g: int) -> Seq<T> {
    if 0 <= g < t.len() {
        t[g]
    } else {
        Seq::empty()
    }
}

/// One request keeps the record of handed-out elements in step with the
/// engine: what was handed out of a group, followed by what it still holds,
/// is the group of the input (or a beginning of it, for a group given up).
proof fn lemma_accounting<J: Frayed>(
    pre: DefrayInner<J>,
    post: DefrayInner<J>,
    t0: Seq<Seq<J::Item>>,
    t1: Seq<Seq<J::Item>>,
    input: Seq<Option<J::Item>>,
    released: Set<int>,
    c: int,
    r: Option<J::Item>,
)
    requires
        c >= 0,
        pre.stepped(&post, c),
        r == first_of(pre.pending(c)),
        pre.dropped_group matches Some(d) ==> released.contains(d as int),
        forall|g: int|
            g >= 0 ==> accounted(
                #[trigger] taken_at(t0, g),
                pre.pending(g),
                group_at(groups(input), g),
                released.contains(g),
            ),
        forall|g: int|
            #![trigger taken_at(t1, g)]
            g >= 0 ==> taken_at(t1, g) == (if g == c && r is Some {
                taken_at(t0, g).push(r->0)
            } else {
                taken_at(t0, g)
            }),
    ensures
        forall|g: int|
            g >= 0 ==> accounted(
                #[trigger] taken_at(t1, g),
                post.pending(g),
                group_at(groups(input), g),
                released.contains(g),
            ),
{
    assert forall|g: int| g >= 0 implies accounted(
        #[trigger] taken_at(t1, g),
        post.pending(g),
        group_at(groups(input), g),
        released.contains(g),
    ) by {
        let full = group_at(groups(input), g);
        let t = taken_at(t0, g);
        assert(accounted(t, pre.pending(g), full, released.contains(g)));
        if g == c {
            if r is Some {
                assert(taken_at(t1, g) + post.pending(g) =~= t + pre.pending(g));
            } else {
                assert(post.pending(g) == pre.pending(g));
            }
        } else if post.pending(g) != pre.pending(g) {
            assert(pre.discards(g));
            assert(released.contains(g));
            let tp = t + pre.pending(g);
            assert(taken_at(t1, g) + post.pending(g) =~= t);
            assert forall|k: int| 0 <= k < t.len() implies t[k] == full[k] by {
                assert(tp[k] == t[k]);
                assert(full.subrange(0, tp.len() as int)[k] == full[k]);
            }
            assert(t =~= full.subrange(0, t.len() as int));
        }
    }
}

/// The storage of the lazy split: it owns a frayed producer and hands out
/// its groups, by index, in whatever order their elements are asked for.
///
/// Read in order, group after group, it allocates nothing; a group is kept
/// in a queue only when a later group is started before it was read to its
/// end.
pub struct Defray<J: Frayed> {
    inner: DefrayInner<J>,
    /// The index the next discovered group gets.
    index: usize,
    /// Everything the producer was to yield when the split began.
    input: Ghost<Seq<Option<J::Item>>>,
    /// For each discovered group, what was handed out of it so far.
    taken: Ghost<Seq<Seq<J::Item>>>,
    /// The groups whose cursors were given up.
    released: Ghost<Set<int>>,
}

/// The cursor of one group: its index and its first element, read when the
/// group was discovered.
pub struct Group<T> {
    index: usize,
    first: Option<T>,
}

impl<T> Group<T> {
    pub closed spec fn index(&self) -> int {
        self.index as int
    }

    pub closed spec fn first(&self) -> Option<T> {
        self.first
    }

    /// What this cursor will still yield, read against its engine.
    pub open spec fn remaining<J: Frayed<Item = T>>(&self, parent: &Defray<J>) -> Seq<T> {
        match self.first() {
            Some(x) => seq![x] + parent.pending(self.index()),
            None => parent.pending(self.index()),
        }
    }

    /// The group's next element.
    pub fn next<J: Frayed<Item = T>>(&mut self, parent: &mut Defray<J>) -> (r: Option<T>)
        requires
            old(parent).wf(),
            old(self).index() < old(parent).discovered(),
        ensures
            final(parent).wf(),
            final(self).index() == old(self).index(),
            r == first_of(old(self).remaining(&*old(parent))),
            final(self).remaining(&*final(parent)) == rest_of(old(self).remaining(&*old(parent))),
            old(parent).moved_on(&*final(parent), old(self).index()),
            old(self).first() is Some ==> *final(parent) == *old(parent) && r == old(self).first(),
            final(self).first() is None,
            old(parent).buffered() == 0 && (old(self).index() <= old(parent).active() || old(
                parent,
            ).finished()) ==> final(parent).buffered() == 0,
            old(parent).buffered() == 0 && old(self).index() == old(parent).active() && !old(
                parent,
            ).finished() && r is None ==> final(parent).active() == old(self).index() + 1,
            old(parent).finished() ==> final(parent).finished(),
    {
        match self.first.take() {
            Some(x) => {
                proof {
                    assert(seq![x] + parent.pending(self.index()) == old(self).remaining(
                        &*old(parent),
                    ));
                    assert(rest_of(seq![x] + parent.pending(self.index())) =~= parent.pending(
                        self.index(),
                    ));
                }
                Some(x)
            },
            None => parent.step(self.index),
        }
    }

    /// Reads the rest of the group, then gives the cursor up.
    pub fn collect<J: Frayed<Item = T>>(self, parent: &mut Defray<J>) -> (r: Vec<T>)
        requires
            old(parent).wf(),
            self.index() < old(parent).discovered(),
        ensures
            final(parent).wf(),
            r@ == self.remaining(&*old(parent)),
            final(parent).pending(self.index()).len() == 0,
            final(parent).dropped(self.index()),
            final(parent).discovered() == old(parent).discovered(),
            final(parent).input() == old(parent).input(),
            forall|g: int|
                g != self.index() ==> #[trigger] final(parent).pending(g) == old(parent).pending(g),
            forall|g: int|
                #[trigger] final(parent).dropped(g) == (old(parent).dropped(g) || g
                    == self.index()),
    {
        let mut group = self;
        let mut out: Vec<T> = Vec::new();
        let ghost all = group.remaining(&*parent);
        let ghost start = *parent;
        loop
            invariant
                parent.wf(),
                group.index() == self.index(),
                self.index() < start.discovered(),
                out@ + group.remaining(&*parent) == all,
                parent.discovered() == start.discovered(),
                parent.input() == start.input(),
                forall|g: int|
                    g != self.index() ==> #[trigger] parent.pending(g) == start.pending(g),
                forall|g: int| #[trigger] parent.dropped(g) == start.dropped(g),
            ensures
                out@ == all,
                group.remaining(&*parent).len() == 0,
            decreases group.remaining(&*parent).len(),
        {
            let ghost before = *parent;
            let ghost left = group.remaining(&*parent);
            match group.next(parent) {
                Some(x) => {
                    out.push(x);
                    assert(out@ + group.remaining(&*parent) =~= all);
                    assert forall|g: int| g != self.index() implies #[trigger] parent.pending(g)
                        == start.pending(g) by {
                        assert(before.pending(g) == start.pending(g));
                    }
                },
                None => {
                    assert(left.len() == 0);
                    assert(out@ =~= all);
                    assert forall|g: int| g != self.index() implies #[trigger] parent.pending(g)
                        == start.pending(g) by {
                        assert(before.pending(g) == start.pending(g));
                    }
                    break ;
                },
            }
        }
        let ghost drained = *parent;
        group.release(parent);
        proof {
            assert forall|g: int| g != self.index() implies #[trigger] parent.pending(g)
                == start.pending(g) by {
                assert(drained.pending(g) == start.pending(g));
            }
        }
        out
    }

    /// Gives the cursor up before or after its end: the engine need not keep
    /// what is left of the group.
    pub fn release<J: Frayed<Item = T>>(self, parent: &mut Defray<J>)
        requires
            old(parent).wf(),
            self.index() < old(parent).discovered(),
        ensures
            final(parent).wf(),
            forall|g: int| #[trigger] final(parent).pending(g) == old(parent).pending(g),
            forall|g: int|
                #[trigger] final(parent).dropped(g) == (old(parent).dropped(g) || g
                    == self.index()),
            final(parent).discovered() == old(parent).discovered(),
            final(parent).input() == old(parent).input(),
            final(parent).active() == old(parent).active(),
            final(parent).buffered() == old(parent).buffered(),
    {
        parent.drop_group(self.index);
    }
}

impl<J: Frayed> Defray<J> {
    pub closed spec fn wf(&self) -> bool {
        let inner = self.inner;
        &&& inner.wf()
        &&& self.index + 2 < usize::MAX
        &&& inner.top_group <= self.index
        &&& !inner.done ==> self.index <= inner.top_group + 1
        &&& self.taken@.len() == self.index
        &&& inner.dropped_group matches Some(d) ==> self.released@.contains(d as int)
        &&& forall|g: int| #[trigger] self.released@.contains(g) ==> 0 <= g < self.index
        &&& inner.done ==> self.index > inner.top_group || inner.bottom_group
            + inner.buffer@.len() <= inner.top_group
        &&& inner.iter.outputs().is_suffix_of(self.input@)
        &&& forall|g: int|
            g >= 0 ==> accounted(
                #[trigger] taken_at(self.taken@, g),
                inner.pending(g),
                group_at(groups(self.input@), g),
                self.released@.contains(g),
            )
    }

    /// Everything the producer was to yield when the split began.
    pub closed spec fn input(&self) -> Seq<Option<J::Item>> {
        self.input@
    }

    /// How many groups were discovered so far.
    pub closed spec fn discovered(&self) -> int {
        self.index as int
    }

    /// What requests for group `g` will still yield.
    pub closed spec fn pending(&self, g: int) -> Seq<J::Item> {
        self.inner.pending(g)
    }

    /// What was handed out of group `g` so far, its first element included.
    pub closed spec fn taken(&self, g: int) -> Seq<J::Item> {
        taken_at(self.taken@, g)
    }

    /// Whether the cursor of group `g` was given up.
    pub closed spec fn dropped(&self, g: int) -> bool {
        self.released@.contains(g)
    }

    /// Whether the producer has yielded two terminators in a row.
    pub closed spec fn finished(&self) -> bool {
        self.inner.done
    }

    /// The group read straight off the producer.
    pub closed spec fn active(&self) -> int {
        self.inner.top_group as int
    }

    /// How many group queues the buffer holds.
    pub closed spec fn buffered(&self) -> nat {
        self.inner.buffer@.len()
    }

    /// Groups below this index have been read out and their queues reclaimed.
    pub closed spec fn reclaimed_below(&self) -> int {
        self.inner.oldest_buffered_group as int
    }

    pub closed spec fn producer(&self) -> J {
        self.inner.iter
    }

    /// `new` is `self` after a request for group `client`: every other
    /// group keeps its elements.
    pub open spec fn moved_on(&self, new: &Self, client: int) -> bool {
        &&& new.input() == self.input()
        &&& new.discovered() == self.discovered()
        &&& forall|g: int| #![trigger new.pending(g)] g != client ==> new.pending(g) == self.pending(g)
        &&& forall|g: int| #[trigger] new.dropped(g) == self.dropped(g)
    }

    /// Starts the split of `iter`; nothing is read yet.
    pub fn new(iter: J) -> (r: Self)
        requires
            iter.wf(),
        ensures
            r.wf(),
            r.input() == iter.outputs(),
            r.producer() == iter,
            r.discovered() == 0,
            r.buffered() == 0,
            r.active() == 0,
            r.reclaimed_below() == 0,
            !r.finished(),
            forall|g: int| g >= 0 ==> #[trigger] r.pending(g) == group_at(groups(iter.outputs()), g),
            forall|g: int| !#[trigger] r.dropped(g),
    {
        let ghost input = iter.outputs();
        let r = Defray {
            inner: DefrayInner {
                iter,
                done: false,
                last_was_none: false,
                top_group: 0,
                oldest_buffered_group: 0,
                bottom_group: 0,
                buffer: Vec::new(),
                dropped_group: None,
            },
            index: 0,
            input: Ghost(input),
            taken: Ghost(Seq::empty()),
            released: Ghost(Set::empty()),
        };
        proof {
            lemma_suffix_refl(input);
        }
        assert forall|g: int| g >= 0 implies accounted(
            #[trigger] r.taken(g),
            r.inner.pending(g),
            group_at(groups(input), g),
            r.released@.contains(g),
        ) by {
            assert(r.taken(g) + r.inner.pending(g) =~= r.inner.pending(g));
        }
        r
    }

    /// The request of group `client` for its next element.
    fn step(&mut self, client: usize) -> (r: Option<J::Item>)
        requires
            old(self).wf(),
            client < old(self).discovered(),
        ensures
            final(self).wf(),
            r == first_of(old(self).pending(client as int)),
            final(self).pending(client as int) == rest_of(old(self).pending(client as int)),
            old(self).moved_on(&*final(self), client as int),
            old(self).buffered() == 0 && (client <= old(self).active() || old(self).finished())
                ==> final(self).buffered() == 0,
            old(self).buffered() == 0 && client == old(self).active() && !old(self).finished()
                && r is None ==> final(self).active() == client + 1,
            old(self).finished() ==> final(self).finished(),
            final(self).taken == old(self).taken@.update(
                client as int,
                if r is Some {
                    old(self).taken@[client as int].push(r->0)
                } else {
                    old(self).taken@[client as int]
                },
            ),
            final(self).released == old(self).released,
    {
        let ghost pre = *self;
        let r = self.inner.step(client);
        proof {
            let c = client as int;
            if r is Some {
                self.taken@ = self.taken@.update(c, self.taken@[c].push(r->0));
            }
            lemma_accounting(
                pre.inner,
                self.inner,
                pre.taken@,
                self.taken@,
                self.input@,
                self.released@,
                c,
                r,
            );
            lemma_suffix_trans(self.inner.iter.outputs(), pre.inner.iter.outputs(), self.input@);
            if r is None {
                assert(self.taken@ =~= pre.taken@.update(c, pre.taken@[c]));
            }
        }
        r
    }

    /// Discovers the next group: `None` when it has no element (an empty
    /// first group, or the end of the sequence), else its cursor.
    ///
    /// Indices come near `usize::MAX` only after that many groups; there no
    /// further group is discovered.
    pub fn next_group(&mut self) -> (r: Option<Group<J::Item>>)
        requires
            old(self).wf(),
        ensures
            final(self).wf(),
            old(self).discovered() + 3 >= usize::MAX ==> r is None && *final(self) == *old(self),
            old(self).discovered() + 3 < usize::MAX ==> {
                let i = old(self).discovered();
                &&& final(self).discovered() == i + 1
                &&& (r is Some <==> old(self).pending(i).len() > 0)
                &&& (r matches Some(g) ==> g.index() == i && g.first() == Some(old(self).pending(i)[0]))
                &&& final(self).pending(i) == rest_of(old(self).pending(i))
                &&& final(self).taken(i) == (if r is Some {
                    seq![old(self).pending(i)[0]]
                } else {
                    Seq::empty()
                })
                &&& final(self).input() == old(self).input()
                &&& forall|g: int|
                    #![trigger final(self).pending(g)]
                    g >= 0 && g != i ==> (final(self).pending(g) == old(self).pending(g) || (g
                        == old(self).active() && old(self).dropped(g) && final(self).pending(
                        g,
                    ).len() == 0))
                &&& forall|g: int| #[trigger] final(self).dropped(g) == old(self).dropped(g)
                &&& (old(self).finished() ==> r is None && final(self).finished()
                    && final(self).producer() == old(self).producer())
                &&& (old(self).buffered() == 0 && (i == old(self).active() || old(self).finished())
                    ==> final(self).buffered() == 0)
                &&& (old(self).buffered() == 0 && i == old(self).active() && !old(self).finished()
                    ==> final(self).active() == (if r is None {
                    i + 1
                } else {
                    i
                }))
            },
    {
        if self.index >= usize::MAX - 3 {
            return None;
        }
        let index = self.index;
        let ghost pre = *self;
        let r = self.inner.step(index);
        self.index = index + 1;
        proof {
            let first = if r is Some {
                seq![r->0]
            } else {
                Seq::empty()
            };
            self.taken@ = self.taken@.push(first);
            assert forall|g: int| g >= 0 implies #[trigger] taken_at(self.taken@, g) == (if g
                == index && r is Some {
                taken_at(pre.taken@, g).push(r->0)
            } else {
                taken_at(pre.taken@, g)
            }) by {
                if g == index {
                    assert(first =~= taken_at(pre.taken@, g) + first);
                }
            }
            lemma_accounting(
                pre.inner,
                self.inner,
                pre.taken@,
                self.taken@,
                self.input@,
                self.released@,
                index as int,
                r,
            );
            lemma_suffix_trans(self.inner.iter.outputs(), pre.inner.iter.outputs(), self.input@);
        }
        match r {
            Some(elt) => Some(Group { index, first: Some(elt) }),
            None => None,
        }
    }

    /// Hands back the producer, with what it has not yielded yet: what is
    /// left of the input once the split's reads are taken off its front.
    pub fn into_inner(self) -> (r: J)
        requires
            self.wf(),
        ensures
            r == self.producer(),
            r.outputs().is_suffix_of(self.input()),
    {
        self.inner.iter
    }

    /// How many group queues the buffer holds now.
    pub fn buffered_groups(&self) -> (r: usize)
        ensures
            r == self.buffered(),
    {
        self.inner.buffer.len()
    }

    /// The producer, borrowed.
    pub fn iter_ref(&self) -> (r: &J)
        ensures
            *r == self.producer(),
    {
        &self.inner.iter
    }

    /// Gives the cursor of group `client` up.
    fn drop_group(&mut self, client: usize)
        requires
            old(self).wf(),
            client < old(self).discovered(),
        ensures
            final(self).wf(),
            forall|g: int| #[trigger] final(self).pending(g) == old(self).pending(g),
            forall|g: int|
                #[trigger] final(self).dropped(g) == (old(self).dropped(g) || g == client),
            final(self).discovered() == old(self).discovered(),
            final(self).input() == old(self).input(),
            final(self).active() == old(self).active(),
            final(self).buffered() == old(self).buffered(),
            final(self).taken == old(self).taken,
    {
        self.inner.drop_group(client);
        proof {
            self.released@ = self.released@.insert(client as int);
            assert forall|g: int| g >= 0 implies accounted(
                #[trigger] taken_at(self.taken@, g),
                self.inner.pending(g),
                group_at(groups(self.input@), g),
                self.released@.contains(g),
            ) by {
                let t = self.taken(g) + self.inner.pending(g);
                assert(old(self).taken(g) == self.taken(g));
                assert(t.is_prefix_of(t));
            }
        }
    }

    /// Groups not discovered yet are whole: nothing was taken out of them,
    /// none was given up, and each will yield its group of the input.
    pub proof fn lemma_undiscovered_whole(&self, g: int)
        requires
            self.wf(),
            g >= self.discovered(),
        ensures
            !self.dropped(g),
            self.taken(g).len() == 0,
            self.pending(g) == group_at(groups(self.input()), g),
    {
        assert(accounted(
            taken_at(self.taken@, g),
            self.inner.pending(g),
            group_at(groups(self.input@), g),
            self.released@.contains(g),
        ));
        assert(taken_at(self.taken@, g) + self.pending(g) =~= self.pending(g));
    }

    /// Giving cursors up never spoils the other groups: every group whose
    /// own cursor was not given up yields, over all requests in whatever
    /// order, exactly its group of the input.
    pub proof fn lemma_kept_group_intact(&self, g: int)
        requires
            self.wf(),
            g >= 0,
            !self.dropped(g),
        ensures
            self.taken(g) + self.pending(g) == group_at(groups(self.input()), g),
    {
        assert(accounted(
            taken_at(self.taken@, g),
            self.inner.pending(g),
            group_at(groups(self.input@), g),
            self.released@.contains(g),
        ));
    }

    /// A group read to its end, in whatever order it and the other groups
    /// were read, has handed out exactly its group of the input.
    pub proof fn lemma_drained_group_whole(&self, g: int)
        requires
            self.wf(),
            g >= 0,
            !self.dropped(g),
            self.pending(g).len() == 0,
        ensures
            self.taken(g) == group_at(groups(self.input()), g),
    {
        self.lemma_kept_group_intact(g);
        assert(self.taken(g) + self.pending(g) =~= self.taken(g));
    }

    /// A group below the reclamation mark has nothing more to yield.
    pub proof fn lemma_reclaimed_exhausted(&self, g: int)
        requires
            self.wf(),
            g < self.reclaimed_below(),
        ensures
            self.pending(g).len() == 0,
    {
    }

    /// Maps each group, read to its end, through `f`.
    pub fn map<B, F: Fn(Vec<J::Item>) -> B>(self, f: F) -> (r: GroupMap<J, F>)
        ensures
            r.source() == self,
            r.func() == f,
    {
        GroupMap::new(self, f)
    }

}

/// A split together with a function that each of its groups, read to its
/// end, is mapped through.
pub struct GroupMap<J: Frayed, F> {
    into: Defray<J>,
    f: F,
}

/// `r` is what `f` made of the groups that `d` discovers next, one after the
/// other, each read to its end and non-empty; `args` are those groups.
pub open spec fn maps_groups<J: Frayed, B, F: Fn(Vec<J::Item>) -> B>(
    d: Defray<J>,
    f: F,
    args: Seq<Vec<J::Item>>,
    r: Seq<B>,
) -> bool {
    &&& args.len() == r.len()
    &&& forall|j: int|
        #![trigger args[j]]
        0 <= j < r.len() ==> args[j]@ == d.pending(d.discovered() + j) && args[j]@.len() > 0
            && f.ensures((args[j],), r[j])
}

impl<J: Frayed, B, F: Fn(Vec<J::Item>) -> B> GroupMap<J, F> {
    pub closed spec fn source(&self) -> Defray<J> {
        self.into
    }

    pub closed spec fn func(&self) -> F {
        self.f
    }

    pub fn new(into: Defray<J>, f: F) -> (r: Self)
        ensures
            r.source() == into,
            r.func() == f,
    {
        GroupMap { into, f }
    }

    /// Discovers the groups one after the other, reads each to its end and
    /// maps it; stops at the first discovery that finds no element.
    pub fn into_vec(self) -> (r: Vec<B>)
        requires
            self.source().wf(),
            forall|v: Vec<J::Item>| #[trigger] self.func().requires((v,)),
        ensures
            exists|args: Seq<Vec<J::Item>>| #[trigger] maps_groups(self.source(), self.func(), args, r@),
            self.source().pending(self.source().discovered() + r@.len()).len() == 0
                || self.source().discovered() + r@.len() + 3 >= usize::MAX,
    {
        let ghost src = self.source();
        let ghost func = self.func();
        let f = self.f;
        let mut d = self.into;
        let ghost d0 = d;
        assert(d0 == src && f == func);
        let ghost i0 = d.discovered();
        let ghost mut args: Seq<Vec<J::Item>> = Seq::empty();
        let mut out: Vec<B> = Vec::new();
        proof {
            assert forall|h: int| h >= d.discovered() implies #[trigger] d.pending(h) == d0.pending(h)
                && !d.dropped(h) by {
                d.lemma_undiscovered_whole(h);
            }
        }
        loop
            invariant_except_break
                d.discovered() == i0 + out@.len(),
                forall|h: int|
                    h >= d.discovered() ==> #[trigger] d.pending(h) == d0.pending(h) && !d.dropped(h),
            invariant
                d.wf(),
                i0 == d0.discovered(),
                f == self.func(),
                forall|v: Vec<J::Item>| #[trigger] f.requires((v,)),
                args.len() == out@.len(),
                forall|j: int|
                    #![trigger args[j]]
                    0 <= j < out@.len() ==> args[j]@ == d0.pending(i0 + j) && args[j]@.len() > 0
                        && f.ensures((args[j],), out@[j]),
            ensures
                d0.pending(i0 + out@.len()).len() == 0 || i0 + out@.len() + 3 >= usize::MAX,
            decreases usize::MAX - d.discovered(),
        {
            let ghost before = d;
            match d.next_group() {
                None => {
                    assert(before.pending(i0 + out@.len()) == d0.pending(i0 + out@.len()));
                    break ;
                },
                Some(g) => {
                    let ghost after = d;
                    assert(g.remaining(&d) =~= before.pending(g.index()));
                    let v = g.collect(&mut d);
                    let ghost gv = v;
                    let y = f(v);
                    out.push(y);
                    proof {
                        args = args.push(gv);
                        assert forall|h: int| h >= d.discovered() implies #[trigger] d.pending(h)
                            == d0.pending(h) && !d.dropped(h) by {
                            assert(after.pending(h) == before.pending(h));
                            assert(!after.dropped(h));
                        }
                        assert forall|j: int| #![trigger args[j]] 0 <= j < out@.len() implies args[j]@
                            == d0.pending(i0 + j) && args[j]@.len() > 0 && f.ensures(
                            (args[j],),
                            out@[j],
                        ) by {}
                    }
                },
            }
        }
        assert(maps_groups(src, func, args, out@));
        out
    }
}

} // verus!
