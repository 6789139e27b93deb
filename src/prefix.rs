use vstd::prelude::*;
use crate::stream::{Frayed, head, tail, settled, somes, groups, first_group, after_group, later_groups};

verus! {

/// `v` put in front of `s`, where a `None` in front of nothing is implied.
pub open spec fn cons<T>(v: Option<T>, s: Seq<Option<T>>) -> Seq<Option<T>> {
    if v is None && s.len() == 0 {
        s
    } else {
        seq![v] + s
    }
}

/// The outputs of postfix outputs `s` with prefix `p` put before every group
/// that follows a terminator and has an element.
pub open spec fn emit<T>(p: Seq<T>, s: Seq<Option<T>>) -> Seq<Option<T>>
    decreases s.len(),
{
    if s.len() == 0 {
        Seq::empty()
    } else if s[0] is Some {
        seq![s[0]] + emit(p, s.drop_first())
    } else {
        let more = if head(s.drop_first()) is Some {
            somes(p)
        } else {
            Seq::empty()
        };
        seq![s[0]] + more + emit(p, s.drop_first())
    }
}

/// The outputs of the adapter on prefix `p` and postfix outputs `s`: `p`
/// comes before the first group too, when it has an element.
pub open spec fn prefixed<T>(p: Seq<T>, s: Seq<Option<T>>) -> Seq<Option<T>> {
    let lead = if head(s) is Some {
        somes(p)
    } else {
        Seq::empty()
    };
    lead + emit(p, s)
}

proof fn lemma_emit_settled<T>(p: Seq<T>, s: Seq<Option<T>>)
    requires
        settled(s),
    ensures
        settled(emit(p, s)),
        emit(p, s).len() == 0 <==> s.len() == 0,
    decreases s.len(),
{
    if s.len() > 0 {
        let t = s.drop_first();
        assert(settled(t));
        lemma_emit_settled(p, t);
        if t.len() == 0 {
            assert(s[0] is Some);
        }
    }
}

proof fn lemma_emit_somes<T>(p: Seq<T>, a: Seq<T>, t: Seq<Option<T>>)
    ensures
        emit(p, somes(a) + t) == somes(a) + emit(p, t),
    decreases a.len(),
{
    if a.len() > 0 {
        let s = somes(a) + t;
        assert(s.drop_first() =~= somes(a.drop_first()) + t);
        lemma_emit_somes(p, a.drop_first(), t);
        assert(somes(a) =~= seq![s[0]] + somes(a.drop_first()));
    } else {
        assert(somes(a) + t =~= t);
        assert(somes(a) + emit(p, t) =~= emit(p, t));
    }
}

proof fn lemma_groups_somes<T>(x: Seq<T>, t: Seq<Option<T>>)
    ensures
        first_group(somes(x) + t) == x + first_group(t),
        after_group(somes(x) + t) == after_group(t),
    decreases x.len(),
{
    if x.len() > 0 {
        let s = somes(x) + t;
        assert(s.drop_first() =~= somes(x.drop_first()) + t);
        lemma_groups_somes(x.drop_first(), t);
        assert(x =~= seq![x[0]] + x.drop_first());
        assert(x + first_group(t) =~= seq![x[0]] + (x.drop_first() + first_group(t)));
    } else {
        assert(somes(x) + t =~= t);
        assert(x + first_group(t) =~= first_group(t));
    }
}

/// With a postfix of two groups `a` and `b`, both with elements, the
/// adapter yields the two groups `p + a` and `p + b`.
pub proof fn lemma_prefix_two_groups<T>(p: Seq<T>, a: Seq<T>, b: Seq<T>)
    requires
        a.len() > 0,
        b.len() > 0,
    ensures
        groups(prefixed(p, somes(a) + seq![None] + somes(b))) == seq![p + a, p + b],
{
    let e = Seq::<Option<T>>::empty();
    let tb = seq![None] + somes(b);
    let s = somes(a) + tb;
    assert(somes(a) + seq![None] + somes(b) =~= s);
    lemma_emit_somes(p, a, tb);
    lemma_emit_somes(p, b, e);
    assert(somes(b) + e =~= somes(b));
    assert(emit(p, e) =~= e);
    assert(tb.drop_first() =~= somes(b));
    assert(emit(p, tb) == seq![tb[0]] + somes(p) + emit(p, somes(b)));
    let out = somes(p) + (somes(a) + (seq![tb[0]] + somes(p) + somes(b)));
    assert(prefixed(p, s) =~= out);
    let tail_part = seq![None] + somes(p + b);
    assert(out =~= somes(p + a) + tail_part);
    lemma_groups_somes(p + a, tail_part);
    lemma_groups_somes(p + b, e);
    assert(somes(p + b) + e =~= somes(p + b));
    assert(tail_part.drop_first() =~= somes(p + b));
    assert(first_group(tail_part) =~= Seq::<T>::empty());
    assert(after_group(tail_part) == somes(p + b));
    assert(first_group(e) =~= Seq::<T>::empty());
    assert(p + a + Seq::<T>::empty() =~= p + a);
    assert(p + b + Seq::<T>::empty() =~= p + b);
    assert(after_group(somes(p + b)) == after_group(e));
    assert(later_groups(e) =~= Seq::<Seq<T>>::empty());
    assert(later_groups(somes(p + b)) =~= seq![p + b]);
    assert(groups(out) =~= seq![p + a, p + b]);
}

/// With an empty postfix the adapter yields nothing: a single empty group,
/// which a split reports as no group. With the prefix forced it yields
/// exactly one group, the prefix.
pub proof fn lemma_prefix_empty_postfix<T>(p: Seq<T>)
    ensures
        prefixed(p, Seq::empty()) == Seq::<Option<T>>::empty(),
        groups(prefixed(p, Seq::empty())) == seq![Seq::<T>::empty()],
        groups(somes(p) + prefixed(p, Seq::empty())) == seq![p],
{
    let e = Seq::<Option<T>>::empty();
    assert(prefixed(p, e) =~= e);
    assert(later_groups(e) =~= Seq::<Seq<T>>::empty());
    assert(groups(e) =~= seq![Seq::<T>::empty()]);
    lemma_groups_somes(p, e);
    assert(somes(p) + e =~= somes(p));
    assert(p + Seq::<T>::empty() =~= p);
    assert(groups(somes(p)) =~= seq![p]);
}

/// A frayed producer that yields a fixed prefix before each group of a
/// postfix producer, by copying the prefix anew for each group.
#[verifier::reject_recursive_types(T)]
pub struct Prefix<T: Copy, J: Frayed<Item = T>> {
    prefix: Vec<T>,
    iter: J,
    /// One output of `iter` read ahead, if any.
    peeked: Option<Option<T>>,
    /// The position in `prefix` of the next element to yield, while a copy
    /// of it is being yielded.
    consume: Option<usize>,
}

impl<T: Copy, J: Frayed<Item = T>> Prefix<T, J> {
    /// The outputs of the postfix producer still to come.
    closed spec fn stream(&self) -> Seq<Option<T>> {
        match self.peeked {
            Some(v) => cons(v, self.iter.outputs()),
            None => self.iter.outputs(),
        }
    }

    /// The prefix.
    pub closed spec fn prefix(&self) -> Seq<T> {
        self.prefix@
    }

    /// Whether a copy of the prefix is under way.
    pub closed spec fn armed(&self) -> bool {
        self.consume is Some
    }

    /// Puts `prefix` before each group of `iter` that has an element.
    pub fn new(prefix: Vec<T>, iter: J) -> (r: Self)
        requires
            iter.wf(),
        ensures
            r.wf(),
            r.outputs() == prefixed(prefix@, iter.outputs()),
            r.prefix() == prefix@,
            r.armed() == (head(iter.outputs()) is Some),
    {
        let mut iter = iter;
        let ghost s = iter.outputs();
        proof {
            iter.lemma_settled();
        }
        let first = iter.next();
        let consume = if first.is_some() {
            Some(0)
        } else {
            None
        };
        let r = Prefix { prefix, iter, peeked: Some(first), consume };
        proof {
            assert(r.stream() == s);
            assert(prefix@.subrange(0, prefix@.len() as int) =~= prefix@);
        }
        r
    }

    /// With `enable`, yields the prefix even when the postfix producer is
    /// empty from the start (by default it then yields nothing).
    pub fn prefix_empty(self, enable: bool) -> (r: Self)
        requires
            self.wf(),
        ensures
            r.wf(),
            r.prefix() == self.prefix(),
            r.outputs() == (if !self.armed() && enable {
                somes(self.prefix()) + self.outputs()
            } else {
                self.outputs()
            }),
            r.armed() == (self.armed() || enable),
    {
        let mut r = self;
        if r.consume.is_none() {
            r.consume = if enable {
                Some(0)
            } else {
                None
            };
            proof {
                assert(r.prefix@.subrange(0, r.prefix@.len() as int) =~= r.prefix@);
                assert(Seq::<Option<T>>::empty() + emit(r.prefix@, r.stream()) =~= emit(
                    r.prefix@,
                    r.stream(),
                ));
            }
        }
        r
    }

    /// The next output of the postfix producer.
    fn pull(&mut self) -> (r: Option<T>)
        requires
            old(self).iter.wf(),
            settled(old(self).stream()),
        ensures
            final(self).iter.wf(),
            settled(final(self).stream()),
            r == head(old(self).stream()),
            final(self).stream() == tail(old(self).stream()),
            final(self).prefix == old(self).prefix,
            final(self).consume == old(self).consume,
    {
        proof {
            self.iter.lemma_settled();
        }
        match self.peeked.take() {
            Some(v) => {
                proof {
                    assert(tail(cons(v, old(self).iter.outputs())) == old(self).iter.outputs());
                }
                v
            },
            None => self.iter.next(),
        }
    }

    /// Whether the postfix producer has another element right away.
    fn peek_is_some(&mut self) -> (r: bool)
        requires
            old(self).iter.wf(),
            settled(old(self).stream()),
        ensures
            final(self).iter.wf(),
            final(self).stream() == old(self).stream(),
            r == (head(old(self).stream()) is Some),
            final(self).prefix == old(self).prefix,
            final(self).consume == old(self).consume,
    {
        proof {
            self.iter.lemma_settled();
        }
        if self.peeked.is_none() {
            let v = self.iter.next();
            self.peeked = Some(v);
            proof {
                let s = old(self).iter.outputs();
                if s.len() > 0 {
                    assert(cons(v, self.iter.outputs()) =~= s);
                }
            }
        }
        match &self.peeked {
            Some(Some(_)) => true,
            _ => false,
        }
    }

    /// An output of the postfix producer; after a terminator the prefix is
    /// armed again, but only when a group with an element follows.
    fn step(&mut self) -> (r: Option<T>)
        requires
            old(self).wf(),
            old(self).consume is None,
        ensures
            final(self).wf(),
            r == head(old(self).outputs()),
            final(self).outputs() == tail(old(self).outputs()),
    {
        let ghost s = self.stream();
        let ghost p = self.prefix@;
        proof {
            self.iter.lemma_settled();
            assert(old(self).outputs() =~= emit(p, s));
        }
        match self.pull() {
            None => {
                let again = self.peek_is_some();
                self.consume = if again {
                    Some(0)
                } else {
                    None
                };
                proof {
                    assert(p.subrange(0, p.len() as int) =~= p);
                    if s.len() > 0 {
                        assert(emit(p, s) == seq![s[0]] + (if head(s.drop_first()) is Some {
                            somes(p)
                        } else {
                            Seq::empty()
                        }) + emit(p, s.drop_first()));
                        assert(tail(emit(p, s)) =~= self.outputs());
                    } else {
                        assert(self.outputs() =~= emit(p, s));
                    }
                }
                None
            },
            x => {
                proof {
                    assert(tail(emit(p, s)) =~= self.outputs());
                }
                x
            },
        }
    }
}

impl<T: Copy, J: Frayed<Item = T>> Frayed for Prefix<T, J> {
    type Item = T;

    closed spec fn wf(&self) -> bool {
        &&& self.iter.wf()
        &&& settled(self.stream())
        &&& self.consume matches Some(i) ==> i <= self.prefix@.len()
    }

    closed spec fn outputs(&self) -> Seq<Option<T>> {
        let lead = match self.consume {
            Some(i) => somes(self.prefix@.subrange(i as int, self.prefix@.len() as int)),
            None => Seq::empty(),
        };
        lead + emit(self.prefix@, self.stream())
    }

    proof fn lemma_settled(&self) {
        lemma_emit_settled(self.prefix@, self.stream());
    }

    fn next(&mut self) -> (r: Option<T>) {
        match self.consume {
            Some(i) => {
                if i < self.prefix.len() {
                    let x = self.prefix[i];
                    self.consume = Some(i + 1);
                    proof {
                        let p = self.prefix@;
                        assert(tail(old(self).outputs()) =~= self.outputs());
                    }
                    Some(x)
                } else {
                    self.consume = None;
                    proof {
                        assert(old(self).outputs() =~= self.outputs());
                    }
                    self.step()
                }
            },
            None => self.step(),
        }
    }
}

} // verus!
