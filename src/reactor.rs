//! The reactor's bookkeeping: the table of wake handles keyed by id, the id
//! counter, and which wake handles a batch of readiness events invokes.
use std::collections::HashMap;
use vstd::prelude::*;

verus! {

broadcast use vstd::std_specs::hash::group_hash_axioms;

/// The ids among `fired`, in order, that have a wake handle in `wakers`; a
/// fired id without one is ignored.
pub open spec fn to_wake<W>(fired: Seq<usize>, wakers: Map<usize, W>) -> Seq<usize>
    decreases fired.len(),
{
    if fired.len() == 0 {
        Seq::empty()
    } else {
        let rest = to_wake(fired.drop_last(), wakers);
        if wakers.contains_key(fired.last()) {
            rest.push(fired.last())
        } else {
            rest
        }
    }
}

/// An id is among those to wake exactly when it fired and has a wake handle.
pub proof fn lemma_to_wake_contains<W>(fired: Seq<usize>, wakers: Map<usize, W>, id: usize)
    ensures
        to_wake(fired, wakers).contains(id) <==> fired.contains(id) && wakers.contains_key(id),
    decreases fired.len(),
{
    if fired.len() > 0 {
        let init = fired.drop_last();
        lemma_to_wake_contains(init, wakers, id);
        assert(fired =~= init.push(fired.last()));
        if fired.contains(id) && id != fired.last() {
            let i = choose|i: int| 0 <= i < fired.len() && fired[i] == id;
            assert(init[i] == id);
        }
        if init.contains(id) {
            let i = choose|i: int| 0 <= i < init.len() && init[i] == id;
            assert(fired[i] == id);
        }
        if to_wake(fired, wakers).contains(id) && wakers.contains_key(fired.last()) {
            let rest = to_wake(init, wakers);
            let i = choose|i: int| 0 <= i < rest.push(fired.last()).len() && rest.push(fired.last())[i] == id;
            if i < rest.len() {
                assert(rest[i] == id);
            } else {
                assert(fired[fired.len() - 1] == id);
            }
        }
        if fired.last() == id && wakers.contains_key(id) {
            let rest = to_wake(init, wakers);
            assert(rest.push(id)[rest.len() as int] == id);
        }
        if to_wake(init, wakers).contains(id) && wakers.contains_key(fired.last()) {
            let rest = to_wake(init, wakers);
            let i = choose|i: int| 0 <= i < rest.len() && rest[i] == id;
            assert(rest.push(fired.last())[i] == id);
        }
    }
}

/// The most recently recorded wake handle wins: when a handle is recorded for
/// `id` and then another, an event fired for `id` wakes `id`, through the
/// later handle.
pub proof fn lemma_last_set_waker_wins<W>(
    wakers: Map<usize, W>,
    id: usize,
    earlier: W,
    later: W,
    fired: Seq<usize>,
)
    requires
        fired.contains(id),
    ensures
        to_wake(fired, wakers.insert(id, earlier).insert(id, later)).contains(id),
        wakers.insert(id, earlier).insert(id, later)[id] == later,
{
    lemma_to_wake_contains(fired, wakers.insert(id, earlier).insert(id, later), id);
}

/// Once `id` is deregistered, an event fired for `id` wakes nothing under
/// it, and the ids woken are those of the other fired events.
pub proof fn lemma_deregistered_id_ignored<W>(wakers: Map<usize, W>, id: usize, fired: Seq<usize>)
    ensures
        !to_wake(fired, wakers.remove(id)).contains(id),
        forall|other: usize|
            other != id ==> (#[trigger] to_wake(fired, wakers.remove(id)).contains(other)
                <==> to_wake(fired, wakers).contains(other)),
{
    lemma_to_wake_contains(fired, wakers.remove(id), id);
    assert forall|other: usize|
        other != id implies (#[trigger] to_wake(fired, wakers.remove(id)).contains(other)
            <==> to_wake(fired, wakers).contains(other)) by {
        lemma_to_wake_contains(fired, wakers.remove(id), other);
        lemma_to_wake_contains(fired, wakers, other);
    }
}

/// Wake handles by id and the counter that issues ids.
pub struct Reactor<W> {
    wakers: HashMap<usize, W>,
    next_id: usize,
}

impl<W> Reactor<W> {
    /// The wake handle recorded for each id.
    pub closed spec fn wakers(&self) -> Map<usize, W> {
        self.wakers@
    }

    /// The id that `next_id` issues next.
    pub closed spec fn next(&self) -> nat {
        self.next_id as nat
    }

    /// An empty table; ids are issued from 1.
    pub fn new() -> (r: Reactor<W>)
        ensures
            r.wakers() == Map::<usize, W>::empty(),
            r.next() == 1,
    {
        Reactor { wakers: HashMap::new(), next_id: 1 }
    }

    /// The id that `next_id` issues next, without issuing it.
    pub fn peek_id(&self) -> (r: usize)
        ensures
            r == self.next(),
    {
        self.next_id
    }

    /// Issues a fresh id: each call returns one more than the call before.
    pub fn next_id(&mut self) -> (r: usize)
        requires
            old(self).next() < usize::MAX,
        ensures
            r == old(self).next(),
            final(self).next() == old(self).next() + 1,
            final(self).wakers() == old(self).wakers(),
    {
        let id = self.next_id;
        self.next_id = id + 1;
        id
    }

    /// Records the wake handle to invoke the next time `id` becomes ready,
    /// in place of any earlier one.
    pub fn set_waker(&mut self, waker: W, id: usize)
        ensures
            final(self).wakers() == old(self).wakers().insert(id, waker),
            final(self).next() == old(self).next(),
    {
        self.wakers.insert(id, waker);
    }

    /// Forgets the wake handle of `id`, so that a later event under `id`
    /// wakes nothing.
    pub fn deregister(&mut self, id: usize)
        ensures
            final(self).wakers() == old(self).wakers().remove(id),
            final(self).next() == old(self).next(),
    {
        self.wakers.remove(&id);
    }

    /// The wake handle recorded for `id`, if any.
    pub fn waker_for(&self, id: usize) -> (r: Option<&W>)
        ensures
            self.wakers().contains_key(id) ==> r == Some(&self.wakers()[id]),
            !self.wakers().contains_key(id) ==> r is None,
    {
        self.wakers.get(&id)
    }

    /// The ids of a batch of fired events, in order, whose wake handle is to
    /// be invoked: those with a recorded wake handle.
    pub fn fired_wakers(&self, fired: &Vec<usize>) -> (r: Vec<usize>)
        ensures
            r@ == to_wake(fired@, self.wakers()),
    {
        let mut r: Vec<usize> = Vec::new();
        let mut i: usize = 0;
        while i < fired.len()
            invariant
                i <= fired@.len(),
                r@ == to_wake(fired@.subrange(0, i as int), self.wakers()),
            decreases fired@.len() - i,
        {
            let id = fired[i];
            assert(fired@.subrange(0, i + 1 as int).drop_last() =~= fired@.subrange(0, i as int));
            if self.wakers.contains_key(&id) {
                r.push(id);
            }
            i = i + 1;
        }
        assert(fired@.subrange(0, fired@.len() as int) =~= fired@);
        r
    }
}

} // verus!
