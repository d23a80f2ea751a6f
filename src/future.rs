//! The suspended-computation contract, and a composite computation written as
//! an explicit state machine over two child computations.
use vstd::prelude::*;

verus! {

/// Outcome of one attempt to make progress on a computation.
pub enum PollState<T> {
    Ready(T),
    NotReady,
}

impl<T> PollState<T> {
    pub fn is_ready(&self) -> (r: bool)
        ensures
            r == (self is Ready),
    {
        match self {
            PollState::Ready(_) => true,
            PollState::NotReady => false,
        }
    }
}

/// A computation that can be polled for progress. `W` is the wake handle that
/// the computation keeps when it reports `NotReady`, to be invoked once
/// progress becomes possible.
pub trait Future<W> {
    /// The computation may be polled: it has not resolved. Polling a resolved
    /// computation is a usage error. A computation that says nothing more may
    /// always be polled.
    open spec fn pollable(&self) -> bool {
        true
    }

    /// The computation states what its next poll reports, in `outcome`. One
    /// that says nothing of it (the default) promises nothing through it.
    open spec fn reports(&self) -> bool {
        false
    }

    /// What the next poll reports, where `reports` holds: `Some(t)` ready
    /// with text `t`, `None` not ready.
    open spec fn outcome(&self) -> Option<Seq<char>> {
        None
    }

    /// Attempts progress; a computation that is not ready yet may be polled
    /// again.
    fn poll(&mut self, waker: &W) -> (r: PollState<String>)
        requires
            old(self).pollable(),
        ensures
            r is NotReady ==> final(self).pollable(),
            old(self).reports() ==> match r {
                PollState::Ready(s) => old(self).outcome() == Some(s@),
                PollState::NotReady => old(self).outcome() is None,
            },
    ;
}

/// The states of the composite, one per suspension point. A state that waits
/// on a child owns it. The second child is built, by the function the
/// composite was made with, when the first has resolved.
pub enum Stage<C, F> {
    /// Created, not polled yet.
    Start(C, F),
    /// Waiting on the first child.
    Wait1(C, F),
    /// Waiting on the second child.
    Wait2(C),
    /// Resolved; must not be polled again.
    Resolved,
}

/// Where one drive of the composite ends, as (stage, gathered text), when
/// it starts at `stage` (0, 1 or 2) with gathered `text`, and the first child
/// reports `first` and the second `second` when polled (`Some(t)`: ready with
/// text `t`; `None`: not ready). A child that is not polled is not looked at.
pub open spec fn drive_outcome(
    stage: int,
    text: Seq<char>,
    first: Option<Seq<char>>,
    second: Option<Seq<char>>,
) -> (int, Seq<char>) {
    if stage <= 1 {
        match first {
            None => (1, text),
            Some(t1) => match second {
                None => (2, text + t1),
                Some(t2) => (3, text + t1 + t2),
            },
        }
    } else {
        match second {
            None => (2, text),
            Some(t2) => (3, text + t2),
        }
    }
}

/// A composite whose children are never not ready resolves within a single
/// drive: from whichever stage before resolution `pre` is driven, the drive
/// (which ends in `post`) resolves it, to the gathered text followed by the
/// texts of the children it still waited on. A drive that stops short of
/// resolution has met a child that was not ready.
pub proof fn lemma_ready_children_resolve_in_one_drive<W, C: Future<W>, F: FnOnce() -> C>(
    pre: &Coroutine<C, F>,
    post: &Coroutine<C, F>,
)
    requires
        pre.stage() <= 2,
        drive_reported::<W, C, F>(pre, post),
    ensures
        (pre.current().outcome() is Some && (pre.stage() <= 1 ==> forall|c: C|
            #[trigger] pre.builder().ensures((), c) ==> c.outcome() is Some)) ==> {
            &&& post.stage() == 3
            &&& pre.stage() == 2 ==> post.text() == pre.text() + pre.current().outcome()->Some_0
            &&& pre.stage() <= 1 ==> exists|c2: C|
                pre.builder().ensures((), c2) && post.text() == pre.text()
                    + pre.current().outcome()->Some_0 + (#[trigger] c2.outcome())->Some_0
        },
        post.stage() < 3 ==> pre.current().outcome() is None || (pre.stage() <= 1 && exists|
            c2: C,
        | pre.builder().ensures((), c2) && (#[trigger] c2.outcome()) is None),
{
    if pre.stage() <= 1 {
        let c2 = choose|c2: C|
            (pre.current().outcome() is Some ==> pre.builder().ensures((), c2)) && (
            post.stage(),
            post.text(),
        ) == drive_outcome(pre.stage(), pre.text(), pre.current().outcome(), #[trigger] c2.outcome());
        if pre.current().outcome() is Some && c2.outcome() is Some {
            assert(pre.builder().ensures((), c2));
        }
    }
}

/// Where a drive of `pre` ends (as `post`), given what its children report:
/// from the second stage, what the child it waits on reports decides; before
/// it, what the first child reports and, when that is ready, what the second
/// child built by the builder reports.
pub open spec fn drive_reported<W, C: Future<W>, F: FnOnce() -> C>(
    pre: &Coroutine<C, F>,
    post: &Coroutine<C, F>,
) -> bool {
    &&& pre.stage() == 2 ==> (post.stage(), post.text()) == drive_outcome(
        2,
        pre.text(),
        None,
        pre.current().outcome(),
    )
    &&& pre.stage() <= 1 ==> exists|c2: C|
        (pre.current().outcome() is Some ==> pre.builder().ensures((), c2)) && (
        post.stage(),
        post.text(),
    ) == drive_outcome(pre.stage(), pre.text(), pre.current().outcome(), #[trigger] c2.outcome())
}

/// A two-stage composite computation: it resolves its first child, then
/// builds its second and resolves it, and resolves to the texts they
/// produced, in that order. The number of responses and the text gathered so
/// far are kept as fields, since they must survive suspension.
pub struct Coroutine<C, F> {
    state: Stage<C, F>,
    counter: usize,
    text: String,
}

/// The children of `co` that are still to be polled may be polled: the
/// child it waits on, and every second child that its builder can make.
pub open spec fn children_pollable<W, C: Future<W>, F: FnOnce() -> C>(co: &Coroutine<C, F>) -> bool {
    &&& co.stage() <= 2 ==> co.current().pollable()
    &&& co.stage() <= 1 ==> {
        &&& co.builder().requires(())
        &&& forall|c: C| #[trigger] co.builder().ensures((), c) ==> c.pollable()
    }
}

/// The children of `co` that are still to be polled state what they report:
/// the child it waits on, and every second child that its builder can make.
pub open spec fn children_report<W, C: Future<W>, F: FnOnce() -> C>(co: &Coroutine<C, F>) -> bool {
    &&& co.stage() <= 2 ==> co.current().reports()
    &&& co.stage() <= 1 ==> forall|c: C| #[trigger] co.builder().ensures((), c) ==> c.reports()
}

impl<C, F: FnOnce() -> C> Coroutine<C, F> {
    /// 0 before the first poll, 1 or 2 while waiting on the first or second
    /// child, 3 once resolved.
    pub closed spec fn stage(&self) -> int {
        match self.state {
            Stage::Start(..) => 0,
            Stage::Wait1(..) => 1,
            Stage::Wait2(..) => 2,
            Stage::Resolved => 3,
        }
    }

    /// The child the composite waits on (before the first poll: the first
    /// child).
    pub closed spec fn current(&self) -> C {
        match self.state {
            Stage::Start(c, _) => c,
            Stage::Wait1(c, _) => c,
            Stage::Wait2(c) => c,
            Stage::Resolved => arbitrary(),
        }
    }

    /// The function that builds the second child, until it has been called.
    pub closed spec fn builder(&self) -> F {
        match self.state {
            Stage::Start(_, f) => f,
            Stage::Wait1(_, f) => f,
            _ => arbitrary(),
        }
    }

    /// The text gathered from the children that have resolved.
    pub closed spec fn text(&self) -> Seq<char> {
        self.text@
    }

    /// How many children have resolved.
    pub closed spec fn responses(&self) -> nat {
        self.counter as nat
    }

    /// The response count matches the stage.
    pub open spec fn wf(&self) -> bool {
        &&& 0 <= self.stage() <= 3
        &&& self.responses() == if self.stage() <= 1 {
            0nat
        } else if self.stage() == 2 {
            1nat
        } else {
            2nat
        }
    }

    /// A composite that first waits on `first`, then on what `second` builds.
    pub fn new(first: C, second: F) -> (r: Coroutine<C, F>)
        ensures
            r.wf(),
            r.stage() == 0,
            r.current() == first,
            r.builder() == second,
            r.text() == Seq::<char>::empty(),
    {
        Coroutine { state: Stage::Start(first, second), counter: 0, text: String::new() }
    }

    pub fn is_resolved(&self) -> (r: bool)
        ensures
            r == (self.stage() == 3),
    {
        match self.state {
            Stage::Resolved => true,
            _ => false,
        }
    }

    /// Leaves the start state for the first suspension point.
    fn begin(&mut self)
        requires
            old(self).stage() == 0,
        ensures
            final(self).wf(),
            final(self).stage() == 1,
            final(self).current() == old(self).current(),
            final(self).builder() == old(self).builder(),
            final(self).text() == old(self).text(),
    {
        let mut st = Stage::Resolved;
        std::mem::swap(&mut self.state, &mut st);
        self.counter = 0;
        match st {
            Stage::Start(first, second) => {
                self.state = Stage::Wait1(first, second);
            },
            _ => {
                self.state = st;
            },
        }
    }

    /// Takes in what the child of the current stage reported. `NotReady`
    /// leaves the state as it is and is passed on. A ready text is appended
    /// to the gathered text. After the first child the second is built and
    /// waited on (and `None` asks for it to be polled in the same call);
    /// after the second the composite resolves to the gathered text.
    pub fn on_child(&mut self, res: PollState<String>) -> (r: Option<PollState<String>>)
        requires
            old(self).wf(),
            old(self).stage() == 1 || old(self).stage() == 2,
            old(self).stage() == 1 ==> old(self).builder().requires(()),
        ensures
            final(self).wf(),
            match res {
                PollState::NotReady => {
                    &&& r == Some(PollState::<String>::NotReady)
                    &&& final(self).stage() == old(self).stage()
                    &&& final(self).current() == old(self).current()
                    &&& final(self).builder() == old(self).builder()
                    &&& final(self).text() == old(self).text()
                },
                PollState::Ready(t) => {
                    &&& final(self).text() == old(self).text() + t@
                    &&& final(self).stage() == old(self).stage() + 1
                    &&& old(self).stage() == 1 ==> r is None && old(self).builder().ensures(
                        (),
                        final(self).current(),
                    )
                    &&& old(self).stage() == 2 ==> (r matches Some(PollState::Ready(s))
                        && s@ == final(self).text())
                },
            },
    {
        match res {
            PollState::NotReady => Some(PollState::NotReady),
            PollState::Ready(t) => {
                self.text.append(t.as_str());
                let mut st = Stage::Resolved;
                std::mem::swap(&mut self.state, &mut st);
                match st {
                    Stage::Wait1(_first, build) => {
                        let second = build();
                        self.counter = 1;
                        self.state = Stage::Wait2(second);
                        None
                    },
                    _ => {
                        self.counter = 2;
                        Some(PollState::Ready(self.text.clone()))
                    },
                }
            },
        }
    }

    /// Drives the state machine as far as it goes in this call: a child that
    /// is ready moves the composite on at once, without returning; only a
    /// child's `NotReady` suspends it.
    pub fn drive<W>(&mut self, waker: &W) -> (r: PollState<String>)
        where
            C: Future<W>,
        requires
            old(self).wf(),
            old(self).stage() < 3,
            children_pollable::<W, C, F>(old(self)),
        ensures
            final(self).wf(),
            final(self).stage() >= old(self).stage(),
            r is NotReady ==> (final(self).stage() == 1 || final(self).stage() == 2)
                && children_pollable::<W, C, F>(final(self)),
            r is Ready <==> final(self).stage() == 3,
            r matches PollState::Ready(s) ==> s@ == final(self).text(),
            final(self).stage() == 1 ==> final(self).builder() == old(self).builder(),
            exists|first: Option<Seq<char>>, second: Option<Seq<char>>|
                drive_outcome(old(self).stage(), old(self).text(), first, second) == (
                    final(self).stage(),
                    final(self).text(),
                ),
            children_report::<W, C, F>(old(self)) ==> drive_reported::<W, C, F>(
                old(self),
                final(self),
            ),
    {
        if self.stage_is_start() {
            self.begin();
        }
        let ghost mut t1: Seq<char> = Seq::empty();
        let ghost mut c2: C = old(self).current();
        let ghost reporting = children_report::<W, C, F>(old(self));
        loop
            invariant
                reporting == children_report::<W, C, F>(old(self)),
                self.stage() == 1 ==> self.current() == old(self).current() && self.builder()
                    == old(self).builder(),
                self.stage() == 2 && old(self).stage() == 2 ==> self.current() == old(
                    self,
                ).current(),
                self.stage() == 2 && old(self).stage() <= 1 ==> self.current() == c2
                    && old(self).builder().ensures((), c2),
                reporting && self.stage() == 2 && old(self).stage() <= 1
                    ==> old(self).current().outcome() == Some(t1),
                self.wf(),
                self.stage() == 1 || self.stage() == 2,
                children_pollable::<W, C, F>(self),
                self.stage() >= old(self).stage(),
                self.stage() == 1 ==> self.text() == old(self).text(),
                self.stage() == 2 && old(self).stage() <= 1 ==> self.text() == old(self).text()
                    + t1,
                self.stage() == 2 && old(self).stage() == 2 ==> self.text() == old(self).text(),
            decreases 3 - self.stage(),
        {
            let ghost before = self.text();
            let ghost polled = self.current();
            let res = match &mut self.state {
                Stage::Wait1(first, _) => first.poll(waker),
                Stage::Wait2(second) => second.poll(waker),
                _ => PollState::NotReady,
            };
            let ghost got: Option<Seq<char>> = if res is Ready {
                Some(res->Ready_0@)
            } else {
                None
            };
            let ghost was = self.stage();
            let ghost build = self.builder();
            let out = self.on_child(res);
            proof {
                if was == 1 && got is Some {
                    t1 = got->Some_0;
                    c2 = self.current();
                    assert(build.ensures((), self.current()));
                }
            }
            match out {
                Some(out) => {
                    proof {
                        if old(self).stage() <= 1 {
                            if was == 1 {
                                assert(drive_outcome(old(self).stage(), old(self).text(), None, None)
                                    == (self.stage(), self.text()));
                            } else if got is None {
                                assert(drive_outcome(
                                    old(self).stage(),
                                    old(self).text(),
                                    Some(t1),
                                    None,
                                ) == (self.stage(), self.text()));
                            } else {
                                assert(old(self).text() + t1 + got->Some_0 =~= before
                                    + got->Some_0);
                                assert(drive_outcome(
                                    old(self).stage(),
                                    old(self).text(),
                                    Some(t1),
                                    got,
                                ) == (self.stage(), self.text()));
                            }
                        } else {
                            assert(drive_outcome(old(self).stage(), old(self).text(), None, got)
                                == (self.stage(), self.text()));
                        }
                    }
                    proof {
                        if reporting {
                            assert(polled.reports());
                            if old(self).stage() <= 1 {
                                if was == 1 {
                                    assert(drive_outcome(
                                        old(self).stage(),
                                        old(self).text(),
                                        old(self).current().outcome(),
                                        old(self).current().outcome(),
                                    ) == (self.stage(), self.text()));
                                } else {
                                    assert(c2.reports());
                                    assert(old(self).text() + t1 + got->Some_0 =~= before
                                        + got->Some_0) by {
                                        if got is Some {
                                        }
                                    }
                                    assert(drive_outcome(
                                        old(self).stage(),
                                        old(self).text(),
                                        old(self).current().outcome(),
                                        c2.outcome(),
                                    ) == (self.stage(), self.text()));
                                }
                            }
                        }
                    }
                    return out;
                },
                None => {},
            }
        }
    }

    fn stage_is_start(&self) -> (r: bool)
        ensures
            r == (self.stage() == 0),
    {
        match self.state {
            Stage::Start(..) => true,
            _ => false,
        }
    }
}

impl<W, C: Future<W>, F: FnOnce() -> C> Future<W> for Coroutine<C, F> {
    /// Not resolved, its bookkeeping consistent, and its remaining children
    /// pollable.
    open spec fn pollable(&self) -> bool {
        &&& self.wf()
        &&& self.stage() < 3
        &&& children_pollable::<W, C, F>(self)
    }

    /// Drives the state machine as far as it goes in this call (see `drive`).
    fn poll(&mut self, waker: &W) -> (r: PollState<String>)
        ensures
            final(self).wf(),
            final(self).stage() >= old(self).stage(),
            r is NotReady ==> final(self).stage() == 1 || final(self).stage() == 2,
            r is Ready <==> final(self).stage() == 3,
            r matches PollState::Ready(s) ==> s@ == final(self).text(),
            final(self).stage() == 1 ==> final(self).builder() == old(self).builder(),
            exists|first: Option<Seq<char>>, second: Option<Seq<char>>|
                drive_outcome(old(self).stage(), old(self).text(), first, second) == (
                    final(self).stage(),
                    final(self).text(),
                ),
            children_report::<W, C, F>(old(self)) ==> drive_reported::<W, C, F>(
                old(self),
                final(self),
            ),
    {
        self.drive(waker)
    }
}

} // verus!
