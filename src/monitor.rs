use std::collections::HashMap;
use vstd::prelude::*;

verus! {

broadcast use vstd::std_specs::hash::group_hash_axioms;

/// Errors that a wait on a [`PidSet`] can end with; each OS failure carries its errno.
#[derive(Debug, Clone, Copy, PartialEq, Eq, Structural)]
pub enum PidSetError {
    /// The multiplexer could not be created.
    EpollCreate(i32),
    /// No exit handle could be opened for the pid: it names no live process.
    PidFdOpenSyscall(u32, i32),
    /// An exit handle could not be attached to, or detached from, the multiplexer.
    EpollCtl(i32),
    /// Waiting on the multiplexer failed.
    EpollWait(i32),
    /// The multiplexer reported a token that names no watched pid.
    PidNotFound(u32),
    /// The multiplexer could not be released.
    EpollClose(i32),
    /// A wait asked for more exits than there are watched pids.
    WaitCountTooLarge(usize),
}

/// What the caller of a wait performs next, and reports back as an [`Event`].
#[derive(Debug, Clone, Copy, PartialEq, Eq)]
pub enum Action {
    /// Create the multiplexer; report [`Event::Created`].
    CreateMultiplexer,
    /// Open an exit handle for `pid`; report [`Event::Opened`].
    OpenHandle { pid: u32 },
    /// Attach `fd` to the multiplexer for readability, tagged with `token`; report [`Event::Attached`].
    Attach { epoll_fd: i32, fd: i32, token: u32 },
    /// Detach `fd` from the multiplexer; report [`Event::Detached`].
    Detach { epoll_fd: i32, fd: i32 },
    /// Block on the multiplexer, without timeout, for at most `max_events` events;
    /// report the tokens of the ready handles as [`Event::Polled`].
    Poll { epoll_fd: i32, max_events: usize },
    /// Close an exit handle opened by a setup that failed; report [`Event::Closed`].
    CloseHandle { fd: i32 },
    /// Release a multiplexer whose setup failed; report [`Event::Released`].
    Release { epoll_fd: i32 },
    /// The wait is over, with the number of exits it observed, or an error.
    Finished(Result<usize, PidSetError>),
}

/// The outcome of an [`Action`]; an OS failure is given by its errno.
#[derive(Debug)]
pub enum Event {
    /// The multiplexer that was created.
    Created(Result<i32, i32>),
    /// The exit handle that was opened.
    Opened(Result<i32, i32>),
    Attached(Result<(), i32>),
    Detached(Result<(), i32>),
    /// The tokens of the handles that became ready.
    Polled(Result<Vec<u32>, i32>),
    Closed,
    Released,
}

/// The values of `s`, each at its first occurrence, in the order of `s`.
pub open spec fn first_occurrences(s: Seq<u32>) -> Seq<u32>
    decreases s.len(),
{
    if s.len() == 0 {
        Seq::empty()
    } else {
        let rest = first_occurrences(s.drop_last());
        if s.drop_last().contains(s.last()) {
            rest
        } else {
            rest.push(s.last())
        }
    }
}

impl Event {
    /// Whether the event reports a failed OS call.
    pub open spec fn reports_failure(&self) -> bool {
        match self {
            Event::Created(r) => r is Err,
            Event::Opened(r) => r is Err,
            Event::Attached(r) => r is Err,
            Event::Detached(r) => r is Err,
            Event::Polled(r) => r is Err,
            _ => false,
        }
    }
}

/// What one step of a wait in progress keeps of its count: the watched set
/// only shrinks, the wait keeps its target and its starting count until it
/// finishes, and a success has observed at least the target, each exit being
/// one pid that left the watched set.
pub open spec fn counted_step(before: PidSet, after: PidSet, r: Action) -> bool {
    &&& after.watched().finite()
    &&& after.watched().subset_of(before.watched())
    &&& (r is Finished <==> !after.waiting())
    &&& after.waiting() ==> {
        &&& after.target() == before.target()
        &&& after.started_with() == before.started_with()
    }
    &&& r matches Action::Finished(Ok(k)) ==> {
        &&& k >= before.target()
        &&& k + after.watched().len() == before.started_with()
    }
}

/// Where a wait in progress stands.
#[derive(Clone, Copy)]
enum Phase {
    Idle,
    Creating,
    Opening { epoll_fd: i32, next: usize },
    Attaching { epoll_fd: i32, next: usize, fd: i32 },
    /// A failed setup closes the handles of the first `left` pids, then
    /// releases the multiplexer.
    Unwinding { epoll_fd: i32, error: PidSetError, left: usize },
    Polling { epoll_fd: i32 },
    Draining { epoll_fd: i32, next: usize, fd: i32 },
}

/// Manages a set of pids and the exit handles attached to one multiplexer.
pub struct PidSet {
    /// Every pid that was supplied, once each, in the order given.
    pids: Vec<u32>,
    /// The pids still watched, each with its exit handle once registered.
    fd_pids: HashMap<u32, i32>,
    /// The multiplexer, once every pid is registered with it.
    epoll_fd: Option<i32>,
    phase: Phase,
    /// How many exits the wait in progress asks for.
    target: usize,
    /// How many exits the wait in progress has observed.
    observed: usize,
    /// How many pids were watched when the wait in progress began.
    start: usize,
    /// The tokens of the last poll.
    batch: Vec<u32>,
}

impl PidSet {
    /// The pids whose exit has not been observed yet.
    pub closed spec fn watched(&self) -> Set<u32> {
        self.fd_pids@.dom()
    }

    /// The exit handle of a watched pid, once registered.
    pub closed spec fn handle(&self, pid: u32) -> i32 {
        self.fd_pids@[pid]
    }

    /// The order in which the pids are registered.
    pub closed spec fn order(&self) -> Seq<u32> {
        self.pids@
    }

    /// The multiplexer, once every watched pid is registered with it.
    pub closed spec fn multiplexer(&self) -> Option<i32> {
        self.epoll_fd
    }

    /// Whether a wait is in progress.
    pub closed spec fn waiting(&self) -> bool {
        !(self.phase is Idle)
    }

    /// How many exits the wait in progress asks for.
    pub closed spec fn target(&self) -> nat {
        self.target as nat
    }

    /// How many exits the wait in progress has observed.
    pub closed spec fn observed(&self) -> nat {
        self.observed as nat
    }

    /// How many pids were watched when the wait in progress began.
    pub closed spec fn started_with(&self) -> nat {
        self.start as nat
    }

    /// A multiplexer that exists, registered or still being set up.
    pub closed spec fn held(&self) -> Option<i32> {
        match self.phase {
            Phase::Opening { epoll_fd, .. } => Some(epoll_fd),
            Phase::Attaching { epoll_fd, .. } => Some(epoll_fd),
            Phase::Unwinding { epoll_fd, .. } => Some(epoll_fd),
            _ => self.epoll_fd,
        }
    }

    /// The action that the wait in progress is waiting to hear the outcome of.
    pub closed spec fn pending(&self) -> Action {
        match self.phase {
            Phase::Idle => Action::Finished(Ok(self.observed)),
            Phase::Creating => Action::CreateMultiplexer,
            Phase::Opening { next, .. } => Action::OpenHandle { pid: self.pids@[next as int] },
            Phase::Attaching { epoll_fd, next, fd } => Action::Attach {
                epoll_fd,
                fd,
                token: self.pids@[next as int],
            },
            Phase::Unwinding { epoll_fd, left, .. } => if left > 0 {
                Action::CloseHandle { fd: self.fd_pids@[self.pids@[left - 1]] }
            } else {
                Action::Release { epoll_fd }
            },
            Phase::Polling { epoll_fd } => Action::Poll { epoll_fd, max_events: self.start },
            Phase::Draining { epoll_fd, fd, .. } => Action::Detach { epoll_fd, fd },
        }
    }

    /// Whether `event` reports the outcome of the pending action.
    pub open spec fn answers(&self, event: &Event) -> bool {
        match self.pending() {
            Action::CreateMultiplexer => event is Created,
            Action::OpenHandle { .. } => event is Opened,
            Action::Attach { .. } => event is Attached,
            Action::Detach { .. } => event is Detached,
            Action::Poll { .. } => event is Polled,
            Action::CloseHandle { .. } => event is Closed,
            Action::Release { .. } => event is Released,
            Action::Finished(_) => false,
        }
    }

    /// The invariant that every operation on the set keeps.
    pub closed spec fn wf(&self) -> bool {
        &&& self.pids@.no_duplicates()
        &&& !(self.phase is Idle) ==> self.target <= self.start
        &&& self.epoll_fd is None ==> forall|p: u32|
            self.pids@.contains(p) <==> self.fd_pids@.contains_key(p)
        &&& match self.phase {
            Phase::Idle => true,
            Phase::Creating => self.setting_up(),
            Phase::Opening { next, .. } => self.setting_up() && next < self.pids.len(),
            Phase::Attaching { next, .. } => self.setting_up() && next < self.pids.len(),
            Phase::Unwinding { left, .. } => self.setting_up() && left <= self.pids.len(),
            Phase::Polling { epoll_fd } => {
                &&& self.draining_in(epoll_fd)
                &&& self.observed < self.target
            },
            Phase::Draining { epoll_fd, next, .. } => {
                &&& self.draining_in(epoll_fd)
                &&& next < self.batch.len()
            },
        }
    }

    spec fn setting_up(&self) -> bool {
        &&& self.epoll_fd is None
        &&& self.observed == 0
        &&& self.fd_pids@.len() == self.start
    }

    spec fn draining_in(&self, epoll_fd: i32) -> bool {
        &&& self.epoll_fd == Some(epoll_fd)
        &&& self.observed + self.fd_pids@.len() == self.start
    }

    /// Creates a set that watches each of `pids`; a pid given twice is watched once.
    /// Nothing is registered with the OS until the first wait.
    pub fn new(pids: Vec<u32>) -> (r: PidSet)
        ensures
            r.wf(),
            r.watched().finite(),
            r.watched() == pids@.to_set(),
            r.order() == first_occurrences(pids@),
            r.multiplexer() is None,
            !r.waiting(),
    {
        let mut order: Vec<u32> = Vec::new();
        let mut fd_pids: HashMap<u32, i32> = HashMap::new();
        let mut i: usize = 0;
        while i < pids.len()
            invariant
                i <= pids.len(),
                order@.no_duplicates(),
                forall|p: u32| order@.contains(p) <==> fd_pids@.contains_key(p),
                forall|p: u32| fd_pids@.contains_key(p) <==> pids@.subrange(0, i as int).contains(p),
                order@ == first_occurrences(pids@.subrange(0, i as int)),
            decreases pids.len() - i,
        {
            let pid = pids[i];
            let ghost seen = fd_pids@;
            if !fd_pids.contains_key(&pid) {
                let ghost before = order@;
                assert(!before.contains(pid));
                fd_pids.insert(pid, 0);
                order.push(pid);
                assert(order@ == before.push(pid));
                assert forall|p: u32| order@.contains(p) <==> (before.contains(p) || p == pid) by {
                    if before.contains(p) {
                        let j = choose|j: int| 0 <= j < before.len() && before[j] == p;
                        assert(order@[j] == p);
                    }
                    if p == pid {
                        assert(order@[before.len() as int] == p);
                    }
                }
                assert(fd_pids@ == seen.insert(pid, 0));
                assert forall|p: u32| order@.contains(p) <==> fd_pids@.contains_key(p) by {
                    assert(before.contains(p) <==> seen.contains_key(p));
                }
            }
            let ghost prefix = pids@.subrange(0, i as int);
            assert(pids@.subrange(0, i + 1) == prefix.push(pid));
            assert(prefix.push(pid).drop_last() == prefix);
            assert forall|p: u32| fd_pids@.contains_key(p) <==> (seen.contains_key(p) || p == pid) by {}
            assert forall|p: u32| prefix.push(pid).contains(p) <==> (prefix.contains(p) || p == pid) by {
                if prefix.contains(p) {
                    let j = choose|j: int| 0 <= j < prefix.len() && prefix[j] == p;
                    assert(prefix.push(pid)[j] == p);
                }
                if p == pid {
                    assert(prefix.push(pid)[prefix.len() as int] == p);
                }
            }
            i += 1;
        }
        assert(pids@.subrange(0, pids.len() as int) == pids@);
        assert(fd_pids@.dom() =~= pids@.to_set());
        PidSet {
            pids: order,
            fd_pids,
            epoll_fd: None,
            phase: Phase::Idle,
            target: 0,
            observed: 0,
            start: 0,
            batch: Vec::new(),
        }
    }

    /// Whether the wait in progress asks for the exit of every pid watched when it began.
    pub open spec fn waits_for_all(&self) -> bool {
        self.waiting() && self.target() == self.started_with()
    }

    /// The tokens of the last poll that are still to be handled after the pending detach.
    pub closed spec fn queued(&self) -> Seq<u32> {
        match self.phase {
            Phase::Draining { next, .. } => self.batch@.subrange(next + 1, self.batch@.len() as int),
            _ => Seq::empty(),
        }
    }

    /// The position in [`Self::order`] of the pid being registered.
    pub closed spec fn registering(&self) -> int {
        match self.phase {
            Phase::Opening { next, .. } => next as int,
            Phase::Attaching { next, .. } => next as int,
            _ => 0,
        }
    }

    /// How many of the first pids of [`Self::order`] a failed setup still has to close the handle of.
    pub closed spec fn unwinding(&self) -> int {
        match self.phase {
            Phase::Unwinding { left, .. } => left as int,
            _ => 0,
        }
    }

    /// The token of the pending attach, if one is pending.
    pub open spec fn attach_token(&self) -> Option<u32> {
        match self.pending() {
            Action::Attach { token, .. } => Some(token),
            _ => None,
        }
    }

    /// The next step of a failed setup: close the handle of the last pid still
    /// to unwind, or, with none left, release the multiplexer.
    pub open spec fn unwind_next(&self) -> Action {
        if self.unwinding() > 0 {
            Action::CloseHandle { fd: self.handle(self.order()[self.unwinding() - 1]) }
        } else {
            Action::Release { epoll_fd: self.held()->Some_0 }
        }
    }

    /// What the public contracts say of the pending action of a set.
    pub open spec fn pending_fits(&self) -> bool {
        &&& self.watched().finite()
        &&& self.order().no_duplicates()
        &&& self.multiplexer() is None ==> self.order().to_set() == self.watched()
        &&& self.waiting() ==> self.target() <= self.started_with()
        &&& self.pending() matches Action::OpenHandle { pid } ==> {
            &&& 0 <= self.registering() < self.order().len()
            &&& pid == self.order()[self.registering()]
            &&& self.multiplexer() is None
        }
        &&& self.pending() matches Action::Attach { token, .. } ==> {
            &&& 0 <= self.registering() < self.order().len()
            &&& token == self.order()[self.registering()]
            &&& self.multiplexer() is None
        }
        &&& self.pending() matches Action::CloseHandle { fd } ==> {
            &&& 0 < self.unwinding() <= self.order().len()
            &&& fd == self.handle(self.order()[self.unwinding() - 1])
            &&& self.multiplexer() is None
        }
        &&& self.pending() is Release ==> self.unwinding() == 0 && self.multiplexer() is None
        &&& self.pending() is CreateMultiplexer ==> self.multiplexer() is None
    }

    /// The error that a wait whose setup failed ends with, once its multiplexer is released.
    pub closed spec fn failure(&self) -> PidSetError {
        match self.phase {
            Phase::Unwinding { error, .. } => error,
            _ => PidSetError::PidNotFound(0),
        }
    }

    /// Whether a wait is in progress.
    pub fn is_waiting(&self) -> (r: bool)
        ensures
            r == self.waiting(),
    {
        !matches!(self.phase, Phase::Idle)
    }

    /// Polls for the wait in progress, or ends it if it has observed enough exits.
    fn poll_or_finish(&mut self, epoll_fd: i32) -> (r: Action)
        requires
            old(self).pids@.no_duplicates(),
            old(self).target <= old(self).start,
            old(self).draining_in(epoll_fd),
        ensures
            final(self).wf(),
            final(self).pids == old(self).pids,
            final(self).fd_pids == old(self).fd_pids,
            final(self).epoll_fd == old(self).epoll_fd,
            final(self).target == old(self).target,
            final(self).observed == old(self).observed,
            final(self).start == old(self).start,
            final(self).batch == old(self).batch,
            r is Finished <==> !final(self).waiting(),
            !(r is Finished) ==> r == final(self).pending(),
            final(self).queued() == Seq::<u32>::empty(),
            if old(self).observed < old(self).target {
                r == (Action::Poll { epoll_fd, max_events: old(self).start })
            } else {
                r == Action::Finished(Ok(old(self).observed))
            },
    {
        if self.observed < self.target {
            self.phase = Phase::Polling { epoll_fd };
            Action::Poll { epoll_fd, max_events: self.start }
        } else {
            self.phase = Phase::Idle;
            Action::Finished(Ok(self.observed))
        }
    }

    /// Registers the pids from position `i` on, or, past the last one, makes the
    /// multiplexer the set's own and starts polling.
    fn register_from(&mut self, epoll_fd: i32, i: usize) -> (r: Action)
        requires
            old(self).pids@.no_duplicates(),
            old(self).target <= old(self).start,
            old(self).epoll_fd is None,
            old(self).observed == 0,
            old(self).fd_pids@.len() == old(self).start,
            forall|p: u32| old(self).pids@.contains(p) <==> old(self).fd_pids@.contains_key(p),
            i <= old(self).pids.len(),
        ensures
            final(self).wf(),
            final(self).pids == old(self).pids,
            final(self).fd_pids == old(self).fd_pids,
            final(self).target == old(self).target,
            final(self).observed == old(self).observed,
            final(self).start == old(self).start,
            r is Finished <==> !final(self).waiting(),
            !(r is Finished) ==> r == final(self).pending(),
            final(self).queued() == Seq::<u32>::empty(),
            if i < old(self).pids.len() {
                &&& r == (Action::OpenHandle { pid: old(self).pids@[i as int] })
                &&& final(self).epoll_fd is None
                &&& final(self).held() == Some(epoll_fd)
            } else {
                &&& final(self).epoll_fd == Some(epoll_fd)
                &&& if old(self).observed < old(self).target {
                    r == (Action::Poll { epoll_fd, max_events: old(self).start })
                } else {
                    r == Action::Finished(Ok(old(self).observed))
                }
            },
    {
        if i < self.pids.len() {
            self.phase = Phase::Opening { epoll_fd, next: i };
            Action::OpenHandle { pid: self.pids[i] }
        } else {
            self.epoll_fd = Some(epoll_fd);
            self.poll_or_finish(epoll_fd)
        }
    }

    /// Handles the tokens of the last poll from position `i` on: the first names a
    /// watched pid, which is forgotten and its handle detached, or none, which ends
    /// the wait; with no token left, polls again or finishes.
    fn drain_from(&mut self, epoll_fd: i32, i: usize) -> (r: Action)
        requires
            old(self).pids@.no_duplicates(),
            old(self).target <= old(self).start,
            old(self).draining_in(epoll_fd),
            i <= old(self).batch.len(),
        ensures
            final(self).wf(),
            final(self).pids == old(self).pids,
            final(self).epoll_fd == old(self).epoll_fd,
            final(self).target == old(self).target,
            final(self).start == old(self).start,
            r is Finished <==> !final(self).waiting(),
            !(r is Finished) ==> r == final(self).pending(),
            i < old(self).batch.len() && old(self).fd_pids@.contains_key(old(self).batch@[i as int]) ==> {
                let p = old(self).batch@[i as int];
                &&& r == (Action::Detach { epoll_fd, fd: old(self).fd_pids@[p] })
                &&& final(self).fd_pids@ == old(self).fd_pids@.remove(p)
                &&& final(self).observed == old(self).observed + 1
                &&& final(self).queued() == old(self).batch@.subrange(i + 1, old(self).batch@.len() as int)
            },
            i < old(self).batch.len() && !old(self).fd_pids@.contains_key(old(self).batch@[i as int]) ==> {
                &&& r == Action::Finished(Err(PidSetError::PidNotFound(old(self).batch@[i as int])))
                &&& final(self).fd_pids@ == old(self).fd_pids@
            },
            i == old(self).batch.len() ==> {
                &&& final(self).fd_pids@ == old(self).fd_pids@
                &&& final(self).observed == old(self).observed
                &&& if old(self).observed < old(self).target {
                    r == (Action::Poll { epoll_fd, max_events: old(self).start })
                } else {
                    r == Action::Finished(Ok(old(self).observed))
                }
            },
    {
        if i < self.batch.len() {
            let token = self.batch[i];
            match self.fd_pids.remove(&token) {
                Some(fd) => {
                    assert(old(self).fd_pids@.dom().finite());
                    self.observed = self.observed + 1;
                    self.phase = Phase::Draining { epoll_fd, next: i, fd };
                    Action::Detach { epoll_fd, fd }
                },
                None => {
                    self.phase = Phase::Idle;
                    Action::Finished(Err(PidSetError::PidNotFound(token)))
                },
            }
        } else {
            self.poll_or_finish(epoll_fd)
        }
    }

    /// Starts a wait for `n` exits. A wait for more exits than there are watched
    /// pids fails at once. Before the first wait the multiplexer is created and
    /// every watched pid registered with it; with the multiplexer in place the
    /// wait polls at once, unless `n` is zero.
    pub fn wait_n(&mut self, n: usize) -> (r: Action)
        requires
            old(self).wf(),
            !old(self).waiting(),
        ensures
            final(self).wf(),
            final(self).pending_fits(),
            final(self).watched() == old(self).watched(),
            final(self).order() == old(self).order(),
            final(self).multiplexer() == old(self).multiplexer(),
            forall|q: u32| #[trigger] final(self).handle(q) == old(self).handle(q),
            r is Finished <==> !final(self).waiting(),
            !(r is Finished) ==> r == final(self).pending(),
            final(self).waiting() ==> {
                &&& final(self).target() == n
                &&& final(self).observed() == 0
                &&& final(self).started_with() == old(self).watched().len()
            },
            n > old(self).watched().len() ==> r == Action::Finished(
                Err(PidSetError::WaitCountTooLarge(n)),
            ),
            n <= old(self).watched().len() && old(self).multiplexer() is None ==> r
                == Action::CreateMultiplexer,
            old(self).multiplexer() matches Some(e) ==> (n <= old(self).watched().len() ==> if n == 0 {
                r == Action::Finished(Ok(0))
            } else {
                r == (Action::Poll { epoll_fd: e, max_events: old(self).watched().len() as usize })
            }),
    {
        proof {
            lemma_wf_fits(*self);
        }
        if n > self.fd_pids.len() {
            return Action::Finished(Err(PidSetError::WaitCountTooLarge(n)));
        }
        self.target = n;
        self.observed = 0;
        self.start = self.fd_pids.len();
        let r = match self.epoll_fd {
            None => {
                self.phase = Phase::Creating;
                Action::CreateMultiplexer
            },
            Some(epoll_fd) => self.poll_or_finish(epoll_fd),
        };
        proof {
            lemma_wf_fits(*self);
        }
        r
    }

    /// Starts a wait for any one watched process to exit.
    pub fn wait_any(&mut self) -> (r: Action)
        requires
            old(self).wf(),
            !old(self).waiting(),
        ensures
            final(self).wf(),
            final(self).pending_fits(),
            final(self).watched() == old(self).watched(),
            final(self).order() == old(self).order(),
            final(self).multiplexer() == old(self).multiplexer(),
            forall|q: u32| #[trigger] final(self).handle(q) == old(self).handle(q),
            r is Finished <==> !final(self).waiting(),
            !(r is Finished) ==> r == final(self).pending(),
            final(self).waiting() ==> {
                &&& final(self).target() == 1
                &&& final(self).observed() == 0
                &&& final(self).started_with() == old(self).watched().len()
            },
            old(self).watched().is_empty() ==> r == Action::Finished(
                Err(PidSetError::WaitCountTooLarge(1)),
            ),
            !old(self).watched().is_empty() && old(self).multiplexer() is None ==> r
                == Action::CreateMultiplexer,
            old(self).multiplexer() matches Some(e) ==> (!old(self).watched().is_empty() ==> r == (
            Action::Poll { epoll_fd: e, max_events: old(self).watched().len() as usize })),
    {
        self.wait_n(1)
    }

    /// Starts a wait for every watched process to exit.
    pub fn wait_all(&mut self) -> (r: Action)
        requires
            old(self).wf(),
            !old(self).waiting(),
        ensures
            final(self).wf(),
            final(self).pending_fits(),
            final(self).watched() == old(self).watched(),
            final(self).order() == old(self).order(),
            final(self).multiplexer() == old(self).multiplexer(),
            forall|q: u32| #[trigger] final(self).handle(q) == old(self).handle(q),
            r is Finished <==> !final(self).waiting(),
            !(r is Finished) ==> r == final(self).pending(),
            final(self).waiting() ==> {
                &&& final(self).waits_for_all()
                &&& final(self).observed() == 0
                &&& final(self).started_with() == old(self).watched().len()
            },
            old(self).multiplexer() is None ==> r == Action::CreateMultiplexer,
            old(self).multiplexer() matches Some(e) ==> if old(self).watched().is_empty() {
                r == Action::Finished(Ok(0))
            } else {
                r == (Action::Poll { epoll_fd: e, max_events: old(self).watched().len() as usize })
            },
    {
        let n = self.fd_pids.len();
        self.wait_n(n)
    }

    /// Ends the use of the set. Returns the multiplexer that the caller is to
    /// release, if one was ever created; a set that was never waited on has none.
    pub fn close(self) -> (r: Option<i32>)
        ensures
            r == self.held(),
            !self.waiting() ==> r == self.multiplexer(),
    {
        match self.phase {
            Phase::Opening { epoll_fd, .. } => Some(epoll_fd),
            Phase::Attaching { epoll_fd, .. } => Some(epoll_fd),
            Phase::Unwinding { epoll_fd, .. } => Some(epoll_fd),
            _ => self.epoll_fd,
        }
    }

    /// The next step of a failed setup that has the handles of the first `left`
    /// pids still to close.
    fn unwind_action(&self, epoll_fd: i32, left: usize) -> (r: Action)
        requires
            self.epoll_fd is None,
            forall|p: u32| self.pids@.contains(p) <==> self.fd_pids@.contains_key(p),
            left <= self.pids.len(),
        ensures
            r == (if left > 0 {
                Action::CloseHandle { fd: self.fd_pids@[self.pids@[left - 1]] }
            } else {
                Action::Release { epoll_fd }
            }),
    {
        if left > 0 {
            let pid = self.pids[left - 1];
            assert(self.pids@.contains(pid));
            match self.fd_pids.get(&pid) {
                Some(fd) => Action::CloseHandle { fd: *fd },
                None => Action::Release { epoll_fd },
            }
        } else {
            Action::Release { epoll_fd }
        }
    }

    /// Takes the outcome of the pending action and returns the next one. An event
    /// that does not answer the pending action is ignored and the action repeated.
    pub fn resume(&mut self, event: Event) -> (r: Action)
        requires
            old(self).wf(),
        ensures
            final(self).wf(),
            final(self).pending_fits(),
            final(self).order() == old(self).order(),
            r is Finished <==> !final(self).waiting(),
            !(r is Finished) ==> r == final(self).pending(),
            // The handle kept for a pid changes only when it is attached.
            forall|q: u32|
                final(self).watched().contains(q) && old(self).attach_token() != Some(q)
                    ==> #[trigger] final(self).handle(q) == old(self).handle(q),
            // A wait ends in an error only on a failed OS call or a token of no watched pid.
            r matches Action::Finished(Err(e)) ==> {
                ||| event.reports_failure()
                ||| old(self).pending() is Release
                ||| (e matches PidSetError::PidNotFound(t) && !old(self).watched().contains(t))
            },
            // A wait that fails before its multiplexer is in place leaves none in place.
            r matches Action::Finished(Err(_)) ==> (old(self).multiplexer() is None
                ==> final(self).multiplexer() is None),
            !old(self).answers(&event) ==> r == old(self).pending() && *final(self) == *old(self),
            old(self).waiting() ==> counted_step(*old(self), *final(self), r),
            // No pid is ever watched again once its exit has been observed.
            final(self).watched().subset_of(old(self).watched()),
            old(self).multiplexer() is Some ==> final(self).multiplexer() == old(self).multiplexer(),
            final(self).waiting() ==> {
                &&& final(self).target() == old(self).target()
                &&& final(self).started_with() == old(self).started_with()
            },
            final(self).waiting() && final(self).multiplexer() is Some ==> final(self).observed()
                + final(self).watched().len() == final(self).started_with(),
            // Each exit counted is that of a pid watched before the step and not after it.
            r matches Action::Detach { fd, .. } ==> (old(self).answers(&event) ==> exists|p: u32|
                {
                    &&& old(self).watched().contains(p)
                    &&& final(self).watched() == old(self).watched().remove(p)
                    &&& fd == old(self).handle(p)
                    &&& final(self).observed() == old(self).observed() + 1
                }),
            !(r is Detach) ==> final(self).watched() == old(self).watched(),
            r is Poll ==> final(self).observed() < final(self).target(),
            r matches Action::Finished(Ok(k)) ==> (old(self).answers(&event) ==> {
                &&& k >= old(self).target()
                &&& k + final(self).watched().len() == old(self).started_with()
            }),
            // A wait for all that succeeds has observed every pid it began with.
            r matches Action::Finished(Ok(k)) ==> (old(self).waits_for_all() ==> {
                &&& k == old(self).started_with()
                &&& final(self).watched().is_empty()
            }),
            // Setting up the multiplexer.
            old(self).pending() is CreateMultiplexer ==> match event {
                Event::Created(Err(c)) => {
                    &&& r == Action::Finished(Err(PidSetError::EpollCreate(c)))
                    &&& final(self).multiplexer() is None
                },
                Event::Created(Ok(e)) => if old(self).order().len() > 0 {
                    &&& r == (Action::OpenHandle { pid: old(self).order()[0] })
                    &&& final(self).registering() == 0
                    &&& final(self).held() == Some(e)
                } else {
                    &&& final(self).multiplexer() == Some(e)
                    &&& r == Action::Finished(Ok(0))
                },
                _ => true,
            },
            old(self).pending() matches Action::OpenHandle { pid } ==> match event {
                Event::Opened(Err(c)) => {
                    &&& final(self).failure() == PidSetError::PidFdOpenSyscall(pid, c)
                    &&& final(self).unwinding() == old(self).registering()
                    &&& final(self).held() == old(self).held()
                    &&& r == final(self).unwind_next()
                },
                Event::Opened(Ok(fd)) => {
                    &&& r == (Action::Attach { epoll_fd: old(self).held()->Some_0, fd, token: pid })
                    &&& final(self).registering() == old(self).registering()
                    &&& final(self).held() == old(self).held()
                },
                _ => true,
            },
            old(self).pending() matches Action::Attach { epoll_fd, fd, token } ==> match event {
                Event::Attached(Err(c)) => {
                    &&& r == (Action::CloseHandle { fd })
                    &&& final(self).handle(token) == fd
                    &&& final(self).unwinding() == old(self).registering() + 1
                    &&& final(self).failure() == PidSetError::EpollCtl(c)
                    &&& final(self).held() == Some(epoll_fd)
                },
                Event::Attached(Ok(())) => {
                    let i = old(self).registering() + 1;
                    &&& token == old(self).order()[i - 1]
                    &&& final(self).handle(token) == fd
                    &&& final(self).held() == Some(epoll_fd)
                    &&& if i < old(self).order().len() {
                        &&& final(self).multiplexer() is None
                        &&& final(self).registering() == i
                        &&& r == (Action::OpenHandle { pid: old(self).order()[i] })
                    } else {
                        &&& final(self).multiplexer() == Some(epoll_fd)
                        &&& if 0 < old(self).target() {
                            r == (Action::Poll {
                                epoll_fd,
                                max_events: old(self).started_with() as usize,
                            })
                        } else {
                            r == Action::Finished(Ok(0))
                        }
                    }
                },
                _ => true,
            },
            old(self).pending() is CloseHandle && event is Closed ==> {
                &&& final(self).unwinding() == old(self).unwinding() - 1
                &&& final(self).failure() == old(self).failure()
                &&& final(self).held() == old(self).held()
                &&& r == final(self).unwind_next()
            },
            old(self).pending() is Release && event is Released ==> {
                &&& r == Action::Finished(Err(old(self).failure()))
                &&& final(self).multiplexer() is None
            },
            // Waiting for exits.
            old(self).pending() matches Action::Poll { epoll_fd, .. } ==> match event {
                Event::Polled(Err(c)) => r == Action::Finished(Err(PidSetError::EpollWait(c))),
                Event::Polled(Ok(tokens)) => if tokens@.len() == 0 {
                    r == old(self).pending()
                } else if old(self).watched().contains(tokens@[0]) {
                    &&& r == (Action::Detach { epoll_fd, fd: old(self).handle(tokens@[0]) })
                    &&& final(self).watched() == old(self).watched().remove(tokens@[0])
                    &&& final(self).queued() == tokens@.drop_first()
                } else {
                    r == Action::Finished(Err(PidSetError::PidNotFound(tokens@[0])))
                },
                _ => true,
            },
            old(self).pending() matches Action::Detach { epoll_fd, .. } ==> match event {
                Event::Detached(Err(c)) => r == Action::Finished(Err(PidSetError::EpollCtl(c))),
                Event::Detached(Ok(())) => {
                    let q = old(self).queued();
                    if q.len() == 0 {
                        if old(self).observed() < old(self).target() {
                            r == (Action::Poll { epoll_fd, max_events: old(self).started_with() as usize })
                        } else {
                            r == Action::Finished(Ok(old(self).observed() as usize))
                        }
                    } else if old(self).watched().contains(q[0]) {
                        &&& r == (Action::Detach { epoll_fd, fd: old(self).handle(q[0]) })
                        &&& final(self).watched() == old(self).watched().remove(q[0])
                        &&& final(self).queued() == q.drop_first()
                    } else {
                        r == Action::Finished(Err(PidSetError::PidNotFound(q[0])))
                    }
                },
                _ => true,
            },
    {
        let r = match self.phase {
            Phase::Idle => Action::Finished(Ok(self.observed)),
            Phase::Creating => match event {
                Event::Created(Ok(epoll_fd)) => {
                    proof {
                        if self.pids.len() == 0 {
                            assert forall|p: u32| !self.fd_pids@.contains_key(p) by {
                                assert(!self.pids@.contains(p));
                            }
                            assert(self.fd_pids@.dom() =~= Set::<u32>::empty());
                        }
                    }
                    self.register_from(epoll_fd, 0)
                },
                Event::Created(Err(c)) => {
                    self.phase = Phase::Idle;
                    Action::Finished(Err(PidSetError::EpollCreate(c)))
                },
                _ => Action::CreateMultiplexer,
            },
            Phase::Opening { epoll_fd, next } => match event {
                Event::Opened(Ok(fd)) => {
                    self.phase = Phase::Attaching { epoll_fd, next, fd };
                    Action::Attach { epoll_fd, fd, token: self.pids[next] }
                },
                Event::Opened(Err(c)) => {
                    let error = PidSetError::PidFdOpenSyscall(self.pids[next], c);
                    self.phase = Phase::Unwinding { epoll_fd, error, left: next };
                    self.unwind_action(epoll_fd, next)
                },
                _ => Action::OpenHandle { pid: self.pids[next] },
            },
            Phase::Attaching { epoll_fd, next, fd } => match event {
                Event::Attached(Ok(())) => {
                    let pid = self.pids[next];
                    let ghost before = self.fd_pids@;
                    assert(self.pids@.contains(pid));
                    self.fd_pids.insert(pid, fd);
                    assert(self.fd_pids@.dom() =~= before.dom());
                    self.register_from(epoll_fd, next + 1)
                },
                Event::Attached(Err(c)) => {
                    let pid = self.pids[next];
                    let ghost before = self.fd_pids@;
                    assert(self.pids@.contains(pid));
                    self.fd_pids.insert(pid, fd);
                    assert(self.fd_pids@.dom() =~= before.dom());
                    let error = PidSetError::EpollCtl(c);
                    self.phase = Phase::Unwinding { epoll_fd, error, left: next + 1 };
                    Action::CloseHandle { fd }
                },
                _ => Action::Attach { epoll_fd, fd, token: self.pids[next] },
            },
            Phase::Unwinding { epoll_fd, error, left } => match event {
                Event::Closed => {
                    if left > 0 {
                        self.phase = Phase::Unwinding { epoll_fd, error, left: left - 1 };
                        self.unwind_action(epoll_fd, left - 1)
                    } else {
                        Action::Release { epoll_fd }
                    }
                },
                Event::Released => {
                    if left == 0 {
                        self.phase = Phase::Idle;
                        Action::Finished(Err(error))
                    } else {
                        self.unwind_action(epoll_fd, left)
                    }
                },
                _ => self.unwind_action(epoll_fd, left),
            },
            Phase::Polling { epoll_fd } => match event {
                Event::Polled(Ok(tokens)) => {
                    if tokens.len() == 0 {
                        Action::Poll { epoll_fd, max_events: self.start }
                    } else {
                        self.batch = tokens;
                        let ghost here = *self;
                        let r = self.drain_from(epoll_fd, 0);
                        proof {
                            let p = here.batch@[0];
                            if here.fd_pids@.contains_key(p) {
                                lemma_removed_from_watched(*old(self), *self, p);
                            }
                        }
                        r
                    }
                },
                Event::Polled(Err(c)) => {
                    self.phase = Phase::Idle;
                    Action::Finished(Err(PidSetError::EpollWait(c)))
                },
                _ => Action::Poll { epoll_fd, max_events: self.start },
            },
            Phase::Draining { epoll_fd, next, fd } => match event {
                Event::Detached(Ok(())) => {
                    let r = self.drain_from(epoll_fd, next + 1);
                    proof {
                        if next + 1 < old(self).batch.len() {
                            let p = old(self).batch@[next + 1];
                            if old(self).fd_pids@.contains_key(p) {
                                lemma_removed_from_watched(*old(self), *self, p);
                            }
                        }
                    }
                    r
                },
                Event::Detached(Err(c)) => {
                    self.phase = Phase::Idle;
                    Action::Finished(Err(PidSetError::EpollCtl(c)))
                },
                _ => Action::Detach { epoll_fd, fd },
            },
        };
        proof {
            lemma_wf_fits(*self);
        }
        r
    }
}

/// An exit is delivered at most once over the life of a set. Take the states of
/// one set, one after another; every operation on a [`PidSet`] ensures that the
/// next state watches no pid that the previous one did not, and each exit that
/// [`PidSet::resume`] counts is that of a pid leaving the watched set. So once
/// a pid has left it, it is never watched, and never counted, again.
pub proof fn lemma_single_delivery(states: Seq<PidSet>, i: int, j: int, pid: u32)
    requires
        forall|k: int|
            0 <= k < states.len() - 1 ==> #[trigger] states[k + 1].watched().subset_of(
                states[k].watched(),
            ),
        0 <= i <= j < states.len(),
        !states[i].watched().contains(pid),
    ensures
        !states[j].watched().contains(pid),
    decreases j - i,
{
    if i < j {
        lemma_single_delivery(states, i, j - 1, pid);
        assert(states[j - 1 + 1].watched().subset_of(states[j - 1].watched()));
    }
}

/// A wait for every watched pid that succeeds has observed the exit of each
/// of them, no more and no fewer, and leaves none watched, whatever the order in
/// which the exits came. `states` are the set after [`PidSet::wait_all`] began
/// the wait and after each [`PidSet::resume`] of it, and `actions` what each of
/// those steps returned; the last of them is the success.
pub proof fn lemma_wait_all_drains(states: Seq<PidSet>, actions: Seq<Action>, k: usize)
    requires
        actions.len() >= 1,
        states.len() == actions.len() + 1,
        states[0].waits_for_all(),
        forall|i: int| 0 <= i < actions.len() ==> counted_step(states[i], #[trigger] states[i + 1], actions[i]),
        forall|i: int| 0 <= i < actions.len() - 1 ==> !(#[trigger] actions[i] is Finished),
        actions.last() == Action::Finished(Ok(k)),
    ensures
        k == states[0].started_with(),
        states.last().watched().is_empty(),
{
    let n = actions.len() - 1;
    lemma_run_keeps_count(states, actions, n);
    assert(counted_step(states[n], states[n + 1], actions[n]));
    assert(states.last() == states[n + 1]);
    assert(states.last().watched().finite());
}

/// Every state of a wait before its last step still waits, with the target and
/// the starting count of the first.
proof fn lemma_run_keeps_count(states: Seq<PidSet>, actions: Seq<Action>, j: int)
    requires
        states.len() == actions.len() + 1,
        states[0].waiting(),
        forall|i: int| 0 <= i < actions.len() ==> counted_step(states[i], #[trigger] states[i + 1], actions[i]),
        forall|i: int| 0 <= i < actions.len() - 1 ==> !(#[trigger] actions[i] is Finished),
        0 <= j < actions.len(),
    ensures
        states[j].waiting(),
        states[j].target() == states[0].target(),
        states[j].started_with() == states[0].started_with(),
    decreases j,
{
    if j > 0 {
        lemma_run_keeps_count(states, actions, j - 1);
        assert(counted_step(states[j - 1], states[j - 1 + 1], actions[j - 1]));
        assert(!(actions[j - 1] is Finished));
    }
}

/// Forgetting one watched pid, and counting its exit, takes it and only it out
/// of the watched set.
proof fn lemma_removed_from_watched(before: PidSet, after: PidSet, p: u32)
    requires
        before.fd_pids@.contains_key(p),
        after.fd_pids@ == before.fd_pids@.remove(p),
        after.observed == before.observed + 1,
    ensures
        exists|q: u32|
            {
                &&& before.watched().contains(q)
                &&& after.watched() == before.watched().remove(q)
                &&& before.fd_pids@[p] == before.handle(q)
                &&& after.observed() == before.observed() + 1
            },
{
    assert(after.fd_pids@.dom() =~= before.fd_pids@.dom().remove(p));
    assert(before.watched().contains(p) && after.watched() == before.watched().remove(p)
        && before.fd_pids@[p] == before.handle(p) && after.observed() == before.observed() + 1);
}

/// What the public contracts say of a set follows from its invariant.
proof fn lemma_wf_fits(s: PidSet)
    requires
        s.wf(),
    ensures
        s.pending_fits(),
{
    if s.epoll_fd is None {
        assert(s.pids@.to_set() =~= s.fd_pids@.dom());
    }
}

} // verus!
