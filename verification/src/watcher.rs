//! The head-update watcher of one subgraph.
//!
//! The store announces each change of the chain head with a token that
//! carries nothing. For each token the watcher decides whether a walk is to
//! be made. It keeps walks of its subgraph apart: while one is under way no
//! other is started. It stops for good once it sees cancellation, and after
//! a walk that ended in a way that no later walk can mend.

use crate::walker::Outcome;
use crate::walker::WalkerError;
use vstd::prelude::*;

verus! {

/// What the watcher is doing.
#[derive(Clone, Copy, Debug, PartialEq, Eq, Structural)]
pub enum WatcherState {
    /// No walk is under way.
    Waiting,
    /// A walk is under way.
    Walking,
    /// The watcher has stopped and starts no further walk.
    Stopped,
}

/// What the watcher's caller is to do with a head update.
#[derive(Clone, Copy, Debug, PartialEq, Eq, Structural)]
pub enum Decision {
    /// Make a walk, and report its outcome when it has ended.
    Walk,
    /// Do nothing for this update.
    Skip,
    /// Stop listening for updates.
    Terminate,
}

/// Whether a walk that ended with `error` leaves the subgraph paused until
/// it is added again. A request that failed does not: the next update makes
/// a new attempt.
pub open spec fn is_fatal(error: WalkerError) -> bool {
    !(error is Unavailable)
}

/// The watcher's answer to a head update, and its state after it. A stopped
/// watcher stays stopped. A watcher whose walk is under way skips the
/// update. Otherwise cancellation stops the watcher, a subgraph without
/// hosts is skipped, and else a walk starts.
pub open spec fn head_update(state: WatcherState, cancelled: bool, hosts: usize) -> (
    WatcherState,
    Decision,
) {
    match state {
        WatcherState::Stopped => (WatcherState::Stopped, Decision::Terminate),
        WatcherState::Walking => (WatcherState::Walking, Decision::Skip),
        WatcherState::Waiting => if cancelled {
            (WatcherState::Stopped, Decision::Terminate)
        } else if hosts == 0 {
            (WatcherState::Waiting, Decision::Skip)
        } else {
            (WatcherState::Walking, Decision::Walk)
        },
    }
}

/// The watcher's state after the walk that was under way has ended with
/// `outcome`. Cancellation and a fatal error stop the watcher; any other
/// outcome has it wait for the next update. A watcher with no walk under
/// way stays as it is.
pub open spec fn walk_ended(state: WatcherState, outcome: Outcome) -> WatcherState {
    match state {
        WatcherState::Walking => match outcome {
            Outcome::CaughtUp => WatcherState::Waiting,
            Outcome::Cancelled => WatcherState::Stopped,
            Outcome::Failed(error) => if is_fatal(error) {
                WatcherState::Stopped
            } else {
                WatcherState::Waiting
            },
        },
        _ => state,
    }
}

/// Whether a walk that ended with `error` pauses the subgraph.
pub fn fatal(error: WalkerError) -> (fatal: bool)
    ensures
        fatal == is_fatal(error),
{
    match error {
        WalkerError::Unavailable => false,
        _ => true,
    }
}

/// The watcher of one subgraph.
#[derive(Debug)]
pub struct Watcher {
    state: WatcherState,
}

impl View for Watcher {
    type V = WatcherState;

    closed spec fn view(&self) -> WatcherState {
        self.state
    }
}

impl Watcher {
    /// A watcher with no walk under way.
    pub fn new() -> (watcher: Watcher)
        ensures
            watcher@ == WatcherState::Waiting,
    {
        Watcher { state: WatcherState::Waiting }
    }

    /// What the watcher is doing.
    pub fn state(&self) -> (state: WatcherState)
        ensures
            state == self@,
    {
        self.state
    }

    /// Takes one head update. `cancelled` is the cancellation flag as read
    /// now, `hosts` the number of hosts that the subgraph has now.
    pub fn on_head_update(&mut self, cancelled: bool, hosts: usize) -> (decision: Decision)
        ensures
            (final(self)@, decision) == head_update(old(self)@, cancelled, hosts),
    {
        match self.state {
            WatcherState::Stopped => Decision::Terminate,
            WatcherState::Walking => Decision::Skip,
            WatcherState::Waiting => {
                if cancelled {
                    self.state = WatcherState::Stopped;
                    Decision::Terminate
                } else if hosts == 0 {
                    Decision::Skip
                } else {
                    self.state = WatcherState::Walking;
                    Decision::Walk
                }
            },
        }
    }

    /// Takes the outcome of the walk that was under way.
    pub fn on_walk_ended(&mut self, outcome: Outcome)
        ensures
            final(self)@ == walk_ended(old(self)@, outcome),
    {
        match self.state {
            WatcherState::Walking => {
                self.state = match outcome {
                    Outcome::CaughtUp => WatcherState::Waiting,
                    Outcome::Cancelled => WatcherState::Stopped,
                    Outcome::Failed(error) => {
                        if fatal(error) {
                            WatcherState::Stopped
                        } else {
                            WatcherState::Waiting
                        }
                    },
                };
            },
            _ => {},
        }
    }
}

/// What happens to a watcher: a head update comes, or its walk ends.
pub enum WatcherEvent {
    HeadUpdate { cancelled: bool, hosts: usize },
    WalkEnded(Outcome),
}

/// The watcher's state after `event`.
pub open spec fn after_event(state: WatcherState, event: WatcherEvent) -> WatcherState {
    match event {
        WatcherEvent::HeadUpdate { cancelled, hosts } => head_update(state, cancelled, hosts).0,
        WatcherEvent::WalkEnded(outcome) => walk_ended(state, outcome),
    }
}

/// Whether `event` has the watcher start a walk from `state`.
pub open spec fn starts_walk(state: WatcherState, event: WatcherEvent) -> bool {
    match event {
        WatcherEvent::HeadUpdate { cancelled, hosts } => head_update(state, cancelled, hosts).1
            == Decision::Walk,
        WatcherEvent::WalkEnded(_) => false,
    }
}

/// The watcher's state after all of `events`, in order.
pub open spec fn after_events(state: WatcherState, events: Seq<WatcherEvent>) -> WatcherState
    decreases events.len(),
{
    if events.len() == 0 {
        state
    } else {
        after_event(after_events(state, events.drop_last()), events.last())
    }
}

/// A subgraph has at most one walk under way. Whatever updates come in,
/// and however fast: where the watcher starts a walk at one event and
/// another at a later one, the first walk has ended in between.
pub proof fn lemma_one_walk_at_a_time(
    state: WatcherState,
    events: Seq<WatcherEvent>,
    first: int,
    second: int,
)
    requires
        0 <= first < second < events.len(),
        starts_walk(after_events(state, events.take(first)), events[first]),
        starts_walk(after_events(state, events.take(second)), events[second]),
    ensures
        exists|between: int| first < between < second && events[between] is WalkEnded,
{
    if forall|between: int| first < between < second ==> !(events[between] is WalkEnded) {
        lemma_walk_goes_on(state, events, first, second);
        assert(false);
    }
}

proof fn lemma_walk_goes_on(
    state: WatcherState,
    events: Seq<WatcherEvent>,
    first: int,
    upto: int,
)
    requires
        0 <= first < upto <= events.len(),
        starts_walk(after_events(state, events.take(first)), events[first]),
        forall|between: int| first < between < upto ==> !(events[between] is WalkEnded),
    ensures
        after_events(state, events.take(upto)) == WatcherState::Walking,
    decreases upto,
{
    assert(events.take(upto).drop_last() =~= events.take(upto - 1));
    assert(events.take(upto).last() == events[upto - 1]);
    if upto - 1 > first {
        lemma_walk_goes_on(state, events, first, upto - 1);
    }
}

/// A watcher that has stopped starts no walk again, whatever comes.
pub proof fn lemma_stopped_stays_stopped(events: Seq<WatcherEvent>, at: int)
    requires
        0 <= at < events.len(),
    ensures
        after_events(WatcherState::Stopped, events) == WatcherState::Stopped,
        !starts_walk(after_events(WatcherState::Stopped, events.take(at)), events[at]),
{
    lemma_stays_stopped(events);
    lemma_stays_stopped(events.take(at));
}

proof fn lemma_stays_stopped(events: Seq<WatcherEvent>)
    ensures
        after_events(WatcherState::Stopped, events) == WatcherState::Stopped,
    decreases events.len(),
{
    if events.len() > 0 {
        lemma_stays_stopped(events.drop_last());
    }
}

/// A head update that finds the cancellation flag raised starts no walk and
/// leaves the watcher stopped, unless a walk is under way, which then sees
/// the flag itself at its next step.
pub proof fn lemma_cancelled_update_starts_nothing(state: WatcherState, hosts: usize)
    ensures
        head_update(state, true, hosts).1 != Decision::Walk,
        state != WatcherState::Walking ==> head_update(state, true, hosts).0
            == WatcherState::Stopped,
{
}

} // verus!
