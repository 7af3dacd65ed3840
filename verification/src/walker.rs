//! The reconciliation walker.
//!
//! A walker moves the block pointer of one subgraph toward the head of the
//! chain. It never talks to the store, the chain or a host itself: each call
//! of [`Walker::step`] takes the answer to the request that the walker made
//! last and hands out the next request. The caller performs the request and
//! comes back with the answer, until the request is [`Request::Stop`].
//!
//! How far the pointer lies below the head decides between two ways of
//! choosing a step. Deeper than the reorg threshold, blocks are taken as
//! final and the chain is asked by block number; at the threshold or nearer,
//! only the locally kept ancestry of the head is trusted.
//!
//! The whole behaviour is the spec function [`next`]; `step` computes it.

use crate::block::Block;
use crate::block::BlockHash;
use crate::block::BlockPointer;
use crate::filter::ChainEvent;
use crate::filter::ChainEventView;
use vstd::prelude::*;

verus! {

/// The reorg threshold used where none is configured.
pub const REORG_THRESHOLD: u64 = 300;

/// What a walker is configured with.
#[derive(Clone, Copy, Debug)]
pub struct Settings {
    /// Blocks deeper than this below the head are taken as final.
    pub reorg_threshold: u64,
    /// The number of hosts of the subgraph, in manifest order.
    pub hosts: usize,
    /// The pointer a subgraph is taken to have while the store holds none.
    pub origin: BlockPointer,
}

/// Why a walk ended without catching up.
#[derive(Clone, Copy, Debug, PartialEq, Eq, Structural)]
pub enum WalkerError {
    /// The store holds no head pointer.
    MissingHead,
    /// The store or the chain failed to answer a request.
    Unavailable,
    /// The answer handed in does not answer the request that was pending.
    UnexpectedResponse,
    /// A block to advance to has number zero, so no block comes before it.
    NoParent,
}

/// Where a walk stands: what it waits for, or how it ended.
#[derive(Clone, Copy, Debug)]
pub enum Stage {
    /// Not started.
    Idle,
    /// Waits for the head pointer.
    ReadingHead,
    /// Waits for the subgraph's pointer.
    ReadingPointer { head: BlockPointer },
    /// Deep below the head; waits to learn whether the pointer's block is on
    /// the main chain.
    CheckingMainChain { head: BlockPointer, sub: BlockPointer },
    /// Waits for the first blocks with events between the pointer and the
    /// threshold.
    FindingBlocks { head: BlockPointer, sub: BlockPointer },
    /// No block with events was found; waits for the block at the end of the
    /// range.
    ResolvingTarget { head: BlockPointer, sub: BlockPointer },
    /// Waits for the store to move the pointer to the end of the range.
    FastForwarding,
    /// Waits for the store's copy of the next block to load.
    LoadingLocal { sub: BlockPointer },
    /// The store has no copy; waits for the chain's.
    LoadingRemote { sub: BlockPointer },
    /// Near the head; waits for the head's ancestor one above the pointer.
    FindingAncestor { head: BlockPointer, sub: BlockPointer },
    /// Waits for the store's copy of the block to revert.
    RevertLocal { sub: BlockPointer },
    /// The store has no copy; waits for the chain's.
    RevertRemote { sub: BlockPointer },
    /// Waits for the store to revert the block.
    Reverting,
    /// Waits for the store to move the pointer across blocks without events,
    /// up to the parent of the block in hand.
    SkippingGap,
    /// Waits for the events of the block in hand.
    ReadingEvents,
    /// Waits for a host to confirm an event.
    Delivering,
    /// Waits for the store to move the pointer onto the block in hand.
    Committing,
    /// Ended: the pointer is level with the head, or beyond it.
    CaughtUp,
    /// Ended: cancellation was seen.
    Cancelled,
    /// Ended with an error.
    Failed(WalkerError),
}

/// What the walker asks its caller to do.
#[derive(Clone, Copy, Debug)]
pub enum Request {
    /// Read the head pointer from the store.
    ReadHead,
    /// Read the subgraph's pointer from the store.
    ReadPointer,
    /// Ask the chain whether the block is on the main chain.
    IsOnMainChain(BlockPointer),
    /// Ask the chain for the first blocks with events of the subgraph's
    /// filter, among the numbers `first` to `last`, both included.
    FindBlocks { first: u64, last: u64 },
    /// Ask the chain for the block with this number.
    BlockByNumber(u64),
    /// Look the block up in the store.
    LocalBlock(BlockHash),
    /// Ask the chain for the block with this hash.
    BlockByHash(BlockHash),
    /// Ask the store for the block `offset` parents above `head`.
    AncestorBlock { head: BlockPointer, offset: u64 },
    /// Have the store undo the block and step the pointer to its parent.
    RevertBlock(Block),
    /// Have the store move the pointer from `from` to `to`, with no change
    /// to any entity.
    MovePointer { from: BlockPointer, to: BlockPointer },
    /// Ask the chain for the block's events that the subgraph's filter
    /// selects, in chain order.
    EventsInBlock(Block),
    /// Send the event with this index, among those of the block in hand, to
    /// the host with this index, and wait for its confirmation.
    Deliver { event: usize, host: usize },
    /// Nothing more to do: the walk has ended.
    Stop,
}

/// What the caller answers.
#[derive(Debug)]
pub enum Response {
    /// Answers nothing: starts the walk.
    Start,
    /// The head pointer, if the store holds one.
    Head(Option<BlockPointer>),
    /// The subgraph's pointer, if the store holds one.
    Pointer(Option<BlockPointer>),
    /// Whether the block is on the main chain.
    OnMainChain(bool),
    /// The blocks found, in chain order.
    Found(Vec<BlockPointer>),
    /// The block that the chain gave.
    Block(Block),
    /// The block that the store gave, if it has it.
    LocalBlock(Option<Block>),
    /// The store did what was asked.
    Done,
    /// The events of the block, in chain order.
    Events(Vec<ChainEvent>),
    /// The host's verdict on the event, `false` where sending or confirming
    /// failed.
    Delivered(bool),
    /// The request failed.
    Failed,
}

/// The mathematical value of a [`Response`].
pub enum ResponseView {
    Start,
    Head(Option<BlockPointer>),
    Pointer(Option<BlockPointer>),
    OnMainChain(bool),
    Found(Seq<BlockPointer>),
    Block(Block),
    LocalBlock(Option<Block>),
    Done,
    Events(Seq<ChainEventView>),
    Delivered(bool),
    Failed,
}

/// The values of a list of events.
pub open spec fn event_views(events: Seq<ChainEvent>) -> Seq<ChainEventView> {
    Seq::new(events.len(), |i: int| events[i]@)
}

impl View for Response {
    type V = ResponseView;

    open spec fn view(&self) -> ResponseView {
        match *self {
            Response::Start => ResponseView::Start,
            Response::Head(head) => ResponseView::Head(head),
            Response::Pointer(pointer) => ResponseView::Pointer(pointer),
            Response::OnMainChain(on) => ResponseView::OnMainChain(on),
            Response::Found(pointers) => ResponseView::Found(pointers@),
            Response::Block(block) => ResponseView::Block(block),
            Response::LocalBlock(block) => ResponseView::LocalBlock(block),
            Response::Done => ResponseView::Done,
            Response::Events(events) => ResponseView::Events(event_views(events@)),
            Response::Delivered(ok) => ResponseView::Delivered(ok),
            Response::Failed => ResponseView::Failed,
        }
    }
}

/// The mathematical value of a [`Walker`].
#[verifier::ext_equal]
pub struct WalkerView {
    pub settings: Settings,
    pub stage: Stage,
    /// The pointers found deep below the head, whose blocks are being loaded.
    pub pending: Seq<BlockPointer>,
    /// The blocks to advance through, in chain order.
    pub blocks: Seq<Block>,
    /// The index in `blocks` of the block in hand.
    pub cursor: usize,
    /// The events of the block in hand.
    pub events: Seq<ChainEventView>,
    /// The index in `events` of the event being delivered.
    pub event: usize,
    /// The index of the host it is being delivered to.
    pub host: usize,
}

/// Whether a walk at `stage` has ended.
pub open spec fn halted(stage: Stage) -> bool {
    stage is CaughtUp || stage is Cancelled || stage is Failed
}

impl WalkerView {
    /// The value of a walker that has not started.
    pub open spec fn idle(settings: Settings) -> WalkerView {
        WalkerView {
            settings,
            stage: Stage::Idle,
            pending: Seq::empty(),
            blocks: Seq::empty(),
            cursor: 0,
            events: Seq::empty(),
            event: 0,
            host: 0,
        }
    }

    /// What every walker that `step` can produce satisfies: the indices lie
    /// within their lists, and the pointers of a stage lie as far apart as
    /// the stage says.
    pub open spec fn wf(self) -> bool {
        match self.stage {
            Stage::CheckingMainChain { head, sub } => head.number - sub.number
                > self.settings.reorg_threshold,
            Stage::FindingBlocks { head, sub } => head.number - sub.number
                > self.settings.reorg_threshold,
            Stage::ResolvingTarget { head, sub } => head.number - sub.number
                > self.settings.reorg_threshold,
            Stage::FindingAncestor { head, sub } => sub.number < head.number,
            Stage::LoadingLocal { sub } => self.blocks.len() < self.pending.len(),
            Stage::LoadingRemote { sub } => self.blocks.len() < self.pending.len(),
            Stage::SkippingGap => self.has_block_in_hand(),
            Stage::ReadingEvents => self.has_block_in_hand(),
            Stage::Committing => self.has_block_in_hand(),
            Stage::Delivering => {
                &&& self.has_block_in_hand()
                &&& self.event < self.events.len()
                &&& self.host < self.settings.hosts
            },
            _ => true,
        }
    }

    /// The cursor names a block, and that block has a parent.
    pub open spec fn has_block_in_hand(self) -> bool {
        &&& self.cursor < self.blocks.len()
        &&& self.blocks[self.cursor as int].number > 0
    }

    /// The block in hand.
    pub open spec fn block(self) -> Block {
        self.blocks[self.cursor as int]
    }

    /// The walker at `stage`, with no blocks and no events in hand.
    pub open spec fn resting(self, stage: Stage) -> WalkerView {
        WalkerView {
            settings: self.settings,
            stage,
            pending: Seq::empty(),
            blocks: Seq::empty(),
            cursor: 0,
            events: Seq::empty(),
            event: 0,
            host: 0,
        }
    }

    /// The walk ends with `error`.
    pub open spec fn fail(self, error: WalkerError) -> (WalkerView, Request) {
        (self.resting(Stage::Failed(error)), Request::Stop)
    }

    /// An answer that the pending request cannot have: a failure ends the
    /// walk as unavailable, anything else as unexpected.
    pub open spec fn reject(self, response: ResponseView) -> (WalkerView, Request) {
        if response is Failed {
            self.fail(WalkerError::Unavailable)
        } else {
            self.fail(WalkerError::UnexpectedResponse)
        }
    }

    /// Back to the top: read the head again.
    pub open spec fn restart(self) -> (WalkerView, Request) {
        (self.resting(Stage::ReadingHead), Request::ReadHead)
    }

    /// With both pointers read, choose how to go on: stop when the pointer
    /// is level with the head or beyond it, ask the chain when it lies
    /// deeper than the threshold, and else ask the store for the head's
    /// ancestor one above the pointer.
    pub open spec fn decide(self, head: BlockPointer, sub: BlockPointer) -> (WalkerView, Request) {
        if sub.number >= head.number {
            (self.resting(Stage::CaughtUp), Request::Stop)
        } else if head.number - sub.number > self.settings.reorg_threshold {
            (self.resting(Stage::CheckingMainChain { head, sub }), Request::IsOnMainChain(sub))
        } else {
            (
                self.resting(Stage::FindingAncestor { head, sub }),
                Request::AncestorBlock { head, offset: (head.number - sub.number - 1) as u64 },
            )
        }
    }

    /// Step back: fetch the pointer's block, from the store first, to have
    /// it reverted.
    pub open spec fn step_back(self, sub: BlockPointer) -> (WalkerView, Request) {
        (self.resting(Stage::RevertLocal { sub }), Request::LocalBlock(sub.hash))
    }

    /// Blocks with events were found: load them one by one, in order, each
    /// from the store first.
    pub open spec fn load(self, sub: BlockPointer, found: Seq<BlockPointer>) -> (
        WalkerView,
        Request,
    ) {
        (
            WalkerView {
                stage: Stage::LoadingLocal { sub },
                pending: found,
                ..self.resting(Stage::Idle)
            },
            Request::LocalBlock(found[0].hash),
        )
    }

    /// One more of the found blocks has loaded. When it was the last, the
    /// advance begins at the first of them; else the next is looked up.
    pub open spec fn loaded(self, sub: BlockPointer, block: Block) -> (WalkerView, Request) {
        let blocks = self.blocks.push(block);
        if blocks.len() >= self.pending.len() {
            WalkerView { blocks, ..self.resting(Stage::Idle) }.advance(sub, 0)
        } else {
            (
                WalkerView { stage: Stage::LoadingLocal { sub }, blocks, ..self },
                Request::LocalBlock(self.pending[blocks.len() as int].hash),
            )
        }
    }

    /// Turn to the block at `cursor`, with the pointer at `sub`. Where `sub`
    /// is not the block's parent, the pointer is first moved to the parent,
    /// across blocks that hold no event of interest; else the block's events
    /// are asked for. A block with number zero has no parent and ends the
    /// walk.
    pub open spec fn advance(self, sub: BlockPointer, cursor: usize) -> (WalkerView, Request) {
        let block = self.blocks[cursor as int];
        let parent = block.spec_parent_pointer();
        let turned = WalkerView { cursor, events: Seq::empty(), event: 0, host: 0, ..self };
        if block.number == 0 {
            self.fail(WalkerError::NoParent)
        } else if !sub.same_block(parent) {
            (
                WalkerView { stage: Stage::SkippingGap, ..turned },
                Request::MovePointer { from: sub, to: parent },
            )
        } else {
            (WalkerView { stage: Stage::ReadingEvents, ..turned }, Request::EventsInBlock(block))
        }
    }

    /// The pointer is at the parent of the block in hand: ask for the
    /// block's events.
    pub open spec fn read_events(self) -> (WalkerView, Request) {
        (
            WalkerView { stage: Stage::ReadingEvents, ..self },
            Request::EventsInBlock(self.block()),
        )
    }

    /// All events of the block in hand are dealt with: move the pointer from
    /// the block's parent onto the block.
    pub open spec fn commit(self) -> (WalkerView, Request) {
        (
            WalkerView { stage: Stage::Committing, event: 0, host: 0, ..self },
            Request::MovePointer {
                from: self.block().spec_parent_pointer(),
                to: self.block().spec_pointer(),
            },
        )
    }

    /// The events of the block in hand have come. With an event and a host
    /// to deliver to, delivery starts with the first event and the first
    /// host; else the block is committed at once.
    pub open spec fn deliver_first(self, events: Seq<ChainEventView>) -> (WalkerView, Request) {
        let holding = WalkerView { events, event: 0, host: 0, ..self };
        if events.len() == 0 || self.settings.hosts == 0 {
            holding.commit()
        } else {
            (
                WalkerView { stage: Stage::Delivering, ..holding },
                Request::Deliver { event: 0, host: 0 },
            )
        }
    }

    /// A delivery is over, whatever the host said. The same event goes to
    /// the next host; after the last host, the next event goes to the first
    /// host; after the last event, the block is committed.
    pub open spec fn deliver_next(self) -> (WalkerView, Request) {
        if self.host + 1 < self.settings.hosts {
            let host = (self.host + 1) as usize;
            (WalkerView { host, ..self }, Request::Deliver { event: self.event, host })
        } else if self.event + 1 < self.events.len() {
            let event = (self.event + 1) as usize;
            (WalkerView { event, host: 0, ..self }, Request::Deliver { event, host: 0 })
        } else {
            self.commit()
        }
    }

    /// The block in hand is committed. The pointer now stands on it: the
    /// advance turns to the next block, or, after the last, the walk goes
    /// back to the top.
    pub open spec fn committed(self) -> (WalkerView, Request) {
        if self.cursor + 1 < self.blocks.len() {
            self.advance(self.block().spec_pointer(), (self.cursor + 1) as usize)
        } else {
            self.restart()
        }
    }
}

/// The walker's whole behaviour: the state after `response`, and the request
/// made next.
///
/// A walk that has ended stays as it is and asks to stop. Otherwise
/// cancellation, where it is seen, ends the walk before anything else is
/// looked at. Otherwise the answer is taken by the stage that waited for it.
pub open spec fn next(walker: WalkerView, cancelled: bool, response: ResponseView) -> (
    WalkerView,
    Request,
) {
    if halted(walker.stage) {
        (walker, Request::Stop)
    } else if cancelled {
        (walker.resting(Stage::Cancelled), Request::Stop)
    } else {
        match walker.stage {
            Stage::Idle => match response {
                ResponseView::Start => walker.restart(),
                _ => walker.reject(response),
            },
            Stage::ReadingHead => match response {
                ResponseView::Head(Some(head)) => (
                    walker.resting(Stage::ReadingPointer { head }),
                    Request::ReadPointer,
                ),
                ResponseView::Head(None) => walker.fail(WalkerError::MissingHead),
                _ => walker.reject(response),
            },
            Stage::ReadingPointer { head } => match response {
                ResponseView::Pointer(Some(sub)) => walker.decide(head, sub),
                ResponseView::Pointer(None) => walker.decide(head, walker.settings.origin),
                _ => walker.reject(response),
            },
            Stage::CheckingMainChain { head, sub } => match response {
                ResponseView::OnMainChain(true) => (
                    walker.resting(Stage::FindingBlocks { head, sub }),
                    Request::FindBlocks {
                        first: (sub.number + 1) as u64,
                        last: (head.number - walker.settings.reorg_threshold) as u64,
                    },
                ),
                ResponseView::OnMainChain(false) => walker.step_back(sub),
                _ => walker.reject(response),
            },
            Stage::FindingBlocks { head, sub } => match response {
                ResponseView::Found(found) => if found.len() == 0 {
                    (
                        walker.resting(Stage::ResolvingTarget { head, sub }),
                        Request::BlockByNumber(
                            (head.number - walker.settings.reorg_threshold) as u64,
                        ),
                    )
                } else {
                    walker.load(sub, found)
                },
                _ => walker.reject(response),
            },
            Stage::ResolvingTarget { head, sub } => match response {
                ResponseView::Block(block) => (
                    walker.resting(Stage::FastForwarding),
                    Request::MovePointer { from: sub, to: block.spec_pointer() },
                ),
                _ => walker.reject(response),
            },
            Stage::FastForwarding => match response {
                ResponseView::Done => walker.restart(),
                _ => walker.reject(response),
            },
            Stage::LoadingLocal { sub } => match response {
                ResponseView::LocalBlock(Some(block)) => walker.loaded(sub, block),
                ResponseView::LocalBlock(None) => (
                    WalkerView { stage: Stage::LoadingRemote { sub }, ..walker },
                    Request::BlockByHash(walker.pending[walker.blocks.len() as int].hash),
                ),
                _ => walker.reject(response),
            },
            Stage::LoadingRemote { sub } => match response {
                ResponseView::Block(block) => walker.loaded(sub, block),
                _ => walker.reject(response),
            },
            Stage::FindingAncestor { head, sub } => match response {
                ResponseView::LocalBlock(None) => walker.restart(),
                ResponseView::LocalBlock(Some(candidate)) => if candidate.is_child_of(sub) {
                    WalkerView { blocks: seq![candidate], ..walker.resting(Stage::Idle) }.advance(
                        sub,
                        0,
                    )
                } else {
                    walker.step_back(sub)
                },
                _ => walker.reject(response),
            },
            Stage::RevertLocal { sub } => match response {
                ResponseView::LocalBlock(Some(block)) => (
                    walker.resting(Stage::Reverting),
                    Request::RevertBlock(block),
                ),
                ResponseView::LocalBlock(None) => (
                    walker.resting(Stage::RevertRemote { sub }),
                    Request::BlockByHash(sub.hash),
                ),
                _ => walker.reject(response),
            },
            Stage::RevertRemote { sub } => match response {
                ResponseView::Block(block) => (
                    walker.resting(Stage::Reverting),
                    Request::RevertBlock(block),
                ),
                _ => walker.reject(response),
            },
            Stage::Reverting => match response {
                ResponseView::Done => walker.restart(),
                _ => walker.reject(response),
            },
            Stage::SkippingGap => match response {
                ResponseView::Done => walker.read_events(),
                _ => walker.reject(response),
            },
            Stage::ReadingEvents => match response {
                ResponseView::Events(events) => walker.deliver_first(events),
                _ => walker.reject(response),
            },
            Stage::Delivering => match response {
                ResponseView::Delivered(_) => walker.deliver_next(),
                ResponseView::Failed => walker.deliver_next(),
                _ => walker.reject(response),
            },
            Stage::Committing => match response {
                ResponseView::Done => walker.committed(),
                _ => walker.reject(response),
            },
            _ => (walker, Request::Stop),
        }
    }
}

/// How a walk ended.
#[derive(Clone, Copy, Debug, PartialEq, Eq, Structural)]
pub enum Outcome {
    /// The pointer is level with the head, or beyond it.
    CaughtUp,
    /// Cancellation was seen.
    Cancelled,
    /// The walk ended with an error.
    Failed(WalkerError),
}

/// The outcome of a walk at `stage`, once it has ended.
pub open spec fn outcome_of(stage: Stage) -> Option<Outcome> {
    match stage {
        Stage::CaughtUp => Some(Outcome::CaughtUp),
        Stage::Cancelled => Some(Outcome::Cancelled),
        Stage::Failed(error) => Some(Outcome::Failed(error)),
        _ => None,
    }
}

/// One walk of one subgraph's pointer toward the head.
pub struct Walker {
    settings: Settings,
    stage: Stage,
    pending: Vec<BlockPointer>,
    blocks: Vec<Block>,
    cursor: usize,
    events: Vec<ChainEvent>,
    event: usize,
    host: usize,
}

impl View for Walker {
    type V = WalkerView;

    closed spec fn view(&self) -> WalkerView {
        WalkerView {
            settings: self.settings,
            stage: self.stage,
            pending: self.pending@,
            blocks: self.blocks@,
            cursor: self.cursor,
            events: event_views(self.events@),
            event: self.event,
            host: self.host,
        }
    }
}

impl Walker {
    /// A walker that has not started. Its first step takes
    /// [`Response::Start`].
    pub fn new(settings: Settings) -> (walker: Walker)
        ensures
            walker@ == WalkerView::idle(settings),
            walker@.wf(),
    {
        let walker = Walker {
            settings,
            stage: Stage::Idle,
            pending: Vec::new(),
            blocks: Vec::new(),
            cursor: 0,
            events: Vec::new(),
            event: 0,
            host: 0,
        };
        assert(walker@ =~= WalkerView::idle(settings));
        walker
    }

    /// The settings the walker was made with.
    pub fn settings(&self) -> (settings: Settings)
        ensures
            settings == self@.settings,
    {
        self.settings
    }

    /// Where the walk stands.
    pub fn stage(&self) -> (stage: Stage)
        ensures
            stage == self@.stage,
    {
        self.stage
    }

    /// How the walk ended, or `None` while it is under way.
    pub fn outcome(&self) -> (outcome: Option<Outcome>)
        ensures
            outcome == outcome_of(self@.stage),
            outcome is Some <==> halted(self@.stage),
    {
        match self.stage {
            Stage::CaughtUp => Some(Outcome::CaughtUp),
            Stage::Cancelled => Some(Outcome::Cancelled),
            Stage::Failed(error) => Some(Outcome::Failed(error)),
            _ => None,
        }
    }

    /// The number of events of the block in hand.
    pub fn event_count(&self) -> (count: usize)
        ensures
            count == self@.events.len(),
    {
        self.events.len()
    }

    /// The event of the block in hand with this index, which is what a
    /// [`Request::Deliver`] names.
    pub fn event(&self, index: usize) -> (event: Option<&ChainEvent>)
        ensures
            index < self@.events.len() ==> event is Some && event->0@ == self@.events[index as int],
            index >= self@.events.len() ==> event is None,
    {
        if index < self.events.len() {
            Some(&self.events[index])
        } else {
            None
        }
    }

    fn rest(&mut self, stage: Stage)
        ensures
            final(self)@ == old(self)@.resting(stage),
    {
        self.stage = stage;
        self.pending = Vec::new();
        self.blocks = Vec::new();
        self.cursor = 0;
        self.events = Vec::new();
        self.event = 0;
        self.host = 0;
        assert(self@ =~= old(self)@.resting(stage));
    }

    fn fail(&mut self, error: WalkerError) -> (request: Request)
        ensures
            (final(self)@, request) == old(self)@.fail(error),
            final(self)@.wf(),
    {
        self.rest(Stage::Failed(error));
        Request::Stop
    }

    fn reject(&mut self, response: &Response) -> (request: Request)
        ensures
            (final(self)@, request) == old(self)@.reject(response@),
            final(self)@.wf(),
    {
        match response {
            Response::Failed => self.fail(WalkerError::Unavailable),
            _ => self.fail(WalkerError::UnexpectedResponse),
        }
    }

    fn restart(&mut self) -> (request: Request)
        ensures
            (final(self)@, request) == old(self)@.restart(),
            final(self)@.wf(),
    {
        self.rest(Stage::ReadingHead);
        Request::ReadHead
    }

    fn decide(&mut self, head: BlockPointer, sub: BlockPointer) -> (request: Request)
        ensures
            (final(self)@, request) == old(self)@.decide(head, sub),
            final(self)@.wf(),
    {
        if sub.number >= head.number {
            self.rest(Stage::CaughtUp);
            Request::Stop
        } else if head.number - sub.number > self.settings.reorg_threshold {
            self.rest(Stage::CheckingMainChain { head, sub });
            Request::IsOnMainChain(sub)
        } else {
            self.rest(Stage::FindingAncestor { head, sub });
            Request::AncestorBlock { head, offset: head.number - sub.number - 1 }
        }
    }

    fn step_back(&mut self, sub: BlockPointer) -> (request: Request)
        ensures
            (final(self)@, request) == old(self)@.step_back(sub),
            final(self)@.wf(),
    {
        self.rest(Stage::RevertLocal { sub });
        Request::LocalBlock(sub.hash)
    }

    fn load(&mut self, sub: BlockPointer, found: Vec<BlockPointer>) -> (request: Request)
        requires
            found@.len() > 0,
        ensures
            (final(self)@, request) == old(self)@.load(sub, found@),
            final(self)@.wf(),
    {
        let first = found[0].hash;
        self.rest(Stage::LoadingLocal { sub });
        self.pending = found;
        assert(self@ =~= old(self)@.load(sub, found@).0);
        Request::LocalBlock(first)
    }

    fn advance(&mut self, sub: BlockPointer, cursor: usize) -> (request: Request)
        requires
            cursor < old(self)@.blocks.len(),
        ensures
            (final(self)@, request) == old(self)@.advance(sub, cursor),
            final(self)@.wf(),
    {
        let block = self.blocks[cursor];
        if !block.has_parent() {
            return self.fail(WalkerError::NoParent);
        }
        let parent = block.parent_pointer();
        self.cursor = cursor;
        self.events = Vec::new();
        self.event = 0;
        self.host = 0;
        if sub != parent {
            self.stage = Stage::SkippingGap;
            assert(self@ =~= old(self)@.advance(sub, cursor).0);
            Request::MovePointer { from: sub, to: parent }
        } else {
            self.stage = Stage::ReadingEvents;
            assert(self@ =~= old(self)@.advance(sub, cursor).0);
            Request::EventsInBlock(block)
        }
    }

    fn loaded(&mut self, sub: BlockPointer, block: Block) -> (request: Request)
        requires
            old(self)@.blocks.len() < old(self)@.pending.len(),
        ensures
            (final(self)@, request) == old(self)@.loaded(sub, block),
            final(self)@.wf(),
    {
        self.blocks.push(block);
        if self.blocks.len() >= self.pending.len() {
            self.stage = Stage::Idle;
            self.pending = Vec::new();
            self.cursor = 0;
            self.events = Vec::new();
            self.event = 0;
            self.host = 0;
            assert(self@ =~= (WalkerView {
                blocks: old(self)@.blocks.push(block),
                ..old(self)@.resting(Stage::Idle)
            }));
            self.advance(sub, 0)
        } else {
            let hash = self.pending[self.blocks.len()].hash;
            self.stage = Stage::LoadingLocal { sub };
            assert(self@ =~= old(self)@.loaded(sub, block).0);
            Request::LocalBlock(hash)
        }
    }

    fn read_events(&mut self) -> (request: Request)
        requires
            old(self)@.has_block_in_hand(),
        ensures
            (final(self)@, request) == old(self)@.read_events(),
            final(self)@.wf(),
    {
        self.stage = Stage::ReadingEvents;
        assert(self@ =~= old(self)@.read_events().0);
        Request::EventsInBlock(self.blocks[self.cursor])
    }

    fn commit(&mut self) -> (request: Request)
        requires
            old(self)@.has_block_in_hand(),
        ensures
            (final(self)@, request) == old(self)@.commit(),
            final(self)@.wf(),
    {
        let block = self.blocks[self.cursor];
        self.stage = Stage::Committing;
        self.event = 0;
        self.host = 0;
        assert(self@ =~= old(self)@.commit().0);
        Request::MovePointer { from: block.parent_pointer(), to: block.pointer() }
    }

    fn deliver_first(&mut self, events: Vec<ChainEvent>) -> (request: Request)
        requires
            old(self)@.has_block_in_hand(),
        ensures
            (final(self)@, request) == old(self)@.deliver_first(event_views(events@)),
            final(self)@.wf(),
    {
        self.events = events;
        self.event = 0;
        self.host = 0;
        if self.events.len() == 0 || self.settings.hosts == 0 {
            assert(self@ =~= (WalkerView {
                events: event_views(events@),
                event: 0,
                host: 0,
                ..old(self)@
            }));
            self.commit()
        } else {
            self.stage = Stage::Delivering;
            assert(self@ =~= old(self)@.deliver_first(event_views(events@)).0);
            Request::Deliver { event: 0, host: 0 }
        }
    }

    fn deliver_next(&mut self) -> (request: Request)
        requires
            old(self)@.wf(),
            old(self)@.stage is Delivering,
        ensures
            (final(self)@, request) == old(self)@.deliver_next(),
            final(self)@.wf(),
    {
        let events = self.events.len();
        assert(self@.events.len() == events);
        if self.host + 1 < self.settings.hosts {
            self.host = self.host + 1;
            assert(self@ =~= old(self)@.deliver_next().0);
            Request::Deliver { event: self.event, host: self.host }
        } else if self.event + 1 < events {
            self.event = self.event + 1;
            self.host = 0;
            assert(self@ =~= old(self)@.deliver_next().0);
            Request::Deliver { event: self.event, host: 0 }
        } else {
            self.commit()
        }
    }

    fn committed(&mut self) -> (request: Request)
        requires
            old(self)@.has_block_in_hand(),
        ensures
            (final(self)@, request) == old(self)@.committed(),
            final(self)@.wf(),
    {
        let blocks = self.blocks.len();
        if self.cursor + 1 < blocks {
            let sub = self.blocks[self.cursor].pointer();
            self.advance(sub, self.cursor + 1)
        } else {
            self.restart()
        }
    }

    /// Takes the answer to the request made last, and makes the next
    /// request. `cancelled` is the cancellation flag as the caller reads it
    /// now.
    ///
    /// The first step of a new walker takes [`Response::Start`]. Once the
    /// request is [`Request::Stop`] the walk has ended and
    /// [`Walker::outcome`] tells how.
    pub fn step(&mut self, cancelled: bool, response: Response) -> (request: Request)
        requires
            old(self)@.wf(),
        ensures
            (final(self)@, request) == next(old(self)@, cancelled, response@),
            final(self)@.wf(),
    {
        match self.stage {
            Stage::CaughtUp => {
                return Request::Stop;
            },
            Stage::Cancelled => {
                return Request::Stop;
            },
            Stage::Failed(_) => {
                return Request::Stop;
            },
            _ => {},
        }
        if cancelled {
            self.rest(Stage::Cancelled);
            return Request::Stop;
        }
        match self.stage {
            Stage::Idle => match response {
                Response::Start => self.restart(),
                other => self.reject(&other),
            },
            Stage::ReadingHead => match response {
                Response::Head(Some(head)) => {
                    self.rest(Stage::ReadingPointer { head });
                    Request::ReadPointer
                },
                Response::Head(None) => self.fail(WalkerError::MissingHead),
                other => self.reject(&other),
            },
            Stage::ReadingPointer { head } => match response {
                Response::Pointer(Some(sub)) => self.decide(head, sub),
                Response::Pointer(None) => {
                    let origin = self.settings.origin;
                    self.decide(head, origin)
                },
                other => self.reject(&other),
            },
            Stage::CheckingMainChain { head, sub } => match response {
                Response::OnMainChain(true) => {
                    let first = sub.number + 1;
                    let last = head.number - self.settings.reorg_threshold;
                    self.rest(Stage::FindingBlocks { head, sub });
                    Request::FindBlocks { first, last }
                },
                Response::OnMainChain(false) => self.step_back(sub),
                other => self.reject(&other),
            },
            Stage::FindingBlocks { head, sub } => match response {
                Response::Found(found) => {
                    if found.len() == 0 {
                        let to = head.number - self.settings.reorg_threshold;
                        self.rest(Stage::ResolvingTarget { head, sub });
                        Request::BlockByNumber(to)
                    } else {
                        self.load(sub, found)
                    }
                },
                other => self.reject(&other),
            },
            Stage::ResolvingTarget { head, sub } => match response {
                Response::Block(block) => {
                    self.rest(Stage::FastForwarding);
                    Request::MovePointer { from: sub, to: block.pointer() }
                },
                other => self.reject(&other),
            },
            Stage::FastForwarding => match response {
                Response::Done => self.restart(),
                other => self.reject(&other),
            },
            Stage::LoadingLocal { sub } => match response {
                Response::LocalBlock(Some(block)) => self.loaded(sub, block),
                Response::LocalBlock(None) => {
                    let hash = self.pending[self.blocks.len()].hash;
                    self.stage = Stage::LoadingRemote { sub };
                    assert(self@ =~= (WalkerView {
                        stage: Stage::LoadingRemote { sub },
                        ..old(self)@
                    }));
                    Request::BlockByHash(hash)
                },
                other => self.reject(&other),
            },
            Stage::LoadingRemote { sub } => match response {
                Response::Block(block) => self.loaded(sub, block),
                other => self.reject(&other),
            },
            Stage::FindingAncestor { head, sub } => match response {
                Response::LocalBlock(None) => self.restart(),
                Response::LocalBlock(Some(candidate)) => {
                    if candidate.parent_hash == sub.hash {
                        self.rest(Stage::Idle);
                        self.blocks.push(candidate);
                        assert(self@ =~= (WalkerView {
                            blocks: seq![candidate],
                            ..old(self)@.resting(Stage::Idle)
                        }));
                        self.advance(sub, 0)
                    } else {
                        self.step_back(sub)
                    }
                },
                other => self.reject(&other),
            },
            Stage::RevertLocal { sub } => match response {
                Response::LocalBlock(Some(block)) => {
                    self.rest(Stage::Reverting);
                    Request::RevertBlock(block)
                },
                Response::LocalBlock(None) => {
                    self.rest(Stage::RevertRemote { sub });
                    Request::BlockByHash(sub.hash)
                },
                other => self.reject(&other),
            },
            Stage::RevertRemote { sub } => match response {
                Response::Block(block) => {
                    self.rest(Stage::Reverting);
                    Request::RevertBlock(block)
                },
                other => self.reject(&other),
            },
            Stage::Reverting => match response {
                Response::Done => self.restart(),
                other => self.reject(&other),
            },
            Stage::SkippingGap => match response {
                Response::Done => self.read_events(),
                other => self.reject(&other),
            },
            Stage::ReadingEvents => match response {
                Response::Events(events) => self.deliver_first(events),
                other => self.reject(&other),
            },
            Stage::Delivering => match response {
                Response::Delivered(_) => self.deliver_next(),
                Response::Failed => self.deliver_next(),
                other => self.reject(&other),
            },
            Stage::Committing => match response {
                Response::Done => self.committed(),
                other => self.reject(&other),
            },
            _ => Request::Stop,
        }
    }
}

} // verus!
