//! Whole rounds of a walk, and what a reorganization comes to.
//!
//! Between two readings of the head the walker makes one round: it reads
//! both pointers, chooses a direction, and moves the pointer one step. This
//! module names the rounds, says what answers make up each, and proves what
//! each does to the store. From that follows what a run of rounds does, and
//! that a subgraph which was indexed along a branch that the chain
//! abandoned ends up as if it had been indexed along the adopted branch
//! from the start.

use crate::block::Block;
use crate::block::BlockPointer;
use crate::filter::ChainEventView;
use crate::indexing::block_writes;
use crate::deep::deep_answers;
use crate::deep::lemma_deep_advance;
use crate::deep::segments_of;
use crate::deep::well_found;
use crate::deep::FoundBlock;
use crate::indexing::lemma_block_is_indexed;
use crate::indexing::lemma_one_more;
use crate::indexing::lemma_opening;
use crate::indexing::lemma_store_splits;
use crate::indexing::store_after;
use crate::indexing::written_for;
use crate::indexing::Mappings;
use crate::store::advanced_through;
use crate::store::extends;
use crate::store::lemma_advance_joins;
use crate::store::lemma_reorg_rebuilds;
use crate::store::reverted_through;
use crate::store::MutationView;
use crate::store::Segment;
use crate::store::StoreView;
use crate::traces::handles_block;
use crate::traces::lemma_block_is_delivered_in_order;
use crate::traces::lemma_walk_splits;
use crate::traces::plain;
use crate::traces::state_after;
use crate::traces::Input;
use crate::walker::next;
use crate::walker::ResponseView;
use crate::walker::Stage;
use crate::walker::WalkerView;
use vstd::prelude::*;

verus! {

/// One round of a walk, by the answers that the walker got in it.
pub enum Round {
    /// Near the head, forward: the head's ancestor one above the pointer
    /// was `block`, a child of the pointer's block. Its events were
    /// `events`, and `handling` holds them and the results of their
    /// deliveries.
    Advance { head: BlockPointer, block: Block, events: Seq<ChainEventView>, handling: Seq<Input> },
    /// Near the head, back: the head's ancestor one above the pointer was
    /// `candidate`, no child of the pointer's block. The pointer's block
    /// came back as `block`, from the store where `cached`, else from the
    /// chain.
    Revert { head: BlockPointer, candidate: Block, block: Block, cached: bool },
    /// Deep below the head, back: the chain said that the pointer's block
    /// was uncled. The block came back as `block`, from the store where
    /// `cached`, else from the chain.
    DeepRevert { head: BlockPointer, block: Block, cached: bool },
    /// Deep below the head, forward with nothing to handle: the chain
    /// found no block with events, and gave `target` for the end of the
    /// range.
    FastForward { head: BlockPointer, target: Block },
    /// Deep below the head, forward: the chain found the blocks `found`
    /// with events, and `steps` tells for each how it was loaded and
    /// handled.
    DeepAdvance { head: BlockPointer, found: Seq<BlockPointer>, steps: Seq<FoundBlock> },
}

/// The answers that fetch the block to revert, and the store's word that
/// it reverted it.
pub open spec fn revert_answers(block: Block, cached: bool) -> Seq<Input> {
    if cached {
        seq![plain(ResponseView::LocalBlock(Some(block))), plain(ResponseView::Done)]
    } else {
        seq![
            plain(ResponseView::LocalBlock(None)),
            plain(ResponseView::Block(block)),
            plain(ResponseView::Done),
        ]
    }
}

impl Round {
    /// The head that the round read.
    pub open spec fn head(self) -> BlockPointer {
        match self {
            Round::Advance { head, .. } => head,
            Round::Revert { head, .. } => head,
            Round::DeepRevert { head, .. } => head,
            Round::FastForward { head, .. } => head,
            Round::DeepAdvance { head, .. } => head,
        }
    }

    /// The answers of the round, in order, where `store` is the store at
    /// the start of the round.
    pub open spec fn inputs(self, store: StoreView) -> Seq<Input> {
        let opening = seq![
            plain(ResponseView::Head(Some(self.head()))),
            plain(ResponseView::Pointer(store.pointer)),
        ];
        match self {
            Round::Advance { block, handling, .. } => opening + seq![
                plain(ResponseView::LocalBlock(Some(block))),
            ] + handling + seq![plain(ResponseView::Done)],
            Round::Revert { candidate, block, cached, .. } => opening + seq![
                plain(ResponseView::LocalBlock(Some(candidate))),
            ] + revert_answers(block, cached),
            Round::DeepRevert { block, cached, .. } => opening + seq![
                plain(ResponseView::OnMainChain(false)),
            ] + revert_answers(block, cached),
            Round::FastForward { target, .. } => opening + seq![
                plain(ResponseView::OnMainChain(true)),
                plain(ResponseView::Found(Seq::empty())),
                plain(ResponseView::Block(target)),
                plain(ResponseView::Done),
            ],
            Round::DeepAdvance { found, steps, .. } => opening + seq![
                plain(ResponseView::OnMainChain(true)),
            ] + deep_answers(store.current(), found, steps),
        }
    }

    /// Whether the round is one that a walker with this threshold and this
    /// many hosts makes when the subgraph stands at `sub`: the distance to
    /// the head calls for the round's mode, and the answers are of the kind
    /// that the round says.
    pub open spec fn fits(self, sub: BlockPointer, threshold: u64, hosts: usize) -> bool {
        match self {
            Round::Advance { head, block, events, handling } => {
                &&& sub.number < head.number <= sub.number + threshold
                &&& block.number > 0
                &&& block.is_child_of(sub)
                &&& events.len() <= usize::MAX
                &&& handles_block(handling, events, hosts as int)
            },
            Round::Revert { head, candidate, block, .. } => {
                &&& sub.number < head.number <= sub.number + threshold
                &&& !candidate.is_child_of(sub)
                &&& block.number > 0
            },
            Round::DeepRevert { head, block, .. } => {
                &&& head.number > sub.number + threshold
                &&& block.number > 0
            },
            Round::FastForward { head, .. } => head.number > sub.number + threshold,
            Round::DeepAdvance { head, found, steps } => {
                &&& head.number > sub.number + threshold
                &&& found.len() == steps.len()
                &&& 0 < steps.len() <= usize::MAX
                &&& well_found(steps, hosts)
            },
        }
    }

    /// What the round does to the store.
    pub open spec fn effect(self, store: StoreView, hosts: usize, mappings: Mappings) -> StoreView {
        match self {
            Round::Advance { block, events, .. } => store.advanced(
                block,
                written_for(events, hosts, mappings),
            ),
            Round::Revert { block, .. } => store.reverted(block),
            Round::DeepRevert { block, .. } => store.reverted(block),
            Round::FastForward { target, .. } => store.moved(target.spec_pointer()),
            Round::DeepAdvance { steps, .. } => advanced_through(
                store,
                segments_of(steps, hosts, mappings),
            ),
        }
    }

    /// The blocks that the round indexes, each with what the mappings
    /// wrote for its events; none for a round that does not handle a block.
    pub open spec fn segments(self, hosts: usize, mappings: Mappings) -> Seq<Segment> {
        match self {
            Round::Advance { block, events, .. } => seq![
                Segment { block, mutations: written_for(events, hosts, mappings) },
            ],
            Round::DeepAdvance { steps, .. } => segments_of(steps, hosts, mappings),
            _ => Seq::empty(),
        }
    }
}

proof fn lemma_reverting_cached(
    store: StoreView,
    walker: WalkerView,
    sub: BlockPointer,
    block: Block,
    mappings: Mappings,
)
    requires
        walker.stage == (Stage::RevertLocal { sub }),
        block.number > 0,
    ensures
        state_after(walker, revert_answers(block, true)) == walker.resting(Stage::ReadingHead),
        store_after(store, walker, revert_answers(block, true), mappings) == store.reverted(block),
{
    let none = Seq::<Input>::empty();
    let a = plain(ResponseView::LocalBlock(Some(block)));
    let b = plain(ResponseView::Done);
    assert(revert_answers(block, true) =~= none.push(a).push(b));
    let first = next(walker, false, a.response);
    assert(first == (
        walker.resting(Stage::Reverting),
        crate::walker::Request::RevertBlock(block),
    ));
    let second = next(first.0, false, b.response);
    assert(second == (walker.resting(Stage::ReadingHead), crate::walker::Request::ReadHead));
    lemma_one_more(store, walker, none, a, mappings);
    lemma_one_more(store, walker, none.push(a), b, mappings);
}

proof fn lemma_reverting_fetched(
    store: StoreView,
    walker: WalkerView,
    sub: BlockPointer,
    block: Block,
    mappings: Mappings,
)
    requires
        walker.stage == (Stage::RevertLocal { sub }),
        block.number > 0,
    ensures
        state_after(walker, revert_answers(block, false)) == walker.resting(Stage::ReadingHead),
        store_after(store, walker, revert_answers(block, false), mappings) == store.reverted(
            block,
        ),
{
    let none = Seq::<Input>::empty();
    let a = plain(ResponseView::LocalBlock(None));
    let b = plain(ResponseView::Block(block));
    let c = plain(ResponseView::Done);
    assert(revert_answers(block, false) =~= none.push(a).push(b).push(c));
    let first = next(walker, false, a.response);
    assert(first == (
        walker.resting(Stage::RevertRemote { sub }),
        crate::walker::Request::BlockByHash(sub.hash),
    ));
    let second = next(first.0, false, b.response);
    assert(second == (
        walker.resting(Stage::Reverting),
        crate::walker::Request::RevertBlock(block),
    ));
    let third = next(second.0, false, c.response);
    assert(third == (walker.resting(Stage::ReadingHead), crate::walker::Request::ReadHead));
    lemma_one_more(store, walker, none, a, mappings);
    lemma_one_more(store, walker, none.push(a), b, mappings);
    lemma_one_more(store, walker, none.push(a).push(b), c, mappings);
}

proof fn lemma_reverting(
    store: StoreView,
    walker: WalkerView,
    sub: BlockPointer,
    block: Block,
    cached: bool,
    mappings: Mappings,
)
    requires
        walker.stage == (Stage::RevertLocal { sub }),
        block.number > 0,
    ensures
        state_after(walker, revert_answers(block, cached)) == walker.resting(Stage::ReadingHead),
        store_after(store, walker, revert_answers(block, cached), mappings) == store.reverted(
            block,
        ),
{
    if cached {
        lemma_reverting_cached(store, walker, sub, block, mappings);
    } else {
        lemma_reverting_fetched(store, walker, sub, block, mappings);
    }
}

proof fn lemma_advance_round(
    store: StoreView,
    walker: WalkerView,
    head: BlockPointer,
    block: Block,
    events: Seq<ChainEventView>,
    handling: Seq<Input>,
    mappings: Mappings,
)
    requires
        walker.wf(),
        walker.stage is ReadingHead,
        store.origin == walker.settings.origin,
        (Round::Advance { head, block, events, handling }).fits(
            store.current(),
            walker.settings.reorg_threshold,
            walker.settings.hosts,
        ),
    ensures
        state_after(
            walker,
            (Round::Advance { head, block, events, handling }).inputs(store),
        ) == walker.resting(Stage::ReadingHead),
        store_after(
            store,
            walker,
            (Round::Advance { head, block, events, handling }).inputs(store),
            mappings,
        ) == store.advanced(block, written_for(events, walker.settings.hosts, mappings)),
{
    let round = Round::Advance { head, block, events, handling };
    let opening = seq![
        plain(ResponseView::Head(Some(head))),
        plain(ResponseView::Pointer(store.pointer)),
    ];
    let third = ResponseView::LocalBlock(Some(block));
    lemma_opening(store, walker, head, third, mappings);
    let start = opening + seq![plain(third)];
    let reading = state_after(walker, start);
    let decided = walker.decide(head, store.current()).0;
    assert(decided.stage == (Stage::FindingAncestor { head, sub: store.current() }));
    assert(reading == next(decided, false, third).0);
    assert(reading.stage is ReadingEvents && reading.blocks == seq![block] && reading.cursor == 0
        && reading.settings == walker.settings) by {
        crate::traces::lemma_near_step(decided, head, store.current(), block);
        assert(next(decided, false, third).0.cursor == 0);
        assert(next(decided, false, third).0.settings == walker.settings);
    }
    assert(store_after(store, walker, start, mappings) == store);
    assert(reading.block() == block);
    assert(reading.wf());
    lemma_block_is_delivered_in_order(reading, handling, events);
    lemma_block_is_indexed(store, reading, handling, events, mappings);
    lemma_walk_splits(walker, start, handling);
    lemma_store_splits(store, walker, start, handling, mappings);
    let done = plain(ResponseView::Done);
    lemma_one_more(store, walker, start + handling, done, mappings);
    assert(round.inputs(store) =~= (start + handling).push(done));
    let waiting = state_after(walker, start + handling);
    assert(waiting == crate::traces::committing(reading, events));
    assert(next(waiting, false, ResponseView::Done) == (
        walker.resting(Stage::ReadingHead),
        crate::walker::Request::ReadHead,
    )) by {
        assert(waiting.blocks.len() == 1);
        assert(waiting.cursor == 0);
        assert(waiting.resting(Stage::ReadingHead) == walker.resting(Stage::ReadingHead));
    }
}

proof fn lemma_revert_tail(
    store: StoreView,
    walker: WalkerView,
    start: Seq<Input>,
    sub: BlockPointer,
    block: Block,
    cached: bool,
    mappings: Mappings,
)
    requires
        state_after(walker, start) == walker.resting(Stage::RevertLocal { sub }),
        store_after(store, walker, start, mappings) == store,
        block.number > 0,
    ensures
        state_after(walker, start + revert_answers(block, cached)) == walker.resting(
            Stage::ReadingHead,
        ),
        store_after(store, walker, start + revert_answers(block, cached), mappings)
            == store.reverted(block),
{
    let stepping = state_after(walker, start);
    lemma_reverting(store, stepping, sub, block, cached, mappings);
    lemma_walk_splits(walker, start, revert_answers(block, cached));
    lemma_store_splits(store, walker, start, revert_answers(block, cached), mappings);
    assert(stepping.resting(Stage::ReadingHead) == walker.resting(Stage::ReadingHead));
}

proof fn lemma_revert_round(
    store: StoreView,
    walker: WalkerView,
    head: BlockPointer,
    candidate: Block,
    block: Block,
    cached: bool,
    mappings: Mappings,
)
    requires
        walker.stage is ReadingHead,
        store.origin == walker.settings.origin,
        (Round::Revert { head, candidate, block, cached }).fits(
            store.current(),
            walker.settings.reorg_threshold,
            walker.settings.hosts,
        ),
    ensures
        state_after(
            walker,
            (Round::Revert { head, candidate, block, cached }).inputs(store),
        ) == walker.resting(Stage::ReadingHead),
        store_after(
            store,
            walker,
            (Round::Revert { head, candidate, block, cached }).inputs(store),
            mappings,
        ) == store.reverted(block),
{
    let sub = store.current();
    let third = ResponseView::LocalBlock(Some(candidate));
    let start = seq![
        plain(ResponseView::Head(Some(head))),
        plain(ResponseView::Pointer(store.pointer)),
    ] + seq![plain(third)];
    assert(state_after(walker, start) == walker.resting(Stage::RevertLocal { sub })
        && store_after(store, walker, start, mappings) == store) by {
        lemma_opening(store, walker, head, third, mappings);
        let decided = walker.decide(head, sub).0;
        assert(decided == walker.resting(Stage::FindingAncestor { head, sub }));
        assert(next(decided, false, third) == decided.step_back(sub));
    }
    lemma_revert_tail(store, walker, start, sub, block, cached, mappings);
}

proof fn lemma_deep_revert_round(
    store: StoreView,
    walker: WalkerView,
    head: BlockPointer,
    block: Block,
    cached: bool,
    mappings: Mappings,
)
    requires
        walker.stage is ReadingHead,
        store.origin == walker.settings.origin,
        (Round::DeepRevert { head, block, cached }).fits(
            store.current(),
            walker.settings.reorg_threshold,
            walker.settings.hosts,
        ),
    ensures
        state_after(walker, (Round::DeepRevert { head, block, cached }).inputs(store))
            == walker.resting(Stage::ReadingHead),
        store_after(
            store,
            walker,
            (Round::DeepRevert { head, block, cached }).inputs(store),
            mappings,
        ) == store.reverted(block),
{
    let sub = store.current();
    let third = ResponseView::OnMainChain(false);
    let start = seq![
        plain(ResponseView::Head(Some(head))),
        plain(ResponseView::Pointer(store.pointer)),
    ] + seq![plain(third)];
    assert(state_after(walker, start) == walker.resting(Stage::RevertLocal { sub })
        && store_after(store, walker, start, mappings) == store) by {
        lemma_opening(store, walker, head, third, mappings);
        let decided = walker.decide(head, sub).0;
        assert(decided == walker.resting(Stage::CheckingMainChain { head, sub }));
        assert(next(decided, false, third) == decided.step_back(sub));
    }
    lemma_revert_tail(store, walker, start, sub, block, cached, mappings);
}

proof fn lemma_fast_forward_round(
    store: StoreView,
    walker: WalkerView,
    head: BlockPointer,
    target: Block,
    mappings: Mappings,
)
    requires
        walker.stage is ReadingHead,
        store.origin == walker.settings.origin,
        head.number > store.current().number + walker.settings.reorg_threshold,
    ensures
        state_after(walker, (Round::FastForward { head, target }).inputs(store))
            == walker.resting(Stage::ReadingHead),
        store_after(
            store,
            walker,
            (Round::FastForward { head, target }).inputs(store),
            mappings,
        ) == store.moved(target.spec_pointer()),
{
    let round = Round::FastForward { head, target };
    let opening = seq![
        plain(ResponseView::Head(Some(head))),
        plain(ResponseView::Pointer(store.pointer)),
    ];
    let third = ResponseView::OnMainChain(true);
    lemma_opening(store, walker, head, third, mappings);
    let start = opening + seq![plain(third)];
    let a = plain(ResponseView::Found(Seq::empty()));
    let b = plain(ResponseView::Block(target));
    let c = plain(ResponseView::Done);
    assert(store_after(store, walker, start, mappings) == store);
    lemma_one_more(store, walker, start, a, mappings);
    lemma_one_more(store, walker, start.push(a), b, mappings);
    lemma_one_more(store, walker, start.push(a).push(b), c, mappings);
    assert(round.inputs(store) =~= start.push(a).push(b).push(c));
}

proof fn lemma_deep_advance_round(
    store: StoreView,
    walker: WalkerView,
    head: BlockPointer,
    found: Seq<BlockPointer>,
    steps: Seq<FoundBlock>,
    mappings: Mappings,
)
    requires
        walker.stage is ReadingHead,
        store.origin == walker.settings.origin,
        (Round::DeepAdvance { head, found, steps }).fits(
            store.current(),
            walker.settings.reorg_threshold,
            walker.settings.hosts,
        ),
    ensures
        state_after(walker, (Round::DeepAdvance { head, found, steps }).inputs(store))
            == walker.resting(Stage::ReadingHead),
        store_after(
            store,
            walker,
            (Round::DeepAdvance { head, found, steps }).inputs(store),
            mappings,
        ) == advanced_through(store, segments_of(steps, walker.settings.hosts, mappings)),
{
    let sub = store.current();
    let third = ResponseView::OnMainChain(true);
    let start = seq![
        plain(ResponseView::Head(Some(head))),
        plain(ResponseView::Pointer(store.pointer)),
    ] + seq![plain(third)];
    let finding = walker.resting(Stage::FindingBlocks { head, sub });
    assert(state_after(walker, start) == finding && store_after(store, walker, start, mappings)
        == store) by {
        lemma_opening(store, walker, head, third, mappings);
        let decided = walker.decide(head, sub).0;
        assert(decided == walker.resting(Stage::CheckingMainChain { head, sub }));
        assert(next(decided, false, third).0 == finding);
        assert(next(decided, false, third).1 is FindBlocks);
    }
    let answers = deep_answers(sub, found, steps);
    lemma_deep_advance(store, finding, head, found, steps, mappings);
    lemma_walk_splits(walker, start, answers);
    lemma_store_splits(store, walker, start, answers, mappings);
    assert(finding.resting(Stage::ReadingHead) == walker.resting(Stage::ReadingHead));
}

/// A round does to the store what its kind says, and leaves the walker
/// about to read the head again. Take a walker that waits for the head, and
/// a store whose origin is the walker's. After the answers of a round that
/// fits where the store stands, an advance has committed what the mappings
/// wrote for the block's events and set the pointer onto the block; a
/// revert, near the head or deep below it, has reverted the block; a
/// fast-forward has moved the pointer onto the target and changed no
/// entity; an advance deep below the head has advanced the store through
/// each of the found blocks in order.
pub proof fn lemma_round(store: StoreView, walker: WalkerView, round: Round, mappings: Mappings)
    requires
        walker.wf(),
        walker.stage is ReadingHead,
        store.origin == walker.settings.origin,
        round.fits(store.current(), walker.settings.reorg_threshold, walker.settings.hosts),
    ensures
        state_after(walker, round.inputs(store)) == walker.resting(Stage::ReadingHead),
        store_after(store, walker, round.inputs(store), mappings) == round.effect(
            store,
            walker.settings.hosts,
            mappings,
        ),
{
    match round {
        Round::Advance { head, block, events, handling } => {
            lemma_advance_round(store, walker, head, block, events, handling, mappings);
        },
        Round::Revert { head, candidate, block, cached } => {
            lemma_revert_round(store, walker, head, candidate, block, cached, mappings);
        },
        Round::DeepRevert { head, block, cached } => {
            lemma_deep_revert_round(store, walker, head, block, cached, mappings);
        },
        Round::FastForward { head, target } => {
            lemma_fast_forward_round(store, walker, head, target, mappings);
        },
        Round::DeepAdvance { head, found, steps } => {
            lemma_deep_advance_round(store, walker, head, found, steps, mappings);
        },
    }
}

/// The store after `rounds`, each taking effect on what the one before
/// left.
pub open spec fn after_rounds(
    store: StoreView,
    rounds: Seq<Round>,
    hosts: usize,
    mappings: Mappings,
) -> StoreView
    decreases rounds.len(),
{
    if rounds.len() == 0 {
        store
    } else {
        rounds.last().effect(
            after_rounds(store, rounds.drop_last(), hosts, mappings),
            hosts,
            mappings,
        )
    }
}

/// Whether each of `rounds` fits where the rounds before it left the store.
pub open spec fn rounds_fit(
    store: StoreView,
    rounds: Seq<Round>,
    threshold: u64,
    hosts: usize,
    mappings: Mappings,
) -> bool
    decreases rounds.len(),
{
    rounds.len() == 0 || {
        &&& rounds_fit(store, rounds.drop_last(), threshold, hosts, mappings)
        &&& rounds.last().fits(
            after_rounds(store, rounds.drop_last(), hosts, mappings).current(),
            threshold,
            hosts,
        )
    }
}

/// The answers of `rounds`, one round after the other, each round reading
/// the pointer that the rounds before it left.
pub open spec fn rounds_inputs(
    store: StoreView,
    rounds: Seq<Round>,
    hosts: usize,
    mappings: Mappings,
) -> Seq<Input>
    decreases rounds.len(),
{
    if rounds.len() == 0 {
        Seq::empty()
    } else {
        rounds_inputs(store, rounds.drop_last(), hosts, mappings) + rounds.last().inputs(
            after_rounds(store, rounds.drop_last(), hosts, mappings),
        )
    }
}

proof fn lemma_origin_stays(store: StoreView, rounds: Seq<Round>, hosts: usize, mappings: Mappings)
    ensures
        after_rounds(store, rounds, hosts, mappings).origin == store.origin,
    decreases rounds.len(),
{
    if rounds.len() > 0 {
        lemma_origin_stays(store, rounds.drop_last(), hosts, mappings);
        lemma_tip_origin(
            after_rounds(store, rounds.drop_last(), hosts, mappings),
            rounds.last().segments(hosts, mappings),
        );
    }
}

/// A walk is the sum of its rounds. Take a walker that waits for the head
/// and a store whose origin is the walker's. After the answers of any
/// number of rounds, each fitting where the store then stands, the store is
/// what the effects of the rounds, one after the other, make of it, and the
/// walker is about to read the head again.
pub proof fn lemma_rounds(
    store: StoreView,
    walker: WalkerView,
    rounds: Seq<Round>,
    mappings: Mappings,
)
    requires
        walker.wf(),
        walker.stage is ReadingHead,
        store.origin == walker.settings.origin,
        rounds_fit(
            store,
            rounds,
            walker.settings.reorg_threshold,
            walker.settings.hosts,
            mappings,
        ),
    ensures
        store_after(
            store,
            walker,
            rounds_inputs(store, rounds, walker.settings.hosts, mappings),
            mappings,
        ) == after_rounds(store, rounds, walker.settings.hosts, mappings),
        state_after(walker, rounds_inputs(store, rounds, walker.settings.hosts, mappings)).stage
            is ReadingHead,
        rounds.len() > 0 ==> state_after(
            walker,
            rounds_inputs(store, rounds, walker.settings.hosts, mappings),
        ) == walker.resting(Stage::ReadingHead),
    decreases rounds.len(),
{
    let hosts = walker.settings.hosts;
    if rounds.len() > 0 {
        let earlier = rounds.drop_last();
        lemma_rounds(store, walker, earlier, mappings);
        lemma_origin_stays(store, earlier, hosts, mappings);
        let first = rounds_inputs(store, earlier, hosts, mappings);
        let between = after_rounds(store, earlier, hosts, mappings);
        let waiting = state_after(walker, first);
        let second = rounds.last().inputs(between);
        assert(waiting.wf() && waiting.settings == walker.settings) by {
            if earlier.len() == 0 {
                assert(first =~= Seq::<Input>::empty());
            }
        }
        lemma_round(between, waiting, rounds.last(), mappings);
        lemma_walk_splits(walker, first, second);
        lemma_store_splits(store, walker, first, second, mappings);
        assert(waiting.resting(Stage::ReadingHead) == walker.resting(Stage::ReadingHead));
    }
}

/// Whether `rounds` revert the blocks of `branch`, from its tip down, one
/// block a round.
pub open spec fn undoes(rounds: Seq<Round>, branch: Seq<Segment>) -> bool {
    &&& rounds.len() == branch.len()
    &&& forall|i: int|
        0 <= i < rounds.len() ==> match #[trigger] rounds[i] {
            Round::Revert { block, .. } => block == branch[branch.len() - 1 - i].block,
            Round::DeepRevert { block, .. } => block == branch[branch.len() - 1 - i].block,
            _ => false,
        }
}

/// The blocks that `rounds` index, in order, each with what the mappings
/// wrote for its events.
pub open spec fn indexed_by(rounds: Seq<Round>, hosts: usize, mappings: Mappings) -> Seq<Segment>
    decreases rounds.len(),
{
    if rounds.len() == 0 {
        Seq::empty()
    } else {
        indexed_by(rounds.drop_last(), hosts, mappings) + rounds.last().segments(hosts, mappings)
    }
}

/// Whether `rounds` advance through the blocks of `branch`, from its foot
/// up: each round is an advance, near the head or deep below it, and the
/// blocks that the rounds index, with what the mappings wrote for their
/// events, are those of `branch`.
pub open spec fn indexes(
    rounds: Seq<Round>,
    branch: Seq<Segment>,
    hosts: usize,
    mappings: Mappings,
) -> bool {
    &&& forall|i: int|
        0 <= i < rounds.len() ==> (#[trigger] rounds[i]) is Advance || rounds[i] is DeepAdvance
    &&& indexed_by(rounds, hosts, mappings) == branch
}

proof fn lemma_rounds_join(
    store: StoreView,
    first: Seq<Round>,
    second: Seq<Round>,
    hosts: usize,
    mappings: Mappings,
)
    ensures
        after_rounds(store, first + second, hosts, mappings) == after_rounds(
            after_rounds(store, first, hosts, mappings),
            second,
            hosts,
            mappings,
        ),
    decreases second.len(),
{
    if second.len() == 0 {
        assert(first + second =~= first);
    } else {
        lemma_rounds_join(store, first, second.drop_last(), hosts, mappings);
        assert((first + second).drop_last() =~= first + second.drop_last());
        assert((first + second).last() == second.last());
    }
}

proof fn lemma_undoing(
    store: StoreView,
    rounds: Seq<Round>,
    branch: Seq<Segment>,
    hosts: usize,
    mappings: Mappings,
)
    requires
        undoes(rounds, branch),
    ensures
        after_rounds(store, rounds, hosts, mappings) == reverted_through(store, branch),
    decreases rounds.len(),
{
    if rounds.len() > 0 {
        let tip = branch.last();
        let lower = branch.drop_last();
        let later = rounds.drop_first();
        assert(rounds[0] is Revert || rounds[0] is DeepRevert);
        assert(rounds[0].effect(store, hosts, mappings) == store.reverted(tip.block));
        assert forall|i: int| 0 <= i < later.len() implies match #[trigger] later[i] {
            Round::Revert { block, .. } => block == lower[lower.len() - 1 - i].block,
            Round::DeepRevert { block, .. } => block == lower[lower.len() - 1 - i].block,
            _ => false,
        } by {
            assert(later[i] == rounds[i + 1]);
            assert(lower[lower.len() - 1 - i] == branch[branch.len() - 1 - (i + 1)]);
        }
        lemma_undoing(store.reverted(tip.block), later, lower, hosts, mappings);
        assert(rounds =~= seq![rounds[0]] + later);
        lemma_rounds_join(store, seq![rounds[0]], later, hosts, mappings);
        let one = seq![rounds[0]];
        assert(one.drop_last() =~= Seq::<Round>::empty());
        assert(one.last() == rounds[0]);
        assert(after_rounds(store, one.drop_last(), hosts, mappings) == store);
        assert(after_rounds(store, one, hosts, mappings) == store.reverted(
            tip.block,
        ));
    }
}

proof fn lemma_indexing(store: StoreView, rounds: Seq<Round>, hosts: usize, mappings: Mappings)
    requires
        forall|i: int|
            0 <= i < rounds.len() ==> (#[trigger] rounds[i]) is Advance || rounds[i] is DeepAdvance,
    ensures
        after_rounds(store, rounds, hosts, mappings) == advanced_through(
            store,
            indexed_by(rounds, hosts, mappings),
        ),
    decreases rounds.len(),
{
    if rounds.len() > 0 {
        let earlier = rounds.drop_last();
        assert forall|i: int| 0 <= i < earlier.len() implies (#[trigger] earlier[i]) is Advance
            || earlier[i] is DeepAdvance by {
            assert(earlier[i] == rounds[i]);
        }
        lemma_indexing(store, earlier, hosts, mappings);
        let last = rounds.last();
        assert(last == rounds[rounds.len() - 1]);
        let before = indexed_by(earlier, hosts, mappings);
        lemma_advance_joins(store, before, last.segments(hosts, mappings));
        let between = advanced_through(store, before);
        if last is Advance {
            let one = last.segments(hosts, mappings);
            assert(one.drop_last() =~= Seq::<Segment>::empty());
            assert(advanced_through(between, one.drop_last()) == between);
        }
    }
}

/// A reorganization is reconciled. Let the subgraph be indexed along a
/// branch that the chain then abandons, on top of the store as it was at
/// the common ancestor of that branch and the adopted one. Let the walker
/// make its rounds: first one revert for each block of the abandoned
/// branch, from the tip down, then advances through the blocks of the
/// adopted branch, from the foot up. Then the store is exactly what
/// indexing the adopted branch from the common ancestor gives: its
/// entities are the fold of the mappings' writes over the adopted branch,
/// and its pointer stands on that branch's tip.
pub proof fn lemma_reorg_is_reconciled(
    ancestor: StoreView,
    walker: WalkerView,
    abandoned: Seq<Segment>,
    adopted: Seq<Segment>,
    back: Seq<Round>,
    forth: Seq<Round>,
    mappings: Mappings,
)
    requires
        walker.wf(),
        walker.stage is ReadingHead,
        ancestor.origin == walker.settings.origin,
        extends(ancestor, abandoned),
        undoes(back, abandoned),
        indexes(forth, adopted, walker.settings.hosts, mappings),
        rounds_fit(
            advanced_through(ancestor, abandoned),
            back + forth,
            walker.settings.reorg_threshold,
            walker.settings.hosts,
            mappings,
        ),
    ensures
        store_after(
            advanced_through(ancestor, abandoned),
            walker,
            rounds_inputs(
                advanced_through(ancestor, abandoned),
                back + forth,
                walker.settings.hosts,
                mappings,
            ),
            mappings,
        ) == advanced_through(ancestor, adopted),
{
    let hosts = walker.settings.hosts;
    let tip = advanced_through(ancestor, abandoned);
    lemma_tip_origin(ancestor, abandoned);
    lemma_rounds(tip, walker, back + forth, mappings);
    lemma_rounds_join(tip, back, forth, hosts, mappings);
    lemma_undoing(tip, back, abandoned, hosts, mappings);
    lemma_indexing(reverted_through(tip, abandoned), forth, hosts, mappings);
    lemma_reorg_rebuilds(ancestor, abandoned, adopted);
}

proof fn lemma_tip_origin(store: StoreView, branch: Seq<Segment>)
    ensures
        advanced_through(store, branch).origin == store.origin,
    decreases branch.len(),
{
    if branch.len() > 0 {
        lemma_tip_origin(store, branch.drop_last());
    }
}

} // verus!
