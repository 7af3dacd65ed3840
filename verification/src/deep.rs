//! The advance deep below the head.
//!
//! Deeper than the reorg threshold the chain itself names the blocks that
//! hold events for the subgraph. The walker loads them, and then takes them
//! one by one: where the pointer does not stand on a block's parent it is
//! moved there first, across blocks without events of interest; then the
//! block is handled and the pointer is set onto it. This module proves that
//! the whole of it is an advance through the found blocks, in order.

use crate::block::Block;
use crate::block::BlockPointer;
use crate::filter::ChainEventView;
use crate::indexing::lemma_block_is_indexed;
use crate::indexing::lemma_one_more;
use crate::indexing::lemma_store_splits;
use crate::indexing::store_after;
use crate::indexing::Mappings;
use crate::indexing::written_for;
use crate::store::advanced_through;
use crate::store::Segment;
use crate::store::StoreView;
use crate::traces::committing;
use crate::traces::handles_block;
use crate::traces::lemma_block_is_delivered_in_order;
use crate::traces::lemma_walk_splits;
use crate::traces::plain;
use crate::traces::state_after;
use crate::traces::Input;
use crate::walker::next;
use crate::walker::Request;
use crate::walker::ResponseView;
use crate::walker::Stage;
use crate::walker::WalkerView;
use vstd::prelude::*;

verus! {

/// What happened with one of the found blocks: the block as it was loaded,
/// from the store where `cached` and else from the chain, its events, and
/// the answers of its handling: the events, then the results of their
/// deliveries.
pub struct FoundBlock {
    pub block: Block,
    pub cached: bool,
    pub events: Seq<ChainEventView>,
    pub handling: Seq<Input>,
}

/// The answers that load one block.
pub open spec fn load_answer(step: FoundBlock) -> Seq<Input> {
    if step.cached {
        seq![plain(ResponseView::LocalBlock(Some(step.block)))]
    } else {
        seq![plain(ResponseView::LocalBlock(None)), plain(ResponseView::Block(step.block))]
    }
}

/// The answers that load all the blocks, in order.
pub open spec fn load_answers(steps: Seq<FoundBlock>) -> Seq<Input>
    decreases steps.len(),
{
    if steps.len() == 0 {
        Seq::empty()
    } else {
        load_answers(steps.drop_last()) + load_answer(steps.last())
    }
}

/// The blocks, in order.
pub open spec fn blocks_of(steps: Seq<FoundBlock>) -> Seq<Block> {
    Seq::new(steps.len(), |i: int| steps[i].block)
}

/// Where the pointer stands when the walker turns to the block at `i`: at
/// `sub` for the first block, and on the block before for every other.
pub open spec fn stands_before(sub: BlockPointer, steps: Seq<FoundBlock>, i: int) -> BlockPointer {
    if i <= 0 {
        sub
    } else {
        steps[i - 1].block.spec_pointer()
    }
}

/// Whether blocks lie between the pointer and the block at `i`.
pub open spec fn has_gap(sub: BlockPointer, steps: Seq<FoundBlock>, i: int) -> bool {
    !stands_before(sub, steps, i).same_block(steps[i].block.spec_parent_pointer())
}

/// The answers that take the walker through the block at `i`: the store's
/// word that it moved the pointer across the gap, where there is one, the
/// handling of the block, and the store's word that it set the pointer onto
/// the block.
pub open spec fn block_answers(sub: BlockPointer, steps: Seq<FoundBlock>, i: int) -> Seq<Input> {
    (if has_gap(sub, steps, i) {
        seq![plain(ResponseView::Done)]
    } else {
        Seq::empty()
    }) + steps[i].handling + seq![plain(ResponseView::Done)]
}

/// The answers that take the walker through the first `count` blocks.
pub open spec fn walk_answers(sub: BlockPointer, steps: Seq<FoundBlock>, count: int) -> Seq<Input>
    decreases count,
{
    if count <= 0 {
        Seq::empty()
    } else {
        walk_answers(sub, steps, count - 1) + block_answers(sub, steps, count - 1)
    }
}

/// The answers of the whole advance: the found blocks, their loading, and
/// the walk through them, where the subgraph stands at `sub`.
pub open spec fn deep_answers(
    sub: BlockPointer,
    found: Seq<BlockPointer>,
    steps: Seq<FoundBlock>,
) -> Seq<Input> {
    seq![plain(ResponseView::Found(found))] + load_answers(steps) + walk_answers(
        sub,
        steps,
        steps.len() as int,
    )
}

/// The blocks with what the mappings wrote for their events.
pub open spec fn segments_of(steps: Seq<FoundBlock>, hosts: usize, mappings: Mappings) -> Seq<
    Segment,
> {
    Seq::new(
        steps.len(),
        |i: int|
            Segment {
                block: steps[i].block,
                mutations: written_for(steps[i].events, hosts, mappings),
            },
    )
}

/// Whether every block has a parent, and the answers of its handling are
/// its events followed by one delivery result for each event and host.
pub open spec fn well_found(steps: Seq<FoundBlock>, hosts: usize) -> bool {
    forall|i: int|
        0 <= i < steps.len() ==> {
            &&& (#[trigger] steps[i]).block.number > 0
            &&& steps[i].events.len() <= usize::MAX
            &&& handles_block(steps[i].handling, steps[i].events, hosts as int)
        }
}

/// The walker while it loads, with `blocks` loaded so far.
pub open spec fn loading(
    walker: WalkerView,
    sub: BlockPointer,
    found: Seq<BlockPointer>,
    blocks: Seq<Block>,
) -> WalkerView {
    WalkerView {
        stage: Stage::LoadingLocal { sub },
        pending: found,
        blocks,
        ..walker.resting(Stage::Idle)
    }
}

/// The walker when it has turned to the block at `cursor`.
pub open spec fn entered(walker: WalkerView, blocks: Seq<Block>, cursor: int, gap: bool) -> WalkerView {
    WalkerView {
        stage: if gap {
            Stage::SkippingGap
        } else {
            Stage::ReadingEvents
        },
        blocks,
        cursor: cursor as usize,
        ..walker.resting(Stage::Idle)
    }
}

/// The store when the walker has turned to a block: moved onto the block's
/// parent where there was a gap.
pub open spec fn entering(store: StoreView, block: Block, gap: bool) -> StoreView {
    if gap {
        store.moved(block.spec_parent_pointer())
    } else {
        store
    }
}

proof fn lemma_load_one(
    store: StoreView,
    walker: WalkerView,
    sub: BlockPointer,
    found: Seq<BlockPointer>,
    blocks: Seq<Block>,
    step: FoundBlock,
    mappings: Mappings,
)
    requires
        blocks.len() + 1 < found.len(),
    ensures
        state_after(loading(walker, sub, found, blocks), load_answer(step)) == loading(
            walker,
            sub,
            found,
            blocks.push(step.block),
        ),
        store_after(store, loading(walker, sub, found, blocks), load_answer(step), mappings)
            == store,
{
    let from = loading(walker, sub, found, blocks);
    let to = loading(walker, sub, found, blocks.push(step.block));
    let none = Seq::<Input>::empty();
    if step.cached {
        let a = plain(ResponseView::LocalBlock(Some(step.block)));
        assert(load_answer(step) =~= none.push(a));
        let first = next(from, false, a.response);
        assert(first.0 =~= to);
        assert(first.1 is LocalBlock);
        lemma_one_more(store, from, none, a, mappings);
    } else {
        let a = plain(ResponseView::LocalBlock(None));
        let b = plain(ResponseView::Block(step.block));
        assert(load_answer(step) =~= none.push(a).push(b));
        let first = next(from, false, a.response);
        assert(first.0 == (WalkerView { stage: Stage::LoadingRemote { sub }, ..from }));
        assert(first.1 is BlockByHash);
        let second = next(first.0, false, b.response);
        assert(second.0 =~= to);
        assert(second.1 is LocalBlock);
        lemma_one_more(store, from, none, a, mappings);
        lemma_one_more(store, from, none.push(a), b, mappings);
    }
}

proof fn lemma_load_last(
    store: StoreView,
    walker: WalkerView,
    sub: BlockPointer,
    found: Seq<BlockPointer>,
    blocks: Seq<Block>,
    step: FoundBlock,
    mappings: Mappings,
)
    requires
        blocks.len() + 1 == found.len(),
        blocks.push(step.block)[0].number > 0,
        store.current() == sub,
    ensures
        ({
            let all = blocks.push(step.block);
            let gap = !sub.same_block(all[0].spec_parent_pointer());
            &&& state_after(loading(walker, sub, found, blocks), load_answer(step)) == entered(
                walker,
                all,
                0,
                gap,
            )
            &&& store_after(
                store,
                loading(walker, sub, found, blocks),
                load_answer(step),
                mappings,
            ) == entering(store, all[0], gap)
        }),
{
    let from = loading(walker, sub, found, blocks);
    let all = blocks.push(step.block);
    let gap = !sub.same_block(all[0].spec_parent_pointer());
    let to = entered(walker, all, 0, gap);
    let none = Seq::<Input>::empty();
    let complete = WalkerView { blocks: all, ..from.resting(Stage::Idle) };
    assert(complete.advance(sub, 0).0 =~= to);
    assert(from.loaded(sub, step.block) == complete.advance(sub, 0));
    if step.cached {
        let a = plain(ResponseView::LocalBlock(Some(step.block)));
        assert(load_answer(step) =~= none.push(a));
        let first = next(from, false, a.response);
        assert(first == from.loaded(sub, step.block));
        lemma_one_more(store, from, none, a, mappings);
    } else {
        let a = plain(ResponseView::LocalBlock(None));
        let b = plain(ResponseView::Block(step.block));
        assert(load_answer(step) =~= none.push(a).push(b));
        let first = next(from, false, a.response);
        assert(first.0 == (WalkerView { stage: Stage::LoadingRemote { sub }, ..from }));
        assert(first.1 is BlockByHash);
        let second = next(first.0, false, b.response);
        assert(first.0.loaded(sub, step.block) == complete.advance(sub, 0));
        assert(second == first.0.loaded(sub, step.block));
        lemma_one_more(store, from, none, a, mappings);
        lemma_one_more(store, from, none.push(a), b, mappings);
    }
}

proof fn lemma_loads(
    store: StoreView,
    walker: WalkerView,
    sub: BlockPointer,
    found: Seq<BlockPointer>,
    steps: Seq<FoundBlock>,
    count: int,
    mappings: Mappings,
)
    requires
        0 <= count < steps.len(),
        steps.len() == found.len(),
    ensures
        state_after(
            loading(walker, sub, found, Seq::empty()),
            load_answers(steps.take(count)),
        ) == loading(walker, sub, found, blocks_of(steps).take(count)),
        store_after(
            store,
            loading(walker, sub, found, Seq::empty()),
            load_answers(steps.take(count)),
            mappings,
        ) == store,
    decreases count,
{
    let start = loading(walker, sub, found, Seq::empty());
    if count == 0 {
        assert(steps.take(0) =~= Seq::<FoundBlock>::empty());
        assert(blocks_of(steps).take(0) =~= Seq::<Block>::empty());
    } else {
        lemma_loads(store, walker, sub, found, steps, count - 1, mappings);
        let upto = steps.take(count);
        assert(upto.drop_last() =~= steps.take(count - 1));
        assert(upto.last() == steps[count - 1]);
        let earlier = load_answers(steps.take(count - 1));
        let one = load_answer(steps[count - 1]);
        let blocks = blocks_of(steps).take(count - 1);
        lemma_load_one(store, walker, sub, found, blocks, steps[count - 1], mappings);
        lemma_walk_splits(start, earlier, one);
        lemma_store_splits(store, start, earlier, one, mappings);
        assert(blocks.push(steps[count - 1].block) =~= blocks_of(steps).take(count));
    }
}

proof fn lemma_all_loaded(
    store: StoreView,
    walker: WalkerView,
    sub: BlockPointer,
    found: Seq<BlockPointer>,
    steps: Seq<FoundBlock>,
    mappings: Mappings,
)
    requires
        steps.len() == found.len(),
        steps.len() > 0,
        steps[0].block.number > 0,
        store.current() == sub,
    ensures
        state_after(loading(walker, sub, found, Seq::empty()), load_answers(steps)) == entered(
            walker,
            blocks_of(steps),
            0,
            has_gap(sub, steps, 0),
        ),
        store_after(store, loading(walker, sub, found, Seq::empty()), load_answers(steps), mappings)
            == entering(store, steps[0].block, has_gap(sub, steps, 0)),
{
    let start = loading(walker, sub, found, Seq::empty());
    let count = steps.len() - 1;
    lemma_loads(store, walker, sub, found, steps, count, mappings);
    assert(steps.drop_last() =~= steps.take(count));
    let earlier = load_answers(steps.take(count));
    let one = load_answer(steps.last());
    let blocks = blocks_of(steps).take(count);
    assert(blocks.push(steps.last().block) =~= blocks_of(steps));
    lemma_load_last(store, walker, sub, found, blocks, steps.last(), mappings);
    lemma_walk_splits(start, earlier, one);
    lemma_store_splits(store, start, earlier, one, mappings);
}

proof fn lemma_through_one(
    store: StoreView,
    walker: WalkerView,
    blocks: Seq<Block>,
    cursor: int,
    gap: bool,
    step: FoundBlock,
    mappings: Mappings,
)
    requires
        0 <= cursor < blocks.len() <= usize::MAX,
        blocks[cursor] == step.block,
        step.block.number > 0,
        step.events.len() <= usize::MAX,
        handles_block(step.handling, step.events, walker.settings.hosts as int),
        store.current().same_block(step.block.spec_parent_pointer()),
        cursor + 1 < blocks.len() ==> blocks[cursor + 1].number > 0,
    ensures
        ({
            let answers = (if gap {
                seq![plain(ResponseView::Done)]
            } else {
                Seq::empty()
            }) + step.handling + seq![plain(ResponseView::Done)];
            let indexed = store.advanced(
                step.block,
                written_for(step.events, walker.settings.hosts, mappings),
            );
            let from = entered(walker, blocks, cursor, gap);
            if cursor + 1 < blocks.len() {
                let next_gap = !step.block.spec_pointer().same_block(
                    blocks[cursor + 1].spec_parent_pointer(),
                );
                &&& state_after(from, answers) == entered(walker, blocks, cursor + 1, next_gap)
                &&& store_after(store, from, answers, mappings) == entering(
                    indexed,
                    blocks[cursor + 1],
                    next_gap,
                )
            } else {
                &&& state_after(from, answers) == walker.resting(Stage::ReadingHead)
                &&& store_after(store, from, answers, mappings) == indexed
            }
        }),
{
    let from = entered(walker, blocks, cursor, gap);
    let reading = entered(walker, blocks, cursor, false);
    let skip: Seq<Input> = if gap {
        seq![plain(ResponseView::Done)]
    } else {
        Seq::empty()
    };
    let done = plain(ResponseView::Done);
    let none = Seq::<Input>::empty();
    assert(state_after(from, skip) == reading && store_after(store, from, skip, mappings)
        == store) by {
        if gap {
            assert(skip =~= none.push(done));
            let first = next(from, false, done.response);
            assert(first.0 =~= reading);
            assert(first.1 is EventsInBlock);
            lemma_one_more(store, from, none, done, mappings);
        }
    }
    assert(reading.wf());
    assert(reading.block() == step.block);
    lemma_block_is_delivered_in_order(reading, step.handling, step.events);
    lemma_block_is_indexed(store, reading, step.handling, step.events, mappings);
    lemma_walk_splits(from, skip, step.handling);
    lemma_store_splits(store, from, skip, step.handling, mappings);
    let waiting = committing(reading, step.events);
    let indexed = store.advanced(
        step.block,
        written_for(step.events, walker.settings.hosts, mappings),
    );
    assert(state_after(from, skip + step.handling) == waiting);
    assert(store_after(store, from, skip + step.handling, mappings) == indexed);
    lemma_one_more(store, from, skip + step.handling, done, mappings);
    assert(skip + step.handling + seq![done] =~= (skip + step.handling).push(done));
    let last = next(waiting, false, done.response);
    assert(last == waiting.committed());
    if cursor + 1 < blocks.len() {
        let next_gap = !step.block.spec_pointer().same_block(
            blocks[cursor + 1].spec_parent_pointer(),
        );
        assert(last.0 =~= entered(walker, blocks, cursor + 1, next_gap));
        assert(indexed.current() == step.block.spec_pointer());
    } else {
        assert(last.0 =~= walker.resting(Stage::ReadingHead));
        assert(last.1 == Request::ReadHead);
    }
}

proof fn lemma_segments_take(
    store: StoreView,
    steps: Seq<FoundBlock>,
    hosts: usize,
    mappings: Mappings,
    count: int,
)
    requires
        0 <= count < steps.len(),
    ensures
        advanced_through(store, segments_of(steps, hosts, mappings).take(count + 1))
            == advanced_through(store, segments_of(steps, hosts, mappings).take(count)).advanced(
            steps[count].block,
            written_for(steps[count].events, hosts, mappings),
        ),
        count > 0 ==> advanced_through(
            store,
            segments_of(steps, hosts, mappings).take(count),
        ).current() == steps[count - 1].block.spec_pointer(),
        count == 0 ==> advanced_through(store, segments_of(steps, hosts, mappings).take(count))
            == store,
{
    let segments = segments_of(steps, hosts, mappings);
    assert(segments.take(count + 1).drop_last() =~= segments.take(count));
    assert(segments.take(count + 1).last() == segments[count]);
    if count > 0 {
        assert(segments.take(count).drop_last() =~= segments.take(count - 1));
        assert(segments.take(count).last() == segments[count - 1]);
    }
}

proof fn lemma_through(
    store: StoreView,
    walker: WalkerView,
    sub: BlockPointer,
    steps: Seq<FoundBlock>,
    count: int,
    mappings: Mappings,
)
    requires
        0 <= count <= steps.len() <= usize::MAX,
        steps.len() > 0,
        well_found(steps, walker.settings.hosts),
        store.current() == sub,
    ensures
        ({
            let blocks = blocks_of(steps);
            let hosts = walker.settings.hosts;
            let start = entered(walker, blocks, 0, has_gap(sub, steps, 0));
            let before = entering(store, steps[0].block, has_gap(sub, steps, 0));
            let indexed = advanced_through(store, segments_of(steps, hosts, mappings).take(count));
            let answers = walk_answers(sub, steps, count);
            if count < steps.len() {
                &&& state_after(start, answers) == entered(
                    walker,
                    blocks,
                    count,
                    has_gap(sub, steps, count),
                )
                &&& store_after(before, start, answers, mappings) == entering(
                    indexed,
                    steps[count].block,
                    has_gap(sub, steps, count),
                )
            } else {
                &&& state_after(start, answers) == walker.resting(Stage::ReadingHead)
                &&& store_after(before, start, answers, mappings) == indexed
            }
        }),
    decreases count,
{
    let blocks = blocks_of(steps);
    let hosts = walker.settings.hosts;
    let start = entered(walker, blocks, 0, has_gap(sub, steps, 0));
    let before = entering(store, steps[0].block, has_gap(sub, steps, 0));
    if count == 0 {
        lemma_segments_take(store, steps, hosts, mappings, 0);
    } else {
        let at = count - 1;
        lemma_through(store, walker, sub, steps, at, mappings);
        lemma_segments_take(store, steps, hosts, mappings, at);
        let earlier = walk_answers(sub, steps, at);
        let one = block_answers(sub, steps, at);
        let gap = has_gap(sub, steps, at);
        let indexed = advanced_through(store, segments_of(steps, hosts, mappings).take(at));
        let standing = entering(indexed, steps[at].block, gap);
        assert(indexed.current() == stands_before(sub, steps, at));
        assert(standing.current().same_block(steps[at].block.spec_parent_pointer()));
        assert(steps[at].block.number > 0);
        if at + 1 < steps.len() {
            assert(steps[at + 1].block.number > 0);
        }
        lemma_through_one(standing, walker, blocks, at, gap, steps[at], mappings);
        lemma_walk_splits(start, earlier, one);
        lemma_store_splits(before, start, earlier, one, mappings);
        assert(standing.advanced(
            steps[at].block,
            written_for(steps[at].events, hosts, mappings),
        ) == indexed.advanced(steps[at].block, written_for(steps[at].events, hosts, mappings)));
    }
}

/// The advance deep below the head is an advance through the found blocks.
/// Take a walker that has asked the chain for the first blocks with events,
/// and a store that stands where the walker takes the subgraph to stand.
/// Let the chain name one block or more, and let the answers that follow
/// load each of them, from the store or the chain, and then take the walker
/// through each in order. Then the store has been advanced through each of
/// the blocks in order: it holds what the mappings wrote for the events of
/// each, and its pointer stands on the last. The pointer moves over the
/// blocks between two of them without a change to any entity, and the
/// walker ends about to read the head again.
pub proof fn lemma_deep_advance(
    store: StoreView,
    walker: WalkerView,
    head: BlockPointer,
    found: Seq<BlockPointer>,
    steps: Seq<FoundBlock>,
    mappings: Mappings,
)
    requires
        walker.stage == (Stage::FindingBlocks { head, sub: store.current() }),
        found.len() == steps.len(),
        0 < steps.len() <= usize::MAX,
        well_found(steps, walker.settings.hosts),
    ensures
        ({
            let answers = deep_answers(store.current(), found, steps);
            &&& state_after(walker, answers) == walker.resting(Stage::ReadingHead)
            &&& store_after(store, walker, answers, mappings) == advanced_through(
                store,
                segments_of(steps, walker.settings.hosts, mappings),
            )
        }),
{
    let sub = store.current();
    let hosts = walker.settings.hosts;
    let first = plain(ResponseView::Found(found));
    let none = Seq::<Input>::empty();
    let start = loading(walker, sub, found, Seq::empty());
    assert(seq![first] =~= none.push(first));
    lemma_one_more(store, walker, none, first, mappings);
    let opened = next(walker, false, first.response);
    assert(opened.0 =~= start);
    assert(opened.1 is LocalBlock);
    assert(state_after(walker, seq![first]) == start);
    assert(store_after(store, walker, seq![first], mappings) == store);
    lemma_all_loaded(store, walker, sub, found, steps, mappings);
    let loads = load_answers(steps);
    lemma_walk_splits(walker, seq![first], loads);
    lemma_store_splits(store, walker, seq![first], loads, mappings);
    let turned = entered(walker, blocks_of(steps), 0, has_gap(sub, steps, 0));
    let before = entering(store, steps[0].block, has_gap(sub, steps, 0));
    lemma_through(store, walker, sub, steps, steps.len() as int, mappings);
    let walk = walk_answers(sub, steps, steps.len() as int);
    lemma_walk_splits(walker, seq![first] + loads, walk);
    lemma_store_splits(store, walker, seq![first] + loads, walk, mappings);
    assert(segments_of(steps, hosts, mappings).take(steps.len() as int) =~= segments_of(
        steps,
        hosts,
        mappings,
    ));
    assert(start.resting(Stage::Idle) == walker.resting(Stage::Idle));
}

} // verus!
