//! Walks as sequences of steps, and what holds of every walk.
//!
//! A walk is determined by the walker it starts from and the inputs that its
//! caller hands in, one per step. The theorems here speak of the requests
//! that come out.

use crate::block::Block;
use crate::block::BlockPointer;
use crate::filter::selects;
use crate::filter::ChainEventView;
use crate::filter::Selector;
use crate::walker::halted;
use crate::walker::next;
use crate::walker::Request;
use crate::walker::ResponseView;
use crate::walker::Stage;
use crate::walker::WalkerView;
use vstd::prelude::*;

verus! {

/// What one step takes: the cancellation flag as read at the step, and the
/// answer to the pending request.
pub struct Input {
    pub cancelled: bool,
    pub response: ResponseView,
}

/// An answer handed in with no cancellation seen.
pub open spec fn plain(response: ResponseView) -> Input {
    Input { cancelled: false, response }
}

/// The walker after it has taken all of `inputs`, in order.
pub open spec fn state_after(walker: WalkerView, inputs: Seq<Input>) -> WalkerView
    decreases inputs.len(),
{
    if inputs.len() == 0 {
        walker
    } else {
        next(
            state_after(walker, inputs.drop_last()),
            inputs.last().cancelled,
            inputs.last().response,
        ).0
    }
}

/// The request that the walker makes at step `i` of the walk, that is, on
/// taking `inputs[i]` after all the inputs before it.
pub open spec fn request_at(walker: WalkerView, inputs: Seq<Input>, i: int) -> Request {
    next(state_after(walker, inputs.take(i)), inputs[i].cancelled, inputs[i].response).1
}

/// An input that hands in the verdict of a host, or the failure to get one,
/// with no cancellation seen.
pub open spec fn is_delivery_result(input: Input) -> bool {
    !input.cancelled && (input.response is Delivered || input.response is Failed)
}

/// A step keeps a well-formed walker well-formed.
pub proof fn lemma_step_keeps_wf(walker: WalkerView, cancelled: bool, response: ResponseView)
    requires
        walker.wf(),
    ensures
        next(walker, cancelled, response).0.wf(),
{
}

/// Every state of a walk that starts well-formed is well-formed.
pub proof fn lemma_walk_keeps_wf(walker: WalkerView, inputs: Seq<Input>)
    requires
        walker.wf(),
    ensures
        state_after(walker, inputs).wf(),
    decreases inputs.len(),
{
    if inputs.len() > 0 {
        lemma_walk_keeps_wf(walker, inputs.drop_last());
        lemma_step_keeps_wf(
            state_after(walker, inputs.drop_last()),
            inputs.last().cancelled,
            inputs.last().response,
        );
    }
}

/// With both pointers read, the distance between them decides the step. A
/// pointer level with the head or beyond it ends the walk with no request. A
/// pointer more than the threshold below the head has the chain asked
/// whether its block is on the main chain. A pointer below the head by the
/// threshold exactly, or by less, is near the head: the store is asked for
/// the head's ancestor one above the pointer.
pub proof fn lemma_distance_decides(walker: WalkerView, head: BlockPointer, sub: BlockPointer)
    requires
        walker.stage == (Stage::ReadingPointer { head }),
    ensures
        sub.number >= head.number ==> next(walker, false, ResponseView::Pointer(Some(sub))) == (
            walker.resting(Stage::CaughtUp),
            Request::Stop,
        ),
        sub.number < head.number && head.number - sub.number <= walker.settings.reorg_threshold
            ==> next(walker, false, ResponseView::Pointer(Some(sub))) == (
            walker.resting(Stage::FindingAncestor { head, sub }),
            Request::AncestorBlock { head, offset: (head.number - sub.number - 1) as u64 },
        ),
        head.number - sub.number > walker.settings.reorg_threshold ==> next(
            walker,
            false,
            ResponseView::Pointer(Some(sub)),
        ) == (
            walker.resting(Stage::CheckingMainChain { head, sub }),
            Request::IsOnMainChain(sub),
        ),
{
}

/// Deep below the head the chain decides the direction. A pointer whose
/// block is on the main chain goes forward: the chain is asked for the first
/// blocks with events from the number after the pointer up to the head's
/// number less the threshold. A pointer whose block was uncled goes back:
/// its block is fetched, from the store first, to be reverted.
pub proof fn lemma_deep_step(walker: WalkerView, head: BlockPointer, sub: BlockPointer)
    requires
        walker.wf(),
        walker.stage == (Stage::CheckingMainChain { head, sub }),
    ensures
        next(walker, false, ResponseView::OnMainChain(true)).1 == (Request::FindBlocks {
            first: (sub.number + 1) as u64,
            last: (head.number - walker.settings.reorg_threshold) as u64,
        }),
        sub.number + 1 <= head.number - walker.settings.reorg_threshold,
        next(walker, false, ResponseView::OnMainChain(false)).1 == Request::LocalBlock(sub.hash),
        next(walker, false, ResponseView::OnMainChain(false)).0.stage == (Stage::RevertLocal {
            sub,
        }),
{
}

/// Near the head the ancestry of the head decides the direction. Where the
/// head's ancestor one above the pointer is a child of the pointer's block,
/// the walker advances through that one block, and with no gap to skip: it
/// asks for the block's events at once. Where it is not, the pointer's
/// block is not on the chain that leads to the head, and is fetched, from
/// the store first, to be reverted. Where the store no longer holds the
/// ancestor, the walk starts over.
pub proof fn lemma_near_step(
    walker: WalkerView,
    head: BlockPointer,
    sub: BlockPointer,
    candidate: Block,
)
    requires
        walker.stage == (Stage::FindingAncestor { head, sub }),
        candidate.number > 0,
    ensures
        candidate.is_child_of(sub) ==> {
            let (reading, request) = next(
                walker,
                false,
                ResponseView::LocalBlock(Some(candidate)),
            );
            &&& request == Request::EventsInBlock(candidate)
            &&& reading.stage is ReadingEvents
            &&& reading.blocks == seq![candidate]
            &&& reading.block() == candidate
        },
        !candidate.is_child_of(sub) ==> next(
            walker,
            false,
            ResponseView::LocalBlock(Some(candidate)),
        ) == (walker.resting(Stage::RevertLocal { sub }), Request::LocalBlock(sub.hash)),
        next(walker, false, ResponseView::LocalBlock(None)) == (
            walker.resting(Stage::ReadingHead),
            Request::ReadHead,
        ),
{
}

/// A block to revert is looked up in the store first and asked of the chain
/// only where the store does not hold it; either way the block that comes
/// back is the one handed to the store to revert, after which the walk
/// starts over.
pub proof fn lemma_revert_step(walker: WalkerView, sub: BlockPointer, block: Block)
    requires
        walker.stage == (Stage::RevertLocal { sub }),
    ensures
        next(walker, false, ResponseView::LocalBlock(Some(block))).1 == Request::RevertBlock(
            block,
        ),
        ({
            let (remote, asked) = next(walker, false, ResponseView::LocalBlock(None));
            let (reverting, revert) = next(remote, false, ResponseView::Block(block));
            &&& asked == Request::BlockByHash(sub.hash)
            &&& revert == Request::RevertBlock(block)
            &&& next(reverting, false, ResponseView::Done).1 == Request::ReadHead
        }),
{
}

/// Where the chain finds no block with events in the range, the pointer
/// still moves to the end of the range: the walker asks for the block whose
/// number is the head's less the threshold, then has the pointer moved from
/// where it stood onto that block, and goes back to the top.
pub proof fn lemma_empty_range_fast_forwards(
    walker: WalkerView,
    head: BlockPointer,
    sub: BlockPointer,
    target: Block,
)
    requires
        walker.wf(),
        walker.stage == (Stage::FindingBlocks { head, sub }),
    ensures
        ({
            let (asked, first) = next(walker, false, ResponseView::Found(Seq::empty()));
            let (moving, second) = next(asked, false, ResponseView::Block(target));
            let (again, third) = next(moving, false, ResponseView::Done);
            &&& first == Request::BlockByNumber(
                (head.number - walker.settings.reorg_threshold) as u64,
            )
            &&& second == (Request::MovePointer { from: sub, to: target.spec_pointer() })
            &&& third == Request::ReadHead
            &&& again.stage == Stage::ReadingHead
        }),
{
}

/// The pointer is moved for three reasons only, and a step that asks for a
/// move tells which by the stage it leaves the walker in. Fast-forwarding:
/// the chain found no block with events in the range, and the pointer goes
/// from where it stood to the block that the chain gave for the end of the
/// range. Skipping a gap: the pointer goes to the parent of the block in
/// hand, which it did not stand on. Committing: the pointer goes from the
/// parent of the block in hand onto that block, and this step either took
/// the result of the block's last delivery, or took the block's events and
/// found no event or no host to deliver to.
pub proof fn lemma_every_move_is_accounted_for(walker: WalkerView, response: ResponseView)
    requires
        walker.wf(),
        next(walker, false, response).1 is MovePointer,
    ensures
        ({
            let (after, request) = next(walker, false, response);
            let from = request->MovePointer_from;
            let to = request->MovePointer_to;
            ||| {
                &&& after.stage is FastForwarding
                &&& walker.stage is ResolvingTarget
                &&& response is Block
                &&& from == walker.stage->ResolvingTarget_sub
                &&& to == response->Block_0.spec_pointer()
            }
            ||| {
                &&& after.stage is SkippingGap
                &&& to == after.block().spec_parent_pointer()
                &&& !from.same_block(to)
            }
            ||| {
                &&& after.stage is Committing
                &&& from == after.block().spec_parent_pointer()
                &&& to == after.block().spec_pointer()
                &&& after.block() == walker.block()
                &&& {
                    ||| {
                        &&& walker.stage is Delivering
                        &&& walker.event + 1 == walker.events.len()
                        &&& walker.host + 1 == walker.settings.hosts
                    }
                    ||| {
                        &&& walker.stage is ReadingEvents
                        &&& response is Events
                        &&& (response->Events_0.len() == 0 || walker.settings.hosts == 0)
                    }
                }
            }
        }),
{
}

/// A block is handed to the store to be reverted only as the answer to the
/// walker's question for the block that the pointer stands on.
pub proof fn lemma_every_revert_is_accounted_for(walker: WalkerView, response: ResponseView)
    requires
        next(walker, false, response).1 is RevertBlock,
    ensures
        ({
            let block = next(walker, false, response).1->RevertBlock_0;
            ||| walker.stage is RevertLocal && response == ResponseView::LocalBlock(Some(block))
            ||| walker.stage is RevertRemote && response == ResponseView::Block(block)
        }),
{
}

/// A step that sees cancellation makes no request of the store, the chain
/// or a host, and ends the walk.
pub proof fn lemma_cancellation_stops(walker: WalkerView, response: ResponseView)
    ensures
        next(walker, true, response).1 == Request::Stop,
        halted(next(walker, true, response).0.stage),
{
}

/// A walk that has ended stays ended, whatever it is handed.
pub proof fn lemma_ended_stays_ended(walker: WalkerView, inputs: Seq<Input>)
    requires
        halted(walker.stage),
    ensures
        state_after(walker, inputs) == walker,
    decreases inputs.len(),
{
    if inputs.len() > 0 {
        lemma_ended_stays_ended(walker, inputs.drop_last());
    }
}

/// From the step that sees cancellation on, every request is
/// [`Request::Stop`]: a cancelled walk writes nothing more to the store and
/// delivers nothing more to a host.
pub proof fn lemma_nothing_after_cancellation(
    walker: WalkerView,
    inputs: Seq<Input>,
    seen: int,
    later: int,
)
    requires
        0 <= seen <= later < inputs.len(),
        inputs[seen].cancelled,
    ensures
        request_at(walker, inputs, later) == Request::Stop,
{
    let before = state_after(walker, inputs.take(seen));
    lemma_cancellation_stops(before, inputs[seen].response);
    if seen < later {
        let upto = inputs.take(seen + 1);
        assert(upto.drop_last() =~= inputs.take(seen));
        assert(upto.last() == inputs[seen]);
        let ended = state_after(walker, upto);
        assert(halted(ended.stage));
        let rest = inputs.subrange(seen + 1, later);
        lemma_walk_splits(walker, upto, rest);
        assert(upto + rest =~= inputs.take(later));
        lemma_ended_stays_ended(ended, rest);
    }
}

/// Taking `first` and then `second` is taking their concatenation.
pub proof fn lemma_walk_splits(walker: WalkerView, first: Seq<Input>, second: Seq<Input>)
    ensures
        state_after(walker, first + second) == state_after(
            state_after(walker, first),
            second,
        ),
    decreases second.len(),
{
    if second.len() == 0 {
        assert(first + second =~= first);
    } else {
        lemma_walk_splits(walker, first, second.drop_last());
        assert((first + second).drop_last() =~= first + second.drop_last());
        assert((first + second).last() == second.last());
    }
}

/// Whether every list of events that `inputs` hands in holds only events
/// that `filter` selects, as the chain promises of the events it gives for a
/// filter.
pub open spec fn events_obey(inputs: Seq<Input>, filter: Set<Selector>) -> bool {
    forall|i: int, k: int|
        0 <= i < inputs.len() && inputs[i].response is Events && 0 <= k
            < inputs[i].response->Events_0.len() ==> selects(
            filter,
            #[trigger] inputs[i].response->Events_0[k],
        )
}

/// With the empty filter no event is ever delivered: a walk whose events
/// come from the empty filter asks no host for anything, whatever the head
/// does. What it asks of the store is then to move or revert the pointer
/// only.
pub proof fn lemma_empty_filter_delivers_nothing(walker: WalkerView, inputs: Seq<Input>, i: int)
    requires
        walker.wf(),
        !(walker.stage is Delivering),
        events_obey(inputs, Set::<Selector>::empty()),
        0 <= i < inputs.len(),
    ensures
        !(request_at(walker, inputs, i) is Deliver),
        !(state_after(walker, inputs.take(i + 1)).stage is Delivering),
    decreases i,
{
    let before = state_after(walker, inputs.take(i));
    if i > 0 {
        lemma_empty_filter_delivers_nothing(walker, inputs, i - 1);
    }
    assert(!(before.stage is Delivering));
    lemma_walk_keeps_wf(walker, inputs.take(i));
    if inputs[i].response is Events {
        let events = inputs[i].response->Events_0;
        if events.len() > 0 {
            assert(selects(Set::<Selector>::empty(), events[0]));
        }
    }
    let upto = inputs.take(i + 1);
    assert(upto.drop_last() =~= inputs.take(i));
    assert(upto.last() == inputs[i]);
}

/// The inputs of the handling of one block: its events, then one delivery
/// result for each event and each host.
pub open spec fn handles_block(inputs: Seq<Input>, events: Seq<ChainEventView>, hosts: int) -> bool {
    &&& inputs.len() == 1 + events.len() * hosts
    &&& !inputs[0].cancelled
    &&& inputs[0].response == ResponseView::Events(events)
    &&& forall|j: int| 1 <= j < inputs.len() ==> is_delivery_result(#[trigger] inputs[j])
}

/// The place of the delivery of event `event` to host `host` among the
/// steps that handle one block: all hosts of an event come before the next
/// event.
pub open spec fn delivery_position(event: int, host: int, hosts: int) -> int {
    event * hosts + host
}

proof fn lemma_pair_index(event: int, host: int, events: int, hosts: int)
    requires
        0 <= event < events,
        0 <= host < hosts,
    ensures
        0 <= event * hosts + host < events * hosts,
        (event + 1) * hosts == event * hosts + hosts,
{
    assert(event * hosts + host < events * hosts) by (nonlinear_arith)
        requires
            0 <= event < events,
            0 <= host < hosts,
    ;
    assert(0 <= event * hosts) by (nonlinear_arith)
        requires
            0 <= event,
            0 <= hosts,
    ;
    assert((event + 1) * hosts == event * hosts + hosts) by (nonlinear_arith);
}

/// The walker while it waits for the result of delivering event `event` to
/// host `host`, where `reading` is the walker that asked for the block's
/// events.
pub open spec fn delivering(
    reading: WalkerView,
    events: Seq<ChainEventView>,
    event: int,
    host: int,
) -> WalkerView {
    WalkerView {
        stage: Stage::Delivering,
        events,
        event: event as usize,
        host: host as usize,
        ..reading
    }
}

/// The walker while it waits for the store to move the pointer onto the
/// block in hand, where `reading` is the walker that asked for the block's
/// events.
pub open spec fn committing(reading: WalkerView, events: Seq<ChainEventView>) -> WalkerView {
    WalkerView { stage: Stage::Committing, events, event: 0, host: 0, ..reading }
}

/// While a block is handled, the step at the [`delivery_position`] of an
/// event and a host asks for that delivery and leaves the walker waiting
/// for its result.
pub proof fn lemma_delivery_position(
    walker: WalkerView,
    inputs: Seq<Input>,
    events: Seq<ChainEventView>,
    event: int,
    host: int,
)
    requires
        walker.wf(),
        walker.stage is ReadingEvents,
        handles_block(inputs, events, walker.settings.hosts as int),
        0 <= event < events.len(),
        0 <= host < walker.settings.hosts,
        events.len() <= usize::MAX,
    ensures
        state_after(walker, inputs.take(event * walker.settings.hosts + host + 1)) == delivering(
            walker,
            events,
            event,
            host,
        ),
        request_at(walker, inputs, event * walker.settings.hosts + host) == (Request::Deliver {
            event: event as usize,
            host: host as usize,
        }),
        0 <= event * walker.settings.hosts + host < inputs.len() - 1,
    decreases event, host,
{
    let hosts = walker.settings.hosts as int;
    let k = event * hosts + host;
    lemma_pair_index(event, host, events.len() as int, hosts);
    let upto = inputs.take(k + 1);
    assert(upto.drop_last() =~= inputs.take(k));
    assert(upto.last() == inputs[k]);
    if event == 0 && host == 0 {
        assert(k == 0) by (nonlinear_arith)
            requires
                k == event * hosts + host,
                event == 0,
                host == 0,
        ;
        assert(inputs.take(0) =~= Seq::<Input>::empty());
        assert(state_after(walker, inputs.take(0)) == walker);
        assert(next(walker, false, ResponseView::Events(events)).0 =~= delivering(
            walker,
            events,
            0,
            0,
        ));
    } else if host > 0 {
        lemma_delivery_position(walker, inputs, events, event, host - 1);
        assert(event * hosts + (host - 1) + 1 == k);
        let before = delivering(walker, events, event, host - 1);
        assert(is_delivery_result(inputs[k]));
        assert(next(before, inputs[k].cancelled, inputs[k].response).0 =~= delivering(
            walker,
            events,
            event,
            host,
        ));
    } else {
        lemma_delivery_position(walker, inputs, events, event - 1, hosts - 1);
        lemma_pair_index(event - 1, hosts - 1, events.len() as int, hosts);
        assert((event - 1) * hosts + (hosts - 1) + 1 == k) by (nonlinear_arith)
            requires
                k == event * hosts + host,
                host == 0,
        ;
        let before = delivering(walker, events, event - 1, hosts - 1);
        assert(is_delivery_result(inputs[k]));
        assert(next(before, inputs[k].cancelled, inputs[k].response).0 =~= delivering(
            walker,
            events,
            event,
            host,
        ));
    }
}

/// Within a block nothing is skipped and nothing is reordered. Once the
/// events of the block in hand have come, and while no cancellation is seen,
/// the walker has each event delivered to each host, the events in chain
/// order and, for each event, the hosts in manifest order, whatever the
/// hosts answer; the request at the pair's [`delivery_position`] is that
/// delivery. Only after the last of them does it have the pointer moved
/// from the block's parent onto the block.
pub proof fn lemma_block_is_delivered_in_order(
    walker: WalkerView,
    inputs: Seq<Input>,
    events: Seq<ChainEventView>,
)
    requires
        walker.wf(),
        walker.stage is ReadingEvents,
        handles_block(inputs, events, walker.settings.hosts as int),
        events.len() <= usize::MAX,
    ensures
        forall|event: int, host: int|
            0 <= event < events.len() && 0 <= host < walker.settings.hosts ==> request_at(
                walker,
                inputs,
                #[trigger] delivery_position(event, host, walker.settings.hosts as int),
            ) == (Request::Deliver { event: event as usize, host: host as usize }),
        request_at(walker, inputs, inputs.len() - 1) == (Request::MovePointer {
            from: walker.block().spec_parent_pointer(),
            to: walker.block().spec_pointer(),
        }),
        state_after(walker, inputs) == committing(walker, events),
{
    let hosts = walker.settings.hosts as int;
    let count = events.len() as int;
    assert forall|event: int, host: int| 0 <= event < count && 0 <= host < hosts implies request_at(
        walker,
        inputs,
        #[trigger] delivery_position(event, host, hosts),
    ) == (Request::Deliver { event: event as usize, host: host as usize }) by {
        lemma_delivery_position(walker, inputs, events, event, host);
    }
    let last = inputs.len() - 1;
    assert(inputs.drop_last() =~= inputs.take(last));
    if count == 0 || hosts == 0 {
        assert(count * hosts == 0) by (nonlinear_arith)
            requires
                count == 0 || hosts == 0,
        ;
        assert(inputs.take(0) =~= Seq::<Input>::empty());
        assert(next(walker, false, ResponseView::Events(events)).0 =~= committing(walker, events));
    } else {
        lemma_delivery_position(walker, inputs, events, count - 1, hosts - 1);
        lemma_pair_index(count - 1, hosts - 1, count, hosts);
        assert((count - 1) * hosts + (hosts - 1) + 1 == count * hosts) by (nonlinear_arith);
        assert(is_delivery_result(inputs[last]));
        let before = delivering(walker, events, count - 1, hosts - 1);
        assert(next(before, inputs[last].cancelled, inputs[last].response).0 =~= committing(
            walker,
            events,
        ));
    }
}

} // verus!
