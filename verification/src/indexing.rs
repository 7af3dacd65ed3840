//! What a walk does to the store.
//!
//! The walker asks; its caller acts. This module says what the store looks
//! like after the caller has done what the walker asked, and proves that
//! the handling of one block is an advance through that block: the store
//! ends up with what the hosts' mappings wrote for every event of the
//! block, in delivery order, and with the pointer on the block.

use crate::filter::ChainEventView;
use crate::store::lemma_applied_all;
use crate::store::MutationView;
use crate::store::StoreView;
use crate::filter::Selector;
use crate::traces::delivering;
use crate::traces::events_obey;
use crate::traces::handles_block;
use crate::traces::is_delivery_result;
use crate::traces::lemma_empty_filter_delivers_nothing;
use crate::traces::lemma_nothing_after_cancellation;
use crate::traces::plain;
use crate::block::BlockPointer;
use crate::traces::request_at;
use crate::traces::state_after;
use crate::traces::Input;
use crate::walker::next;
use crate::walker::Request;
use crate::walker::ResponseView;
use crate::walker::WalkerView;
use vstd::prelude::*;

verus! {

/// What the mappings write: `mappings(event, host)` is the list of
/// mutations that the host with index `host` produces from `event`.
pub type Mappings = spec_fn(ChainEventView, int) -> Seq<MutationView>;

/// The store after the caller has performed `request`, which `walker` made
/// on reaching the state given. A delivery commits what the host's mapping
/// writes for the event; a move or a revert is handed to the store, which
/// refuses a move from a pointer it does not stand at and the revert of a
/// block without parent; any other request leaves the store as it is.
pub open spec fn performed(
    store: StoreView,
    walker: WalkerView,
    request: Request,
    mappings: Mappings,
) -> StoreView {
    match request {
        Request::Deliver { event, host } => store.applied_all(
            mappings(walker.events[event as int], host as int),
        ),
        Request::MovePointer { from, to } => if store.current().same_block(from) {
            store.moved(to)
        } else {
            store
        },
        Request::RevertBlock(block) => if block.number > 0 {
            store.reverted(block)
        } else {
            store
        },
        _ => store,
    }
}

/// The store after a walk from `walker` that took `inputs`, each request
/// performed as it was made.
pub open spec fn store_after(
    store: StoreView,
    walker: WalkerView,
    inputs: Seq<Input>,
    mappings: Mappings,
) -> StoreView
    decreases inputs.len(),
{
    if inputs.len() == 0 {
        store
    } else {
        let step = next(
            state_after(walker, inputs.drop_last()),
            inputs.last().cancelled,
            inputs.last().response,
        );
        performed(store_after(store, walker, inputs.drop_last(), mappings), step.0, step.1, mappings)
    }
}

/// Performing the requests of `first` and then those of `second` is
/// performing those of their concatenation.
pub proof fn lemma_store_splits(
    store: StoreView,
    walker: WalkerView,
    first: Seq<Input>,
    second: Seq<Input>,
    mappings: Mappings,
)
    ensures
        store_after(store, walker, first + second, mappings) == store_after(
            store_after(store, walker, first, mappings),
            state_after(walker, first),
            second,
            mappings,
        ),
    decreases second.len(),
{
    if second.len() == 0 {
        assert(first + second =~= first);
    } else {
        lemma_store_splits(store, walker, first, second.drop_last(), mappings);
        crate::traces::lemma_walk_splits(walker, first, second.drop_last());
        assert((first + second).drop_last() =~= first + second.drop_last());
        assert((first + second).last() == second.last());
    }
}

/// One more step: the walker takes the input, and the store has the
/// request performed that the walker then makes.
pub proof fn lemma_one_more(
    store: StoreView,
    walker: WalkerView,
    inputs: Seq<Input>,
    input: Input,
    mappings: Mappings,
)
    ensures
        state_after(walker, inputs.push(input)) == next(
            state_after(walker, inputs),
            input.cancelled,
            input.response,
        ).0,
        store_after(store, walker, inputs.push(input), mappings) == performed(
            store_after(store, walker, inputs, mappings),
            next(state_after(walker, inputs), input.cancelled, input.response).0,
            next(state_after(walker, inputs), input.cancelled, input.response).1,
            mappings,
        ),
{
    assert(inputs.push(input).drop_last() =~= inputs);
}

/// How every round opens. The walker reads the head, then the pointer,
/// and with both decides how to go on; nothing is asked of the store but
/// to read. The store's pointer, or its origin where it holds none, is
/// where the walker takes the subgraph to stand.
pub proof fn lemma_opening(
    store: StoreView,
    walker: WalkerView,
    head: BlockPointer,
    third: ResponseView,
    mappings: Mappings,
)
    requires
        walker.stage is ReadingHead,
        store.origin == walker.settings.origin,
    ensures
        ({
            let opening = seq![
                plain(ResponseView::Head(Some(head))),
                plain(ResponseView::Pointer(store.pointer)),
            ];
            let decided = walker.decide(head, store.current()).0;
            let inputs = opening + seq![plain(third)];
            &&& state_after(walker, opening) == decided
            &&& store_after(store, walker, opening, mappings) == store
            &&& state_after(walker, inputs) == next(decided, false, third).0
            &&& store_after(store, walker, inputs, mappings) == performed(
                store,
                next(decided, false, third).0,
                next(decided, false, third).1,
                mappings,
            )
        }),
{
    let none = Seq::<Input>::empty();
    let a = plain(ResponseView::Head(Some(head)));
    let b = plain(ResponseView::Pointer(store.pointer));
    let opening = seq![a, b];
    assert(opening =~= none.push(a).push(b));
    assert(opening + seq![plain(third)] =~= none.push(a).push(b).push(plain(third)));
    lemma_one_more(store, walker, none, a, mappings);
    lemma_one_more(store, walker, none.push(a), b, mappings);
    lemma_one_more(store, walker, none.push(a).push(b), plain(third), mappings);
}

/// What the first `hosts` hosts write for `event`, in manifest order.
pub open spec fn event_writes(event: ChainEventView, hosts: int, mappings: Mappings) -> Seq<
    MutationView,
>
    decreases hosts,
{
    if hosts <= 0 {
        Seq::empty()
    } else {
        event_writes(event, hosts - 1, mappings) + mappings(event, hosts - 1)
    }
}

/// What all `hosts` hosts write for the first `count` of `events`, event by
/// event in chain order.
pub open spec fn block_writes(
    events: Seq<ChainEventView>,
    count: int,
    hosts: int,
    mappings: Mappings,
) -> Seq<MutationView>
    decreases count,
{
    if count <= 0 {
        Seq::empty()
    } else {
        block_writes(events, count - 1, hosts, mappings) + event_writes(
            events[count - 1],
            hosts,
            mappings,
        )
    }
}

/// What `hosts` hosts write for the events of one block: for each event in
/// chain order, what each host writes in manifest order.
pub open spec fn written_for(events: Seq<ChainEventView>, hosts: usize, mappings: Mappings) -> Seq<
    MutationView,
> {
    if hosts == 0 {
        Seq::empty()
    } else {
        block_writes(events, events.len() as int, hosts as int, mappings)
    }
}

proof fn lemma_store_during_delivery(
    store: StoreView,
    walker: WalkerView,
    inputs: Seq<Input>,
    events: Seq<ChainEventView>,
    mappings: Mappings,
    event: int,
    host: int,
)
    requires
        walker.wf(),
        walker.stage is ReadingEvents,
        handles_block(inputs, events, walker.settings.hosts as int),
        0 <= event < events.len(),
        0 <= host < walker.settings.hosts,
        events.len() <= usize::MAX,
    ensures
        0 <= event * walker.settings.hosts + host < inputs.len() - 1,
        state_after(walker, inputs.take(event * walker.settings.hosts + host + 1)) == delivering(
            walker,
            events,
            event,
            host,
        ),
        store_after(store, walker, inputs.take(event * walker.settings.hosts + host + 1), mappings)
            == (StoreView {
            log: store.log + block_writes(events, event, walker.settings.hosts as int, mappings)
                + event_writes(events[event], host + 1, mappings),
            ..store
        }),
    decreases event, host,
{
    let hosts = walker.settings.hosts as int;
    let k = event * hosts + host;
    crate::traces::lemma_delivery_position(walker, inputs, events, event, host);
    let upto = inputs.take(k + 1);
    assert(upto.drop_last() =~= inputs.take(k));
    assert(upto.last() == inputs[k]);
    let written = mappings(events[event], host);
    let before = store_after(store, walker, inputs.take(k), mappings);
    assert(store_after(store, walker, upto, mappings) == before.applied_all(written));
    lemma_applied_all(before, written);
    if event == 0 && host == 0 {
        assert(k == 0) by (nonlinear_arith)
            requires
                k == event * hosts + host,
                event == 0,
                host == 0,
        ;
        assert(inputs.take(0) =~= Seq::<Input>::empty());
        assert(before == store);
        assert(block_writes(events, 0, hosts, mappings) =~= Seq::<MutationView>::empty());
        assert(event_writes(events[0], 0, mappings) =~= Seq::<MutationView>::empty());
        assert(store.log + written =~= store.log + block_writes(events, 0, hosts, mappings)
            + event_writes(events[0], 1, mappings));
    } else if host > 0 {
        lemma_store_during_delivery(store, walker, inputs, events, mappings, event, host - 1);
        assert(event * hosts + (host - 1) + 1 == k);
        assert(before.log + written =~= store.log + block_writes(events, event, hosts, mappings)
            + event_writes(events[event], host + 1, mappings));
    } else {
        lemma_store_during_delivery(
            store,
            walker,
            inputs,
            events,
            mappings,
            event - 1,
            hosts - 1,
        );
        assert((event - 1) * hosts + (hosts - 1) + 1 == k) by (nonlinear_arith)
            requires
                k == event * hosts + host,
                host == 0,
        ;
        assert(event_writes(events[event], 0, mappings) =~= Seq::<MutationView>::empty());
        assert(before.log + written =~= store.log + block_writes(events, event, hosts, mappings)
            + event_writes(events[event], 1, mappings));
    }
}

/// Handling a block is an advance through it. Take a walker that waits for
/// the events of the block in hand, and a store that stands on the block's
/// parent. Once the events have come and each has been delivered to each
/// host, with no cancellation seen, the store holds, after what it held
/// before, what the mappings wrote for every event of the block, the events
/// in chain order and the hosts in manifest order for each, and its pointer
/// stands on the block.
pub proof fn lemma_block_is_indexed(
    store: StoreView,
    walker: WalkerView,
    inputs: Seq<Input>,
    events: Seq<ChainEventView>,
    mappings: Mappings,
)
    requires
        walker.wf(),
        walker.stage is ReadingEvents,
        handles_block(inputs, events, walker.settings.hosts as int),
        events.len() <= usize::MAX,
        store.current().same_block(walker.block().spec_parent_pointer()),
    ensures
        store_after(store, walker, inputs, mappings) == store.advanced(
            walker.block(),
            if walker.settings.hosts == 0 {
                Seq::empty()
            } else {
                block_writes(events, events.len() as int, walker.settings.hosts as int, mappings)
            },
        ),
{
    let hosts = walker.settings.hosts as int;
    let count = events.len() as int;
    let last = inputs.len() - 1;
    assert(inputs.drop_last() =~= inputs.take(last));
    if count == 0 || hosts == 0 {
        assert(count * hosts == 0) by (nonlinear_arith)
            requires
                count == 0 || hosts == 0,
        ;
        assert(inputs.take(0) =~= Seq::<Input>::empty());
        assert(store_after(store, walker, inputs.take(0), mappings) == store);
        assert(block_writes(events, 0, hosts, mappings) =~= Seq::<MutationView>::empty());
        assert(store.log + Seq::<MutationView>::empty() =~= store.log);
    } else {
        lemma_store_during_delivery(store, walker, inputs, events, mappings, count - 1, hosts - 1);
        assert((count - 1) * hosts + (hosts - 1) + 1 == count * hosts) by (nonlinear_arith);
        assert(is_delivery_result(inputs[last]));
        assert(store.log + block_writes(events, count - 1, hosts, mappings) + event_writes(
            events[count - 1],
            hosts,
            mappings,
        ) =~= store.log + block_writes(events, count, hosts, mappings));
    }
}

/// With the empty filter a walk writes no entity. However the head moves,
/// a walk whose events come from the empty filter commits no mutation: every
/// mutation in force after the walk was in force before it. The pointer may
/// move, and blocks may be reverted.
pub proof fn lemma_empty_filter_writes_nothing(
    store: StoreView,
    walker: WalkerView,
    inputs: Seq<Input>,
    mappings: Mappings,
)
    requires
        walker.wf(),
        !(walker.stage is Delivering),
        events_obey(inputs, Set::<Selector>::empty()),
    ensures
        forall|i: int|
            0 <= i < store_after(store, walker, inputs, mappings).log.len() ==> store.log.contains(
                #[trigger] store_after(store, walker, inputs, mappings).log[i],
            ),
    decreases inputs.len(),
{
    if inputs.len() > 0 {
        let shorter = inputs.drop_last();
        assert(events_obey(shorter, Set::<Selector>::empty())) by {
            assert forall|i: int, k: int|
                0 <= i < shorter.len() && shorter[i].response is Events && 0 <= k
                    < shorter[i].response->Events_0.len() implies crate::filter::selects(
                Set::<Selector>::empty(),
                #[trigger] shorter[i].response->Events_0[k],
            ) by {
                assert(shorter[i] == inputs[i]);
            }
        }
        lemma_empty_filter_writes_nothing(store, walker, shorter, mappings);
        let last = inputs.len() - 1;
        lemma_empty_filter_delivers_nothing(walker, inputs, last);
        assert(inputs.take(last) =~= shorter);
        let before = store_after(store, walker, shorter, mappings);
        let after = store_after(store, walker, inputs, mappings);
        let request = request_at(walker, inputs, last);
        assert(!(request is Deliver));
        assert forall|i: int| 0 <= i < after.log.len() implies store.log.contains(
            #[trigger] after.log[i],
        ) by {
            if request is RevertBlock && request->RevertBlock_0.number > 0 {
                let keep = crate::store::outside_block(request->RevertBlock_0.hash);
                before.log.lemma_filter_contains_rev(keep, after.log[i]);
                let j = choose|j: int| 0 <= j < before.log.len() && before.log[j] == after.log[i];
                assert(store.log.contains(before.log[j]));
            } else {
                assert(after.log == before.log);
                assert(store.log.contains(before.log[i]));
            }
        }
    }
}

/// A walk that sees cancellation at its first step leaves the store as it
/// is, whatever is handed to it afterwards.
pub proof fn lemma_cancelled_walk_leaves_store(
    store: StoreView,
    walker: WalkerView,
    inputs: Seq<Input>,
    mappings: Mappings,
)
    requires
        inputs.len() > 0 ==> inputs[0].cancelled,
    ensures
        store_after(store, walker, inputs, mappings) == store,
    decreases inputs.len(),
{
    if inputs.len() > 0 {
        let shorter = inputs.drop_last();
        if shorter.len() > 0 {
            assert(shorter[0] == inputs[0]);
        }
        lemma_cancelled_walk_leaves_store(store, walker, shorter, mappings);
        let last = inputs.len() - 1;
        lemma_nothing_after_cancellation(walker, inputs, 0, last);
        assert(inputs.take(last) =~= shorter);
    }
}

} // verus!
