//! Chain events and the filters that select them.
//!
//! A filter is a finite set of selectors, each an emitting contract's address
//! paired with the first topic of a log entry. Filters of several hosts are
//! joined by set union, so that one query to the chain serves all of them.

use crate::block::BlockPointer;
use crate::block::Hash256;
use vstd::prelude::*;

verus! {

/// A 160-bit contract address, held as its top 32 and its low 128 bits.
#[derive(Clone, Copy, Debug, PartialEq, Eq, Structural, Hash)]
pub struct Address {
    pub high: u32,
    pub low: u128,
}

/// A topic of a log entry.
pub type Topic = Hash256;

/// One thing a host listens for: logs of `address` whose first topic is
/// `topic`.
#[derive(Clone, Copy, Debug, PartialEq, Eq, Structural, Hash)]
pub struct Selector {
    pub address: Address,
    pub topic: Topic,
}

/// A log entry of the chain, with the block that holds it and its place among
/// that block's logs.
#[derive(Clone, Debug)]
pub struct ChainEvent {
    pub block_ref: BlockPointer,
    pub log_index: u64,
    pub address: Address,
    pub topics: Vec<Topic>,
    pub data: Vec<u8>,
}

/// The mathematical value of a [`ChainEvent`].
pub struct ChainEventView {
    pub block_ref: BlockPointer,
    pub log_index: u64,
    pub address: Address,
    pub topics: Seq<Topic>,
    pub data: Seq<u8>,
}

impl View for ChainEvent {
    type V = ChainEventView;

    open spec fn view(&self) -> ChainEventView {
        ChainEventView {
            block_ref: self.block_ref,
            log_index: self.log_index,
            address: self.address,
            topics: self.topics@,
            data: self.data@,
        }
    }
}

impl ChainEventView {
    /// The selector under which a filter finds this event: its address with
    /// its first topic. An event without topics has none.
    pub open spec fn selector(self) -> Option<Selector> {
        if self.topics.len() > 0 {
            Some(Selector { address: self.address, topic: self.topics[0] })
        } else {
            None
        }
    }
}

/// Whether a filter with the selectors `filter` selects `event`.
pub open spec fn selects(filter: Set<Selector>, event: ChainEventView) -> bool {
    match event.selector() {
        Some(selector) => filter.contains(selector),
        None => false,
    }
}

/// The union of the filters that are present in `filters`; an absent one
/// adds nothing.
pub open spec fn union_of_available(filters: Seq<Option<Set<Selector>>>) -> Set<Selector>
    decreases filters.len(),
{
    if filters.len() == 0 {
        Set::empty()
    } else {
        let rest = union_of_available(filters.drop_last());
        match filters.last() {
            Some(filter) => rest.union(filter),
            None => rest,
        }
    }
}

/// The views of a list of filters of which some may be missing.
pub open spec fn available_views(filters: Seq<Option<EventFilter>>) -> Seq<Option<Set<Selector>>> {
    Seq::new(
        filters.len(),
        |i: int|
            match filters[i] {
                Some(filter) => Some(filter@),
                None => None,
            },
    )
}

/// A finite set of selectors.
pub struct EventFilter {
    selectors: Vec<Selector>,
}

impl View for EventFilter {
    type V = Set<Selector>;

    closed spec fn view(&self) -> Set<Selector> {
        self.selectors@.to_set()
    }
}

impl EventFilter {
    /// The filter that selects nothing.
    pub fn empty() -> (filter: EventFilter)
        ensures
            filter@ == Set::<Selector>::empty(),
    {
        let filter = EventFilter { selectors: Vec::new() };
        assert(filter.selectors@.to_set() =~= Set::<Selector>::empty());
        filter
    }

    /// Whether `selector` is in the filter.
    pub fn contains(&self, selector: Selector) -> (found: bool)
        ensures
            found == self@.contains(selector),
    {
        let mut i: usize = 0;
        while i < self.selectors.len()
            invariant
                i <= self.selectors.len(),
                forall|j: int| 0 <= j < i ==> self.selectors@[j] != selector,
            decreases self.selectors.len() - i,
        {
            if self.selectors[i] == selector {
                return true;
            }
            i += 1;
        }
        false
    }

    /// Whether the filter selects nothing.
    pub fn is_empty(&self) -> (none: bool)
        ensures
            none == (self@ == Set::<Selector>::empty()),
    {
        proof {
            if self.selectors@.len() > 0 {
                assert(self@.contains(self.selectors@[0]));
            } else {
                assert(self@ =~= Set::<Selector>::empty());
            }
        }
        self.selectors.len() == 0
    }

    /// Adds `selector` to the filter.
    pub fn insert(&mut self, selector: Selector)
        ensures
            final(self)@ == old(self)@.insert(selector),
    {
        if !self.contains(selector) {
            proof {
                self.selectors@.lemma_push_to_set_commute(selector);
            }
            self.selectors.push(selector);
        } else {
            assert(self@.insert(selector) =~= self@);
        }
    }

    /// Joins `other` into the filter: afterwards it selects what either
    /// selected before.
    pub fn merge(&mut self, other: &EventFilter)
        ensures
            final(self)@ == old(self)@.union(other@),
    {
        let mut i: usize = 0;
        while i < other.selectors.len()
            invariant
                i <= other.selectors.len(),
                self@ == old(self)@.union(other.selectors@.take(i as int).to_set()),
            decreases other.selectors.len() - i,
        {
            let selector = other.selectors[i];
            proof {
                let before = other.selectors@.take(i as int);
                assert(other.selectors@.take(i + 1) =~= before.push(selector));
                before.lemma_push_to_set_commute(selector);
                assert(old(self)@.union(before.to_set()).insert(selector) =~= old(self)@.union(
                    before.to_set().insert(selector),
                ));
            }
            self.insert(selector);
            i += 1;
        }
        proof {
            assert(other.selectors@.take(i as int) =~= other.selectors@);
        }
    }

    /// Whether the filter selects `event`: the event has a first topic, and
    /// its address with that topic is in the filter.
    pub fn matches(&self, event: &ChainEvent) -> (selected: bool)
        ensures
            selected == selects(self@, event@),
    {
        if event.topics.len() == 0 {
            false
        } else {
            self.contains(Selector { address: event.address, topic: event.topics[0] })
        }
    }

    /// The union of the filters that the hosts of one subgraph gave. A host
    /// whose filter could not be had stands in the list as `None` and adds
    /// nothing to the union.
    pub fn combine(filters: &Vec<Option<EventFilter>>) -> (union: EventFilter)
        ensures
            union@ == union_of_available(available_views(filters@)),
    {
        let mut union = EventFilter::empty();
        let mut i: usize = 0;
        while i < filters.len()
            invariant
                i <= filters.len(),
                union@ == union_of_available(available_views(filters@.take(i as int))),
            decreases filters.len() - i,
        {
            proof {
                let upto = available_views(filters@.take(i + 1));
                assert(upto.drop_last() =~= available_views(filters@.take(i as int)));
            }
            match &filters[i] {
                Some(filter) => {
                    union.merge(filter);
                },
                None => {},
            }
            i += 1;
        }
        proof {
            assert(filters@.take(i as int) =~= filters@);
        }
        union
    }
}

/// The empty filter selects no event.
pub proof fn lemma_empty_selects_nothing(event: ChainEventView)
    ensures
        !selects(Set::<Selector>::empty(), event),
{
}

/// Union is commutative and associative, and the empty filter is its
/// identity.
pub proof fn lemma_union_laws(a: Set<Selector>, b: Set<Selector>, c: Set<Selector>)
    ensures
        a.union(b) == b.union(a),
        a.union(b).union(c) == a.union(b.union(c)),
        a.union(Set::<Selector>::empty()) == a,
        Set::<Selector>::empty().union(a) == a,
{
    assert(a.union(b) =~= b.union(a));
    assert(a.union(b).union(c) =~= a.union(b.union(c)));
    assert(a.union(Set::<Selector>::empty()) =~= a);
    assert(Set::<Selector>::empty().union(a) =~= a);
}

/// A union selects an event exactly when one of its two parts does.
pub proof fn lemma_union_selects(a: Set<Selector>, b: Set<Selector>, event: ChainEventView)
    ensures
        selects(a.union(b), event) == (selects(a, event) || selects(b, event)),
{
}

/// A host's filter that is present is part of the union: whatever it
/// selects, the union selects.
pub proof fn lemma_available_is_included(
    filters: Seq<Option<Set<Selector>>>,
    i: int,
    event: ChainEventView,
)
    requires
        0 <= i < filters.len(),
        filters[i] is Some,
        selects(filters[i]->0, event),
    ensures
        selects(union_of_available(filters), event),
    decreases filters.len(),
{
    if i < filters.len() - 1 {
        lemma_available_is_included(filters.drop_last(), i, event);
    }
}

} // verus!
