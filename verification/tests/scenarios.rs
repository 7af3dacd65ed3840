use subgraph_coordinator::block::{Block, BlockHash, BlockPointer, Hash256};
use subgraph_coordinator::filter::{Address, ChainEvent, EventFilter, Selector};
use subgraph_coordinator::store::{EntityKey, EntityMutation, SubgraphStore};
use subgraph_coordinator::walker::{
    Outcome, Request, Response, Settings, Stage, Walker, WalkerError,
};

fn hash(number: u64, branch: u128) -> BlockHash {
    Hash256 { high: branch, low: number as u128 }
}

fn pointer(number: u64, branch: u128) -> BlockPointer {
    BlockPointer { number, hash: hash(number, branch) }
}

fn block(number: u64, branch: u128, parent_branch: u128) -> Block {
    Block {
        number,
        hash: hash(number, branch),
        parent_hash: if number == 0 { hash(0, 99) } else { hash(number - 1, parent_branch) },
    }
}

fn contract() -> Address {
    Address { high: 7, low: 7 }
}

fn topic() -> Hash256 {
    Hash256 { high: 1, low: 2 }
}

fn log(at: BlockPointer, log_index: u64) -> ChainEvent {
    ChainEvent {
        block_ref: at,
        log_index,
        address: contract(),
        topics: vec![topic()],
        data: vec![log_index as u8],
    }
}

fn interested() -> EventFilter {
    let mut filter = EventFilter::empty();
    filter.insert(Selector { address: contract(), topic: topic() });
    filter
}

/// A chain node, a block cache and the store of one subgraph, enough to
/// answer every request of a walker.
struct World {
    head: Option<BlockPointer>,
    store: SubgraphStore,
    main_chain: Vec<Block>,
    cache: Vec<Block>,
    known: Vec<Block>,
    logs: Vec<ChainEvent>,
    filter: EventFilter,
    asked: Vec<Request>,
    delivered: Vec<(u64, u64, usize)>,
}

impl World {
    /// A main chain of the blocks 0 to `head`, all on branch 0, with the
    /// newest `cached` of them, the head included, in the block cache, and
    /// the subgraph at `sub`.
    fn new(head: u64, cached: u64, sub: BlockPointer, filter: EventFilter) -> World {
        let main_chain: Vec<Block> = (0..=head).map(|n| block(n, 0, 0)).collect();
        let cache: Vec<Block> =
            main_chain.iter().filter(|b| b.number + cached > head).cloned().collect();
        let origin = pointer(0, 0);
        let mut store = SubgraphStore::new(origin);
        store.set_block_pointer_with_no_changes(origin, sub).unwrap();
        World {
            head: Some(pointer(head, 0)),
            store,
            known: main_chain.clone(),
            main_chain,
            cache,
            logs: Vec::new(),
            filter,
            asked: Vec::new(),
            delivered: Vec::new(),
        }
    }

    fn cached(&self, hash: BlockHash) -> Option<Block> {
        self.cache.iter().find(|b| b.hash == hash).cloned()
    }

    fn answer(&mut self, walker: &Walker, request: Request) -> Response {
        self.asked.push(request);
        match request {
            Request::ReadHead => Response::Head(self.head),
            Request::ReadPointer => Response::Pointer(self.store.block_pointer()),
            Request::IsOnMainChain(at) => {
                Response::OnMainChain(self.main_chain.iter().any(|b| b.hash == at.hash))
            }
            Request::FindBlocks { first, last } => {
                let found = self.main_chain.iter().find(|b| {
                    first <= b.number
                        && b.number <= last
                        && self
                            .logs
                            .iter()
                            .any(|l| l.block_ref.hash == b.hash && self.filter.matches(l))
                });
                Response::Found(found.map(|b| b.pointer()).into_iter().collect())
            }
            Request::BlockByNumber(number) => {
                match self.main_chain.iter().find(|b| b.number == number) {
                    Some(found) => Response::Block(*found),
                    None => Response::Failed,
                }
            }
            Request::LocalBlock(hash) => Response::LocalBlock(self.cached(hash)),
            Request::BlockByHash(hash) => match self.known.iter().find(|b| b.hash == hash) {
                Some(found) => Response::Block(*found),
                None => Response::Failed,
            },
            Request::AncestorBlock { head, offset } => {
                let mut at = self.cached(head.hash);
                for _ in 0..offset {
                    at = match at {
                        Some(child) => self.cached(child.parent_hash),
                        None => None,
                    };
                }
                Response::LocalBlock(at)
            }
            Request::RevertBlock(reverted) => match self.store.revert_block(reverted) {
                Ok(()) => Response::Done,
                Err(_) => Response::Failed,
            },
            Request::MovePointer { from, to } => {
                match self.store.set_block_pointer_with_no_changes(from, to) {
                    Ok(()) => Response::Done,
                    Err(_) => Response::Failed,
                }
            }
            Request::EventsInBlock(of) => Response::Events(
                self.logs
                    .iter()
                    .filter(|l| l.block_ref.hash == of.hash && self.filter.matches(l))
                    .cloned()
                    .collect(),
            ),
            Request::Deliver { event, host } => {
                let sent = walker.event(event).expect("the walker names an event it holds");
                self.delivered.push((sent.block_ref.number, sent.log_index, host));
                if host == 0 {
                    self.store.apply(EntityMutation::EntitySet {
                        key: EntityKey {
                            subgraph: "sub".to_string(),
                            entity_type: "Log".to_string(),
                            entity_id: format!("{}", sent.log_index),
                        },
                        attributes: sent.data.clone(),
                        block_ref: sent.block_ref,
                    });
                }
                Response::Delivered(true)
            }
            Request::Stop => Response::Start,
        }
    }

    /// Makes one walk to its end and returns how it ended.
    fn walk(&mut self, threshold: u64, hosts: usize) -> Outcome {
        let mut walker =
            Walker::new(Settings { reorg_threshold: threshold, hosts, origin: pointer(0, 0) });
        let mut response = Response::Start;
        for _ in 0..10_000 {
            let request = walker.step(false, response);
            if let Request::Stop = request {
                return walker.outcome().expect("a walk that asks to stop has ended");
            }
            response = self.answer(&walker, request);
        }
        panic!("the walk does not end");
    }

    fn moves(&self) -> Vec<(u64, BlockHash, u64, BlockHash)> {
        self.asked
            .iter()
            .filter_map(|request| match request {
                Request::MovePointer { from, to } => {
                    Some((from.number, from.hash, to.number, to.hash))
                }
                _ => None,
            })
            .collect()
    }

    fn reverts(&self) -> Vec<BlockHash> {
        self.asked
            .iter()
            .filter_map(|request| match request {
                Request::RevertBlock(reverted) => Some(reverted.hash),
                _ => None,
            })
            .collect()
    }
}

fn step_of(from: u64, from_branch: u128, to: u64, to_branch: u128) -> (u64, BlockHash, u64, BlockHash) {
    (from, hash(from, from_branch), to, hash(to, to_branch))
}

#[test]
fn fast_forward_without_events() {
    let mut world = World::new(20, 4, pointer(5, 0), EventFilter::empty());
    world.logs.push(log(pointer(8, 0), 0));
    let outcome = world.walk(3, 2);
    assert_eq!(outcome, Outcome::CaughtUp);
    assert_eq!(
        world.moves(),
        vec![
            step_of(5, 0, 17, 0),
            step_of(17, 0, 18, 0),
            step_of(18, 0, 19, 0),
            step_of(19, 0, 20, 0),
        ]
    );
    assert!(world.delivered.is_empty());
    assert_eq!(world.store.mutation_count(), 0);
    assert!(world.reverts().is_empty());
    let at = world.store.block_pointer().unwrap();
    assert_eq!((at.number, at.hash), (20, hash(20, 0)));
    assert!(matches!(world.asked[2], Request::IsOnMainChain(at) if at.number == 5));
    assert!(matches!(world.asked[3], Request::FindBlocks { first: 6, last: 17 }));
    assert!(matches!(world.asked[4], Request::BlockByNumber(17)));
}

#[test]
fn safe_mode_hit() {
    let mut world = World::new(20, 4, pointer(5, 0), interested());
    world.logs.push(log(pointer(8, 0), 0));
    world.logs.push(log(pointer(8, 0), 1));
    let mut walker =
        Walker::new(Settings { reorg_threshold: 3, hosts: 2, origin: pointer(0, 0) });
    let mut response = Response::Start;
    let mut requests = Vec::new();
    loop {
        let request = walker.step(false, response);
        requests.push(request);
        if let Request::ReadHead = request {
            if requests.len() > 1 {
                break;
            }
        }
        response = world.answer(&walker, request);
    }
    assert!(matches!(requests[0], Request::ReadHead));
    assert!(matches!(requests[1], Request::ReadPointer));
    assert!(matches!(requests[2], Request::IsOnMainChain(at) if at.hash == hash(5, 0)));
    assert!(matches!(requests[3], Request::FindBlocks { first: 6, last: 17 }));
    assert!(matches!(requests[4], Request::LocalBlock(wanted) if wanted == hash(8, 0)));
    assert!(matches!(requests[5], Request::BlockByHash(wanted) if wanted == hash(8, 0)));
    assert!(matches!(
        requests[6],
        Request::MovePointer { from, to }
            if (from.number, from.hash, to.number, to.hash) == step_of(5, 0, 7, 0)
    ));
    assert!(matches!(requests[7], Request::EventsInBlock(of) if of.hash == hash(8, 0)));
    assert!(matches!(requests[8], Request::Deliver { event: 0, host: 0 }));
    assert!(matches!(requests[9], Request::Deliver { event: 0, host: 1 }));
    assert!(matches!(requests[10], Request::Deliver { event: 1, host: 0 }));
    assert!(matches!(requests[11], Request::Deliver { event: 1, host: 1 }));
    assert!(matches!(
        requests[12],
        Request::MovePointer { from, to }
            if (from.number, from.hash, to.number, to.hash) == step_of(7, 0, 8, 0)
    ));
    assert!(matches!(requests[13], Request::ReadHead));
    assert_eq!(requests.len(), 14);
    assert_eq!(world.delivered, vec![(8, 0, 0), (8, 0, 1), (8, 1, 0), (8, 1, 1)]);
    let at = world.store.block_pointer().unwrap();
    assert_eq!((at.number, at.hash), (8, hash(8, 0)));
    assert_eq!(world.store.mutation_count(), 2);

    let outcome = world.walk(3, 2);
    assert_eq!(outcome, Outcome::CaughtUp);
    let at = world.store.block_pointer().unwrap();
    assert_eq!((at.number, at.hash), (20, hash(20, 0)));
    assert_eq!(world.delivered.len(), 4);
}

#[test]
fn uncle_rollback_in_safe_mode() {
    let mut world = World::new(20, 4, pointer(10, 1), EventFilter::empty());
    let uncle = block(10, 1, 0);
    world.known.push(uncle);
    world.store.apply(EntityMutation::EntitySet {
        key: EntityKey {
            subgraph: "sub".to_string(),
            entity_type: "Log".to_string(),
            entity_id: "stale".to_string(),
        },
        attributes: vec![1],
        block_ref: pointer(10, 1),
    });
    let mut walker =
        Walker::new(Settings { reorg_threshold: 3, hosts: 1, origin: pointer(0, 0) });
    let mut response = Response::Start;
    let mut requests = Vec::new();
    for _ in 0..7 {
        let request = walker.step(false, response);
        requests.push(request);
        response = world.answer(&walker, request);
    }
    assert!(matches!(requests[2], Request::IsOnMainChain(at) if at.hash == hash(10, 1)));
    assert!(matches!(requests[3], Request::LocalBlock(wanted) if wanted == hash(10, 1)));
    assert!(matches!(requests[4], Request::BlockByHash(wanted) if wanted == hash(10, 1)));
    assert!(matches!(requests[5], Request::RevertBlock(reverted) if reverted == uncle));
    assert!(matches!(requests[6], Request::ReadHead));
    let at = world.store.block_pointer().unwrap();
    assert_eq!((at.number, at.hash), (9, hash(9, 0)));
    assert_eq!(world.store.mutation_count(), 0);

    let outcome = world.walk(3, 1);
    assert_eq!(outcome, Outcome::CaughtUp);
    assert_eq!(world.reverts(), vec![hash(10, 1)]);
    let at = world.store.block_pointer().unwrap();
    assert_eq!((at.number, at.hash), (20, hash(20, 0)));
}

#[test]
fn near_head_reorg_steps_back_then_forward() {
    let mut world = World::new(20, 4, pointer(18, 1), EventFilter::empty());
    let stale = block(18, 1, 0);
    world.cache.push(stale);
    world.known.push(stale);
    let mut walker =
        Walker::new(Settings { reorg_threshold: 3, hosts: 1, origin: pointer(0, 0) });
    let mut response = Response::Start;
    let mut requests = Vec::new();
    for _ in 0..11 {
        let request = walker.step(false, response);
        requests.push(request);
        response = world.answer(&walker, request);
    }
    assert!(matches!(
        requests[2],
        Request::AncestorBlock { head, offset: 1 } if head.hash == hash(20, 0)
    ));
    assert!(matches!(requests[3], Request::LocalBlock(wanted) if wanted == hash(18, 1)));
    assert!(matches!(requests[4], Request::RevertBlock(reverted) if reverted == stale));
    assert!(matches!(requests[5], Request::ReadHead));
    assert!(matches!(requests[6], Request::ReadPointer));
    assert!(matches!(
        requests[7],
        Request::AncestorBlock { head, offset: 2 } if head.hash == hash(20, 0)
    ));
    assert!(matches!(requests[8], Request::EventsInBlock(of) if of.hash == hash(18, 0)));
    assert!(matches!(
        requests[9],
        Request::MovePointer { from, to }
            if (from.number, from.hash, to.number, to.hash) == step_of(17, 0, 18, 0)
    ));
    assert!(matches!(requests[10], Request::ReadHead));
    let at = world.store.block_pointer().unwrap();
    assert_eq!((at.number, at.hash), (18, hash(18, 0)));
}

#[test]
fn cancel_in_the_middle_of_a_block() {
    let mut world = World::new(50, 4, pointer(49, 0), interested());
    world.logs.push(log(pointer(50, 0), 0));
    world.logs.push(log(pointer(50, 0), 1));
    let mut walker =
        Walker::new(Settings { reorg_threshold: 3, hosts: 2, origin: pointer(0, 0) });
    let mut response = Response::Start;
    let mut request = walker.step(false, response);
    while !matches!(request, Request::Deliver { event: 0, host: 1 }) {
        response = world.answer(&walker, request);
        request = walker.step(false, response);
    }
    response = world.answer(&walker, request);
    let last = walker.step(true, response);
    assert!(matches!(last, Request::Stop));
    assert_eq!(walker.outcome(), Some(Outcome::Cancelled));
    assert!(matches!(walker.stage(), Stage::Cancelled));
    assert!(world.moves().is_empty());
    let at = world.store.block_pointer().unwrap();
    assert_eq!((at.number, at.hash), (49, hash(49, 0)));
    assert!(matches!(walker.step(false, Response::Done), Request::Stop));
    assert_eq!(walker.outcome(), Some(Outcome::Cancelled));

    world.delivered.clear();
    let outcome = world.walk(3, 2);
    assert_eq!(outcome, Outcome::CaughtUp);
    assert_eq!(world.delivered, vec![(50, 0, 0), (50, 0, 1), (50, 1, 0), (50, 1, 1)]);
    assert_eq!(world.moves(), vec![step_of(49, 0, 50, 0)]);
}

#[test]
fn depth_at_threshold_is_near_head() {
    let settings = Settings { reorg_threshold: 3, hosts: 1, origin: pointer(0, 0) };
    let mut walker = Walker::new(settings);
    walker.step(false, Response::Start);
    walker.step(false, Response::Head(Some(pointer(20, 0))));
    let request = walker.step(false, Response::Pointer(Some(pointer(17, 0))));
    assert!(matches!(
        request,
        Request::AncestorBlock { head, offset: 2 } if head.number == 20 && head.hash == hash(20, 0)
    ));

    let mut deeper = Walker::new(settings);
    deeper.step(false, Response::Start);
    deeper.step(false, Response::Head(Some(pointer(20, 0))));
    let request = deeper.step(false, Response::Pointer(Some(pointer(16, 0))));
    assert!(matches!(request, Request::IsOnMainChain(at) if at.number == 16));
}

#[test]
fn pointer_beyond_head_ends_the_walk() {
    let settings = Settings { reorg_threshold: 3, hosts: 1, origin: pointer(0, 0) };
    let mut walker = Walker::new(settings);
    assert!(matches!(walker.step(false, Response::Start), Request::ReadHead));
    assert!(matches!(
        walker.step(false, Response::Head(Some(pointer(20, 0)))),
        Request::ReadPointer
    ));
    let request = walker.step(false, Response::Pointer(Some(pointer(21, 0))));
    assert!(matches!(request, Request::Stop));
    assert_eq!(walker.outcome(), Some(Outcome::CaughtUp));

    let mut level = Walker::new(settings);
    level.step(false, Response::Start);
    level.step(false, Response::Head(Some(pointer(20, 0))));
    assert!(matches!(level.step(false, Response::Pointer(Some(pointer(20, 0)))), Request::Stop));
    assert_eq!(level.outcome(), Some(Outcome::CaughtUp));
}

#[test]
fn empty_range_still_moves_to_its_end() {
    let settings = Settings { reorg_threshold: 300, hosts: 1, origin: pointer(0, 0) };
    let mut walker = Walker::new(settings);
    walker.step(false, Response::Start);
    walker.step(false, Response::Head(Some(pointer(1000, 0))));
    walker.step(false, Response::Pointer(Some(pointer(10, 0))));
    let find = walker.step(false, Response::OnMainChain(true));
    assert!(matches!(find, Request::FindBlocks { first: 11, last: 700 }));
    let resolve = walker.step(false, Response::Found(Vec::new()));
    assert!(matches!(resolve, Request::BlockByNumber(700)));
    let moved = walker.step(false, Response::Block(block(700, 0, 0)));
    assert!(matches!(
        moved,
        Request::MovePointer { from, to }
            if (from.number, from.hash, to.number, to.hash) == step_of(10, 0, 700, 0)
    ));
    assert!(matches!(walker.step(false, Response::Done), Request::ReadHead));
}

#[test]
fn absent_pointer_counts_as_origin() {
    let settings = Settings { reorg_threshold: 3, hosts: 1, origin: pointer(0, 0) };
    let mut walker = Walker::new(settings);
    walker.step(false, Response::Start);
    walker.step(false, Response::Head(Some(pointer(2, 0))));
    let request = walker.step(false, Response::Pointer(None));
    assert!(matches!(request, Request::AncestorBlock { head, offset: 1 } if head.number == 2));
    let request = walker.step(false, Response::LocalBlock(Some(block(1, 0, 0))));
    assert!(matches!(request, Request::EventsInBlock(of) if of.number == 1));
}

#[test]
fn missing_head_is_an_error() {
    let settings = Settings { reorg_threshold: 3, hosts: 1, origin: pointer(0, 0) };
    let mut walker = Walker::new(settings);
    walker.step(false, Response::Start);
    assert!(matches!(walker.step(false, Response::Head(None)), Request::Stop));
    assert_eq!(walker.outcome(), Some(Outcome::Failed(WalkerError::MissingHead)));
}

#[test]
fn failed_request_ends_the_walk_as_unavailable() {
    let settings = Settings { reorg_threshold: 3, hosts: 1, origin: pointer(0, 0) };
    let mut walker = Walker::new(settings);
    walker.step(false, Response::Start);
    walker.step(false, Response::Head(Some(pointer(20, 0))));
    assert!(matches!(walker.step(false, Response::Failed), Request::Stop));
    assert_eq!(walker.outcome(), Some(Outcome::Failed(WalkerError::Unavailable)));
}

#[test]
fn answer_to_another_request_is_unexpected() {
    let settings = Settings { reorg_threshold: 3, hosts: 1, origin: pointer(0, 0) };
    let mut walker = Walker::new(settings);
    walker.step(false, Response::Start);
    assert!(matches!(walker.step(false, Response::OnMainChain(true)), Request::Stop));
    assert_eq!(walker.outcome(), Some(Outcome::Failed(WalkerError::UnexpectedResponse)));
}

#[test]
fn block_without_parent_cannot_be_advanced_to() {
    let settings = Settings { reorg_threshold: 3, hosts: 1, origin: pointer(0, 0) };
    let mut walker = Walker::new(settings);
    walker.step(false, Response::Start);
    walker.step(false, Response::Head(Some(pointer(2, 0))));
    walker.step(false, Response::Pointer(Some(pointer(1, 0))));
    let genesis = Block { number: 0, hash: hash(0, 5), parent_hash: hash(1, 0) };
    assert!(matches!(walker.step(false, Response::LocalBlock(Some(genesis))), Request::Stop));
    assert_eq!(walker.outcome(), Some(Outcome::Failed(WalkerError::NoParent)));
}

#[test]
fn failing_host_does_not_stall_the_block() {
    let settings = Settings { reorg_threshold: 3, hosts: 2, origin: pointer(0, 0) };
    let mut walker = Walker::new(settings);
    walker.step(false, Response::Start);
    walker.step(false, Response::Head(Some(pointer(2, 0))));
    walker.step(false, Response::Pointer(Some(pointer(1, 0))));
    walker.step(false, Response::LocalBlock(Some(block(2, 0, 0))));
    let first = walker.step(false, Response::Events(vec![log(pointer(2, 0), 0)]));
    assert!(matches!(first, Request::Deliver { event: 0, host: 0 }));
    assert_eq!(walker.event_count(), 1);
    assert_eq!(walker.event(0).unwrap().log_index, 0);
    assert!(walker.event(1).is_none());
    let second = walker.step(false, Response::Delivered(false));
    assert!(matches!(second, Request::Deliver { event: 0, host: 1 }));
    let commit = walker.step(false, Response::Failed);
    assert!(matches!(
        commit,
        Request::MovePointer { from, to }
            if (from.number, from.hash, to.number, to.hash) == step_of(1, 0, 2, 0)
    ));
    assert!(matches!(walker.stage(), Stage::Committing));
    assert_eq!(walker.settings().hosts, 2);
}

#[test]
fn rotated_cache_restarts_the_walk() {
    let settings = Settings { reorg_threshold: 3, hosts: 1, origin: pointer(0, 0) };
    let mut walker = Walker::new(settings);
    walker.step(false, Response::Start);
    walker.step(false, Response::Head(Some(pointer(20, 0))));
    walker.step(false, Response::Pointer(Some(pointer(18, 0))));
    assert!(matches!(walker.step(false, Response::LocalBlock(None)), Request::ReadHead));
    assert!(matches!(walker.stage(), Stage::ReadingHead));
}

#[test]
fn cancellation_before_the_first_request() {
    let settings = Settings { reorg_threshold: 3, hosts: 1, origin: pointer(0, 0) };
    let mut walker = Walker::new(settings);
    assert_eq!(walker.outcome(), None);
    assert!(matches!(walker.step(true, Response::Start), Request::Stop));
    assert_eq!(walker.outcome(), Some(Outcome::Cancelled));
}

#[test]
fn several_found_blocks_are_loaded_then_walked_in_order() {
    let settings = Settings { reorg_threshold: 3, hosts: 1, origin: pointer(0, 0) };
    let mut walker = Walker::new(settings);
    walker.step(false, Response::Start);
    walker.step(false, Response::Head(Some(pointer(20, 0))));
    walker.step(false, Response::Pointer(Some(pointer(5, 0))));
    walker.step(false, Response::OnMainChain(true));
    let load = walker.step(false, Response::Found(vec![pointer(6, 0), pointer(9, 0)]));
    assert!(matches!(load, Request::LocalBlock(wanted) if wanted == hash(6, 0)));
    let load = walker.step(false, Response::LocalBlock(Some(block(6, 0, 0))));
    assert!(matches!(load, Request::LocalBlock(wanted) if wanted == hash(9, 0)));
    let events = walker.step(false, Response::LocalBlock(Some(block(9, 0, 0))));
    assert!(matches!(events, Request::EventsInBlock(of) if of.number == 6));
    let commit = walker.step(false, Response::Events(Vec::new()));
    assert!(matches!(
        commit,
        Request::MovePointer { from, to }
            if (from.number, from.hash, to.number, to.hash) == step_of(5, 0, 6, 0)
    ));
    let gap = walker.step(false, Response::Done);
    assert!(matches!(
        gap,
        Request::MovePointer { from, to }
            if (from.number, from.hash, to.number, to.hash) == step_of(6, 0, 8, 0)
    ));
    let events = walker.step(false, Response::Done);
    assert!(matches!(events, Request::EventsInBlock(of) if of.number == 9));
    let commit = walker.step(false, Response::Events(Vec::new()));
    assert!(matches!(
        commit,
        Request::MovePointer { from, to }
            if (from.number, from.hash, to.number, to.hash) == step_of(8, 0, 9, 0)
    ));
    assert!(matches!(walker.step(false, Response::Done), Request::ReadHead));
}

#[test]
fn re_added_subgraph_resumes_from_its_pointer() {
    let mut world = World::new(103, 4, pointer(100, 0), interested());
    world.logs.push(log(pointer(100, 0), 0));
    world.logs.push(log(pointer(101, 0), 0));

    let mut old_walker =
        Walker::new(Settings { reorg_threshold: 3, hosts: 1, origin: pointer(0, 0) });
    let request = old_walker.step(false, Response::Start);
    let response = world.answer(&old_walker, request);
    assert!(matches!(old_walker.step(true, response), Request::Stop));
    assert_eq!(old_walker.outcome(), Some(Outcome::Cancelled));
    world.asked.clear();

    let outcome = world.walk(3, 2);
    assert_eq!(outcome, Outcome::CaughtUp);
    assert!(matches!(world.asked[1], Request::ReadPointer));
    assert!(matches!(
        world.asked[2],
        Request::AncestorBlock { head, offset: 2 } if head.number == 103
    ));
    assert_eq!(
        world.moves(),
        vec![step_of(100, 0, 101, 0), step_of(101, 0, 102, 0), step_of(102, 0, 103, 0)]
    );
    assert_eq!(world.delivered, vec![(101, 0, 0), (101, 0, 1)]);
    assert!(world.reverts().is_empty());
}
