use subgraph_coordinator::block::{Block, BlockPointer, Hash256};
use subgraph_coordinator::store::{EntityKey, EntityMutation, StoreError, SubgraphStore};

fn hash(number: u64, branch: u128) -> Hash256 {
    Hash256 { high: branch, low: number as u128 }
}

fn pointer(number: u64, branch: u128) -> BlockPointer {
    BlockPointer { number, hash: hash(number, branch) }
}

fn block(number: u64, branch: u128, parent_branch: u128) -> Block {
    Block { number, hash: hash(number, branch), parent_hash: hash(number - 1, parent_branch) }
}

fn key(id: &str) -> EntityKey {
    EntityKey {
        subgraph: "sub".to_string(),
        entity_type: "Account".to_string(),
        entity_id: id.to_string(),
    }
}

fn set(id: &str, value: u8, at: BlockPointer) -> EntityMutation {
    EntityMutation::EntitySet { key: key(id), attributes: vec![value], block_ref: at }
}

fn remove(id: &str, at: BlockPointer) -> EntityMutation {
    EntityMutation::EntityRemoved { key: key(id), block_ref: at }
}

fn at(store: &SubgraphStore) -> (u64, Hash256) {
    let pointer = store.block_pointer().expect("the store holds a pointer");
    (pointer.number, pointer.hash)
}

fn entities(store: &SubgraphStore, ids: &[&str]) -> Vec<Option<Vec<u8>>> {
    ids.iter().map(|id| store.entity(&key(id)).cloned()).collect()
}

/// Commits the mutations of `block`, then moves the pointer onto it.
fn advance(store: &mut SubgraphStore, block: Block, mutations: Vec<EntityMutation>) {
    for mutation in mutations {
        store.apply(mutation);
    }
    store
        .set_block_pointer_with_no_changes(block.parent_pointer(), block.pointer())
        .expect("the store stands on the parent");
}

#[test]
fn new_store_has_no_pointer_and_no_entity() {
    let store = SubgraphStore::new(pointer(0, 0));
    assert!(store.block_pointer().is_none());
    assert_eq!(store.mutation_count(), 0);
    assert!(store.entity(&key("a")).is_none());
}

#[test]
fn pointer_reads_back_after_move_and_after_revert() {
    let mut store = SubgraphStore::new(pointer(0, 0));
    assert_eq!(store.set_block_pointer_with_no_changes(pointer(0, 0), pointer(5, 0)), Ok(()));
    assert_eq!(at(&store), (5, hash(5, 0)));
    assert_eq!(store.set_block_pointer_with_no_changes(pointer(5, 0), pointer(17, 0)), Ok(()));
    assert_eq!(at(&store), (17, hash(17, 0)));
    assert_eq!(store.revert_block(block(17, 0, 0)), Ok(()));
    assert_eq!(at(&store), (16, hash(16, 0)));
}

#[test]
fn move_from_another_pointer_is_refused() {
    let mut store = SubgraphStore::new(pointer(0, 0));
    store.set_block_pointer_with_no_changes(pointer(0, 0), pointer(5, 0)).unwrap();
    assert_eq!(
        store.set_block_pointer_with_no_changes(pointer(5, 1), pointer(6, 1)),
        Err(StoreError::PointerMismatch)
    );
    assert_eq!(at(&store), (5, hash(5, 0)));
    assert_eq!(
        store.set_block_pointer_with_no_changes(pointer(0, 0), pointer(6, 0)),
        Err(StoreError::PointerMismatch)
    );
    assert_eq!(at(&store), (5, hash(5, 0)));
}

#[test]
fn pointers_are_compared_by_hash() {
    let mut store = SubgraphStore::new(pointer(0, 0));
    store.set_block_pointer_with_no_changes(pointer(0, 0), pointer(5, 0)).unwrap();
    let same_hash = BlockPointer { number: 4, hash: hash(5, 0) };
    assert!(same_hash == pointer(5, 0));
    assert!(pointer(5, 1) != pointer(5, 0));
    assert_eq!(store.set_block_pointer_with_no_changes(same_hash, pointer(6, 0)), Ok(()));
    assert_eq!(at(&store), (6, hash(6, 0)));
}

#[test]
fn genesis_cannot_be_reverted() {
    let mut store = SubgraphStore::new(pointer(0, 0));
    store.apply(set("a", 1, pointer(0, 0)));
    let genesis = Block { number: 0, hash: hash(0, 0), parent_hash: hash(0, 9) };
    assert!(!genesis.has_parent());
    assert_eq!(store.revert_block(genesis), Err(StoreError::NoParent));
    assert_eq!(store.mutation_count(), 1);
    assert!(store.block_pointer().is_none());
}

#[test]
fn entity_is_what_its_newest_mutation_left() {
    let mut store = SubgraphStore::new(pointer(0, 0));
    store.apply(set("a", 1, pointer(1, 0)));
    store.apply(set("b", 2, pointer(1, 0)));
    store.apply(set("a", 3, pointer(2, 0)));
    store.apply(remove("b", pointer(2, 0)));
    assert_eq!(entities(&store, &["a", "b", "c"]), vec![Some(vec![3]), None, None]);
    assert_eq!(store.mutation_count(), 4);
    assert!(store.block_pointer().is_none());
    let other_type = EntityKey {
        subgraph: "sub".to_string(),
        entity_type: "Token".to_string(),
        entity_id: "a".to_string(),
    };
    assert!(store.entity(&other_type).is_none());
    assert!(key("a").same(&key("a")));
    assert!(!key("a").same(&other_type));
    let first = set("a", 1, pointer(1, 0));
    assert!(first.key().same(&key("a")));
    assert_eq!(first.block_ref().number, 1);
}

#[test]
fn revert_undoes_advance() {
    let mut store = SubgraphStore::new(pointer(0, 0));
    advance(&mut store, block(1, 0, 0), vec![set("a", 1, pointer(1, 0)), set("b", 2, pointer(1, 0))]);
    let before = entities(&store, &["a", "b", "c"]);
    let count = store.mutation_count();

    let next = block(2, 0, 0);
    advance(
        &mut store,
        next,
        vec![set("a", 9, pointer(2, 0)), remove("b", pointer(2, 0)), set("c", 7, pointer(2, 0))],
    );
    assert_eq!(entities(&store, &["a", "b", "c"]), vec![Some(vec![9]), None, Some(vec![7])]);
    assert_eq!(at(&store), (2, hash(2, 0)));

    assert_eq!(store.revert_block(next), Ok(()));
    assert_eq!(entities(&store, &["a", "b", "c"]), before);
    assert_eq!(before, vec![Some(vec![1]), Some(vec![2]), None]);
    assert_eq!(store.mutation_count(), count);
    assert_eq!(at(&store), (1, hash(1, 0)));
}

#[test]
fn revert_drops_only_the_mutations_of_its_block() {
    let mut store = SubgraphStore::new(pointer(0, 0));
    store.apply(set("a", 1, pointer(1, 0)));
    store.apply(set("a", 2, pointer(2, 0)));
    store.apply(set("b", 3, pointer(1, 0)));
    store.apply(set("a", 4, pointer(2, 0)));
    store.apply(set("c", 5, pointer(3, 0)));
    assert_eq!(store.revert_block(block(2, 0, 0)), Ok(()));
    assert_eq!(store.mutation_count(), 3);
    assert_eq!(entities(&store, &["a", "b", "c"]), vec![Some(vec![1]), Some(vec![3]), Some(vec![5])]);
}

#[test]
fn reorg_ends_as_if_the_other_branch_was_never_indexed() {
    let branch_a = vec![
        (block(11, 1, 0), vec![set("a", 1, pointer(11, 1)), set("x", 1, pointer(11, 1))]),
        (block(12, 1, 1), vec![remove("a", pointer(12, 1)), set("y", 2, pointer(12, 1))]),
    ];
    let branch_b = || {
        vec![
            (block(11, 2, 0), vec![set("a", 5, pointer(11, 2))]),
            (block(12, 2, 2), vec![set("b", 6, pointer(12, 2))]),
            (block(13, 2, 2), vec![set("a", 7, pointer(13, 2))]),
        ]
    };
    let common = || {
        let mut store = SubgraphStore::new(pointer(0, 0));
        store.set_block_pointer_with_no_changes(pointer(0, 0), pointer(9, 0)).unwrap();
        advance(&mut store, block(10, 0, 0), vec![set("a", 0, pointer(10, 0))]);
        store
    };
    let ids = ["a", "b", "x", "y"];

    let mut reorganized = common();
    for (block, mutations) in branch_a.clone() {
        advance(&mut reorganized, block, mutations);
    }
    assert_eq!(entities(&reorganized, &ids), vec![None, None, Some(vec![1]), Some(vec![2])]);
    for (block, _) in branch_a.iter().rev() {
        assert_eq!(reorganized.revert_block(*block), Ok(()));
    }
    assert_eq!(at(&reorganized), (10, hash(10, 0)));
    assert_eq!(entities(&reorganized, &ids), entities(&common(), &ids));
    for (block, mutations) in branch_b() {
        advance(&mut reorganized, block, mutations);
    }

    let mut direct = common();
    for (block, mutations) in branch_b() {
        advance(&mut direct, block, mutations);
    }
    assert_eq!(entities(&reorganized, &ids), entities(&direct, &ids));
    assert_eq!(entities(&direct, &ids), vec![Some(vec![7]), Some(vec![6]), None, None]);
    assert_eq!(at(&reorganized), at(&direct));
    assert_eq!(at(&direct), (13, hash(13, 2)));
    assert_eq!(reorganized.mutation_count(), direct.mutation_count());
}

#[test]
fn block_gives_its_pointer_and_its_parent() {
    let child = block(8, 0, 3);
    assert_eq!((child.pointer().number, child.pointer().hash), (8, hash(8, 0)));
    assert_eq!((child.parent_pointer().number, child.parent_pointer().hash), (7, hash(7, 3)));
    assert!(child.has_parent());
    let made = BlockPointer::new(7, hash(7, 3));
    assert!(made == child.parent_pointer());
    assert_eq!(made.number, 7);
}
