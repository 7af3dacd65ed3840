//! The persisted state of one subgraph, as the coordinator relies on it.
//!
//! The store keeps, for a subgraph, a block pointer and the entity mutations
//! that its mappings produced, each tagged with the block it came from. The
//! pointer is committed apart from the mutations: a block counts as indexed
//! once the pointer stands on it. Reverting a block drops what was written
//! under its tag and steps the pointer to the block's parent, so no other
//! record of the writes is needed to undo them.
//!
//! [`SubgraphStore`] holds this state in memory. The theorems say what
//! advancing and reverting do to it on any chain, with and without a
//! reorganization.

use crate::block::Block;
use crate::block::BlockHash;
use crate::block::BlockPointer;
use vstd::prelude::*;

verus! {

/// What addresses one entity.
#[derive(Clone, Debug)]
pub struct EntityKey {
    pub subgraph: String,
    pub entity_type: String,
    pub entity_id: String,
}

/// The mathematical value of an [`EntityKey`].
pub struct EntityKeyView {
    pub subgraph: Seq<char>,
    pub entity_type: Seq<char>,
    pub entity_id: Seq<char>,
}

impl View for EntityKey {
    type V = EntityKeyView;

    open spec fn view(&self) -> EntityKeyView {
        EntityKeyView {
            subgraph: self.subgraph@,
            entity_type: self.entity_type@,
            entity_id: self.entity_id@,
        }
    }
}

impl EntityKey {
    /// Whether both keys address the same entity.
    pub fn same(&self, other: &EntityKey) -> (equal: bool)
        ensures
            equal == (self@ == other@),
    {
        self.subgraph == other.subgraph && self.entity_type == other.entity_type
            && self.entity_id == other.entity_id
    }
}

/// A change to one entity that a mapping produced while it handled an event
/// of the block `block_ref`.
#[derive(Clone, Debug)]
pub enum EntityMutation {
    /// The entity now has these attributes.
    EntitySet { key: EntityKey, attributes: Vec<u8>, block_ref: BlockPointer },
    /// The entity is gone.
    EntityRemoved { key: EntityKey, block_ref: BlockPointer },
}

/// The mathematical value of an [`EntityMutation`].
pub enum MutationView {
    EntitySet { key: EntityKeyView, attributes: Seq<u8>, block_ref: BlockPointer },
    EntityRemoved { key: EntityKeyView, block_ref: BlockPointer },
}

impl MutationView {
    /// The entity that the mutation changes.
    pub open spec fn key(self) -> EntityKeyView {
        match self {
            MutationView::EntitySet { key, .. } => key,
            MutationView::EntityRemoved { key, .. } => key,
        }
    }

    /// The block that the mutation came from.
    pub open spec fn block_ref(self) -> BlockPointer {
        match self {
            MutationView::EntitySet { block_ref, .. } => block_ref,
            MutationView::EntityRemoved { block_ref, .. } => block_ref,
        }
    }

    /// The hash of the block that the mutation came from, by which the
    /// store finds the mutation again when the block is reverted.
    pub open spec fn tag(self) -> BlockHash {
        self.block_ref().hash
    }

    /// What the entity is after the mutation: its attributes, or nothing.
    pub open spec fn outcome(self) -> Option<Seq<u8>> {
        match self {
            MutationView::EntitySet { attributes, .. } => Some(attributes),
            MutationView::EntityRemoved { .. } => None,
        }
    }
}

impl View for EntityMutation {
    type V = MutationView;

    open spec fn view(&self) -> MutationView {
        match *self {
            EntityMutation::EntitySet { key, attributes, block_ref } => MutationView::EntitySet {
                key: key@,
                attributes: attributes@,
                block_ref,
            },
            EntityMutation::EntityRemoved { key, block_ref } => MutationView::EntityRemoved {
                key: key@,
                block_ref,
            },
        }
    }
}

impl EntityMutation {
    /// The entity that the mutation changes.
    pub fn key(&self) -> (key: &EntityKey)
        ensures
            key@ == self@.key(),
    {
        match self {
            EntityMutation::EntitySet { key, .. } => key,
            EntityMutation::EntityRemoved { key, .. } => key,
        }
    }

    /// The block that the mutation came from, under which the store files
    /// it.
    pub fn block_ref(&self) -> (block_ref: BlockPointer)
        ensures
            block_ref == self@.block_ref(),
    {
        match self {
            EntityMutation::EntitySet { block_ref, .. } => *block_ref,
            EntityMutation::EntityRemoved { block_ref, .. } => *block_ref,
        }
    }
}

/// The values of a list of mutations.
pub open spec fn mutation_views(log: Seq<EntityMutation>) -> Seq<MutationView> {
    Seq::new(log.len(), |i: int| log[i]@)
}

/// The mutations that did not come from the block with hash `hash`.
pub open spec fn outside_block(hash: BlockHash) -> spec_fn(MutationView) -> bool {
    |mutation: MutationView| mutation.tag() != hash
}

/// What the newest mutation of `key` in `log` left of the entity; `None`
/// where no mutation in `log` touches `key`.
pub open spec fn latest(log: Seq<MutationView>, key: EntityKeyView) -> Option<Option<Seq<u8>>>
    decreases log.len(),
{
    if log.len() == 0 {
        None
    } else if log.last().key() == key {
        Some(log.last().outcome())
    } else {
        latest(log.drop_last(), key)
    }
}

/// The mathematical value of a [`SubgraphStore`].
#[verifier::ext_equal]
pub struct StoreView {
    /// The pointer that the subgraph counts as having while none is
    /// recorded.
    pub origin: BlockPointer,
    /// The recorded pointer.
    pub pointer: Option<BlockPointer>,
    /// The mutations in force, oldest first.
    pub log: Seq<MutationView>,
}

impl StoreView {
    /// The state of a new subgraph: no pointer, no mutation.
    pub open spec fn fresh(origin: BlockPointer) -> StoreView {
        StoreView { origin, pointer: None, log: Seq::empty() }
    }

    /// Where the subgraph stands: its recorded pointer, or the origin.
    pub open spec fn current(self) -> BlockPointer {
        match self.pointer {
            Some(pointer) => pointer,
            None => self.origin,
        }
    }

    /// The state after `mutation` is committed, the pointer left alone.
    pub open spec fn applied(self, mutation: MutationView) -> StoreView {
        StoreView { log: self.log.push(mutation), ..self }
    }

    /// The state after each of `mutations` is committed, in order.
    pub open spec fn applied_all(self, mutations: Seq<MutationView>) -> StoreView
        decreases mutations.len(),
    {
        if mutations.len() == 0 {
            self
        } else {
            self.applied_all(mutations.drop_last()).applied(mutations.last())
        }
    }

    /// The state after the pointer is set to `to`, the entities left alone.
    pub open spec fn moved(self, to: BlockPointer) -> StoreView {
        StoreView { pointer: Some(to), ..self }
    }

    /// The state after `block` is reverted: the mutations that came from it
    /// are gone, and the pointer stands on its parent.
    pub open spec fn reverted(self, block: Block) -> StoreView {
        StoreView {
            pointer: Some(block.spec_parent_pointer()),
            log: self.log.filter(outside_block(block.hash)),
            ..self
        }
    }

    /// The state after an advance through `block`: the mutations that its
    /// events produced are committed, then the pointer is set onto it.
    pub open spec fn advanced(self, block: Block, mutations: Seq<MutationView>) -> StoreView {
        StoreView { pointer: Some(block.spec_pointer()), log: self.log + mutations, ..self }
    }

    /// The attributes of the entity at `key`, if it exists.
    pub open spec fn entity(self, key: EntityKeyView) -> Option<Seq<u8>> {
        match latest(self.log, key) {
            Some(outcome) => outcome,
            None => None,
        }
    }

    /// Whether no mutation in force came from the block with hash `hash`.
    pub open spec fn untouched_by(self, hash: BlockHash) -> bool {
        forall|i: int| 0 <= i < self.log.len() ==> (#[trigger] self.log[i]).tag() != hash
    }
}

/// Whether every one of `mutations` came from the block with hash `hash`.
pub open spec fn all_from(mutations: Seq<MutationView>, hash: BlockHash) -> bool {
    forall|i: int| 0 <= i < mutations.len() ==> (#[trigger] mutations[i]).tag() == hash
}

/// Why the store refused a request.
#[derive(Clone, Copy, Debug, PartialEq, Eq, Structural)]
pub enum StoreError {
    /// The pointer does not stand where the request said it stands.
    PointerMismatch,
    /// The block to revert has number zero, so no block comes before it.
    NoParent,
}

/// The state of one subgraph, held in memory.
pub struct SubgraphStore {
    origin: BlockPointer,
    pointer: Option<BlockPointer>,
    log: Vec<EntityMutation>,
}

impl View for SubgraphStore {
    type V = StoreView;

    closed spec fn view(&self) -> StoreView {
        StoreView { origin: self.origin, pointer: self.pointer, log: mutation_views(self.log@) }
    }
}

impl SubgraphStore {
    /// The store of a new subgraph, which counts as standing at `origin`.
    pub fn new(origin: BlockPointer) -> (store: SubgraphStore)
        ensures
            store@ == StoreView::fresh(origin),
    {
        let store = SubgraphStore { origin, pointer: None, log: Vec::new() };
        assert(store@ =~= StoreView::fresh(origin));
        store
    }

    /// The recorded pointer, if there is one.
    pub fn block_pointer(&self) -> (pointer: Option<BlockPointer>)
        ensures
            pointer == self@.pointer,
    {
        self.pointer
    }

    /// The number of mutations in force.
    pub fn mutation_count(&self) -> (count: usize)
        ensures
            count == self@.log.len(),
    {
        self.log.len()
    }

    /// Commits one mutation under the tag of its block. The pointer stays.
    pub fn apply(&mut self, mutation: EntityMutation)
        ensures
            final(self)@ == old(self)@.applied(mutation@),
    {
        self.log.push(mutation);
        assert(self@ =~= old(self)@.applied(mutation@));
    }

    /// Moves the pointer from `from` to `to` and changes no entity. The
    /// store refuses, and changes nothing, where it does not stand at
    /// `from`.
    pub fn set_block_pointer_with_no_changes(&mut self, from: BlockPointer, to: BlockPointer) -> (result:
        Result<(), StoreError>)
        ensures
            old(self)@.current().same_block(from) ==> result is Ok && final(self)@ == old(self)@.moved(to),
            !old(self)@.current().same_block(from) ==> result == Err::<(), StoreError>(
                StoreError::PointerMismatch,
            ) && final(self)@ == old(self)@,
    {
        let current = match self.pointer {
            Some(pointer) => pointer,
            None => self.origin,
        };
        if current == from {
            self.pointer = Some(to);
            Ok(())
        } else {
            Err(StoreError::PointerMismatch)
        }
    }

    /// Reverts `block`: drops every mutation that came from it and sets the
    /// pointer to its parent. The store refuses, and changes nothing, where
    /// the block has number zero.
    pub fn revert_block(&mut self, block: Block) -> (result: Result<(), StoreError>)
        ensures
            block.number > 0 ==> result is Ok && final(self)@ == old(self)@.reverted(block),
            block.number == 0 ==> result == Err::<(), StoreError>(StoreError::NoParent) && final(self)@ == old(self)@,
    {
        if !block.has_parent() {
            return Err(StoreError::NoParent);
        }
        let ghost before = mutation_views(self.log@);
        let ghost keep = outside_block(block.hash);
        let ghost mut seen: int = 0;
        let mut i: usize = 0;
        while i < self.log.len()
            invariant
                0 <= i <= self.log.len(),
                0 <= seen <= before.len(),
                self.log.len() - i == before.len() - seen,
                self.origin == old(self).origin,
                self.pointer == old(self).pointer,
                keep == outside_block(block.hash),
                mutation_views(self.log@).take(i as int) == before.take(seen).filter(keep),
                mutation_views(self.log@).skip(i as int) == before.skip(seen),
            decreases self.log.len() - i,
        {
            let ghost now = mutation_views(self.log@);
            proof {
                assert(now.skip(i as int)[0] == before.skip(seen)[0]);
                assert(before.take(seen + 1) =~= before.take(seen).push(before[seen]));
                before.take(seen).lemma_filter_push(before[seen], keep);
            }
            if self.log[i].block_ref().hash == block.hash {
                self.log.remove(i);
                proof {
                    let after = mutation_views(self.log@);
                    assert(after =~= now.remove(i as int));
                    assert(after.take(i as int) =~= now.take(i as int));
                    assert(after.skip(i as int) =~= now.skip(i as int).skip(1));
                    assert(before.skip(seen + 1) =~= before.skip(seen).skip(1));
                    seen = seen + 1;
                }
            } else {
                proof {
                    assert(now.take(i + 1) =~= now.take(i as int).push(now[i as int]));
                    assert(now.skip(i + 1) =~= now.skip(i as int).skip(1));
                    assert(before.skip(seen + 1) =~= before.skip(seen).skip(1));
                    seen = seen + 1;
                }
                i += 1;
            }
        }
        self.pointer = Some(block.parent_pointer());
        proof {
            let after = mutation_views(self.log@);
            assert(after.take(i as int) =~= after);
            assert(before.take(seen) =~= before);
            assert(self@ =~= old(self)@.reverted(block));
        }
        Ok(())
    }

    /// The attributes of the entity at `key`, if it exists.
    pub fn entity(&self, key: &EntityKey) -> (attributes: Option<&Vec<u8>>)
        ensures
            match attributes {
                Some(found) => self@.entity(key@) == Some(found@),
                None => self@.entity(key@) is None,
            },
    {
        let ghost log = mutation_views(self.log@);
        let mut i: usize = self.log.len();
        assert(log.take(i as int) =~= log);
        while i > 0
            invariant
                i <= self.log.len(),
                log == mutation_views(self.log@),
                latest(log, key@) == latest(log.take(i as int), key@),
            decreases i,
        {
            proof {
                assert(log.take(i as int).drop_last() =~= log.take(i - 1));
                assert(log.take(i as int).last() == log[i - 1]);
            }
            i -= 1;
            if self.log[i].key().same(key) {
                return match &self.log[i] {
                    EntityMutation::EntitySet { attributes, .. } => Some(attributes),
                    EntityMutation::EntityRemoved { .. } => None,
                };
            }
        }
        proof {
            assert(log.take(0).len() == 0);
        }
        None
    }
}

/// A pointer that the store was told to move to, or to step back to, is
/// the pointer it then stands at: a move that the store accepts, and every
/// revert, is read back as written.
pub proof fn lemma_pointer_reads_back(store: StoreView, to: BlockPointer, block: Block)
    ensures
        store.moved(to).pointer == Some(to),
        store.moved(to).current() == to,
        store.reverted(block).pointer == Some(block.spec_parent_pointer()),
        store.reverted(block).current() == block.spec_parent_pointer(),
{
}

/// Moving the pointer changes no entity.
pub proof fn lemma_move_keeps_entities(store: StoreView, to: BlockPointer, key: EntityKeyView)
    ensures
        store.moved(to).entity(key) == store.entity(key),
        store.moved(to).log == store.log,
{
}

/// Committing mutations one by one appends them to those in force and
/// leaves the pointer alone.
pub proof fn lemma_applied_all(store: StoreView, mutations: Seq<MutationView>)
    ensures
        store.applied_all(mutations) == (StoreView { log: store.log + mutations, ..store }),
    decreases mutations.len(),
{
    if mutations.len() > 0 {
        lemma_applied_all(store, mutations.drop_last());
        assert(store.log + mutations =~= (store.log + mutations.drop_last()).push(
            mutations.last(),
        ));
    } else {
        assert(store.log + mutations =~= store.log);
    }
}

/// An advance through a block is made of single commits: each mutation of
/// the block committed by itself, the pointer left alone, and at the end
/// one move of the pointer onto the block.
pub proof fn lemma_advance_in_steps(store: StoreView, block: Block, mutations: Seq<MutationView>)
    ensures
        store.applied_all(mutations).moved(block.spec_pointer()) == store.advanced(
            block,
            mutations,
        ),
        store.applied_all(mutations).pointer == store.pointer,
{
    lemma_applied_all(store, mutations);
}

/// Reverting a block undoes an advance through it. Take a store that holds
/// nothing from `block` and stands on the block's parent. After the
/// mutations of the block are committed and the pointer is set onto it,
/// reverting the block gives the mutations, and so every entity, as they
/// were, with the pointer on the parent again.
pub proof fn lemma_revert_undoes_advance(
    store: StoreView,
    block: Block,
    mutations: Seq<MutationView>,
)
    requires
        store.untouched_by(block.hash),
        all_from(mutations, block.hash),
    ensures
        store.advanced(block, mutations).reverted(block).log == store.log,
        store.advanced(block, mutations).reverted(block).pointer == Some(
            block.spec_parent_pointer(),
        ),
        store.pointer == Some(block.spec_parent_pointer()) ==> store.advanced(
            block,
            mutations,
        ).reverted(block) == store,
        forall|key: EntityKeyView|
            #[trigger] store.advanced(block, mutations).reverted(block).entity(key) == store.entity(
                key,
            ),
{
    let keep = outside_block(block.hash);
    lemma_filter_keeps_all(store.log, keep);
    lemma_filter_drops_all(mutations, keep);
    Seq::filter_distributes_over_add(store.log, mutations, keep);
    assert(store.log + Seq::<MutationView>::empty() =~= store.log);
    assert(store.advanced(block, mutations).reverted(block).log =~= store.log);
}

proof fn lemma_filter_keeps_all(log: Seq<MutationView>, keep: spec_fn(MutationView) -> bool)
    requires
        forall|i: int| 0 <= i < log.len() ==> keep(#[trigger] log[i]),
    ensures
        log.filter(keep) == log,
    decreases log.len(),
{
    reveal(Seq::filter);
    if log.len() > 0 {
        lemma_filter_keeps_all(log.drop_last(), keep);
        assert(log.drop_last().push(log.last()) =~= log);
    }
}

proof fn lemma_filter_drops_all(log: Seq<MutationView>, keep: spec_fn(MutationView) -> bool)
    requires
        forall|i: int| 0 <= i < log.len() ==> !keep(#[trigger] log[i]),
    ensures
        log.filter(keep) == Seq::<MutationView>::empty(),
    decreases log.len(),
{
    reveal(Seq::filter);
    if log.len() > 0 {
        lemma_filter_drops_all(log.drop_last(), keep);
    }
}

/// One block of a branch, with the mutations that the mappings produce from
/// its events.
pub struct Segment {
    pub block: Block,
    pub mutations: Seq<MutationView>,
}

/// The state after an advance through each block of `branch`, in order.
pub open spec fn advanced_through(store: StoreView, branch: Seq<Segment>) -> StoreView
    decreases branch.len(),
{
    if branch.len() == 0 {
        store
    } else {
        advanced_through(store, branch.drop_last()).advanced(
            branch.last().block,
            branch.last().mutations,
        )
    }
}

/// The state after each block of `branch` is reverted, the newest first.
pub open spec fn reverted_through(store: StoreView, branch: Seq<Segment>) -> StoreView
    decreases branch.len(),
{
    if branch.len() == 0 {
        store
    } else {
        reverted_through(store.reverted(branch.last().block), branch.drop_last())
    }
}

/// Whether `branch` can be indexed on top of `store`: each block follows
/// the one before it, the first follows the block that the store stands
/// on, the mutations of a block carry that block's tag, and the blocks are
/// new to the store and differ from each other.
pub open spec fn extends(store: StoreView, branch: Seq<Segment>) -> bool {
    &&& forall|i: int|
        0 <= i < branch.len() ==> {
            &&& (#[trigger] branch[i]).block.number > 0
            &&& all_from(branch[i].mutations, branch[i].block.hash)
            &&& store.untouched_by(branch[i].block.hash)
        }
    &&& forall|i: int, j: int|
        0 <= i < j < branch.len() ==> (#[trigger] branch[i]).block.hash != (
        #[trigger] branch[j]).block.hash
    &&& branch.len() > 0 ==> store.pointer == Some(branch[0].block.spec_parent_pointer())
    &&& forall|i: int|
        0 < i < branch.len() ==> (#[trigger] branch[i]).block.spec_parent_pointer() == branch[i
            - 1].block.spec_pointer()
}

proof fn lemma_advance_shape(store: StoreView, branch: Seq<Segment>)
    requires
        extends(store, branch),
    ensures
        advanced_through(store, branch).origin == store.origin,
        branch.len() > 0 ==> advanced_through(store, branch).pointer == Some(
            branch.last().block.spec_pointer(),
        ),
        branch.len() == 0 ==> advanced_through(store, branch) == store,
        forall|hash: BlockHash|
            store.untouched_by(hash) && (forall|i: int|
                0 <= i < branch.len() ==> (#[trigger] branch[i]).block.hash != hash)
                ==> #[trigger] advanced_through(store, branch).untouched_by(hash),
    decreases branch.len(),
{
    if branch.len() > 0 {
        let shorter = branch.drop_last();
        assert(extends(store, shorter));
        lemma_advance_shape(store, shorter);
        let below = advanced_through(store, shorter);
        let top = branch.last();
        assert forall|hash: BlockHash|
            store.untouched_by(hash) && (forall|i: int|
                0 <= i < branch.len() ==> (#[trigger] branch[i]).block.hash
                    != hash) implies #[trigger] advanced_through(store, branch).untouched_by(
            hash,
        ) by {
            assert forall|i: int| 0 <= i < shorter.len() implies (#[trigger] shorter[i]).block.hash
                != hash by {
                assert(shorter[i] == branch[i]);
            }
            assert(below.untouched_by(hash));
            assert(branch[branch.len() - 1].block.hash != hash);
            let log = advanced_through(store, branch).log;
            assert forall|k: int| 0 <= k < log.len() implies (#[trigger] log[k]).tag() != hash by {
                if k >= below.log.len() {
                    assert(log[k] == top.mutations[k - below.log.len()]);
                } else {
                    assert(log[k] == below.log[k]);
                }
            }
        }
    }
}

/// Advancing through one branch and then through another is advancing
/// through the two joined.
pub proof fn lemma_advance_joins(store: StoreView, first: Seq<Segment>, second: Seq<Segment>)
    ensures
        advanced_through(store, first + second) == advanced_through(
            advanced_through(store, first),
            second,
        ),
    decreases second.len(),
{
    if second.len() == 0 {
        assert(first + second =~= first);
    } else {
        lemma_advance_joins(store, first, second.drop_last());
        assert((first + second).drop_last() =~= first + second.drop_last());
        assert((first + second).last() == second.last());
    }
}

proof fn lemma_shorter_extends(store: StoreView, branch: Seq<Segment>)
    requires
        extends(store, branch),
        branch.len() > 0,
    ensures
        extends(store, branch.drop_last()),
        forall|i: int|
            0 <= i < branch.len() - 1 ==> (#[trigger] branch.drop_last()[i]).block.hash
                != branch.last().block.hash,
        branch.len() > 1 ==> branch.last().block.spec_parent_pointer() == branch.drop_last().last().block.spec_pointer(),
        branch.len() == 1 ==> store.pointer == Some(branch.last().block.spec_parent_pointer()),
{
    let shorter = branch.drop_last();
    assert forall|i: int| 0 <= i < shorter.len() implies (#[trigger] shorter[i]).block.hash
        != branch.last().block.hash by {
        assert(shorter[i] == branch[i]);
        assert(branch.last() == branch[branch.len() - 1]);
    }
    if branch.len() > 1 {
        assert(shorter.last() == branch[branch.len() - 2]);
        assert(branch.last() == branch[branch.len() - 1]);
    } else {
        assert(branch.last() == branch[0]);
    }
}

proof fn lemma_revert_tip(store: StoreView, branch: Seq<Segment>)
    requires
        extends(store, branch),
        branch.len() > 0,
    ensures
        advanced_through(store, branch).reverted(branch.last().block) == advanced_through(
            store,
            branch.drop_last(),
        ),
{
    let shorter = branch.drop_last();
    let top = branch.last();
    lemma_shorter_extends(store, branch);
    lemma_advance_shape(store, shorter);
    let below = advanced_through(store, shorter);
    assert(top == branch[branch.len() - 1]);
    assert(store.untouched_by(top.block.hash));
    assert(below.untouched_by(top.block.hash));
    assert(all_from(top.mutations, top.block.hash));
    lemma_revert_undoes_advance(below, top.block, top.mutations);
    assert(below.pointer == Some(top.block.spec_parent_pointer()));
}

/// Reverting a branch from its tip down undoes the indexing of the branch.
pub proof fn lemma_branch_is_undone(store: StoreView, branch: Seq<Segment>)
    requires
        extends(store, branch),
    ensures
        reverted_through(advanced_through(store, branch), branch) == store,
    decreases branch.len(),
{
    if branch.len() > 0 {
        lemma_revert_tip(store, branch);
        lemma_shorter_extends(store, branch);
        lemma_branch_is_undone(store, branch.drop_last());
    }
}

/// A reorganization leaves nothing of the abandoned branch behind. Take a
/// store at the common ancestor of two branches, and let the subgraph be
/// indexed along `abandoned`. Reverting that branch block by block, from
/// its tip down, gives the store as it was at the common ancestor; so an
/// advance along `adopted` from there gives exactly what indexing
/// `adopted` from the common ancestor gives, had the other branch never
/// been seen.
pub proof fn lemma_reorg_rebuilds(
    store: StoreView,
    abandoned: Seq<Segment>,
    adopted: Seq<Segment>,
)
    requires
        extends(store, abandoned),
    ensures
        reverted_through(advanced_through(store, abandoned), abandoned) == store,
        advanced_through(
            reverted_through(advanced_through(store, abandoned), abandoned),
            adopted,
        ) == advanced_through(store, adopted),
{
    lemma_branch_is_undone(store, abandoned);
}

} // verus!
