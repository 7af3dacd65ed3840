//! Block hashes, block pointers and block headers.

use vstd::prelude::*;

verus! {

/// A 256-bit hash, held as two halves.
#[derive(Clone, Copy, Debug, PartialEq, Eq, Structural, Hash)]
pub struct Hash256 {
    pub high: u128,
    pub low: u128,
}

/// The hash that identifies a block.
pub type BlockHash = Hash256;

/// A position on some chain: a block number and the hash of the block there.
///
/// Two pointers are equal, for `==`, when their hashes are equal; the number
/// is carried along and not compared.
#[derive(Clone, Copy, Debug)]
pub struct BlockPointer {
    pub number: u64,
    pub hash: BlockHash,
}

impl BlockPointer {
    /// Whether both pointers name the same block, which is what `==` decides.
    pub open spec fn same_block(self, other: BlockPointer) -> bool {
        self.hash == other.hash
    }

    pub fn new(number: u64, hash: BlockHash) -> (pointer: BlockPointer)
        ensures
            pointer.number == number,
            pointer.hash == hash,
    {
        BlockPointer { number, hash }
    }
}

impl PartialEq for BlockPointer {
    fn eq(&self, other: &BlockPointer) -> (equal: bool) {
        self.hash == other.hash
    }
}

impl Eq for BlockPointer {}

impl vstd::std_specs::cmp::PartialEqSpecImpl for BlockPointer {
    open spec fn obeys_eq_spec() -> bool {
        true
    }

    open spec fn eq_spec(&self, other: &BlockPointer) -> bool {
        self.hash == other.hash
    }
}

/// What the coordinator reads of a fetched block: its own position and the
/// hash of its parent.
#[derive(Clone, Copy, Debug, PartialEq, Eq, Structural)]
pub struct Block {
    pub number: u64,
    pub hash: BlockHash,
    pub parent_hash: BlockHash,
}

impl Block {
    /// The pointer to this block.
    pub open spec fn spec_pointer(&self) -> BlockPointer {
        BlockPointer { number: self.number, hash: self.hash }
    }

    /// The pointer to this block's parent. Genesis, the block with number
    /// zero, has none.
    pub open spec fn spec_parent_pointer(&self) -> BlockPointer
        recommends
            self.number > 0,
    {
        BlockPointer { number: (self.number - 1) as u64, hash: self.parent_hash }
    }

    /// Whether `pointer` names the parent of this block.
    pub open spec fn is_child_of(&self, pointer: BlockPointer) -> bool {
        self.parent_hash == pointer.hash
    }

    #[verifier::when_used_as_spec(spec_pointer)]
    pub fn pointer(&self) -> (pointer: BlockPointer)
        ensures
            pointer == self.spec_pointer(),
    {
        BlockPointer { number: self.number, hash: self.hash }
    }

    /// Whether the block has a parent, that is, whether it is not genesis.
    pub fn has_parent(&self) -> (has: bool)
        ensures
            has == (self.number > 0),
    {
        self.number > 0
    }

    #[verifier::when_used_as_spec(spec_parent_pointer)]
    pub fn parent_pointer(&self) -> (pointer: BlockPointer)
        requires
            self.number > 0,
        ensures
            pointer == self.spec_parent_pointer(),
            pointer.number + 1 == self.number,
            pointer.hash == self.parent_hash,
    {
        BlockPointer { number: self.number - 1, hash: self.parent_hash }
    }
}

/// The parent pointer of a block lies one number below the block and names
/// the block's parent.
pub proof fn lemma_parent_is_one_below(block: Block)
    requires
        block.number > 0,
    ensures
        block.spec_parent_pointer().number + 1 == block.spec_pointer().number,
        block.is_child_of(block.spec_parent_pointer()),
{
}

} // verus!
