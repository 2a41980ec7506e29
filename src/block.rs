//! The blocks of one analysis response, and the index built over them.

use vstd::prelude::*;
use crate::fraction::BoundingBox;

verus! {

/// What a block stands for.
#[derive(Clone, Copy, Debug, PartialEq, Eq, Structural)]
pub enum BlockKind {
    KeyValueSet,
    Word,
    Line,
    Other,
}

/// An entity tag of a block.
#[derive(Clone, Copy, Debug, PartialEq, Eq, Structural)]
pub enum RoleHint {
    Key,
    Value,
    Other,
}

/// The type of a relationship edge.
#[derive(Clone, Copy, Debug, PartialEq, Eq, Structural)]
pub enum RelationKind {
    Child,
    Value,
    Other,
}

/// A typed edge from a block to the blocks named by `target_ids`.
pub struct Relationship {
    pub kind: RelationKind,
    pub target_ids: Vec<String>,
}

/// One annotated region of the analysed page.
pub struct Block {
    pub id: Option<String>,
    pub kind: BlockKind,
    pub role_hints: Vec<RoleHint>,
    pub text: Option<String>,
    pub bounding_box: Option<BoundingBox>,
    pub relationships: Vec<Relationship>,
}

/// The ids of an edge, as character sequences.
pub open spec fn ids_view(ids: Seq<String>) -> Seq<Seq<char>> {
    ids.map_values(|s: String| s@)
}

/// The ids named by every edge of kind `kind`, edge after edge.
pub open spec fn targets_of(rels: Seq<Relationship>, kind: RelationKind) -> Seq<Seq<char>>
    decreases rels.len(),
{
    if rels.len() == 0 {
        Seq::empty()
    } else {
        let last = rels.last();
        let before = targets_of(rels.drop_last(), kind);
        if last.kind == kind {
            before + ids_view(last.target_ids@)
        } else {
            before
        }
    }
}

/// A found position, as an integer.
pub open spec fn as_position(o: Option<usize>) -> Option<int> {
    match o {
        Some(i) => Some(i as int),
        None => None,
    }
}

/// The block carries the id `id`.
pub open spec fn has_id(b: Block, id: Seq<char>) -> bool {
    b.id is Some && b.id->0@ == id
}

/// Position of the last block of `blocks` that carries `id`: the id index,
/// where a later block replaces an earlier one of the same id.
pub open spec fn last_with_id(blocks: Seq<Block>, id: Seq<char>) -> Option<int>
    decreases blocks.len(),
{
    if blocks.len() == 0 {
        None
    } else if has_id(blocks.last(), id) {
        Some(blocks.len() - 1)
    } else {
        last_with_id(blocks.drop_last(), id)
    }
}

/// The block is a key/value grouping whose tags name it a key.
pub open spec fn is_key_block(b: Block) -> bool {
    b.id is Some && b.kind == BlockKind::KeyValueSet && b.role_hints@.contains(RoleHint::Key)
}

/// The block is a key/value grouping whose tags do not name it a key.
pub open spec fn is_value_block(b: Block) -> bool {
    b.id is Some && b.kind == BlockKind::KeyValueSet && !b.role_hints@.contains(RoleHint::Key)
}

/// Positions, in order, of the blocks that satisfy the role test `key` picks.
pub open spec fn role_positions(blocks: Seq<Block>, key: bool) -> Seq<usize>
    decreases blocks.len(),
{
    if blocks.len() == 0 {
        Seq::empty()
    } else {
        let before = role_positions(blocks.drop_last(), key);
        let b = blocks.last();
        if (key && is_key_block(b)) || (!key && is_value_block(b)) {
            before.push((blocks.len() - 1) as usize)
        } else {
            before
        }
    }
}

/// Among the positions `positions`, the last whose block carries `id`.
pub open spec fn last_position_with_id(blocks: Seq<Block>, positions: Seq<usize>, id: Seq<char>) -> Option<int>
    decreases positions.len(),
{
    if positions.len() == 0 {
        None
    } else if 0 <= positions.last() < blocks.len() && has_id(blocks[positions.last() as int], id) {
        Some(positions.last() as int)
    } else {
        last_position_with_id(blocks, positions.drop_last(), id)
    }
}

/// The value block that `id` names, where a later value block replaces an
/// earlier one of the same id.
pub open spec fn value_block_for(blocks: Seq<Block>, id: Seq<char>) -> Option<int> {
    last_position_with_id(blocks, role_positions(blocks, false), id)
}

/// Whether the tags hold `Key`.
pub fn has_key_hint(hints: &Vec<RoleHint>) -> (r: bool)
    ensures
        r == hints@.contains(RoleHint::Key),
{
    let mut i: usize = 0;
    while i < hints.len()
        invariant
            i <= hints.len(),
            forall|j: int| 0 <= j < i ==> hints@[j] != RoleHint::Key,
        decreases hints.len() - i,
    {
        if hints[i] == RoleHint::Key {
            return true;
        }
        i = i + 1;
    }
    false
}

/// Whether the block carries `id`.
pub fn block_has_id(b: &Block, id: &String) -> (r: bool)
    ensures
        r == has_id(*b, id@),
{
    match &b.id {
        Some(own) => *own == *id,
        None => false,
    }
}

/// The lookup by id: the position of the last block that carries `id`.
pub fn find_block(blocks: &[Block], id: &String) -> (r: Option<usize>)
    ensures
        r matches Some(i) ==> i < blocks@.len(),
        as_position(r) == last_with_id(blocks@, id@),
{
    let mut found: Option<usize> = None;
    let mut i: usize = 0;
    while i < blocks.len()
        invariant
            i <= blocks@.len(),
            found matches Some(j) ==> j < i,
            as_position(found) == last_with_id(blocks@.take(i as int), id@),
        decreases blocks.len() - i,
    {
        proof {
            assert(blocks@.take(i + 1).drop_last() =~= blocks@.take(i as int));
        }
        if block_has_id(&blocks[i], id) {
            found = Some(i);
        }
        i = i + 1;
    }
    proof {
        assert(blocks@.take(i as int) =~= blocks@);
    }
    found
}

/// The blocks of one response sorted by role, by their positions in the list.
pub struct BlockIndex {
    pub key_blocks: Vec<usize>,
    pub value_blocks: Vec<usize>,
}

impl BlockIndex {
    /// The index describes `blocks`.
    pub open spec fn describes(&self, blocks: Seq<Block>) -> bool {
        self.key_blocks@ == role_positions(blocks, true)
            && self.value_blocks@ == role_positions(blocks, false)
    }

    /// Sorts the key/value groupings of `blocks` into keys and values, in list
    /// order. A block without an id takes no part.
    pub fn build(blocks: &[Block]) -> (r: BlockIndex)
        ensures
            r.describes(blocks@),
    {
        let mut key_blocks: Vec<usize> = Vec::new();
        let mut value_blocks: Vec<usize> = Vec::new();
        let mut i: usize = 0;
        while i < blocks.len()
            invariant
                i <= blocks@.len(),
                key_blocks@ == role_positions(blocks@.take(i as int), true),
                value_blocks@ == role_positions(blocks@.take(i as int), false),
            decreases blocks.len() - i,
        {
            proof {
                assert(blocks@.take(i + 1).drop_last() =~= blocks@.take(i as int));
            }
            let b = &blocks[i];
            if b.id.is_some() && b.kind == BlockKind::KeyValueSet {
                if has_key_hint(&b.role_hints) {
                    key_blocks.push(i);
                } else {
                    value_blocks.push(i);
                }
            }
            i = i + 1;
        }
        proof {
            assert(blocks@.take(i as int) =~= blocks@);
        }
        BlockIndex { key_blocks, value_blocks }
    }

    /// The value block that `id` names, if any.
    pub fn find_value_block(&self, blocks: &[Block], id: &String) -> (r: Option<usize>)
        requires
            self.describes(blocks@),
        ensures
            r matches Some(i) ==> i < blocks@.len(),
            as_position(r) == value_block_for(blocks@, id@),
    {
        let ghost positions = self.value_blocks@;
        let mut found: Option<usize> = None;
        let mut i: usize = 0;
        while i < self.value_blocks.len()
            invariant
                i <= positions.len(),
                positions == self.value_blocks@,
                found matches Some(j) ==> j < blocks@.len(),
                as_position(found) == last_position_with_id(blocks@, positions.take(i as int), id@),
            decreases positions.len() - i,
        {
            proof {
                assert(positions.take(i + 1).drop_last() =~= positions.take(i as int));
            }
            let p = self.value_blocks[i];
            if p < blocks.len() && block_has_id(&blocks[p], id) {
                found = Some(p);
            }
            i = i + 1;
        }
        proof {
            assert(positions.take(i as int) =~= positions);
        }
        found
    }
}

} // verus!
