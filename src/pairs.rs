//! Pairing key blocks with the value blocks they name.

use vstd::prelude::*;
use crate::fraction::BoundingBox;
use crate::block::{
    Block, BlockIndex, BlockKind, RelationKind, is_key_block, role_positions, targets_of,
    value_block_for,
};
use crate::resolve::{block_text, get_text_for_block, resolve_value_targets};

verus! {

/// One form field: a key's text and a value's text, each with the rectangle
/// its block occupies, if the block has one.
pub struct KeyValuePair {
    pub key: String,
    pub value: String,
    pub key_bounding_box: Option<BoundingBox>,
    pub value_bounding_box: Option<BoundingBox>,
}

/// What a `KeyValuePair` holds.
pub struct PairView {
    pub key: Seq<char>,
    pub value: Seq<char>,
    pub key_box: Option<BoundingBox>,
    pub value_box: Option<BoundingBox>,
}

impl View for KeyValuePair {
    type V = PairView;

    open spec fn view(&self) -> PairView {
        PairView {
            key: self.key@,
            value: self.value@,
            key_box: self.key_bounding_box,
            value_box: self.value_bounding_box,
        }
    }
}

impl KeyValuePair {
    /// A copy of the pair.
    pub fn duplicate(&self) -> (r: KeyValuePair)
        ensures
            r@ == self@,
    {
        KeyValuePair {
            key: self.key.clone(),
            value: self.value.clone(),
            key_bounding_box: self.key_bounding_box,
            value_bounding_box: self.value_bounding_box,
        }
    }
}

/// The views of a list of pairs.
pub open spec fn pairs_view(pairs: Seq<KeyValuePair>) -> Seq<PairView> {
    pairs.map_values(|p: KeyValuePair| p@)
}

/// The record that key block `k` and value block `v` make.
pub open spec fn pair_for(blocks: Seq<Block>, k: Block, v: Block) -> PairView {
    PairView {
        key: block_text(blocks, k),
        value: block_text(blocks, v),
        key_box: k.bounding_box,
        value_box: v.bounding_box,
    }
}

/// The records of key block `k` for the value ids `ids`: one for each id that
/// names a value block, in order; the other ids are passed over.
pub open spec fn pairs_for_targets(blocks: Seq<Block>, k: Block, ids: Seq<Seq<char>>) -> Seq<PairView>
    decreases ids.len(),
{
    if ids.len() == 0 {
        Seq::empty()
    } else {
        let before = pairs_for_targets(blocks, k, ids.drop_last());
        match value_block_for(blocks, ids.last()) {
            Some(j) => before.push(pair_for(blocks, k, blocks[j])),
            None => before,
        }
    }
}

/// The records of key block `k`.
pub open spec fn pairs_for_key(blocks: Seq<Block>, k: Block) -> Seq<PairView> {
    pairs_for_targets(blocks, k, targets_of(k.relationships@, RelationKind::Value))
}

/// The records of the key blocks at `positions`, key after key.
pub open spec fn pairs_for_positions(blocks: Seq<Block>, positions: Seq<usize>) -> Seq<PairView>
    decreases positions.len(),
{
    if positions.len() == 0 {
        Seq::empty()
    } else {
        let p = positions.last() as int;
        let before = pairs_for_positions(blocks, positions.drop_last());
        if 0 <= p < blocks.len() {
            before + pairs_for_key(blocks, blocks[p])
        } else {
            before
        }
    }
}

/// The records of a whole response: those of each key block, in list order.
pub open spec fn extracted_pairs(blocks: Seq<Block>) -> Seq<PairView> {
    pairs_for_positions(blocks, role_positions(blocks, true))
}

/// Builds the records of `blocks`: for each key block, and for each id that
/// its `VALUE` edges name and that is the id of a value block, one record of
/// the key's text and box and the value's text and box. A key block whose
/// ids name no value block gives no record.
pub fn extract_key_value_pairs(blocks: &[Block]) -> (r: Vec<KeyValuePair>)
    ensures
        pairs_view(r@) == extracted_pairs(blocks@),
{
    let index = BlockIndex::build(blocks);
    let ghost keys = index.key_blocks@;
    let mut out: Vec<KeyValuePair> = Vec::new();
    let mut n: usize = 0;
    while n < index.key_blocks.len()
        invariant
            n <= keys.len(),
            keys == index.key_blocks@,
            index.describes(blocks@),
            pairs_view(out@) == pairs_for_positions(blocks@, keys.take(n as int)),
        decreases keys.len() - n,
    {
        proof {
            assert(keys.take(n + 1).drop_last() =~= keys.take(n as int));
        }
        let p = index.key_blocks[n];
        if p < blocks.len() {
            let key_block = &blocks[p];
            let key_text = get_text_for_block(key_block, blocks);
            let key_box = key_block.bounding_box;
            let targets = resolve_value_targets(key_block);
            let ghost ids = targets_of(key_block.relationships@, RelationKind::Value);
            let ghost before = pairs_view(out@);
            let mut t: usize = 0;
            while t < targets.len()
                invariant
                    t <= targets@.len(),
                    index.describes(blocks@),
                    p < blocks@.len(),
                    key_block == &blocks@[p as int],
                    key_text@ == block_text(blocks@, *key_block),
                    key_box == key_block.bounding_box,
                    ids == targets@.map_values(|s: String| s@),
                    pairs_view(out@) == before + pairs_for_targets(blocks@, *key_block, ids.take(t as int)),
                decreases targets@.len() - t,
            {
                proof {
                    assert(ids.take(t + 1).drop_last() =~= ids.take(t as int));
                    assert(ids.take(t + 1).last() == targets@[t as int]@);
                }
                let ghost old_out = out@;
                match index.find_value_block(blocks, &targets[t]) {
                    Some(j) => {
                        let value_block = &blocks[j];
                        let value_text = get_text_for_block(value_block, blocks);
                        out.push(KeyValuePair {
                            key: key_text.clone(),
                            value: value_text,
                            key_bounding_box: key_box,
                            value_bounding_box: value_block.bounding_box,
                        });
                        proof {
                            assert(pairs_view(out@) =~= pairs_view(old_out).push(
                                pair_for(blocks@, *key_block, blocks@[j as int]),
                            ));
                        }
                    },
                    None => {},
                }
                t = t + 1;
            }
            proof {
                assert(ids.take(ids.len() as int) =~= ids);
            }
        }
        n = n + 1;
    }
    proof {
        assert(keys.take(keys.len() as int) =~= keys);
    }
    out
}

/// The ids among `ids` that name a value block.
pub open spec fn resolvable_ids(blocks: Seq<Block>, ids: Seq<Seq<char>>) -> Seq<Seq<char>> {
    ids.filter(|id: Seq<char>| value_block_for(blocks, id) is Some)
}

/// Without key/value groupings there are no key blocks.
proof fn lemma_no_groupings_no_keys(blocks: Seq<Block>)
    requires
        forall|i: int| 0 <= i < blocks.len() ==> blocks[i].kind != BlockKind::KeyValueSet,
    ensures
        role_positions(blocks, true).len() == 0,
    decreases blocks.len(),
{
    if blocks.len() > 0 {
        lemma_no_groupings_no_keys(blocks.drop_last());
    }
}

/// A list of blocks without key/value groupings yields no record.
pub proof fn lemma_no_groupings_no_pairs(blocks: Seq<Block>)
    requires
        forall|i: int| 0 <= i < blocks.len() ==> blocks[i].kind != BlockKind::KeyValueSet,
    ensures
        extracted_pairs(blocks).len() == 0,
{
    lemma_no_groupings_no_keys(blocks);
}

/// Each id that names a value block gives one record, and every record holds
/// the key's own text and box.
proof fn lemma_pairs_for_targets(blocks: Seq<Block>, k: Block, ids: Seq<Seq<char>>)
    ensures
        pairs_for_targets(blocks, k, ids).len() == resolvable_ids(blocks, ids).len(),
        forall|i: int| 0 <= i < pairs_for_targets(blocks, k, ids).len() ==> {
            &&& #[trigger] pairs_for_targets(blocks, k, ids)[i].key == block_text(blocks, k)
            &&& pairs_for_targets(blocks, k, ids)[i].key_box == k.bounding_box
        },
    decreases ids.len(),
{
    reveal(Seq::filter);
    if ids.len() > 0 {
        lemma_pairs_for_targets(blocks, k, ids.drop_last());
    }
}

/// A key block with `n` value ids that name value blocks gives exactly `n`
/// records, all with the key's text and box.
pub proof fn lemma_records_per_key(blocks: Seq<Block>, k: Block)
    ensures
        pairs_for_key(blocks, k).len()
            == resolvable_ids(blocks, targets_of(k.relationships@, RelationKind::Value)).len(),
        forall|i: int| 0 <= i < pairs_for_key(blocks, k).len() ==> {
            &&& #[trigger] pairs_for_key(blocks, k)[i].key == block_text(blocks, k)
            &&& pairs_for_key(blocks, k)[i].key_box == k.bounding_box
        },
{
    lemma_pairs_for_targets(blocks, k, targets_of(k.relationships@, RelationKind::Value));
}

/// A key block none of whose value ids names a value block gives no record,
/// not even one with an empty value.
pub proof fn lemma_unresolved_key_gives_nothing(blocks: Seq<Block>, k: Block)
    requires
        forall|i: int|
            0 <= i < targets_of(k.relationships@, RelationKind::Value).len()
                ==> value_block_for(blocks, #[trigger] targets_of(k.relationships@, RelationKind::Value)[i]) is None,
    ensures
        pairs_for_key(blocks, k).len() == 0,
{
    let ids = targets_of(k.relationships@, RelationKind::Value);
    lemma_records_per_key(blocks, k);
    let res = resolvable_ids(blocks, ids);
    if res.len() > 0 {
        ids.lemma_filter_contains_rev(|id: Seq<char>| value_block_for(blocks, id) is Some, res[0]);
        ids.lemma_filter_pred(|id: Seq<char>| value_block_for(blocks, id) is Some, 0);
    }
}

/// How many records of `s` hold the key text `key` and the key box `kb`.
pub open spec fn count_key_records(s: Seq<PairView>, key: Seq<char>, kb: Option<BoundingBox>) -> nat
    decreases s.len(),
{
    if s.len() == 0 {
        0
    } else {
        count_key_records(s.drop_last(), key, kb) + if s.last().key == key && s.last().key_box == kb {
            1nat
        } else {
            0nat
        }
    }
}

proof fn lemma_count_key_records_add(a: Seq<PairView>, b: Seq<PairView>, key: Seq<char>, kb: Option<BoundingBox>)
    ensures
        count_key_records(a + b, key, kb) == count_key_records(a, key, kb) + count_key_records(b, key, kb),
    decreases b.len(),
{
    if b.len() == 0 {
        assert(a + b =~= a);
    } else {
        lemma_count_key_records_add(a, b.drop_last(), key, kb);
        assert((a + b).drop_last() =~= a + b.drop_last());
        assert((a + b).last() == b.last());
    }
}

proof fn lemma_count_uniform(s: Seq<PairView>, key: Seq<char>, kb: Option<BoundingBox>, key0: Seq<char>, kb0: Option<BoundingBox>)
    requires
        forall|i: int| 0 <= i < s.len() ==> (#[trigger] s[i]).key == key0 && s[i].key_box == kb0,
    ensures
        count_key_records(s, key, kb) == if key0 == key && kb0 == kb { s.len() } else { 0 },
    decreases s.len(),
{
    if s.len() > 0 {
        let t = s.drop_last();
        assert forall|i: int| 0 <= i < t.len() implies (#[trigger] t[i]).key == key0 && t[i].key_box == kb0 by {
            assert(t[i] == s[i]);
        }
        lemma_count_uniform(t, key, kb, key0, kb0);
    }
}

/// In the records of all key blocks, the key block at `p` has as many
/// records with its text and box as its value ids name value blocks, when no
/// other key block has both the same text and the same box.
pub proof fn lemma_records_of_key_in_result(blocks: Seq<Block>, p: int)
    requires
        0 <= p < blocks.len(),
        blocks.len() <= usize::MAX,
        is_key_block(blocks[p]),
        forall|q: int|
            0 <= q < blocks.len() && q != p && is_key_block(#[trigger] blocks[q]) ==> !(block_text(blocks, blocks[q])
                == block_text(blocks, blocks[p]) && blocks[q].bounding_box == blocks[p].bounding_box),
    ensures
        count_key_records(extracted_pairs(blocks), block_text(blocks, blocks[p]), blocks[p].bounding_box)
            == resolvable_ids(blocks, targets_of(blocks[p].relationships@, RelationKind::Value)).len(),
{
    lemma_key_records_upto(blocks, p, blocks.len() as int);
    assert(blocks.take(blocks.len() as int) =~= blocks);
}

proof fn lemma_key_records_upto(blocks: Seq<Block>, p: int, n: int)
    requires
        0 <= p < blocks.len(),
        blocks.len() <= usize::MAX,
        0 <= n <= blocks.len(),
        is_key_block(blocks[p]),
        forall|q: int|
            0 <= q < blocks.len() && q != p && is_key_block(#[trigger] blocks[q]) ==> !(block_text(blocks, blocks[q])
                == block_text(blocks, blocks[p]) && blocks[q].bounding_box == blocks[p].bounding_box),
    ensures
        count_key_records(
            pairs_for_positions(blocks, role_positions(blocks.take(n), true)),
            block_text(blocks, blocks[p]),
            blocks[p].bounding_box,
        ) == if p < n {
            resolvable_ids(blocks, targets_of(blocks[p].relationships@, RelationKind::Value)).len()
        } else {
            0
        },
    decreases n,
{
    let key = block_text(blocks, blocks[p]);
    let kb = blocks[p].bounding_box;
    if n == 0 {
        assert(role_positions(blocks.take(0), true).len() == 0);
    } else {
        lemma_key_records_upto(blocks, p, n - 1);
        let t = blocks.take(n);
        assert(t.drop_last() =~= blocks.take(n - 1));
        assert(t.last() == blocks[n - 1]);
        let before = role_positions(blocks.take(n - 1), true);
        if is_key_block(blocks[n - 1]) {
            let ps = before.push((n - 1) as usize);
            assert(role_positions(t, true) == ps);
            assert(ps.drop_last() =~= before);
            let k = blocks[n - 1];
            lemma_records_per_key(blocks, k);
            lemma_count_uniform(pairs_for_key(blocks, k), key, kb, block_text(blocks, k), k.bounding_box);
            lemma_count_key_records_add(pairs_for_positions(blocks, before), pairs_for_key(blocks, k), key, kb);
            assert(pairs_for_positions(blocks, ps) == pairs_for_positions(blocks, before) + pairs_for_key(blocks, k));
        } else {
            assert(role_positions(t, true) == before);
        }
    }
}

/// A key block none of whose value ids names a value block leaves no record
/// with its text and box in the result, when no other key block has both the
/// same text and the same box.
pub proof fn lemma_unresolved_key_absent_from_result(blocks: Seq<Block>, p: int)
    requires
        0 <= p < blocks.len(),
        blocks.len() <= usize::MAX,
        is_key_block(blocks[p]),
        forall|q: int|
            0 <= q < blocks.len() && q != p && is_key_block(#[trigger] blocks[q]) ==> !(block_text(blocks, blocks[q])
                == block_text(blocks, blocks[p]) && blocks[q].bounding_box == blocks[p].bounding_box),
        forall|i: int|
            0 <= i < targets_of(blocks[p].relationships@, RelationKind::Value).len() ==> value_block_for(
                blocks,
                #[trigger] targets_of(blocks[p].relationships@, RelationKind::Value)[i],
            ) is None,
    ensures
        count_key_records(extracted_pairs(blocks), block_text(blocks, blocks[p]), blocks[p].bounding_box) == 0,
{
    lemma_records_of_key_in_result(blocks, p);
    lemma_unresolved_key_gives_nothing(blocks, blocks[p]);
    lemma_records_per_key(blocks, blocks[p]);
}

} // verus!
