//! Walking the typed edges of a block: its text, and the values it names.

use vstd::prelude::*;
use vstd::string::StringExecFns;
use crate::block::{
    Block, BlockKind, RelationKind, Relationship, find_block, ids_view, last_with_id,
    targets_of,
};

verus! {

/// The text that the child `id` adds: that of a word with non-empty text,
/// else nothing.
pub open spec fn word_text(blocks: Seq<Block>, id: Seq<char>) -> Option<Seq<char>> {
    match last_with_id(blocks, id) {
        Some(i) => {
            let b = blocks[i];
            if b.kind == BlockKind::Word && b.text is Some && b.text->0@.len() > 0 {
                Some(b.text->0@)
            } else {
                None
            }
        },
        None => None,
    }
}

/// The texts of the children `ids` that resolve to words, in order.
pub open spec fn words_of(blocks: Seq<Block>, ids: Seq<Seq<char>>) -> Seq<Seq<char>>
    decreases ids.len(),
{
    if ids.len() == 0 {
        Seq::empty()
    } else {
        let before = words_of(blocks, ids.drop_last());
        match word_text(blocks, ids.last()) {
            Some(t) => before.push(t),
            None => before,
        }
    }
}

/// The words joined by single spaces.
pub open spec fn join_words(words: Seq<Seq<char>>) -> Seq<char>
    decreases words.len(),
{
    if words.len() == 0 {
        Seq::empty()
    } else if words.len() == 1 {
        words[0]
    } else {
        join_words(words.drop_last()) + seq![' '] + words.last()
    }
}

/// Joining two runs of words is joining each and putting one space between:
/// the words keep their order, and no space is added at either end.
pub proof fn lemma_join_words_concat(ws: Seq<Seq<char>>, vs: Seq<Seq<char>>)
    requires
        ws.len() > 0,
        vs.len() > 0,
    ensures
        join_words(ws + vs) == join_words(ws) + seq![' '] + join_words(vs),
    decreases vs.len(),
{
    if vs.len() == 1 {
        assert((ws + vs).drop_last() =~= ws);
        assert((ws + vs).last() == vs[0]);
    } else {
        lemma_join_words_concat(ws, vs.drop_last());
        assert((ws + vs).drop_last() =~= ws + vs.drop_last());
        assert((ws + vs).last() == vs.last());
        assert(join_words(ws) + seq![' '] + join_words(vs.drop_last()) + seq![' '] + vs.last()
            =~= join_words(ws) + seq![' '] + (join_words(vs.drop_last()) + seq![' '] + vs.last()));
    }
}

/// Words that neither start nor end with a space join into a text that is
/// empty only without words, and that neither starts nor ends with a space.
pub proof fn lemma_join_words_trimmed(ws: Seq<Seq<char>>)
    requires
        forall|i: int| 0 <= i < ws.len() ==> (#[trigger] ws[i]).len() > 0 && ws[i][0] != ' ' && ws[i].last() != ' ',
    ensures
        (join_words(ws).len() == 0) == (ws.len() == 0),
        join_words(ws).len() > 0 ==> join_words(ws)[0] != ' ' && join_words(ws).last() != ' ',
    decreases ws.len(),
{
    if ws.len() > 1 {
        let t = ws.drop_last();
        assert forall|i: int| 0 <= i < t.len() implies (#[trigger] t[i]).len() > 0 && t[i][0] != ' ' && t[i].last() != ' ' by {
            assert(t[i] == ws[i]);
        }
        lemma_join_words_trimmed(t);
        let j = join_words(t) + seq![' '] + ws.last();
        assert(j[0] == join_words(t)[0]);
        assert(j.last() == ws.last().last());
    } else if ws.len() == 1 {
        assert(ws[0] == ws[ws.len() - 1]);
    }
}

/// The text of a block: the words among its children, joined by spaces.
pub open spec fn block_text(blocks: Seq<Block>, b: Block) -> Seq<char> {
    join_words(words_of(blocks, targets_of(b.relationships@, RelationKind::Child)))
}

/// Unfolds `targets_of` by one edge.
pub proof fn lemma_targets_step(rels: Seq<Relationship>, r: int, kind: RelationKind)
    requires
        0 <= r < rels.len(),
    ensures
        targets_of(rels.take(r + 1), kind) == if rels[r].kind == kind {
            targets_of(rels.take(r), kind) + ids_view(rels[r].target_ids@)
        } else {
            targets_of(rels.take(r), kind)
        },
{
    assert(rels.take(r + 1).drop_last() =~= rels.take(r));
    assert(rels.take(r + 1).last() == rels[r]);
}

/// Taking one more id of an edge adds one element to the viewed ids.
pub proof fn lemma_ids_view_step(ids: Seq<String>, k: int)
    requires
        0 <= k < ids.len(),
    ensures
        ids_view(ids.take(k + 1)) == ids_view(ids.take(k)).push(ids[k]@),
{
    assert(ids_view(ids.take(k + 1)) =~= ids_view(ids.take(k)).push(ids[k]@));
}

/// The text of `block`: every `CHILD` edge is followed, edge after edge and
/// id after id, and each id that names a word with non-empty text adds that
/// text; the texts are joined by single spaces. Ids that name nothing, or
/// something else than a word, add nothing.
pub fn get_text_for_block(block: &Block, blocks: &[Block]) -> (r: String)
    ensures
        r@ == block_text(blocks@, *block),
{
    let rels = &block.relationships;
    let ghost all = blocks@;
    let mut text = String::new();
    let mut any = false;
    let mut r: usize = 0;
    while r < rels.len()
        invariant
            r <= rels@.len(),
            all == blocks@,
            text@ == join_words(words_of(all, targets_of(rels@.take(r as int), RelationKind::Child))),
            any == (words_of(all, targets_of(rels@.take(r as int), RelationKind::Child)).len() > 0),
        decreases rels.len() - r,
    {
        proof {
            lemma_targets_step(rels@, r as int, RelationKind::Child);
        }
        let rel = &rels[r];
        if rel.kind == RelationKind::Child {
            let ghost before = targets_of(rels@.take(r as int), RelationKind::Child);
            let ids = &rel.target_ids;
            let mut k: usize = 0;
            while k < ids.len()
                invariant
                    k <= ids@.len(),
                    all == blocks@,
                    text@ == join_words(words_of(all, before + ids_view(ids@.take(k as int)))),
                    any == (words_of(all, before + ids_view(ids@.take(k as int))).len() > 0),
                decreases ids.len() - k,
            {
                let ghost seen = before + ids_view(ids@.take(k as int));
                proof {
                    lemma_ids_view_step(ids@, k as int);
                    assert(before + ids_view(ids@.take(k + 1)) =~= seen.push(ids@[k as int]@));
                    assert(seen.push(ids@[k as int]@).drop_last() =~= seen);
                }
                let found = find_block(blocks, &ids[k]);
                if let Some(i) = found {
                    let b = &blocks[i];
                    if b.kind == BlockKind::Word {
                        if let Some(t) = &b.text {
                            if !t.as_str().is_empty() {
                                proof {
                                    reveal_strlit(" ");
                                    let ws = words_of(all, seen);
                                    assert(ws.push(t@).drop_last() =~= ws);
                                }
                                if any {
                                    text.append(" ");
                                }
                                text.append(t.as_str());
                                any = true;
                            }
                        }
                    }
                }
                k = k + 1;
            }
            proof {
                assert(ids@.take(ids@.len() as int) =~= ids@);
            }
        }
        r = r + 1;
    }
    proof {
        assert(rels@.take(rels@.len() as int) =~= rels@);
    }
    text
}

/// The ids that every `VALUE` edge of `key_block` names, edge after edge.
pub fn resolve_value_targets(key_block: &Block) -> (r: Vec<String>)
    ensures
        ids_view(r@) == targets_of(key_block.relationships@, RelationKind::Value),
{
    let rels = &key_block.relationships;
    let mut out: Vec<String> = Vec::new();
    let mut r: usize = 0;
    while r < rels.len()
        invariant
            r <= rels@.len(),
            ids_view(out@) == targets_of(rels@.take(r as int), RelationKind::Value),
        decreases rels.len() - r,
    {
        proof {
            lemma_targets_step(rels@, r as int, RelationKind::Value);
        }
        let rel = &rels[r];
        if rel.kind == RelationKind::Value {
            let ghost before = ids_view(out@);
            let ids = &rel.target_ids;
            let mut k: usize = 0;
            while k < ids.len()
                invariant
                    k <= ids@.len(),
                    ids_view(out@) == before + ids_view(ids@.take(k as int)),
                decreases ids.len() - k,
            {
                proof {
                    lemma_ids_view_step(ids@, k as int);
                }
                let ghost old_out = out@;
                let id = ids[k].clone();
                out.push(id);
                proof {
                    assert(ids_view(out@) =~= ids_view(old_out).push(ids@[k as int]@));
                    assert(ids_view(out@) =~= before + ids_view(ids@.take(k + 1)));
                }
                k = k + 1;
            }
            proof {
                assert(ids@.take(ids@.len() as int) =~= ids@);
            }
        }
        r = r + 1;
    }
    proof {
        assert(rels@.take(rels@.len() as int) =~= rels@);
    }
    out
}

} // verus!
