use form_pairs::block::{Block, BlockIndex, BlockKind, RelationKind, Relationship, RoleHint, find_block};
use form_pairs::fraction::{BoundingBox, Fraction};
use form_pairs::pairs::{KeyValuePair, extract_key_value_pairs};
use form_pairs::resolve::{get_text_for_block, resolve_value_targets};

fn frac(x: f32) -> Fraction {
    Fraction { bits: x.to_bits() }
}

fn bbox(left: f32, top: f32, width: f32, height: f32) -> BoundingBox {
    BoundingBox { width: frac(width), height: frac(height), left: frac(left), top: frac(top) }
}

fn edge(kind: RelationKind, ids: &[&str]) -> Relationship {
    Relationship { kind, target_ids: ids.iter().map(|s| s.to_string()).collect() }
}

fn word(id: &str, text: &str) -> Block {
    Block {
        id: Some(id.to_string()),
        kind: BlockKind::Word,
        role_hints: vec![],
        text: Some(text.to_string()),
        bounding_box: None,
        relationships: vec![],
    }
}

fn key_block(id: &str, children: &[&str], values: &[&str], bb: Option<BoundingBox>) -> Block {
    Block {
        id: Some(id.to_string()),
        kind: BlockKind::KeyValueSet,
        role_hints: vec![RoleHint::Key],
        text: None,
        bounding_box: bb,
        relationships: vec![edge(RelationKind::Child, children), edge(RelationKind::Value, values)],
    }
}

fn value_block(id: &str, children: &[&str], bb: Option<BoundingBox>) -> Block {
    Block {
        id: Some(id.to_string()),
        kind: BlockKind::KeyValueSet,
        role_hints: vec![RoleHint::Value],
        text: None,
        bounding_box: bb,
        relationships: vec![edge(RelationKind::Child, children)],
    }
}

fn texts(pairs: &[KeyValuePair]) -> Vec<(String, String)> {
    pairs.iter().map(|p| (p.key.clone(), p.value.clone())).collect()
}

#[test]
fn text_joins_words_in_edge_order() {
    let blocks = vec![
        word("w1", "Patient"),
        word("w2", "Name"),
        key_block("k", &["w1", "w2"], &[], None),
    ];
    assert_eq!(get_text_for_block(&blocks[2], &blocks), "Patient Name");
}

#[test]
fn text_follows_several_child_edges_in_order() {
    let mut k = key_block("k", &["w2"], &[], None);
    k.relationships.push(edge(RelationKind::Child, &["w1", "w3"]));
    let blocks = vec![word("w1", "b"), word("w2", "a"), word("w3", "c"), k];
    assert_eq!(get_text_for_block(&blocks[3], &blocks), "a b c");
}

#[test]
fn text_skips_missing_non_word_and_empty_children() {
    let mut line = word("l1", "LINE");
    line.kind = BlockKind::Line;
    let mut no_text = word("w3", "x");
    no_text.text = None;
    let blocks = vec![
        word("w1", "Date"),
        line,
        word("w2", ""),
        no_text,
        word("w4", "of birth"),
        key_block("k", &["w1", "l1", "missing", "w2", "w3", "w4"], &[], None),
    ];
    assert_eq!(get_text_for_block(&blocks[5], &blocks), "Date of birth");
}

#[test]
fn text_is_empty_without_resolvable_children() {
    let blocks = vec![key_block("k", &["nothing"], &[], None)];
    assert_eq!(get_text_for_block(&blocks[0], &blocks), "");
}

#[test]
fn value_targets_are_flattened_in_order() {
    let mut k = key_block("k", &["w"], &["v1", "v2"], None);
    k.relationships.push(edge(RelationKind::Child, &["x"]));
    k.relationships.push(edge(RelationKind::Value, &["v3"]));
    assert_eq!(resolve_value_targets(&k), vec!["v1".to_string(), "v2".to_string(), "v3".to_string()]);
}

#[test]
fn lookup_by_id_keeps_the_last_block() {
    let blocks = vec![word("a", "first"), word("b", "other"), word("a", "second")];
    assert_eq!(find_block(&blocks, &"a".to_string()), Some(2));
    assert_eq!(find_block(&blocks, &"b".to_string()), Some(1));
    assert_eq!(find_block(&blocks, &"z".to_string()), None);
}

#[test]
fn index_sorts_groupings_by_role() {
    let mut anonymous = key_block("x", &[], &[], None);
    anonymous.id = None;
    let blocks = vec![
        word("w", "a"),
        key_block("k1", &[], &[], None),
        value_block("v1", &[], None),
        anonymous,
        key_block("k2", &[], &[], None),
        value_block("v2", &[], None),
    ];
    let index = BlockIndex::build(&blocks);
    assert_eq!(index.key_blocks, vec![1, 4]);
    assert_eq!(index.value_blocks, vec![2, 5]);
    assert_eq!(index.find_value_block(&blocks, &"v2".to_string()), Some(5));
    assert_eq!(index.find_value_block(&blocks, &"k1".to_string()), None);
    assert_eq!(index.find_value_block(&blocks, &"w".to_string()), None);
}

#[test]
fn one_key_one_value_gives_one_record() {
    let blocks = vec![
        key_block("K1", &["w1"], &["V1"], None),
        value_block("V1", &["w2", "w3"], None),
        word("w1", "Name"),
        word("w2", "John"),
        word("w3", "Doe"),
    ];
    let pairs = extract_key_value_pairs(&blocks);
    assert_eq!(texts(&pairs), vec![("Name".to_string(), "John Doe".to_string())]);
    assert!(pairs[0].key_bounding_box.is_none());
    assert!(pairs[0].value_bounding_box.is_none());
}

#[test]
fn dangling_value_id_gives_no_record() {
    let blocks = vec![
        key_block("K1", &["w1"], &["V9"], None),
        value_block("V1", &["w2"], None),
        word("w1", "Name"),
        word("w2", "John"),
    ];
    assert!(extract_key_value_pairs(&blocks).is_empty());
}

#[test]
fn no_groupings_give_no_records() {
    let mut line = word("l", "Name John");
    line.kind = BlockKind::Line;
    line.relationships.push(edge(RelationKind::Child, &["w1", "w2"]));
    let blocks = vec![word("w1", "Name"), word("w2", "John"), line];
    assert!(extract_key_value_pairs(&blocks).is_empty());
    assert!(extract_key_value_pairs(&[]).is_empty());
}

#[test]
fn key_without_value_edges_is_dropped() {
    let blocks = vec![key_block("K1", &["w1"], &[], None), word("w1", "Name"), value_block("V1", &[], None)];
    assert!(extract_key_value_pairs(&blocks).is_empty());
}

#[test]
fn key_pointing_at_non_value_block_is_dropped() {
    let blocks = vec![
        key_block("K1", &["w1"], &["w1", "K2"], None),
        key_block("K2", &[], &[], None),
        word("w1", "Name"),
    ];
    assert!(extract_key_value_pairs(&blocks).is_empty());
}

#[test]
fn each_resolvable_value_gives_its_own_record() {
    let kb = bbox(0.1, 0.2, 0.3, 0.05);
    let blocks = vec![
        key_block("K1", &["w1"], &["V1", "V9", "V2", "V1"], Some(kb)),
        value_block("V1", &["w2"], Some(bbox(0.5, 0.2, 0.1, 0.05))),
        value_block("V2", &["w3"], None),
        word("w1", "Phone"),
        word("w2", "555"),
        word("w3", "777"),
    ];
    let pairs = extract_key_value_pairs(&blocks);
    assert_eq!(
        texts(&pairs),
        vec![
            ("Phone".to_string(), "555".to_string()),
            ("Phone".to_string(), "777".to_string()),
            ("Phone".to_string(), "555".to_string()),
        ]
    );
    for p in &pairs {
        assert_eq!(p.key_bounding_box, Some(kb));
    }
    assert_eq!(pairs[0].value_bounding_box, Some(bbox(0.5, 0.2, 0.1, 0.05)));
    assert_eq!(pairs[1].value_bounding_box, None);
}

#[test]
fn keys_are_taken_in_list_order() {
    let blocks = vec![
        word("a", "A"),
        word("b", "B"),
        key_block("K2", &["b"], &["V2"], None),
        key_block("K1", &["a"], &["V1"], None),
        value_block("V1", &["a"], None),
        value_block("V2", &["b"], None),
    ];
    let pairs = extract_key_value_pairs(&blocks);
    assert_eq!(texts(&pairs), vec![("B".to_string(), "B".to_string()), ("A".to_string(), "A".to_string())]);
}
