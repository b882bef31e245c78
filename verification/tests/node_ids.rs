use graphodoc::node_id::parse_node_id;
use graphodoc::node_id::NodeId;
use graphodoc::node_id::NodeKind;
use std::hash::Hash;
use std::hash::Hasher;

fn std_hash(s: &str) -> u64 {
    let mut h = std::collections::hash_map::DefaultHasher::new();
    s.hash(&mut h);
    h.finish()
}

#[test]
fn document_ids_are_u32() {
    assert_eq!(NodeId::new_document(7), NodeId::U32(7));
}

#[test]
fn concept_of_u32_document_shifts_into_u64() {
    let doc = NodeId::new_document(1);
    assert_eq!(NodeId::new_concept(&doc, 2), NodeId::U64(0x1_0000_0002));
    assert_eq!(NodeId::new_concept(&NodeId::U32(0), 0), NodeId::U64(0));
    assert_eq!(
        NodeId::new_concept(&NodeId::U32(u32::MAX), u32::MAX),
        NodeId::U64(u64::MAX)
    );
}

#[test]
fn concept_of_u64_goes_to_u128() {
    assert_eq!(
        NodeId::new_concept(&NodeId::U64(0x1_0000_0002), 3),
        NodeId::U128(0x1_0000_0002_0000_0003)
    );
}

#[test]
fn concept_of_u128_splits_into_chunks() {
    let d: u128 = 0x11111111_22222222_33333333_44444444;
    assert_eq!(
        NodeId::new_concept(&NodeId::U128(d), 5),
        NodeId::Chunked(vec![0x11111111, 0x22222222, 0x33333333, 0x44444444, 5])
    );
}

#[test]
fn concept_of_chunked_appends() {
    assert_eq!(
        NodeId::new_concept(&NodeId::Chunked(vec![1, 2]), 9),
        NodeId::Chunked(vec![1, 2, 9])
    );
}

#[test]
fn hex_forms_are_zero_padded_lower_case() {
    assert_eq!(NodeId::U32(255).to_hex_string(), "000000ff");
    assert_eq!(NodeId::U64(0xABCDEF).to_hex_string(), "0000000000abcdef");
    assert_eq!(
        NodeId::U128(1).to_hex_string(),
        "00000000000000000000000000000001"
    );
    assert_eq!(
        NodeId::Chunked(vec![1, 0xdeadbeef]).to_hex_string(),
        "00000001_deadbeef"
    );
    assert_eq!(NodeId::Chunked(vec![]).to_hex_string(), "");
    assert_eq!(NodeId::Chunked(vec![16]).to_hex_string(), "00000010");
}

#[test]
fn parse_chooses_width_by_length() {
    assert_eq!(parse_node_id("000000ff"), NodeId::U32(255));
    assert_eq!(parse_node_id("ff"), NodeId::U32(255));
    assert_eq!(parse_node_id("0000000000abcdef"), NodeId::U64(0xabcdef));
    assert_eq!(parse_node_id("123456789"), NodeId::U64(0x123456789));
    assert_eq!(
        parse_node_id("00000000000000000000000000000001"),
        NodeId::U128(1)
    );
    assert_eq!(parse_node_id("FF"), NodeId::U32(255));
    assert_eq!(parse_node_id("+ff"), NodeId::U32(255));
}

#[test]
fn parse_failures_give_zero() {
    assert_eq!(parse_node_id(""), NodeId::U32(0));
    assert_eq!(parse_node_id("zz"), NodeId::U32(0));
    assert_eq!(parse_node_id("+"), NodeId::U32(0));
    assert_eq!(parse_node_id("-1"), NodeId::U32(0));
    assert_eq!(parse_node_id("abcdefgh12"), NodeId::U64(0));
    assert_eq!(parse_node_id("éé"), NodeId::U32(0));
}

#[test]
fn parse_chunks_drops_bad_pieces() {
    assert_eq!(parse_node_id("1_2"), NodeId::Chunked(vec![1, 2]));
    assert_eq!(parse_node_id("x_ff"), NodeId::Chunked(vec![255]));
    assert_eq!(parse_node_id("_"), NodeId::Chunked(vec![]));
    assert_eq!(parse_node_id("100000000_1"), NodeId::Chunked(vec![1]));
}

#[test]
fn hex_form_reads_back() {
    let ids = vec![
        NodeId::U32(0),
        NodeId::U32(u32::MAX),
        NodeId::U64(0x1_0000_0000),
        NodeId::U64(u64::MAX),
        NodeId::U128(u128::MAX),
        NodeId::U128(0),
        NodeId::Chunked(vec![1, 2]),
        NodeId::Chunked(vec![0, u32::MAX, 7]),
    ];
    for id in ids {
        assert_eq!(parse_node_id(&id.to_hex_string()), id);
    }
}

#[test]
fn short_chunked_ids_do_not_read_back() {
    assert_eq!(
        parse_node_id(&NodeId::Chunked(vec![5]).to_hex_string()),
        NodeId::U32(5)
    );
    assert_eq!(
        parse_node_id(&NodeId::Chunked(vec![]).to_hex_string()),
        NodeId::U32(0)
    );
}

#[test]
fn kind_reads_two_top_bits_of_low_word() {
    assert_eq!(NodeId::U32(5).kind(), NodeKind::Document);
    assert_eq!(NodeId::U32(0x3fff_ffff).kind(), NodeKind::Document);
    assert_eq!(NodeId::U32(0x4000_0000).kind(), NodeKind::Keyword);
    assert_eq!(NodeId::U32(0x8000_0000).kind(), NodeKind::Keyword);
    assert_eq!(NodeId::U64(0x1_4000_0000).kind(), NodeKind::Keyword);
    assert_eq!(NodeId::U64(0xffff_ffff_0000_0001).kind(), NodeKind::Document);
    assert_eq!(NodeId::U128(0x4000_0000).kind(), NodeKind::Keyword);
    assert_eq!(NodeId::Chunked(vec![]).kind(), NodeKind::Document);
    assert_eq!(NodeId::Chunked(vec![0x9000_0000, 1]).kind(), NodeKind::Keyword);
    assert_eq!(NodeKind::from_id(0x1000_0000), NodeKind::Document);
    assert_eq!(NodeKind::from_id(0xC000_0000), NodeKind::Keyword);
}

#[test]
fn kind_names() {
    assert_eq!(NodeKind::Document.display_name(), "Document");
    assert_eq!(NodeKind::Concept.display_name(), "Concept");
    assert_eq!(NodeKind::Tag.display_name(), "Tag");
    assert_eq!(NodeKind::Keyword.display_name(), "Keyword");
}

#[test]
fn tag_ids_hash_prefixed_lower_case_name() {
    let h = std_hash("tag:rust");
    let expected = if h >> 32 == 0 {
        NodeId::U32(h as u32)
    } else {
        NodeId::U64(h)
    };
    assert_eq!(NodeId::new_tag("Rust"), expected);
    let k = std_hash("kw:rust");
    let expected_kw = if k >> 32 == 0 {
        NodeId::U32(k as u32)
    } else {
        NodeId::U64(k)
    };
    assert_eq!(NodeId::new_keyword("RUST"), expected_kw);
    assert_eq!(NodeId::from_string_prefixed("tag", "rust"), expected);
}

#[test]
fn tag_ids_ignore_case() {
    assert_eq!(NodeId::new_tag("Rust"), NodeId::new_tag("rUST"));
    assert_eq!(NodeId::new_keyword("Grover"), NodeId::new_keyword("grover"));
    assert_ne!(NodeId::new_tag("rust"), NodeId::new_keyword("rust"));
    for name in ["Quantum", "ORACLE", "mixed-Case_1", "Grüße"] {
        assert_eq!(NodeId::new_keyword(name), NodeId::new_keyword(&name.to_lowercase()));
        assert_eq!(NodeId::new_tag(name), NodeId::new_tag(&name.to_lowercase()));
    }
}

#[test]
fn equality_and_copy_of_ids() {
    let a = NodeId::Chunked(vec![1, 2, 3]);
    assert!(a.same_as(&a.duplicate()));
    assert!(!a.same_as(&NodeId::Chunked(vec![1, 2])));
    assert!(!NodeId::U32(1).same_as(&NodeId::U64(1)));
    assert!(NodeId::U128(9).same_as(&NodeId::U128(9)));
}
