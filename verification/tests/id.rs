use nostdb_core::id::ENCODED_LENGTH;
use nostdb_core::id::IdError;
use nostdb_core::id::LocalEdgeId;
use nostdb_core::id::LocalNodeId;
use nostdb_core::id::Minter;
use nostdb_core::id::SourceUnitId;

const SAMPLE: [u8; 16] = [
    0x01, 0x8F, 0x2A, 0x3B, 0x4C, 0x5D, 0x6E, 0x7F, 0x80, 0x91, 0xA2, 0xB3, 0xC4, 0xD5, 0xE6,
    0xF7,
];

#[test]
fn text_round_trips_for_every_kind() {
    let node = LocalNodeId::from_bytes(SAMPLE);
    assert_eq!(LocalNodeId::from_str(&node.to_string()), Ok(node));

    let edge = LocalEdgeId::from_bytes(SAMPLE);
    assert_eq!(LocalEdgeId::from_str(&edge.to_string()), Ok(edge));

    let unit = SourceUnitId::from_bytes(SAMPLE);
    assert_eq!(SourceUnitId::from_str(&unit.to_string()), Ok(unit));
}

#[test]
fn the_text_form_is_a_prefix_and_a_canonical_uuid() {
    let rendered = LocalNodeId::from_bytes(SAMPLE).to_string();
    assert_eq!(rendered, "n_018f2a3b-4c5d-6e7f-8091-a2b3c4d5e6f7");
    assert!(rendered.starts_with("n_"));
    assert_eq!(rendered.len(), 2 + ENCODED_LENGTH);
}

#[test]
fn a_kind_prefix_is_required_and_not_interchangeable() {
    let node = LocalNodeId::from_bytes(SAMPLE).to_string();
    assert_eq!(
        LocalEdgeId::from_str(&node),
        Err(IdError::MissingPrefix { expected: "e_" })
    );
    assert_eq!(
        LocalNodeId::from_str("018f2a3b-4c5d-6e7f-8091-a2b3c4d5e6f7"),
        Err(IdError::MissingPrefix { expected: "n_" })
    );
}

#[test]
fn rejects_a_wrong_length_body() {
    assert_eq!(
        LocalNodeId::from_str("n_1"),
        Err(IdError::WrongLength {
            expected: 36,
            found: 1
        })
    );
    assert_eq!(
        LocalNodeId::from_str("n_018f2a3b-4c5d-6e7f-8091-a2b3c4d5e6f"),
        Err(IdError::WrongLength {
            expected: 36,
            found: 35
        })
    );
}

#[test]
fn rejects_a_misgrouped_body() {
    assert_eq!(
        LocalNodeId::from_str("n_018f2a3b4-c5d-6e7f-8091-a2b3c4d5e6f7"),
        Err(IdError::MisplacedHyphen { position: 8 })
    );
    assert_eq!(
        LocalNodeId::from_str("n_018f2a3b-4c5d-6e7f-8091-a2b3c4d-e6f7"),
        Err(IdError::MisplacedHyphen { position: 31 })
    );
}

#[test]
fn rejects_upper_case_and_non_hexadecimal_bodies() {
    assert_eq!(
        LocalNodeId::from_str("n_018F2A3B-4C5D-6E7F-8091-A2B3C4D5E6F7"),
        Err(IdError::InvalidCharacter { found: 'F' })
    );
    assert_eq!(
        LocalNodeId::from_str("n_018f2a3g-4c5d-6e7f-8091-a2b3c4d5e6f7"),
        Err(IdError::InvalidCharacter { found: 'g' })
    );
}

#[test]
fn rejects_a_non_ascii_body_without_panicking() {
    let body: String = "가".repeat(36);
    assert_eq!(
        LocalNodeId::from_str(&format!("n_{body}")),
        Err(IdError::InvalidCharacter { found: '가' })
    );
}

#[test]
fn every_byte_pattern_round_trips() {
    for byte in 0..=u8::MAX {
        let id = LocalNodeId::from_bytes([byte; 16]);
        assert_eq!(LocalNodeId::from_str(&id.to_string()), Ok(id));
    }
}

#[test]
fn a_minted_identifier_is_a_version_7_uuid() {
    let mut minter = Minter::new();
    for _ in 0..64 {
        let bytes = minter.node().to_bytes();
        assert_eq!(bytes[6] >> 4, 0x7, "version nibble must be 7");
        assert_eq!(bytes[8] >> 6, 0b10, "variant bits must be 0b10");
    }
}

#[test]
fn minted_identifiers_do_not_repeat() {
    let mut minter = Minter::new();
    let mut seen = std::collections::BTreeSet::new();
    for _ in 0..1024 {
        assert!(seen.insert(minter.node()), "a minted identifier repeated");
    }
    assert_eq!(minter.issued(), 1024);
}

#[test]
fn a_minted_identifier_never_collides_with_the_query_source_unit() {
    assert_eq!(SourceUnitId::query().to_bytes(), [0; 16]);
    assert_eq!(
        SourceUnitId::query().to_string(),
        "u_00000000-0000-0000-0000-000000000000"
    );
    let mut minter = Minter::new();
    for _ in 0..64 {
        assert_ne!(minter.node().to_bytes(), SourceUnitId::query().to_bytes());
    }
}

#[test]
fn the_sequential_strategy_is_reproducible_and_the_default_is_not() {
    let mut left = Minter::sequential(5);
    let mut right = Minter::sequential(5);
    assert_eq!(left.node(), right.node());
    assert_eq!(left.edge(), right.edge());

    let mut first = Minter::new();
    let mut second = Minter::new();
    assert_ne!(first.node(), second.node());
}

#[test]
fn a_sequential_identifier_carries_its_generation_and_counter() {
    let mut minter = Minter::sequential(5);
    let first = minter.node().to_bytes();
    let second = minter.node().to_bytes();
    assert_eq!(first[..8], 5_u64.to_be_bytes());
    assert_eq!(first[8..], 0_u64.to_be_bytes());
    assert_eq!(second[8..], 1_u64.to_be_bytes());
    assert_eq!(minter.issued(), 2);
}

#[test]
fn a_parsed_identifier_need_not_be_version_7() {
    let parsed = LocalNodeId::from_str("n_018f2a3b-4c5d-1e7f-0091-a2b3c4d5e6f7");
    assert!(parsed.is_ok(), "a version 1 UUID must still parse");
}
