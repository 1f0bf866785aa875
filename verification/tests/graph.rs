use nostdb_core::locator::CanonicalSourceLocator;
use nostdb_core::contribution::Contribution;
use nostdb_core::graph::Edge;
use nostdb_core::name::Label;
use nostdb_core::id::LocalEdgeId;
use nostdb_core::id::LocalNodeId;
use nostdb_core::graph::Node;
use nostdb_core::graph::NodeReference;
use nostdb_core::contribution::Owner;
use nostdb_core::name::PropertyKey;
use nostdb_core::property::PropertyValue;
use nostdb_core::graph::RecordViolation;
use nostdb_core::name::RelationName;
use nostdb_core::graph::ScopedNodeId;
use nostdb_core::id::SourceUnitId;

fn contribution() -> Contribution {
    Contribution {
        owner: Owner::User,
        source_unit: SourceUnitId::from_bytes([1; 16]),
        evidence: Vec::new(),
    }
}

fn label(text: &str) -> Label {
    Label::new(text).unwrap()
}

fn key(text: &str) -> PropertyKey {
    PropertyKey::new(text).unwrap()
}

fn node(labels: Vec<Label>, properties: Vec<(PropertyKey, PropertyValue)>) -> Node {
    Node {
        id: LocalNodeId::from_bytes([2; 16]),
        labels,
        properties,
        contributions: vec![contribution()],
    }
}

#[test]
fn a_well_formed_node_has_no_violations() {
    let subject = node(
        vec![label("Function")],
        vec![(key("name"), PropertyValue::from("login"))],
    );
    assert_eq!(subject.violations(), Vec::new());
}

#[test]
fn a_node_requires_a_label() {
    let subject = node(Vec::new(), Vec::new());
    assert_eq!(
        subject.violations(),
        vec![RecordViolation::NodeWithoutLabel]
    );
}

#[test]
fn a_repeated_label_is_reported_once() {
    let subject = node(
        vec![label("Function"), label("Function"), label("Function")],
        Vec::new(),
    );
    assert_eq!(
        subject.violations(),
        vec![RecordViolation::DuplicateLabel {
            label: label("Function")
        }]
    );
}

#[test]
fn a_repeated_property_key_is_reported_rather_than_resolved() {
    let subject = node(
        vec![label("Function")],
        vec![
            (key("name"), PropertyValue::from("first")),
            (key("name"), PropertyValue::from("second")),
        ],
    );
    assert_eq!(
        subject.violations(),
        vec![RecordViolation::DuplicatePropertyKey { key: key("name") }]
    );
}

#[test]
fn a_record_without_a_contribution_is_reported() {
    let subject = Node {
        id: LocalNodeId::from_bytes([2; 16]),
        labels: vec![label("Function")],
        properties: Vec::new(),
        contributions: Vec::new(),
    };
    assert_eq!(subject.violations(), vec![RecordViolation::NoContribution]);
}

#[test]
fn an_edge_endpoint_is_never_optional_and_external_edges_are_detectable() {
    let local = NodeReference::Local(LocalNodeId::from_bytes([3; 16]));
    let external = NodeReference::External(ScopedNodeId {
        source: CanonicalSourceLocator::new("./packages/shared").unwrap(),
        local: LocalNodeId::from_bytes([4; 16]),
    });

    let edge = Edge {
        id: LocalEdgeId::from_bytes([5; 16]),
        source: local.clone(),
        target: external.clone(),
        relation: RelationName::new("CALLS").unwrap(),
        properties: Vec::new(),
        contributions: vec![contribution()],
    };

    assert_eq!(edge.violations(), Vec::new());
    assert!(edge.crosses_sources());
    assert!(!local.is_external());
    assert!(external.is_external());
    assert_eq!(local.local(), Some(LocalNodeId::from_bytes([3; 16])));
    assert_eq!(external.local(), None);
}

#[test]
fn a_self_loop_is_representable() {
    let same = NodeReference::Local(LocalNodeId::from_bytes([6; 16]));
    let edge = Edge {
        id: LocalEdgeId::from_bytes([7; 16]),
        source: same.clone(),
        target: same,
        relation: RelationName::new("RECURSES").unwrap(),
        properties: Vec::new(),
        contributions: vec![contribution()],
    };
    assert_eq!(edge.violations(), Vec::new());
    assert!(!edge.crosses_sources());
}
