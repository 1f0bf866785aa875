use nostdb_core::contribution::Contribution;
use nostdb_core::contribution::Owner;
use nostdb_core::graph::Edge;
use nostdb_core::graph::Graph;
use nostdb_core::graph::Node;
use nostdb_core::graph::NodeReference;
use nostdb_core::id::LocalEdgeId;
use nostdb_core::id::LocalNodeId;
use nostdb_core::id::SourceUnitId;
use nostdb_core::name::Label;
use nostdb_core::name::PropertyKey;
use nostdb_core::name::RelationName;
use nostdb_core::packet::build;
use nostdb_core::packet::MAX_NEIGHBOURING_UNITS;
use nostdb_core::packet::PACKET_VERSION;
use nostdb_core::property::PropertyValue;
use nostdb_core::text::NonEmptyText;

fn unit(byte: u8) -> SourceUnitId {
    SourceUnitId::from_bytes([byte; 16])
}

fn analyzed(unit: SourceUnitId) -> Contribution {
    Contribution {
        owner: Owner::Analyzer {
            name: NonEmptyText::new("reader").unwrap(),
            version: NonEmptyText::new("1").unwrap(),
        },
        source_unit: unit,
        evidence: Vec::new(),
    }
}

fn node(byte: u8, name: &str, path: &str, unit: SourceUnitId) -> Node {
    Node {
        id: LocalNodeId::from_bytes([byte; 16]),
        labels: vec![Label::new("Function").unwrap()],
        properties: vec![
            (PropertyKey::new("name").unwrap(), PropertyValue::from(name)),
            (PropertyKey::new("path").unwrap(), PropertyValue::from(path)),
        ],
        contributions: vec![analyzed(unit)],
    }
}

fn edge(byte: u8, from: u8, to: u8) -> Edge {
    Edge {
        id: LocalEdgeId::from_bytes([byte; 16]),
        source: NodeReference::Local(LocalNodeId::from_bytes([from; 16])),
        target: NodeReference::Local(LocalNodeId::from_bytes([to; 16])),
        relation: RelationName::new("CALLS").unwrap(),
        properties: Vec::new(),
        contributions: Vec::new(),
    }
}

fn project() -> Graph {
    Graph {
        nodes: vec![
            node(1, "a_one", "src/a.rs", unit(0xA)),
            node(2, "a_two", "src/a.rs", unit(0xA)),
            node(3, "b_one", "src/b.rs", unit(0xB)),
            node(4, "c_one", "src/c.rs", unit(0xC)),
        ],
        edges: vec![edge(1, 1, 2), edge(2, 1, 3), edge(3, 3, 4)],
        links: Vec::new(),
        schemas: Vec::new(),
    }
}

#[test]
fn a_packet_holds_the_records_of_its_unit_alone() {
    let packet = build(&project(), unit(0xA), &[]);
    assert_eq!(packet.packet_version, PACKET_VERSION);
    assert_eq!(packet.source_unit, unit(0xA));
    let names: Vec<_> = packet
        .symbols
        .iter()
        .filter_map(|symbol| symbol.name.as_deref())
        .collect();
    assert_eq!(names, vec!["a_one", "a_two"]);
    assert_eq!(packet.symbols[0].path.as_deref(), Some("src/a.rs"));
    assert_eq!(packet.symbols[0].labels, vec!["Function".to_owned()]);
}

#[test]
fn an_edge_that_leaves_the_unit_makes_its_far_side_a_neighbour() {
    let packet = build(&project(), unit(0xA), &[]);
    assert_eq!(packet.structural_edges.len(), 2);
    assert_eq!(packet.neighboring_units.len(), 1);
    assert_eq!(packet.neighboring_units[0].source_unit, unit(0xB));
    assert_eq!(packet.neighboring_units[0].path.as_deref(), Some("src/b.rs"));
    assert_eq!(packet.neighboring_units[0].records, 1);
}

#[test]
fn an_edge_outside_the_unit_is_left_out() {
    let packet = build(&project(), unit(0xC), &[]);
    assert_eq!(packet.structural_edges.len(), 1);
    assert_eq!(
        packet.structural_edges[0].from,
        LocalNodeId::from_bytes([3; 16])
    );
}

#[test]
fn the_neighbours_are_bounded() {
    let mut graph = project();
    for byte in 0x20..0x40_u8 {
        graph.nodes.push(node(byte, "far", "src/far.rs", unit(byte)));
        graph.edges.push(edge(byte, 1, byte));
    }
    let packet = build(&graph, unit(0xA), &[]);
    assert_eq!(packet.neighboring_units.len(), MAX_NEIGHBOURING_UNITS);
}

#[test]
fn a_packet_without_records_is_not_worth_sending() {
    assert!(build(&project(), unit(0xA), &[]).is_worth_sending());
    let empty = build(&project(), unit(0xF), &[]);
    assert!(!empty.is_worth_sending());
    assert_eq!(empty.record_count(), 0);
    assert_eq!(empty.content_bytes(), 0);
}

#[test]
fn a_packet_is_counted_by_its_records_and_its_bytes() {
    let packet = build(&project(), unit(0xA), &[]);
    assert_eq!(packet.record_count(), 5);
    assert_eq!(packet.content_bytes(), 10);
}

#[test]
fn a_neighbour_counts_its_records_and_not_the_edges_to_it() {
    let graph = Graph {
        nodes: vec![
            node(1, "a", "src/a.rs", unit(0xA)),
            node(2, "b", "src/b.rs", unit(0xB)),
            node(3, "c", "src/b.rs", unit(0xB)),
        ],
        edges: vec![edge(1, 1, 2)],
        links: Vec::new(),
        schemas: Vec::new(),
    };
    let packet = build(&graph, unit(0xA), &[]);
    assert_eq!(packet.neighboring_units.len(), 1);
    assert_eq!(packet.neighboring_units[0].records, 2);
}
