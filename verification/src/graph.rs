//! Graph records.
//!
//! An edge always has two endpoints: [`Edge::source`] and [`Edge::target`] are
//! [`NodeReference`], which has no variant for a missing node.
//!
//! A node needing at least one label, and a property block not setting one key twice, are
//! reported by [`Node::violations`] and [`Edge::violations`] rather than refused at
//! construction, so that a caller can report them against real source positions.

use crate::contribution::Contribution;
use crate::contribution::ContributionModel;
use crate::copies::copy_all;
use crate::copies::Copied;
use crate::id::LocalEdgeId;
use crate::id::LocalNodeId;
use crate::link::Link;
use crate::link::LinkModel;
use crate::locator::CanonicalSourceLocator;
use crate::name::Label;
use crate::name::PropertyKey;
use crate::name::RelationName;
use crate::property::PropertyModel;
use crate::property::PropertyValue;
use crate::schema::Schema;
use crate::schema::SchemaModel;
use crate::text::joined;
use crate::text::views;
use crate::text::views_push;
use vstd::prelude::*;
use vstd::string::StringExecFns;

verus! {

/// A node identified within a specific source.
///
/// A linked node is identified by the pair of canonical source locator and local node
/// identifier.
#[derive(Debug, PartialEq, Eq, PartialOrd, Ord, Hash)]
pub struct ScopedNodeId {
    /// The source the node belongs to.
    pub source: CanonicalSourceLocator,
    /// The node's identifier within that source.
    pub local: LocalNodeId,
}

/// What a scoped identifier says.
pub struct ScopedModel {
    /// The locator.
    pub source: Seq<char>,
    /// The identifier.
    pub local: LocalNodeId,
}

impl View for ScopedNodeId {
    type V = ScopedModel;

    open spec fn view(&self) -> ScopedModel {
        ScopedModel { source: self.source@, local: self.local }
    }
}

impl ScopedModel {
    /// How the identifier is shown.
    pub open spec fn text(self) -> Seq<char> {
        self.source + "#"@ + self.local.text()
    }
}

impl ScopedNodeId {
    /// How the identifier is shown.
    pub fn to_string(&self) -> (text: String)
        ensures
            text@ == self@.text(),
    {
        let mut text = joined(self.source.as_str(), "#");
        text.append(self.local.to_string().as_str());
        text
    }
}

impl Clone for ScopedNodeId {
    fn clone(&self) -> (copy: Self)
        ensures
            copy@ == self@,
    {
        ScopedNodeId { source: self.source.clone(), local: self.local }
    }
}

/// An edge endpoint. There is no variant for a missing one.
#[derive(Debug, PartialEq, Eq, PartialOrd, Ord, Hash)]
pub enum NodeReference {
    /// A node in the same database.
    Local(LocalNodeId),
    /// A node in a linked source, which is read-only from the root transaction.
    External(ScopedNodeId),
}

/// What an endpoint says.
pub enum ReferenceModel {
    /// A node in the same database.
    Local(LocalNodeId),
    /// A node in a linked source.
    External(ScopedModel),
}

impl View for NodeReference {
    type V = ReferenceModel;

    open spec fn view(&self) -> ReferenceModel {
        match self {
            NodeReference::Local(id) => ReferenceModel::Local(*id),
            NodeReference::External(scoped) => ReferenceModel::External(scoped@),
        }
    }
}

impl ReferenceModel {
    /// How the endpoint is shown.
    pub open spec fn text(self) -> Seq<char> {
        match self {
            ReferenceModel::Local(id) => id.text(),
            ReferenceModel::External(scoped) => scoped.text(),
        }
    }
}

impl NodeReference {
    /// Reports whether this endpoint points into a linked source.
    pub fn is_external(&self) -> (answer: bool)
        ensures
            answer == (self@ is External),
    {
        match self {
            NodeReference::Local(_) => false,
            NodeReference::External(_) => true,
        }
    }

    /// The local identifier, when this endpoint is in the same database.
    pub fn local(&self) -> (found: Option<LocalNodeId>)
        ensures
            found == (match self@ {
                ReferenceModel::Local(id) => Some(id),
                ReferenceModel::External(_) => None,
            }),
    {
        match self {
            NodeReference::Local(id) => Some(*id),
            NodeReference::External(_) => None,
        }
    }

    /// How the endpoint is shown.
    pub fn to_string(&self) -> (text: String)
        ensures
            text@ == self@.text(),
    {
        match self {
            NodeReference::Local(id) => id.to_string(),
            NodeReference::External(scoped) => scoped.to_string(),
        }
    }
}

impl Copied for NodeReference {
    fn copied(&self) -> (copy: Self) {
        match self {
            NodeReference::Local(id) => NodeReference::Local(*id),
            NodeReference::External(scoped) => NodeReference::External(scoped.clone()),
        }
    }
}

impl Clone for NodeReference {
    fn clone(&self) -> (copy: Self)
        ensures
            copy@ == self@,
    {
        self.copied()
    }
}

/// The model of a property list.
pub open spec fn pairs(properties: Seq<(PropertyKey, PropertyValue)>) -> Seq<
    (Seq<char>, PropertyModel),
> {
    Seq::new(properties.len(), |i: int| (properties[i].0@, properties[i].1@))
}

/// The model of a longer property list.
pub proof fn pairs_push(
    properties: Seq<(PropertyKey, PropertyValue)>,
    pair: (PropertyKey, PropertyValue),
)
    ensures
        pairs(properties.push(pair)) == pairs(properties).push((pair.0@, pair.1@)),
{
    assert(pairs(properties.push(pair)) =~= pairs(properties).push((pair.0@, pair.1@)));
}

/// A copy of a property list.
pub fn copy_pairs(properties: &Vec<(PropertyKey, PropertyValue)>) -> (copy: Vec<
    (PropertyKey, PropertyValue),
>)
    ensures
        pairs(copy@) == pairs(properties@),
{
    let mut copy: Vec<(PropertyKey, PropertyValue)> = Vec::new();
    let mut at: usize = 0;
    while at < properties.len()
        invariant
            at <= properties@.len(),
            pairs(copy@) =~= pairs(properties@).take(at as int),
        decreases properties@.len() - at,
    {
        let pair = (properties[at].0.clone(), properties[at].1.clone());
        proof {
            pairs_push(copy@, pair);
        }
        copy.push(pair);
        at = at + 1;
    }
    assert(pairs(copy@) =~= pairs(properties@));
    copy
}

/// A stored node.
#[derive(Debug, PartialEq)]
pub struct Node {
    /// Opaque persistent identifier.
    pub id: LocalNodeId,
    /// Labels, treated as a set. At least one is required.
    pub labels: Vec<Label>,
    /// Properties, in a caller-defined order. A key must not repeat.
    pub properties: Vec<(PropertyKey, PropertyValue)>,
    /// Contributions from each producer.
    pub contributions: Vec<Contribution>,
}

/// What a node says.
pub struct NodeModel {
    /// The identifier.
    pub id: LocalNodeId,
    /// The labels.
    pub labels: Seq<Seq<char>>,
    /// The properties.
    pub properties: Seq<(Seq<char>, PropertyModel)>,
    /// The contributions.
    pub contributions: Seq<ContributionModel>,
}

impl View for Node {
    type V = NodeModel;

    open spec fn view(&self) -> NodeModel {
        NodeModel {
            id: self.id,
            labels: views(self.labels@),
            properties: pairs(self.properties@),
            contributions: views(self.contributions@),
        }
    }
}

impl Copied for Node {
    fn copied(&self) -> (copy: Self) {
        Node {
            id: self.id,
            labels: copy_all(&self.labels),
            properties: copy_pairs(&self.properties),
            contributions: copy_all(&self.contributions),
        }
    }
}

impl Clone for Node {
    fn clone(&self) -> (copy: Self)
        ensures
            copy@ == self@,
    {
        self.copied()
    }
}

/// A stored edge.
#[derive(Debug, PartialEq)]
pub struct Edge {
    /// Opaque persistent identifier.
    pub id: LocalEdgeId,
    /// Where the relation starts. Never absent.
    pub source: NodeReference,
    /// Where the relation ends. Never absent.
    pub target: NodeReference,
    /// The single relation type.
    pub relation: RelationName,
    /// Properties, in a caller-defined order. A key must not repeat.
    pub properties: Vec<(PropertyKey, PropertyValue)>,
    /// Contributions from each producer.
    pub contributions: Vec<Contribution>,
}

/// What an edge says.
pub struct EdgeModel {
    /// The identifier.
    pub id: LocalEdgeId,
    /// Where the relation starts.
    pub source: ReferenceModel,
    /// Where the relation ends.
    pub target: ReferenceModel,
    /// The relation type.
    pub relation: Seq<char>,
    /// The properties.
    pub properties: Seq<(Seq<char>, PropertyModel)>,
    /// The contributions.
    pub contributions: Seq<ContributionModel>,
}

impl View for Edge {
    type V = EdgeModel;

    open spec fn view(&self) -> EdgeModel {
        EdgeModel {
            id: self.id,
            source: self.source@,
            target: self.target@,
            relation: self.relation@,
            properties: pairs(self.properties@),
            contributions: views(self.contributions@),
        }
    }
}

impl Copied for Edge {
    fn copied(&self) -> (copy: Self) {
        Edge {
            id: self.id,
            source: self.source.copied(),
            target: self.target.copied(),
            relation: self.relation.clone(),
            properties: copy_pairs(&self.properties),
            contributions: copy_all(&self.contributions),
        }
    }
}

impl Clone for Edge {
    fn clone(&self) -> (copy: Self)
        ensures
            copy@ == self@,
    {
        self.copied()
    }
}

// -- Collection rules --------------------------------------------------------------

/// A collection rule a record breaks.
#[derive(Debug, PartialEq, Eq)]
pub enum RecordViolation {
    /// A node carried no label, but at least one is required.
    NodeWithoutLabel,
    /// A label appeared more than once, but labels are a set.
    DuplicateLabel {
        /// The repeated label.
        label: Label,
    },
    /// A property key was set more than once. The last value must not silently win.
    DuplicatePropertyKey {
        /// The repeated key.
        key: PropertyKey,
    },
    /// A record carried no contribution, so nothing owns it.
    NoContribution,
}

/// What a violation says.
pub enum ViolationModel {
    /// No label.
    NodeWithoutLabel,
    /// A repeated label.
    DuplicateLabel {
        /// The label.
        label: Seq<char>,
    },
    /// A repeated key.
    DuplicatePropertyKey {
        /// The key.
        key: Seq<char>,
    },
    /// No contribution.
    NoContribution,
}

impl View for RecordViolation {
    type V = ViolationModel;

    open spec fn view(&self) -> ViolationModel {
        match self {
            RecordViolation::NodeWithoutLabel => ViolationModel::NodeWithoutLabel,
            RecordViolation::DuplicateLabel { label } => ViolationModel::DuplicateLabel {
                label: label@,
            },
            RecordViolation::DuplicatePropertyKey { key } => ViolationModel::DuplicatePropertyKey {
                key: key@,
            },
            RecordViolation::NoContribution => ViolationModel::NoContribution,
        }
    }
}

impl ViolationModel {
    /// The message this violation is shown with.
    pub open spec fn text(self) -> Seq<char> {
        match self {
            ViolationModel::NodeWithoutLabel => "a Node requires at least one label"@,
            ViolationModel::DuplicateLabel { label } => "the label "@ + label
                + " appears more than once"@,
            ViolationModel::DuplicatePropertyKey { key } => "the property key "@ + key
                + " is set more than once"@,
            ViolationModel::NoContribution => "a record requires at least one contribution"@,
        }
    }
}

impl RecordViolation {
    /// The message this violation is shown with.
    pub fn message(&self) -> (text: String)
        ensures
            text@ == self@.text(),
    {
        match self {
            RecordViolation::NodeWithoutLabel => "a Node requires at least one label".to_owned(),
            RecordViolation::DuplicateLabel { label } => {
                let mut text = joined("the label ", label.as_str());
                text.append(" appears more than once");
                text
            }
            RecordViolation::DuplicatePropertyKey { key } => {
                let mut text = joined("the property key ", key.as_str());
                text.append(" is set more than once");
                text
            }
            RecordViolation::NoContribution => {
                "a record requires at least one contribution".to_owned()
            }
        }
    }
}

impl Clone for RecordViolation {
    fn clone(&self) -> (copy: Self)
        ensures
            copy@ == self@,
    {
        match self {
            RecordViolation::NodeWithoutLabel => RecordViolation::NodeWithoutLabel,
            RecordViolation::DuplicateLabel { label } => RecordViolation::DuplicateLabel {
                label: label.clone(),
            },
            RecordViolation::DuplicatePropertyKey { key } => RecordViolation::DuplicatePropertyKey {
                key: key.clone(),
            },
            RecordViolation::NoContribution => RecordViolation::NoContribution,
        }
    }
}

/// How often `name` stands among the first `count` names.
pub open spec fn occurrences(names: Seq<Seq<char>>, count: int, name: Seq<char>) -> nat
    decreases count,
{
    if count <= 0 {
        0
    } else {
        occurrences(names, count - 1, name) + (if names[count - 1] == name {
            1nat
        } else {
            0nat
        })
    }
}

/// Each name among the first `count` that stands there more than once, once, in the order
/// in which its second appearance comes.
pub open spec fn repeated(names: Seq<Seq<char>>, count: int) -> Seq<Seq<char>>
    decreases count,
{
    if count <= 0 {
        Seq::empty()
    } else if occurrences(names, count - 1, names[count - 1]) == 1 {
        repeated(names, count - 1).push(names[count - 1])
    } else {
        repeated(names, count - 1)
    }
}

/// A name is reported as repeated exactly when it stands among the names at least twice.
pub proof fn repeated_is_exact(names: Seq<Seq<char>>, count: int, name: Seq<char>)
    requires
        0 <= count <= names.len(),
    ensures
        repeated(names, count).contains(name) <==> occurrences(names, count, name) >= 2,
    decreases count,
{
    if count > 0 {
        repeated_is_exact(names, count - 1, name);
        let before = repeated(names, count - 1);
        let last = names[count - 1];
        if occurrences(names, count - 1, last) == 1 {
            let after = before.push(last);
            assert(after[before.len() as int] == last);
            if before.contains(name) {
                let at = choose|at: int| 0 <= at < before.len() && before[at] == name;
                assert(after[at] == name);
            }
            if after.contains(name) && name != last {
                let at = choose|at: int| 0 <= at < after.len() && after[at] == name;
                assert(before[at] == name);
            }
        }
    } else {
        assert(!repeated(names, count).contains(name));
    }
}

/// The keys of a property list.
pub open spec fn keys_of(properties: Seq<(Seq<char>, PropertyModel)>) -> Seq<Seq<char>> {
    Seq::new(properties.len(), |i: int| properties[i].0)
}

/// The violations for repeated labels.
pub open spec fn label_violations(labels: Seq<Seq<char>>) -> Seq<ViolationModel> {
    let found = repeated(labels, labels.len() as int);
    Seq::new(found.len(), |i: int| ViolationModel::DuplicateLabel { label: found[i] })
}

/// The violations for repeated keys.
pub open spec fn key_violations(keys: Seq<Seq<char>>) -> Seq<ViolationModel> {
    let found = repeated(keys, keys.len() as int);
    Seq::new(found.len(), |i: int| ViolationModel::DuplicatePropertyKey { key: found[i] })
}

/// The violation for a missing contribution.
pub open spec fn ownership_violations(contributions: Seq<ContributionModel>) -> Seq<
    ViolationModel,
> {
    if contributions.len() == 0 {
        seq![ViolationModel::NoContribution]
    } else {
        Seq::empty()
    }
}

impl NodeModel {
    /// Every collection rule this record breaks.
    pub open spec fn broken(self) -> Seq<ViolationModel> {
        (if self.labels.len() == 0 {
            seq![ViolationModel::NodeWithoutLabel]
        } else {
            Seq::empty()
        }) + label_violations(self.labels) + key_violations(keys_of(self.properties))
            + ownership_violations(self.contributions)
    }
}

impl EdgeModel {
    /// Every collection rule this record breaks.
    pub open spec fn broken(self) -> Seq<ViolationModel> {
        key_violations(keys_of(self.properties)) + ownership_violations(self.contributions)
    }
}

/// Reports each label that appears more than once, once per repeated label.
pub(crate) fn collect_duplicate_labels(labels: &Vec<Label>, found: &mut Vec<RecordViolation>)
    ensures
        views(final(found)@) == views(old(found)@) + label_violations(views(labels@)),
{
    let ghost names = views(labels@);
    let ghost before = views(found@);
    let mut at: usize = 0;
    while at < labels.len()
        invariant
            at <= labels@.len(),
            names == views(labels@),
            views(found@) == before + Seq::new(
                repeated(names, at as int).len(),
                |i: int| ViolationModel::DuplicateLabel { label: repeated(names, at as int)[i] },
            ),
        decreases labels@.len() - at,
    {
        let mut count: usize = 0;
        let mut back: usize = 0;
        while back < at
            invariant
                back <= at < labels@.len(),
                names == views(labels@),
                count == occurrences(names, back as int, names[at as int]),
                count <= back,
            decreases at - back,
        {
            if labels[back].same(&labels[at]) {
                count = count + 1;
            }
            back = back + 1;
        }
        if count == 1 {
            let violation = RecordViolation::DuplicateLabel { label: labels[at].clone() };
            proof {
                views_push(found@, violation);
            }
            found.push(violation);
        }
        at = at + 1;
        assert(views(found@) =~= before + Seq::new(
            repeated(names, at as int).len(),
            |i: int| ViolationModel::DuplicateLabel { label: repeated(names, at as int)[i] },
        ));
    }
}

/// Reports each property key that is set more than once, once per repeated key.
pub(crate) fn collect_duplicate_property_keys(
    properties: &Vec<(PropertyKey, PropertyValue)>,
    found: &mut Vec<RecordViolation>,
)
    ensures
        views(final(found)@) == views(old(found)@) + key_violations(keys_of(pairs(properties@))),
{
    let ghost names = keys_of(pairs(properties@));
    let ghost before = views(found@);
    let mut at: usize = 0;
    while at < properties.len()
        invariant
            at <= properties@.len(),
            names == keys_of(pairs(properties@)),
            views(found@) == before + Seq::new(
                repeated(names, at as int).len(),
                |i: int| ViolationModel::DuplicatePropertyKey { key: repeated(names, at as int)[i] },
            ),
        decreases properties@.len() - at,
    {
        let mut count: usize = 0;
        let mut back: usize = 0;
        while back < at
            invariant
                back <= at < properties@.len(),
                names == keys_of(pairs(properties@)),
                count == occurrences(names, back as int, names[at as int]),
                count <= back,
            decreases at - back,
        {
            if properties[back].0.same(&properties[at].0) {
                count = count + 1;
            }
            back = back + 1;
        }
        if count == 1 {
            let violation = RecordViolation::DuplicatePropertyKey { key: properties[at].0.clone() };
            proof {
                views_push(found@, violation);
            }
            found.push(violation);
        }
        at = at + 1;
        assert(views(found@) =~= before + Seq::new(
            repeated(names, at as int).len(),
            |i: int| ViolationModel::DuplicatePropertyKey { key: repeated(names, at as int)[i] },
        ));
    }
}

impl Node {
    /// Reports every collection rule this record breaks.
    ///
    /// An empty result means the record satisfies every rule that can be checked without
    /// consulting the rest of the database.
    pub fn violations(&self) -> (found: Vec<RecordViolation>)
        ensures
            views(found@) == self@.broken(),
    {
        let mut found: Vec<RecordViolation> = Vec::new();
        if self.labels.len() == 0 {
            found.push(RecordViolation::NodeWithoutLabel);
        }
        assert(views(found@) =~= if self@.labels.len() == 0 {
            seq![ViolationModel::NodeWithoutLabel]
        } else {
            Seq::empty()
        });
        collect_duplicate_labels(&self.labels, &mut found);
        collect_duplicate_property_keys(&self.properties, &mut found);
        if self.contributions.len() == 0 {
            proof {
                views_push(found@, RecordViolation::NoContribution);
            }
            found.push(RecordViolation::NoContribution);
        }
        assert(views(found@) =~= self@.broken());
        found
    }
}

impl Edge {
    /// Reports every collection rule this record breaks.
    pub fn violations(&self) -> (found: Vec<RecordViolation>)
        ensures
            views(found@) == self@.broken(),
    {
        let mut found: Vec<RecordViolation> = Vec::new();
        assert(views(found@) =~= Seq::empty());
        collect_duplicate_property_keys(&self.properties, &mut found);
        if self.contributions.len() == 0 {
            proof {
                views_push(found@, RecordViolation::NoContribution);
            }
            found.push(RecordViolation::NoContribution);
        }
        assert(views(found@) =~= self@.broken());
        found
    }

    /// Reports whether either endpoint points into a linked source.
    pub fn crosses_sources(&self) -> (answer: bool)
        ensures
            answer == (self@.source is External || self@.target is External),
    {
        self.source.is_external() || self.target.is_external()
    }
}

/// A node breaks no collection rule exactly when it has a label, repeats no label and no
/// property key, and has a contribution.
pub proof fn unbroken_node(node: NodeModel)
    ensures
        node.broken().len() == 0 <==> {
            &&& node.labels.len() > 0
            &&& forall|name: Seq<char>|
                occurrences(node.labels, node.labels.len() as int, name) <= 1
            &&& forall|name: Seq<char>|
                occurrences(keys_of(node.properties), node.properties.len() as int, name) <= 1
            &&& node.contributions.len() > 0
        },
{
    let labels = repeated(node.labels, node.labels.len() as int);
    let keys = repeated(keys_of(node.properties), node.properties.len() as int);
    if labels.len() > 0 {
        assert(labels.contains(labels[0]));
        repeated_is_exact(node.labels, node.labels.len() as int, labels[0]);
    }
    if keys.len() > 0 {
        assert(keys.contains(keys[0]));
        repeated_is_exact(keys_of(node.properties), node.properties.len() as int, keys[0]);
    }
    assert forall|name: Seq<char>|
        occurrences(node.labels, node.labels.len() as int, name) >= 2 implies labels.len() > 0 by {
        repeated_is_exact(node.labels, node.labels.len() as int, name);
    }
    assert forall|name: Seq<char>|
        occurrences(keys_of(node.properties), node.properties.len() as int, name)
            >= 2 implies keys.len() > 0 by {
        repeated_is_exact(keys_of(node.properties), node.properties.len() as int, name);
    }
}

// -- Graphs ------------------------------------------------------------------------

/// Everything one database holds.
#[derive(Debug, PartialEq)]
pub struct Graph {
    /// The nodes.
    pub nodes: Vec<Node>,
    /// The edges.
    pub edges: Vec<Edge>,
    /// The links.
    pub links: Vec<Link>,
    /// The schemas.
    pub schemas: Vec<Schema>,
}

/// What a graph holds.
pub struct GraphModel {
    /// The nodes.
    pub nodes: Seq<NodeModel>,
    /// The edges.
    pub edges: Seq<EdgeModel>,
    /// The links.
    pub links: Seq<LinkModel>,
    /// The schemas.
    pub schemas: Seq<SchemaModel>,
}

impl View for Graph {
    type V = GraphModel;

    open spec fn view(&self) -> GraphModel {
        GraphModel {
            nodes: views(self.nodes@),
            edges: views(self.edges@),
            links: views(self.links@),
            schemas: views(self.schemas@),
        }
    }
}

impl Copied for Graph {
    fn copied(&self) -> (copy: Self) {
        Graph {
            nodes: copy_all(&self.nodes),
            edges: copy_all(&self.edges),
            links: copy_all(&self.links),
            schemas: copy_all(&self.schemas),
        }
    }
}

impl Clone for Graph {
    fn clone(&self) -> (copy: Self)
        ensures
            copy@ == self@,
    {
        self.copied()
    }
}

impl Default for Graph {
    fn default() -> (empty: Self)
        ensures
            empty@ == GraphModel::empty(),
    {
        let empty = Graph {
            nodes: Vec::new(),
            edges: Vec::new(),
            links: Vec::new(),
            schemas: Vec::new(),
        };
        assert(empty@.nodes =~= Seq::empty());
        assert(empty@.edges =~= Seq::empty());
        assert(empty@.links =~= Seq::empty());
        assert(empty@.schemas =~= Seq::empty());
        empty
    }
}

impl GraphModel {
    /// The graph that holds nothing.
    pub open spec fn empty() -> GraphModel {
        GraphModel {
            nodes: Seq::empty(),
            edges: Seq::empty(),
            links: Seq::empty(),
            schemas: Seq::empty(),
        }
    }
}

impl Graph {
    /// Whether the graph holds nothing at all.
    pub fn is_empty(&self) -> (answer: bool)
        ensures
            answer == (self@ == GraphModel::empty()),
    {
        let answer = self.nodes.len() == 0 && self.edges.len() == 0 && self.links.len() == 0
            && self.schemas.len() == 0;
        assert(self@.nodes.len() == self.nodes@.len());
        assert(self@.edges.len() == self.edges@.len());
        assert(self@.links.len() == self.links@.len());
        assert(self@.schemas.len() == self.schemas@.len());
        proof {
            if answer {
                assert(self@.nodes =~= Seq::empty());
                assert(self@.edges =~= Seq::empty());
                assert(self@.links =~= Seq::empty());
                assert(self@.schemas =~= Seq::empty());
            }
        }
        answer
    }
}

} // verus!
