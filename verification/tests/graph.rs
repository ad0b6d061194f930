use logos_core::protocol::{LemmaId, Relation, SemanticEdge, SemanticNetwork};
use logos_core::solver::SemanticGraph;

fn edge(from: u32, to: u32, relation: Relation) -> SemanticEdge {
    SemanticEdge { from: LemmaId(from), to: LemmaId(to), relation }
}

#[test]
fn inherited_attribute_is_satisfied() {
    let mut graph = SemanticGraph::new();
    graph.add_relation(LemmaId(3), LemmaId(99), Relation::HasAttribute);
    graph.add_relation(LemmaId(4), LemmaId(3), Relation::IsA);
    graph.add_relation(LemmaId(5), LemmaId(4), Relation::IsA);
    graph.add_concept(LemmaId(2));
    assert!(graph.satisfies_constraint(LemmaId(3), LemmaId(99)));
    assert!(graph.satisfies_constraint(LemmaId(4), LemmaId(99)));
    assert!(graph.satisfies_constraint(LemmaId(5), LemmaId(99)));
    assert!(!graph.satisfies_constraint(LemmaId(2), LemmaId(99)));
    assert!(!graph.satisfies_constraint(LemmaId(3), LemmaId(98)));
    assert!(!graph.satisfies_constraint(LemmaId(99), LemmaId(99)));
}

#[test]
fn unknown_subject_satisfies_nothing() {
    let mut graph = SemanticGraph::new();
    graph.add_relation(LemmaId(3), LemmaId(99), Relation::HasAttribute);
    assert!(!graph.satisfies_constraint(LemmaId(1000), LemmaId(99)));
    assert!(!SemanticGraph::new().satisfies_constraint(LemmaId(1), LemmaId(2)));
}

#[test]
fn cyclic_is_a_chain_terminates() {
    let mut graph = SemanticGraph::new();
    graph.add_relation(LemmaId(1), LemmaId(2), Relation::IsA);
    graph.add_relation(LemmaId(2), LemmaId(3), Relation::IsA);
    graph.add_relation(LemmaId(3), LemmaId(1), Relation::IsA);
    graph.add_relation(LemmaId(1), LemmaId(1), Relation::IsA);
    assert!(!graph.satisfies_constraint(LemmaId(1), LemmaId(99)));
    graph.add_relation(LemmaId(3), LemmaId(99), Relation::HasAttribute);
    assert!(graph.satisfies_constraint(LemmaId(1), LemmaId(99)));
    assert!(graph.satisfies_constraint(LemmaId(2), LemmaId(99)));
}

#[test]
fn only_is_a_edges_are_followed() {
    let mut graph = SemanticGraph::new();
    graph.add_relation(LemmaId(1), LemmaId(2), Relation::RequiresAttribute);
    graph.add_relation(LemmaId(1), LemmaId(3), Relation::HasAttribute);
    graph.add_relation(LemmaId(2), LemmaId(99), Relation::HasAttribute);
    graph.add_relation(LemmaId(3), LemmaId(99), Relation::HasAttribute);
    assert!(!graph.satisfies_constraint(LemmaId(1), LemmaId(99)));
    assert!(graph.satisfies_constraint(LemmaId(1), LemmaId(3)));
}

#[test]
fn required_attributes_come_most_recent_first() {
    let mut graph = SemanticGraph::new();
    graph.add_relation(LemmaId(1), LemmaId(10), Relation::RequiresAttribute);
    graph.add_relation(LemmaId(1), LemmaId(11), Relation::IsA);
    graph.add_relation(LemmaId(2), LemmaId(12), Relation::RequiresAttribute);
    graph.add_relation(LemmaId(1), LemmaId(13), Relation::RequiresAttribute);
    graph.add_relation(LemmaId(1), LemmaId(10), Relation::RequiresAttribute);
    assert_eq!(
        graph.get_required_attributes(LemmaId(1)),
        vec![LemmaId(10), LemmaId(13), LemmaId(10)]
    );
    assert_eq!(graph.get_required_attributes(LemmaId(2)), vec![LemmaId(12)]);
    assert!(graph.get_required_attributes(LemmaId(10)).is_empty());
    assert!(graph.get_required_attributes(LemmaId(77)).is_empty());
}

#[test]
fn add_concept_is_idempotent() {
    let mut graph = SemanticGraph::new();
    graph.add_concept(LemmaId(1));
    graph.add_concept(LemmaId(1));
    graph.add_relation(LemmaId(1), LemmaId(2), Relation::HasAttribute);
    graph.add_concept(LemmaId(2));
    assert!(graph.satisfies_constraint(LemmaId(1), LemmaId(2)));
}

#[test]
fn graph_from_a_network() {
    let network = SemanticNetwork {
        version: 1,
        edges: vec![
            edge(1, 99, Relation::RequiresAttribute),
            edge(3, 99, Relation::HasAttribute),
            edge(4, 3, Relation::IsA),
        ],
    };
    let graph = SemanticGraph::from_archived(&network);
    assert_eq!(graph.get_required_attributes(LemmaId(1)), vec![LemmaId(99)]);
    assert!(graph.satisfies_constraint(LemmaId(4), LemmaId(99)));
    assert!(!graph.satisfies_constraint(LemmaId(1), LemmaId(99)));

    let empty = SemanticGraph::from_archived(&SemanticNetwork { version: 1, edges: vec![] });
    assert!(empty.get_required_attributes(LemmaId(1)).is_empty());
}
