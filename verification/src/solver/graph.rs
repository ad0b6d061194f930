//! The semantic graph: concepts, and labelled edges between them.
//!
//! The graph is a `petgraph` graph whose nodes carry lemma ids, beside a
//! hash map from lemma id to node. What it holds is modelled as the sequence
//! of its concepts and the sequence of its relations, each in the order of
//! addition; the functions at the head of this module are the only ones that
//! touch the `petgraph` graph, and their contracts are stated, not proved.

use std::collections::HashMap;
use petgraph::visit::EdgeRef;
use vstd::prelude::*;
use crate::protocol::ids::LemmaId;
use crate::protocol::model::{Relation, SemanticEdge, SemanticNetwork};

verus! {

#[verifier::external_type_specification]
#[verifier::external_body]
#[verifier::reject_recursive_types(N)]
#[verifier::reject_recursive_types(E)]
#[verifier::reject_recursive_types(Ty)]
#[verifier::reject_recursive_types(Ix)]
pub struct ExGraph<N, E, Ty, Ix>(petgraph::graph::Graph<N, E, Ty, Ix>);

#[verifier::external_type_specification]
#[verifier::external_body]
pub struct ExDirected(petgraph::Directed);

/// An edge between two nodes, each named by its position.
pub struct NodeEdge {
    pub from: int,
    pub to: int,
    pub relation: Relation,
}

/// An edge as seen from its source: where it leads, and its label.
#[derive(Debug, Clone, Copy, PartialEq, Eq, Structural)]
pub struct OutEdge {
    pub target: usize,
    pub relation: Relation,
}

/// The lemma ids that the nodes carry, by position.
pub uninterp spec fn graph_nodes(
    g: petgraph::graph::Graph<LemmaId, Relation, petgraph::Directed, u32>,
) -> Seq<LemmaId>;

/// The edges, in the order of addition.
pub uninterp spec fn graph_edges(
    g: petgraph::graph::Graph<LemmaId, Relation, petgraph::Directed, u32>,
) -> Seq<NodeEdge>;

/// The edges that leave `node`, the most recently added first.
pub open spec fn outgoing(edges: Seq<NodeEdge>, node: int) -> Seq<OutEdge>
    decreases edges.len(),
{
    if edges.len() == 0 {
        Seq::empty()
    } else if edges.last().from == node {
        seq![OutEdge { target: edges.last().to as usize, relation: edges.last().relation }]
            + outgoing(edges.drop_last(), node)
    } else {
        outgoing(edges.drop_last(), node)
    }
}

/// `petgraph::graph::Graph::new`: a graph without nodes or edges.
#[verifier::external_body]
fn graph_new() -> (g: petgraph::graph::Graph<LemmaId, Relation, petgraph::Directed, u32>)
    ensures
        graph_nodes(g) =~= Seq::empty(),
        graph_edges(g) =~= Seq::empty(),
{
    petgraph::graph::Graph::new()
}

/// `petgraph::graph::Graph::add_node`: the graph gains a node with this
/// weight, at the position after the last; the edges stay. The graph panics
/// at `u32::MAX` nodes, which the bound excludes.
#[verifier::external_body]
fn graph_add_node(
    g: &mut petgraph::graph::Graph<LemmaId, Relation, petgraph::Directed, u32>,
    weight: LemmaId,
) -> (position: usize)
    requires
        graph_nodes(*old(g)).len() < u32::MAX,
    ensures
        position == graph_nodes(*old(g)).len(),
        graph_nodes(*final(g)) == graph_nodes(*old(g)).push(weight),
        graph_edges(*final(g)) == graph_edges(*old(g)),
{
    g.add_node(weight).index()
}

/// `petgraph::graph::Graph::add_edge`: the graph gains an edge between two
/// of its nodes, after the edges that it has; the nodes stay. The graph
/// panics for a node that it does not have and at `u32::MAX` edges, which
/// the bounds exclude.
#[verifier::external_body]
fn graph_add_edge(
    g: &mut petgraph::graph::Graph<LemmaId, Relation, petgraph::Directed, u32>,
    from: usize,
    to: usize,
    relation: Relation,
)
    requires
        from < graph_nodes(*old(g)).len(),
        to < graph_nodes(*old(g)).len(),
        graph_nodes(*old(g)).len() <= u32::MAX,
        graph_edges(*old(g)).len() < u32::MAX,
    ensures
        graph_nodes(*final(g)) == graph_nodes(*old(g)),
        graph_edges(*final(g)) == graph_edges(*old(g)).push(
            (NodeEdge { from: from as int, to: to as int, relation }),
        ),
{
    g.add_edge(petgraph::graph::NodeIndex::new(from), petgraph::graph::NodeIndex::new(to), relation);
}

/// `petgraph::graph::Graph::edges`: the edges that leave a node of the
/// graph, the most recently added first.
#[verifier::external_body]
fn graph_edges_from(
    g: &petgraph::graph::Graph<LemmaId, Relation, petgraph::Directed, u32>,
    node: usize,
) -> (out: Vec<OutEdge>)
    requires
        node < graph_nodes(*g).len() <= u32::MAX,
    ensures
        out@ == outgoing(graph_edges(*g), node as int),
{
    g.edges(petgraph::graph::NodeIndex::new(node)).map(
        |e| OutEdge { target: e.target().index(), relation: *e.weight() },
    ).collect()
}

/// Indexing a `petgraph::graph::Graph` by a node: the weight of a node of
/// the graph.
#[verifier::external_body]
fn graph_node_weight(
    g: &petgraph::graph::Graph<LemmaId, Relation, petgraph::Directed, u32>,
    node: usize,
) -> (weight: LemmaId)
    requires
        node < graph_nodes(*g).len() <= u32::MAX,
    ensures
        weight == graph_nodes(*g)[node as int],
{
    g[petgraph::graph::NodeIndex::new(node)]
}

// ---------------------------------------------------------------------------
// The model
// ---------------------------------------------------------------------------

/// What a semantic graph holds: its concepts, each once, and its relations,
/// both in the order of addition.
pub struct GraphModel {
    pub concepts: Seq<LemmaId>,
    pub relations: Seq<SemanticEdge>,
}

/// The graph has an edge from `from` to `to` with this label.
pub open spec fn has_relation(m: GraphModel, from: LemmaId, to: LemmaId, relation: Relation)
    -> bool {
    exists|k: int|
        0 <= k < m.relations.len() && #[trigger] m.relations[k] == (SemanticEdge {
            from,
            to,
            relation,
        })
}

/// A chain of concepts, each of which is the next one.
pub open spec fn is_a_chain(m: GraphModel, chain: Seq<LemmaId>) -> bool {
    &&& chain.len() >= 1
    &&& forall|k: int|
        0 <= k < chain.len() - 1 ==> has_relation(m, #[trigger] chain[k], chain[k + 1], Relation::IsA)
}

/// `subject` is `ancestor`, directly or through any number of steps; every
/// concept is itself.
pub open spec fn inherits(m: GraphModel, subject: LemmaId, ancestor: LemmaId) -> bool {
    exists|chain: Seq<LemmaId>|
        #[trigger] is_a_chain(m, chain) && chain[0] == subject && chain.last() == ancestor
}

/// `subject` satisfies `attribute`: it, or something that it is, has the
/// attribute.
pub open spec fn satisfies(m: GraphModel, subject: LemmaId, attribute: LemmaId) -> bool {
    exists|ancestor: LemmaId|
        inherits(m, subject, ancestor) && #[trigger] has_relation(
            m,
            ancestor,
            attribute,
            Relation::HasAttribute,
        )
}

/// The attributes that `subject` requires, the most recently added first.
pub open spec fn required_attributes(relations: Seq<SemanticEdge>, subject: LemmaId) -> Seq<LemmaId>
    decreases relations.len(),
{
    if relations.len() == 0 {
        Seq::empty()
    } else if relations.last().from == subject && relations.last().relation
        == Relation::RequiresAttribute {
        seq![relations.last().to] + required_attributes(relations.drop_last(), subject)
    } else {
        required_attributes(relations.drop_last(), subject)
    }
}

/// The model after a concept is added: a concept that the graph has
/// changes nothing.
pub open spec fn with_concept(m: GraphModel, lemma: LemmaId) -> GraphModel {
    if m.concepts.contains(lemma) {
        m
    } else {
        GraphModel { concepts: m.concepts.push(lemma), ..m }
    }
}

/// The model after a relation is added: its two ends become concepts where
/// they were none, the source first.
pub open spec fn with_relation(m: GraphModel, from: LemmaId, to: LemmaId, relation: Relation)
    -> GraphModel {
    let ends = with_concept(with_concept(m, from), to);
    GraphModel { relations: ends.relations.push((SemanticEdge { from, to, relation })), ..ends }
}

/// The model after the first `k` edges of a network are added to the empty
/// graph.
pub open spec fn with_edges(edges: Seq<SemanticEdge>, k: nat) -> GraphModel
    decreases k,
{
    if k == 0 {
        GraphModel { concepts: Seq::empty(), relations: Seq::empty() }
    } else {
        let e = edges[k - 1];
        with_relation(with_edges(edges, (k - 1) as nat), e.from, e.to, e.relation)
    }
}

// ---------------------------------------------------------------------------
// Reading the graph
// ---------------------------------------------------------------------------

/// The edge of `outgoing` for a node edge.
spec fn out_edge(e: NodeEdge) -> OutEdge {
    OutEdge { target: e.to as usize, relation: e.relation }
}

/// `o` is an edge that leaves `node`.
spec fn leaves(edges: Seq<NodeEdge>, node: int, o: OutEdge) -> bool {
    exists|k: int| 0 <= k < edges.len() && (#[trigger] edges[k]).from == node && o == out_edge(edges[k])
}

/// `outgoing` lists the edges that leave the node, and nothing else.
proof fn lemma_outgoing(edges: Seq<NodeEdge>, node: int)
    ensures
        forall|j: int|
            0 <= j < outgoing(edges, node).len() ==> leaves(
                edges,
                node,
                #[trigger] outgoing(edges, node)[j],
            ),
        forall|k: int|
            0 <= k < edges.len() && (#[trigger] edges[k]).from == node ==> outgoing(
                edges,
                node,
            ).contains(out_edge(edges[k])),
    decreases edges.len(),
{
    if edges.len() > 0 {
        let front = edges.drop_last();
        let all = outgoing(edges, node);
        let rest = outgoing(front, node);
        lemma_outgoing(front, node);
        if edges.last().from == node {
            assert forall|j: int| 0 <= j < all.len() implies leaves(edges, node, #[trigger] all[j]) by {
                if j == 0 {
                    assert(edges[edges.len() - 1].from == node);
                } else {
                    assert(all[j] == rest[j - 1]);
                    assert(leaves(front, node, rest[j - 1]));
                    let k = choose|k: int|
                        0 <= k < front.len() && (#[trigger] front[k]).from == node && rest[j - 1]
                            == out_edge(front[k]);
                    assert(edges[k] == front[k]);
                }
            }
            assert forall|k: int| 0 <= k < edges.len() && (#[trigger] edges[k]).from
                == node implies all.contains(out_edge(edges[k])) by {
                if k == edges.len() - 1 {
                    assert(all[0] == out_edge(edges[k]));
                } else {
                    assert(front[k] == edges[k]);
                    assert(rest.contains(out_edge(front[k])));
                    let j = choose|j: int| 0 <= j < rest.len() && rest[j] == out_edge(front[k]);
                    assert(all[j + 1] == rest[j]);
                }
            }
        } else {
            assert forall|j: int| 0 <= j < all.len() implies leaves(edges, node, #[trigger] all[j]) by {
                assert(leaves(front, node, rest[j]));
                let k = choose|k: int|
                    0 <= k < front.len() && (#[trigger] front[k]).from == node && rest[j]
                        == out_edge(front[k]);
                assert(edges[k] == front[k]);
            }
            assert forall|k: int| 0 <= k < edges.len() && (#[trigger] edges[k]).from
                == node implies all.contains(out_edge(edges[k])) by {
                assert(front[k] == edges[k]);
            }
        }
    }
}

/// The attributes among the targets of `out` that are required, in order.
spec fn required_targets(nodes: Seq<LemmaId>, out: Seq<OutEdge>) -> Seq<LemmaId>
    decreases out.len(),
{
    if out.len() == 0 {
        Seq::empty()
    } else if out.last().relation == Relation::RequiresAttribute {
        required_targets(nodes, out.drop_last()).push(nodes[out.last().target as int])
    } else {
        required_targets(nodes, out.drop_last())
    }
}

proof fn lemma_required_targets_prepend(nodes: Seq<LemmaId>, first: OutEdge, rest: Seq<OutEdge>)
    ensures
        required_targets(nodes, seq![first] + rest) == if first.relation
            == Relation::RequiresAttribute {
            seq![nodes[first.target as int]] + required_targets(nodes, rest)
        } else {
            required_targets(nodes, rest)
        },
    decreases rest.len(),
{
    let all = seq![first] + rest;
    if rest.len() == 0 {
        assert(all.drop_last() =~= Seq::<OutEdge>::empty());
        assert(all.last() == first);
        assert(required_targets(nodes, all.drop_last()) =~= Seq::<LemmaId>::empty());
        assert(required_targets(nodes, rest) =~= Seq::<LemmaId>::empty());
        assert(required_targets(nodes, all) =~= if first.relation == Relation::RequiresAttribute {
            seq![nodes[first.target as int]] + required_targets(nodes, rest)
        } else {
            required_targets(nodes, rest)
        });
    } else {
        assert(all.drop_last() =~= seq![first] + rest.drop_last());
        assert(all.last() == rest.last());
        lemma_required_targets_prepend(nodes, first, rest.drop_last());
        assert(required_targets(nodes, all) =~= if first.relation == Relation::RequiresAttribute {
            seq![nodes[first.target as int]] + required_targets(nodes, rest)
        } else {
            required_targets(nodes, rest)
        });
    }
}

/// The required targets of the edges that leave a node are the attributes
/// that its concept requires.
proof fn lemma_required(nodes: Seq<LemmaId>, edges: Seq<NodeEdge>, node: int)
    requires
        nodes.no_duplicates(),
        nodes.len() <= u32::MAX,
        0 <= node < nodes.len(),
        forall|k: int|
            0 <= k < edges.len() ==> 0 <= (#[trigger] edges[k]).from < nodes.len() && 0
                <= edges[k].to < nodes.len(),
    ensures
        required_targets(nodes, outgoing(edges, node)) == required_attributes(
            relations_of(nodes, edges),
            nodes[node],
        ),
    decreases edges.len(),
{
    let relations = relations_of(nodes, edges);
    if edges.len() > 0 {
        let front = edges.drop_last();
        let last = edges.last();
        assert(relations.drop_last() =~= relations_of(nodes, front));
        assert(relations.last().from == nodes[last.from]);
        assert forall|k: int| 0 <= k < front.len() implies 0 <= (#[trigger] front[k]).from
            < nodes.len() && 0 <= front[k].to < nodes.len() by {
            assert(front[k] == edges[k]);
        }
        lemma_required(nodes, front, node);
        if last.from == node {
            lemma_required_targets_prepend(nodes, out_edge(last), outgoing(front, node));
        }
    } else {
        assert(relations =~= Seq::empty());
    }
}

/// A concept that the graph does not have requires nothing.
proof fn lemma_required_unknown(nodes: Seq<LemmaId>, edges: Seq<NodeEdge>, subject: LemmaId)
    requires
        !nodes.contains(subject),
        forall|k: int|
            0 <= k < edges.len() ==> 0 <= (#[trigger] edges[k]).from < nodes.len() && 0
                <= edges[k].to < nodes.len(),
    ensures
        required_attributes(relations_of(nodes, edges), subject) == Seq::<LemmaId>::empty(),
    decreases edges.len(),
{
    let relations = relations_of(nodes, edges);
    if edges.len() > 0 {
        let front = edges.drop_last();
        assert(relations.drop_last() =~= relations_of(nodes, front));
        assert(relations.last().from == nodes[edges.last().from]);
        assert(nodes.contains(nodes[edges.last().from]));
        assert forall|k: int| 0 <= k < front.len() implies 0 <= (#[trigger] front[k]).from
            < nodes.len() && 0 <= front[k].to < nodes.len() by {
            assert(front[k] == edges[k]);
        }
        lemma_required_unknown(nodes, front, subject);
    } else {
        assert(relations =~= Seq::empty());
    }
}

/// Different positions below `n`, each once, are at most `n`.
proof fn lemma_distinct_bounded(s: Seq<usize>, n: nat)
    requires
        s.no_duplicates(),
        forall|i: int| 0 <= i < s.len() ==> (#[trigger] s[i]) < n,
    ensures
        s.len() <= n,
    decreases n,
{
    if s.len() > 0 {
        if n == 0 {
            assert(s[0] < n);
        } else {
            let top = (n - 1) as usize;
            if s.contains(top) {
                let j = choose|j: int| 0 <= j < s.len() && s[j] == top;
                let rest = s.remove(j);
                assert forall|i: int| 0 <= i < rest.len() implies (#[trigger] rest[i]) < n - 1 by {
                    if i < j {
                        assert(rest[i] == s[i]);
                    } else {
                        assert(rest[i] == s[i + 1]);
                    }
                }
                assert forall|a: int, b: int|
                    0 <= a < rest.len() && 0 <= b < rest.len() && a != b implies rest[a]
                    != rest[b] by {
                    let a2 = if a < j { a } else { a + 1 };
                    let b2 = if b < j { b } else { b + 1 };
                    assert(rest[a] == s[a2] && rest[b] == s[b2]);
                }
                lemma_distinct_bounded(rest, (n - 1) as nat);
            } else {
                assert forall|i: int| 0 <= i < s.len() implies (#[trigger] s[i]) < n - 1 by {
                    assert(s.contains(s[i]));
                }
                lemma_distinct_bounded(s, (n - 1) as nat);
            }
        }
    }
}

/// What holds of the search while it runs: every node on the stack or
/// visited is something that the subject is; no visited node has the
/// attribute; whatever a visited node is, is visited or on the stack.
spec fn search_ok(
    nodes: Seq<LemmaId>,
    edges: Seq<NodeEdge>,
    subject: LemmaId,
    attribute: LemmaId,
    start: usize,
    stack: Seq<usize>,
    visited: Seq<usize>,
    open: Option<usize>,
) -> bool {
    let m = GraphModel { concepts: nodes, relations: relations_of(nodes, edges) };
    &&& forall|i: int|
        0 <= i < stack.len() ==> (#[trigger] stack[i]) < nodes.len() && inherits(
            m,
            subject,
            nodes[stack[i] as int],
        )
    &&& forall|i: int|
        0 <= i < visited.len() ==> (#[trigger] visited[i]) < nodes.len() && inherits(
            m,
            subject,
            nodes[visited[i] as int],
        )
    &&& forall|i: int|
        0 <= i < visited.len() && Some(#[trigger] visited[i]) != open ==> !has_relation(
            m,
            nodes[visited[i] as int],
            attribute,
            Relation::HasAttribute,
        )
    &&& visited.no_duplicates()
    &&& forall|i: int, k: int|
        0 <= i < visited.len() && 0 <= k < edges.len() && (#[trigger] edges[k]).from
            == #[trigger] visited[i] && edges[k].relation == Relation::IsA && Some(visited[i])
            != open ==> visited.contains(edges[k].to as usize) || stack.contains(
            edges[k].to as usize,
        )
    &&& (visited.contains(start) || stack.contains(start))
}

/// One more step along a chain.
proof fn lemma_inherits_step(m: GraphModel, subject: LemmaId, middle: LemmaId, next: LemmaId)
    requires
        inherits(m, subject, middle),
        has_relation(m, middle, next, Relation::IsA),
    ensures
        inherits(m, subject, next),
{
    let chain = choose|chain: Seq<LemmaId>|
        #[trigger] is_a_chain(m, chain) && chain[0] == subject && chain.last() == middle;
    let longer = chain.push(next);
    assert forall|k: int| 0 <= k < longer.len() - 1 implies has_relation(
        m,
        #[trigger] longer[k],
        longer[k + 1],
        Relation::IsA,
    ) by {
        if k < chain.len() - 1 {
            assert(longer[k] == chain[k]);
            assert(longer[k + 1] == chain[k + 1]);
        }
    }
    assert(is_a_chain(m, longer) && longer[0] == subject && longer.last() == next);
}

/// Every concept is itself.
proof fn lemma_inherits_self(m: GraphModel, subject: LemmaId)
    ensures
        inherits(m, subject, subject),
{
    let chain = seq![subject];
    assert(is_a_chain(m, chain) && chain[0] == subject && chain.last() == subject);
}

/// Once the stack is empty, every concept along a chain from the subject is
/// visited.
proof fn lemma_chain_visited(
    nodes: Seq<LemmaId>,
    edges: Seq<NodeEdge>,
    subject: LemmaId,
    attribute: LemmaId,
    start: usize,
    visited: Seq<usize>,
    chain: Seq<LemmaId>,
    k: int,
)
    requires
        nodes.no_duplicates(),
        nodes.len() <= u32::MAX,
        forall|e: int|
            0 <= e < edges.len() ==> 0 <= (#[trigger] edges[e]).from < nodes.len() && 0
                <= edges[e].to < nodes.len(),
        start < nodes.len(),
        nodes[start as int] == subject,
        search_ok(nodes, edges, subject, attribute, start, Seq::empty(), visited, None),
        is_a_chain((GraphModel { concepts: nodes, relations: relations_of(nodes, edges) }), chain),
        chain[0] == subject,
        0 <= k < chain.len(),
    ensures
        exists|i: int|
            0 <= i < visited.len() && nodes[(#[trigger] visited[i]) as int] == chain[k],
    decreases k,
{
    let m = GraphModel { concepts: nodes, relations: relations_of(nodes, edges) };
    if k == 0 {
        assert(visited.contains(start));
        let i = choose|i: int| 0 <= i < visited.len() && visited[i] == start;
        assert(nodes[visited[i] as int] == chain[0]);
    } else {
        lemma_chain_visited(nodes, edges, subject, attribute, start, visited, chain, k - 1);
        let i = choose|i: int|
            0 <= i < visited.len() && nodes[(#[trigger] visited[i]) as int] == chain[k - 1];
        assert(has_relation(m, chain[k - 1], chain[k - 1 + 1], Relation::IsA));
        let r = choose|r: int|
            0 <= r < m.relations.len() && #[trigger] m.relations[r] == (SemanticEdge {
                from: chain[k - 1],
                to: chain[k],
                relation: Relation::IsA,
            });
        assert(nodes[edges[r].from] == nodes[visited[i] as int]);
        assert(edges[r].from == visited[i]);
        let t = edges[r].to as usize;
        assert(visited.contains(t) || Seq::<usize>::empty().contains(t));
        assert(visited.contains(t));
        let j = choose|j: int| 0 <= j < visited.len() && visited[j] == t;
        assert(nodes[visited[j] as int] == chain[k]);
    }
}

/// Once the stack is empty, the subject does not satisfy the attribute.
proof fn lemma_search_exhausted(
    nodes: Seq<LemmaId>,
    edges: Seq<NodeEdge>,
    subject: LemmaId,
    attribute: LemmaId,
    start: usize,
    visited: Seq<usize>,
)
    requires
        nodes.no_duplicates(),
        nodes.len() <= u32::MAX,
        forall|e: int|
            0 <= e < edges.len() ==> 0 <= (#[trigger] edges[e]).from < nodes.len() && 0
                <= edges[e].to < nodes.len(),
        start < nodes.len(),
        nodes[start as int] == subject,
        search_ok(nodes, edges, subject, attribute, start, Seq::empty(), visited, None),
    ensures
        !satisfies(
            (GraphModel { concepts: nodes, relations: relations_of(nodes, edges) }),
            subject,
            attribute,
        ),
{
    let m = GraphModel { concepts: nodes, relations: relations_of(nodes, edges) };
    if satisfies(m, subject, attribute) {
        let ancestor = choose|ancestor: LemmaId|
            inherits(m, subject, ancestor) && #[trigger] has_relation(
                m,
                ancestor,
                attribute,
                Relation::HasAttribute,
            );
        let chain = choose|chain: Seq<LemmaId>|
            #[trigger] is_a_chain(m, chain) && chain[0] == subject && chain.last() == ancestor;
        lemma_chain_visited(
            nodes,
            edges,
            subject,
            attribute,
            start,
            visited,
            chain,
            chain.len() - 1,
        );
        let i = choose|i: int|
            0 <= i < visited.len() && nodes[(#[trigger] visited[i]) as int] == chain[chain.len()
                - 1];
        assert(!has_relation(m, nodes[visited[i] as int], attribute, Relation::HasAttribute));
    }
}

/// A subject that the graph does not have satisfies nothing.
proof fn lemma_unknown_subject(
    nodes: Seq<LemmaId>,
    edges: Seq<NodeEdge>,
    subject: LemmaId,
    attribute: LemmaId,
)
    requires
        !nodes.contains(subject),
        forall|e: int|
            0 <= e < edges.len() ==> 0 <= (#[trigger] edges[e]).from < nodes.len() && 0
                <= edges[e].to < nodes.len(),
    ensures
        !satisfies(
            (GraphModel { concepts: nodes, relations: relations_of(nodes, edges) }),
            subject,
            attribute,
        ),
{
    let m = GraphModel { concepts: nodes, relations: relations_of(nodes, edges) };
    if satisfies(m, subject, attribute) {
        let ancestor = choose|ancestor: LemmaId|
            inherits(m, subject, ancestor) && #[trigger] has_relation(
                m,
                ancestor,
                attribute,
                Relation::HasAttribute,
            );
        let chain = choose|chain: Seq<LemmaId>|
            #[trigger] is_a_chain(m, chain) && chain[0] == subject && chain.last() == ancestor;
        let to = if chain.len() == 1 { attribute } else { chain[1] };
        let relation = if chain.len() == 1 { Relation::HasAttribute } else { Relation::IsA };
        if chain.len() > 1 {
            assert(has_relation(m, chain[0int], chain[0int + 1], Relation::IsA));
        }
        assert(has_relation(m, subject, to, relation));
        let r = choose|r: int|
            0 <= r < m.relations.len() && #[trigger] m.relations[r] == (SemanticEdge {
                from: subject,
                to,
                relation,
            });
        assert(nodes[edges[r].from] == subject);
        assert(nodes.contains(subject));
    }
}

fn contains_index(v: &Vec<usize>, x: usize) -> (r: bool)
    ensures
        r == v@.contains(x),
{
    let mut i: usize = 0;
    while i < v.len()
        invariant
            i <= v@.len(),
            forall|j: int| 0 <= j < i ==> v@[j] != x,
        decreases v@.len() - i,
    {
        if v[i] == x {
            return true;
        }
        i = i + 1;
    }
    false
}

pub struct SemanticGraph {
    graph: petgraph::graph::Graph<LemmaId, Relation, petgraph::Directed, u32>,
    index_map: HashMap<u32, usize>,
}

/// The node edges whose ends are the positions of the ends of the relations.
spec fn edges_match(nodes: Seq<LemmaId>, edges: Seq<NodeEdge>, relations: Seq<SemanticEdge>) -> bool {
    &&& edges.len() == relations.len()
    &&& forall|k: int|
        0 <= k < edges.len() ==> {
            &&& 0 <= (#[trigger] edges[k]).from < nodes.len()
            &&& 0 <= edges[k].to < nodes.len()
            &&& relations[k] == (SemanticEdge {
                from: nodes[edges[k].from],
                to: nodes[edges[k].to],
                relation: edges[k].relation,
            })
        }
}

/// The relations of a graph, read off its nodes and edges.
spec fn relations_of(nodes: Seq<LemmaId>, edges: Seq<NodeEdge>) -> Seq<SemanticEdge> {
    Seq::new(
        edges.len(),
        |k: int|
            SemanticEdge {
                from: nodes[edges[k].from],
                to: nodes[edges[k].to],
                relation: edges[k].relation,
            },
    )
}

impl SemanticGraph {
    /// The concepts and relations of the graph.
    pub closed spec fn view(&self) -> GraphModel {
        GraphModel {
            concepts: graph_nodes(self.graph),
            relations: relations_of(graph_nodes(self.graph), graph_edges(self.graph)),
        }
    }

    /// The graph is consistent: no concept has two nodes, the map finds the
    /// node of each concept, and every edge joins two nodes.
    pub closed spec fn well_formed(&self) -> bool {
        let nodes = graph_nodes(self.graph);
        let edges = graph_edges(self.graph);
        &&& nodes.len() <= u32::MAX
        &&& edges.len() <= u32::MAX
        &&& nodes.no_duplicates()
        &&& forall|i: int|
            0 <= i < nodes.len() ==> self.index_map@.contains_key((#[trigger] nodes[i]).0)
                && self.index_map@[nodes[i].0] == i
        &&& forall|k: u32| #[trigger]
            self.index_map@.contains_key(k) ==> self.index_map@[k] < nodes.len()
                && nodes[self.index_map@[k] as int].0 == k
        &&& forall|k: int|
            0 <= k < edges.len() ==> 0 <= (#[trigger] edges[k]).from < nodes.len() && 0
                <= edges[k].to < nodes.len()
    }

    pub fn new() -> (r: Self)
        ensures
            r.well_formed(),
            r@ == (GraphModel { concepts: Seq::empty(), relations: Seq::empty() }),
    {
        let r = SemanticGraph { graph: graph_new(), index_map: HashMap::new() };
        assert(r@.relations =~= Seq::empty());
        r
    }

    /// The node of a concept, if the graph has the concept.
    fn node_of(&self, lemma: LemmaId) -> (r: Option<usize>)
        requires
            self.well_formed(),
        ensures
            match r {
                Some(i) => i < graph_nodes(self.graph).len() && graph_nodes(self.graph)[i as int]
                    == lemma,
                None => !graph_nodes(self.graph).contains(lemma),
            },
    {
        match self.index_map.get(&lemma.0) {
            Some(i) => Some(*i),
            None => {
                proof {
                    let nodes = graph_nodes(self.graph);
                    if nodes.contains(lemma) {
                        let i = choose|i: int| 0 <= i < nodes.len() && nodes[i] == lemma;
                        assert(self.index_map@.contains_key(nodes[i].0));
                    }
                }
                None
            },
        }
    }

    /// The node of a concept, which the graph gains if it has none.
    fn ensure_node(&mut self, lemma: LemmaId) -> (i: usize)
        requires
            old(self).well_formed(),
            old(self)@.concepts.len() < u32::MAX,
        ensures
            final(self).well_formed(),
            final(self)@ == with_concept(old(self)@, lemma),
            i < graph_nodes(final(self).graph).len(),
            graph_nodes(final(self).graph)[i as int] == lemma,
            graph_edges(final(self).graph) == graph_edges(old(self).graph),
    {
        match self.node_of(lemma) {
            Some(i) => i,
            None => {
                let ghost before = graph_nodes(self.graph);
                let i = graph_add_node(&mut self.graph, lemma);
                self.index_map.insert(lemma.0, i);
                proof {
                    let nodes = graph_nodes(self.graph);
                    let edges = graph_edges(self.graph);
                    assert forall|a: int, b: int|
                        0 <= a < nodes.len() && 0 <= b < nodes.len() && a != b implies nodes[a]
                        != nodes[b] by {
                        if a < before.len() && b < before.len() {
                            assert(before[a] != before[b]);
                        } else if a < before.len() {
                            assert(before.contains(before[a]));
                        } else {
                            assert(before.contains(before[b]));
                        }
                    }
                    assert forall|j: int| 0 <= j < nodes.len() implies self.index_map@.contains_key(
                        (#[trigger] nodes[j]).0,
                    ) && self.index_map@[nodes[j].0] == j by {
                        if j < before.len() {
                            assert(before[j] == nodes[j]);
                            assert(before.contains(before[j]));
                            assert(old(self).index_map@.contains_key(before[j].0));
                        }
                    }
                    assert forall|k: u32| #[trigger]
                        self.index_map@.contains_key(k) implies self.index_map@[k] < nodes.len()
                        && nodes[self.index_map@[k] as int].0 == k by {
                        if k != lemma.0 {
                            assert(old(self).index_map@.contains_key(k));
                        }
                    }
                    assert(self@.relations =~= old(self)@.relations);
                }
                i
            },
        }
    }

    /// Adds a concept, unless the graph has it.
    pub fn add_concept(&mut self, lemma: LemmaId)
        requires
            old(self).well_formed(),
            old(self)@.concepts.len() < u32::MAX,
        ensures
            final(self).well_formed(),
            final(self)@ == with_concept(old(self)@, lemma),
    {
        let _ = self.ensure_node(lemma);
    }

    /// Adds a relation; its two ends become concepts where they were none.
    /// Parallel edges are kept.
    pub fn add_relation(&mut self, from: LemmaId, to: LemmaId, rel: Relation)
        requires
            old(self).well_formed(),
            old(self)@.concepts.len() + 2 <= u32::MAX,
            old(self)@.relations.len() < u32::MAX,
        ensures
            final(self).well_formed(),
            final(self)@ == with_relation(old(self)@, from, to, rel),
    {
        let from_idx = self.ensure_node(from);
        let ghost mid = graph_nodes(self.graph);
        let to_idx = self.ensure_node(to);
        proof {
            let nodes = graph_nodes(self.graph);
            assert(nodes[from_idx as int] == from) by {
                if nodes != mid {
                    assert(nodes == mid.push(to));
                }
            }
        }
        let ghost nodes = graph_nodes(self.graph);
        let ghost edges = graph_edges(self.graph);
        graph_add_edge(&mut self.graph, from_idx, to_idx, rel);
        proof {
            let ends = with_concept(with_concept(old(self)@, from), to);
            assert(relations_of(nodes, graph_edges(self.graph)) =~= relations_of(nodes, edges).push(
                (SemanticEdge { from, to, relation: rel }),
            ));
        }
    }

    /// The graph of a persisted network: its edges, added in order to the
    /// empty graph. A graph holds up to `u32::MAX` concepts and relations.
    pub fn from_archived(archived: &SemanticNetwork) -> (r: Self)
        requires
            2 * archived.edges@.len() < u32::MAX,
        ensures
            r.well_formed(),
            r@ == with_edges(archived.edges@, archived.edges@.len()),
    {
        let mut slf = SemanticGraph::new();
        let mut k: usize = 0;
        while k < archived.edges.len()
            invariant
                k <= archived.edges@.len(),
                2 * archived.edges@.len() < u32::MAX,
                slf.well_formed(),
                slf@ == with_edges(archived.edges@, k as nat),
                slf@.concepts.len() <= 2 * k,
                slf@.relations.len() == k,
            decreases archived.edges@.len() - k,
        {
            let edge = archived.edges[k];
            slf.add_relation(edge.from, edge.to, edge.relation);
            k = k + 1;
        }
        slf
    }

    /// Whether `subject` satisfies `attribute`: whether it, or something
    /// that it is, directly or through any number of steps, has the
    /// attribute. A subject that the graph does not know satisfies nothing.
    /// The search ends on every graph, cyclic or not: it visits no concept
    /// twice.
    pub fn satisfies_constraint(&self, subject: LemmaId, attribute: LemmaId) -> (r: bool)
        requires
            self.well_formed(),
        ensures
            r == satisfies(self@, subject, attribute),
    {
        let ghost nodes = graph_nodes(self.graph);
        let ghost edges = graph_edges(self.graph);
        let ghost m = self@;
        let start = match self.node_of(subject) {
            Some(i) => i,
            None => {
                proof {
                    lemma_unknown_subject(nodes, edges, subject, attribute);
                }
                return false;
            },
        };
        let mut stack: Vec<usize> = Vec::new();
        stack.push(start);
        let mut visited: Vec<usize> = Vec::new();
        proof {
            lemma_inherits_self(m, subject);
            assert(stack@[0] == start);
        }
        while stack.len() > 0
            invariant
                self.well_formed(),
                nodes == graph_nodes(self.graph),
                edges == graph_edges(self.graph),
                m == self@,
                start < nodes.len(),
                nodes[start as int] == subject,
                visited@.len() <= nodes.len(),
                search_ok(nodes, edges, subject, attribute, start, stack@, visited@, None),
            decreases nodes.len() - visited@.len(), stack@.len(),
        {
            let ghost stack_before = stack@;
            let current = stack.pop().unwrap();
            if contains_index(&visited, current) {
                proof {
                    assert forall|t: usize|
                        stack_before.contains(t) implies visited@.contains(t) || stack@.contains(
                        t,
                    ) by {
                        let j = choose|j: int| 0 <= j < stack_before.len() && stack_before[j] == t;
                        if j < stack@.len() {
                            assert(stack@[j] == t);
                        }
                    }
                }
                continue ;
            }
            let ghost visited_before = visited@;
            visited.push(current);
            proof {
                assert forall|a: int, b: int|
                    0 <= a < visited@.len() && 0 <= b < visited@.len() && a != b implies visited@[a]
                    != visited@[b] by {
                    if a < visited_before.len() {
                        assert(visited_before.contains(visited_before[a]));
                    }
                    if b < visited_before.len() {
                        assert(visited_before.contains(visited_before[b]));
                    }
                }
                lemma_distinct_bounded(visited@, nodes.len());
                assert(visited@[visited@.len() - 1] == current);
                assert forall|t: usize|
                    visited_before.contains(t) || stack_before.contains(t) implies visited@.contains(
                    t,
                ) || stack@.contains(t) by {
                    if visited_before.contains(t) {
                        let j = choose|j: int|
                            0 <= j < visited_before.len() && visited_before[j] == t;
                        assert(visited@[j] == t);
                    } else {
                        let j = choose|j: int| 0 <= j < stack_before.len() && stack_before[j] == t;
                        if j < stack@.len() {
                            assert(stack@[j] == t);
                        }
                    }
                }
                assert(search_ok(
                    nodes,
                    edges,
                    subject,
                    attribute,
                    start,
                    stack@,
                    visited@,
                    Some(current),
                ));
            }
            let out = graph_edges_from(&self.graph, current);
            proof {
                lemma_outgoing(edges, current as int);
            }
            let mut j: usize = 0;
            while j < out.len()
                invariant
                    self.well_formed(),
                    nodes == graph_nodes(self.graph),
                    edges == graph_edges(self.graph),
                    m == self@,
                    j <= out@.len(),
                    out@ == outgoing(edges, current as int),
                    current < nodes.len(),
                    visited@.len() > 0,
                    visited@[visited@.len() - 1] == current,
                    inherits(m, subject, nodes[current as int]),
                    search_ok(
                        nodes,
                        edges,
                        subject,
                        attribute,
                        start,
                        stack@,
                        visited@,
                        Some(current),
                    ),
                    forall|q: int|
                        0 <= q < j ==> !((#[trigger] out@[q]).relation == Relation::HasAttribute
                            && nodes[out@[q].target as int] == attribute),
                    forall|q: int|
                        0 <= q < j && (#[trigger] out@[q]).relation == Relation::IsA
                            ==> stack@.contains(out@[q].target),
                    forall|q: int|
                        0 <= q < out@.len() ==> leaves(edges, current as int, #[trigger] out@[q]),
                decreases out@.len() - j,
            {
                let target = out[j].target;
                let relation = out[j].relation;
                let ghost k = choose|k: int|
                    0 <= k < edges.len() && (#[trigger] edges[k]).from == current && out@[j as int]
                        == out_edge(edges[k]);
                proof {
                    assert(leaves(edges, current as int, out@[j as int]));
                    assert(m.relations[k] == (SemanticEdge {
                        from: nodes[current as int],
                        to: nodes[target as int],
                        relation,
                    }));
                }
                if relation == Relation::HasAttribute {
                    if graph_node_weight(&self.graph, target) == attribute {
                        proof {
                            assert(has_relation(
                                m,
                                nodes[current as int],
                                attribute,
                                Relation::HasAttribute,
                            ));
                        }
                        return true;
                    }
                }
                if relation == Relation::IsA {
                    let ghost stack_mid = stack@;
                    stack.push(target);
                    proof {
                        assert(has_relation(
                            m,
                            nodes[current as int],
                            nodes[target as int],
                            Relation::IsA,
                        ));
                        lemma_inherits_step(m, subject, nodes[current as int], nodes[target as int]);
                        assert(stack@[stack@.len() - 1] == target);
                        assert forall|t: usize| stack_mid.contains(t) implies stack@.contains(t) by {
                            let q = choose|q: int| 0 <= q < stack_mid.len() && stack_mid[q] == t;
                            assert(stack@[q] == t);
                        }
                    }
                }
                j = j + 1;
            }
            proof {
                assert(!has_relation(m, nodes[current as int], attribute, Relation::HasAttribute)) by {
                    if has_relation(m, nodes[current as int], attribute, Relation::HasAttribute) {
                        let r = choose|r: int|
                            0 <= r < m.relations.len() && #[trigger] m.relations[r]
                                == (SemanticEdge {
                                from: nodes[current as int],
                                to: attribute,
                                relation: Relation::HasAttribute,
                            });
                        assert(nodes[edges[r].from] == nodes[current as int]);
                        assert(edges[r].from == current);
                        assert(out@.contains(out_edge(edges[r])));
                        let q = choose|q: int| 0 <= q < out@.len() && out@[q] == out_edge(edges[r]);
                        assert(out@[q].relation == Relation::HasAttribute);
                    }
                }
                assert forall|i: int, k: int|
                    0 <= i < visited@.len() && 0 <= k < edges.len() && (#[trigger] edges[k]).from
                        == #[trigger] visited@[i] && edges[k].relation
                        == Relation::IsA implies visited@.contains(edges[k].to as usize)
                    || stack@.contains(edges[k].to as usize) by {
                    if visited@[i] == current {
                        assert(out@.contains(out_edge(edges[k])));
                        let q = choose|q: int| 0 <= q < out@.len() && out@[q] == out_edge(edges[k]);
                        assert(out@[q].relation == Relation::IsA);
                    }
                }
            }
        }
        proof {
            assert(stack@ =~= Seq::empty());
            lemma_search_exhausted(nodes, edges, subject, attribute, start, visited@);
        }
        false
    }

    /// The attributes that `subject` requires, the most recently added
    /// first; none for a subject that the graph does not know.
    pub fn get_required_attributes(&self, subject: LemmaId) -> (reqs: Vec<LemmaId>)
        requires
            self.well_formed(),
        ensures
            reqs@ == required_attributes(self@.relations, subject),
    {
        let ghost nodes = graph_nodes(self.graph);
        let ghost edges = graph_edges(self.graph);
        let mut reqs: Vec<LemmaId> = Vec::new();
        match self.node_of(subject) {
            Some(idx) => {
                let out = graph_edges_from(&self.graph, idx);
                proof {
                    lemma_outgoing(edges, idx as int);
                    lemma_required(nodes, edges, idx as int);
                }
                let mut j: usize = 0;
                while j < out.len()
                    invariant
                        self.well_formed(),
                        nodes == graph_nodes(self.graph),
                        edges == graph_edges(self.graph),
                        j <= out@.len(),
                        out@ == outgoing(edges, idx as int),
                        reqs@ == required_targets(nodes, out@.take(j as int)),
                        forall|q: int|
                            0 <= q < out@.len() ==> leaves(edges, idx as int, #[trigger] out@[q]),
                    decreases out@.len() - j,
                {
                    proof {
                        assert(out@.take(j + 1).drop_last() =~= out@.take(j as int));
                        assert(out@.take(j + 1).last() == out@[j as int]);
                        assert(leaves(edges, idx as int, out@[j as int]));
                        let k = choose|k: int|
                            0 <= k < edges.len() && (#[trigger] edges[k]).from == idx
                                && out@[j as int] == out_edge(edges[k]);
                        assert(out@[j as int].target < nodes.len());
                    }
                    if out[j].relation == Relation::RequiresAttribute {
                        reqs.push(graph_node_weight(&self.graph, out[j].target));
                    }
                    j = j + 1;
                }
                assert(out@.take(j as int) =~= out@);
            },
            None => {
                proof {
                    lemma_required_unknown(nodes, edges, subject);
                }
            },
        }
        reqs
    }
}

} // verus!
