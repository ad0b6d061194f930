//! The check of selectional restrictions: what a verb requires of its
//! object, the object must satisfy.

use vstd::prelude::*;
use vstd::string::StringExecFns;
use crate::ecs::components::DependencyRole;
use crate::ecs::world::{
    collected, lemma_collected_permutation, lemma_listings_agree, lists_rows, row_views,
    stored_token, EntityRecord, LogosWorld, SyntaxRow, SyntaxRowView,
};
use crate::protocol::ids::LemmaId;
use crate::solver::graph::{required_attributes, satisfies, GraphModel, SemanticGraph};

verus! {

#[derive(Debug, Clone)]
pub struct SemanticError {
    pub verb_text: String,
    pub object_text: String,
    pub message: String,
}

/// A [`SemanticError`] with its strings as character sequences.
pub struct SemanticErrorView {
    pub verb_text: Seq<char>,
    pub object_text: Seq<char>,
    pub message: Seq<char>,
}

impl View for SemanticError {
    type V = SemanticErrorView;

    open spec fn view(&self) -> SemanticErrorView {
        SemanticErrorView {
            verb_text: self.verb_text@,
            object_text: self.object_text@,
            message: self.message@,
        }
    }
}

/// The views of a sequence of errors.
pub open spec fn semantic_views(errors: Seq<SemanticError>) -> Seq<SemanticErrorView> {
    errors.map_values(|e: SemanticError| e@)
}

/// The error that an object raises under a verb.
pub open spec fn violation(verb_text: Seq<char>, object_text: Seq<char>) -> SemanticErrorView {
    SemanticErrorView {
        verb_text,
        object_text,
        message: "Constraint Violation: Object '"@ + object_text
            + "' does not satisfy requirement of '"@ + verb_text + "'."@,
    }
}

/// One `error` for each of the `requirements` that `object` does not
/// satisfy.
pub open spec fn unmet(
    m: GraphModel,
    object: LemmaId,
    requirements: Seq<LemmaId>,
    error: SemanticErrorView,
) -> Seq<SemanticErrorView>
    decreases requirements.len(),
{
    if requirements.len() == 0 {
        Seq::empty()
    } else if satisfies(m, object, requirements.last()) {
        unmet(m, object, requirements.drop_last(), error)
    } else {
        unmet(m, object, requirements.drop_last(), error).push(error)
    }
}

/// The errors of one row: where the row is an object, its head has token
/// data and both have a lemma, one error for each attribute that the head's
/// lemma requires and the object's lemma does not satisfy.
pub open spec fn object_errors(
    entities: Map<hecs::Entity, EntityRecord>,
    m: GraphModel,
    row: SyntaxRowView,
) -> Seq<SemanticErrorView> {
    if row.syntax.role == DependencyRole::Object {
        match stored_token(entities, row.syntax.head) {
            Some(verb) => match (verb.lemma_id, row.token.lemma_id) {
                (Some(verb_id), Some(object_id)) => unmet(
                    m,
                    object_id,
                    required_attributes(m.relations, verb_id),
                    violation(verb.text, row.token.text),
                ),
                _ => Seq::empty(),
            },
            None => Seq::empty(),
        }
    } else {
        Seq::empty()
    }
}

pub open spec fn object_pass(entities: Map<hecs::Entity, EntityRecord>, m: GraphModel) -> spec_fn(
    SyntaxRowView,
) -> Seq<SemanticErrorView> {
    |row: SyntaxRowView| object_errors(entities, m, row)
}

/// The semantic errors of a store whose rows come in the order `rows`.
pub open spec fn semantic_errors(
    entities: Map<hecs::Entity, EntityRecord>,
    m: GraphModel,
    rows: Seq<SyntaxRowView>,
) -> Seq<SemanticErrorView> {
    collected(rows, object_pass(entities, m))
}

/// In whatever order the store lists its rows, the semantic errors are the
/// same, each as often.
pub proof fn lemma_semantics_order_independent(
    entities: Map<hecs::Entity, EntityRecord>,
    m: GraphModel,
    first: Seq<SyntaxRowView>,
    second: Seq<SyntaxRowView>,
)
    requires
        lists_rows(first, entities),
        lists_rows(second, entities),
    ensures
        semantic_errors(entities, m, first).to_multiset() == semantic_errors(
            entities,
            m,
            second,
        ).to_multiset(),
{
    lemma_listings_agree(entities, first, second);
    lemma_collected_permutation(first, second, object_pass(entities, m));
}

/// A graph without relations raises no error.
pub proof fn lemma_no_relations_no_errors(
    entities: Map<hecs::Entity, EntityRecord>,
    m: GraphModel,
    rows: Seq<SyntaxRowView>,
)
    requires
        m.relations.len() == 0,
    ensures
        semantic_errors(entities, m, rows) == Seq::<SemanticErrorView>::empty(),
    decreases rows.len(),
{
    if rows.len() > 0 {
        lemma_no_relations_no_errors(entities, m, rows.drop_last());
        assert(object_errors(entities, m, rows.last()) =~= Seq::empty());
    }
}

fn push_unmet(
    graph: &SemanticGraph,
    verb_text: &String,
    object_text: &String,
    verb_id: LemmaId,
    object_id: LemmaId,
    errors: &mut Vec<SemanticError>,
)
    requires
        graph.well_formed(),
    ensures
        semantic_views(final(errors)@) == semantic_views(old(errors)@) + unmet(
            graph@,
            object_id,
            required_attributes(graph@.relations, verb_id),
            violation(verb_text@, object_text@),
        ),
{
    let ghost before = semantic_views(errors@);
    let ghost error = violation(verb_text@, object_text@);
    let requirements = graph.get_required_attributes(verb_id);
    let mut k: usize = 0;
    assert(semantic_views(errors@) =~= before + unmet(
        graph@,
        object_id,
        requirements@.take(0),
        error,
    ));
    while k < requirements.len()
        invariant
            graph.well_formed(),
            k <= requirements@.len(),
            error == violation(verb_text@, object_text@),
            semantic_views(errors@) == before + unmet(
                graph@,
                object_id,
                requirements@.take(k as int),
                error,
            ),
        decreases requirements@.len() - k,
    {
        proof {
            assert(requirements@.take(k + 1).drop_last() =~= requirements@.take(k as int));
            assert(requirements@.take(k + 1).last() == requirements@[k as int]);
        }
        if !graph.satisfies_constraint(object_id, requirements[k]) {
            let mut message = String::from_str("Constraint Violation: Object '");
            message.append(object_text.as_str());
            message.append("' does not satisfy requirement of '");
            message.append(verb_text.as_str());
            message.append("'.");
            let ghost views = semantic_views(errors@);
            let item = SemanticError {
                verb_text: verb_text.clone(),
                object_text: object_text.clone(),
                message,
            };
            errors.push(item);
            assert(item@ == error);
            assert(semantic_views(errors@) =~= views.push(error));
            assert(views.push(error) =~= before + unmet(
                graph@,
                object_id,
                requirements@.take(k + 1),
                error,
            ));
        }
        k = k + 1;
    }
    assert(requirements@.take(k as int) =~= requirements@);
}

/// The semantic errors of a store whose rows were listed as `rows`: for
/// every object whose head and which itself have a lemma, one error for
/// each attribute that the head requires and the object does not satisfy.
/// The store is held uniquely while it is read, and stays as it is.
pub fn check_object_rows(world: &mut LogosWorld, graph: &SemanticGraph, rows: &Vec<SyntaxRow>) -> (errors:
    Vec<SemanticError>)
    requires
        graph.well_formed(),
    ensures
        semantic_views(errors@) == semantic_errors(old(world)@, graph@, row_views(rows@)),
        final(world)@ == old(world)@,
        final(world).count() == old(world).count(),
{
    let ghost entities = world@;
    let ghost count = world.count();
    let ghost views = row_views(rows@);
    let mut errors: Vec<SemanticError> = Vec::new();
    let mut k: usize = 0;
    assert(semantic_views(errors@) =~= Seq::empty());
    while k < rows.len()
        invariant
            graph.well_formed(),
            k <= rows@.len(),
            entities == world@,
            count == world.count(),
            views == row_views(rows@),
            semantic_views(errors@) == collected(views.take(k as int), object_pass(entities, graph@)),
        decreases rows@.len() - k,
    {
        let row = &rows[k];
        let ghost before = semantic_views(errors@);
        proof {
            assert(views.take(k + 1).drop_last() =~= views.take(k as int));
            assert(views.take(k + 1).last() == row@);
        }
        if row.syntax.role == DependencyRole::Object {
            if let Some(verb_token) = world.token_data(row.syntax.head) {
                if let Some(verb_id) = verb_token.lemma_id {
                    if let Some(object_id) = row.token.lemma_id {
                        push_unmet(
                            graph,
                            &verb_token.text,
                            &row.token.text,
                            verb_id,
                            object_id,
                            &mut errors,
                        );
                    }
                }
            }
        }
        assert(semantic_views(errors@) =~= before + object_errors(entities, graph@, row@));
        k = k + 1;
    }
    assert(views.take(k as int) =~= views);
    errors
}

/// The semantic errors of a store under a graph. The store lists its rows
/// in an order of its own; the errors are those of [`semantic_errors`] for
/// that order, and as a multiset they are the same for every order. The
/// store is held uniquely while it is read, and stays as it is.
pub fn validate_semantics(world: &mut LogosWorld, graph: &SemanticGraph) -> (errors: Vec<
    SemanticError,
>)
    requires
        graph.well_formed(),
    ensures
        exists|rows: Seq<SyntaxRowView>|
            lists_rows(rows, old(world)@) && semantic_views(errors@) == #[trigger] semantic_errors(
                old(world)@,
                graph@,
                rows,
            ),
        final(world)@ == old(world)@,
        final(world).count() == old(world).count(),
{
    let ghost entities = world@;
    let rows = world.syntax_rows();
    let errors = check_object_rows(world, graph, &rows);
    assert(lists_rows(row_views(rows@), entities) && semantic_views(errors@) == semantic_errors(
        entities,
        graph@,
        row_views(rows@),
    ));
    errors
}

} // verus!
