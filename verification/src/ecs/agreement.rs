//! The agreement check: subjects against their verbs, modifiers against
//! their heads.
//!
//! Gender and case are the parser's business; this is a cross-check of what
//! the parser lets through, number and person.

use vstd::prelude::*;
use vstd::string::StringExecFns;
use crate::ecs::components::DependencyRole;
use crate::ecs::world::{
    collected, lemma_collected_permutation, lemma_listings_agree, lists_rows, row_views,
    stored_morphology, stored_token, world_entities, world_len, world_morphology,
    world_syntax_rows, world_token, EntityRecord, SyntaxRow, SyntaxRowView,
};
use crate::protocol::morphology::MorphFlags;

verus! {

#[derive(Debug, Clone)]
pub struct AgreementError {
    /// The text of the dependent.
    pub source: String,
    /// The text of the head.
    pub target: String,
    /// Which group disagrees, and how.
    pub details: String,
}

/// An [`AgreementError`] with its strings as character sequences.
pub struct AgreementErrorView {
    pub source: Seq<char>,
    pub target: Seq<char>,
    pub details: Seq<char>,
}

impl View for AgreementError {
    type V = AgreementErrorView;

    open spec fn view(&self) -> AgreementErrorView {
        AgreementErrorView { source: self.source@, target: self.target@, details: self.details@ }
    }
}

/// The views of a sequence of errors.
pub open spec fn error_views(errors: Seq<AgreementError>) -> Seq<AgreementErrorView> {
    errors.map_values(|e: AgreementError| e@)
}

/// Two flag sets clash in a group: both state a member of it, and not the
/// same.
pub open spec fn clashes(a: MorphFlags, b: MorphFlags, mask: u32) -> bool {
    a.masked(mask) != 0 && b.masked(mask) != 0 && a.masked(mask) != b.masked(mask)
}

/// The line that tells a clash: a label, and what each side states.
pub open spec fn clash_details(label: Seq<char>, a: MorphFlags, b: MorphFlags, mask: u32) -> Seq<
    char,
> {
    label + (MorphFlags { bits: a.masked(mask) }).described() + " vs "@ + (MorphFlags {
        bits: b.masked(mask),
    }).described()
}

/// The text of a head, or `fallback` where the store has no data for it.
pub open spec fn head_text(
    entities: Map<hecs::Entity, EntityRecord>,
    head: hecs::Entity,
    fallback: Seq<char>,
) -> Seq<char> {
    match stored_token(entities, head) {
        Some(token) => token.text,
        None => fallback,
    }
}

/// The error for a clash of `row` with its head in one group, if they clash.
pub open spec fn clash_error(
    entities: Map<hecs::Entity, EntityRecord>,
    row: SyntaxRowView,
    mask: u32,
    label: Seq<char>,
    fallback: Seq<char>,
) -> Seq<AgreementErrorView> {
    let own = row.morphology->0;
    let head = stored_morphology(entities, row.syntax.head)->0.flags;
    if clashes(own, head, mask) {
        seq![
            AgreementErrorView {
                source: row.token.text,
                target: head_text(entities, row.syntax.head, fallback),
                details: clash_details(label, own, head, mask),
            },
        ]
    } else {
        Seq::empty()
    }
}

/// A row can be held against its head: both have a morphology.
pub open spec fn comparable(entities: Map<hecs::Entity, EntityRecord>, row: SyntaxRowView) -> bool {
    row.morphology is Some && stored_morphology(entities, row.syntax.head) is Some
}

/// The errors of one subject against its verb: number, then person.
pub open spec fn subject_errors(entities: Map<hecs::Entity, EntityRecord>, row: SyntaxRowView)
    -> Seq<AgreementErrorView> {
    if row.syntax.role == DependencyRole::Subject && comparable(entities, row) {
        clash_error(
            entities,
            row,
            MorphFlags::NUMBER_MASK,
            "Number mismatch: "@,
            "Unknown Verb"@,
        ) + clash_error(
            entities,
            row,
            MorphFlags::PERSON_MASK,
            "Person mismatch: "@,
            "Unknown Verb"@,
        )
    } else {
        Seq::empty()
    }
}

/// The errors of one modifier against its head: number.
pub open spec fn modifier_errors(entities: Map<hecs::Entity, EntityRecord>, row: SyntaxRowView)
    -> Seq<AgreementErrorView> {
    if row.syntax.role == DependencyRole::Modifier && comparable(entities, row) {
        clash_error(
            entities,
            row,
            MorphFlags::NUMBER_MASK,
            "Agreement Mismatch (Det-Noun): "@,
            "Head"@,
        )
    } else {
        Seq::empty()
    }
}

pub open spec fn subject_pass(entities: Map<hecs::Entity, EntityRecord>) -> spec_fn(
    SyntaxRowView,
) -> Seq<AgreementErrorView> {
    |row: SyntaxRowView| subject_errors(entities, row)
}

pub open spec fn modifier_pass(entities: Map<hecs::Entity, EntityRecord>) -> spec_fn(
    SyntaxRowView,
) -> Seq<AgreementErrorView> {
    |row: SyntaxRowView| modifier_errors(entities, row)
}

/// The agreement errors of a store whose rows come in the order `rows`:
/// those of the subjects, then those of the modifiers.
pub open spec fn agreement_errors(entities: Map<hecs::Entity, EntityRecord>, rows: Seq<SyntaxRowView>)
    -> Seq<AgreementErrorView> {
    collected(rows, subject_pass(entities)) + collected(rows, modifier_pass(entities))
}

// ---------------------------------------------------------------------------
// The order of the rows does not matter
// ---------------------------------------------------------------------------

/// The agreement check is confluent: in whatever order the store lists its
/// rows, the errors are the same, each as often.
pub proof fn lemma_agreement_order_independent(
    entities: Map<hecs::Entity, EntityRecord>,
    first: Seq<SyntaxRowView>,
    second: Seq<SyntaxRowView>,
)
    requires
        lists_rows(first, entities),
        lists_rows(second, entities),
    ensures
        agreement_errors(entities, first).to_multiset() == agreement_errors(
            entities,
            second,
        ).to_multiset(),
{
    lemma_listings_agree(entities, first, second);
    lemma_collected_permutation(first, second, subject_pass(entities));
    lemma_collected_permutation(first, second, modifier_pass(entities));
    vstd::seq_lib::lemma_multiset_commutative(
        collected(first, subject_pass(entities)),
        collected(first, modifier_pass(entities)),
    );
    vstd::seq_lib::lemma_multiset_commutative(
        collected(second, subject_pass(entities)),
        collected(second, modifier_pass(entities)),
    );
}

// ---------------------------------------------------------------------------
// The check
// ---------------------------------------------------------------------------

/// Holds `row` against its head in one group and reports a clash.
fn push_clash(
    world: &mut hecs::World,
    row: &SyntaxRow,
    own: MorphFlags,
    head: MorphFlags,
    mask: u32,
    label: &str,
    fallback: &str,
    errors: &mut Vec<AgreementError>,
)
    requires
        row@.morphology == Some(own),
        stored_morphology(world_entities(*old(world)), row.syntax.head) is Some,
        stored_morphology(world_entities(*old(world)), row.syntax.head)->0.flags == head,
    ensures
        error_views(final(errors)@) == error_views(old(errors)@) + clash_error(
            world_entities(*old(world)),
            row@,
            mask,
            label@,
            fallback@,
        ),
        world_entities(*final(world)) == world_entities(*old(world)),
        world_len(*final(world)) == world_len(*old(world)),
{
    let ghost entities = world_entities(*world);
    let ghost before = error_views(errors@);
    let own_part = own.intersection(mask);
    let head_part = head.intersection(mask);
    if !own_part.is_empty() && !head_part.is_empty() && own_part.bits() != head_part.bits() {
        let target = match world_token(world, row.syntax.head) {
            Some(token) => token.text,
            None => String::from_str(fallback),
        };
        let mut details = String::from_str(label);
        let own_names = own_part.describe();
        details.append(own_names.as_str());
        details.append(" vs ");
        let head_names = head_part.describe();
        details.append(head_names.as_str());
        let error = AgreementError { source: row.token.text.clone(), target, details };
        errors.push(error);
        assert(error_views(errors@) =~= before.push(error@));
        assert(own_part == (MorphFlags { bits: own.masked(mask) }));
        assert(head_part == (MorphFlags { bits: head.masked(mask) }));
        assert(before.push(error@) =~= before + clash_error(
            entities,
            row@,
            mask,
            label@,
            fallback@,
        ));
    } else {
        assert(error_views(errors@) =~= before + clash_error(
            entities,
            row@,
            mask,
            label@,
            fallback@,
        ));
    }
}

fn check_subject_verb_agreement(world: &mut hecs::World, rows: &Vec<SyntaxRow>) -> (errors: Vec<
    AgreementError,
>)
    ensures
        error_views(errors@) == collected(
            row_views(rows@),
            subject_pass(world_entities(*old(world))),
        ),
        world_entities(*final(world)) == world_entities(*old(world)),
        world_len(*final(world)) == world_len(*old(world)),
{
    let ghost entities = world_entities(*world);
    let ghost len = world_len(*world);
    let ghost views = row_views(rows@);
    let mut errors: Vec<AgreementError> = Vec::new();
    let mut k: usize = 0;
    assert(error_views(errors@) =~= Seq::empty());
    while k < rows.len()
        invariant
            k <= rows@.len(),
            entities == world_entities(*world),
            len == world_len(*world),
            views == row_views(rows@),
            error_views(errors@) == collected(views.take(k as int), subject_pass(entities)),
        decreases rows@.len() - k,
    {
        let row = &rows[k];
        let ghost before = error_views(errors@);
        proof {
            assert(views.take(k + 1).drop_last() =~= views.take(k as int));
            assert(views.take(k + 1).last() == row@);
        }
        if row.syntax.role == DependencyRole::Subject {
            if let Some(own) = row.morphology {
                if let Some(verb) = world_morphology(world, row.syntax.head) {
                    push_clash(
                        world,
                        row,
                        own.flags,
                        verb.flags,
                        MorphFlags::NUMBER_MASK,
                        "Number mismatch: ",
                        "Unknown Verb",
                        &mut errors,
                    );
                    push_clash(
                        world,
                        row,
                        own.flags,
                        verb.flags,
                        MorphFlags::PERSON_MASK,
                        "Person mismatch: ",
                        "Unknown Verb",
                        &mut errors,
                    );
                    assert(error_views(errors@) =~= before + subject_errors(entities, row@));
                }
            }
        }
        assert(error_views(errors@) =~= before + subject_errors(entities, row@));
        k = k + 1;
    }
    assert(views.take(k as int) =~= views);
    errors
}

fn check_determiner_agreement(world: &mut hecs::World, rows: &Vec<SyntaxRow>) -> (errors: Vec<
    AgreementError,
>)
    ensures
        error_views(errors@) == collected(
            row_views(rows@),
            modifier_pass(world_entities(*old(world))),
        ),
        world_entities(*final(world)) == world_entities(*old(world)),
        world_len(*final(world)) == world_len(*old(world)),
{
    let ghost entities = world_entities(*world);
    let ghost len = world_len(*world);
    let ghost views = row_views(rows@);
    let mut errors: Vec<AgreementError> = Vec::new();
    let mut k: usize = 0;
    assert(error_views(errors@) =~= Seq::empty());
    while k < rows.len()
        invariant
            k <= rows@.len(),
            entities == world_entities(*world),
            len == world_len(*world),
            views == row_views(rows@),
            error_views(errors@) == collected(views.take(k as int), modifier_pass(entities)),
        decreases rows@.len() - k,
    {
        let row = &rows[k];
        let ghost before = error_views(errors@);
        proof {
            assert(views.take(k + 1).drop_last() =~= views.take(k as int));
            assert(views.take(k + 1).last() == row@);
        }
        if row.syntax.role == DependencyRole::Modifier {
            if let Some(own) = row.morphology {
                if let Some(head) = world_morphology(world, row.syntax.head) {
                    push_clash(
                        world,
                        row,
                        own.flags,
                        head.flags,
                        MorphFlags::NUMBER_MASK,
                        "Agreement Mismatch (Det-Noun): ",
                        "Head",
                        &mut errors,
                    );
                }
            }
        }
        assert(error_views(errors@) =~= before + modifier_errors(entities, row@));
        k = k + 1;
    }
    assert(views.take(k as int) =~= views);
    errors
}

/// The agreement errors of a store whose rows were listed as `rows`: first
/// every subject against its verb, in number and in person, then every
/// modifier against its head, in number. A group that either side leaves
/// open never clashes. The store is held uniquely while it is read, and
/// stays as it is.
pub fn check_rows(world: &mut hecs::World, rows: &Vec<SyntaxRow>) -> (errors: Vec<AgreementError>)
    ensures
        error_views(errors@) == agreement_errors(world_entities(*old(world)), row_views(rows@)),
        world_entities(*final(world)) == world_entities(*old(world)),
        world_len(*final(world)) == world_len(*old(world)),
{
    let mut errors = check_subject_verb_agreement(world, rows);
    let ghost first = error_views(errors@);
    let mut second = check_determiner_agreement(world, rows);
    let ghost rest = error_views(second@);
    errors.append(&mut second);
    assert(error_views(errors@) =~= first + rest);
    errors
}

/// The agreement errors of a store. The store lists its rows in an order of
/// its own; the errors are those of [`agreement_errors`] for that order, and
/// as a multiset they are the same for every order. The store is held
/// uniquely while it is read, and stays as it is.
pub fn check_agreement(world: &mut hecs::World) -> (errors: Vec<AgreementError>)
    ensures
        exists|rows: Seq<SyntaxRowView>|
            lists_rows(rows, world_entities(*old(world))) && error_views(errors@)
                == #[trigger] agreement_errors(world_entities(*old(world)), rows),
        world_entities(*final(world)) == world_entities(*old(world)),
        world_len(*final(world)) == world_len(*old(world)),
{
    let ghost entities = world_entities(*world);
    let rows = world_syntax_rows(world);
    let errors = check_rows(world, &rows);
    assert(lists_rows(row_views(rows@), entities) && error_views(errors@) == agreement_errors(
        entities,
        row_views(rows@),
    ));
    errors
}

} // verus!
