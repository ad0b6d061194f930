//! The store: an entity per token, with the token's data, its morphology
//! and, once the parser has decided it, its place in the tree.
//!
//! The store is a `hecs::World`. What it holds is modelled as a map from
//! entities to records; the functions at the head of this module are the
//! only ones that touch the world itself, and their contracts are stated,
//! not proved. Every one of them, the readers too, takes the world by unique
//! reference: the world then checks no borrow at run time, and a component
//! that someone left borrowed cannot make a reader fail.

use vstd::prelude::*;
use crate::ecs::agreement::{agreement_errors, check_agreement, error_views, AgreementError};
use crate::ecs::components::{DependencyRole, Morphology, Syntax, TokenData, TokenDataView};
use crate::protocol::ids::LemmaId;
use crate::protocol::morphology::MorphFlags;

verus! {

/// The store itself.
#[verifier::external_type_specification]
#[verifier::external_body]
pub struct ExWorld(hecs::World);

/// What the store holds of one entity: each of the three components that
/// this library uses, where the entity has it.
pub struct EntityRecord {
    pub data: Option<TokenDataView>,
    pub morphology: Option<MorphFlags>,
    pub syntax: Option<Syntax>,
}

/// The record of a token as it is created: data and morphology, no place in
/// the tree yet.
pub open spec fn fresh_record(data: TokenDataView, flags: MorphFlags) -> EntityRecord {
    EntityRecord { data: Some(data), morphology: Some(flags), syntax: None }
}

/// The entities that a world holds, those that it has only reserved among
/// them, each with its record.
pub uninterp spec fn world_entities(w: hecs::World) -> Map<hecs::Entity, EntityRecord>;

/// The number of entity ids that a world has allotted so far.
pub uninterp spec fn world_len(w: hecs::World) -> nat;

/// An entity of the store with a place in the tree and token data, as a
/// query hands it out.
#[derive(Debug)]
pub struct SyntaxRow {
    pub entity: hecs::Entity,
    pub syntax: Syntax,
    pub token: TokenData,
    pub morphology: Option<Morphology>,
}

/// A [`SyntaxRow`] with its text as a character sequence.
pub struct SyntaxRowView {
    pub entity: hecs::Entity,
    pub syntax: Syntax,
    pub token: TokenDataView,
    pub morphology: Option<MorphFlags>,
}

impl View for SyntaxRow {
    type V = SyntaxRowView;

    open spec fn view(&self) -> SyntaxRowView {
        SyntaxRowView {
            entity: self.entity,
            syntax: self.syntax,
            token: self.token@,
            morphology: match self.morphology {
                Some(m) => Some(m.flags),
                None => None,
            },
        }
    }
}

/// The views of a sequence of rows.
pub open spec fn row_views(rows: Seq<SyntaxRow>) -> Seq<SyntaxRowView> {
    rows.map_values(|r: SyntaxRow| r@)
}

/// The row that the store holds for an entity with a place in the tree and
/// token data.
pub open spec fn row_of(entity: hecs::Entity, record: EntityRecord) -> SyntaxRowView {
    SyntaxRowView {
        entity,
        syntax: record.syntax->0,
        token: record.data->0,
        morphology: record.morphology,
    }
}

/// An entity has a row: the store holds it, with a place in the tree and
/// token data.
pub open spec fn has_row(entities: Map<hecs::Entity, EntityRecord>, entity: hecs::Entity) -> bool {
    entities.dom().contains(entity) && entities[entity].syntax is Some && entities[entity].data
        is Some
}

/// `rows` lists the rows of the store: each entity that has a row occurs
/// once, with what the store holds of it, and nothing else occurs. The order
/// is the store's own.
pub open spec fn lists_rows(rows: Seq<SyntaxRowView>, entities: Map<hecs::Entity, EntityRecord>)
    -> bool {
    &&& forall|i: int|
        0 <= i < rows.len() ==> has_row(entities, (#[trigger] rows[i]).entity) && rows[i] == row_of(
            rows[i].entity,
            entities[rows[i].entity],
        )
    &&& forall|i: int, j: int|
        0 <= i < j < rows.len() ==> (#[trigger] rows[i]).entity != (#[trigger] rows[j]).entity
    &&& forall|e: hecs::Entity| #[trigger]
        has_row(entities, e) ==> exists|i: int| 0 <= i < rows.len() && (#[trigger] rows[i]).entity == e
}

// ---------------------------------------------------------------------------
// Passes over the rows
// ---------------------------------------------------------------------------

/// What a pass over the rows yields: what `per_row` yields for each row, in
/// the order of the rows.
pub open spec fn collected<E>(rows: Seq<SyntaxRowView>, per_row: spec_fn(SyntaxRowView) -> Seq<E>)
    -> Seq<E>
    decreases rows.len(),
{
    if rows.len() == 0 {
        Seq::empty()
    } else {
        collected(rows.drop_last(), per_row) + per_row(rows.last())
    }
}

/// Taking one row out takes out what it yields, as a multiset.
proof fn lemma_collected_remove<E>(
    rows: Seq<SyntaxRowView>,
    per_row: spec_fn(SyntaxRowView) -> Seq<E>,
    i: int,
)
    requires
        0 <= i < rows.len(),
    ensures
        collected(rows, per_row).to_multiset() == collected(rows.remove(i), per_row).to_multiset().add(
            per_row(rows[i]).to_multiset(),
        ),
    decreases rows.len(),
{
    let front = rows.drop_last();
    vstd::seq_lib::lemma_multiset_commutative(collected(front, per_row), per_row(rows.last()));
    if i == rows.len() - 1 {
        assert(rows.remove(i) =~= front);
    } else {
        lemma_collected_remove(front, per_row, i);
        let without = rows.remove(i);
        assert(without.drop_last() =~= front.remove(i));
        assert(without.last() == rows.last());
        vstd::seq_lib::lemma_multiset_commutative(
            collected(front.remove(i), per_row),
            per_row(rows.last()),
        );
        assert(collected(rows, per_row).to_multiset() =~= collected(
            rows.remove(i),
            per_row,
        ).to_multiset().add(per_row(rows[i]).to_multiset()));
    }
}

/// Two orders of the same rows yield the same, as a multiset.
pub proof fn lemma_collected_permutation<E>(
    first: Seq<SyntaxRowView>,
    second: Seq<SyntaxRowView>,
    per_row: spec_fn(SyntaxRowView) -> Seq<E>,
)
    requires
        first.to_multiset() == second.to_multiset(),
    ensures
        collected(first, per_row).to_multiset() == collected(second, per_row).to_multiset(),
    decreases first.len(),
{
    broadcast use vstd::seq_lib::group_to_multiset_ensures;

    first.to_multiset_ensures();
    second.to_multiset_ensures();
    if first.len() == 0 {
        assert(second.len() == 0);
    } else {
        let x = first.last();
        assert(first.contains(x));
        assert(second.to_multiset().count(x) > 0);
        assert(second.contains(x));
        let j = choose|j: int| 0 <= j < second.len() && second[j] == x;
        let front = first.drop_last();
        assert(front =~= first.remove(first.len() - 1));
        assert(front.to_multiset() =~= second.remove(j).to_multiset());
        lemma_collected_permutation(front, second.remove(j), per_row);
        lemma_collected_remove(second, per_row, j);
        lemma_collected_remove(first, per_row, first.len() - 1);
    }
}

/// Two listings of the rows of one store hold the same rows, each once.
pub proof fn lemma_listings_agree(
    entities: Map<hecs::Entity, EntityRecord>,
    first: Seq<SyntaxRowView>,
    second: Seq<SyntaxRowView>,
)
    requires
        lists_rows(first, entities),
        lists_rows(second, entities),
    ensures
        first.to_multiset() == second.to_multiset(),
{
    broadcast use vstd::seq_lib::group_to_multiset_ensures;

    first.to_multiset_ensures();
    second.to_multiset_ensures();
    assert(first.no_duplicates()) by {
        assert forall|i: int, j: int|
            0 <= i < first.len() && 0 <= j < first.len() && i != j implies first[i] != first[j] by {
            if i < j {
                assert(first[i].entity != first[j].entity);
            } else {
                assert(first[j].entity != first[i].entity);
            }
        }
    }
    assert(second.no_duplicates()) by {
        assert forall|i: int, j: int|
            0 <= i < second.len() && 0 <= j < second.len() && i != j implies second[i]
            != second[j] by {
            if i < j {
                assert(second[i].entity != second[j].entity);
            } else {
                assert(second[j].entity != second[i].entity);
            }
        }
    }
    first.lemma_multiset_has_no_duplicates();
    second.lemma_multiset_has_no_duplicates();
    assert forall|x: SyntaxRowView| first.contains(x) <==> second.contains(x) by {
        if first.contains(x) {
            let i = choose|i: int| 0 <= i < first.len() && first[i] == x;
            assert(has_row(entities, first[i].entity));
            let j = choose|j: int| 0 <= j < second.len() && second[j].entity == first[i].entity;
            assert(second[j] == x);
        }
        if second.contains(x) {
            let i = choose|i: int| 0 <= i < second.len() && second[i] == x;
            assert(has_row(entities, second[i].entity));
            let j = choose|j: int| 0 <= j < first.len() && first[j].entity == second[i].entity;
            assert(first[j] == x);
        }
    }
    assert forall|x: SyntaxRowView| first.to_multiset().count(x) == second.to_multiset().count(
        x,
    ) by {
        assert(first.contains(x) <==> second.contains(x));
        assert(first.contains(x) <==> first.to_multiset().count(x) > 0);
        assert(second.contains(x) <==> second.to_multiset().count(x) > 0);
    }
    assert(first.to_multiset() =~= second.to_multiset());
}

/// The morphology that the store holds for an entity, if it holds the entity
/// and the entity has one.
pub open spec fn stored_morphology(entities: Map<hecs::Entity, EntityRecord>, entity: hecs::Entity)
    -> Option<Morphology> {
    if entities.dom().contains(entity) {
        match entities[entity].morphology {
            Some(flags) => Some(Morphology { flags }),
            None => None,
        }
    } else {
        None
    }
}

/// The token data that the store holds for an entity, if it holds the
/// entity and the entity has some.
pub open spec fn stored_token(entities: Map<hecs::Entity, EntityRecord>, entity: hecs::Entity)
    -> Option<TokenDataView> {
    if entities.dom().contains(entity) {
        entities[entity].data
    } else {
        None
    }
}

pub open spec fn token_view(token: Option<TokenData>) -> Option<TokenDataView> {
    match token {
        Some(t) => Some(t@),
        None => None,
    }
}

/// `hecs::World::new`: a world that holds no entity.
#[verifier::external_body]
fn world_new() -> (w: hecs::World)
    ensures
        world_entities(w) =~= Map::empty(),
        world_len(w) == 0,
{
    hecs::World::new()
}

/// `hecs::World::spawn` with token data and morphology: the world gains one
/// entity, which it did not hold before, with these two components; every
/// other entity stays as it was. The entity takes at most one new id. The
/// world panics when it runs out of the `u32` entity ids, which the bound
/// excludes.
#[verifier::external_body]
fn world_spawn(w: &mut hecs::World, data: TokenData, morphology: Morphology) -> (e: hecs::Entity)
    requires
        world_len(*old(w)) < u32::MAX,
    ensures
        !world_entities(*old(w)).dom().contains(e),
        world_entities(*final(w)) == world_entities(*old(w)).insert(
            e,
            fresh_record(data@, morphology.flags),
        ),
        world_len(*final(w)) <= world_len(*old(w)) + 1,
{
    w.spawn((data, morphology))
}

/// `hecs::World::insert_one` with a syntax component: an entity that the
/// world holds gets this place in the tree, in place of an earlier one if it
/// had one; for an entity that the world does not hold nothing changes. No
/// entity id is allotted.
#[verifier::external_body]
fn world_insert_syntax(w: &mut hecs::World, child: hecs::Entity, syntax: Syntax)
    ensures
        world_entities(*final(w)) == if world_entities(*old(w)).dom().contains(child) {
            world_entities(*old(w)).insert(
                child,
                (EntityRecord { syntax: Some(syntax), ..world_entities(*old(w))[child] }),
            )
        } else {
            world_entities(*old(w))
        },
        world_len(*final(w)) == world_len(*old(w)),
{
    let _ = w.insert_one(child, syntax);
}

/// `hecs::World::query_one_mut` for the morphology component: the component
/// of the entity, if the world holds the entity and the entity has one. The
/// world is read through unique access, which takes no borrow at run time,
/// and stays as it is.
#[verifier::external_body]
pub(crate) fn world_morphology(w: &mut hecs::World, entity: hecs::Entity) -> (found: Option<
    Morphology,
>)
    ensures
        found == stored_morphology(world_entities(*old(w)), entity),
        world_entities(*final(w)) == world_entities(*old(w)),
        world_len(*final(w)) == world_len(*old(w)),
{
    w.query_one_mut::<&Morphology>(entity).ok().map(|m| *m)
}

/// `hecs::World::query_one_mut` for the token data: a copy of the component
/// of the entity, if the world holds the entity and the entity has one. The
/// world is read through unique access, which takes no borrow at run time,
/// and stays as it is.
#[verifier::external_body]
pub(crate) fn world_token(w: &mut hecs::World, entity: hecs::Entity) -> (found: Option<TokenData>)
    ensures
        token_view(found) == stored_token(world_entities(*old(w)), entity),
        world_entities(*final(w)) == world_entities(*old(w)),
        world_len(*final(w)) == world_len(*old(w)),
{
    w.query_one_mut::<&TokenData>(entity).ok().map(|t| t.clone())
}

/// `hecs::World::query_mut` over syntax and token data, with the morphology
/// where there is one, iterated to its end: every entity with both
/// components is yielded once, with copies of its components, in an order
/// that the world chooses. The world is read through unique access, which
/// takes no borrow at run time, and stays as it is.
#[verifier::external_body]
pub(crate) fn world_syntax_rows(w: &mut hecs::World) -> (rows: Vec<SyntaxRow>)
    ensures
        lists_rows(row_views(rows@), world_entities(*old(w))),
        world_entities(*final(w)) == world_entities(*old(w)),
        world_len(*final(w)) == world_len(*old(w)),
{
    w.query_mut::<(hecs::Entity, &Syntax, &TokenData, Option<&Morphology>)>().into_iter().map(
        |(entity, syntax, token, morphology)|
            SyntaxRow { entity, syntax: *syntax, token: token.clone(), morphology: morphology.copied() },
    ).collect()
}

/// The store of one sentence.
pub struct LogosWorld {
    world: hecs::World,
}

impl LogosWorld {
    /// The entities of the store, each with its record.
    pub closed spec fn view(&self) -> Map<hecs::Entity, EntityRecord> {
        world_entities(self.world)
    }

    /// The number of entity ids that the store has allotted; no less than
    /// the number of its tokens.
    pub closed spec fn count(&self) -> nat {
        world_len(self.world)
    }

    pub fn new() -> (r: Self)
        ensures
            r@ == Map::<hecs::Entity, EntityRecord>::empty(),
            r.count() == 0,
    {
        LogosWorld { world: world_new() }
    }

    /// The world behind the store, for those who only read it.
    pub fn inner(&self) -> (w: &hecs::World)
        ensures
            world_entities(*w) == self@,
            world_len(*w) == self.count(),
    {
        &self.world
    }

    /// Adds a word to the sentence. The store has room for `u32::MAX`
    /// tokens.
    pub fn add_token(&mut self, text: String, lemma_id: Option<LemmaId>, flags: MorphFlags) -> (e:
        hecs::Entity)
        requires
            old(self).count() < u32::MAX,
        ensures
            !old(self)@.dom().contains(e),
            final(self)@ == old(self)@.insert(
                e,
                fresh_record(TokenDataView { text: text@, lemma_id }, flags),
            ),
            final(self).count() <= old(self).count() + 1,
    {
        world_spawn(&mut self.world, TokenData { text, lemma_id }, Morphology { flags })
    }

    /// Gives `child` its place in the tree, in place of an earlier one if it
    /// had one. A `child` that the store does not hold is passed over.
    pub fn set_dependency(&mut self, child: hecs::Entity, head: hecs::Entity, role: DependencyRole)
        ensures
            final(self)@ == if old(self)@.dom().contains(child) {
                old(self)@.insert(
                    child,
                    (EntityRecord { syntax: Some(Syntax { head, role }), ..old(self)@[child] }),
                )
            } else {
                old(self)@
            },
            final(self).count() == old(self).count(),
    {
        world_insert_syntax(&mut self.world, child, Syntax { head, role });
    }

    /// The rows of the store: every token with a place in the tree, once,
    /// in an order of the store's own. The store stays as it is.
    pub fn syntax_rows(&mut self) -> (rows: Vec<SyntaxRow>)
        ensures
            lists_rows(row_views(rows@), old(self)@),
            final(self)@ == old(self)@,
            final(self).count() == old(self).count(),
    {
        world_syntax_rows(&mut self.world)
    }

    /// A copy of the data of a token, if the store holds the entity. The
    /// store stays as it is.
    pub fn token_data(&mut self, entity: hecs::Entity) -> (found: Option<TokenData>)
        ensures
            token_view(found) == stored_token(old(self)@, entity),
            final(self)@ == old(self)@,
            final(self).count() == old(self).count(),
    {
        world_token(&mut self.world, entity)
    }

    /// Runs the agreement check over the store. The store is held uniquely
    /// while it is read, and stays as it is.
    pub fn validate(&mut self) -> (errors: Vec<AgreementError>)
        ensures
            exists|rows: Seq<SyntaxRowView>|
                lists_rows(rows, old(self)@) && error_views(errors@) == #[trigger] agreement_errors(
                    old(self)@,
                    rows,
                ),
            final(self)@ == old(self)@,
            final(self).count() == old(self).count(),
    {
        let ghost before = world_entities(self.world);
        let errors = check_agreement(&mut self.world);
        proof {
            let rows = choose|rows: Seq<SyntaxRowView>|
                lists_rows(rows, before) && error_views(errors@) == #[trigger] agreement_errors(
                    before,
                    rows,
                );
            assert(lists_rows(rows, old(self)@) && error_views(errors@) == agreement_errors(
                old(self)@,
                rows,
            ));
        }
        errors
    }
}

} // verus!
