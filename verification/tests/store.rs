use logos_core::ecs::components::DependencyRole;
use logos_core::ecs::LogosWorld;
use logos_core::protocol::{LemmaId, MorphFlags, Relation};
use logos_core::solver::{validate_semantics, SemanticGraph};

fn flags(bits: u32) -> MorphFlags {
    MorphFlags::from_bits_truncate(bits)
}

#[test]
fn test_agreement_check() {
    let mut lw = LogosWorld::new();

    let verb = lw.add_token(
        "plays".to_string(),
        None,
        flags(MorphFlags::SINGULAR | MorphFlags::THIRD_PERSON),
    );

    let subject = lw.add_token(
        "kids".to_string(),
        None,
        flags(MorphFlags::PLURAL | MorphFlags::THIRD_PERSON),
    );

    lw.set_dependency(subject, verb, DependencyRole::Subject);

    let errors = lw.validate();

    assert_eq!(errors.len(), 1);
    assert!(errors[0].details.contains("Number mismatch"));
    println!("Caught expected error: {:?}", errors[0]);
}

#[test]
fn test_semantic_validation() {
    let mut graph = SemanticGraph::new();
    let eat = LemmaId(1);
    let stone = LemmaId(2);
    let food = LemmaId(3);
    let apple = LemmaId(4);
    let edible = LemmaId(99);

    graph.add_relation(eat, edible, Relation::RequiresAttribute);
    graph.add_relation(food, edible, Relation::HasAttribute);
    graph.add_relation(apple, food, Relation::IsA);
    graph.add_concept(stone);

    let mut world = LogosWorld::new();

    let verb_entity = world.add_token("Eat".to_string(), Some(eat), MorphFlags::empty());
    let obj_entity = world.add_token("Stone".to_string(), Some(stone), MorphFlags::empty());

    world.set_dependency(obj_entity, verb_entity, DependencyRole::Object);

    let errors = validate_semantics(&mut world, &graph);
    assert_eq!(errors.len(), 1);
    println!("Caught Error: {}", errors[0].message);

    let mut world2 = LogosWorld::new();
    let verb2 = world2.add_token("Eat".to_string(), Some(eat), MorphFlags::empty());
    let obj2 = world2.add_token("Apple".to_string(), Some(apple), MorphFlags::empty());
    world2.set_dependency(obj2, verb2, DependencyRole::Object);

    let errors2 = validate_semantics(&mut world2, &graph);
    assert_eq!(errors2.len(), 0);
}

#[test]
fn number_mismatch_names_both_sides() {
    let mut lw = LogosWorld::new();
    let verb = lw.add_token("plays".to_string(), None, flags(MorphFlags::SINGULAR | MorphFlags::THIRD_PERSON));
    let subject = lw.add_token("kids".to_string(), None, flags(MorphFlags::PLURAL | MorphFlags::THIRD_PERSON));
    lw.set_dependency(subject, verb, DependencyRole::Subject);
    let errors = lw.validate();
    assert_eq!(errors.len(), 1);
    assert_eq!(errors[0].source, "kids");
    assert_eq!(errors[0].target, "plays");
    assert_eq!(errors[0].details, "Number mismatch: PLURAL vs SINGULAR");
}

#[test]
fn person_mismatch_is_reported_after_number() {
    let mut lw = LogosWorld::new();
    let verb = lw.add_token("λέγω".to_string(), None, flags(MorphFlags::SINGULAR | MorphFlags::FIRST_PERSON));
    let subject = lw.add_token("ὑμεῖς".to_string(), None, flags(MorphFlags::PLURAL | MorphFlags::SECOND_PERSON));
    lw.set_dependency(subject, verb, DependencyRole::Subject);
    let errors = lw.validate();
    assert_eq!(errors.len(), 2);
    assert_eq!(errors[0].details, "Number mismatch: PLURAL vs SINGULAR");
    assert_eq!(errors[1].details, "Person mismatch: SECOND_PERSON vs FIRST_PERSON");
}

#[test]
fn modifier_number_mismatch() {
    let mut lw = LogosWorld::new();
    let noun = lw.add_token("λόγος".to_string(), None, flags(MorphFlags::SINGULAR | MorphFlags::NOUN));
    let article = lw.add_token("οἱ".to_string(), None, flags(MorphFlags::PLURAL | MorphFlags::ARTICLE));
    lw.set_dependency(article, noun, DependencyRole::Modifier);
    let errors = lw.validate();
    assert_eq!(errors.len(), 1);
    assert_eq!(errors[0].source, "οἱ");
    assert_eq!(errors[0].target, "λόγος");
    assert_eq!(errors[0].details, "Agreement Mismatch (Det-Noun): PLURAL vs SINGULAR");
}

#[test]
fn an_open_group_never_clashes() {
    let mut lw = LogosWorld::new();
    let verb = lw.add_token("plays".to_string(), None, flags(MorphFlags::THIRD_PERSON));
    let subject = lw.add_token("kids".to_string(), None, flags(MorphFlags::PLURAL));
    lw.set_dependency(subject, verb, DependencyRole::Subject);
    assert!(lw.validate().is_empty());
}

#[test]
fn agreeing_subject_raises_nothing() {
    let mut lw = LogosWorld::new();
    let verb = lw.add_token("plays".to_string(), None, flags(MorphFlags::SINGULAR | MorphFlags::THIRD_PERSON));
    let subject = lw.add_token("kid".to_string(), None, flags(MorphFlags::SINGULAR | MorphFlags::THIRD_PERSON));
    lw.set_dependency(subject, verb, DependencyRole::Subject);
    assert!(lw.validate().is_empty());
}

#[test]
fn other_roles_are_not_checked() {
    let mut lw = LogosWorld::new();
    let verb = lw.add_token("plays".to_string(), None, flags(MorphFlags::SINGULAR));
    let object = lw.add_token("games".to_string(), None, flags(MorphFlags::PLURAL));
    lw.set_dependency(object, verb, DependencyRole::Object);
    assert!(lw.validate().is_empty());
}

#[test]
fn set_dependency_overwrites() {
    let mut lw = LogosWorld::new();
    let verb = lw.add_token("plays".to_string(), None, flags(MorphFlags::SINGULAR));
    let subject = lw.add_token("kids".to_string(), None, flags(MorphFlags::PLURAL));
    lw.set_dependency(subject, verb, DependencyRole::Subject);
    lw.set_dependency(subject, verb, DependencyRole::Object);
    assert!(lw.validate().is_empty());
    lw.set_dependency(subject, verb, DependencyRole::Subject);
    lw.set_dependency(subject, verb, DependencyRole::Subject);
    assert_eq!(lw.validate().len(), 1);
}

#[test]
fn store_counts_its_tokens_and_hands_out_fresh_entities() {
    let mut lw = LogosWorld::new();
    assert_eq!(lw.inner().len(), 0);
    let a = lw.add_token("a".to_string(), None, MorphFlags::empty());
    let b = lw.add_token("b".to_string(), Some(LemmaId(7)), MorphFlags::empty());
    assert_ne!(a, b);
    assert_eq!(lw.inner().len(), 2);
}

#[test]
fn a_dependency_of_an_entity_from_elsewhere_is_passed_over() {
    let mut other = LogosWorld::new();
    let _ = other.add_token("x".to_string(), None, MorphFlags::empty());
    let _ = other.add_token("y".to_string(), None, MorphFlags::empty());
    let stranger = other.add_token("z".to_string(), None, flags(MorphFlags::PLURAL));

    let mut lw = LogosWorld::new();
    let verb = lw.add_token("plays".to_string(), None, flags(MorphFlags::SINGULAR));
    lw.set_dependency(stranger, verb, DependencyRole::Subject);
    assert!(lw.validate().is_empty());
    assert_eq!(lw.inner().len(), 1);
}

#[test]
fn agreement_errors_do_not_depend_on_insertion_order() {
    let build = |subject_first: bool| {
        let mut lw = LogosWorld::new();
        let (verb, subject, article);
        if subject_first {
            subject = lw.add_token("kids".to_string(), None, flags(MorphFlags::PLURAL));
            article = lw.add_token("the".to_string(), None, flags(MorphFlags::SINGULAR));
            verb = lw.add_token("plays".to_string(), None, flags(MorphFlags::SINGULAR));
            lw.set_dependency(subject, verb, DependencyRole::Subject);
            lw.set_dependency(article, subject, DependencyRole::Modifier);
        } else {
            verb = lw.add_token("plays".to_string(), None, flags(MorphFlags::SINGULAR));
            article = lw.add_token("the".to_string(), None, flags(MorphFlags::SINGULAR));
            subject = lw.add_token("kids".to_string(), None, flags(MorphFlags::PLURAL));
            lw.set_dependency(article, subject, DependencyRole::Modifier);
            lw.set_dependency(subject, verb, DependencyRole::Subject);
        }
        let mut lines: Vec<String> = lw
            .validate()
            .iter()
            .map(|e| format!("{}|{}|{}", e.source, e.target, e.details))
            .collect();
        lines.sort();
        lines
    };
    let a = build(true);
    let b = build(false);
    assert_eq!(a.len(), 2);
    assert_eq!(a, b);
}

#[test]
fn semantic_error_carries_texts_and_message() {
    let mut graph = SemanticGraph::new();
    graph.add_relation(LemmaId(1), LemmaId(99), Relation::RequiresAttribute);
    graph.add_concept(LemmaId(2));
    let mut world = LogosWorld::new();
    let verb = world.add_token("Eat".to_string(), Some(LemmaId(1)), MorphFlags::empty());
    let object = world.add_token("Stone".to_string(), Some(LemmaId(2)), MorphFlags::empty());
    world.set_dependency(object, verb, DependencyRole::Object);
    let errors = validate_semantics(&mut world, &graph);
    assert_eq!(errors.len(), 1);
    assert_eq!(errors[0].verb_text, "Eat");
    assert_eq!(errors[0].object_text, "Stone");
    assert_eq!(
        errors[0].message,
        "Constraint Violation: Object 'Stone' does not satisfy requirement of 'Eat'."
    );
}

#[test]
fn tokens_without_lemma_are_not_checked() {
    let mut graph = SemanticGraph::new();
    graph.add_relation(LemmaId(1), LemmaId(99), Relation::RequiresAttribute);
    let mut world = LogosWorld::new();
    let verb = world.add_token("Eat".to_string(), Some(LemmaId(1)), MorphFlags::empty());
    let object = world.add_token("Stone".to_string(), None, MorphFlags::empty());
    world.set_dependency(object, verb, DependencyRole::Object);
    assert!(validate_semantics(&mut world, &graph).is_empty());
}

#[test]
fn an_empty_graph_raises_no_semantic_error() {
    let graph = SemanticGraph::new();
    let mut world = LogosWorld::new();
    let verb = world.add_token("Eat".to_string(), Some(LemmaId(1)), MorphFlags::empty());
    let object = world.add_token("Stone".to_string(), Some(LemmaId(2)), MorphFlags::empty());
    world.set_dependency(object, verb, DependencyRole::Object);
    assert!(validate_semantics(&mut world, &graph).is_empty());
}

#[test]
fn one_error_for_each_unmet_requirement() {
    let mut graph = SemanticGraph::new();
    graph.add_relation(LemmaId(1), LemmaId(98), Relation::RequiresAttribute);
    graph.add_relation(LemmaId(1), LemmaId(99), Relation::RequiresAttribute);
    graph.add_relation(LemmaId(2), LemmaId(98), Relation::HasAttribute);
    let mut world = LogosWorld::new();
    let verb = world.add_token("Eat".to_string(), Some(LemmaId(1)), MorphFlags::empty());
    let object = world.add_token("Stone".to_string(), Some(LemmaId(2)), MorphFlags::empty());
    world.set_dependency(object, verb, DependencyRole::Object);
    assert_eq!(validate_semantics(&mut world, &graph).len(), 1);

    let mut bare = LogosWorld::new();
    let verb = bare.add_token("Eat".to_string(), Some(LemmaId(1)), MorphFlags::empty());
    let object = bare.add_token("Air".to_string(), Some(LemmaId(3)), MorphFlags::empty());
    bare.set_dependency(object, verb, DependencyRole::Object);
    assert_eq!(validate_semantics(&mut bare, &graph).len(), 2);
}

#[test]
fn checks_read_a_store_whatever_was_borrowed_from_it_before() {
    let mut lw = LogosWorld::new();
    let verb = lw.add_token("plays".to_string(), None, flags(MorphFlags::SINGULAR));
    let subject = lw.add_token("kids".to_string(), None, flags(MorphFlags::PLURAL));
    lw.set_dependency(subject, verb, DependencyRole::Subject);
    {
        let guard = lw.inner().get::<&mut logos_core::ecs::components::Morphology>(verb).unwrap();
        std::mem::forget(guard);
    }
    assert_eq!(lw.validate().len(), 1);
    assert!(validate_semantics(&mut lw, &SemanticGraph::new()).is_empty());
    assert_eq!(lw.syntax_rows().len(), 1);
    assert_eq!(lw.token_data(verb).unwrap().text, "plays");
}

#[test]
fn reading_leaves_the_store_as_it_is() {
    let mut lw = LogosWorld::new();
    let verb = lw.add_token("plays".to_string(), Some(LemmaId(3)), flags(MorphFlags::SINGULAR));
    let subject = lw.add_token("kids".to_string(), None, flags(MorphFlags::PLURAL));
    lw.set_dependency(subject, verb, DependencyRole::Subject);
    let first = lw.validate().len();
    let rows = lw.syntax_rows();
    assert_eq!(rows.len(), 1);
    assert_eq!(rows[0].entity, subject);
    assert_eq!(rows[0].token.text, "kids");
    assert_eq!(rows[0].syntax.head, verb);
    assert_eq!(lw.token_data(verb).unwrap().lemma_id, Some(LemmaId(3)));
    assert!(lw.token_data(subject).unwrap().lemma_id.is_none());
    assert_eq!(lw.validate().len(), first);
    assert_eq!(lw.inner().len(), 2);
}
