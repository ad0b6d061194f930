use logos_core::parser::syntax::{
    check_agreement, has_case, is_verb, parse_greedy, Dependency, MorphToken, SyntaxRole,
};
use logos_core::protocol::MorphFlags;

fn t(text: &str, bits: u32) -> MorphToken<'_> {
    MorphToken { text, flags: MorphFlags::from_bits_truncate(bits) }
}

fn has(deps: &[Dependency], dependent: usize, head: usize, role: SyntaxRole) -> bool {
    deps.iter().any(|d| d.dependent_index == dependent && d.head_index == head && d.role == role)
}

#[test]
fn test_simple_svo() {
    let tokens = vec![
        t("Ο", MorphFlags::NOMINATIVE | MorphFlags::MASCULINE | MorphFlags::SINGULAR | MorphFlags::ARTICLE),
        t("Πέτρος", MorphFlags::NOMINATIVE | MorphFlags::MASCULINE | MorphFlags::SINGULAR | MorphFlags::NOUN),
        t("βλέπει", MorphFlags::PRESENT | MorphFlags::ACTIVE | MorphFlags::THIRD_PERSON),
        t("την", MorphFlags::ACCUSATIVE | MorphFlags::FEMININE | MorphFlags::SINGULAR | MorphFlags::ARTICLE),
        t("Μαρίαν", MorphFlags::ACCUSATIVE | MorphFlags::FEMININE | MorphFlags::SINGULAR | MorphFlags::NOUN),
    ];

    let deps = parse_greedy(&tokens);

    assert!(deps.iter().any(|d| d.dependent_index == 1 && d.head_index == 2 && d.role == SyntaxRole::Subject));
    assert!(deps.iter().any(|d| d.dependent_index == 4 && d.head_index == 2 && d.role == SyntaxRole::Object));
    assert!(deps.iter().any(|d| d.dependent_index == 0 && d.head_index == 1 && d.role == SyntaxRole::Modifier));
    assert!(deps.iter().any(|d| d.dependent_index == 3 && d.head_index == 4 && d.role == SyntaxRole::Modifier));
}

#[test]
fn test_prepositional_phrase() {
    let tokens = vec![
        t("μένει", MorphFlags::PRESENT | MorphFlags::ACTIVE | MorphFlags::THIRD_PERSON),
        t("από", MorphFlags::PREPOSITION),
        t("της", MorphFlags::GENITIVE | MorphFlags::FEMININE | MorphFlags::SINGULAR | MorphFlags::ARTICLE),
        t("οικίας", MorphFlags::GENITIVE | MorphFlags::FEMININE | MorphFlags::SINGULAR | MorphFlags::NOUN),
    ];

    let deps = parse_greedy(&tokens);

    assert!(deps.iter().any(|d| d.dependent_index == 1 && d.head_index == 0 && d.role == SyntaxRole::Modifier));
    assert!(deps.iter().any(|d| d.dependent_index == 3 && d.head_index == 1 && d.role == SyntaxRole::PrepositionArg));
    assert!(deps.iter().any(|d| d.dependent_index == 2 && d.head_index == 3 && d.role == SyntaxRole::Modifier));
}

#[test]
fn test_dative_indirect_object() {
    let tokens = vec![
        t("Ο", MorphFlags::NOMINATIVE | MorphFlags::ARTICLE),
        t("διδάσκαλος", MorphFlags::NOMINATIVE | MorphFlags::NOUN),
        t("δίδει", MorphFlags::PRESENT | MorphFlags::ACTIVE),
        t("το", MorphFlags::ACCUSATIVE | MorphFlags::ARTICLE),
        t("βιβλίον", MorphFlags::ACCUSATIVE | MorphFlags::NOUN),
        t("τω", MorphFlags::DATIVE | MorphFlags::ARTICLE),
        t("μαθητή", MorphFlags::DATIVE | MorphFlags::NOUN),
    ];

    let deps = parse_greedy(&tokens);

    assert!(deps.iter().any(|d| d.dependent_index == 1 && d.role == SyntaxRole::Subject));
    assert!(deps.iter().any(|d| d.dependent_index == 4 && d.role == SyntaxRole::Object));
    assert!(deps.iter().any(|d| d.dependent_index == 6 && d.role == SyntaxRole::IndirectObject));
    assert!(deps.iter().any(|d| d.dependent_index == 5 && d.head_index == 6 && d.role == SyntaxRole::Modifier));
}

#[test]
fn test_genitive_modifier() {
    let tokens = vec![
        t("Βλέπω", MorphFlags::PRESENT | MorphFlags::ACTIVE),
        t("την", MorphFlags::ACCUSATIVE | MorphFlags::ARTICLE),
        t("οικίαν", MorphFlags::ACCUSATIVE | MorphFlags::NOUN),
        t("του", MorphFlags::GENITIVE | MorphFlags::ARTICLE),
        t("πατρός", MorphFlags::GENITIVE | MorphFlags::NOUN),
    ];

    let deps = parse_greedy(&tokens);

    assert!(deps.iter().any(|d| d.dependent_index == 2 && d.head_index == 0 && d.role == SyntaxRole::Object));
    assert!(deps.iter().any(|d| d.dependent_index == 4 && d.head_index == 2 && d.role == SyntaxRole::Modifier));
}

#[test]
fn test_coordination() {
    let tokens = vec![
        t("Ο", MorphFlags::NOMINATIVE | MorphFlags::ARTICLE),
        t("διδάσκαλος", MorphFlags::NOMINATIVE | MorphFlags::NOUN),
        t("και", MorphFlags::CONJUNCTION),
        t("ο", MorphFlags::NOMINATIVE | MorphFlags::ARTICLE),
        t("μαθητής", MorphFlags::NOMINATIVE | MorphFlags::NOUN),
    ];

    let deps = parse_greedy(&tokens);

    assert!(deps.iter().any(|d| d.dependent_index == 2 && d.head_index == 1 && d.role == SyntaxRole::Coordinator));
    assert!(deps.iter().any(|d| d.dependent_index == 4 && d.head_index == 1 && d.role == SyntaxRole::Conjunct));
}

#[test]
fn test_passive_agent() {
    let tokens = vec![
        t("βάλλομαι", MorphFlags::VERB | MorphFlags::PASSIVE),
        t("υπό", MorphFlags::PREPOSITION),
        t("του", MorphFlags::GENITIVE | MorphFlags::ARTICLE),
        t("ανθρώπου", MorphFlags::GENITIVE | MorphFlags::NOUN),
    ];

    let deps = parse_greedy(&tokens);

    assert!(deps.iter().any(|d| d.dependent_index == 1 && d.head_index == 0 && d.role == SyntaxRole::PassiveAgent));
    assert!(deps.iter().any(|d| d.dependent_index == 3 && d.head_index == 1 && d.role == SyntaxRole::PrepositionArg));
}

#[test]
fn test_genitive_absolute() {
    let tokens = vec![
        t("έφυγον", MorphFlags::VERB),
        t("του", MorphFlags::GENITIVE | MorphFlags::ARTICLE),
        t("ανθρώπου", MorphFlags::GENITIVE | MorphFlags::NOUN),
        t("λέγοντος", MorphFlags::GENITIVE | MorphFlags::PARTICIPLE | MorphFlags::MASCULINE | MorphFlags::SINGULAR),
    ];

    let deps = parse_greedy(&tokens);

    assert!(deps.iter().any(|d| d.dependent_index == 3 && d.head_index == 0 && d.role == SyntaxRole::AbsoluteClause));
    assert!(deps.iter().any(|d| d.dependent_index == 2 && d.head_index == 3 && d.role == SyntaxRole::Subject));
}

#[test]
fn test_infinitive_complement() {
    let tokens = vec![
        t("λέγω", MorphFlags::VERB),
        t("αυτόν", MorphFlags::ACCUSATIVE | MorphFlags::NOUN),
        t("είναι", MorphFlags::INFINITIVE),
    ];

    let deps = parse_greedy(&tokens);

    assert!(deps.iter().any(|d| d.dependent_index == 2 && d.head_index == 0 && d.role == SyntaxRole::Complement));
    assert!(deps.iter().any(|d| d.dependent_index == 1 && d.head_index == 2 && d.role == SyntaxRole::Subject));
}

#[test]
fn test_articular_infinitive() {
    let tokens = vec![
        t("Βλέπω", MorphFlags::VERB),
        t("το", MorphFlags::ACCUSATIVE | MorphFlags::ARTICLE | MorphFlags::NEUTER | MorphFlags::SINGULAR),
        t("λέγειν", MorphFlags::INFINITIVE | MorphFlags::NEUTER | MorphFlags::SINGULAR),
    ];

    let deps = parse_greedy(&tokens);

    assert!(deps.iter().any(|d| d.dependent_index == 2 && d.head_index == 0 && d.role == SyntaxRole::Object));
    assert!(deps.iter().any(|d| d.dependent_index == 1 && d.head_index == 2 && d.role == SyntaxRole::Modifier));
}

#[test]
fn test_relative_clause() {
    let tokens_reordered = vec![
        t("τρέχει", MorphFlags::VERB | MorphFlags::PRESENT | MorphFlags::ACTIVE),
        t("Ο", MorphFlags::ARTICLE | MorphFlags::NOMINATIVE),
        t("άνθρωπος", MorphFlags::NOUN | MorphFlags::NOMINATIVE),
        t("ος", MorphFlags::RELATIVE | MorphFlags::PRONOUN | MorphFlags::NOMINATIVE),
        t("βλέπει", MorphFlags::VERB | MorphFlags::PRESENT | MorphFlags::ACTIVE),
        t("με", MorphFlags::PRONOUN | MorphFlags::ACCUSATIVE),
    ];

    let deps = parse_greedy(&tokens_reordered);

    assert!(deps.iter().any(|d| d.dependent_index == 2 && d.head_index == 0 && d.role == SyntaxRole::Subject));
    assert!(deps.iter().any(|d| d.dependent_index == 4 && d.head_index == 2 && d.role == SyntaxRole::RelativeClause));
    assert!(deps.iter().any(|d| d.dependent_index == 3 && d.head_index == 4 && d.role == SyntaxRole::Subject));
    assert!(deps.iter().any(|d| d.dependent_index == 5 && d.head_index == 4 && d.role == SyntaxRole::Object));
}

fn edge(head: usize, dependent: usize, role: SyntaxRole) -> Dependency {
    Dependency { head_index: head, dependent_index: dependent, role }
}

#[test]
fn svo_gives_exactly_four_edges_in_order_of_decision() {
    let tokens = vec![
        t("Ο", MorphFlags::NOMINATIVE | MorphFlags::MASCULINE | MorphFlags::SINGULAR | MorphFlags::ARTICLE),
        t("Πέτρος", MorphFlags::NOMINATIVE | MorphFlags::MASCULINE | MorphFlags::SINGULAR | MorphFlags::NOUN),
        t("βλέπει", MorphFlags::PRESENT | MorphFlags::ACTIVE | MorphFlags::THIRD_PERSON),
        t("την", MorphFlags::ACCUSATIVE | MorphFlags::FEMININE | MorphFlags::SINGULAR | MorphFlags::ARTICLE),
        t("Μαρίαν", MorphFlags::ACCUSATIVE | MorphFlags::FEMININE | MorphFlags::SINGULAR | MorphFlags::NOUN),
    ];
    let deps = parse_greedy(&tokens);
    assert_eq!(
        deps,
        vec![
            edge(1, 0, SyntaxRole::Modifier),
            edge(2, 1, SyntaxRole::Subject),
            edge(4, 3, SyntaxRole::Modifier),
            edge(2, 4, SyntaxRole::Object),
        ]
    );
}

#[test]
fn prepositional_phrase_gives_exactly_three_edges() {
    let tokens = vec![
        t("μένει", MorphFlags::PRESENT | MorphFlags::ACTIVE | MorphFlags::THIRD_PERSON),
        t("από", MorphFlags::PREPOSITION),
        t("της", MorphFlags::GENITIVE | MorphFlags::FEMININE | MorphFlags::SINGULAR | MorphFlags::ARTICLE),
        t("οικίας", MorphFlags::GENITIVE | MorphFlags::FEMININE | MorphFlags::SINGULAR | MorphFlags::NOUN),
    ];
    let deps = parse_greedy(&tokens);
    assert_eq!(
        deps,
        vec![
            edge(0, 1, SyntaxRole::Modifier),
            edge(3, 2, SyntaxRole::Modifier),
            edge(1, 3, SyntaxRole::PrepositionArg),
        ]
    );
}

#[test]
fn dative_sentence_edges() {
    let tokens = vec![
        t("Ο", MorphFlags::NOMINATIVE | MorphFlags::ARTICLE),
        t("διδάσκαλος", MorphFlags::NOMINATIVE | MorphFlags::NOUN),
        t("δίδει", MorphFlags::PRESENT | MorphFlags::ACTIVE),
        t("το", MorphFlags::ACCUSATIVE | MorphFlags::ARTICLE),
        t("βιβλίον", MorphFlags::ACCUSATIVE | MorphFlags::NOUN),
        t("τω", MorphFlags::DATIVE | MorphFlags::ARTICLE),
        t("μαθητή", MorphFlags::DATIVE | MorphFlags::NOUN),
    ];
    let deps = parse_greedy(&tokens);
    assert!(has(&deps, 1, 2, SyntaxRole::Subject));
    assert!(has(&deps, 4, 2, SyntaxRole::Object));
    assert!(has(&deps, 6, 2, SyntaxRole::IndirectObject));
    assert!(has(&deps, 5, 6, SyntaxRole::Modifier));
    assert_eq!(deps.len(), 6);
}

#[test]
fn genitive_modifier_sentence_edges() {
    let tokens = vec![
        t("Βλέπω", MorphFlags::PRESENT | MorphFlags::ACTIVE),
        t("την", MorphFlags::ACCUSATIVE | MorphFlags::ARTICLE),
        t("οικίαν", MorphFlags::ACCUSATIVE | MorphFlags::NOUN),
        t("του", MorphFlags::GENITIVE | MorphFlags::ARTICLE),
        t("πατρός", MorphFlags::GENITIVE | MorphFlags::NOUN),
    ];
    let deps = parse_greedy(&tokens);
    assert!(has(&deps, 2, 0, SyntaxRole::Object));
    assert!(has(&deps, 4, 2, SyntaxRole::Modifier));
    assert!(has(&deps, 3, 4, SyntaxRole::Modifier));
    assert!(has(&deps, 1, 2, SyntaxRole::Modifier));
    assert_eq!(deps.len(), 4);
}

#[test]
fn coordination_without_a_verb_takes_token_zero_as_root() {
    let tokens = vec![
        t("Ο", MorphFlags::NOMINATIVE | MorphFlags::ARTICLE),
        t("διδάσκαλος", MorphFlags::NOMINATIVE | MorphFlags::NOUN),
        t("και", MorphFlags::CONJUNCTION),
        t("ο", MorphFlags::NOMINATIVE | MorphFlags::ARTICLE),
        t("μαθητής", MorphFlags::NOMINATIVE | MorphFlags::NOUN),
    ];
    let deps = parse_greedy(&tokens);
    assert!(has(&deps, 2, 1, SyntaxRole::Coordinator));
    assert!(has(&deps, 4, 1, SyntaxRole::Conjunct));
    assert!(deps.iter().all(|d| d.dependent_index != 0));
}

#[test]
fn genitive_absolute_relinks_the_noun_in_place() {
    let tokens = vec![
        t("έφυγον", MorphFlags::VERB),
        t("του", MorphFlags::GENITIVE | MorphFlags::ARTICLE),
        t("ανθρώπου", MorphFlags::GENITIVE | MorphFlags::NOUN),
        t("λέγοντος", MorphFlags::GENITIVE | MorphFlags::PARTICIPLE | MorphFlags::MASCULINE | MorphFlags::SINGULAR),
    ];
    let deps = parse_greedy(&tokens);
    assert_eq!(
        deps,
        vec![
            edge(2, 1, SyntaxRole::Modifier),
            edge(3, 2, SyntaxRole::Subject),
            edge(0, 3, SyntaxRole::AbsoluteClause),
        ]
    );
    assert!(!has(&deps, 2, 0, SyntaxRole::Modifier));
}

#[test]
fn relative_clause_scopes_the_object_under_the_inner_verb() {
    let tokens = vec![
        t("τρέχει", MorphFlags::VERB | MorphFlags::PRESENT | MorphFlags::ACTIVE),
        t("Ο", MorphFlags::ARTICLE | MorphFlags::NOMINATIVE),
        t("άνθρωπος", MorphFlags::NOUN | MorphFlags::NOMINATIVE),
        t("ος", MorphFlags::RELATIVE | MorphFlags::PRONOUN | MorphFlags::NOMINATIVE),
        t("βλέπει", MorphFlags::VERB | MorphFlags::PRESENT | MorphFlags::ACTIVE),
        t("με", MorphFlags::PRONOUN | MorphFlags::ACCUSATIVE),
    ];
    let deps = parse_greedy(&tokens);
    assert!(has(&deps, 5, 4, SyntaxRole::Object));
    assert!(!has(&deps, 5, 0, SyntaxRole::Object));
}

#[test]
fn passive_agent_needs_a_passive_clause_head() {
    let tokens = vec![
        t("βάλλω", MorphFlags::VERB | MorphFlags::ACTIVE),
        t("ὑπό", MorphFlags::PREPOSITION),
        t("του", MorphFlags::GENITIVE | MorphFlags::ARTICLE),
        t("ανθρώπου", MorphFlags::GENITIVE | MorphFlags::NOUN),
    ];
    let deps = parse_greedy(&tokens);
    assert!(has(&deps, 1, 0, SyntaxRole::Modifier));

    let passive = vec![
        t("βάλλομαι", MorphFlags::VERB | MorphFlags::PASSIVE),
        t("ὑπό", MorphFlags::PREPOSITION),
    ];
    let deps = parse_greedy(&passive);
    assert_eq!(deps, vec![edge(0, 1, SyntaxRole::PassiveAgent)]);
}

#[test]
fn empty_sentence_has_no_edges() {
    let tokens: Vec<MorphToken> = Vec::new();
    assert!(parse_greedy(&tokens).is_empty());
}

#[test]
fn a_lone_verb_has_no_edges() {
    let tokens = vec![t("τρέχει", MorphFlags::PRESENT | MorphFlags::ACTIVE)];
    assert!(parse_greedy(&tokens).is_empty());
}

#[test]
fn dangling_modifiers_are_dropped() {
    let tokens = vec![
        t("τρέχει", MorphFlags::PRESENT | MorphFlags::ACTIVE),
        t("ο", MorphFlags::NOMINATIVE | MorphFlags::ARTICLE),
        t("καλός", MorphFlags::NOMINATIVE | MorphFlags::ADJECTIVE),
    ];
    assert!(parse_greedy(&tokens).is_empty());
}

#[test]
fn a_modifier_that_disagrees_stays_pending() {
    let tokens = vec![
        t("τρέχει", MorphFlags::PRESENT | MorphFlags::ACTIVE),
        t("την", MorphFlags::ACCUSATIVE | MorphFlags::FEMININE | MorphFlags::ARTICLE),
        t("άνθρωπος", MorphFlags::NOMINATIVE | MorphFlags::MASCULINE | MorphFlags::NOUN),
        t("οικίαν", MorphFlags::ACCUSATIVE | MorphFlags::FEMININE | MorphFlags::NOUN),
    ];
    let deps = parse_greedy(&tokens);
    assert_eq!(
        deps,
        vec![
            edge(0, 2, SyntaxRole::Subject),
            edge(3, 1, SyntaxRole::Modifier),
            edge(0, 3, SyntaxRole::Object),
        ]
    );
}

#[test]
fn bare_infinitive_takes_an_accusative_noun_as_subject() {
    let tokens = vec![
        t("λέγω", MorphFlags::VERB),
        t("αυτόν", MorphFlags::ACCUSATIVE | MorphFlags::NOUN),
        t("είναι", MorphFlags::INFINITIVE),
    ];
    let deps = parse_greedy(&tokens);
    assert_eq!(deps, vec![edge(2, 1, SyntaxRole::Subject), edge(0, 2, SyntaxRole::Complement)]);
}

#[test]
fn articular_infinitive_with_a_nominative_article_is_subject() {
    let tokens = vec![
        t("Βλέπω", MorphFlags::VERB),
        t("το", MorphFlags::NOMINATIVE | MorphFlags::ARTICLE | MorphFlags::NEUTER | MorphFlags::SINGULAR),
        t("λέγειν", MorphFlags::INFINITIVE | MorphFlags::NEUTER | MorphFlags::SINGULAR),
    ];
    let deps = parse_greedy(&tokens);
    assert_eq!(deps, vec![edge(2, 1, SyntaxRole::Modifier), edge(0, 2, SyntaxRole::Subject)]);
}

#[test]
fn ordinary_participle_hangs_from_an_agreeing_noun() {
    let tokens = vec![
        t("τρέχει", MorphFlags::PRESENT | MorphFlags::ACTIVE),
        t("άνθρωπος", MorphFlags::NOMINATIVE | MorphFlags::NOUN),
        t("λέγων", MorphFlags::NOMINATIVE | MorphFlags::PARTICIPLE),
    ];
    let deps = parse_greedy(&tokens);
    assert_eq!(deps, vec![edge(0, 1, SyntaxRole::Subject), edge(1, 2, SyntaxRole::Modifier)]);

    let disagreeing = vec![
        t("τρέχει", MorphFlags::PRESENT | MorphFlags::ACTIVE),
        t("άνθρωπος", MorphFlags::NOMINATIVE | MorphFlags::NOUN),
        t("λέγοντα", MorphFlags::ACCUSATIVE | MorphFlags::PARTICIPLE),
    ];
    let deps = parse_greedy(&disagreeing);
    assert_eq!(deps, vec![edge(0, 1, SyntaxRole::Subject), edge(0, 2, SyntaxRole::Modifier)]);
}

#[test]
fn vocative_and_caseless_infinitive_fall_to_modifier_or_complement() {
    let tokens = vec![
        t("τρέχει", MorphFlags::PRESENT | MorphFlags::ACTIVE),
        t("ἄνθρωπε", MorphFlags::VOCATIVE | MorphFlags::NOUN),
    ];
    assert_eq!(parse_greedy(&tokens), vec![edge(0, 1, SyntaxRole::Modifier)]);
}

#[test]
fn edges_stay_in_range_with_one_head_each_and_none_for_the_root() {
    let tokens = vec![
        t("ο", MorphFlags::NOMINATIVE | MorphFlags::ARTICLE),
        t("ἀνήρ", MorphFlags::NOMINATIVE | MorphFlags::NOUN),
        t("ὃς", MorphFlags::RELATIVE | MorphFlags::NOMINATIVE),
        t("λέγει", MorphFlags::PRESENT | MorphFlags::ACTIVE),
        t("καὶ", MorphFlags::CONJUNCTION),
        t("τὸν", MorphFlags::ACCUSATIVE | MorphFlags::ARTICLE),
        t("λόγον", MorphFlags::ACCUSATIVE | MorphFlags::NOUN),
        t("ὑπό", MorphFlags::PREPOSITION),
        t("τοῦ", MorphFlags::GENITIVE | MorphFlags::ARTICLE),
        t("θεοῦ", MorphFlags::GENITIVE | MorphFlags::NOUN),
        t("λέγοντος", MorphFlags::GENITIVE | MorphFlags::PARTICIPLE),
        t("εἶναι", MorphFlags::INFINITIVE),
        t("γράφει", MorphFlags::PRESENT | MorphFlags::ACTIVE),
    ];
    let deps = parse_greedy(&tokens);
    let n = tokens.len();
    let root = 3;
    for d in deps.iter() {
        assert!(d.head_index < n);
        assert!(d.dependent_index < n);
        assert_ne!(d.head_index, d.dependent_index);
        assert_ne!(d.dependent_index, root);
    }
    for i in 0..deps.len() {
        for j in (i + 1)..deps.len() {
            assert_ne!(deps[i].dependent_index, deps[j].dependent_index);
        }
    }
}

#[test]
fn predicates_on_one_token() {
    assert!(is_verb(&t("λέγει", MorphFlags::PRESENT)));
    assert!(is_verb(&t("λέγει", MorphFlags::THIRD_PERSON)));
    assert!(is_verb(&t("λέγεται", MorphFlags::PASSIVE)));
    assert!(!is_verb(&t("λόγος", MorphFlags::THIRD_PERSON | MorphFlags::NOUN)));
    assert!(!is_verb(&t("έφυγον", MorphFlags::VERB)));
    assert!(has_case(&t("τῷ", MorphFlags::DATIVE)));
    assert!(has_case(&t("ὦ", MorphFlags::VOCATIVE)));
    assert!(!has_case(&t("καί", MorphFlags::CONJUNCTION)));

    let article = t("ὁ", MorphFlags::NOMINATIVE | MorphFlags::MASCULINE | MorphFlags::SINGULAR);
    let noun = t("λόγος", MorphFlags::NOMINATIVE | MorphFlags::MASCULINE | MorphFlags::SINGULAR);
    let genitive = t("λόγου", MorphFlags::GENITIVE | MorphFlags::MASCULINE | MorphFlags::SINGULAR);
    let feminine = t("ὁδός", MorphFlags::NOMINATIVE | MorphFlags::FEMININE);
    let plural = t("λόγοι", MorphFlags::NOMINATIVE | MorphFlags::PLURAL);
    let bare = t("λόγος", MorphFlags::NOMINATIVE);
    let infinitive = t("λέγειν", MorphFlags::INFINITIVE);
    assert!(check_agreement(&article, &noun));
    assert!(!check_agreement(&article, &genitive));
    assert!(!check_agreement(&article, &feminine));
    assert!(!check_agreement(&article, &plural));
    assert!(check_agreement(&article, &bare));
    assert!(check_agreement(&article, &infinitive));
    assert!(!check_agreement(&infinitive, &article));
}
