use logos_core::engine::{AnalysisReport, LogosEngine, SerializableAgreementError};
use logos_core::ecs::AgreementError;
use logos_core::protocol::{
    Dictionary, Gender, Lemma, LemmaId, MorphFlags, Paradigm, ParadigmId, PartOfSpeech, Relation,
    SemanticEdge, SemanticNetwork,
};
use logos_core::text::decimal;

fn dictionary() -> Dictionary {
    Dictionary {
        version: 1,
        lemmas: vec![
            Lemma { id: LemmaId(1), text: "άνθρωπος".to_string(), gender: Gender::Masculine, pos: PartOfSpeech::Noun },
            Lemma { id: LemmaId(2), text: "βλέπω".to_string(), gender: Gender::Neuter, pos: PartOfSpeech::Verb },
            Lemma { id: LemmaId(3), text: "λίθος".to_string(), gender: Gender::Masculine, pos: PartOfSpeech::Noun },
        ],
        paradigms: vec![Paradigm {
            id: ParadigmId(1),
            endings: vec![
                (MorphFlags::NOMINATIVE | MorphFlags::SINGULAR | MorphFlags::MASCULINE | MorphFlags::NOUN, "ος".to_string()),
                (MorphFlags::NOMINATIVE | MorphFlags::PLURAL | MorphFlags::MASCULINE | MorphFlags::NOUN, "οι".to_string()),
                (MorphFlags::ACCUSATIVE | MorphFlags::SINGULAR | MorphFlags::MASCULINE | MorphFlags::NOUN, "ον".to_string()),
                (MorphFlags::PRESENT | MorphFlags::ACTIVE | MorphFlags::THIRD_PERSON | MorphFlags::SINGULAR, "ει".to_string()),
            ],
        }],
    }
}

fn network() -> SemanticNetwork {
    SemanticNetwork {
        version: 1,
        edges: vec![
            SemanticEdge { from: LemmaId(2), to: LemmaId(99), relation: Relation::RequiresAttribute },
            SemanticEdge { from: LemmaId(1), to: LemmaId(99), relation: Relation::HasAttribute },
        ],
    }
}

fn analyse(text: &str) -> AnalysisReport {
    LogosEngine::new(dictionary()).analyze_core(text)
}

#[test]
fn report_lists_every_token() {
    let report = analyse("άνθρωπος βλέπει.");
    assert_eq!(report.tokens.len(), 3);

    assert_eq!(report.tokens[0].text, "άνθρωπος");
    assert_eq!(report.tokens[0].lemma_id, Some(1));
    assert_eq!(report.tokens[0].kind, "Word");
    assert_eq!(report.tokens[0].morphology, "NOMINATIVE | MASCULINE | SINGULAR | NOUN");
    assert_eq!(report.tokens[0].debug, "Matched! Stem: 'άνθρωπ', Suffix: 'ος', Lemma: 'άνθρωπος'");

    assert_eq!(report.tokens[1].text, "βλέπει");
    assert_eq!(report.tokens[1].lemma_id, Some(2));
    assert_eq!(report.tokens[1].kind, "Word");
    assert_eq!(report.tokens[1].morphology, "SINGULAR | THIRD_PERSON | ACTIVE | PRESENT");

    assert_eq!(report.tokens[2].text, ".");
    assert_eq!(report.tokens[2].lemma_id, None);
    assert_eq!(report.tokens[2].kind, "Punctuation");
    assert_eq!(report.tokens[2].morphology, "None");
    assert_eq!(report.tokens[2].debug, "Punctuation");

    assert!(report.syntax_errors.is_empty());
    assert!(report.semantic_errors.is_empty());
    assert_eq!(report.debug_info, "Lemmas: 3, Paradigms: 1");
}

#[test]
fn unknown_words_are_reported_as_unknown() {
    let report = analyse("xyznonsense");
    assert_eq!(report.tokens.len(), 1);
    assert_eq!(report.tokens[0].text, "xyznonsense");
    assert_eq!(report.tokens[0].kind, "Unknown");
    assert_eq!(report.tokens[0].morphology, "None");
    assert_eq!(report.tokens[0].lemma_id, None);
}

#[test]
fn empty_text_gives_an_empty_report() {
    let report = analyse("");
    assert!(report.tokens.is_empty());
    assert!(report.syntax_errors.is_empty());
    assert!(report.semantic_errors.is_empty());
    assert!(report.debug_info.contains("Lemmas:"));
}

#[test]
fn subject_and_verb_that_disagree_in_number() {
    let report = analyse("άνθρωποι βλέπει");
    assert_eq!(report.tokens.len(), 2);
    assert_eq!(report.syntax_errors.len(), 1);
    assert_eq!(report.syntax_errors[0].source, "άνθρωποι");
    assert_eq!(report.syntax_errors[0].target, "βλέπει");
    assert_eq!(report.syntax_errors[0].message, "Number mismatch: PLURAL vs SINGULAR");
}

#[test]
fn object_that_does_not_satisfy_what_the_verb_requires() {
    let mut engine = LogosEngine::new(dictionary());
    let quiet = engine.analyze_core("βλέπει λίθον");
    assert!(quiet.semantic_errors.is_empty());

    engine.load_semantics(&network());
    let report = engine.analyze_core("βλέπει λίθον");
    assert_eq!(report.tokens.len(), 2);
    assert_eq!(
        report.semantic_errors,
        vec!["Constraint Violation: Object 'λίθον' does not satisfy requirement of 'βλέπει'.".to_string()]
    );

    let fine = engine.analyze_core("βλέπει άνθρωπον");
    assert!(fine.semantic_errors.is_empty());
    assert!(fine.syntax_errors.is_empty());
}

#[test]
fn a_later_network_replaces_the_earlier() {
    let mut engine = LogosEngine::new(dictionary());
    engine.load_semantics(&network());
    assert_eq!(engine.analyze_core("βλέπει λίθον").semantic_errors.len(), 1);
    engine.load_semantics(&SemanticNetwork { version: 2, edges: vec![] });
    assert!(engine.analyze_core("βλέπει λίθον").semantic_errors.is_empty());
}

#[test]
fn agreement_error_becomes_serializable() {
    let e = AgreementError {
        source: "kids".to_string(),
        target: "plays".to_string(),
        details: "Number mismatch".to_string(),
    };
    let s = SerializableAgreementError::from(e);
    assert_eq!(s.source, "kids");
    assert_eq!(s.target, "plays");
    assert_eq!(s.message, "Number mismatch");
}

#[test]
fn numbers_in_decimal() {
    assert_eq!(decimal(0), "0");
    assert_eq!(decimal(7), "7");
    assert_eq!(decimal(10), "10");
    assert_eq!(decimal(1234567890), "1234567890");
    assert_eq!(decimal(usize::MAX), usize::MAX.to_string());
}
