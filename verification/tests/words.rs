use logos_core::morph::{generate, MorphError};
use logos_core::parser::morphology::{resolve_morphology, MorphAnalysis};
use logos_core::parser::token::{Span, TokenKind};
use logos_core::parser::tokenizer::{is_greek_alphabetic, parse_with_spans, word_char, RawToken};
use logos_core::parser::Lexer;
use logos_core::protocol::{
    Dictionary, Gender, Lemma, LemmaId, MorphFlags, Paradigm, ParadigmId, PartOfSpeech,
};
use logos_core::text::{chars_of, ends_with, same_text, starts_with, utf8_width};

fn man() -> Lemma {
    Lemma {
        id: LemmaId(1),
        text: "άνθρωπος".to_string(),
        gender: Gender::Masculine,
        pos: PartOfSpeech::Noun,
    }
}

fn second_declension() -> Paradigm {
    Paradigm {
        id: ParadigmId(1),
        endings: vec![
            (MorphFlags::NOMINATIVE | MorphFlags::SINGULAR | MorphFlags::MASCULINE, "ος".to_string()),
            (MorphFlags::GENITIVE | MorphFlags::SINGULAR | MorphFlags::MASCULINE, "ου".to_string()),
        ],
    }
}

fn small_dict() -> Dictionary {
    Dictionary { version: 1, lemmas: vec![man()], paradigms: vec![second_declension()] }
}

#[test]
fn test_id_layout() {
    assert_eq!(core::mem::size_of::<LemmaId>(), 4);
    assert_eq!(core::mem::size_of::<Option<LemmaId>>(), 8);
}

#[test]
fn test_tokenizer_integration() {
    let dict = Dictionary {
        version: 1,
        lemmas: vec![Lemma {
            id: LemmaId(10),
            text: "άνθρωπος".to_string(),
            gender: Gender::Masculine,
            pos: PartOfSpeech::Noun,
        }],
        paradigms: vec![],
    };

    let lexer = Lexer::new(&dict);
    let input = "Ο άνθρωπος.";
    let tokens = lexer.tokenize(input);

    assert_eq!(tokens.len(), 3);

    assert_eq!(tokens[0].text, "Ο");
    assert!(matches!(tokens[0].kind, TokenKind::UnknownWord));

    assert_eq!(tokens[1].text, "άνθρωπος");
    if let TokenKind::Word(id) = tokens[1].kind {
        assert_eq!(id.0, 10);
    } else {
        panic!("Expected Word(10)");
    }

    assert!(matches!(tokens[2].kind, TokenKind::Punctuation('.')));
}

#[test]
fn test_robust_morphology_resolution() {
    let dict = small_dict();

    let analysis = resolve_morphology(&dict, "άνθρωπος", Some(1));
    assert_ne!(analysis.kind, "Unknown", "Should resolve 'άνθρωπος'");
    assert!(analysis.flags.describe().contains("NOMINATIVE"), "Should be Nominative");
    assert!(analysis.debug_msg.contains("Matched!"), "Debug should indicate match");

    let analysis = resolve_morphology(&dict, "άνθρωπου", Some(1));
    assert_ne!(analysis.kind, "Unknown", "Should resolve 'άνθρωπου'");
    assert!(analysis.flags.describe().contains("GENITIVE"), "Should be Genitive");

    let analysis = resolve_morphology(&dict, "άλογο", None);
    assert_eq!(analysis.kind, "Unknown", "Should NOT resolve 'άλογο'");
}

#[test]
fn spans_round_trip() {
    let dict = small_dict();
    let lexer = Lexer::new(&dict);
    let input = "  Ο ἄνθρωπος,λέγει;  abc! 12 τί?";
    let tokens = lexer.tokenize(input);
    let texts: Vec<&str> = tokens.iter().map(|t| t.text).collect();
    assert_eq!(texts, vec!["Ο", "ἄνθρωπος", ",", "λέγει", ";", "abc", "!", "τί", "?"]);
    for t in tokens.iter() {
        assert_eq!(&input[t.span.start..t.span.end], t.text);
        assert_eq!(t.span.len(), t.text.len());
    }
    assert_eq!(tokens[0].span, Span::new(2, 4));
    assert_eq!(tokens[1].span, Span::new(5, 22));
    assert_eq!(tokens[2].span, Span::new(22, 23));
}

#[test]
fn raw_tokens_with_spans() {
    let raw = parse_with_spans("Ο άνθρωπος.");
    assert_eq!(raw.len(), 3);
    assert_eq!(raw[0].0, Span::new(0, 2));
    assert!(matches!(raw[0].1, RawToken::Word("Ο")));
    assert_eq!(raw[1].0, Span::new(3, 19));
    assert!(matches!(raw[1].1, RawToken::Word("άνθρωπος")));
    assert_eq!(raw[2].0, Span::new(19, 20));
    assert!(matches!(raw[2].1, RawToken::Punct('.')));
}

#[test]
fn unrecognised_characters_are_skipped() {
    assert!(parse_with_spans("").is_empty());
    assert!(parse_with_spans(" \t\r\n").is_empty());
    assert!(parse_with_spans("12 + 34 = (46) \u{00A0} -- \u{1F600}").is_empty());
    let raw = parse_with_spans("α1β");
    assert_eq!(raw.len(), 2);
    assert_eq!(raw[0].0, Span::new(0, 2));
    assert_eq!(raw[1].0, Span::new(3, 5));
    let raw = parse_with_spans("\u{1F600}ὦ!");
    assert_eq!(raw.len(), 2);
    assert_eq!(raw[0].0, Span::new(4, 7));
    assert_eq!(raw[1].0, Span::new(7, 8));
}

#[test]
fn every_punctuation_mark_is_a_token() {
    let raw = parse_with_spans(".,;?!");
    let marks: Vec<char> = raw
        .iter()
        .map(|(_, t)| match t {
            RawToken::Punct(c) => *c,
            RawToken::Word(_) => 'w',
        })
        .collect();
    assert_eq!(marks, vec!['.', ',', ';', '?', '!']);
}

#[test]
fn word_characters() {
    assert!(is_greek_alphabetic('α'));
    assert!(is_greek_alphabetic('\u{0370}'));
    assert!(is_greek_alphabetic('\u{03FF}'));
    assert!(is_greek_alphabetic('\u{1F00}'));
    assert!(is_greek_alphabetic('\u{1FFF}'));
    assert!(is_greek_alphabetic('\u{0375}'));
    assert!(is_greek_alphabetic('a'));
    assert!(is_greek_alphabetic('Ж'));
    assert!(!is_greek_alphabetic('1'));
    assert!(!is_greek_alphabetic('.'));
    assert!(!is_greek_alphabetic(' '));
    assert!(word_char('1', true));
    assert!(!word_char('1', false));
    assert!(word_char('α', false));
}

#[test]
fn span_length() {
    assert_eq!(Span::new(3, 19).len(), 16);
    assert_eq!(Span::new(5, 5).len(), 0);
    let s = Span::new(1, 2);
    assert_eq!(s.start, 1);
    assert_eq!(s.end, 2);
}

#[test]
fn lookup_takes_the_first_lemma_that_begins_the_form() {
    let dict = Dictionary {
        version: 1,
        lemmas: vec![
            Lemma { id: LemmaId(5), text: "λόγος".to_string(), gender: Gender::Masculine, pos: PartOfSpeech::Noun },
            Lemma { id: LemmaId(6), text: "λόγ".to_string(), gender: Gender::Masculine, pos: PartOfSpeech::Noun },
            Lemma { id: LemmaId(7), text: "λό".to_string(), gender: Gender::Masculine, pos: PartOfSpeech::Noun },
        ],
        paradigms: vec![],
    };
    let lexer = Lexer::new(&dict);
    assert_eq!(lexer.lookup_lemma("λόγος"), Some(LemmaId(5)));
    assert_eq!(lexer.lookup_lemma("λόγου"), Some(LemmaId(6)));
    assert_eq!(lexer.lookup_lemma("λόφος"), Some(LemmaId(7)));
    assert_eq!(lexer.lookup_lemma("λ"), None);
    assert_eq!(lexer.lookup_lemma("ἄλλος"), None);
}

#[test]
fn resolution_by_suffix() {
    let dict = small_dict();
    let a = resolve_morphology(&dict, "άνθρωπου", None);
    assert_eq!(a.kind, "Word");
    assert_eq!(a.lemma_id, Some(LemmaId(1)));
    assert_eq!(a.stem, "άνθρωπ");
    assert_eq!(
        a.flags,
        MorphFlags::from_bits_truncate(MorphFlags::GENITIVE | MorphFlags::SINGULAR | MorphFlags::MASCULINE)
    );
    assert_eq!(a.debug_msg, "Matched! Stem: 'άνθρωπ', Suffix: 'ου', Lemma: 'άνθρωπος'");
}

#[test]
fn resolution_keeps_a_hinted_lemma() {
    let dict = small_dict();
    let a = resolve_morphology(&dict, "και", Some(42));
    assert_eq!(a.kind, "Word");
    assert_eq!(a.lemma_id, Some(LemmaId(42)));
    assert!(a.flags.is_empty());
    assert_eq!(a.stem, "και");
    assert_eq!(a.debug_msg, "indeclinable or no rule applied");
}

#[test]
fn resolution_recovers_by_prefix() {
    let dict = small_dict();
    let a = resolve_morphology(&dict, "άνθρωπ", None);
    assert_eq!(a.kind, "Word(Recovered)");
    assert_eq!(a.lemma_id, Some(LemmaId(1)));
    assert!(a.flags.is_empty());
    assert_eq!(a.stem, "άνθρωπ");
    assert_eq!(a.debug_msg, "Recovered via raw prefix match against 'άνθρωπος'");

    let longer = resolve_morphology(&dict, "άνθρωποςx", None);
    assert_eq!(longer.kind, "Word(Recovered)");
}

#[test]
fn resolution_of_the_unknown_and_the_empty() {
    let dict = small_dict();
    let a = resolve_morphology(&dict, "άλογο", None);
    assert_eq!(a.kind, "Unknown");
    assert_eq!(a.lemma_id, None);
    assert!(a.flags.is_empty());
    assert_eq!(a.stem, "");
    assert_eq!(a.debug_msg, "No match found for 'άλογο'");

    let empty = resolve_morphology(&dict, "", Some(1));
    assert_eq!(empty.kind, "Unknown");
    assert_eq!(empty.lemma_id, None);
    assert_eq!(empty.debug_msg, "No match found for ''");
}

#[test]
fn the_first_ending_in_dictionary_order_wins() {
    let dict = Dictionary {
        version: 1,
        lemmas: vec![man()],
        paradigms: vec![
            Paradigm { id: ParadigmId(1), endings: vec![(MorphFlags::ACCUSATIVE, "ν".to_string())] },
            Paradigm {
                id: ParadigmId(2),
                endings: vec![
                    (MorphFlags::VOCATIVE, "ος".to_string()),
                    (MorphFlags::NOMINATIVE, "ος".to_string()),
                    (MorphFlags::DATIVE, "".to_string()),
                ],
            },
        ],
    };
    let a = resolve_morphology(&dict, "άνθρωπος", None);
    assert_eq!(a.flags, MorphFlags::from_bits_truncate(MorphFlags::VOCATIVE));
    assert_eq!(a.stem, "άνθρωπ");
    let whole = resolve_morphology(&dict, "άνθρωπ", None);
    assert_eq!(whole.flags, MorphFlags::from_bits_truncate(MorphFlags::DATIVE));
    assert_eq!(whole.stem, "άνθρωπ");
}

#[test]
fn a_hint_restricts_the_search_to_its_lemma() {
    let dict = Dictionary {
        version: 1,
        lemmas: vec![
            man(),
            Lemma { id: LemmaId(2), text: "άνθος".to_string(), gender: Gender::Neuter, pos: PartOfSpeech::Noun },
        ],
        paradigms: vec![second_declension()],
    };
    let free = resolve_morphology(&dict, "άνθος", None);
    assert_eq!(free.lemma_id, Some(LemmaId(1)));
    let hinted = resolve_morphology(&dict, "άνθος", Some(2));
    assert_eq!(hinted.lemma_id, Some(LemmaId(2)));
    assert_eq!(hinted.stem, "άνθ");
}

#[test]
fn resolution_is_repeatable() {
    let dict = small_dict();
    let a = resolve_morphology(&dict, "άνθρωπου", Some(1));
    let b = resolve_morphology(&dict, "άνθρωπου", Some(1));
    assert_eq!(a.flags, b.flags);
    assert_eq!(a.lemma_id, b.lemma_id);
    assert_eq!(a.stem, b.stem);
    assert_eq!(a.kind, b.kind);
    assert_eq!(a.debug_msg, b.debug_msg);
}

#[test]
fn unknown_analysis() {
    let a = MorphAnalysis::unknown("why".to_string());
    assert_eq!(a.kind, "Unknown");
    assert_eq!(a.debug_msg, "why");
    assert_eq!(a.stem, "");
    assert_eq!(a.lemma_id, None);
    assert!(a.flags.is_empty());
}

#[test]
fn generation() {
    let lemma = Lemma { id: LemmaId(1), text: "stem".to_string(), gender: Gender::Neuter, pos: PartOfSpeech::Noun };
    let flags = MorphFlags::from_bits_truncate(MorphFlags::NOMINATIVE);
    let paradigm = Paradigm {
        id: ParadigmId(1),
        endings: vec![
            (MorphFlags::GENITIVE, "x".to_string()),
            (MorphFlags::NOMINATIVE, "suffix".to_string()),
            (MorphFlags::NOMINATIVE, "later".to_string()),
        ],
    };
    assert_eq!(generate(&lemma, &paradigm, flags).unwrap(), "stemsuffix");
    let missing = MorphFlags::from_bits_truncate(MorphFlags::NOMINATIVE | MorphFlags::PLURAL);
    match generate(&lemma, &paradigm, missing) {
        Err(MorphError::FormNotFound(f)) => assert_eq!(f, missing),
        Ok(_) => panic!("no ending has these flags"),
    }
    let error = generate(&lemma, &paradigm, missing).unwrap_err();
    assert_eq!(error.to_string(), "Form not found for flags: NOMINATIVE | PLURAL");
}

#[test]
fn flag_sets() {
    let f = MorphFlags::from_bits_truncate(MorphFlags::NOMINATIVE | MorphFlags::SINGULAR | 0x8000_0000);
    assert_eq!(f.bits(), 0x81);
    assert!(f.contains(MorphFlags::NOMINATIVE));
    assert!(f.contains(MorphFlags::NOMINATIVE | MorphFlags::SINGULAR));
    assert!(!f.contains(MorphFlags::NOMINATIVE | MorphFlags::PLURAL));
    assert!(f.intersects(MorphFlags::NOMINATIVE | MorphFlags::PLURAL));
    assert!(!f.intersects(MorphFlags::PLURAL));
    assert_eq!(f.intersection(MorphFlags::NUMBER_MASK).bits(), MorphFlags::SINGULAR);
    assert_eq!(f.union(MorphFlags::NOUN).bits(), 0x81 | MorphFlags::NOUN);
    assert!(MorphFlags::empty().is_empty());
    assert!(!f.is_empty());
    assert_eq!(MorphFlags::from_bits(0x81), Some(f));
    assert_eq!(MorphFlags::from_bits(0x8000_0000), None);
    assert_eq!(f.describe(), "NOMINATIVE | SINGULAR");
    assert_eq!(MorphFlags::empty().describe(), "");
    assert_eq!(MorphFlags::from_bits_truncate(MorphFlags::VERB).describe(), "VERB");
    assert_eq!(
        MorphFlags::CASE_MASK,
        MorphFlags::NOMINATIVE | MorphFlags::GENITIVE | MorphFlags::ACCUSATIVE | MorphFlags::VOCATIVE | MorphFlags::DATIVE
    );
    assert_eq!(MorphFlags::GENDER_MASK, MorphFlags::MASCULINE | MorphFlags::FEMININE | MorphFlags::NEUTER);
    assert_eq!(MorphFlags::NUMBER_MASK, MorphFlags::SINGULAR | MorphFlags::PLURAL);
    assert_eq!(
        MorphFlags::PERSON_MASK,
        MorphFlags::FIRST_PERSON | MorphFlags::SECOND_PERSON | MorphFlags::THIRD_PERSON
    );
    assert_eq!(
        MorphFlags::FINITE_MASK,
        MorphFlags::PERSON_MASK | MorphFlags::VOICE_MASK | MorphFlags::TENSE_MASK
    );
    assert_eq!(MorphFlags::ALL.count_ones() as usize, MorphFlags::COUNT);
}

#[test]
fn ids_convert_to_and_from_integers() {
    let id = LemmaId::new(42);
    assert_eq!(id, LemmaId(42));
    assert_eq!(u32::from(id), 42);
    assert_eq!(LemmaId::from(42u32), id);
    assert_eq!(u32::from(ParadigmId::new(7)), 7);
}

#[test]
fn strings_as_characters() {
    assert_eq!(chars_of("ὑπό"), vec!['ὑ', 'π', 'ό']);
    assert!(chars_of("").is_empty());
    assert!(same_text("υπό", "υπό"));
    assert!(!same_text("υπό", "ὑπό"));
    assert!(!same_text("υπό", "υπ"));
    let s = chars_of("άνθρωπος");
    assert!(starts_with(&s, &chars_of("άνθ")));
    assert!(starts_with(&s, &chars_of("")));
    assert!(!starts_with(&s, &chars_of("νθ")));
    assert!(!starts_with(&chars_of("άν"), &s));
    assert!(ends_with(&s, &chars_of("ος")));
    assert!(ends_with(&s, &s));
    assert!(!ends_with(&s, &chars_of("ου")));
    assert_eq!(utf8_width('a'), 1);
    assert_eq!(utf8_width('α'), 2);
    assert_eq!(utf8_width('ἄ'), 3);
    assert_eq!(utf8_width('\u{1F600}'), 4);
    assert_eq!(utf8_width('\u{7F}'), 1);
    assert_eq!(utf8_width('\u{80}'), 2);
    assert_eq!(utf8_width('\u{7FF}'), 2);
    assert_eq!(utf8_width('\u{800}'), 3);
    assert_eq!(utf8_width('\u{FFFF}'), 3);
    assert_eq!(utf8_width('\u{10000}'), 4);
}

#[test]
fn well_formed_flag_sets_state_one_member_of_a_group_at_most() {
    assert!(MorphFlags::empty().is_well_formed());
    assert!(MorphFlags::from_bits_truncate(
        MorphFlags::NOMINATIVE | MorphFlags::MASCULINE | MorphFlags::SINGULAR | MorphFlags::NOUN
    )
    .is_well_formed());
    assert!(MorphFlags::from_bits_truncate(MorphFlags::DATIVE | MorphFlags::ARTICLE | MorphFlags::PRONOUN)
        .is_well_formed());
    assert!(!MorphFlags::from_bits_truncate(MorphFlags::NOMINATIVE | MorphFlags::DATIVE).is_well_formed());
    assert!(!MorphFlags::from_bits_truncate(MorphFlags::MASCULINE | MorphFlags::NEUTER).is_well_formed());
    assert!(!MorphFlags::from_bits_truncate(MorphFlags::SINGULAR | MorphFlags::PLURAL).is_well_formed());
    assert!(!MorphFlags::from_bits_truncate(MorphFlags::FIRST_PERSON | MorphFlags::THIRD_PERSON)
        .is_well_formed());
    assert!(!MorphFlags::from_bits_truncate(MorphFlags::ACTIVE | MorphFlags::PASSIVE).is_well_formed());
    assert!(!MorphFlags::from_bits_truncate(MorphFlags::PRESENT | MorphFlags::FUTURE).is_well_formed());
}

#[test]
fn well_formed_dictionaries_have_unique_ids() {
    assert!(small_dict().is_well_formed());
    assert!(Dictionary { version: 1, lemmas: vec![], paradigms: vec![] }.is_well_formed());
    let twice = Dictionary { version: 1, lemmas: vec![man(), man()], paradigms: vec![] };
    assert!(!twice.is_well_formed());
    let paradigms = Dictionary {
        version: 1,
        lemmas: vec![man()],
        paradigms: vec![second_declension(), second_declension()],
    };
    assert!(!paradigms.is_well_formed());
}
