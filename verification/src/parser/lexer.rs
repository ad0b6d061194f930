//! The lexer: the tokens of a text, each word looked up in the dictionary.

use vstd::prelude::*;
use vstd::string::StringSliceAdditionalSpecFns;
use vstd::string::StrSliceExecFns;
use crate::parser::token::{Span, Token, TokenKind};
use crate::parser::tokenizer::{has_span, lexeme_text, lexemes, scan_text, Lexeme, Scanned};
use crate::protocol::ids::LemmaId;
use crate::protocol::model::{Dictionary, Lemma};
use crate::text::{chars_of, is_prefix, lemma_span_round_trip, starts_with};

verus! {

pub struct Lexer<'a> {
    dict: &'a Dictionary,
}

/// The first lemma at or after `from` whose text begins the surface form; a
/// lemma whose text is the whole form is the plainest case.
pub open spec fn first_lemma_for(lemmas: Seq<Lemma>, surface: Seq<char>, from: int) -> Option<int>
    decreases lemmas.len() - from,
{
    if from < 0 || from >= lemmas.len() {
        None
    } else if is_prefix(lemmas[from].text@, surface) {
        Some(from)
    } else {
        first_lemma_for(lemmas, surface, from + 1)
    }
}

/// The lemma that the lexer finds for a surface form.
pub open spec fn lookup(lemmas: Seq<Lemma>, surface: Seq<char>) -> Option<LemmaId> {
    match first_lemma_for(lemmas, surface, 0) {
        Some(l) => Some(lemmas[l].id),
        None => None,
    }
}

/// What `first_lemma_for` finds begins the form, and no lemma before it
/// does; it finds nothing only where no lemma begins the form.
pub proof fn lemma_first_lemma_for(lemmas: Seq<Lemma>, surface: Seq<char>, from: int)
    requires
        0 <= from,
    ensures
        match first_lemma_for(lemmas, surface, from) {
            Some(l) => from <= l < lemmas.len() && is_prefix(lemmas[l].text@, surface)
                && forall|j: int|
                from <= j < l ==> !is_prefix((#[trigger] lemmas[j]).text@, surface),
            None => forall|j: int|
                from <= j < lemmas.len() ==> !is_prefix((#[trigger] lemmas[j]).text@, surface),
        },
    decreases lemmas.len() - from,
{
    if from < lemmas.len() && !is_prefix(lemmas[from].text@, surface) {
        lemma_first_lemma_for(lemmas, surface, from + 1);
    }
}

/// The kind of a token: a punctuation mark, a word of the dictionary, or an
/// unknown word.
pub open spec fn token_kind(lemmas: Seq<Lemma>, chars: Seq<char>, lx: Lexeme) -> TokenKind {
    match lx.punct {
        Some(c) => TokenKind::Punctuation(c),
        None => match lookup(lemmas, lexeme_text(chars, lx)) {
            Some(id) => TokenKind::Word(id),
            None => TokenKind::UnknownWord,
        },
    }
}

/// A token is what the scan found as `lx`: it has its span, its characters
/// and its kind.
pub open spec fn token_matches(lemmas: Seq<Lemma>, chars: Seq<char>, lx: Lexeme, token: Token)
    -> bool {
    &&& has_span(chars, lx, token.span)
    &&& token.text@ == lexeme_text(chars, lx)
    &&& token.kind == token_kind(lemmas, chars, lx)
}

/// The bytes of the text that the token's span covers are the bytes of the
/// token's text.
pub open spec fn span_round_trips(input: &str, token: Token) -> bool {
    &&& token.span.start <= token.span.end <= input.spec_bytes().len()
    &&& input.spec_bytes().subrange(token.span.start as int, token.span.end as int)
        == token.text.spec_bytes()
}

impl<'a> Lexer<'a> {
    pub closed spec fn dictionary(&self) -> Dictionary {
        *self.dict
    }

    pub fn new(dict: &'a Dictionary) -> (r: Self)
        ensures
            r.dictionary() == *dict,
    {
        Lexer { dict }
    }

    /// The lemma of a surface form: the first lemma of the dictionary whose
    /// text begins the form.
    pub fn lookup_lemma(&self, surface_form: &str) -> (r: Option<LemmaId>)
        ensures
            r == lookup(self.dictionary().lemmas@, surface_form@),
    {
        let surface = chars_of(surface_form);
        let mut l: usize = 0;
        while l < self.dict.lemmas.len()
            invariant
                l <= self.dict.lemmas@.len(),
                surface@ == surface_form@,
                first_lemma_for(self.dict.lemmas@, surface@, 0) == first_lemma_for(
                    self.dict.lemmas@,
                    surface@,
                    l as int,
                ),
            decreases self.dict.lemmas@.len() - l,
        {
            let stem = chars_of(self.dict.lemmas[l].text.as_str());
            if starts_with(&surface, &stem) {
                return Some(LemmaId(self.dict.lemmas[l].id.0));
            }
            l = l + 1;
        }
        None
    }

    fn token_of(&self, input: &'a str, item: &Scanned, Ghost(lx): Ghost<Lexeme>) -> (r: Token<'a>)
        requires
            item.from < item.to <= input@.len(),
            item.is_lexeme(input@, lx),
        ensures
            token_matches(self.dictionary().lemmas@, input@, lx, r),
            span_round_trips(input, r),
    {
        let text = input.substring_char(item.from, item.to);
        proof {
            lemma_span_round_trip(input@, item.from as int, item.to as int);
        }
        let kind = match item.punct {
            Some(c) => TokenKind::Punctuation(c),
            None => match self.lookup_lemma(text) {
                Some(id) => TokenKind::Word(id),
                None => TokenKind::UnknownWord,
            },
        };
        Token { span: item.span, text, kind }
    }

    /// The tokens of a text.
    ///
    /// The result holds the tokens of [`lexemes`], in the order of the text.
    /// Each has the byte span and the characters of its place in the text,
    /// so that slicing the text by a token's span gives the token's text
    /// back; a word has the lemma that [`lookup`] finds for it.
    pub fn tokenize(&self, input: &'a str) -> (tokens: Vec<Token<'a>>)
        ensures
            tokens@.len() == lexemes(input@).len(),
            forall|k: int|
                0 <= k < tokens@.len() ==> token_matches(
                    self.dictionary().lemmas@,
                    input@,
                    lexemes(input@)[k],
                    #[trigger] tokens@[k],
                ),
            forall|k: int| 0 <= k < tokens@.len() ==> span_round_trips(input, #[trigger] tokens@[k]),
    {
        let scanned = scan_text(input);
        let mut tokens: Vec<Token<'a>> = Vec::new();
        let mut k: usize = 0;
        while k < scanned.len()
            invariant
                k <= scanned@.len(),
                tokens@.len() == k,
                scanned@.len() == lexemes(input@).len(),
                forall|j: int|
                    0 <= j < scanned@.len() ==> (#[trigger] scanned@[j]).is_lexeme(
                        input@,
                        lexemes(input@)[j],
                    ),
                forall|j: int|
                    0 <= j < scanned@.len() ==> (#[trigger] scanned@[j]).from < scanned@[j].to
                        <= input@.len(),
                forall|j: int|
                    0 <= j < k ==> token_matches(
                        self.dictionary().lemmas@,
                        input@,
                        lexemes(input@)[j],
                        #[trigger] tokens@[j],
                    ),
                forall|j: int| 0 <= j < k ==> span_round_trips(input, #[trigger] tokens@[j]),
            decreases scanned@.len() - k,
        {
            let token = self.token_of(input, &scanned[k], Ghost(lexemes(input@)[k as int]));
            tokens.push(token);
            k = k + 1;
        }
        tokens
    }
}

} // verus!
