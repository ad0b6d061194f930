//! The tokenizer: text to words and punctuation marks, each with its span.

use vstd::prelude::*;
use vstd::string::StringSliceAdditionalSpecFns;
use vstd::string::StrSliceExecFns;
use vstd::utf8::encode_utf8;
use crate::parser::token::Span;
use crate::text::{byte_offset, chars_of, lemma_byte_offset_step, lemma_span_round_trip, utf8_width};

verus! {

/// Whether Unicode gives the character the Alphabetic property, as
/// `char::is_alphabetic` reports it.
pub uninterp spec fn unicode_alphabetic(c: char) -> bool;

/// `char::is_alphabetic`: whether the character has Unicode's Alphabetic
/// property. The answer is a table lookup on the character alone; the
/// contract gives it a name and claims nothing else of it.
#[verifier::external_body]
fn char_is_alphabetic(c: char) -> (b: bool)
    ensures
        b == unicode_alphabetic(c),
{
    c.is_alphabetic()
}

/// The blocks Greek and Coptic (U+0370 to U+03FF) and Greek Extended
/// (U+1F00 to U+1FFF).
pub open spec fn in_greek_blocks(c: char) -> bool {
    0x0370 <= c as u32 <= 0x03FF || 0x1F00 <= c as u32 <= 0x1FFF
}

/// A character of a word: Greek, or alphabetic in any other script.
pub open spec fn spec_is_word_char(c: char) -> bool {
    in_greek_blocks(c) || unicode_alphabetic(c)
}

pub open spec fn spec_is_punctuation(c: char) -> bool {
    c == '.' || c == ',' || c == ';' || c == '?' || c == '!'
}

/// Space, tab, carriage return and line feed.
pub open spec fn spec_is_space(c: char) -> bool {
    c == ' ' || c == '\t' || c == '\r' || c == '\n'
}

/// Whether `c` belongs to a word, given whether Unicode counts it as
/// alphabetic.
pub fn word_char(c: char, alphabetic: bool) -> (r: bool)
    ensures
        r == (in_greek_blocks(c) || alphabetic),
{
    let v: u32 = c as u32;
    (0x0370 <= v && v <= 0x03FF) || (0x1F00 <= v && v <= 0x1FFF) || alphabetic
}

/// Whether `c` belongs to a word.
pub fn is_greek_alphabetic(c: char) -> (r: bool)
    ensures
        r == spec_is_word_char(c),
{
    let v: u32 = c as u32;
    if (0x0370 <= v && v <= 0x03FF) || (0x1F00 <= v && v <= 0x1FFF) {
        true
    } else {
        word_char(c, char_is_alphabetic(c))
    }
}

fn is_punctuation(c: char) -> (r: bool)
    ensures
        r == spec_is_punctuation(c),
{
    c == '.' || c == ',' || c == ';' || c == '?' || c == '!'
}

fn is_space(c: char) -> (r: bool)
    ensures
        r == spec_is_space(c),
{
    c == ' ' || c == '\t' || c == '\r' || c == '\n'
}

/// A token as the scan finds it: the characters from `start` up to `end`,
/// and the mark itself where the token is a punctuation mark.
pub struct Lexeme {
    pub start: int,
    pub end: int,
    pub punct: Option<char>,
}

/// Where the run of word characters that holds position `pos` ends.
pub open spec fn word_end(chars: Seq<char>, pos: int) -> int
    decreases chars.len() - pos,
{
    if pos < 0 || pos >= chars.len() || !spec_is_word_char(chars[pos]) {
        pos
    } else {
        word_end(chars, pos + 1)
    }
}

/// A run ends at or after its start, inside the text; it holds word
/// characters only, and the character after it, if any, is none.
pub proof fn lemma_word_end(chars: Seq<char>, pos: int)
    requires
        0 <= pos <= chars.len(),
    ensures
        pos <= word_end(chars, pos) <= chars.len(),
        forall|j: int| pos <= j < word_end(chars, pos) ==> spec_is_word_char(#[trigger] chars[j]),
        word_end(chars, pos) < chars.len() ==> !spec_is_word_char(chars[word_end(chars, pos)]),
        pos < chars.len() && spec_is_word_char(chars[pos]) ==> pos < word_end(chars, pos),
    decreases chars.len() - pos,
{
    if pos < chars.len() && spec_is_word_char(chars[pos]) {
        lemma_word_end(chars, pos + 1);
    }
}

/// The tokens of the text from position `pos` on.
///
/// Spaces are passed over. A word is the longest run of word characters. A
/// punctuation mark is a token by itself. Any other character is passed
/// over, so that no text makes the scan fail.
pub open spec fn scan(chars: Seq<char>, pos: int) -> Seq<Lexeme>
    decreases chars.len() - pos,
{
    if pos < 0 || pos >= chars.len() {
        Seq::empty()
    } else if spec_is_space(chars[pos]) {
        scan(chars, pos + 1)
    } else if spec_is_word_char(chars[pos]) {
        proof {
            lemma_word_end(chars, pos);
        }
        seq![Lexeme { start: pos, end: word_end(chars, pos), punct: None }] + scan(
            chars,
            word_end(chars, pos),
        )
    } else if spec_is_punctuation(chars[pos]) {
        seq![Lexeme { start: pos, end: pos + 1, punct: Some(chars[pos]) }] + scan(chars, pos + 1)
    } else {
        scan(chars, pos + 1)
    }
}

/// The tokens of a text.
pub open spec fn lexemes(chars: Seq<char>) -> Seq<Lexeme> {
    scan(chars, 0)
}

/// The characters of a token.
pub open spec fn lexeme_text(chars: Seq<char>, lx: Lexeme) -> Seq<char> {
    chars.subrange(lx.start, lx.end)
}

/// `span` is the byte span of the token: it runs from the byte offset of the
/// token's first character to the byte offset of the character after its
/// last.
pub open spec fn has_span(chars: Seq<char>, lx: Lexeme, span: Span) -> bool {
    span.start == byte_offset(chars, lx.start) && span.end == byte_offset(chars, lx.end)
}

/// A word can start at `start`, seen from position `pos` of the scan: it
/// starts where the scan starts, or the character before it is a space or
/// no word character.
pub open spec fn starts_word(chars: Seq<char>, pos: int, start: int) -> bool {
    start == pos || spec_is_space(chars[start - 1]) || !spec_is_word_char(chars[start - 1])
}

/// Every token lies inside the text, in order, and is not empty. A
/// punctuation mark is one character. A word holds word characters only;
/// the character after it, if any, is no word character, and the character
/// before it, if any, is a space or no word character.
pub proof fn lemma_scan_shape(chars: Seq<char>, pos: int)
    requires
        0 <= pos <= chars.len(),
    ensures
        forall|k: int|
            0 <= k < scan(chars, pos).len() ==> {
                let lx = #[trigger] scan(chars, pos)[k];
                &&& pos <= lx.start < lx.end <= chars.len()
                &&& match lx.punct {
                    Some(c) => lx.end == lx.start + 1 && chars[lx.start] == c && spec_is_punctuation(c),
                    None => lx.end == word_end(chars, lx.start) && spec_is_word_char(
                        chars[lx.start],
                    ) && starts_word(chars, pos, lx.start),
                }
            },
        forall|k: int|
            0 <= k < scan(chars, pos).len() - 1 ==> (#[trigger] scan(chars, pos)[k]).end <= scan(
                chars,
                pos,
            )[k + 1].start,
    decreases chars.len() - pos,
{
    if pos < chars.len() {
        lemma_word_end(chars, pos);
        let c = chars[pos];
        let all = scan(chars, pos);
        if spec_is_space(c) {
            lemma_scan_shape(chars, pos + 1);
        } else if spec_is_word_char(c) {
            let end = word_end(chars, pos);
            lemma_scan_shape(chars, end);
            let rest = scan(chars, end);
            assert forall|k: int| 0 <= k < all.len() implies {
                let lx = #[trigger] all[k];
                lx.punct is None ==> starts_word(chars, pos, lx.start)
            } by {
                if k > 0 {
                    assert(all[k] == rest[k - 1]);
                    let lx = rest[k - 1];
                    if lx.punct is None && lx.start == end {
                        assert(spec_is_word_char(chars[lx.start]));
                    }
                }
            }
            assert forall|k: int| 0 <= k < all.len() - 1 implies (#[trigger] all[k]).end <= all[k
                + 1].start by {
                if k > 0 {
                    assert(all[k] == rest[k - 1]);
                    assert(all[k + 1] == rest[k]);
                } else {
                    assert(all[1] == rest[0]);
                }
            }
            assert forall|k: int| 0 <= k < all.len() implies {
                let lx = #[trigger] all[k];
                &&& pos <= lx.start < lx.end <= chars.len()
                &&& match lx.punct {
                    Some(c) => lx.end == lx.start + 1 && chars[lx.start] == c && spec_is_punctuation(c),
                    None => lx.end == word_end(chars, lx.start) && spec_is_word_char(
                        chars[lx.start],
                    ) && starts_word(chars, pos, lx.start),
                }
            } by {
                if k > 0 {
                    assert(all[k] == rest[k - 1]);
                }
            }
        } else if spec_is_punctuation(c) {
            lemma_scan_shape(chars, pos + 1);
            let rest = scan(chars, pos + 1);
            assert forall|k: int| 0 <= k < all.len() - 1 implies (#[trigger] all[k]).end <= all[k
                + 1].start by {
                if k > 0 {
                    assert(all[k] == rest[k - 1]);
                    assert(all[k + 1] == rest[k]);
                } else {
                    assert(all[1] == rest[0]);
                }
            }
            assert forall|k: int| 0 <= k < all.len() implies {
                let lx = #[trigger] all[k];
                &&& pos <= lx.start < lx.end <= chars.len()
                &&& match lx.punct {
                    Some(c) => lx.end == lx.start + 1 && chars[lx.start] == c && spec_is_punctuation(c),
                    None => lx.end == word_end(chars, lx.start) && spec_is_word_char(
                        chars[lx.start],
                    ) && starts_word(chars, pos, lx.start),
                }
            } by {
                if k > 0 {
                    assert(all[k] == rest[k - 1]);
                }
            }
        } else {
            lemma_scan_shape(chars, pos + 1);
        }
    }
}

/// A text has no more tokens than characters.
pub proof fn lemma_scan_len(chars: Seq<char>, pos: int)
    requires
        0 <= pos <= chars.len(),
    ensures
        scan(chars, pos).len() <= chars.len() - pos,
    decreases chars.len() - pos,
{
    if pos < chars.len() {
        lemma_word_end(chars, pos);
        let c = chars[pos];
        if spec_is_space(c) {
            lemma_scan_len(chars, pos + 1);
        } else if spec_is_word_char(c) {
            lemma_scan_len(chars, word_end(chars, pos));
        } else {
            lemma_scan_len(chars, pos + 1);
        }
    }
}

/// A token as the scanner hands it on: character positions, byte span, and
/// the mark where it is a punctuation mark.
pub struct Scanned {
    pub from: usize,
    pub to: usize,
    pub span: Span,
    pub punct: Option<char>,
}

impl Scanned {
    pub open spec fn lexeme(&self) -> Lexeme {
        Lexeme { start: self.from as int, end: self.to as int, punct: self.punct }
    }

    /// The token is `lx`, with the byte span that `lx` has in `chars`.
    pub open spec fn is_lexeme(&self, chars: Seq<char>, lx: Lexeme) -> bool {
        self.lexeme() == lx && has_span(chars, lx, self.span)
    }
}

/// The tokens of `input`, with character positions and byte spans.
pub fn scan_text(input: &str) -> (out: Vec<Scanned>)
    ensures
        out@.len() == lexemes(input@).len(),
        forall|k: int|
            0 <= k < out@.len() ==> (#[trigger] out@[k]).is_lexeme(input@, lexemes(input@)[k]),
        forall|k: int|
            0 <= k < out@.len() ==> (#[trigger] out@[k]).from < out@[k].to <= input@.len(),
{
    let chars = chars_of(input);
    let n = chars.len();
    let total = input.as_bytes().len();
    assert(chars@.take(n as int) =~= chars@);
    let mut out: Vec<Scanned> = Vec::new();
    let mut pos: usize = 0;
    let mut bpos: usize = 0;
    while pos < n
        invariant
            chars@ == input@,
            n == chars@.len(),
            total == encode_utf8(chars@).len(),
            pos <= n,
            bpos == byte_offset(chars@, pos as int),
            bpos <= total,
            out@.map_values(|s: Scanned| s.lexeme()) + scan(chars@, pos as int) == scan(chars@, 0),
            forall|k: int|
                0 <= k < out@.len() ==> has_span(chars@, (#[trigger] out@[k]).lexeme(), out@[k].span),
            forall|k: int| 0 <= k < out@.len() ==> (#[trigger] out@[k]).from < out@[k].to <= n,
        decreases n - pos,
    {
        let c = chars[pos];
        let ghost before = out@.map_values(|s: Scanned| s.lexeme());
        proof {
            lemma_byte_offset_step(chars@, pos as int);
            lemma_word_end(chars@, pos as int);
        }
        if is_space(c) {
            bpos = bpos + utf8_width(c);
            pos = pos + 1;
        } else if is_greek_alphabetic(c) {
            let start = pos;
            let bstart = bpos;
            while pos < n && is_greek_alphabetic(chars[pos])
                invariant
                    n == chars@.len(),
                    total == encode_utf8(chars@).len(),
                    start <= pos <= n,
                    bpos == byte_offset(chars@, pos as int),
                    bpos <= total,
                    word_end(chars@, start as int) == word_end(chars@, pos as int),
                decreases n - pos,
            {
                proof {
                    lemma_byte_offset_step(chars@, pos as int);
                }
                bpos = bpos + utf8_width(chars[pos]);
                pos = pos + 1;
            }
            let item = Scanned { from: start, to: pos, span: Span::new(bstart, bpos), punct: None };
            out.push(item);
            proof {
                assert(pos == word_end(chars@, start as int));
                assert(out@.map_values(|s: Scanned| s.lexeme()) =~= before.push(item.lexeme()));
                assert(before.push(item.lexeme()) + scan(chars@, pos as int) =~= before + (
                seq![item.lexeme()] + scan(chars@, pos as int)));
            }
        } else if is_punctuation(c) {
            let item = Scanned {
                from: pos,
                to: pos + 1,
                span: Span::new(bpos, bpos + utf8_width(c)),
                punct: Some(c),
            };
            out.push(item);
            bpos = bpos + utf8_width(c);
            pos = pos + 1;
            proof {
                assert(out@.map_values(|s: Scanned| s.lexeme()) =~= before.push(item.lexeme()));
                assert(before.push(item.lexeme()) + scan(chars@, pos as int) =~= before + (
                seq![item.lexeme()] + scan(chars@, pos as int)));
            }
        } else {
            bpos = bpos + utf8_width(c);
            pos = pos + 1;
        }
    }
    proof {
        let views = out@.map_values(|s: Scanned| s.lexeme());
        assert(views + scan(chars@, n as int) =~= views);
        assert forall|k: int| 0 <= k < out@.len() implies (#[trigger] out@[k]).is_lexeme(
            input@,
            lexemes(input@)[k],
        ) by {
            assert(views[k] == out@[k].lexeme());
        }
    }
    out
}

#[derive(Debug, Clone, Copy)]
pub enum RawToken<'a> {
    Word(&'a str),
    Punct(char),
}

/// A span and raw token are what the scan found as `lx`.
pub open spec fn raw_matches(chars: Seq<char>, lx: Lexeme, item: (Span, RawToken)) -> bool {
    &&& has_span(chars, lx, item.0)
    &&& match item.1 {
        RawToken::Word(word) => lx.punct is None && word@ == lexeme_text(chars, lx),
        RawToken::Punct(c) => lx.punct == Some(c),
    }
}

/// The bytes of the text that the item's span covers are the bytes of the
/// item, where it is a word.
pub open spec fn span_covers(input: &str, item: (Span, RawToken)) -> bool {
    item.1 matches RawToken::Word(word) ==> item.0.start <= item.0.end
        <= input.spec_bytes().len() && input.spec_bytes().subrange(
        item.0.start as int,
        item.0.end as int,
    ) == word.spec_bytes()
}

fn raw_entry<'a>(input: &'a str, item: &Scanned, Ghost(lx): Ghost<Lexeme>) -> (r: (
    Span,
    RawToken<'a>,
))
    requires
        item.from < item.to <= input@.len(),
        item.is_lexeme(input@, lx),
    ensures
        raw_matches(input@, lx, r),
        span_covers(input, r),
{
    let raw = match item.punct {
        Some(c) => RawToken::Punct(c),
        None => {
            proof {
                lemma_span_round_trip(input@, item.from as int, item.to as int);
            }
            RawToken::Word(input.substring_char(item.from, item.to))
        },
    };
    (item.span, raw)
}

/// The words and punctuation marks of a text, each with its byte span.
///
/// The result holds the tokens of [`lexemes`], in order. The bytes of the
/// text that a word's span covers are the bytes of the word.
pub fn parse_with_spans<'a>(input: &'a str) -> (result: Vec<(Span, RawToken<'a>)>)
    ensures
        result@.len() == lexemes(input@).len(),
        forall|k: int|
            0 <= k < result@.len() ==> raw_matches(
                input@,
                lexemes(input@)[k],
                #[trigger] result@[k],
            ),
        forall|k: int| 0 <= k < result@.len() ==> span_covers(input, #[trigger] result@[k]),
{
    let scanned = scan_text(input);
    let mut result: Vec<(Span, RawToken<'a>)> = Vec::new();
    let mut k: usize = 0;
    while k < scanned.len()
        invariant
            k <= scanned@.len(),
            result@.len() == k,
            scanned@.len() == lexemes(input@).len(),
            forall|j: int|
                0 <= j < scanned@.len() ==> (#[trigger] scanned@[j]).is_lexeme(
                    input@,
                    lexemes(input@)[j],
                ),
            forall|j: int|
                0 <= j < scanned@.len() ==> (#[trigger] scanned@[j]).from < scanned@[j].to
                    <= input@.len(),
            forall|j: int|
                0 <= j < k ==> raw_matches(
                    input@,
                    lexemes(input@)[j],
                    #[trigger] result@[j],
                ),
            forall|j: int| 0 <= j < k ==> span_covers(input, #[trigger] result@[j]),
        decreases scanned@.len() - k,
    {
        let entry = raw_entry(input, &scanned[k], Ghost(lexemes(input@)[k as int]));
        result.push(entry);
        k = k + 1;
    }
    result
}

} // verus!
