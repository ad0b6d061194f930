//! The morphological resolver: a surface form, matched against the
//! dictionary's lemmas and paradigms, becomes a lemma, a flag set and a stem.

use vstd::prelude::*;
use vstd::string::StrSliceExecFns;
use vstd::string::StringExecFns;
use crate::protocol::ids::LemmaId;
use crate::protocol::model::{Dictionary, Lemma, Paradigm};
use crate::protocol::morphology::MorphFlags;
use crate::text::{chars_of, ends_with, is_prefix, is_suffix, starts_with};

verus! {

#[derive(Debug, Clone)]
pub struct MorphAnalysis {
    pub flags: MorphFlags,
    pub lemma_id: Option<LemmaId>,
    pub debug_msg: String,
    pub stem: String,
    pub kind: String,
}

/// A [`MorphAnalysis`] with its strings as character sequences.
pub struct MorphAnalysisView {
    pub flags: MorphFlags,
    pub lemma_id: Option<LemmaId>,
    pub debug_msg: Seq<char>,
    pub stem: Seq<char>,
    pub kind: Seq<char>,
}

impl View for MorphAnalysis {
    type V = MorphAnalysisView;

    open spec fn view(&self) -> MorphAnalysisView {
        MorphAnalysisView {
            flags: self.flags,
            lemma_id: self.lemma_id,
            debug_msg: self.debug_msg@,
            stem: self.stem@,
            kind: self.kind@,
        }
    }
}

/// The analysis of a form that nothing in the dictionary explains.
pub open spec fn unknown_analysis(debug: Seq<char>) -> MorphAnalysisView {
    MorphAnalysisView {
        flags: MorphFlags { bits: 0 },
        lemma_id: None,
        debug_msg: debug,
        stem: Seq::empty(),
        kind: "Unknown"@,
    }
}

impl MorphAnalysis {
    pub fn unknown(debug: String) -> (r: Self)
        ensures
            r@ == unknown_analysis(debug@),
    {
        MorphAnalysis {
            flags: MorphFlags::empty(),
            lemma_id: None,
            debug_msg: debug,
            stem: String::new(),
            kind: String::from_str("Unknown"),
        }
    }
}

// ---------------------------------------------------------------------------
// The search
// ---------------------------------------------------------------------------

/// What is left of the surface form when a suffix of `suffix_len` characters
/// is taken off.
pub open spec fn stem_of(surface: Seq<char>, suffix_len: nat) -> Seq<char> {
    surface.take(surface.len() - suffix_len)
}

/// An ending explains a surface form under a lemma: the form ends with the
/// ending's suffix, and what stands before the suffix begins the lemma's
/// text.
pub open spec fn ending_applies(surface: Seq<char>, lemma_text: Seq<char>, suffix: Seq<char>)
    -> bool {
    is_suffix(suffix, surface) && is_prefix(stem_of(surface, suffix.len()), lemma_text)
}

/// Whether the search looks at a lemma: at all of them without a hint, at
/// those with the hinted id with one.
pub open spec fn is_candidate(lemma: Lemma, hint: Option<u32>) -> bool {
    match hint {
        Some(id) => lemma.id.0 == id,
        None => true,
    }
}

/// The first ending at or after `from` that explains the form under the
/// lemma.
pub open spec fn first_ending(
    surface: Seq<char>,
    lemma_text: Seq<char>,
    endings: Seq<(u32, String)>,
    from: int,
) -> Option<int>
    decreases endings.len() - from,
{
    if from < 0 || from >= endings.len() {
        None
    } else if ending_applies(surface, lemma_text, endings[from].1@) {
        Some(from)
    } else {
        first_ending(surface, lemma_text, endings, from + 1)
    }
}

/// The first paradigm at or after `from` with an ending that explains the
/// form under the lemma, and that ending.
pub open spec fn first_paradigm(
    surface: Seq<char>,
    lemma_text: Seq<char>,
    paradigms: Seq<Paradigm>,
    from: int,
) -> Option<(int, int)>
    decreases paradigms.len() - from,
{
    if from < 0 || from >= paradigms.len() {
        None
    } else {
        match first_ending(surface, lemma_text, paradigms[from].endings@, 0) {
            Some(e) => Some((from, e)),
            None => first_paradigm(surface, lemma_text, paradigms, from + 1),
        }
    }
}

/// The first match of the search, in its order: lemma by lemma, for each
/// lemma paradigm by paradigm, for each paradigm ending by ending.
pub open spec fn first_match(dict: Dictionary, surface: Seq<char>, hint: Option<u32>, from: int)
    -> Option<(int, int, int)>
    decreases dict.lemmas@.len() - from,
{
    if from < 0 || from >= dict.lemmas@.len() {
        None
    } else if !is_candidate(dict.lemmas@[from], hint) {
        first_match(dict, surface, hint, from + 1)
    } else {
        match first_paradigm(surface, dict.lemmas@[from].text@, dict.paradigms@, 0) {
            Some((p, e)) => Some((from, p, e)),
            None => first_match(dict, surface, hint, from + 1),
        }
    }
}

/// A lemma is related to a form when one of the two texts begins the other.
pub open spec fn is_related(lemma_text: Seq<char>, surface: Seq<char>) -> bool {
    is_prefix(lemma_text, surface) || is_prefix(surface, lemma_text)
}

/// The first lemma at or after `from` that is related to the form.
pub open spec fn first_related(lemmas: Seq<Lemma>, surface: Seq<char>, from: int) -> Option<int>
    decreases lemmas.len() - from,
{
    if from < 0 || from >= lemmas.len() {
        None
    } else if is_related(lemmas[from].text@, surface) {
        Some(from)
    } else {
        first_related(lemmas, surface, from + 1)
    }
}

/// What `first_ending` finds explains the form, and no ending before it
/// does; it finds nothing only where no ending explains the form.
pub proof fn lemma_first_ending(
    surface: Seq<char>,
    lemma_text: Seq<char>,
    endings: Seq<(u32, String)>,
    from: int,
)
    requires
        0 <= from,
    ensures
        match first_ending(surface, lemma_text, endings, from) {
            Some(e) => from <= e < endings.len() && ending_applies(
                surface,
                lemma_text,
                endings[e].1@,
            ) && forall|j: int|
                from <= j < e ==> !ending_applies(surface, lemma_text, (#[trigger] endings[j]).1@),
            None => forall|j: int|
                from <= j < endings.len() ==> !ending_applies(
                    surface,
                    lemma_text,
                    (#[trigger] endings[j]).1@,
                ),
        },
    decreases endings.len() - from,
{
    if from < endings.len() && !ending_applies(surface, lemma_text, endings[from].1@) {
        lemma_first_ending(surface, lemma_text, endings, from + 1);
    }
}

/// What `first_paradigm` finds is a paradigm with its first explaining
/// ending, and no paradigm before it has one.
pub proof fn lemma_first_paradigm(
    surface: Seq<char>,
    lemma_text: Seq<char>,
    paradigms: Seq<Paradigm>,
    from: int,
)
    requires
        0 <= from,
    ensures
        match first_paradigm(surface, lemma_text, paradigms, from) {
            Some((p, e)) => from <= p < paradigms.len() && first_ending(
                surface,
                lemma_text,
                paradigms[p].endings@,
                0,
            ) == Some(e) && forall|j: int|
                from <= j < p ==> first_ending(
                    surface,
                    lemma_text,
                    (#[trigger] paradigms[j]).endings@,
                    0,
                ) is None,
            None => forall|j: int|
                from <= j < paradigms.len() ==> first_ending(
                    surface,
                    lemma_text,
                    (#[trigger] paradigms[j]).endings@,
                    0,
                ) is None,
        },
    decreases paradigms.len() - from,
{
    if from < paradigms.len() && first_ending(surface, lemma_text, paradigms[from].endings@, 0)
        is None {
        lemma_first_paradigm(surface, lemma_text, paradigms, from + 1);
    }
}

/// What `first_match` finds is a candidate lemma with its first explaining
/// paradigm and ending, and no candidate lemma before it has one.
pub proof fn lemma_first_match(dict: Dictionary, surface: Seq<char>, hint: Option<u32>, from: int)
    requires
        0 <= from,
    ensures
        match first_match(dict, surface, hint, from) {
            Some((l, p, e)) => from <= l < dict.lemmas@.len() && is_candidate(
                dict.lemmas@[l],
                hint,
            ) && first_paradigm(surface, dict.lemmas@[l].text@, dict.paradigms@, 0) == Some((p, e))
                && forall|j: int|
                from <= j < l && is_candidate(#[trigger] dict.lemmas@[j], hint) ==> first_paradigm(
                    surface,
                    dict.lemmas@[j].text@,
                    dict.paradigms@,
                    0,
                ) is None,
            None => forall|j: int|
                from <= j < dict.lemmas@.len() && is_candidate(#[trigger] dict.lemmas@[j], hint)
                    ==> first_paradigm(surface, dict.lemmas@[j].text@, dict.paradigms@, 0) is None,
        },
    decreases dict.lemmas@.len() - from,
{
    if from < dict.lemmas@.len() {
        if !is_candidate(dict.lemmas@[from], hint) || first_paradigm(
            surface,
            dict.lemmas@[from].text@,
            dict.paradigms@,
            0,
        ) is None {
            lemma_first_match(dict, surface, hint, from + 1);
        }
    }
}

// ---------------------------------------------------------------------------
// The analysis
// ---------------------------------------------------------------------------

pub open spec fn matched_message(stem: Seq<char>, suffix: Seq<char>, lemma_text: Seq<char>) -> Seq<
    char,
> {
    "Matched! Stem: '"@ + stem + "', Suffix: '"@ + suffix + "', Lemma: '"@ + lemma_text + "'"@
}

pub open spec fn recovered_message(lemma_text: Seq<char>) -> Seq<char> {
    "Recovered via raw prefix match against '"@ + lemma_text + "'"@
}

pub open spec fn no_match_message(surface: Seq<char>) -> Seq<char> {
    "No match found for '"@ + surface + "'"@
}

/// The analysis of a surface form.
///
/// 1. The first ending that explains the form gives its flags, its lemma
///    and its stem.
/// 2. Failing that, a hinted lemma is kept, with no flags.
/// 3. Failing that, the first lemma related to the form is taken, with no
///    flags, as a recovery.
/// 4. Failing that, and for the empty form, the form is unknown.
///
/// Where several endings explain a form, the first in the dictionary's order
/// wins.
pub open spec fn resolution(dict: Dictionary, surface: Seq<char>, hint: Option<u32>)
    -> MorphAnalysisView {
    if surface.len() == 0 {
        unknown_analysis(no_match_message(surface))
    } else {
        match first_match(dict, surface, hint, 0) {
            Some((l, p, e)) => {
                let lemma = dict.lemmas@[l];
                let ending = dict.paradigms@[p].endings@[e];
                let stem = stem_of(surface, ending.1@.len());
                MorphAnalysisView {
                    flags: MorphFlags { bits: ending.0 & MorphFlags::ALL },
                    lemma_id: Some(lemma.id),
                    debug_msg: matched_message(stem, ending.1@, lemma.text@),
                    stem,
                    kind: "Word"@,
                }
            },
            None => match hint {
                Some(id) => MorphAnalysisView {
                    flags: MorphFlags { bits: 0 },
                    lemma_id: Some(LemmaId(id)),
                    debug_msg: "indeclinable or no rule applied"@,
                    stem: surface,
                    kind: "Word"@,
                },
                None => match first_related(dict.lemmas@, surface, 0) {
                    Some(l) => MorphAnalysisView {
                        flags: MorphFlags { bits: 0 },
                        lemma_id: Some(dict.lemmas@[l].id),
                        debug_msg: recovered_message(dict.lemmas@[l].text@),
                        stem: surface,
                        kind: "Word(Recovered)"@,
                    },
                    None => unknown_analysis(no_match_message(surface)),
                },
            },
        }
    }
}

/// The analysis depends on nothing but the dictionary, the form and the
/// hint: two analyses of the same input are the same.
pub proof fn lemma_resolution_deterministic(
    dict: Dictionary,
    surface: Seq<char>,
    hint: Option<u32>,
    first: MorphAnalysisView,
    second: MorphAnalysisView,
)
    requires
        first == resolution(dict, surface, hint),
        second == resolution(dict, surface, hint),
    ensures
        first == second,
{
}

fn find_ending(surface: &Vec<char>, lemma_text: &Vec<char>, endings: &Vec<(u32, String)>) -> (r:
    Option<usize>)
    ensures
        match r {
            Some(e) => first_ending(surface@, lemma_text@, endings@, 0) == Some(e as int),
            None => first_ending(surface@, lemma_text@, endings@, 0) is None,
        },
{
    let mut e: usize = 0;
    while e < endings.len()
        invariant
            e <= endings@.len(),
            first_ending(surface@, lemma_text@, endings@, 0) == first_ending(
                surface@,
                lemma_text@,
                endings@,
                e as int,
            ),
        decreases endings@.len() - e,
    {
        let suffix = chars_of(endings[e].1.as_str());
        if ends_with(surface, &suffix) {
            let stem_len = surface.len() - suffix.len();
            let mut stem: Vec<char> = Vec::new();
            let mut i: usize = 0;
            while i < stem_len
                invariant
                    stem_len <= surface@.len(),
                    i <= stem_len,
                    stem@ == surface@.take(i as int),
                decreases stem_len - i,
            {
                stem.push(surface[i]);
                assert(surface@.take(i + 1) =~= surface@.take(i as int).push(surface@[i as int]));
                i = i + 1;
            }
            if starts_with(lemma_text, &stem) {
                return Some(e);
            }
        }
        e = e + 1;
    }
    None
}

fn find_paradigm(surface: &Vec<char>, lemma_text: &Vec<char>, paradigms: &Vec<Paradigm>) -> (r:
    Option<(usize, usize)>)
    ensures
        match r {
            Some((p, e)) => first_paradigm(surface@, lemma_text@, paradigms@, 0) == Some(
                (p as int, e as int),
            ),
            None => first_paradigm(surface@, lemma_text@, paradigms@, 0) is None,
        },
{
    let mut p: usize = 0;
    while p < paradigms.len()
        invariant
            p <= paradigms@.len(),
            first_paradigm(surface@, lemma_text@, paradigms@, 0) == first_paradigm(
                surface@,
                lemma_text@,
                paradigms@,
                p as int,
            ),
        decreases paradigms@.len() - p,
    {
        if let Some(e) = find_ending(surface, lemma_text, &paradigms[p].endings) {
            return Some((p, e));
        }
        p = p + 1;
    }
    None
}

fn find_match(dict: &Dictionary, surface: &Vec<char>, hint: Option<u32>) -> (r: Option<
    (usize, usize, usize),
>)
    ensures
        match r {
            Some((l, p, e)) => first_match(*dict, surface@, hint, 0) == Some(
                (l as int, p as int, e as int),
            ) && l < dict.lemmas@.len() && p < dict.paradigms@.len() && e
                < dict.paradigms@[p as int].endings@.len() && ending_applies(
                surface@,
                dict.lemmas@[l as int].text@,
                dict.paradigms@[p as int].endings@[e as int].1@,
            ),
            None => first_match(*dict, surface@, hint, 0) is None,
        },
{
    let mut l: usize = 0;
    while l < dict.lemmas.len()
        invariant
            l <= dict.lemmas@.len(),
            first_match(*dict, surface@, hint, 0) == first_match(*dict, surface@, hint, l as int),
        decreases dict.lemmas@.len() - l,
    {
        let candidate = match hint {
            Some(id) => dict.lemmas[l].id.0 == id,
            None => true,
        };
        if candidate {
            let lemma_text = chars_of(dict.lemmas[l].text.as_str());
            if let Some((p, e)) = find_paradigm(surface, &lemma_text, &dict.paradigms) {
                proof {
                    lemma_first_paradigm(surface@, lemma_text@, dict.paradigms@, 0);
                    lemma_first_ending(surface@, lemma_text@, dict.paradigms@[p as int].endings@, 0);
                }
                return Some((l, p, e));
            }
        }
        l = l + 1;
    }
    None
}

fn find_related(lemmas: &Vec<Lemma>, surface: &Vec<char>) -> (r: Option<usize>)
    ensures
        match r {
            Some(l) => first_related(lemmas@, surface@, 0) == Some(l as int) && l < lemmas@.len(),
            None => first_related(lemmas@, surface@, 0) is None,
        },
{
    let mut l: usize = 0;
    while l < lemmas.len()
        invariant
            l <= lemmas@.len(),
            first_related(lemmas@, surface@, 0) == first_related(lemmas@, surface@, l as int),
        decreases lemmas@.len() - l,
    {
        let lemma_text = chars_of(lemmas[l].text.as_str());
        if starts_with(surface, &lemma_text) || starts_with(&lemma_text, surface) {
            return Some(l);
        }
        l = l + 1;
    }
    None
}

fn no_match(token_text: &str) -> (r: MorphAnalysis)
    ensures
        r@ == unknown_analysis(no_match_message(token_text@)),
{
    let mut debug = String::from_str("No match found for '");
    debug.append(token_text);
    debug.append("'");
    MorphAnalysis::unknown(debug)
}

/// Resolves a surface form against the dictionary; `known_lemma_id` is the
/// lemma that an earlier lookup found for it, if any.
pub fn resolve_morphology(dict: &Dictionary, token_text: &str, known_lemma_id: Option<u32>) -> (r:
    MorphAnalysis)
    ensures
        r@ == resolution(*dict, token_text@, known_lemma_id),
{
    let surface = chars_of(token_text);
    if surface.len() == 0 {
        return no_match(token_text);
    }
    if let Some((l, p, e)) = find_match(dict, &surface, known_lemma_id) {
        let lemma = &dict.lemmas[l];
        let bits = dict.paradigms[p].endings[e].0;
        let suffix = dict.paradigms[p].endings[e].1.as_str();
        let stem_len = surface.len() - suffix.unicode_len();
        let stem = token_text.substring_char(0, stem_len);
        let mut debug = String::from_str("Matched! Stem: '");
        debug.append(stem);
        debug.append("', Suffix: '");
        debug.append(suffix);
        debug.append("', Lemma: '");
        debug.append(lemma.text.as_str());
        debug.append("'");
        return MorphAnalysis {
            flags: MorphFlags::from_bits_truncate(bits),
            lemma_id: Some(LemmaId(lemma.id.0)),
            debug_msg: debug,
            stem: String::from_str(stem),
            kind: String::from_str("Word"),
        };
    }
    if let Some(id) = known_lemma_id {
        return MorphAnalysis {
            flags: MorphFlags::empty(),
            lemma_id: Some(LemmaId(id)),
            debug_msg: String::from_str("indeclinable or no rule applied"),
            stem: String::from_str(token_text),
            kind: String::from_str("Word"),
        };
    }
    if let Some(l) = find_related(&dict.lemmas, &surface) {
        let lemma = &dict.lemmas[l];
        let mut debug = String::from_str("Recovered via raw prefix match against '");
        debug.append(lemma.text.as_str());
        debug.append("'");
        return MorphAnalysis {
            flags: MorphFlags::empty(),
            lemma_id: Some(LemmaId(lemma.id.0)),
            debug_msg: debug,
            stem: String::from_str(token_text),
            kind: String::from_str("Word(Recovered)"),
        };
    }
    no_match(token_text)
}

} // verus!
