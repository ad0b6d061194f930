//! Generation of an inflected form from a lemma and a paradigm.

use vstd::prelude::*;
use vstd::string::StringExecFns;
use crate::protocol::model::{Lemma, Paradigm};
use crate::protocol::morphology::MorphFlags;

verus! {

#[derive(Debug)]
pub enum MorphError {
    /// The paradigm has no ending for these flags.
    FormNotFound(MorphFlags),
}

impl MorphError {
    pub open spec fn message_text(&self) -> Seq<char> {
        match self {
            MorphError::FormNotFound(flags) => "Form not found for flags: "@ + flags.described(),
        }
    }

    /// The error as a line of text.
    pub fn to_string(&self) -> (r: String)
        ensures
            r@ == self.message_text(),
    {
        match self {
            MorphError::FormNotFound(flags) => {
                let mut out = String::from_str("Form not found for flags: ");
                let names = flags.describe();
                out.append(names.as_str());
                out
            },
        }
    }
}

/// The index of the first ending at or after `from` whose flags are exactly
/// `bits`.
pub open spec fn first_ending_for(endings: Seq<(u32, String)>, bits: u32, from: int) -> Option<int>
    decreases endings.len() - from,
{
    if from < 0 || from >= endings.len() {
        None
    } else if endings[from].0 == bits {
        Some(from)
    } else {
        first_ending_for(endings, bits, from + 1)
    }
}

/// The form that `generate` builds: the lemma's text followed by the suffix
/// of the first ending whose flags are exactly `bits`.
pub open spec fn generated_form(lemma_text: Seq<char>, endings: Seq<(u32, String)>, bits: u32)
    -> Option<Seq<char>> {
    match first_ending_for(endings, bits, 0) {
        Some(k) => Some(lemma_text + endings[k].1@),
        None => None,
    }
}

/// What `first_ending_for` finds is an ending for `bits` with none before it;
/// it finds nothing only where no ending is for `bits`.
pub proof fn lemma_first_ending_is_first(endings: Seq<(u32, String)>, bits: u32, from: int)
    requires
        0 <= from,
    ensures
        match first_ending_for(endings, bits, from) {
            Some(k) => from <= k < endings.len() && endings[k].0 == bits && forall|j: int|
                from <= j < k ==> endings[j].0 != bits,
            None => forall|j: int| from <= j < endings.len() ==> endings[j].0 != bits,
        },
    decreases endings.len() - from,
{
    if from < endings.len() && endings[from].0 != bits {
        lemma_first_ending_is_first(endings, bits, from + 1);
    }
}

/// Generates a word form by joining the lemma's text and the suffix that the
/// paradigm gives for exactly these flags.
pub fn generate(lemma: &Lemma, paradigm: &Paradigm, flags: MorphFlags) -> (r: Result<
    String,
    MorphError,
>)
    ensures
        match r {
            Ok(form) => generated_form(lemma.text@, paradigm.endings@, flags@) == Some(form@),
            Err(e) => generated_form(lemma.text@, paradigm.endings@, flags@) is None && e
                == MorphError::FormNotFound(flags),
        },
{
    let mut i: usize = 0;
    while i < paradigm.endings.len()
        invariant
            i <= paradigm.endings@.len(),
            first_ending_for(paradigm.endings@, flags@, 0) == first_ending_for(
                paradigm.endings@,
                flags@,
                i as int,
            ),
        decreases paradigm.endings@.len() - i,
    {
        if paradigm.endings[i].0 == flags.bits() {
            let mut form = lemma.text.clone();
            form.append(paradigm.endings[i].1.as_str());
            return Ok(form);
        }
        i = i + 1;
    }
    Err(MorphError::FormNotFound(flags))
}

} // verus!
