use vstd::prelude::*;
use vstd::string::StringExecFns;

verus! {

#[derive(Debug, Clone, Copy, PartialEq, Eq, Structural, Hash)]
pub enum Case {
    Nominative,
    Genitive,
    Accusative,
    Vocative,
    Dative,
}

#[derive(Debug, Clone, Copy, PartialEq, Eq, Structural, Hash)]
pub enum Gender {
    Masculine,
    Feminine,
    Neuter,
}

#[derive(Debug, Clone, Copy, PartialEq, Eq, Structural, Hash)]
pub enum Number {
    Singular,
    Plural,
}

#[derive(Debug, Clone, Copy, PartialEq, Eq, Structural, Hash)]
pub enum Person {
    First,
    Second,
    Third,
}

#[derive(Debug, Clone, Copy, PartialEq, Eq, Structural, Hash)]
pub enum Voice {
    Active,
    Passive,
}

#[derive(Debug, Clone, Copy, PartialEq, Eq, Structural, Hash)]
pub enum Tense {
    Present,
    Future,
    Aorist,
    Imperfect,
    Perfect,
    Pluperfect,
    FuturePerfect,
}

#[derive(Debug, Clone, Copy, PartialEq, Eq, Structural, Hash)]
pub enum Mood {
    Indicative,
    Subjunctive,
    Imperative,
    Participle,
}

#[derive(Debug, Clone, Copy, PartialEq, Eq, Structural, Hash)]
pub enum PartOfSpeech {
    Noun,
    Adjective,
    Verb,
    Adverb,
    Article,
    Preposition,
    Conjunction,
    Pronoun,
    Particle,
    Numeral,
}

/// A set of morphological tags, one bit each.
///
/// The bits fall into groups whose members exclude one another (case, gender,
/// number, person, voice, tense), followed by the category markers. An empty
/// group means "unspecified". The masks are plain `u32` values, so a
/// combination is written `MorphFlags::NOMINATIVE | MorphFlags::SINGULAR` and
/// turned into a flag set with [`MorphFlags::from_bits_truncate`].
#[derive(Debug, Clone, Copy, PartialEq, Eq, Structural, Hash, PartialOrd, Ord)]
pub struct MorphFlags {
    pub bits: u32,
}

impl MorphFlags {
    // Case
    pub const NOMINATIVE: u32 = 0x1;
    pub const GENITIVE: u32 = 0x2;
    pub const ACCUSATIVE: u32 = 0x4;
    pub const VOCATIVE: u32 = 0x8;

    // Gender
    pub const MASCULINE: u32 = 0x10;
    pub const FEMININE: u32 = 0x20;
    pub const NEUTER: u32 = 0x40;

    // Number
    pub const SINGULAR: u32 = 0x80;
    pub const PLURAL: u32 = 0x100;

    // Person
    pub const FIRST_PERSON: u32 = 0x200;
    pub const SECOND_PERSON: u32 = 0x400;
    pub const THIRD_PERSON: u32 = 0x800;

    // Voice
    pub const ACTIVE: u32 = 0x1000;
    pub const PASSIVE: u32 = 0x2000;

    // Tense
    pub const PRESENT: u32 = 0x4000;
    pub const PAST: u32 = 0x8000;
    pub const FUTURE: u32 = 0x1_0000;

    // Case, continued
    pub const DATIVE: u32 = 0x2_0000;

    // Category markers
    pub const NOUN: u32 = 0x4_0000;
    pub const ADJECTIVE: u32 = 0x8_0000;
    pub const ARTICLE: u32 = 0x10_0000;
    pub const PREPOSITION: u32 = 0x20_0000;
    pub const CONJUNCTION: u32 = 0x40_0000;
    pub const PRONOUN: u32 = 0x80_0000;
    pub const RELATIVE: u32 = 0x100_0000;
    pub const PARTICIPLE: u32 = 0x200_0000;
    pub const INFINITIVE: u32 = 0x400_0000;
    pub const VERB: u32 = 0x800_0000;

    /// Every bit that names a flag.
    pub const ALL: u32 = 0xFFF_FFFF;

    /// The five cases.
    pub const CASE_MASK: u32 = 0x2_000F;
    /// The three genders.
    pub const GENDER_MASK: u32 = 0x70;
    /// Singular and plural.
    pub const NUMBER_MASK: u32 = 0x180;
    /// The three persons.
    pub const PERSON_MASK: u32 = 0xE00;
    /// Active and passive.
    pub const VOICE_MASK: u32 = 0x3000;
    /// Present, past and future.
    pub const TENSE_MASK: u32 = 0x1_C000;
    /// Voice, tense and person: what only a finite verb carries.
    pub const FINITE_MASK: u32 = 0x1_FE00;

    /// How many flags have a name.
    pub const COUNT: usize = 28;

    pub open spec fn view(&self) -> u32 {
        self.bits
    }

    /// All of `mask` is set.
    pub open spec fn has(&self, mask: u32) -> bool {
        self.bits & mask == mask
    }

    /// Some bit of `mask` is set.
    pub open spec fn has_any(&self, mask: u32) -> bool {
        self.bits & mask != 0
    }

    /// The part of the set that lies in `mask`.
    pub open spec fn masked(&self, mask: u32) -> u32 {
        self.bits & mask
    }

    /// At most one member of each group is set: of case, gender, number,
    /// person, voice and tense.
    pub open spec fn well_formed(&self) -> bool {
        let case = self.masked(MorphFlags::CASE_MASK);
        let gender = self.masked(MorphFlags::GENDER_MASK);
        let number = self.masked(MorphFlags::NUMBER_MASK);
        let person = self.masked(MorphFlags::PERSON_MASK);
        let voice = self.masked(MorphFlags::VOICE_MASK);
        let tense = self.masked(MorphFlags::TENSE_MASK);
        &&& (case == 0 || case == MorphFlags::NOMINATIVE || case == MorphFlags::GENITIVE || case
            == MorphFlags::ACCUSATIVE || case == MorphFlags::VOCATIVE || case == MorphFlags::DATIVE)
        &&& (gender == 0 || gender == MorphFlags::MASCULINE || gender == MorphFlags::FEMININE
            || gender == MorphFlags::NEUTER)
        &&& (number == 0 || number == MorphFlags::SINGULAR || number == MorphFlags::PLURAL)
        &&& (person == 0 || person == MorphFlags::FIRST_PERSON || person
            == MorphFlags::SECOND_PERSON || person == MorphFlags::THIRD_PERSON)
        &&& (voice == 0 || voice == MorphFlags::ACTIVE || voice == MorphFlags::PASSIVE)
        &&& (tense == 0 || tense == MorphFlags::PRESENT || tense == MorphFlags::PAST || tense
            == MorphFlags::FUTURE)
    }

    /// Whether at most one member of each group is set.
    pub fn is_well_formed(&self) -> (r: bool)
        ensures
            r == self.well_formed(),
    {
        let case = self.bits & MorphFlags::CASE_MASK;
        let gender = self.bits & MorphFlags::GENDER_MASK;
        let number = self.bits & MorphFlags::NUMBER_MASK;
        let person = self.bits & MorphFlags::PERSON_MASK;
        let voice = self.bits & MorphFlags::VOICE_MASK;
        let tense = self.bits & MorphFlags::TENSE_MASK;
        (case == 0 || case == MorphFlags::NOMINATIVE || case == MorphFlags::GENITIVE || case
            == MorphFlags::ACCUSATIVE || case == MorphFlags::VOCATIVE || case == MorphFlags::DATIVE)
            && (gender == 0 || gender == MorphFlags::MASCULINE || gender == MorphFlags::FEMININE
            || gender == MorphFlags::NEUTER) && (number == 0 || number == MorphFlags::SINGULAR
            || number == MorphFlags::PLURAL) && (person == 0 || person == MorphFlags::FIRST_PERSON
            || person == MorphFlags::SECOND_PERSON || person == MorphFlags::THIRD_PERSON) && (voice
            == 0 || voice == MorphFlags::ACTIVE || voice == MorphFlags::PASSIVE) && (tense == 0
            || tense == MorphFlags::PRESENT || tense == MorphFlags::PAST || tense
            == MorphFlags::FUTURE)
    }

    /// The masks of the groups are the unions of their members, and the
    /// named flags are the 28 lowest bits.
    pub proof fn lemma_masks()
        ensures
            MorphFlags::CASE_MASK == MorphFlags::NOMINATIVE | MorphFlags::GENITIVE
                | MorphFlags::ACCUSATIVE | MorphFlags::VOCATIVE | MorphFlags::DATIVE,
            MorphFlags::GENDER_MASK == MorphFlags::MASCULINE | MorphFlags::FEMININE
                | MorphFlags::NEUTER,
            MorphFlags::NUMBER_MASK == MorphFlags::SINGULAR | MorphFlags::PLURAL,
            MorphFlags::PERSON_MASK == MorphFlags::FIRST_PERSON | MorphFlags::SECOND_PERSON
                | MorphFlags::THIRD_PERSON,
            MorphFlags::VOICE_MASK == MorphFlags::ACTIVE | MorphFlags::PASSIVE,
            MorphFlags::TENSE_MASK == MorphFlags::PRESENT | MorphFlags::PAST | MorphFlags::FUTURE,
            MorphFlags::FINITE_MASK == MorphFlags::PERSON_MASK | MorphFlags::VOICE_MASK
                | MorphFlags::TENSE_MASK,
            MorphFlags::ALL == MorphFlags::CASE_MASK | MorphFlags::GENDER_MASK
                | MorphFlags::NUMBER_MASK | MorphFlags::FINITE_MASK | MorphFlags::NOUN
                | MorphFlags::ADJECTIVE | MorphFlags::ARTICLE | MorphFlags::PREPOSITION
                | MorphFlags::CONJUNCTION | MorphFlags::PRONOUN | MorphFlags::RELATIVE
                | MorphFlags::PARTICIPLE | MorphFlags::INFINITIVE | MorphFlags::VERB,
    {
        assert(0x2_000Fu32 == 0x1u32 | 0x2u32 | 0x4u32 | 0x8u32 | 0x2_0000u32) by (bit_vector);
        assert(0x70u32 == 0x10u32 | 0x20u32 | 0x40u32) by (bit_vector);
        assert(0x180u32 == 0x80u32 | 0x100u32) by (bit_vector);
        assert(0xE00u32 == 0x200u32 | 0x400u32 | 0x800u32) by (bit_vector);
        assert(0x3000u32 == 0x1000u32 | 0x2000u32) by (bit_vector);
        assert(0x1_C000u32 == 0x4000u32 | 0x8000u32 | 0x1_0000u32) by (bit_vector);
        assert(0x1_FE00u32 == 0xE00u32 | 0x3000u32 | 0x1_C000u32) by (bit_vector);
        assert(0xFFF_FFFFu32 == 0x2_000Fu32 | 0x70u32 | 0x180u32 | 0x1_FE00u32 | 0x4_0000u32
            | 0x8_0000u32 | 0x10_0000u32 | 0x20_0000u32 | 0x40_0000u32 | 0x80_0000u32
            | 0x100_0000u32 | 0x200_0000u32 | 0x400_0000u32 | 0x800_0000u32) by (bit_vector);
    }

    pub fn empty() -> (r: MorphFlags)
        ensures
            r@ == 0,
    {
        MorphFlags { bits: 0 }
    }

    /// The flag set with the bits of `bits` that name a flag; other bits are
    /// dropped.
    pub fn from_bits_truncate(bits: u32) -> (r: MorphFlags)
        ensures
            r@ == bits & MorphFlags::ALL,
    {
        MorphFlags { bits: bits & MorphFlags::ALL }
    }

    /// The flag set with exactly the bits of `bits`, unless one of them names
    /// no flag.
    pub fn from_bits(bits: u32) -> (r: Option<MorphFlags>)
        ensures
            r == if bits & MorphFlags::ALL == bits {
                Some(MorphFlags { bits })
            } else {
                None
            },
    {
        if bits & MorphFlags::ALL == bits {
            Some(MorphFlags { bits })
        } else {
            None
        }
    }

    pub fn bits(&self) -> (r: u32)
        ensures
            r == self@,
    {
        self.bits
    }

    pub fn is_empty(&self) -> (r: bool)
        ensures
            r == (self@ == 0),
    {
        self.bits == 0
    }

    #[verifier::when_used_as_spec(has)]
    pub fn contains(&self, mask: u32) -> (r: bool)
        ensures
            r == self.has(mask),
    {
        self.bits & mask == mask
    }

    #[verifier::when_used_as_spec(has_any)]
    pub fn intersects(&self, mask: u32) -> (r: bool)
        ensures
            r == self.has_any(mask),
    {
        self.bits & mask != 0
    }

    pub fn intersection(&self, mask: u32) -> (r: MorphFlags)
        ensures
            r@ == self.masked(mask),
    {
        MorphFlags { bits: self.bits & mask }
    }

    pub fn union(&self, mask: u32) -> (r: MorphFlags)
        ensures
            r@ == self@ | mask,
    {
        MorphFlags { bits: self.bits | mask }
    }

    /// The mask of the `k`-th named flag, lowest bit first.
    pub open spec fn flag_mask(k: int) -> u32 {
        if k == 0 {
            MorphFlags::NOMINATIVE
        } else if k == 1 {
            MorphFlags::GENITIVE
        } else if k == 2 {
            MorphFlags::ACCUSATIVE
        } else if k == 3 {
            MorphFlags::VOCATIVE
        } else if k == 4 {
            MorphFlags::MASCULINE
        } else if k == 5 {
            MorphFlags::FEMININE
        } else if k == 6 {
            MorphFlags::NEUTER
        } else if k == 7 {
            MorphFlags::SINGULAR
        } else if k == 8 {
            MorphFlags::PLURAL
        } else if k == 9 {
            MorphFlags::FIRST_PERSON
        } else if k == 10 {
            MorphFlags::SECOND_PERSON
        } else if k == 11 {
            MorphFlags::THIRD_PERSON
        } else if k == 12 {
            MorphFlags::ACTIVE
        } else if k == 13 {
            MorphFlags::PASSIVE
        } else if k == 14 {
            MorphFlags::PRESENT
        } else if k == 15 {
            MorphFlags::PAST
        } else if k == 16 {
            MorphFlags::FUTURE
        } else if k == 17 {
            MorphFlags::DATIVE
        } else if k == 18 {
            MorphFlags::NOUN
        } else if k == 19 {
            MorphFlags::ADJECTIVE
        } else if k == 20 {
            MorphFlags::ARTICLE
        } else if k == 21 {
            MorphFlags::PREPOSITION
        } else if k == 22 {
            MorphFlags::CONJUNCTION
        } else if k == 23 {
            MorphFlags::PRONOUN
        } else if k == 24 {
            MorphFlags::RELATIVE
        } else if k == 25 {
            MorphFlags::PARTICIPLE
        } else if k == 26 {
            MorphFlags::INFINITIVE
        } else {
            MorphFlags::VERB
        }
    }

    /// The name of the `k`-th named flag.
    pub open spec fn flag_name(k: int) -> Seq<char> {
        if k == 0 {
            "NOMINATIVE"@
        } else if k == 1 {
            "GENITIVE"@
        } else if k == 2 {
            "ACCUSATIVE"@
        } else if k == 3 {
            "VOCATIVE"@
        } else if k == 4 {
            "MASCULINE"@
        } else if k == 5 {
            "FEMININE"@
        } else if k == 6 {
            "NEUTER"@
        } else if k == 7 {
            "SINGULAR"@
        } else if k == 8 {
            "PLURAL"@
        } else if k == 9 {
            "FIRST_PERSON"@
        } else if k == 10 {
            "SECOND_PERSON"@
        } else if k == 11 {
            "THIRD_PERSON"@
        } else if k == 12 {
            "ACTIVE"@
        } else if k == 13 {
            "PASSIVE"@
        } else if k == 14 {
            "PRESENT"@
        } else if k == 15 {
            "PAST"@
        } else if k == 16 {
            "FUTURE"@
        } else if k == 17 {
            "DATIVE"@
        } else if k == 18 {
            "NOUN"@
        } else if k == 19 {
            "ADJECTIVE"@
        } else if k == 20 {
            "ARTICLE"@
        } else if k == 21 {
            "PREPOSITION"@
        } else if k == 22 {
            "CONJUNCTION"@
        } else if k == 23 {
            "PRONOUN"@
        } else if k == 24 {
            "RELATIVE"@
        } else if k == 25 {
            "PARTICIPLE"@
        } else if k == 26 {
            "INFINITIVE"@
        } else {
            "VERB"@
        }
    }

    /// The names of the flags among the first `k` that are set, joined by
    /// `" | "`, and whether there was any.
    pub open spec fn described_upto(&self, k: int) -> (Seq<char>, bool)
        decreases k,
    {
        if k <= 0 {
            (Seq::<char>::empty(), false)
        } else {
            let before = self.described_upto(k - 1);
            if self.has(MorphFlags::flag_mask(k - 1)) {
                if before.1 {
                    (before.0 + " | "@ + MorphFlags::flag_name(k - 1), true)
                } else {
                    (MorphFlags::flag_name(k - 1), true)
                }
            } else {
                before
            }
        }
    }

    /// The names of the set flags, lowest bit first, joined by `" | "`.
    pub open spec fn described(&self) -> Seq<char> {
        self.described_upto(MorphFlags::COUNT as int).0
    }

    fn mask_at(k: usize) -> (r: u32)
        requires
            k < MorphFlags::COUNT,
        ensures
            r == MorphFlags::flag_mask(k as int),
    {
        if k == 0 {
            MorphFlags::NOMINATIVE
        } else if k == 1 {
            MorphFlags::GENITIVE
        } else if k == 2 {
            MorphFlags::ACCUSATIVE
        } else if k == 3 {
            MorphFlags::VOCATIVE
        } else if k == 4 {
            MorphFlags::MASCULINE
        } else if k == 5 {
            MorphFlags::FEMININE
        } else if k == 6 {
            MorphFlags::NEUTER
        } else if k == 7 {
            MorphFlags::SINGULAR
        } else if k == 8 {
            MorphFlags::PLURAL
        } else if k == 9 {
            MorphFlags::FIRST_PERSON
        } else if k == 10 {
            MorphFlags::SECOND_PERSON
        } else if k == 11 {
            MorphFlags::THIRD_PERSON
        } else if k == 12 {
            MorphFlags::ACTIVE
        } else if k == 13 {
            MorphFlags::PASSIVE
        } else if k == 14 {
            MorphFlags::PRESENT
        } else if k == 15 {
            MorphFlags::PAST
        } else if k == 16 {
            MorphFlags::FUTURE
        } else if k == 17 {
            MorphFlags::DATIVE
        } else if k == 18 {
            MorphFlags::NOUN
        } else if k == 19 {
            MorphFlags::ADJECTIVE
        } else if k == 20 {
            MorphFlags::ARTICLE
        } else if k == 21 {
            MorphFlags::PREPOSITION
        } else if k == 22 {
            MorphFlags::CONJUNCTION
        } else if k == 23 {
            MorphFlags::PRONOUN
        } else if k == 24 {
            MorphFlags::RELATIVE
        } else if k == 25 {
            MorphFlags::PARTICIPLE
        } else if k == 26 {
            MorphFlags::INFINITIVE
        } else {
            MorphFlags::VERB
        }
    }

    fn name_at(k: usize) -> (r: &'static str)
        requires
            k < MorphFlags::COUNT,
        ensures
            r@ == MorphFlags::flag_name(k as int),
    {
        if k == 0 {
            "NOMINATIVE"
        } else if k == 1 {
            "GENITIVE"
        } else if k == 2 {
            "ACCUSATIVE"
        } else if k == 3 {
            "VOCATIVE"
        } else if k == 4 {
            "MASCULINE"
        } else if k == 5 {
            "FEMININE"
        } else if k == 6 {
            "NEUTER"
        } else if k == 7 {
            "SINGULAR"
        } else if k == 8 {
            "PLURAL"
        } else if k == 9 {
            "FIRST_PERSON"
        } else if k == 10 {
            "SECOND_PERSON"
        } else if k == 11 {
            "THIRD_PERSON"
        } else if k == 12 {
            "ACTIVE"
        } else if k == 13 {
            "PASSIVE"
        } else if k == 14 {
            "PRESENT"
        } else if k == 15 {
            "PAST"
        } else if k == 16 {
            "FUTURE"
        } else if k == 17 {
            "DATIVE"
        } else if k == 18 {
            "NOUN"
        } else if k == 19 {
            "ADJECTIVE"
        } else if k == 20 {
            "ARTICLE"
        } else if k == 21 {
            "PREPOSITION"
        } else if k == 22 {
            "CONJUNCTION"
        } else if k == 23 {
            "PRONOUN"
        } else if k == 24 {
            "RELATIVE"
        } else if k == 25 {
            "PARTICIPLE"
        } else if k == 26 {
            "INFINITIVE"
        } else {
            "VERB"
        }
    }

    /// The names of the set flags, lowest bit first, joined by `" | "`; the
    /// empty string for the empty set.
    pub fn describe(&self) -> (r: String)
        ensures
            r@ == self.described(),
    {
        let mut out = String::new();
        let mut any = false;
        let mut k: usize = 0;
        while k < MorphFlags::COUNT
            invariant
                k <= MorphFlags::COUNT,
                (out@, any) == self.described_upto(k as int),
            decreases MorphFlags::COUNT - k,
        {
            if self.contains(MorphFlags::mask_at(k)) {
                if any {
                    out.append(" | ");
                    out.append(MorphFlags::name_at(k));
                } else {
                    out = String::from_str(MorphFlags::name_at(k));
                }
                any = true;
            }
            k = k + 1;
        }
        out
    }
}

} // verus!
