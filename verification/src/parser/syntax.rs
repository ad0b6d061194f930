//! The greedy dependency parser: one pass from left to right over the
//! morph-tagged tokens, never backtracking.
//!
//! The parser is a small state machine. [`spec_step`] is its transition
//! function, [`parse_prefix`] runs it over the first tokens of a sentence, and
//! [`parse_edges`] is the edge list that [`parse_greedy`] returns.

use vstd::prelude::*;
use crate::protocol::morphology::MorphFlags;
use crate::text::same_text;

verus! {

#[derive(Debug, Clone, Copy)]
pub struct MorphToken<'a> {
    pub text: &'a str,
    pub flags: MorphFlags,
}

/// A [`MorphToken`] with its text as a character sequence.
pub struct MorphTokenView {
    pub text: Seq<char>,
    pub flags: MorphFlags,
}

impl<'a> View for MorphToken<'a> {
    type V = MorphTokenView;

    open spec fn view(&self) -> MorphTokenView {
        MorphTokenView { text: self.text@, flags: self.flags }
    }
}

/// The views of a sequence of tokens.
pub open spec fn token_views(tokens: Seq<MorphToken>) -> Seq<MorphTokenView> {
    tokens.map_values(|t: MorphToken| t@)
}

#[derive(Debug, Clone, Copy, PartialEq, Eq, Structural)]
pub enum SyntaxRole {
    Subject,
    Object,
    /// Dative target.
    IndirectObject,
    /// Article or adjective of a following noun, or a genitive modifier.
    Modifier,
    /// The main verb.
    Root,
    /// Argument of a preposition.
    PrepositionArg,
    /// The conjunction itself.
    Coordinator,
    /// The element that a conjunction coordinates.
    Conjunct,
    /// "By X" in a passive clause.
    PassiveAgent,
    /// Genitive absolute.
    AbsoluteClause,
    /// Infinitive complement.
    Complement,
    /// Relative clause, linked to its antecedent.
    RelativeClause,
    /// No role; the parser never assigns it.
    Unassigned,
}

/// An edge of the dependency tree: the token at `dependent_index` hangs from
/// the token at `head_index`.
#[derive(Debug, Clone, Copy, PartialEq, Eq, Structural)]
pub struct Dependency {
    pub head_index: usize,
    pub dependent_index: usize,
    pub role: SyntaxRole,
}

/// What the parser carries from one token to the next.
pub struct ParserModel {
    /// The edges decided so far, in the order of decision.
    pub deps: Seq<Dependency>,
    /// The verb that heads the clause being read.
    pub clause_head: usize,
    /// The last preposition that still waits for its argument.
    pub open_preposition: Option<usize>,
    /// Articles and adjectives seen since the last head noun.
    pub pending_modifiers: Seq<usize>,
    /// The most recent head noun.
    pub last_noun: Option<usize>,
    /// The head of the last conjunction, until the next head noun takes it.
    pub coordination_head: Option<usize>,
    /// A relative pronoun and its antecedent, until the next finite verb.
    pub pending_relative: Option<(usize, usize)>,
}

// ---------------------------------------------------------------------------
// Predicates on one token
// ---------------------------------------------------------------------------

/// A finite verb: it carries voice, tense or person, and is no noun.
pub open spec fn spec_is_verb(flags: MorphFlags) -> bool {
    flags.has_any(MorphFlags::FINITE_MASK) && !flags.has(MorphFlags::NOUN)
}

pub open spec fn spec_has_case(flags: MorphFlags) -> bool {
    flags.has_any(MorphFlags::CASE_MASK)
}

/// A modifier agrees with a head: same case (any case, where the head is an
/// infinitive), and the same gender and number wherever both state one.
pub open spec fn spec_agrees(modifier: MorphFlags, head: MorphFlags) -> bool {
    &&& (modifier.masked(MorphFlags::CASE_MASK) == head.masked(MorphFlags::CASE_MASK) || head.has(
        MorphFlags::INFINITIVE,
    ))
    &&& (modifier.masked(MorphFlags::GENDER_MASK) == 0 || head.masked(MorphFlags::GENDER_MASK) == 0
        || modifier.masked(MorphFlags::GENDER_MASK) == head.masked(MorphFlags::GENDER_MASK))
    &&& (modifier.masked(MorphFlags::NUMBER_MASK) == 0 || head.masked(MorphFlags::NUMBER_MASK) == 0
        || modifier.masked(MorphFlags::NUMBER_MASK) == head.masked(MorphFlags::NUMBER_MASK))
}

/// Anything with a case, and infinitives, which act as nouns.
pub open spec fn spec_is_nominal(flags: MorphFlags) -> bool {
    spec_has_case(flags) || flags.has(MorphFlags::INFINITIVE)
}

/// A nominal that heads a phrase: marked as a noun, or neither article nor
/// adjective.
pub open spec fn spec_is_head_noun(flags: MorphFlags) -> bool {
    flags.has(MorphFlags::NOUN) || (!flags.has(MorphFlags::ARTICLE) && !flags.has(
        MorphFlags::ADJECTIVE,
    ))
}

pub fn is_verb(token: &MorphToken) -> (r: bool)
    ensures
        r == spec_is_verb(token.flags),
{
    token.flags.intersects(MorphFlags::FINITE_MASK) && !token.flags.contains(MorphFlags::NOUN)
}

pub fn has_case(token: &MorphToken) -> (r: bool)
    ensures
        r == spec_has_case(token.flags),
{
    token.flags.intersects(MorphFlags::CASE_MASK)
}

pub fn check_agreement(mod_token: &MorphToken, head_token: &MorphToken) -> (r: bool)
    ensures
        r == spec_agrees(mod_token.flags, head_token.flags),
{
    let m = mod_token.flags;
    let h = head_token.flags;
    let case_match = m.intersection(MorphFlags::CASE_MASK).bits() == h.intersection(
        MorphFlags::CASE_MASK,
    ).bits() || h.contains(MorphFlags::INFINITIVE);
    let m_gender = m.intersection(MorphFlags::GENDER_MASK);
    let h_gender = h.intersection(MorphFlags::GENDER_MASK);
    let gender_match = m_gender.is_empty() || h_gender.is_empty() || m_gender.bits()
        == h_gender.bits();
    let m_number = m.intersection(MorphFlags::NUMBER_MASK);
    let h_number = h.intersection(MorphFlags::NUMBER_MASK);
    let number_match = m_number.is_empty() || h_number.is_empty() || m_number.bits()
        == h_number.bits();
    case_match && gender_match && number_match
}

// ---------------------------------------------------------------------------
// The root
// ---------------------------------------------------------------------------

/// No token before position `k` is a finite verb.
pub open spec fn no_verb_before(tokens: Seq<MorphTokenView>, k: int) -> bool {
    forall|j: int| 0 <= j < k && j < tokens.len() ==> !spec_is_verb(#[trigger] tokens[j].flags)
}

/// `r` is the root of the sentence: the first finite verb, or position 0
/// where there is none.
pub open spec fn is_root(tokens: Seq<MorphTokenView>, r: int) -> bool {
    if no_verb_before(tokens, tokens.len() as int) {
        r == 0
    } else {
        0 <= r < tokens.len() && spec_is_verb(tokens[r].flags) && no_verb_before(tokens, r)
    }
}

/// The root of the sentence.
pub open spec fn root_index(tokens: Seq<MorphTokenView>) -> usize {
    choose|r: usize| is_root(tokens, r as int)
}

/// A sentence has exactly one root.
pub proof fn lemma_root_unique(tokens: Seq<MorphTokenView>, r: usize)
    requires
        is_root(tokens, r as int),
    ensures
        root_index(tokens) == r,
{
    let c = root_index(tokens);
    assert(is_root(tokens, c as int));
    if !no_verb_before(tokens, tokens.len() as int) {
        if c < r {
            assert(!spec_is_verb(tokens[c as int].flags));
        } else if r < c {
            assert(!spec_is_verb(tokens[r as int].flags));
        }
    }
}

/// Every sentence has a root.
pub proof fn lemma_root_exists(tokens: Seq<MorphTokenView>, k: int)
    requires
        0 <= k <= tokens.len() <= usize::MAX,
        no_verb_before(tokens, k),
    ensures
        is_root(tokens, root_index(tokens) as int),
        tokens.len() > 0 ==> root_index(tokens) < tokens.len(),
    decreases tokens.len() - k,
{
    if k == tokens.len() {
        assert(is_root(tokens, 0usize as int));
    } else if spec_is_verb(tokens[k].flags) {
        assert(is_root(tokens, (k as usize) as int));
    } else {
        lemma_root_exists(tokens, k + 1);
    }
}

fn find_root(tokens: &[MorphToken]) -> (r: usize)
    ensures
        is_root(token_views(tokens@), r as int),
        r == root_index(token_views(tokens@)),
        tokens@.len() > 0 ==> r < tokens@.len(),
{
    let mut i: usize = 0;
    while i < tokens.len()
        invariant
            i <= tokens@.len(),
            no_verb_before(token_views(tokens@), i as int),
        decreases tokens@.len() - i,
    {
        if is_verb(&tokens[i]) {
            proof {
                lemma_root_unique(token_views(tokens@), i);
            }
            return i;
        }
        i = i + 1;
    }
    proof {
        lemma_root_unique(token_views(tokens@), 0);
    }
    0
}

// ---------------------------------------------------------------------------
// The transition function
// ---------------------------------------------------------------------------

pub open spec fn edge(head: usize, dependent: usize, role: SyntaxRole) -> Dependency {
    Dependency { head_index: head, dependent_index: dependent, role }
}

/// The state before the first token: nothing is open, and the clause in
/// scope is the main clause.
pub open spec fn initial_model(root: usize) -> ParserModel {
    ParserModel {
        deps: Seq::empty(),
        clause_head: root,
        open_preposition: None,
        pending_modifiers: Seq::empty(),
        last_noun: None,
        coordination_head: None,
        pending_relative: None,
    }
}

/// The preposition "by" under a passive clause head introduces the agent.
pub open spec fn spec_is_passive_agent(tokens: Seq<MorphTokenView>, st: ParserModel, i: usize) -> bool {
    (tokens[i as int].text == "υπό"@ || tokens[i as int].text == "ὑπό"@)
        && tokens[st.clause_head as int].flags.has(MorphFlags::PASSIVE)
}

/// A preposition hangs from the clause head and then waits for its argument.
pub open spec fn step_preposition(tokens: Seq<MorphTokenView>, st: ParserModel, i: usize)
    -> ParserModel {
    let role = if spec_is_passive_agent(tokens, st, i) {
        SyntaxRole::PassiveAgent
    } else {
        SyntaxRole::Modifier
    };
    ParserModel {
        deps: st.deps.push(edge(st.clause_head, i, role)),
        open_preposition: Some(i),
        ..st
    }
}

/// What a conjunction hangs from: the last head noun, else the clause head.
pub open spec fn coordination_target(st: ParserModel) -> usize {
    match st.last_noun {
        Some(n) => n,
        None => st.clause_head,
    }
}

/// A conjunction hangs from its target, which the next head noun joins as a
/// conjunct.
pub open spec fn step_conjunction(st: ParserModel, i: usize) -> ParserModel {
    let head = coordination_target(st);
    ParserModel {
        deps: st.deps.push(edge(head, i, SyntaxRole::Coordinator)),
        coordination_head: Some(head),
        ..st
    }
}

/// A relative pronoun takes the last head noun as antecedent and waits for
/// its verb; without a noun before it, it is passed over.
pub open spec fn step_relative(st: ParserModel, i: usize) -> ParserModel {
    match st.last_noun {
        Some(antecedent) => ParserModel { pending_relative: Some((i, antecedent)), ..st },
        None => st,
    }
}

/// The role of a relative pronoun under its verb, by the pronoun's case.
pub open spec fn pronoun_role(flags: MorphFlags) -> SyntaxRole {
    if flags.has(MorphFlags::NOMINATIVE) {
        SyntaxRole::Subject
    } else if flags.has(MorphFlags::ACCUSATIVE) {
        SyntaxRole::Object
    } else {
        SyntaxRole::Modifier
    }
}

/// A finite verb other than the root closes a pending relative pronoun: the
/// verb hangs from the antecedent, the pronoun from the verb, and the verb
/// heads the clause from here on. Without a pending pronoun it floats.
pub open spec fn step_verb(tokens: Seq<MorphTokenView>, st: ParserModel, i: usize) -> ParserModel {
    match st.pending_relative {
        Some((pronoun, antecedent)) => ParserModel {
            deps: st.deps.push(edge(antecedent, i, SyntaxRole::RelativeClause)).push(
                edge(i, pronoun, pronoun_role(tokens[pronoun as int].flags)),
            ),
            clause_head: i,
            pending_relative: None,
            ..st
        },
        None => st,
    }
}

/// The test that a pending modifier passes when it agrees with token `i`.
pub open spec fn agrees_with(tokens: Seq<MorphTokenView>, i: usize) -> spec_fn(usize) -> bool {
    |m: usize| spec_agrees(tokens[m as int].flags, tokens[i as int].flags)
}

/// The test that a pending modifier passes when it stays pending.
pub open spec fn disagrees_with(tokens: Seq<MorphTokenView>, i: usize) -> spec_fn(usize) -> bool {
    |m: usize| !spec_agrees(tokens[m as int].flags, tokens[i as int].flags)
}

/// The edge that hangs a modifier from head noun `i`.
pub open spec fn modifier_edge(i: usize) -> spec_fn(usize) -> Dependency {
    |m: usize| edge(i, m, SyntaxRole::Modifier)
}

/// The pending modifiers that agree with head noun `i`, in order.
pub open spec fn matched_modifiers(tokens: Seq<MorphTokenView>, st: ParserModel, i: usize) -> Seq<
    usize,
> {
    st.pending_modifiers.filter(agrees_with(tokens, i))
}

/// Some token among `indices` carries all of `mask`.
pub open spec fn any_has(tokens: Seq<MorphTokenView>, indices: Seq<usize>, mask: u32) -> bool {
    exists|j: int| 0 <= j < indices.len() && (#[trigger] tokens[indices[j] as int]).flags.has(mask)
}

/// Head noun `i` takes the pending modifiers that agree with it; the others
/// stay pending.
pub open spec fn attach_modifiers(tokens: Seq<MorphTokenView>, st: ParserModel, i: usize)
    -> ParserModel {
    ParserModel {
        deps: st.deps + matched_modifiers(tokens, st, i).map_values(modifier_edge(i)),
        pending_modifiers: st.pending_modifiers.filter(disagrees_with(tokens, i)),
        ..st
    }
}

/// The position at or after `from` of the first edge whose dependent is
/// `dependent`.
pub open spec fn first_edge_of(deps: Seq<Dependency>, dependent: usize, from: int) -> Option<int>
    decreases deps.len() - from,
{
    if from < 0 || from >= deps.len() {
        None
    } else if deps[from].dependent_index == dependent {
        Some(from)
    } else {
        first_edge_of(deps, dependent, from + 1)
    }
}

/// The edge list with the edge of `dependent` rewritten in place: it now
/// hangs from `head` as its subject. Without such an edge nothing changes.
pub open spec fn relink(deps: Seq<Dependency>, dependent: usize, head: usize) -> Seq<Dependency> {
    match first_edge_of(deps, dependent, 0) {
        Some(k) => deps.update(k, edge(head, dependent, SyntaxRole::Subject)),
        None => deps,
    }
}

/// A genitive participle after an agreeing genitive noun opens a genitive
/// absolute.
pub open spec fn spec_is_genitive_absolute(tokens: Seq<MorphTokenView>, st: ParserModel, i: usize)
    -> bool {
    let flags = tokens[i as int].flags;
    flags.has(MorphFlags::GENITIVE) && match st.last_noun {
        Some(n) => tokens[n as int].flags.has(MorphFlags::GENITIVE) && spec_agrees(
            flags,
            tokens[n as int].flags,
        ),
        None => false,
    }
}

/// What an ordinary participle hangs from: the last head noun where it
/// agrees with it, the clause head where it does not, the root where there
/// is no noun.
pub open spec fn participle_head(tokens: Seq<MorphTokenView>, root: usize, st: ParserModel, i: usize)
    -> usize {
    match st.last_noun {
        Some(n) => if spec_agrees(tokens[i as int].flags, tokens[n as int].flags) {
            n
        } else {
            st.clause_head
        },
        None => root,
    }
}

pub open spec fn attach_participle(
    tokens: Seq<MorphTokenView>,
    root: usize,
    st: ParserModel,
    i: usize,
) -> ParserModel {
    if spec_is_genitive_absolute(tokens, st, i) {
        ParserModel {
            deps: relink(st.deps, st.last_noun->0, i).push(
                edge(st.clause_head, i, SyntaxRole::AbsoluteClause),
            ),
            ..st
        }
    } else {
        ParserModel {
            deps: st.deps.push(edge(participle_head(tokens, root, st, i), i, SyntaxRole::Modifier)),
            ..st
        }
    }
}

/// An infinitive with an agreeing article before it is articular and stands
/// as subject or object, by the article's case, or as the argument of an open
/// preposition. A bare infinitive is a complement of the clause head, and an
/// accusative noun before it becomes its subject.
pub open spec fn attach_infinitive(
    tokens: Seq<MorphTokenView>,
    st: ParserModel,
    i: usize,
    matched: Seq<usize>,
) -> ParserModel {
    if any_has(tokens, matched, MorphFlags::ARTICLE) {
        let role = if any_has(tokens, matched, MorphFlags::NOMINATIVE) {
            SyntaxRole::Subject
        } else {
            SyntaxRole::Object
        };
        match st.open_preposition {
            Some(p) => ParserModel {
                deps: st.deps.push(edge(p, i, SyntaxRole::PrepositionArg)),
                open_preposition: None,
                ..st
            },
            None => ParserModel { deps: st.deps.push(edge(st.clause_head, i, role)), ..st },
        }
    } else {
        let relinked = match st.last_noun {
            Some(n) => if tokens[n as int].flags.has(MorphFlags::ACCUSATIVE) {
                relink(st.deps, n, i)
            } else {
                st.deps
            },
            None => st.deps,
        };
        ParserModel {
            deps: relinked.push(edge(st.clause_head, i, SyntaxRole::Complement)),
            ..st
        }
    }
}

/// The edge of a plain head noun, by its case.
pub open spec fn case_edge(st: ParserModel, flags: MorphFlags, i: usize) -> Dependency {
    if flags.has(MorphFlags::NOMINATIVE) {
        edge(st.clause_head, i, SyntaxRole::Subject)
    } else if flags.has(MorphFlags::ACCUSATIVE) {
        edge(st.clause_head, i, SyntaxRole::Object)
    } else if flags.has(MorphFlags::GENITIVE) {
        edge(coordination_target(st), i, SyntaxRole::Modifier)
    } else if flags.has(MorphFlags::DATIVE) {
        edge(st.clause_head, i, SyntaxRole::IndirectObject)
    } else {
        edge(st.clause_head, i, SyntaxRole::Modifier)
    }
}

/// Head noun `i` is attached by the first rule that applies: as a conjunct,
/// as the argument of an open preposition, as a participle, as an
/// infinitive, or by its case.
pub open spec fn attach_head(
    tokens: Seq<MorphTokenView>,
    root: usize,
    st: ParserModel,
    i: usize,
    matched: Seq<usize>,
) -> ParserModel {
    let flags = tokens[i as int].flags;
    if let Some(c) = st.coordination_head {
        ParserModel {
            deps: st.deps.push(edge(c, i, SyntaxRole::Conjunct)),
            coordination_head: None,
            ..st
        }
    } else if let Some(p) = st.open_preposition {
        ParserModel {
            deps: st.deps.push(edge(p, i, SyntaxRole::PrepositionArg)),
            open_preposition: None,
            ..st
        }
    } else if flags.has(MorphFlags::PARTICIPLE) {
        attach_participle(tokens, root, st, i)
    } else if flags.has(MorphFlags::INFINITIVE) {
        attach_infinitive(tokens, st, i, matched)
    } else {
        ParserModel { deps: st.deps.push(case_edge(st, flags, i)), ..st }
    }
}

/// A head noun takes its modifiers, is attached, and becomes the last noun.
pub open spec fn step_head_noun(tokens: Seq<MorphTokenView>, root: usize, st: ParserModel, i: usize)
    -> ParserModel {
    let matched = matched_modifiers(tokens, st, i);
    let attached = attach_head(tokens, root, attach_modifiers(tokens, st, i), i, matched);
    ParserModel { last_noun: Some(i), ..attached }
}

/// The state after token `i`, from the state before it. The root is passed
/// over; any other token is dispatched by the first class that it falls in:
/// preposition, conjunction, relative pronoun, finite verb, nominal.
pub open spec fn spec_step(tokens: Seq<MorphTokenView>, root: usize, st: ParserModel, i: usize)
    -> ParserModel {
    let flags = tokens[i as int].flags;
    if i == root {
        st
    } else if flags.has(MorphFlags::PREPOSITION) {
        step_preposition(tokens, st, i)
    } else if flags.has(MorphFlags::CONJUNCTION) {
        step_conjunction(st, i)
    } else if flags.has(MorphFlags::RELATIVE) {
        step_relative(st, i)
    } else if spec_is_verb(flags) {
        step_verb(tokens, st, i)
    } else if spec_is_nominal(flags) {
        if spec_is_head_noun(flags) {
            step_head_noun(tokens, root, st, i)
        } else {
            ParserModel { pending_modifiers: st.pending_modifiers.push(i), ..st }
        }
    } else {
        st
    }
}

/// The state after the first `k` tokens.
pub open spec fn parse_prefix(tokens: Seq<MorphTokenView>, root: usize, k: nat) -> ParserModel
    decreases k,
{
    if k == 0 {
        initial_model(root)
    } else {
        spec_step(tokens, root, parse_prefix(tokens, root, (k - 1) as nat), (k - 1) as usize)
    }
}

/// The dependency edges of a sentence, in the order in which the attachments
/// are decided.
pub open spec fn parse_edges(tokens: Seq<MorphTokenView>) -> Seq<Dependency> {
    parse_prefix(tokens, root_index(tokens), tokens.len()).deps
}

// ---------------------------------------------------------------------------
// What every state of the pass satisfies
// ---------------------------------------------------------------------------

/// Every edge joins two different tokens of a sentence of `n` tokens.
pub open spec fn edges_in_range(deps: Seq<Dependency>, n: nat) -> bool {
    forall|e: int|
        0 <= e < deps.len() ==> {
            &&& (#[trigger] deps[e]).head_index < n
            &&& deps[e].dependent_index < n
            &&& deps[e].head_index != deps[e].dependent_index
        }
}

/// No token is the dependent of two edges.
pub open spec fn one_edge_per_dependent(deps: Seq<Dependency>) -> bool {
    forall|a: int, b: int|
        0 <= a < b < deps.len() ==> (#[trigger] deps[a]).dependent_index != (
        #[trigger] deps[b]).dependent_index
}

/// Token `d` is the dependent of no edge.
pub open spec fn no_edge_for(deps: Seq<Dependency>, d: usize) -> bool {
    forall|e: int| 0 <= e < deps.len() ==> (#[trigger] deps[e]).dependent_index != d
}

/// Every dependent stands before position `k`.
pub open spec fn dependents_below(deps: Seq<Dependency>, k: nat) -> bool {
    forall|e: int| 0 <= e < deps.len() ==> (#[trigger] deps[e]).dependent_index < k
}

/// The pending modifiers are tokens already read, none of them the root,
/// none of them attached yet, none of them twice in the list.
pub open spec fn pending_ok(st: ParserModel, root: usize, k: nat) -> bool {
    &&& forall|j: int|
        0 <= j < st.pending_modifiers.len() ==> {
            &&& (#[trigger] st.pending_modifiers[j]) < k
            &&& st.pending_modifiers[j] != root
            &&& no_edge_for(st.deps, st.pending_modifiers[j])
        }
    &&& st.pending_modifiers.no_duplicates()
}

/// What holds of the parser's state after `k` tokens of a sentence of `n`
/// tokens with the given root.
pub open spec fn model_ok(n: nat, root: usize, st: ParserModel, k: nat) -> bool {
    &&& root < n
    &&& k <= n
    &&& edges_in_range(st.deps, n)
    &&& one_edge_per_dependent(st.deps)
    &&& no_edge_for(st.deps, root)
    &&& dependents_below(st.deps, k)
    &&& st.clause_head < n
    &&& (st.clause_head == root || st.clause_head < k)
    &&& (st.open_preposition matches Some(p) ==> p < k)
    &&& (st.last_noun matches Some(x) ==> x < k)
    &&& (st.coordination_head matches Some(c) ==> c < n && (c == root || c < k))
    &&& (st.pending_relative matches Some((p, a)) ==> p < k && a < k && p != root && no_edge_for(
        st.deps,
        p,
    ) && !st.pending_modifiers.contains(p))
    &&& pending_ok(st, root, k)
}

proof fn lemma_filter_witness(s: Seq<usize>, pred: spec_fn(usize) -> bool, j: int)
    requires
        0 <= j < s.filter(pred).len(),
    ensures
        pred(s.filter(pred)[j]),
        s.contains(s.filter(pred)[j]),
{
    s.lemma_filter_pred(pred, j);
    assert(s.filter(pred).contains(s.filter(pred)[j]));
    s.lemma_filter_contains_rev(pred, s.filter(pred)[j]);
}

proof fn lemma_filter_no_duplicates(s: Seq<usize>, pred: spec_fn(usize) -> bool)
    requires
        s.no_duplicates(),
    ensures
        s.filter(pred).no_duplicates(),
    decreases s.len(),
{
    reveal(Seq::filter);
    if s.len() > 0 {
        let front = s.drop_last();
        lemma_filter_no_duplicates(front, pred);
        if pred(s.last()) {
            let kept = front.filter(pred);
            assert forall|j: int| 0 <= j < kept.len() implies kept[j] != s.last() by {
                lemma_filter_witness(front, pred, j);
                let q = choose|q: int| 0 <= q < front.len() && front[q] == kept[j];
                assert(s[q] == kept[j]);
            }
        }
    }
}

/// After a head noun has taken its modifiers the state is still sound.
proof fn lemma_attach_modifiers_ok(
    tokens: Seq<MorphTokenView>,
    root: usize,
    st: ParserModel,
    i: usize,
)
    requires
        model_ok(tokens.len(), root, st, i as nat),
        i < tokens.len(),
        i != root,
    ensures
        model_ok(tokens.len(), root, attach_modifiers(tokens, st, i), i as nat),
        forall|j: int|
            0 <= j < matched_modifiers(tokens, st, i).len() ==> (#[trigger] matched_modifiers(
                tokens,
                st,
                i,
            )[j]) < i,
{
    let n = tokens.len();
    let pending = st.pending_modifiers;
    let matched = matched_modifiers(tokens, st, i);
    let rest = pending.filter(disagrees_with(tokens, i));
    let next = attach_modifiers(tokens, st, i);
    let added = matched.map_values(modifier_edge(i));
    lemma_filter_no_duplicates(pending, agrees_with(tokens, i));
    lemma_filter_no_duplicates(pending, disagrees_with(tokens, i));
    assert forall|j: int| 0 <= j < matched.len() implies (#[trigger] matched[j]) < i
        && matched[j] != root && no_edge_for(st.deps, matched[j]) && agrees_with(tokens, i)(
        matched[j],
    ) by {
        lemma_filter_witness(pending, agrees_with(tokens, i), j);
        let q = choose|q: int| 0 <= q < pending.len() && pending[q] == matched[j];
        assert(pending[q] < i);
    }
    assert forall|j: int| 0 <= j < rest.len() implies (#[trigger] rest[j]) < i && rest[j] != root
        && no_edge_for(st.deps, rest[j]) && pending.contains(rest[j]) && !agrees_with(tokens, i)(
        rest[j],
    ) by {
        lemma_filter_witness(pending, disagrees_with(tokens, i), j);
        let q = choose|q: int| 0 <= q < pending.len() && pending[q] == rest[j];
        assert(pending[q] < i);
    }
    assert forall|e: int| 0 <= e < next.deps.len() implies {
        &&& (#[trigger] next.deps[e]).head_index < n
        &&& next.deps[e].dependent_index < n
        &&& next.deps[e].head_index != next.deps[e].dependent_index
        &&& next.deps[e].dependent_index != root
        &&& next.deps[e].dependent_index < i
    } by {
        if e < st.deps.len() {
            assert(next.deps[e] == st.deps[e]);
        } else {
            assert(next.deps[e] == added[e - st.deps.len()]);
            assert(matched[e - st.deps.len()] < i);
        }
    }
    assert forall|a: int, b: int| 0 <= a < b < next.deps.len() implies (
    #[trigger] next.deps[a]).dependent_index != (#[trigger] next.deps[b]).dependent_index by {
        if b < st.deps.len() {
            assert(next.deps[a] == st.deps[a]);
            assert(next.deps[b] == st.deps[b]);
        } else if a < st.deps.len() {
            assert(next.deps[a] == st.deps[a]);
            assert(next.deps[b] == added[b - st.deps.len()]);
            assert(no_edge_for(st.deps, matched[b - st.deps.len()]));
        } else {
            assert(next.deps[a] == added[a - st.deps.len()]);
            assert(next.deps[b] == added[b - st.deps.len()]);
        }
    }
    assert forall|d: usize|
        no_edge_for(st.deps, d) && !matched.contains(d) implies no_edge_for(next.deps, d) by {
        assert forall|e: int| 0 <= e < next.deps.len() implies (
        #[trigger] next.deps[e]).dependent_index != d by {
            if e < st.deps.len() {
                assert(next.deps[e] == st.deps[e]);
            } else {
                assert(next.deps[e] == added[e - st.deps.len()]);
                assert(matched[e - st.deps.len()] != d);
            }
        }
    }
    assert forall|j: int| 0 <= j < rest.len() implies no_edge_for(next.deps, #[trigger] rest[j]) by {
        assert(!agrees_with(tokens, i)(rest[j]));
        if matched.contains(rest[j]) {
            let q = choose|q: int| 0 <= q < matched.len() && matched[q] == rest[j];
            assert(agrees_with(tokens, i)(matched[q]));
        }
    }
    if let Some((p, a)) = st.pending_relative {
        if matched.contains(p) {
            let q = choose|q: int| 0 <= q < matched.len() && matched[q] == p;
            lemma_filter_witness(pending, agrees_with(tokens, i), q);
        }
        if rest.contains(p) {
            let q = choose|q: int| 0 <= q < rest.len() && rest[q] == p;
            assert(pending.contains(rest[q]));
        }
    }
}

/// Rewriting the edge of a dependent keeps every dependent in its place.
proof fn lemma_relink_shape(deps: Seq<Dependency>, dependent: usize, head: usize)
    ensures
        relink(deps, dependent, head).len() == deps.len(),
        forall|e: int|
            0 <= e < deps.len() ==> (#[trigger] relink(deps, dependent, head)[e]).dependent_index
                == deps[e].dependent_index,
        forall|e: int|
            0 <= e < deps.len() ==> (#[trigger] relink(deps, dependent, head)[e]) == deps[e]
                || relink(deps, dependent, head)[e] == edge(head, dependent, SyntaxRole::Subject),
{
    lemma_first_edge_of(deps, dependent, 0);
}

/// What `first_edge_of` finds is an edge of `dependent` with none before it;
/// it finds nothing only where `dependent` has no edge.
pub proof fn lemma_first_edge_of(deps: Seq<Dependency>, dependent: usize, from: int)
    requires
        0 <= from,
    ensures
        match first_edge_of(deps, dependent, from) {
            Some(k) => from <= k < deps.len() && deps[k].dependent_index == dependent
                && forall|j: int| from <= j < k ==> (#[trigger] deps[j]).dependent_index != dependent,
            None => forall|j: int|
                from <= j < deps.len() ==> (#[trigger] deps[j]).dependent_index != dependent,
        },
    decreases deps.len() - from,
{
    if from < deps.len() && deps[from].dependent_index != dependent {
        lemma_first_edge_of(deps, dependent, from + 1);
    }
}

/// Rewriting the edge of an earlier token to hang from token `i` keeps the
/// state sound.
proof fn lemma_relink_ok(n: nat, root: usize, st: ParserModel, i: usize, dependent: usize)
    requires
        model_ok(n, root, st, i as nat),
        i < n,
        dependent < i,
    ensures
        model_ok(n, root, ParserModel { deps: relink(st.deps, dependent, i), ..st }, i as nat),
{
    let next = relink(st.deps, dependent, i);
    lemma_relink_shape(st.deps, dependent, i);
    assert forall|e: int| 0 <= e < next.len() implies {
        &&& (#[trigger] next[e]).head_index < n
        &&& next[e].dependent_index < n
        &&& next[e].head_index != next[e].dependent_index
    } by {
        assert(next[e].dependent_index == st.deps[e].dependent_index);
        assert(next[e] == st.deps[e] || next[e] == edge(i, dependent, SyntaxRole::Subject));
    }
    assert forall|a: int, b: int| 0 <= a < b < next.len() implies (
    #[trigger] next[a]).dependent_index != (#[trigger] next[b]).dependent_index by {
        assert(next[a].dependent_index == st.deps[a].dependent_index);
        assert(next[b].dependent_index == st.deps[b].dependent_index);
    }
    assert forall|d: usize| no_edge_for(st.deps, d) implies no_edge_for(next, d) by {
        assert forall|e: int| 0 <= e < next.len() implies (#[trigger] next[e]).dependent_index
            != d by {
            assert(next[e].dependent_index == st.deps[e].dependent_index);
        }
    }
    assert forall|e: int| 0 <= e < next.len() implies (#[trigger] next[e]).dependent_index < i by {
        assert(next[e].dependent_index == st.deps[e].dependent_index);
    }
}

/// One more edge, whose dependent is the token being read, keeps the state
/// sound.
proof fn lemma_push_ok(n: nat, root: usize, st: ParserModel, i: usize, head: usize, role: SyntaxRole)
    requires
        model_ok(n, root, st, i as nat),
        i < n,
        i != root,
        head < n,
        head != i,
    ensures
        model_ok(n, root, ParserModel { deps: st.deps.push(edge(head, i, role)), ..st }, i as nat + 1),
{
    let next = st.deps.push(edge(head, i, role));
    assert forall|a: int, b: int| 0 <= a < b < next.len() implies (
    #[trigger] next[a]).dependent_index != (#[trigger] next[b]).dependent_index by {
        if b < st.deps.len() {
        } else {
            assert(next[a] == st.deps[a]);
            assert(st.deps[a].dependent_index < i);
        }
    }
    assert forall|d: usize| d != i && no_edge_for(st.deps, d) implies no_edge_for(next, d) by {
        assert forall|e: int| 0 <= e < next.len() implies (#[trigger] next[e]).dependent_index
            != d by {
            if e < st.deps.len() {
                assert(next[e] == st.deps[e]);
            }
        }
    }
    assert forall|e: int| 0 <= e < next.len() implies {
        &&& (#[trigger] next[e]).head_index < n
        &&& next[e].dependent_index < n
        &&& next[e].head_index != next[e].dependent_index
        &&& next[e].dependent_index < i + 1
    } by {
        if e < st.deps.len() {
            assert(next[e] == st.deps[e]);
        }
    }
    assert forall|j: int| 0 <= j < st.pending_modifiers.len() implies no_edge_for(
        next,
        #[trigger] st.pending_modifiers[j],
    ) by {
        assert(st.pending_modifiers[j] < i);
    }
}

/// Forgetting what is open keeps the state sound.
proof fn lemma_close_ok(n: nat, root: usize, st: ParserModel, k: nat)
    requires
        model_ok(n, root, st, k),
    ensures
        model_ok(n, root, ParserModel { coordination_head: None, ..st }, k),
        model_ok(n, root, ParserModel { open_preposition: None, ..st }, k),
        model_ok(n, root, ParserModel { pending_relative: None, ..st }, k),
{
}

/// A head noun, once its modifiers are taken, is attached soundly.
proof fn lemma_attach_head_ok(
    tokens: Seq<MorphTokenView>,
    root: usize,
    st: ParserModel,
    i: usize,
    matched: Seq<usize>,
)
    requires
        model_ok(tokens.len(), root, st, i as nat),
        i < tokens.len(),
        i != root,
    ensures
        model_ok(
            tokens.len(),
            root,
            ParserModel { last_noun: Some(i), ..attach_head(tokens, root, st, i, matched) },
            i as nat + 1,
        ),
{
    let n = tokens.len();
    let flags = tokens[i as int].flags;
    let k = i as nat;
    lemma_close_ok(n, root, st, k);
    if let Some(c) = st.coordination_head {
        lemma_push_ok(n, root, ParserModel { coordination_head: None, ..st }, i, c, SyntaxRole::Conjunct);
    } else if let Some(p) = st.open_preposition {
        lemma_push_ok(
            n,
            root,
            ParserModel { open_preposition: None, ..st },
            i,
            p,
            SyntaxRole::PrepositionArg,
        );
    } else if flags.has(MorphFlags::PARTICIPLE) {
        if spec_is_genitive_absolute(tokens, st, i) {
            let noun = st.last_noun->0;
            lemma_relink_ok(n, root, st, i, noun);
            lemma_push_ok(
                n,
                root,
                ParserModel { deps: relink(st.deps, noun, i), ..st },
                i,
                st.clause_head,
                SyntaxRole::AbsoluteClause,
            );
        } else {
            lemma_push_ok(n, root, st, i, participle_head(tokens, root, st, i), SyntaxRole::Modifier);
        }
    } else if flags.has(MorphFlags::INFINITIVE) {
        if any_has(tokens, matched, MorphFlags::ARTICLE) {
            let role = if any_has(tokens, matched, MorphFlags::NOMINATIVE) {
                SyntaxRole::Subject
            } else {
                SyntaxRole::Object
            };
            lemma_push_ok(n, root, st, i, st.clause_head, role);
        } else {
            match st.last_noun {
                Some(noun) => {
                    if tokens[noun as int].flags.has(MorphFlags::ACCUSATIVE) {
                        lemma_relink_ok(n, root, st, i, noun);
                        lemma_push_ok(
                            n,
                            root,
                            ParserModel { deps: relink(st.deps, noun, i), ..st },
                            i,
                            st.clause_head,
                            SyntaxRole::Complement,
                        );
                    } else {
                        lemma_push_ok(n, root, st, i, st.clause_head, SyntaxRole::Complement);
                    }
                },
                None => {
                    lemma_push_ok(n, root, st, i, st.clause_head, SyntaxRole::Complement);
                },
            }
        }
    } else {
        let e = case_edge(st, flags, i);
        lemma_push_ok(n, root, st, i, e.head_index, e.role);
    }
}

/// One step of the pass keeps the state sound.
pub proof fn lemma_step_ok(tokens: Seq<MorphTokenView>, root: usize, st: ParserModel, i: usize)
    requires
        model_ok(tokens.len(), root, st, i as nat),
        i < tokens.len(),
    ensures
        model_ok(tokens.len(), root, spec_step(tokens, root, st, i), i as nat + 1),
{
    let n = tokens.len();
    let flags = tokens[i as int].flags;
    let k = i as nat;
    if i == root {
    } else if flags.has(MorphFlags::PREPOSITION) {
        let role = if spec_is_passive_agent(tokens, st, i) {
            SyntaxRole::PassiveAgent
        } else {
            SyntaxRole::Modifier
        };
        lemma_push_ok(n, root, st, i, st.clause_head, role);
    } else if flags.has(MorphFlags::CONJUNCTION) {
        lemma_push_ok(n, root, st, i, coordination_target(st), SyntaxRole::Coordinator);
    } else if flags.has(MorphFlags::RELATIVE) {
        if st.last_noun is Some {
            assert forall|e: int| 0 <= e < st.deps.len() implies (
            #[trigger] st.deps[e]).dependent_index != i by {}
            if st.pending_modifiers.contains(i) {
                let q = choose|q: int|
                    0 <= q < st.pending_modifiers.len() && st.pending_modifiers[q] == i;
                assert(st.pending_modifiers[q] < i);
            }
        }
    } else if spec_is_verb(flags) {
        if let Some((p, a)) = st.pending_relative {
            lemma_close_ok(n, root, st, k);
            let cleared = ParserModel { pending_relative: None, ..st };
            lemma_push_ok(n, root, cleared, i, a, SyntaxRole::RelativeClause);
            let first = ParserModel {
                deps: st.deps.push(edge(a, i, SyntaxRole::RelativeClause)),
                ..cleared
            };
            let role = pronoun_role(tokens[p as int].flags);
            let next = first.deps.push(edge(i, p, role));
            assert forall|e: int| 0 <= e < next.len() implies {
                &&& (#[trigger] next[e]).head_index < n
                &&& next[e].dependent_index < n
                &&& next[e].head_index != next[e].dependent_index
                &&& next[e].dependent_index != root
                &&& next[e].dependent_index < i + 1
            } by {
                if e < first.deps.len() {
                    assert(next[e] == first.deps[e]);
                }
            }
            assert forall|x: int, y: int| 0 <= x < y < next.len() implies (
            #[trigger] next[x]).dependent_index != (#[trigger] next[y]).dependent_index by {
                if y < first.deps.len() {
                    assert(next[x] == first.deps[x]);
                    assert(next[y] == first.deps[y]);
                } else {
                    assert(next[x] == first.deps[x]);
                    if x < st.deps.len() {
                        assert(first.deps[x] == st.deps[x]);
                    }
                }
            }
            assert forall|j: int| 0 <= j < st.pending_modifiers.len() implies no_edge_for(
                next,
                #[trigger] st.pending_modifiers[j],
            ) by {
                let d = st.pending_modifiers[j];
                assert(no_edge_for(first.deps, d));
                assert(d != p);
                assert forall|e: int| 0 <= e < next.len() implies (
                #[trigger] next[e]).dependent_index != d by {
                    if e < first.deps.len() {
                        assert(next[e] == first.deps[e]);
                    }
                }
            }
        }
    } else if spec_is_nominal(flags) {
        if spec_is_head_noun(flags) {
            lemma_attach_modifiers_ok(tokens, root, st, i);
            lemma_attach_head_ok(
                tokens,
                root,
                attach_modifiers(tokens, st, i),
                i,
                matched_modifiers(tokens, st, i),
            );
        } else {
            let next = st.pending_modifiers.push(i);
            assert forall|j: int| 0 <= j < next.len() implies {
                &&& (#[trigger] next[j]) < i + 1
                &&& next[j] != root
                &&& no_edge_for(st.deps, next[j])
            } by {
                if j < st.pending_modifiers.len() {
                    assert(next[j] == st.pending_modifiers[j]);
                } else {
                    assert forall|e: int| 0 <= e < st.deps.len() implies (
                    #[trigger] st.deps[e]).dependent_index != i by {}
                }
            }
            assert forall|x: int, y: int| 0 <= x < next.len() && 0 <= y < next.len() && x != y implies next[x] != next[y] by {
                if x < st.pending_modifiers.len() {
                    assert(next[x] == st.pending_modifiers[x]);
                }
                if y < st.pending_modifiers.len() {
                    assert(next[y] == st.pending_modifiers[y]);
                }
            }
            if let Some((p, a)) = st.pending_relative {
                if next.contains(p) {
                    let q = choose|q: int| 0 <= q < next.len() && next[q] == p;
                    if q < st.pending_modifiers.len() {
                        assert(st.pending_modifiers[q] == p);
                    }
                }
            }
        }
    }
}

/// Every state of the pass is sound.
pub proof fn lemma_parse_prefix_ok(tokens: Seq<MorphTokenView>, root: usize, k: nat)
    requires
        root < tokens.len() <= usize::MAX,
        k <= tokens.len(),
    ensures
        model_ok(tokens.len(), root, parse_prefix(tokens, root, k), k),
    decreases k,
{
    if k > 0 {
        lemma_parse_prefix_ok(tokens, root, (k - 1) as nat);
        lemma_step_ok(tokens, root, parse_prefix(tokens, root, (k - 1) as nat), (k - 1) as usize);
    }
}

/// The edges of a sentence form a forest over its tokens: every edge joins
/// two different tokens of the sentence, no token hangs from two heads, and
/// the root hangs from none.
pub proof fn lemma_parse_edges_sound(tokens: Seq<MorphTokenView>)
    requires
        tokens.len() <= usize::MAX,
    ensures
        edges_in_range(parse_edges(tokens), tokens.len()),
        one_edge_per_dependent(parse_edges(tokens)),
        no_edge_for(parse_edges(tokens), root_index(tokens)),
{
    lemma_root_exists(tokens, 0);
    if tokens.len() > 0 {
        lemma_parse_prefix_ok(tokens, root_index(tokens), tokens.len());
    }
}

// ---------------------------------------------------------------------------
// The pass
// ---------------------------------------------------------------------------

/// The parser's state while it runs; its view is the [`ParserModel`].
struct ParserState {
    deps: Vec<Dependency>,
    clause_head: usize,
    open_preposition: Option<usize>,
    pending_modifiers: Vec<usize>,
    last_noun: Option<usize>,
    coordination_head: Option<usize>,
    pending_relative: Option<(usize, usize)>,
}

impl View for ParserState {
    type V = ParserModel;

    closed spec fn view(&self) -> ParserModel {
        ParserModel {
            deps: self.deps@,
            clause_head: self.clause_head,
            open_preposition: self.open_preposition,
            pending_modifiers: self.pending_modifiers@,
            last_noun: self.last_noun,
            coordination_head: self.coordination_head,
            pending_relative: self.pending_relative,
        }
    }
}

impl ParserState {
    fn new(root: usize) -> (st: ParserState)
        ensures
            st@ == initial_model(root),
    {
        ParserState {
            deps: Vec::new(),
            clause_head: root,
            open_preposition: None,
            pending_modifiers: Vec::new(),
            last_noun: None,
            coordination_head: None,
            pending_relative: None,
        }
    }

    fn push_edge(&mut self, head: usize, dependent: usize, role: SyntaxRole)
        ensures
            final(self)@ == (ParserModel {
                deps: old(self)@.deps.push(edge(head, dependent, role)),
                ..old(self)@
            }),
    {
        self.deps.push(Dependency { head_index: head, dependent_index: dependent, role });
    }
}

/// Rewrites in place the edge of `dependent`, if it has one: it now hangs
/// from `head` as its subject.
fn relink_edge(deps: &mut Vec<Dependency>, dependent: usize, head: usize)
    ensures
        final(deps)@ == relink(old(deps)@, dependent, head),
{
    let mut k: usize = 0;
    while k < deps.len()
        invariant
            k <= deps@.len(),
            deps@ == old(deps)@,
            first_edge_of(deps@, dependent, 0) == first_edge_of(deps@, dependent, k as int),
        decreases deps@.len() - k,
    {
        if deps[k].dependent_index == dependent {
            deps.set(
                k,
                Dependency { head_index: head, dependent_index: dependent, role: SyntaxRole::Subject },
            );
            return ;
        }
        k = k + 1;
    }
}

/// Whether some token among `indices` carries all of `mask`.
fn any_with(tokens: &[MorphToken], indices: &Vec<usize>, mask: u32) -> (r: bool)
    requires
        forall|j: int| 0 <= j < indices@.len() ==> (#[trigger] indices@[j]) < tokens@.len(),
    ensures
        r == any_has(token_views(tokens@), indices@, mask),
{
    let mut j: usize = 0;
    while j < indices.len()
        invariant
            j <= indices@.len(),
            forall|q: int| 0 <= q < indices@.len() ==> (#[trigger] indices@[q]) < tokens@.len(),
            forall|q: int|
                0 <= q < j ==> !(#[trigger] token_views(tokens@)[indices@[q] as int]).flags.has(mask),
        decreases indices@.len() - j,
    {
        if tokens[indices[j]].flags.contains(mask) {
            assert(token_views(tokens@)[indices@[j as int] as int].flags.has(mask));
            return true;
        }
        j = j + 1;
    }
    false
}

/// Head noun `i` takes the pending modifiers that agree with it. Returns
/// those modifiers.
fn take_modifiers(tokens: &[MorphToken], st: &mut ParserState, i: usize) -> (matched: Vec<usize>)
    requires
        i < tokens@.len(),
        forall|j: int|
            0 <= j < old(st)@.pending_modifiers.len() ==> (#[trigger] old(
                st,
            )@.pending_modifiers[j]) < tokens@.len(),
    ensures
        final(st)@ == attach_modifiers(token_views(tokens@), old(st)@, i),
        matched@ == matched_modifiers(token_views(tokens@), old(st)@, i),
{
    let ghost before = st@;
    let ghost yes = agrees_with(token_views(tokens@), i);
    let ghost no = disagrees_with(token_views(tokens@), i);
    let mut matched: Vec<usize> = Vec::new();
    let mut rest: Vec<usize> = Vec::new();
    let mut k: usize = 0;
    while k < st.pending_modifiers.len()
        invariant
            i < tokens@.len(),
            k <= st.pending_modifiers@.len(),
            yes == agrees_with(token_views(tokens@), i),
            no == disagrees_with(token_views(tokens@), i),
            st@ == (ParserModel { deps: st.deps@, ..before }),
            forall|j: int|
                0 <= j < before.pending_modifiers.len() ==> (#[trigger] before.pending_modifiers[j])
                    < tokens@.len(),
            matched@ == before.pending_modifiers.take(k as int).filter(yes),
            rest@ == before.pending_modifiers.take(k as int).filter(no),
            st.deps@ == before.deps + matched@.map_values(modifier_edge(i)),
        decreases st.pending_modifiers@.len() - k,
    {
        let m = st.pending_modifiers[k];
        proof {
            let pending = before.pending_modifiers;
            assert(pending.take(k + 1) =~= pending.take(k as int).push(m));
            pending.take(k as int).lemma_filter_push(m, yes);
            pending.take(k as int).lemma_filter_push(m, no);
        }
        if check_agreement(&tokens[m], &tokens[i]) {
            st.deps.push(Dependency { head_index: i, dependent_index: m, role: SyntaxRole::Modifier });
            matched.push(m);
            assert(st.deps@ =~= before.deps + matched@.map_values(modifier_edge(i)));
        } else {
            rest.push(m);
        }
        k = k + 1;
    }
    assert(before.pending_modifiers.take(k as int) =~= before.pending_modifiers);
    st.pending_modifiers = rest;
    matched
}

/// Attaches head noun `i`, whose agreeing modifiers were `matched`.
fn attach(tokens: &[MorphToken], root: usize, st: &mut ParserState, i: usize, matched: &Vec<usize>)
    requires
        model_ok(tokens@.len(), root, old(st)@, i as nat),
        i < tokens@.len(),
        forall|j: int| 0 <= j < matched@.len() ==> (#[trigger] matched@[j]) < tokens@.len(),
    ensures
        final(st)@ == attach_head(token_views(tokens@), root, old(st)@, i, matched@),
{
    let flags = tokens[i].flags;
    if let Some(c) = st.coordination_head {
        st.push_edge(c, i, SyntaxRole::Conjunct);
        st.coordination_head = None;
    } else if let Some(p) = st.open_preposition {
        st.push_edge(p, i, SyntaxRole::PrepositionArg);
        st.open_preposition = None;
    } else if flags.contains(MorphFlags::PARTICIPLE) {
        let mut genitive_absolute = false;
        if flags.contains(MorphFlags::GENITIVE) {
            if let Some(noun) = st.last_noun {
                if tokens[noun].flags.contains(MorphFlags::GENITIVE) && check_agreement(
                    &tokens[i],
                    &tokens[noun],
                ) {
                    genitive_absolute = true;
                    relink_edge(&mut st.deps, noun, i);
                    st.push_edge(st.clause_head, i, SyntaxRole::AbsoluteClause);
                }
            }
        }
        if !genitive_absolute {
            let head = match st.last_noun {
                Some(noun) => if check_agreement(&tokens[i], &tokens[noun]) {
                    noun
                } else {
                    st.clause_head
                },
                None => root,
            };
            st.push_edge(head, i, SyntaxRole::Modifier);
        }
    } else if flags.contains(MorphFlags::INFINITIVE) {
        if any_with(tokens, matched, MorphFlags::ARTICLE) {
            let role = if any_with(tokens, matched, MorphFlags::NOMINATIVE) {
                SyntaxRole::Subject
            } else {
                SyntaxRole::Object
            };
            if let Some(p) = st.open_preposition {
                st.push_edge(p, i, SyntaxRole::PrepositionArg);
                st.open_preposition = None;
            } else {
                st.push_edge(st.clause_head, i, role);
            }
        } else {
            if let Some(noun) = st.last_noun {
                if tokens[noun].flags.contains(MorphFlags::ACCUSATIVE) {
                    relink_edge(&mut st.deps, noun, i);
                }
            }
            st.push_edge(st.clause_head, i, SyntaxRole::Complement);
        }
    } else if flags.contains(MorphFlags::NOMINATIVE) {
        st.push_edge(st.clause_head, i, SyntaxRole::Subject);
    } else if flags.contains(MorphFlags::ACCUSATIVE) {
        st.push_edge(st.clause_head, i, SyntaxRole::Object);
    } else if flags.contains(MorphFlags::GENITIVE) {
        let head = match st.last_noun {
            Some(noun) => noun,
            None => st.clause_head,
        };
        st.push_edge(head, i, SyntaxRole::Modifier);
    } else if flags.contains(MorphFlags::DATIVE) {
        st.push_edge(st.clause_head, i, SyntaxRole::IndirectObject);
    } else {
        st.push_edge(st.clause_head, i, SyntaxRole::Modifier);
    }
}

/// Reads token `i`.
fn step(tokens: &[MorphToken], root: usize, st: &mut ParserState, i: usize)
    requires
        model_ok(tokens@.len(), root, old(st)@, i as nat),
        i < tokens@.len(),
    ensures
        final(st)@ == spec_step(token_views(tokens@), root, old(st)@, i),
{
    if i == root {
        return ;
    }
    let flags = tokens[i].flags;
    if flags.contains(MorphFlags::PREPOSITION) {
        let by = same_text(tokens[i].text, "υπό") || same_text(tokens[i].text, "ὑπό");
        let role = if by && tokens[st.clause_head].flags.contains(MorphFlags::PASSIVE) {
            SyntaxRole::PassiveAgent
        } else {
            SyntaxRole::Modifier
        };
        st.push_edge(st.clause_head, i, role);
        st.open_preposition = Some(i);
    } else if flags.contains(MorphFlags::CONJUNCTION) {
        let head = match st.last_noun {
            Some(noun) => noun,
            None => st.clause_head,
        };
        st.push_edge(head, i, SyntaxRole::Coordinator);
        st.coordination_head = Some(head);
    } else if flags.contains(MorphFlags::RELATIVE) {
        if let Some(antecedent) = st.last_noun {
            st.pending_relative = Some((i, antecedent));
        }
    } else if is_verb(&tokens[i]) {
        if let Some((pronoun, antecedent)) = st.pending_relative {
            st.push_edge(antecedent, i, SyntaxRole::RelativeClause);
            let pronoun_flags = tokens[pronoun].flags;
            let role = if pronoun_flags.contains(MorphFlags::NOMINATIVE) {
                SyntaxRole::Subject
            } else if pronoun_flags.contains(MorphFlags::ACCUSATIVE) {
                SyntaxRole::Object
            } else {
                SyntaxRole::Modifier
            };
            st.push_edge(i, pronoun, role);
            st.clause_head = i;
            st.pending_relative = None;
        }
    } else if has_case(&tokens[i]) || flags.contains(MorphFlags::INFINITIVE) {
        let head_noun = flags.contains(MorphFlags::NOUN) || (!flags.contains(MorphFlags::ARTICLE)
            && !flags.contains(MorphFlags::ADJECTIVE));
        if head_noun {
            let matched = take_modifiers(tokens, st, i);
            proof {
                lemma_attach_modifiers_ok(token_views(tokens@), root, old(st)@, i);
            }
            attach(tokens, root, st, i, &matched);
            st.last_noun = Some(i);
        } else {
            st.pending_modifiers.push(i);
        }
    }
}

/// The dependency edges of a sentence.
///
/// The first finite verb is the root (token 0 where there is none). Every
/// other token is read once, from left to right, and hung from a head by the
/// rules of [`spec_step`]; a token that no rule attaches has no edge. Every
/// edge joins two different tokens of the sentence, no token hangs from two
/// heads, and the root hangs from none.
pub fn parse_greedy(tokens: &[MorphToken]) -> (deps: Vec<Dependency>)
    ensures
        deps@ == parse_edges(token_views(tokens@)),
        edges_in_range(deps@, tokens@.len()),
        one_edge_per_dependent(deps@),
        no_edge_for(deps@, root_index(token_views(tokens@))),
{
    let root = find_root(tokens);
    let mut st = ParserState::new(root);
    let mut i: usize = 0;
    while i < tokens.len()
        invariant
            i <= tokens@.len(),
            root == root_index(token_views(tokens@)),
            tokens@.len() > 0 ==> root < tokens@.len(),
            st@ == parse_prefix(token_views(tokens@), root, i as nat),
        decreases tokens@.len() - i,
    {
        proof {
            lemma_parse_prefix_ok(token_views(tokens@), root, i as nat);
        }
        step(tokens, root, &mut st, i);
        i = i + 1;
    }
    proof {
        lemma_parse_edges_sound(token_views(tokens@));
    }
    st.deps
}

} // verus!
