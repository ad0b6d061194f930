//! The pipeline: text to tokens, tokens to morphology, morphology to a
//! dependency tree in the store, and the two checks over the store.

use vstd::prelude::*;
use vstd::std_specs::convert::FromSpecImpl;
use vstd::string::StringExecFns;
use crate::ecs::agreement::{agreement_errors, error_views, AgreementError, AgreementErrorView};
use crate::ecs::components::{DependencyRole, Syntax, TokenDataView};
use crate::ecs::world::{fresh_record, lists_rows, EntityRecord, LogosWorld, SyntaxRowView};
use crate::parser::lexer::{token_kind, token_matches, Lexer};
use crate::parser::morphology::{resolution, resolve_morphology, MorphAnalysis, MorphAnalysisView};
use crate::parser::syntax::{
    parse_edges, parse_greedy, token_views, Dependency, MorphToken, MorphTokenView, SyntaxRole,
};
use crate::parser::token::{Token, TokenKind};
use crate::parser::tokenizer::{lemma_scan_len, lexeme_text, lexemes, Lexeme};
use crate::protocol::model::{Dictionary, SemanticNetwork};
use crate::protocol::morphology::MorphFlags;
use crate::solver::graph::{GraphModel, SemanticGraph};
use crate::solver::validate::{
    lemma_no_relations_no_errors, semantic_errors, semantic_views, validate_semantics,
    SemanticError, SemanticErrorView,
};
use crate::text::{decimal, decimal_text};

verus! {

/// What the report says of one token.
#[derive(Debug, Clone)]
pub struct TokenDebug {
    pub text: String,
    pub lemma_id: Option<u32>,
    pub kind: String,
    pub morphology: String,
    pub debug: String,
}

/// A [`TokenDebug`] with its strings as character sequences.
pub struct TokenDebugView {
    pub text: Seq<char>,
    pub lemma_id: Option<u32>,
    pub kind: Seq<char>,
    pub morphology: Seq<char>,
    pub debug: Seq<char>,
}

impl View for TokenDebug {
    type V = TokenDebugView;

    open spec fn view(&self) -> TokenDebugView {
        TokenDebugView {
            text: self.text@,
            lemma_id: self.lemma_id,
            kind: self.kind@,
            morphology: self.morphology@,
            debug: self.debug@,
        }
    }
}

/// An agreement error as the report carries it.
#[derive(Debug, Clone)]
pub struct SerializableAgreementError {
    pub source: String,
    pub target: String,
    pub message: String,
}

/// A [`SerializableAgreementError`] with its strings as character sequences.
pub struct SerializableAgreementErrorView {
    pub source: Seq<char>,
    pub target: Seq<char>,
    pub message: Seq<char>,
}

impl View for SerializableAgreementError {
    type V = SerializableAgreementErrorView;

    open spec fn view(&self) -> SerializableAgreementErrorView {
        SerializableAgreementErrorView {
            source: self.source@,
            target: self.target@,
            message: self.message@,
        }
    }
}

impl From<AgreementError> for SerializableAgreementError {
    fn from(e: AgreementError) -> (r: Self) {
        SerializableAgreementError { source: e.source, target: e.target, message: e.details }
    }
}

impl FromSpecImpl<AgreementError> for SerializableAgreementError {
    open spec fn obeys_from_spec() -> bool {
        true
    }

    open spec fn from_spec(e: AgreementError) -> Self {
        SerializableAgreementError { source: e.source, target: e.target, message: e.details }
    }
}

/// The result of an analysis.
#[derive(Debug, Clone)]
pub struct AnalysisReport {
    pub tokens: Vec<TokenDebug>,
    pub syntax_errors: Vec<SerializableAgreementError>,
    pub semantic_errors: Vec<String>,
    pub debug_info: String,
}

/// An [`AnalysisReport`] with its strings as character sequences.
pub struct AnalysisReportView {
    pub tokens: Seq<TokenDebugView>,
    pub syntax_errors: Seq<SerializableAgreementErrorView>,
    pub semantic_errors: Seq<Seq<char>>,
    pub debug_info: Seq<char>,
}

impl View for AnalysisReport {
    type V = AnalysisReportView;

    open spec fn view(&self) -> AnalysisReportView {
        AnalysisReportView {
            tokens: self.tokens@.map_values(|t: TokenDebug| t@),
            syntax_errors: self.syntax_errors@.map_values(|e: SerializableAgreementError| e@),
            semantic_errors: self.semantic_errors@.map_values(|m: String| m@),
            debug_info: self.debug_info@,
        }
    }
}

// ---------------------------------------------------------------------------
// The sentence
// ---------------------------------------------------------------------------

/// A token of the sentence with its analysis.
pub struct SentenceToken {
    pub text: Seq<char>,
    pub analysis: MorphAnalysisView,
}

/// The analysis of a punctuation mark.
pub open spec fn punctuation_analysis() -> MorphAnalysisView {
    MorphAnalysisView {
        flags: MorphFlags { bits: 0 },
        lemma_id: None,
        debug_msg: "Punctuation"@,
        stem: Seq::empty(),
        kind: "Punctuation"@,
    }
}

/// The lemma that the lexer found for a token, as a hint for the resolver.
pub open spec fn hint_of(kind: TokenKind) -> Option<u32> {
    match kind {
        TokenKind::Word(id) => Some(id.0),
        _ => None,
    }
}

/// The analysis of a token: that of a punctuation mark, or the resolution
/// of a word with the lexer's lemma as hint.
pub open spec fn analysis_of(dict: Dictionary, text: Seq<char>, kind: TokenKind)
    -> MorphAnalysisView {
    match kind {
        TokenKind::Punctuation(_) => punctuation_analysis(),
        _ => resolution(dict, text, hint_of(kind)),
    }
}

pub open spec fn sentence_token(dict: Dictionary, chars: Seq<char>, lx: Lexeme) -> SentenceToken {
    SentenceToken {
        text: lexeme_text(chars, lx),
        analysis: analysis_of(dict, lexeme_text(chars, lx), token_kind(dict.lemmas@, chars, lx)),
    }
}

/// The tokens of a text, each with its analysis.
pub open spec fn sentence(dict: Dictionary, chars: Seq<char>) -> Seq<SentenceToken> {
    lexemes(chars).map_values(|lx: Lexeme| sentence_token(dict, chars, lx))
}

/// What the parser sees of the sentence: texts and flags.
pub open spec fn parser_tokens(tokens: Seq<SentenceToken>) -> Seq<MorphTokenView> {
    tokens.map_values(|t: SentenceToken| MorphTokenView { text: t.text, flags: t.analysis.flags })
}

/// The flags as the report shows them: their names, or `None` for the empty
/// set.
pub open spec fn morphology_text(flags: MorphFlags) -> Seq<char> {
    if flags@ == 0 {
        "None"@
    } else {
        flags.described()
    }
}

/// What the report says of a token.
pub open spec fn token_debug(t: SentenceToken) -> TokenDebugView {
    TokenDebugView {
        text: t.text,
        lemma_id: match t.analysis.lemma_id {
            Some(id) => Some(id.0),
            None => None,
        },
        kind: t.analysis.kind,
        morphology: morphology_text(t.analysis.flags),
        debug: t.analysis.debug_msg,
    }
}

/// The line of the report on the dictionary in use.
pub open spec fn info_text(dict: Dictionary) -> Seq<char> {
    "Lemmas: "@ + decimal_text(dict.lemmas@.len()) + ", Paradigms: "@ + decimal_text(
        dict.paradigms@.len(),
    )
}

// ---------------------------------------------------------------------------
// The store of the sentence
// ---------------------------------------------------------------------------

/// The role of the store for a role of the parser; none for an edge without
/// role, which the store does not take.
pub open spec fn store_role(role: SyntaxRole) -> Option<DependencyRole> {
    match role {
        SyntaxRole::Subject => Some(DependencyRole::Subject),
        SyntaxRole::Object => Some(DependencyRole::Object),
        SyntaxRole::Modifier => Some(DependencyRole::Modifier),
        SyntaxRole::Root => Some(DependencyRole::Root),
        SyntaxRole::PrepositionArg => Some(DependencyRole::PrepositionArg),
        SyntaxRole::IndirectObject => Some(DependencyRole::IndirectObject),
        SyntaxRole::Coordinator => Some(DependencyRole::Coordinator),
        SyntaxRole::Conjunct => Some(DependencyRole::Conjunct),
        SyntaxRole::PassiveAgent => Some(DependencyRole::PassiveAgent),
        SyntaxRole::AbsoluteClause => Some(DependencyRole::AbsoluteClause),
        SyntaxRole::Complement => Some(DependencyRole::Complement),
        SyntaxRole::RelativeClause => Some(DependencyRole::RelativeClause),
        SyntaxRole::Unassigned => None,
    }
}

/// The record of a token as it enters the store.
pub open spec fn token_record(t: SentenceToken) -> EntityRecord {
    fresh_record(TokenDataView { text: t.text, lemma_id: t.analysis.lemma_id }, t.analysis.flags)
}

/// The store after the first `k` tokens have entered it, token `i` as
/// entity `entities[i]`.
pub open spec fn with_tokens(entities: Seq<hecs::Entity>, tokens: Seq<SentenceToken>, k: nat) -> Map<
    hecs::Entity,
    EntityRecord,
>
    decreases k,
{
    if k == 0 {
        Map::empty()
    } else {
        with_tokens(entities, tokens, (k - 1) as nat).insert(
            entities[k - 1],
            token_record(tokens[k - 1]),
        )
    }
}

/// The store after one edge has entered it: the dependent's entity gets the
/// head's entity and the role. An edge without role, or beyond the
/// sentence, is passed over.
pub open spec fn with_dependency(
    store: Map<hecs::Entity, EntityRecord>,
    entities: Seq<hecs::Entity>,
    dep: Dependency,
) -> Map<hecs::Entity, EntityRecord> {
    if dep.dependent_index < entities.len() && dep.head_index < entities.len() {
        let child = entities[dep.dependent_index as int];
        match store_role(dep.role) {
            Some(role) => if store.dom().contains(child) {
                store.insert(
                    child,
                    EntityRecord {
                        syntax: Some(Syntax { head: entities[dep.head_index as int], role }),
                        ..store[child]
                    },
                )
            } else {
                store
            },
            None => store,
        }
    } else {
        store
    }
}

/// The store after the first `k` edges have entered it.
pub open spec fn with_dependencies(
    store: Map<hecs::Entity, EntityRecord>,
    entities: Seq<hecs::Entity>,
    deps: Seq<Dependency>,
    k: nat,
) -> Map<hecs::Entity, EntityRecord>
    decreases k,
{
    if k == 0 {
        store
    } else {
        with_dependency(
            with_dependencies(store, entities, deps, (k - 1) as nat),
            entities,
            deps[k - 1],
        )
    }
}

/// The store of a sentence: its tokens, then the edges that the parser
/// finds for them.
pub open spec fn sentence_store(entities: Seq<hecs::Entity>, tokens: Seq<SentenceToken>) -> Map<
    hecs::Entity,
    EntityRecord,
> {
    let deps = parse_edges(parser_tokens(tokens));
    with_dependencies(with_tokens(entities, tokens, tokens.len()), entities, deps, deps.len())
}

pub open spec fn serializable(e: AgreementErrorView) -> SerializableAgreementErrorView {
    SerializableAgreementErrorView { source: e.source, target: e.target, message: e.details }
}

/// The graph that an analysis checks against: the one in use, or the empty
/// graph.
pub open spec fn graph_in_use(graph: Option<GraphModel>) -> GraphModel {
    match graph {
        Some(m) => m,
        None => GraphModel { concepts: Seq::empty(), relations: Seq::empty() },
    }
}

/// The errors of a report are those of the store of the sentence, for some
/// choice of entities by the store and some order in which it lists its
/// rows to each check.
pub open spec fn errors_explained(
    report: AnalysisReportView,
    tokens: Seq<SentenceToken>,
    graph: GraphModel,
    entities: Seq<hecs::Entity>,
    agreement_rows: Seq<SyntaxRowView>,
    semantic_rows: Seq<SyntaxRowView>,
) -> bool {
    let store = sentence_store(entities, tokens);
    &&& entities.len() == tokens.len()
    &&& entities.no_duplicates()
    &&& lists_rows(agreement_rows, store)
    &&& lists_rows(semantic_rows, store)
    &&& report.syntax_errors == agreement_errors(store, agreement_rows).map_values(
        |e: AgreementErrorView| serializable(e),
    )
    &&& report.semantic_errors == semantic_errors(store, graph, semantic_rows).map_values(
        |e: SemanticErrorView| e.message,
    )
}

/// The store after `k` tokens does not depend on the entities of later
/// tokens.
proof fn lemma_with_tokens_prefix(
    first: Seq<hecs::Entity>,
    second: Seq<hecs::Entity>,
    tokens: Seq<SentenceToken>,
    k: nat,
)
    requires
        k <= first.len(),
        k <= second.len(),
        forall|i: int| 0 <= i < k ==> first[i] == second[i],
    ensures
        with_tokens(first, tokens, k) == with_tokens(second, tokens, k),
    decreases k,
{
    if k > 0 {
        lemma_with_tokens_prefix(first, second, tokens, (k - 1) as nat);
    }
}

// ---------------------------------------------------------------------------
// The engine
// ---------------------------------------------------------------------------

/// A token with its analysis.
struct AnalyzedToken<'a> {
    text: &'a str,
    analysis: MorphAnalysis,
}

impl<'a> AnalyzedToken<'a> {
    spec fn view(&self) -> SentenceToken {
        SentenceToken { text: self.text@, analysis: self.analysis@ }
    }
}

fn analyze_token<'a>(dict: &Dictionary, token: &Token<'a>) -> (r: AnalyzedToken<'a>)
    ensures
        r.view() == (SentenceToken {
            text: token.text@,
            analysis: analysis_of(*dict, token.text@, token.kind),
        }),
{
    match token.kind {
        TokenKind::Punctuation(_) => AnalyzedToken {
            text: token.text,
            analysis: MorphAnalysis {
                flags: MorphFlags::empty(),
                lemma_id: None,
                debug_msg: String::from_str("Punctuation"),
                stem: String::new(),
                kind: String::from_str("Punctuation"),
            },
        },
        TokenKind::Word(id) => AnalyzedToken {
            text: token.text,
            analysis: resolve_morphology(dict, token.text, Some(id.0)),
        },
        _ => AnalyzedToken { text: token.text, analysis: resolve_morphology(dict, token.text, None) },
    }
}

fn debug_of(at: &AnalyzedToken) -> (r: TokenDebug)
    ensures
        r@ == token_debug(at.view()),
{
    let morphology = if at.analysis.flags.is_empty() {
        String::from_str("None")
    } else {
        at.analysis.flags.describe()
    };
    TokenDebug {
        text: String::from_str(at.text),
        lemma_id: match at.analysis.lemma_id {
            Some(id) => Some(id.0),
            None => None,
        },
        kind: at.analysis.kind.clone(),
        morphology,
        debug: at.analysis.debug_msg.clone(),
    }
}

fn morph_token<'a>(at: &AnalyzedToken<'a>) -> (r: MorphToken<'a>)
    ensures
        r@ == (MorphTokenView { text: at.view().text, flags: at.view().analysis.flags }),
{
    MorphToken { text: at.text, flags: at.analysis.flags }
}

fn role_of(role: SyntaxRole) -> (r: Option<DependencyRole>)
    ensures
        r == store_role(role),
{
    match role {
        SyntaxRole::Subject => Some(DependencyRole::Subject),
        SyntaxRole::Object => Some(DependencyRole::Object),
        SyntaxRole::Modifier => Some(DependencyRole::Modifier),
        SyntaxRole::Root => Some(DependencyRole::Root),
        SyntaxRole::PrepositionArg => Some(DependencyRole::PrepositionArg),
        SyntaxRole::IndirectObject => Some(DependencyRole::IndirectObject),
        SyntaxRole::Coordinator => Some(DependencyRole::Coordinator),
        SyntaxRole::Conjunct => Some(DependencyRole::Conjunct),
        SyntaxRole::PassiveAgent => Some(DependencyRole::PassiveAgent),
        SyntaxRole::AbsoluteClause => Some(DependencyRole::AbsoluteClause),
        SyntaxRole::Complement => Some(DependencyRole::Complement),
        SyntaxRole::RelativeClause => Some(DependencyRole::RelativeClause),
        SyntaxRole::Unassigned => None,
    }
}

/// The views of the analyzed tokens.
spec fn analyzed_views(tokens: Seq<AnalyzedToken>) -> Seq<SentenceToken> {
    tokens.map_values(|t: AnalyzedToken| t.view())
}

/// Analyses every token of the text.
fn analyze_tokens<'a>(dict: &'a Dictionary, input: &'a str) -> (r: Vec<AnalyzedToken<'a>>)
    ensures
        analyzed_views(r@) == sentence(*dict, input@),
        r@.len() <= input@.len(),
{
    let lexer = Lexer::new(dict);
    let tokens = lexer.tokenize(input);
    proof {
        lemma_scan_len(input@, 0);
    }
    let ghost lx = lexemes(input@);
    let mut out: Vec<AnalyzedToken<'a>> = Vec::new();
    let mut k: usize = 0;
    while k < tokens.len()
        invariant
            k <= tokens@.len(),
            out@.len() == k,
            lx == lexemes(input@),
            tokens@.len() == lx.len(),
            lexer.dictionary() == *dict,
            forall|j: int|
                0 <= j < tokens@.len() ==> token_matches(
                    dict.lemmas@,
                    input@,
                    lx[j],
                    #[trigger] tokens@[j],
                ),
            forall|j: int|
                0 <= j < k ==> (#[trigger] out@[j]).view() == sentence_token(*dict, input@, lx[j]),
        decreases tokens@.len() - k,
    {
        let at = analyze_token(dict, &tokens[k]);
        out.push(at);
        k = k + 1;
    }
    assert(analyzed_views(out@) =~= sentence(*dict, input@));
    out
}

/// The engine: a dictionary and, once loaded, a semantic graph.
pub struct LogosEngine {
    dict: Dictionary,
    semantic_graph: Option<SemanticGraph>,
}

impl LogosEngine {
    /// The dictionary in use.
    pub closed spec fn dictionary(&self) -> Dictionary {
        self.dict
    }

    /// The semantic graph in use, if one was loaded.
    pub closed spec fn graph(&self) -> Option<GraphModel> {
        match self.semantic_graph {
            Some(g) => Some(g@),
            None => None,
        }
    }

    /// The graph in use, if any, is consistent.
    pub closed spec fn well_formed(&self) -> bool {
        match self.semantic_graph {
            Some(g) => g.well_formed(),
            None => true,
        }
    }

    pub fn new(dict: Dictionary) -> (r: Self)
        ensures
            r.well_formed(),
            r.dictionary() == dict,
            r.graph() is None,
    {
        LogosEngine { dict, semantic_graph: None }
    }

    /// Takes the graph of a persisted network into use, in place of an
    /// earlier one. A graph holds up to `u32::MAX` concepts and relations.
    pub fn load_semantics(&mut self, network: &SemanticNetwork)
        requires
            2 * network.edges@.len() < u32::MAX,
        ensures
            final(self).well_formed(),
            final(self).dictionary() == old(self).dictionary(),
            final(self).graph() == Some(
                crate::solver::graph::with_edges(network.edges@, network.edges@.len()),
            ),
    {
        self.semantic_graph = Some(SemanticGraph::from_archived(network));
    }

    /// Analyses a text.
    ///
    /// The report holds a line for each token of [`sentence`], the
    /// agreement errors and the semantic errors of the store of the
    /// sentence, and a line on the dictionary. Without a graph in use there
    /// are no semantic errors. The store has room for `u32::MAX` tokens.
    pub fn analyze_core(&self, input: &str) -> (report: AnalysisReport)
        requires
            self.well_formed(),
            input@.len() < u32::MAX,
        ensures
            report@.tokens == sentence(self.dictionary(), input@).map_values(
                |t: SentenceToken| token_debug(t),
            ),
            report@.debug_info == info_text(self.dictionary()),
            exists|
                entities: Seq<hecs::Entity>,
                agreement_rows: Seq<SyntaxRowView>,
                semantic_rows: Seq<SyntaxRowView>,
            |
                #[trigger] errors_explained(
                    report@,
                    sentence(self.dictionary(), input@),
                    graph_in_use(self.graph()),
                    entities,
                    agreement_rows,
                    semantic_rows,
                ),
            self.graph() is None ==> report@.semantic_errors.len() == 0,
    {
        let analyzed = analyze_tokens(&self.dict, input);
        let ghost tokens = sentence(self.dict, input@);

        let mut debug_tokens: Vec<TokenDebug> = Vec::new();
        let mut k: usize = 0;
        while k < analyzed.len()
            invariant
                k <= analyzed@.len(),
                debug_tokens@.len() == k,
                forall|j: int|
                    0 <= j < k ==> (#[trigger] debug_tokens@[j])@ == token_debug(
                        analyzed@[j].view(),
                    ),
            decreases analyzed@.len() - k,
        {
            debug_tokens.push(debug_of(&analyzed[k]));
            k = k + 1;
        }

        let mut world = LogosWorld::new();
        let mut entities: Vec<hecs::Entity> = Vec::new();
        let mut parser_input: Vec<MorphToken> = Vec::new();
        k = 0;
        while k < analyzed.len()
            invariant
                k <= analyzed@.len(),
                analyzed@.len() < u32::MAX,
                tokens == analyzed_views(analyzed@),
                entities@.len() == k,
                parser_input@.len() == k,
                world.count() <= k,
                world@ == with_tokens(entities@, tokens, k as nat),
                entities@.no_duplicates(),
                forall|j: int| 0 <= j < k ==> world@.dom().contains(#[trigger] entities@[j]),
                forall|j: int|
                    0 <= j < k ==> (#[trigger] parser_input@[j])@ == parser_tokens(tokens)[j],
            decreases analyzed@.len() - k,
        {
            let at = &analyzed[k];
            let ghost before = entities@;
            let ghost store = world@;
            let e = world.add_token(String::from_str(at.text), at.analysis.lemma_id, at.analysis.flags);
            entities.push(e);
            let mt = morph_token(at);
            parser_input.push(mt);
            proof {
                lemma_with_tokens_prefix(before, entities@, tokens, k as nat);
                assert(tokens[k as int] == at.view());
                assert forall|a: int, b: int|
                    0 <= a < entities@.len() && 0 <= b < entities@.len() && a != b implies entities@[a]
                    != entities@[b] by {
                    if a < k && b < k {
                        assert(before[a] != before[b]);
                    } else if a < k {
                        assert(store.dom().contains(before[a]));
                    } else {
                        assert(store.dom().contains(before[b]));
                    }
                }
            }
            k = k + 1;
        }
        assert(token_views(parser_input@) =~= parser_tokens(tokens));

        let dependencies = parse_greedy(parser_input.as_slice());
        let ghost base = world@;
        k = 0;
        while k < dependencies.len()
            invariant
                k <= dependencies@.len(),
                world@ == with_dependencies(base, entities@, dependencies@, k as nat),
            decreases dependencies@.len() - k,
        {
            let dep = dependencies[k];
            if dep.dependent_index < entities.len() && dep.head_index < entities.len() {
                let child = entities[dep.dependent_index];
                let head = entities[dep.head_index];
                if let Some(role) = role_of(dep.role) {
                    world.set_dependency(child, head, role);
                }
            }
            k = k + 1;
        }
        assert(world@ == sentence_store(entities@, tokens));

        let syntax_errors_raw = world.validate();
        let ghost agreement_rows = choose|rows: Seq<SyntaxRowView>|
            lists_rows(rows, world@) && error_views(syntax_errors_raw@) == #[trigger] agreement_errors(
                world@,
                rows,
            );
        let mut syntax_errors: Vec<SerializableAgreementError> = Vec::new();
        k = 0;
        while k < syntax_errors_raw.len()
            invariant
                k <= syntax_errors_raw@.len(),
                syntax_errors@.len() == k,
                forall|j: int|
                    0 <= j < k ==> (#[trigger] syntax_errors@[j])@ == serializable(
                        syntax_errors_raw@[j]@,
                    ),
            decreases syntax_errors_raw@.len() - k,
        {
            let e = &syntax_errors_raw[k];
            syntax_errors.push(
                SerializableAgreementError {
                    source: e.source.clone(),
                    target: e.target.clone(),
                    message: e.details.clone(),
                },
            );
            k = k + 1;
        }

        let ghost in_use = graph_in_use(self.graph());
        let semantic_errors_raw = match &self.semantic_graph {
            Some(graph) => {
                let raw = validate_semantics(&mut world, graph);
                proof {
                    let rows = choose|rows: Seq<SyntaxRowView>|
                        lists_rows(rows, world@) && semantic_views(raw@)
                            == #[trigger] semantic_errors(world@, graph@, rows);
                    assert(graph@ == in_use);
                    assert(lists_rows(rows, world@) && semantic_views(raw@) == semantic_errors(
                        world@,
                        in_use,
                        rows,
                    ));
                }
                raw
            },
            None => {
                let default_graph = SemanticGraph::new();
                let raw = validate_semantics(&mut world, &default_graph);
                proof {
                    let rows = choose|rows: Seq<SyntaxRowView>|
                        lists_rows(rows, world@) && semantic_views(raw@)
                            == #[trigger] semantic_errors(world@, default_graph@, rows);
                    assert(default_graph@ == in_use);
                    assert(lists_rows(rows, world@) && semantic_views(raw@) == semantic_errors(
                        world@,
                        in_use,
                        rows,
                    ));
                }
                raw
            },
        };
        let ghost semantic_rows = choose|rows: Seq<SyntaxRowView>|
            lists_rows(rows, world@) && semantic_views(semantic_errors_raw@)
                == #[trigger] semantic_errors(world@, in_use, rows);
        proof {
            if self.graph() is None {
                lemma_no_relations_no_errors(world@, graph_in_use(self.graph()), semantic_rows);
            }
        }
        let mut semantic_messages: Vec<String> = Vec::new();
        k = 0;
        while k < semantic_errors_raw.len()
            invariant
                k <= semantic_errors_raw@.len(),
                semantic_messages@.len() == k,
                forall|j: int|
                    0 <= j < k ==> (#[trigger] semantic_messages@[j])@
                        == semantic_errors_raw@[j]@.message,
            decreases semantic_errors_raw@.len() - k,
        {
            semantic_messages.push(semantic_errors_raw[k].message.clone());
            k = k + 1;
        }

        let mut debug_info = String::from_str("Lemmas: ");
        let lemma_count = decimal(self.dict.lemmas.len());
        debug_info.append(lemma_count.as_str());
        debug_info.append(", Paradigms: ");
        let paradigm_count = decimal(self.dict.paradigms.len());
        debug_info.append(paradigm_count.as_str());

        let report = AnalysisReport {
            tokens: debug_tokens,
            syntax_errors,
            semantic_errors: semantic_messages,
            debug_info,
        };
        proof {
            assert(report@.tokens =~= tokens.map_values(|t: SentenceToken| token_debug(t)));
            assert(report@.syntax_errors =~= agreement_errors(world@, agreement_rows).map_values(
                |e: AgreementErrorView| serializable(e),
            ));
            assert(report@.semantic_errors =~= semantic_errors(
                world@,
                graph_in_use(self.graph()),
                semantic_rows,
            ).map_values(|e: SemanticErrorView| e.message));
            assert(tokens == sentence(self.dictionary(), input@));
            assert(errors_explained(
                report@,
                sentence(self.dictionary(), input@),
                graph_in_use(self.graph()),
                entities@,
                agreement_rows,
                semantic_rows,
            ));
        }
        report
    }
}

} // verus!
