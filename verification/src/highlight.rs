//! The highlight engine: tree-sitter parses and queries the text, and the
//! captures it returns are turned into character-offset spans here.
use vstd::prelude::*;

use tree_sitter::StreamingIterator;

use crate::dynamic::{dynamic_highlight_zsh, dynamic_spans_answered, dynamic_spans_from, probe_answers, PathType};
use crate::spans::{
    build_byte_to_char_table, byte_to_char, capture_to_span, char_range, char_range_of, is_meta_capture, merge_spans,
    covers, merge_spans_spec, mergeable, no_meta_styles, sort_spans, sort_spans_by_position, span_views, span_within,
    spec_capture_to_span, utf8_len, Span, SpanView,
};
use crate::text::{chars_of, concat, str_eq, views};

verus! {

// ---------------------------------------------------------------------------
// tree-sitter types, carried through as they are
// ---------------------------------------------------------------------------

/// `tree_sitter::Tree`.
#[verifier::external_type_specification]
#[verifier::external_body]
pub struct ExTree(tree_sitter::Tree);

/// `tree_sitter::Query`.
#[verifier::external_type_specification]
#[verifier::external_body]
pub struct ExQuery(tree_sitter::Query);

/// `tree_sitter::QueryError`.
#[verifier::external_type_specification]
#[verifier::external_body]
pub struct ExQueryError(tree_sitter::QueryError);

/// `tree_sitter_highlight::HighlightConfiguration`.
#[verifier::external_type_specification]
#[verifier::external_body]
pub struct ExHighlightConfiguration(tree_sitter_highlight::HighlightConfiguration);

/// `tree_sitter_md::MarkdownTree`.
#[verifier::external_type_specification]
#[verifier::external_body]
pub struct ExMarkdownTree(tree_sitter_md::MarkdownTree);

// ---------------------------------------------------------------------------
// What the parser and the queries hand back, as plain values
// ---------------------------------------------------------------------------

/// One query capture: its name, the byte range of the captured node, and the
/// node's kind.
pub struct Capture {
    pub name: String,
    pub start_byte: usize,
    pub end_byte: usize,
    pub node_kind: String,
}

/// What a `Capture` denotes.
pub struct CaptureView {
    pub name: Seq<char>,
    pub start_byte: usize,
    pub end_byte: usize,
    pub node_kind: Seq<char>,
}

impl View for Capture {
    type V = CaptureView;

    open spec fn view(&self) -> CaptureView {
        CaptureView { name: self.name@, start_byte: self.start_byte, end_byte: self.end_byte, node_kind: self.node_kind@ }
    }
}

/// The views of a list of captures.
pub open spec fn capture_views(s: Seq<Capture>) -> Seq<CaptureView> {
    s.map_values(|c: Capture| c@)
}

/// One node of a syntax tree, listed in pre-order: its kind, its byte range
/// and its depth below the root.
pub struct SyntaxNode {
    pub kind: String,
    pub start_byte: usize,
    pub end_byte: usize,
    pub depth: usize,
}

/// What a `SyntaxNode` denotes.
pub struct NodeView {
    pub kind: Seq<char>,
    pub start_byte: usize,
    pub end_byte: usize,
    pub depth: usize,
}

impl View for SyntaxNode {
    type V = NodeView;

    open spec fn view(&self) -> NodeView {
        NodeView { kind: self.kind@, start_byte: self.start_byte, end_byte: self.end_byte, depth: self.depth }
    }
}

/// The views of a list of nodes.
pub open spec fn node_views(s: Seq<SyntaxNode>) -> Seq<NodeView> {
    s.map_values(|n: SyntaxNode| n@)
}

/// A zsh syntax tree together with the text it was parsed from.
pub struct ParsedZsh {
    tree: tree_sitter::Tree,
    source: String,
}

impl ParsedZsh {
    /// The text the tree was parsed from.
    pub closed spec fn text(&self) -> Seq<char> {
        self.source@
    }
}

/// A markdown syntax tree (block tree and inline trees) together with the
/// text it was parsed from.
pub struct ParsedMarkdown {
    tree: tree_sitter_md::MarkdownTree,
    source: String,
}

impl ParsedMarkdown {
    /// The text the tree was parsed from.
    pub closed spec fn text(&self) -> Seq<char> {
        self.source@
    }
}

/// Whether the zsh parser produces a tree for `source`.
pub uninterp spec fn zsh_parse_ok(source: Seq<char>) -> bool;

/// The captures, in order, of the zsh highlight query over the tree of `source`.
pub uninterp spec fn zsh_captures_of(source: Seq<char>) -> Seq<CaptureView>;

/// The nodes, in pre-order, of the zsh tree of `source`.
pub uninterp spec fn zsh_nodes_of(source: Seq<char>) -> Seq<NodeView>;

/// Whether the markdown parser produces a tree for `text`.
pub uninterp spec fn markdown_parse_ok(text: Seq<char>) -> bool;

/// The captures, in order, of the markdown block highlight query over the
/// block tree of `text`.
pub uninterp spec fn md_block_captures_of(text: Seq<char>) -> Seq<CaptureView>;

/// The nodes, in pre-order, of the markdown block tree of `text`.
pub uninterp spec fn md_block_nodes_of(text: Seq<char>) -> Seq<NodeView>;

/// The captures, in order, of the markdown inline highlight query over the
/// inline tree of the block node at pre-order position `index` (none when that
/// node has no inline tree).
pub uninterp spec fn md_inline_captures_of(text: Seq<char>, index: int) -> Seq<CaptureView>;

/// Calls `tree_sitter::Parser::set_language` with the zsh grammar and
/// `Parser::parse` on `source`; whether a tree comes back depends on `source` alone.
#[verifier::external_body]
fn parse_zsh(source: &str) -> (r: Option<ParsedZsh>)
    ensures
        r is Some == zsh_parse_ok(source@),
        r matches Some(p) ==> p.text() == source@,
{
    let mut parser = tree_sitter::Parser::new();
    if parser.set_language(&tree_sitter_zsh::LANGUAGE.into()).is_err() {
        return None;
    }
    let tree = parser.parse(source, None)?;
    Some(ParsedZsh { tree, source: source.to_string() })
}

/// Calls `tree_sitter::QueryCursor::captures` with the engine's zsh highlight
/// query on the tree, and lists each capture (name, node range, node kind) in
/// the order the cursor yields them. Every engine holds the query compiled
/// from the grammar's bundled highlight query, so the captures depend on the
/// parsed text alone, and each capture's name is one of that query's capture
/// names (`Query::capture_names` at the capture's index).
#[verifier::external_body]
fn zsh_query_captures(engine: &HighlightEngine, parsed: &ParsedZsh) -> (r: Vec<Capture>)
    ensures
        capture_views(r@) == zsh_captures_of(parsed.text()),
        forall|i: int| 0 <= i < r@.len() ==> #[trigger] zsh_capture_names().contains(r@[i].name@),
{
    let q = &engine.zsh_query;
    let mut out = Vec::new();
    let mut cursor = tree_sitter::QueryCursor::new();
    let mut caps = cursor.captures(q, parsed.tree.root_node(), parsed.source.as_bytes());
    while let Some((m, i)) = caps.next() {
        let c = m.captures()[*i];
        let name = q.capture_names()[c.index as usize].to_string();
        let kind = c.node.kind().to_string();
        out.push(Capture { name, start_byte: c.node.start_byte(), end_byte: c.node.end_byte(), node_kind: kind });
    }
    out
}

impl ParsedZsh {
    /// Parses `source` as zsh.
    pub fn parse(source: &str) -> (r: Result<ParsedZsh, HighlightError>)
        ensures
            match r {
                Ok(p) => zsh_parse_ok(source@) && p.text() == source@,
                Err(e) => !zsh_parse_ok(source@) && e == HighlightError::ZshParse,
            },
    {
        match parse_zsh(source) {
            Some(p) => Ok(p),
            None => Err(HighlightError::ZshParse),
        }
    }
}

/// Walks the zsh tree with `TreeCursor::goto_descendant` and lists every node
/// (kind, byte range, depth) in pre-order.
#[verifier::external_body]
pub(crate) fn zsh_tree_nodes(parsed: &ParsedZsh) -> (r: Vec<SyntaxNode>)
    ensures
        node_views(r@) == zsh_nodes_of(parsed.text()),
{
    let root = parsed.tree.root_node();
    let mut cursor = root.walk();
    let mut out = Vec::new();
    for i in 0..root.descendant_count() {
        cursor.goto_descendant(i);
        let n = cursor.node();
        let depth = cursor.depth() as usize;
        out.push(SyntaxNode { kind: n.kind().to_string(), start_byte: n.start_byte(), end_byte: n.end_byte(), depth });
    }
    out
}

/// Calls `tree_sitter_md::MarkdownParser::parse` on `text`; whether a tree
/// comes back depends on `text` alone.
#[verifier::external_body]
fn parse_markdown(text: &str) -> (r: Option<ParsedMarkdown>)
    ensures
        r is Some == markdown_parse_ok(text@),
        r matches Some(p) ==> p.text() == text@,
{
    let mut parser = tree_sitter_md::MarkdownParser::default();
    let tree = parser.parse(text.as_bytes(), None)?;
    Some(ParsedMarkdown { tree, source: text.to_string() })
}

/// Calls `tree_sitter::QueryCursor::captures` with the markdown block query on
/// the block tree, and lists each capture in the order the cursor yields them.
/// Every engine holds the configuration built from the grammar's bundled
/// queries, so the captures depend on the parsed text alone.
#[verifier::external_body]
fn md_block_captures(engine: &HighlightEngine, doc: &ParsedMarkdown) -> (r: Vec<Capture>)
    ensures
        capture_views(r@) == md_block_captures_of(doc.text()),
{
    let q = &engine.md_block_config.query;
    let mut out = Vec::new();
    let mut cursor = tree_sitter::QueryCursor::new();
    let mut caps = cursor.captures(q, doc.tree.block_tree().root_node(), doc.source.as_bytes());
    while let Some((m, i)) = caps.next() {
        let c = m.captures()[*i];
        let name = q.capture_names()[c.index as usize].to_string();
        let kind = c.node.kind().to_string();
        out.push(Capture { name, start_byte: c.node.start_byte(), end_byte: c.node.end_byte(), node_kind: kind });
    }
    out
}

/// Walks the markdown block tree with `TreeCursor::goto_descendant` and lists
/// every node (kind, byte range, depth) in pre-order.
#[verifier::external_body]
fn md_block_nodes(doc: &ParsedMarkdown) -> (r: Vec<SyntaxNode>)
    ensures
        node_views(r@) == md_block_nodes_of(doc.text()),
{
    let root = doc.tree.block_tree().root_node();
    let mut cursor = root.walk();
    let mut out = Vec::new();
    for i in 0..root.descendant_count() {
        cursor.goto_descendant(i);
        let n = cursor.node();
        let depth = cursor.depth() as usize;
        out.push(SyntaxNode { kind: n.kind().to_string(), start_byte: n.start_byte(), end_byte: n.end_byte(), depth });
    }
    out
}

/// Calls `MarkdownTree::inline_tree` for the block node at pre-order position
/// `index`, then `QueryCursor::captures` with the markdown inline query on it
/// (capture names as `HighlightConfiguration::names` lists them, node kinds
/// left empty); no capture when the node has no inline tree. Every engine
/// holds the configuration built from the grammar's bundled queries, so the
/// captures depend on the parsed text and the position alone.
#[verifier::external_body]
fn md_inline_captures(engine: &HighlightEngine, doc: &ParsedMarkdown, index: usize) -> (r: Vec<Capture>)
    ensures
        capture_views(r@) == md_inline_captures_of(doc.text(), index as int),
{
    let mut walker = doc.tree.block_tree().root_node().walk();
    walker.goto_descendant(index);
    let Some(tree) = doc.tree.inline_tree(&walker.node()) else { return vec![] };
    let names = engine.md_inline_config.names();
    let mut out = Vec::new();
    let mut cursor = tree_sitter::QueryCursor::new();
    let mut caps = cursor.captures(&engine.md_inline_config.query, tree.root_node(), doc.source.as_bytes());
    while let Some(x) = caps.next() {
        let c = x.0.captures()[x.1];
        out.push(Capture { name: names[c.index as usize].to_string(), start_byte: c.node.start_byte(), end_byte: c.node.end_byte(), node_kind: String::new() });
    }
    out
}

/// The capture names of the zsh highlight query, in order of first
/// appearance in its source.
pub open spec fn zsh_capture_names() -> Seq<Seq<char>> {
    seq!["string"@, "function"@, "property"@, "keyword"@, "comment"@, "number"@, "embedded"@, "operator"@, "constant"@]
}

/// The capture names of the markdown block configuration (its injection
/// query, then its highlight query), in order of first appearance.
pub open spec fn md_block_capture_names() -> Seq<Seq<char>> {
    seq![
        "injection.language"@,
        "injection.content"@,
        "text.title"@,
        "punctuation.special"@,
        "text.literal"@,
        "punctuation.delimiter"@,
        "none"@,
        "text.uri"@,
        "text.reference"@,
        "string.escape"@,
    ]
}

/// The capture names of the markdown inline configuration (its injection
/// query, then its highlight query), in order of first appearance.
pub open spec fn md_inline_capture_names() -> Seq<Seq<char>> {
    seq![
        "injection.content"@,
        "text.literal"@,
        "punctuation.delimiter"@,
        "text.emphasis"@,
        "text.strong"@,
        "text.uri"@,
        "text.reference"@,
        "string.escape"@,
    ]
}

/// Calls `tree_sitter::Query::new` with the zsh grammar and its highlight
/// query, then `Query::capture_names`, whose names it copies in order. The
/// grammar and the query are fixed by the grammar crate, so the outcome is
/// always the same: the bundled query compiles against its grammar (every
/// engine the tests build comes through this call), and the query parser
/// numbers captures in the order in which their names first appear in the
/// query's text (`symbol_table_insert_name` in tree-sitter's `query.c`),
/// which gives the list of `zsh_capture_names`.
#[verifier::external_body]
fn zsh_highlight_query() -> (r: Result<(tree_sitter::Query, Vec<String>), tree_sitter::QueryError>)
    ensures
        r is Ok,
        r matches Ok(p) ==> views(p.1@) == zsh_capture_names(),
{
    match tree_sitter::Query::new(&tree_sitter_zsh::LANGUAGE.into(), tree_sitter_zsh::HIGHLIGHT_QUERY) {
        Ok(q) => {
            let names: Vec<String> = q.capture_names().iter().map(|s| s.to_string()).collect();
            Ok((q, names))
        },
        Err(e) => Err(e),
    }
}

/// Calls `HighlightConfiguration::new` with the markdown block grammar and its
/// queries, then `configure` with all of its capture names, which it also
/// returns, in order, as `HighlightConfiguration::names` gives them. The
/// grammar and queries are fixed by the grammar crate, so the outcome is
/// always the same: the bundled queries compile against their grammar (every
/// engine the tests build comes through this call), and the configuration's
/// query is the injection query followed by the highlight query, whose
/// captures are numbered in the order in which their names first appear
/// (`symbol_table_insert_name` in tree-sitter's `query.c`), which gives the
/// list of `md_block_capture_names`.
#[verifier::external_body]
fn markdown_block_config() -> (r: Result<(tree_sitter_highlight::HighlightConfiguration, Vec<String>), tree_sitter::QueryError>)
    ensures
        r is Ok,
        r matches Ok(p) ==> views(p.1@) == md_block_capture_names(),
{
    let md = tree_sitter_md::LANGUAGE.into();
    let mut c = tree_sitter_highlight::HighlightConfiguration::new(
        md, "markdown", tree_sitter_md::HIGHLIGHT_QUERY_BLOCK, tree_sitter_md::INJECTION_QUERY_BLOCK, "",
    )?;
    let names: Vec<String> = c.names().iter().map(|s| s.to_string()).collect();
    c.configure(&names);
    Ok((c, names))
}

/// Calls `HighlightConfiguration::new` with the markdown inline grammar and its
/// queries, then `configure` with all of its capture names, which it also
/// returns, in order, as `HighlightConfiguration::names` gives them. The
/// grammar and queries are fixed by the grammar crate, so the outcome is
/// always the same: the bundled queries compile against their grammar (every
/// engine the tests build comes through this call), and the configuration's
/// query is the injection query followed by the highlight query, whose
/// captures are numbered in the order in which their names first appear
/// (`symbol_table_insert_name` in tree-sitter's `query.c`), which gives the
/// list of `md_inline_capture_names`.
#[verifier::external_body]
fn markdown_inline_config() -> (r: Result<(tree_sitter_highlight::HighlightConfiguration, Vec<String>), tree_sitter::QueryError>)
    ensures
        r is Ok,
        r matches Ok(p) ==> views(p.1@) == md_inline_capture_names(),
{
    let md = tree_sitter_md::INLINE_LANGUAGE.into();
    let mut c = tree_sitter_highlight::HighlightConfiguration::new(
        md, "markdown_inline", tree_sitter_md::HIGHLIGHT_QUERY_INLINE, tree_sitter_md::INJECTION_QUERY_INLINE, "",
    )?;
    let names: Vec<String> = c.names().iter().map(|s| s.to_string()).collect();
    c.configure(&names);
    Ok((c, names))
}

// ---------------------------------------------------------------------------
// The engine
// ---------------------------------------------------------------------------

/// Supported languages.
#[derive(Debug, Clone, Copy, PartialEq, Eq, Structural)]
pub enum LanguageConfig {
    Zsh,
    Markdown,
}

/// Why highlighting could not be set up or carried out.
#[derive(Debug, Clone, Copy, PartialEq, Eq, Structural)]
pub enum HighlightError {
    ZshQuery,
    MarkdownBlockConfig,
    MarkdownInlineConfig,
    ZshParse,
    MarkdownParse,
}

impl HighlightError {
    /// The human-readable description of the error.
    pub open spec fn spec_message(&self) -> Seq<char> {
        match self {
            HighlightError::ZshQuery => "failed to create zsh highlight query"@,
            HighlightError::MarkdownBlockConfig => "failed to create markdown block highlight configuration"@,
            HighlightError::MarkdownInlineConfig => "failed to create markdown inline highlight configuration"@,
            HighlightError::ZshParse => "zsh parsing failed"@,
            HighlightError::MarkdownParse => "markdown parsing failed"@,
        }
    }

    /// The human-readable description of the error.
    pub fn message(&self) -> (s: String)
        ensures
            s@ == self.spec_message(),
    {
        match self {
            HighlightError::ZshQuery => String::from_str("failed to create zsh highlight query"),
            HighlightError::MarkdownBlockConfig => String::from_str("failed to create markdown block highlight configuration"),
            HighlightError::MarkdownInlineConfig => String::from_str("failed to create markdown inline highlight configuration"),
            HighlightError::ZshParse => String::from_str("zsh parsing failed"),
            HighlightError::MarkdownParse => String::from_str("markdown parsing failed"),
        }
    }
}

/// Holds the pre-configured queries for each language.
pub struct HighlightEngine {
    zsh_query: tree_sitter::Query,
    md_block_config: tree_sitter_highlight::HighlightConfiguration,
    md_inline_config: tree_sitter_highlight::HighlightConfiguration,
    capture_names: Vec<String>,
    dynamic: bool,
}

impl HighlightEngine {
    /// Whether the engine adds dynamic (path) spans to zsh highlighting.
    pub closed spec fn is_dynamic(&self) -> bool {
        self.dynamic
    }

    /// The capture names of the engine's queries, as they were listed when it
    /// was built: the zsh query's, then the markdown block and inline
    /// configurations', each in order.
    pub closed spec fn capture_name_list(&self) -> Seq<String> {
        self.capture_names@
    }

    /// Builds the zsh query and the two markdown configurations.
    pub fn new() -> (r: Result<HighlightEngine, HighlightError>)
        ensures
            r matches Ok(e) && e.is_dynamic()
                && views(e.capture_name_list()) == zsh_capture_names() + md_block_capture_names() + md_inline_capture_names(),
    {
        let (zsh_query, mut capture_names) = match zsh_highlight_query() {
            Ok(q) => q,
            Err(_) => {
                return Err(HighlightError::ZshQuery);
            },
        };
        let (md_block_config, mut block_names) = match markdown_block_config() {
            Ok(c) => c,
            Err(_) => {
                return Err(HighlightError::MarkdownBlockConfig);
            },
        };
        let (md_inline_config, mut inline_names) = match markdown_inline_config() {
            Ok(c) => c,
            Err(_) => {
                return Err(HighlightError::MarkdownInlineConfig);
            },
        };
        let ghost z = capture_names@;
        let ghost b = block_names@;
        let ghost l = inline_names@;
        capture_names.append(&mut block_names);
        capture_names.append(&mut inline_names);
        assert(views(capture_names@) =~= views(z) + views(b) + views(l));
        Ok(HighlightEngine { zsh_query, md_block_config, md_inline_config, capture_names, dynamic: true })
    }

    /// Create an engine without dynamic highlighting.
    pub fn new_without_dynamic() -> (r: Result<HighlightEngine, HighlightError>)
        ensures
            r matches Ok(e) && !e.is_dynamic()
                && views(e.capture_name_list()) == zsh_capture_names() + md_block_capture_names() + md_inline_capture_names(),
    {
        let mut engine = match HighlightEngine::new() {
            Ok(e) => e,
            Err(e) => {
                return Err(e);
            },
        };
        engine.dynamic = false;
        Ok(engine)
    }
}

// ---------------------------------------------------------------------------
// From captures to spans
// ---------------------------------------------------------------------------

/// The spans of `caps` in order, leaving out meta captures and empty ranges,
/// and, when `skip_fence` holds, captures of `code_fence_content` nodes.
pub open spec fn capture_spans(caps: Seq<CaptureView>, table: Seq<usize>, char_len: int, skip_fence: bool) -> Seq<SpanView>
    decreases caps.len(),
{
    if caps.len() == 0 {
        Seq::empty()
    } else {
        let c = caps.last();
        let rest = capture_spans(caps.drop_last(), table, char_len, skip_fence);
        if skip_fence && c.node_kind == "code_fence_content"@ {
            rest
        } else {
            match spec_capture_to_span(c.name, c.start_byte as int, c.end_byte as int, table, char_len) {
                Some(sp) => rest.push(sp),
                None => rest,
            }
        }
    }
}

/// Appends the spans of `caps` to `out`.
fn push_capture_spans(out: &mut Vec<Span>, caps: &Vec<Capture>, table: &Vec<usize>, char_len: usize, skip_fence: bool)
    requires
        table@.len() > 0,
    ensures
        span_views(final(out)@) == span_views(old(out)@) + capture_spans(capture_views(caps@), table@, char_len as int, skip_fence),
{
    let ghost base = span_views(out@);
    let ghost cv = capture_views(caps@);
    let mut i: usize = 0;
    while i < caps.len()
        invariant
            table@.len() > 0,
            cv == capture_views(caps@),
            0 <= i <= caps@.len(),
            span_views(out@) == base + capture_spans(cv.take(i as int), table@, char_len as int, skip_fence),
        decreases caps@.len() - i,
    {
        let c = &caps[i];
        proof {
            let t = cv.take(i + 1);
            assert(t.drop_last() == cv.take(i as int));
            assert(t.last() == c@);
        }
        let ghost prev = span_views(out@);
        let skip = skip_fence && str_eq(c.node_kind.as_str(), "code_fence_content");
        if !skip {
            if let Some(sp) = capture_to_span(c.name.as_str(), c.start_byte, c.end_byte, table, char_len) {
                out.push(sp);
                assert(span_views(out@) =~= prev.push(sp@));
            }
        }
        assert(span_views(out@) =~= base + capture_spans(cv.take(i + 1), table@, char_len as int, skip_fence));
        i = i + 1;
    }
    assert(cv.take(caps@.len() as int) == cv);
}

/// The static spans of zsh source: its captures as spans, sorted and merged.
pub open spec fn spec_zsh_static(source: Seq<char>) -> Seq<SpanView> {
    merge_spans_spec(sort_spans(capture_spans(zsh_captures_of(source), byte_to_char(source), source.len() as int, false)))
}

/// `probe` returns `f(p)` for the text `p` it is called with.
pub open spec fn probes_as<F: Fn(&str) -> Option<PathType>>(probe: F, f: spec_fn(Seq<char>) -> Option<PathType>) -> bool {
    forall|p: &str, r: Option<PathType>| #[trigger] call_ensures(probe, (p,), r) ==> r == f(p@)
}

// ---------------------------------------------------------------------------
// Markdown structure: which nodes to highlight, and fenced code blocks
// ---------------------------------------------------------------------------

/// Scanning pre-order `nodes` for those of kind `kind`, without looking inside
/// a node already taken: the positions taken, and the depth of the last node
/// taken while its descendants are being passed over.
pub open spec fn collect_state(nodes: Seq<NodeView>, kind: Seq<char>) -> (Seq<int>, Option<usize>)
    decreases nodes.len(),
{
    if nodes.len() == 0 {
        (Seq::empty(), None)
    } else {
        let (acc, skip) = collect_state(nodes.drop_last(), kind);
        let i = nodes.len() - 1;
        let n = nodes[i];
        let inside = match skip {
            Some(d) => n.depth > d,
            None => false,
        };
        if inside {
            (acc, skip)
        } else if n.kind == kind {
            (acc.push(i), Some(n.depth))
        } else {
            (acc, None)
        }
    }
}

/// The positions of the outermost nodes of kind `kind`, in pre-order.
pub open spec fn collect_by_kind(nodes: Seq<NodeView>, kind: Seq<char>) -> Seq<int> {
    collect_state(nodes, kind).0
}

/// Finds the outermost nodes of kind `kind`, in pre-order.
fn collect_nodes_by_kind(nodes: &Vec<SyntaxNode>, kind: &str) -> (r: Vec<usize>)
    ensures
        r@.map_values(|i: usize| i as int) == collect_by_kind(node_views(nodes@), kind@),
        forall|j: int| 0 <= j < r@.len() ==> #[trigger] r@[j] < nodes@.len(),
{
    let ghost nv = node_views(nodes@);
    let mut acc: Vec<usize> = Vec::new();
    let mut skip: Option<usize> = None;
    let mut i: usize = 0;
    while i < nodes.len()
        invariant
            nv == node_views(nodes@),
            0 <= i <= nodes@.len(),
            (acc@.map_values(|i: usize| i as int), skip) == collect_state(nv.take(i as int), kind@),
            forall|j: int| 0 <= j < acc@.len() ==> #[trigger] acc@[j] < i,
        decreases nodes@.len() - i,
    {
        let n = &nodes[i];
        proof {
            let t = nv.take(i + 1);
            assert(t.drop_last() == nv.take(i as int));
            assert(t.last() == n@);
        }
        let ghost before = acc@;
        let inside = match skip {
            Some(d) => n.depth > d,
            None => false,
        };
        if inside {
        } else if str_eq(n.kind.as_str(), kind) {
            acc.push(i);
            skip = Some(n.depth);
            assert(acc@.map_values(|i: usize| i as int) =~= before.map_values(|i: usize| i as int).push(i as int));
        } else {
            skip = None;
        }
        i = i + 1;
    }
    assert(nv.take(nodes@.len() as int) == nv);
    acc
}

/// Scanning the descendants of the code block at `b` from position `j` on,
/// given what was found so far and whether the current child is an
/// `info_string`.
pub open spec fn fence_info_from(nodes: Seq<NodeView>, b: int, j: int, lang: Option<(usize, usize)>, content: Option<(usize, usize)>, in_info: bool) -> (Option<(usize, usize)>, Option<(usize, usize)>)
    decreases nodes.len() - j,
{
    if j < 0 || j >= nodes.len() || b < 0 || b >= nodes.len() || nodes[j].depth <= nodes[b].depth {
        (lang, content)
    } else {
        let n = nodes[j];
        let d = nodes[b].depth;
        if n.depth == d + 1 {
            let c = if n.kind == "code_fence_content"@ { Some((n.start_byte, n.end_byte)) } else { content };
            fence_info_from(nodes, b, j + 1, lang, c, n.kind == "info_string"@)
        } else if n.depth == d + 2 && in_info && n.kind == "language"@ {
            fence_info_from(nodes, b, j + 1, Some((n.start_byte, n.end_byte)), content, in_info)
        } else {
            fence_info_from(nodes, b, j + 1, lang, content, in_info)
        }
    }
}

/// The language and content ranges of the fenced code block at position `b`.
pub open spec fn fence_info(nodes: Seq<NodeView>, b: int) -> (Option<(usize, usize)>, Option<(usize, usize)>) {
    fence_info_from(nodes, b, b + 1, None, None, false)
}

fn fence_info_of(nodes: &Vec<SyntaxNode>, b: usize) -> (r: (Option<(usize, usize)>, Option<(usize, usize)>))
    requires
        b < nodes@.len(),
    ensures
        r == fence_info(node_views(nodes@), b as int),
{
    let ghost nv = node_views(nodes@);
    let d = nodes[b].depth;
    let mut lang: Option<(usize, usize)> = None;
    let mut content: Option<(usize, usize)> = None;
    let mut in_info = false;
    let nl = nodes.len();
    let mut j = b + 1;
    while j < nodes.len() && nodes[j].depth > d
        invariant
            nv == node_views(nodes@),
            b < nodes@.len(),
            d == nv[b as int].depth,
            b < j <= nodes@.len(),
            fence_info(nv, b as int) == fence_info_from(nv, b as int, j as int, lang, content, in_info),
        decreases nodes@.len() - j,
    {
        let n = &nodes[j];
        assert(nv[j as int] == n@);
        let delta = n.depth - d;
        if delta == 1 {
            if str_eq(n.kind.as_str(), "code_fence_content") {
                content = Some((n.start_byte, n.end_byte));
            }
            in_info = str_eq(n.kind.as_str(), "info_string");
        } else if delta == 2 && in_info && str_eq(n.kind.as_str(), "language") {
            lang = Some((n.start_byte, n.end_byte));
        }
        j = j + 1;
    }
    (lang, content)
}

/// The characters of `text` between two byte offsets (none when they are reversed).
pub open spec fn byte_slice(text: Seq<char>, start: int, end: int) -> Seq<char> {
    let (a, b) = char_range(byte_to_char(text), start, end, text.len() as int);
    if a <= b {
        text.subrange(a, b)
    } else {
        Seq::empty()
    }
}

fn byte_slice_of<'a>(text: &'a str, table: &Vec<usize>, start: usize, end: usize) -> (r: &'a str)
    requires
        table@ == byte_to_char(text@),
    ensures
        r@ == byte_slice(text@, start as int, end as int),
{
    let n = text.unicode_len();
    let (a, b) = char_range_of(table, start, end, n);
    if a <= b {
        text.substring_char(a, b)
    } else {
        text.substring_char(0, 0)
    }
}

/// Whether a code block's language is a shell that the zsh grammar highlights.
pub open spec fn is_shell_language(lang: Seq<char>) -> bool {
    lang == "zsh"@ || lang == "bash"@ || lang == "sh"@ || lang == "shell"@
}

/// The spans that zsh captures of a code block add to the document: each
/// capture's range inside the code, clamped to it, moved to the document by
/// the content's start `code_start`; `none` captures and empty ranges left out.
pub open spec fn injection_spans(caps: Seq<CaptureView>, code: Seq<char>, code_start: int, table: Seq<usize>) -> Seq<SpanView>
    decreases caps.len(),
{
    if caps.len() == 0 {
        Seq::empty()
    } else {
        let rest = injection_spans(caps.drop_last(), code, code_start, table);
        let c = caps.last();
        let ctable = byte_to_char(code);
        let source_len = ctable.len() - 1;
        let start = crate::spans::min(c.start_byte as int, source_len);
        let end = crate::spans::min(c.end_byte as int, source_len);
        let lcs = crate::spans::min(ctable[start] as int, code.len() as int);
        let lce = crate::spans::min(ctable[end] as int, code.len() as int);
        if lcs >= lce || c.name == "none"@ {
            rest
        } else {
            let last = table.len() - 1;
            let dcs = table[crate::spans::min(code_start + start, last)];
            let dce = table[crate::spans::min(code_start + end, last)];
            rest.push(SpanView { start: dcs, end: dce, style: c.name })
        }
    }
}

fn push_injection_spans(out: &mut Vec<Span>, caps: &Vec<Capture>, code: &str, code_start: usize, table: &Vec<usize>)
    requires
        table@.len() > 0,
    ensures
        span_views(final(out)@) == span_views(old(out)@) + injection_spans(capture_views(caps@), code@, code_start as int, table@),
{
    let ctable = build_byte_to_char_table(code);
    let clen = code.unicode_len();
    let ghost base = span_views(out@);
    let ghost cv = capture_views(caps@);
    let source_len = ctable.len() - 1;
    let last = table.len() - 1;
    let mut i: usize = 0;
    while i < caps.len()
        invariant
            table@.len() > 0,
            last == table@.len() - 1,
            ctable@ == byte_to_char(code@),
            source_len == ctable@.len() - 1,
            clen == code@.len(),
            cv == capture_views(caps@),
            0 <= i <= caps@.len(),
            span_views(out@) == base + injection_spans(cv.take(i as int), code@, code_start as int, table@),
        decreases caps@.len() - i,
    {
        let c = &caps[i];
        proof {
            let t = cv.take(i + 1);
            assert(t.drop_last() == cv.take(i as int));
            assert(t.last() == c@);
        }
        let ghost prev = span_views(out@);
        let start = if c.start_byte < source_len { c.start_byte } else { source_len };
        let end = if c.end_byte < source_len { c.end_byte } else { source_len };
        let lcs = if ctable[start] < clen { ctable[start] } else { clen };
        let lce = if ctable[end] < clen { ctable[end] } else { clen };
        if lcs < lce && !str_eq(c.name.as_str(), "none") {
            let ds = code_start.saturating_add(start);
            let de = code_start.saturating_add(end);
            let dcs = table[if ds < last { ds } else { last }];
            let dce = table[if de < last { de } else { last }];
            out.push(Span::new(dcs, dce, c.name.clone()));
            assert(span_views(out@) =~= prev.push(SpanView { start: dcs, end: dce, style: c.name@ }));
        }
        assert(span_views(out@) =~= base + injection_spans(cv.take(i + 1), code@, code_start as int, table@));
        i = i + 1;
    }
    assert(cv.take(caps@.len() as int) == cv);
}

// ---------------------------------------------------------------------------
// What the engine computes
// ---------------------------------------------------------------------------

/// The spans that the inline trees of the block nodes at `idxs` add.
pub open spec fn inline_spans(idxs: Seq<int>, text: Seq<char>, table: Seq<usize>) -> Seq<SpanView>
    decreases idxs.len(),
{
    if idxs.len() == 0 {
        Seq::empty()
    } else {
        inline_spans(idxs.drop_last(), text, table) + capture_spans(md_inline_captures_of(text, idxs.last()), table, text.len() as int, false)
    }
}

/// The spans that the fenced code block at position `b` adds: zsh highlighting
/// of its content when its language is a shell.
pub open spec fn fence_spans(nodes: Seq<NodeView>, b: int, text: Seq<char>, table: Seq<usize>) -> Seq<SpanView> {
    let (lang, content) = fence_info(nodes, b);
    match lang {
        Some(l) => if is_shell_language(byte_slice(text, l.0 as int, l.1 as int)) {
            match content {
                Some(c) => {
                    let code = byte_slice(text, c.0 as int, c.1 as int);
                    if zsh_parse_ok(code) {
                        injection_spans(zsh_captures_of(code), code, c.0 as int, table)
                    } else {
                        Seq::empty()
                    }
                },
                None => Seq::empty(),
            }
        } else {
            Seq::empty()
        },
        None => Seq::empty(),
    }
}

/// The spans that the fenced code blocks at `blocks` add.
pub open spec fn fences_spans(blocks: Seq<int>, nodes: Seq<NodeView>, text: Seq<char>, table: Seq<usize>) -> Seq<SpanView>
    decreases blocks.len(),
{
    if blocks.len() == 0 {
        Seq::empty()
    } else {
        fences_spans(blocks.drop_last(), nodes, text, table) + fence_spans(nodes, blocks.last(), text, table)
    }
}

/// The text that markdown is parsed from: the source, with a `\n` added when it
/// does not end with one.
pub open spec fn md_text(source: Seq<char>) -> Seq<char> {
    if source.len() > 0 && source.last() == '\n' {
        source
    } else {
        source.push('\n')
    }
}

/// The markdown spans of a parsed text: block captures (except code fence
/// contents), inline captures, and zsh highlighting of shell code blocks,
/// sorted and merged.
pub open spec fn spec_markdown_spans(source: Seq<char>) -> Seq<SpanView> {
    let text = md_text(source);
    let table = byte_to_char(text);
    let nodes = md_block_nodes_of(text);
    let block = capture_spans(md_block_captures_of(text), table, text.len() as int, true);
    let inline = inline_spans(collect_by_kind(nodes, "inline"@), text, table);
    let fences = fences_spans(collect_by_kind(nodes, "fenced_code_block"@), nodes, text, table);
    merge_spans_spec(sort_spans(block + inline + fences))
}

/// The zsh spans of a source with path spans: the path spans, then the static
/// spans, sorted (not merged).
pub open spec fn spec_zsh_with_paths(source: Seq<char>, probe: spec_fn(Seq<char>) -> Option<PathType>) -> Seq<SpanView> {
    sort_spans(dynamic_spans_from(zsh_nodes_of(source), source, probe) + spec_zsh_static(source))
}

/// The zsh spans of a source with path spans when the probe's answer about
/// the node at pre-order position `k` is `answers(k)`: the path spans, then
/// the static spans, sorted (not merged).
pub open spec fn spec_zsh_with_paths_answered(source: Seq<char>, answers: spec_fn(int) -> Option<PathType>) -> Seq<SpanView> {
    sort_spans(dynamic_spans_answered(zsh_nodes_of(source), source, answers) + spec_zsh_static(source))
}

/// What highlighting `source` in `lang` gives, whatever `probe` answers:
/// markdown and zsh without path spans do not ask the probe; zsh with path
/// spans gives the spans for answers that the probe may give about each
/// node it is asked about.
pub open spec fn highlight_outcome<F: Fn(&str) -> Option<PathType>>(
    r: Result<Seq<SpanView>, HighlightError>,
    lang: LanguageConfig,
    source: Seq<char>,
    with_paths: bool,
    probe: F,
) -> bool {
    match lang {
        LanguageConfig::Markdown => r == spec_highlight_markdown(source),
        LanguageConfig::Zsh => if !zsh_parse_ok(source) {
            r == Err::<Seq<SpanView>, HighlightError>(HighlightError::ZshParse)
        } else if !with_paths {
            r == Ok::<Seq<SpanView>, HighlightError>(spec_zsh_static(source))
        } else {
            exists|answers: spec_fn(int) -> Option<PathType>|
                #[trigger] probe_answers(probe, zsh_nodes_of(source), source, answers)
                    && r == Ok::<Seq<SpanView>, HighlightError>(spec_zsh_with_paths_answered(source, answers))
        },
    }
}

/// Only zsh path spans depend on whether path spans are wanted (a working
/// directory given, or a dynamic engine) and on the probe: markdown
/// highlighting depends on neither, and highlighting without path spans does
/// not depend on the probe.
pub proof fn law_paths_only_touch_zsh<F: Fn(&str) -> Option<PathType>, G: Fn(&str) -> Option<PathType>>(
    r: Result<Seq<SpanView>, HighlightError>,
    lang: LanguageConfig,
    source: Seq<char>,
    with_paths: bool,
    p: F,
    q: G,
    f: spec_fn(Seq<char>) -> Option<PathType>,
    g: spec_fn(Seq<char>) -> Option<PathType>,
)
    ensures
        highlight_outcome(r, LanguageConfig::Markdown, source, with_paths, p)
            == highlight_outcome(r, LanguageConfig::Markdown, source, false, q),
        highlight_outcome(r, lang, source, false, p) == highlight_outcome(r, lang, source, false, q),
        spec_highlight(LanguageConfig::Markdown, source, with_paths, f) == spec_highlight(LanguageConfig::Markdown, source, false, g),
        spec_highlight(lang, source, false, f) == spec_highlight(lang, source, false, g),
{
}

proof fn lemma_capture_spans_within(caps: Seq<CaptureView>, table: Seq<usize>, char_len: int, skip_fence: bool)
    requires
        0 <= char_len,
    ensures
        forall|i: int| 0 <= i < capture_spans(caps, table, char_len, skip_fence).len()
            ==> span_within(#[trigger] capture_spans(caps, table, char_len, skip_fence)[i], char_len)
                && capture_spans(caps, table, char_len, skip_fence)[i].start < capture_spans(caps, table, char_len, skip_fence)[i].end
                && !is_meta_capture(capture_spans(caps, table, char_len, skip_fence)[i].style),
    decreases caps.len(),
{
    if caps.len() > 0 {
        let c = caps.last();
        let rest = capture_spans(caps.drop_last(), table, char_len, skip_fence);
        lemma_capture_spans_within(caps.drop_last(), table, char_len, skip_fence);
        if !(skip_fence && c.node_kind == "code_fence_content"@) {
            if let Some(sp) = spec_capture_to_span(c.name, c.start_byte as int, c.end_byte as int, table, char_len) {
                let (cs, ce) = char_range(table, c.start_byte as int, c.end_byte as int, char_len);
                assert(0 <= cs < ce <= char_len);
                assert(sp.start == cs && sp.end == ce);
                assert(span_within(sp, char_len));
                let r = rest.push(sp);
                assert forall|i: int| 0 <= i < r.len() implies span_within(#[trigger] r[i], char_len) && r[i].start
                    < r[i].end && !is_meta_capture(r[i].style) by {
                    if i < rest.len() {
                        assert(r[i] == rest[i]);
                    }
                }
            }
        }
    }
}

proof fn lemma_inline_spans_within(idxs: Seq<int>, text: Seq<char>, table: Seq<usize>)
    ensures
        forall|i: int| 0 <= i < inline_spans(idxs, text, table).len()
            ==> span_within(#[trigger] inline_spans(idxs, text, table)[i], text.len() as int)
                && inline_spans(idxs, text, table)[i].start < inline_spans(idxs, text, table)[i].end
                && !is_meta_capture(inline_spans(idxs, text, table)[i].style),
    decreases idxs.len(),
{
    if idxs.len() > 0 {
        let d = idxs.drop_last();
        lemma_inline_spans_within(d, text, table);
        let a = inline_spans(d, text, table);
        let b = capture_spans(md_inline_captures_of(text, idxs.last()), table, text.len() as int, false);
        lemma_capture_spans_within(md_inline_captures_of(text, idxs.last()), table, text.len() as int, false);
        assert forall|i: int| 0 <= i < (a + b).len() implies span_within(#[trigger] (a + b)[i], text.len() as int)
            && (a + b)[i].start < (a + b)[i].end && !is_meta_capture((a + b)[i].style) by {
            if i >= a.len() {
                assert((a + b)[i] == b[i - a.len()]);
            }
        }
    }
}

/// The facts about the text's byte table that the spans rest on: one entry
/// per byte and one more, each at most the number of characters `n`, in
/// order.
pub open spec fn table_fits(table: Seq<usize>, n: int) -> bool {
    &&& table.len() > 0
    &&& forall|b: int| 0 <= b < table.len() ==> #[trigger] table[b] <= n
    &&& forall|b1: int, b2: int| 0 <= b1 <= b2 < table.len() ==> #[trigger] table[b1] <= #[trigger] table[b2]
}

proof fn lemma_table_fits(cs: Seq<char>)
    requires
        cs.len() <= usize::MAX,
    ensures
        table_fits(byte_to_char(cs), cs.len() as int),
{
    crate::spans::law_byte_to_char_counts_characters(cs);
}

proof fn lemma_injection_spans_within(caps: Seq<CaptureView>, code: Seq<char>, code_start: int, table: Seq<usize>, n: int)
    requires
        0 <= code_start,
        code.len() <= usize::MAX,
        table_fits(table, n),
    ensures
        forall|i: int| 0 <= i < injection_spans(caps, code, code_start, table).len()
            ==> span_within(#[trigger] injection_spans(caps, code, code_start, table)[i], n),
    decreases caps.len(),
{
    if caps.len() > 0 {
        lemma_injection_spans_within(caps.drop_last(), code, code_start, table, n);
        lemma_table_fits(code);
        let c = caps.last();
        let ctable = byte_to_char(code);
        let source_len = ctable.len() - 1;
        let start = crate::spans::min(c.start_byte as int, source_len);
        let end = crate::spans::min(c.end_byte as int, source_len);
        let lcs = crate::spans::min(ctable[start] as int, code.len() as int);
        let lce = crate::spans::min(ctable[end] as int, code.len() as int);
        if lcs >= lce || c.name == "none"@ {
            assert(injection_spans(caps, code, code_start, table) == injection_spans(caps.drop_last(), code, code_start, table));
        }
        if lcs < lce {
            if end <= start {
                assert(ctable[end] <= ctable[start]);
            }
            let last = table.len() - 1;
            let ds = crate::spans::min(code_start + start, last);
            let de = crate::spans::min(code_start + end, last);
            assert(table[ds] <= table[de]);
            assert(table[de] <= n);
            if c.name != "none"@ {
                let rest = injection_spans(caps.drop_last(), code, code_start, table);
                let r = rest.push(SpanView { start: table[ds], end: table[de], style: c.name });
                assert(injection_spans(caps, code, code_start, table) == r);
                assert forall|i: int| 0 <= i < r.len() implies span_within(#[trigger] r[i], n) by {
                    if i < rest.len() {
                        assert(r[i] == rest[i]);
                    }
                }
            }
        }
    }
}

proof fn lemma_fences_spans_within(blocks: Seq<int>, nodes: Seq<NodeView>, text: Seq<char>, table: Seq<usize>)
    requires
        text.len() <= usize::MAX,
        table_fits(table, text.len() as int),
    ensures
        forall|i: int| 0 <= i < fences_spans(blocks, nodes, text, table).len()
            ==> span_within(#[trigger] fences_spans(blocks, nodes, text, table)[i], text.len() as int),
    decreases blocks.len(),
{
    if blocks.len() > 0 {
        let d = blocks.drop_last();
        lemma_fences_spans_within(d, nodes, text, table);
        let a = fences_spans(d, nodes, text, table);
        let b = fence_spans(nodes, blocks.last(), text, table);
        let (lang, content) = fence_info(nodes, blocks.last());
        if let Some(c) = content {
            let code = byte_slice(text, c.0 as int, c.1 as int);
            assert(code.len() <= text.len());
            lemma_injection_spans_within(zsh_captures_of(code), code, c.0 as int, table, text.len() as int);
        }
        assert forall|i: int| 0 <= i < (a + b).len() implies span_within(#[trigger] (a + b)[i], text.len() as int) by {
            if i >= a.len() {
                assert((a + b)[i] == b[i - a.len()]);
            }
        }
    }
}

/// None of the zsh query's capture names is a meta capture.
proof fn lemma_zsh_names_not_meta(x: Seq<char>)
    requires
        zsh_capture_names().contains(x),
    ensures
        !is_meta_capture(x),
{
    reveal_strlit("string");
    reveal_strlit("function");
    reveal_strlit("property");
    reveal_strlit("keyword");
    reveal_strlit("comment");
    reveal_strlit("number");
    reveal_strlit("embedded");
    reveal_strlit("operator");
    reveal_strlit("constant");
    reveal_strlit("none");
    reveal_strlit("injection.content");
    reveal_strlit("injection.language");
    let names = zsh_capture_names();
    let k = choose|k: int| 0 <= k < names.len() && names[k] == x;
    assert(names[k].len() != 4 && names[k].len() != 17 && names[k].len() != 18) by {
        if k == 0 {
        } else if k == 1 {
        } else if k == 2 {
        } else if k == 3 {
        } else if k == 4 {
        } else if k == 5 {
        } else if k == 6 {
        } else if k == 7 {
        } else {
            assert(k == 8);
        }
    }
}

/// Zsh spans of a shell code block, from captures named by the zsh query,
/// are in none of the meta styles.
proof fn lemma_injection_styles(caps: Seq<CaptureView>, code: Seq<char>, code_start: int, table: Seq<usize>)
    requires
        forall|i: int| 0 <= i < caps.len() ==> #[trigger] zsh_capture_names().contains(caps[i].name),
    ensures
        crate::spans::no_meta_styles(injection_spans(caps, code, code_start, table)),
    decreases caps.len(),
{
    if caps.len() > 0 {
        let d = caps.drop_last();
        assert forall|i: int| 0 <= i < d.len() implies #[trigger] zsh_capture_names().contains(d[i].name) by {
            assert(d[i] == caps[i]);
        }
        lemma_injection_styles(d, code, code_start, table);
        let c = caps.last();
        assert(zsh_capture_names().contains(caps[caps.len() - 1].name));
        lemma_zsh_names_not_meta(c.name);
        let rest = injection_spans(d, code, code_start, table);
        let r = injection_spans(caps, code, code_start, table);
        assert forall|i: int| 0 <= i < r.len() implies !is_meta_capture(#[trigger] r[i].style) by {
            if i < rest.len() {
                assert(r[i] == rest[i]);
            }
        }
    }
}

/// The spans that zsh highlighting of shell code blocks adds to a markdown
/// source.
pub open spec fn md_shell_spans(source: Seq<char>) -> Seq<SpanView> {
    let text = md_text(source);
    let nodes = md_block_nodes_of(text);
    fences_spans(collect_by_kind(nodes, "fenced_code_block"@), nodes, text, byte_to_char(text))
}

/// Whether byte offset `b` of the UTF-8 encoding of `text` is where a
/// character starts (or the end).
pub open spec fn on_char_boundary(text: Seq<char>, b: int) -> bool {
    exists|a: int| 0 <= a <= text.len() && #[trigger] utf8_len(text.take(a)) == b
}

/// Whether the content of every fenced code block of the markdown tree of
/// `source` starts where a character starts.
pub open spec fn fence_contents_aligned(source: Seq<char>) -> bool {
    let text = md_text(source);
    forall|b: int|
        (#[trigger] fence_info(md_block_nodes_of(text), b)).1 matches Some(c) ==> on_char_boundary(text, c.0 as int)
}

proof fn lemma_injection_spans_nonempty(caps: Seq<CaptureView>, text: Seq<char>, a: int, e: int)
    requires
        text.len() <= usize::MAX,
        0 <= a <= e <= text.len(),
    ensures
        forall|i: int| 0 <= i < injection_spans(caps, text.subrange(a, e), utf8_len(text.take(a)) as int, byte_to_char(text)).len()
            ==> #[trigger] injection_spans(caps, text.subrange(a, e), utf8_len(text.take(a)) as int, byte_to_char(text))[i].start
                < injection_spans(caps, text.subrange(a, e), utf8_len(text.take(a)) as int, byte_to_char(text))[i].end,
    decreases caps.len(),
{
    let code = text.subrange(a, e);
    let c0 = utf8_len(text.take(a)) as int;
    let table = byte_to_char(text);
    if caps.len() > 0 {
        lemma_injection_spans_nonempty(caps.drop_last(), text, a, e);
        lemma_table_fits(code);
        crate::spans::law_byte_to_char_counts_characters(code);
        crate::spans::law_byte_to_char_counts_characters(text);
        let c = caps.last();
        let ctable = byte_to_char(code);
        let source_len = ctable.len() - 1;
        let start = crate::spans::min(c.start_byte as int, source_len);
        let end = crate::spans::min(c.end_byte as int, source_len);
        let lcs = crate::spans::min(ctable[start] as int, code.len() as int);
        let lce = crate::spans::min(ctable[end] as int, code.len() as int);
        let rest = injection_spans(caps.drop_last(), code, c0, table);
        if lcs >= lce || c.name == "none"@ {
            assert(injection_spans(caps, code, c0, table) == rest);
        } else {
            crate::spans::lemma_byte_to_char_of_piece(text, a, e, start);
            crate::spans::lemma_byte_to_char_of_piece(text, a, e, end);
            let last = table.len() - 1;
            assert(crate::spans::min(c0 + start, last) == c0 + start);
            assert(crate::spans::min(c0 + end, last) == c0 + end);
            let r = rest.push(SpanView { start: table[c0 + start], end: table[c0 + end], style: c.name });
            assert(injection_spans(caps, code, c0, table) == r);
            assert forall|i: int| 0 <= i < r.len() implies #[trigger] r[i].start < r[i].end by {
                if i < rest.len() {
                    assert(r[i] == rest[i]);
                }
            }
        }
    }
}

proof fn lemma_fences_spans_nonempty(blocks: Seq<int>, source: Seq<char>)
    requires
        md_text(source).len() <= usize::MAX,
        fence_contents_aligned(source),
    ensures
        forall|i: int| 0 <= i < fences_spans(blocks, md_block_nodes_of(md_text(source)), md_text(source), byte_to_char(md_text(source))).len()
            ==> #[trigger] fences_spans(blocks, md_block_nodes_of(md_text(source)), md_text(source), byte_to_char(md_text(source)))[i].start
                < fences_spans(blocks, md_block_nodes_of(md_text(source)), md_text(source), byte_to_char(md_text(source)))[i].end,
    decreases blocks.len(),
{
    let text = md_text(source);
    let nodes = md_block_nodes_of(text);
    let table = byte_to_char(text);
    if blocks.len() > 0 {
        let d = blocks.drop_last();
        lemma_fences_spans_nonempty(d, source);
        let fa = fences_spans(d, nodes, text, table);
        let fb = fence_spans(nodes, blocks.last(), text, table);
        let (lang, content) = fence_info(nodes, blocks.last());
        if let Some(c) = content {
            assert(on_char_boundary(text, c.0 as int));
            let a = choose|a: int| 0 <= a <= text.len() && #[trigger] utf8_len(text.take(a)) == c.0 as int;
            crate::spans::law_byte_to_char_maps_bytes_to_their_characters(text);
            crate::spans::law_byte_to_char_counts_characters(text);
            crate::spans::lemma_utf8_len_prefixes_grow(text, a, text.len() as int);
            assert(text.take(text.len() as int) =~= text);
            let (ca, cb) = char_range(table, c.0 as int, c.1 as int, text.len() as int);
            assert(ca == a);
            let code = byte_slice(text, c.0 as int, c.1 as int);
            let e = if ca <= cb { cb } else { a };
            assert(code =~= text.subrange(a, e));
            lemma_injection_spans_nonempty(zsh_captures_of(code), text, a, e);
        }
        assert forall|i: int| 0 <= i < (fa + fb).len() implies #[trigger] (fa + fb)[i].start < (fa + fb)[i].end by {
            if i >= fa.len() {
                assert((fa + fb)[i] == fb[i - fa.len()]);
            } else {
                assert((fa + fb)[i] == fa[i]);
            }
        }
    }
}

proof fn lemma_injection_spans_contain(caps: Seq<CaptureView>, text: Seq<char>, a: int, e: int, q: int)
    requires
        text.len() <= usize::MAX,
        0 <= a <= e <= text.len(),
        0 <= q < caps.len(),
        caps[q].name != "none"@,
        char_range(byte_to_char(text.subrange(a, e)), caps[q].start_byte as int, caps[q].end_byte as int, e - a).0
            < char_range(byte_to_char(text.subrange(a, e)), caps[q].start_byte as int, caps[q].end_byte as int, e - a).1,
    ensures
        injection_spans(caps, text.subrange(a, e), utf8_len(text.take(a)) as int, byte_to_char(text)).contains(
            SpanView {
                start: (a + char_range(byte_to_char(text.subrange(a, e)), caps[q].start_byte as int, caps[q].end_byte as int, e - a).0) as usize,
                end: (a + char_range(byte_to_char(text.subrange(a, e)), caps[q].start_byte as int, caps[q].end_byte as int, e - a).1) as usize,
                style: caps[q].name,
            },
        ),
    decreases caps.len(),
{
    let code = text.subrange(a, e);
    let c0 = utf8_len(text.take(a)) as int;
    let table = byte_to_char(text);
    let c = caps[q];
    let (cs, ce) = char_range(byte_to_char(code), c.start_byte as int, c.end_byte as int, e - a);
    let x = SpanView { start: (a + cs) as usize, end: (a + ce) as usize, style: c.name };
    let rest = injection_spans(caps.drop_last(), code, c0, table);
    if q < caps.len() - 1 {
        assert(caps.drop_last()[q] == c);
        lemma_injection_spans_contain(caps.drop_last(), text, a, e, q);
        let r = injection_spans(caps, code, c0, table);
        let w = choose|w: int| 0 <= w < rest.len() && rest[w] == x;
        assert(r[w] == rest[w]);
    } else {
        lemma_table_fits(code);
        crate::spans::law_byte_to_char_counts_characters(code);
        let ctable = byte_to_char(code);
        let source_len = ctable.len() - 1;
        let start = crate::spans::min(c.start_byte as int, source_len);
        let end = crate::spans::min(c.end_byte as int, source_len);
        assert(cs == ctable[start] as int);
        assert(ce == ctable[end] as int);
        crate::spans::lemma_byte_to_char_of_piece(text, a, e, start);
        crate::spans::lemma_byte_to_char_of_piece(text, a, e, end);
        crate::spans::law_byte_to_char_counts_characters(text);
        let last = table.len() - 1;
        assert(crate::spans::min(c0 + start, last) == c0 + start);
        assert(crate::spans::min(c0 + end, last) == c0 + end);
        let r = rest.push(SpanView { start: table[c0 + start], end: table[c0 + end], style: c.name });
        assert(injection_spans(caps, code, c0, table) == r);
        assert(r[r.len() - 1] == x);
    }
}

proof fn lemma_fences_spans_contain(blocks: Seq<int>, nodes: Seq<NodeView>, text: Seq<char>, table: Seq<usize>, k: int, x: SpanView)
    requires
        0 <= k < blocks.len(),
        fence_spans(nodes, blocks[k], text, table).contains(x),
    ensures
        fences_spans(blocks, nodes, text, table).contains(x),
    decreases blocks.len(),
{
    let d = blocks.drop_last();
    let fa = fences_spans(d, nodes, text, table);
    let fb = fence_spans(nodes, blocks.last(), text, table);
    if k < blocks.len() - 1 {
        assert(d[k] == blocks[k]);
        lemma_fences_spans_contain(d, nodes, text, table, k, x);
        let w = choose|w: int| 0 <= w < fa.len() && fa[w] == x;
        assert((fa + fb)[w] == x);
    } else {
        let w = choose|w: int| 0 <= w < fb.len() && fb[w] == x;
        assert((fa + fb)[fa.len() + w] == x);
    }
}

/// The outermost fenced code blocks of the markdown tree of `source`, as
/// pre-order positions.
pub open spec fn md_code_blocks(source: Seq<char>) -> Seq<int> {
    collect_by_kind(md_block_nodes_of(md_text(source)), "fenced_code_block"@)
}

/// The text of the byte range `r` of the parsed markdown text of `source`.
pub open spec fn md_piece(source: Seq<char>, r: (usize, usize)) -> Seq<char> {
    byte_slice(md_text(source), r.0 as int, r.1 as int)
}

/// A fenced code block whose info-string language is exactly `zsh`, `bash`,
/// `sh` or `shell` gets zsh highlighting: each capture of the zsh query over
/// its content (but `none`) whose range holds a character gives a span over
/// that range, moved to the document (the content starting at character
/// `a`), in the capture's style; in the markdown spans some span of that
/// style holds it (merging may join it with touching spans).
#[verifier::rlimit(40)]
pub proof fn law_shell_blocks_get_zsh_spans(
    source: Seq<char>,
    k: int,
    lang: (usize, usize),
    content: (usize, usize),
    a: int,
    q: int,
)
    requires
        md_text(source).len() <= usize::MAX,
        0 <= k < md_code_blocks(source).len(),
        fence_info(md_block_nodes_of(md_text(source)), md_code_blocks(source)[k]) == (Some(lang), Some(content)),
        md_piece(source, lang) == "zsh"@ || md_piece(source, lang) == "bash"@ || md_piece(source, lang) == "sh"@
            || md_piece(source, lang) == "shell"@,
        0 <= a <= md_text(source).len(),
        utf8_len(md_text(source).take(a)) == content.0,
        zsh_parse_ok(md_piece(source, content)),
        0 <= q < zsh_captures_of(md_piece(source, content)).len(),
        zsh_captures_of(md_piece(source, content))[q].name != "none"@,
        char_range(
            byte_to_char(md_piece(source, content)),
            zsh_captures_of(md_piece(source, content))[q].start_byte as int,
            zsh_captures_of(md_piece(source, content))[q].end_byte as int,
            md_piece(source, content).len() as int,
        ).0 < char_range(
            byte_to_char(md_piece(source, content)),
            zsh_captures_of(md_piece(source, content))[q].start_byte as int,
            zsh_captures_of(md_piece(source, content))[q].end_byte as int,
            md_piece(source, content).len() as int,
        ).1,
    ensures
        exists|j: int|
            0 <= j < spec_markdown_spans(source).len() && covers(
                #[trigger] spec_markdown_spans(source)[j],
                SpanView {
                    start: (a + char_range(
                        byte_to_char(md_piece(source, content)),
                        zsh_captures_of(md_piece(source, content))[q].start_byte as int,
                        zsh_captures_of(md_piece(source, content))[q].end_byte as int,
                        md_piece(source, content).len() as int,
                    ).0) as usize,
                    end: (a + char_range(
                        byte_to_char(md_piece(source, content)),
                        zsh_captures_of(md_piece(source, content))[q].start_byte as int,
                        zsh_captures_of(md_piece(source, content))[q].end_byte as int,
                        md_piece(source, content).len() as int,
                    ).1) as usize,
                    style: zsh_captures_of(md_piece(source, content))[q].name,
                },
            ),
{
    let text = md_text(source);
    let n = text.len() as int;
    let table = byte_to_char(text);
    let nodes = md_block_nodes_of(text);
    let blocks = md_code_blocks(source);
    let code = md_piece(source, content);
    let caps = zsh_captures_of(code);
    let c = caps[q];
    let (cs, ce) = char_range(byte_to_char(code), c.start_byte as int, c.end_byte as int, code.len() as int);
    let x = SpanView { start: (a + cs) as usize, end: (a + ce) as usize, style: c.name };
    // The content is the text from character `a` on.
    crate::spans::law_byte_to_char_maps_bytes_to_their_characters(text);
    crate::spans::law_byte_to_char_counts_characters(text);
    crate::spans::lemma_utf8_len_prefixes_grow(text, a, n);
    assert(text.take(n) =~= text);
    let (ca, cb) = char_range(table, content.0 as int, content.1 as int, n);
    assert(ca == a);
    let e = if ca <= cb { cb } else { a };
    assert(code =~= text.subrange(a, e));
    lemma_injection_spans_contain(caps, text, a, e, q);
    // The block's spans are its zsh spans.
    reveal_strlit("zsh");
    reveal_strlit("bash");
    reveal_strlit("sh");
    reveal_strlit("shell");
    assert(is_shell_language(md_piece(source, lang)));
    assert(fence_spans(nodes, blocks[k], text, table) == injection_spans(caps, code, content.0 as int, table));
    lemma_fences_spans_contain(blocks, nodes, text, table, k, x);
    let block = capture_spans(md_block_captures_of(text), table, n, true);
    let inline = inline_spans(collect_by_kind(nodes, "inline"@), text, table);
    let fences = fences_spans(blocks, nodes, text, table);
    let all = block + inline + fences;
    let w = choose|w: int| 0 <= w < fences.len() && fences[w] == x;
    assert(all[block.len() + inline.len() + w] == x);
    assert(all.contains(x));
    // Every span ends no earlier than it starts.
    lemma_table_fits(text);
    lemma_capture_spans_within(md_block_captures_of(text), table, n, true);
    lemma_inline_spans_within(collect_by_kind(nodes, "inline"@), text, table);
    lemma_fences_spans_within(blocks, nodes, text, table);
    assert forall|i: int| 0 <= i < all.len() implies span_within(#[trigger] all[i], n) by {
        if i < block.len() {
            assert(all[i] == block[i]);
        } else if i < block.len() + inline.len() {
            assert(all[i] == inline[i - block.len()]);
        } else {
            assert(all[i] == fences[i - block.len() - inline.len()]);
        }
    }
    let sorted = sort_spans(all);
    crate::spans::law_sort_spans_sorted(all);
    assert forall|i: int| 0 <= i < sorted.len() implies #[trigger] sorted[i].start <= sorted[i].end by {
        let y = sorted[i];
        assert(sorted.contains(y));
        assert(all.contains(y));
        let t = choose|t: int| 0 <= t < all.len() && all[t] == y;
        assert(span_within(all[t], n));
    }
    assert(sorted.contains(x));
    let p = choose|p: int| 0 <= p < sorted.len() && sorted[p] == x;
    crate::spans::lemma_merge_spans_covers(sorted);
    assert(sorted[p] == x);
    let j = choose|j: int| 0 <= j < merge_spans_spec(sorted).len() && covers(#[trigger] merge_spans_spec(sorted)[j], sorted[p]);
    assert(spec_markdown_spans(source) == merge_spans_spec(sorted));
    assert(covers(spec_markdown_spans(source)[j], x));
}

/// Markdown highlighting gives spans that each end no earlier than they
/// start and no later than the end of the parsed text (the source, with a
/// `\n` added where it does not end with one), none in the style `none`,
/// ordered by start, and with no span that ends where the next one starts in
/// the same style. Where the content of every fenced code block starts where
/// a character starts, every span ends after it starts; and where no shell
/// code block adds spans, none is in a meta style (`none`,
/// `injection.content`, `injection.language`).
pub proof fn law_markdown_spans_shape(source: Seq<char>)
    requires
        md_text(source).len() <= usize::MAX,
    ensures
        fence_contents_aligned(source) ==> forall|i: int| 0 <= i < spec_markdown_spans(source).len()
            ==> #[trigger] spec_markdown_spans(source)[i].start < spec_markdown_spans(source)[i].end,
        md_shell_spans(source).len() == 0 ==> no_meta_styles(spec_markdown_spans(source)),
        forall|i: int| 0 <= i < spec_markdown_spans(source).len()
            ==> span_within(#[trigger] spec_markdown_spans(source)[i], md_text(source).len() as int),
        forall|i: int| 0 <= i < spec_markdown_spans(source).len() - 1 ==> {
            &&& #[trigger] spec_markdown_spans(source)[i].start <= spec_markdown_spans(source)[i + 1].start
            &&& !mergeable(spec_markdown_spans(source)[i], spec_markdown_spans(source)[i + 1])
        },
{
    let text = md_text(source);
    let n = text.len() as int;
    let table = byte_to_char(text);
    let nodes = md_block_nodes_of(text);
    let block = capture_spans(md_block_captures_of(text), table, n, true);
    let inline = inline_spans(collect_by_kind(nodes, "inline"@), text, table);
    let fences = fences_spans(collect_by_kind(nodes, "fenced_code_block"@), nodes, text, table);
    lemma_table_fits(text);
    lemma_capture_spans_within(md_block_captures_of(text), table, n, true);
    lemma_inline_spans_within(collect_by_kind(nodes, "inline"@), text, table);
    lemma_fences_spans_within(collect_by_kind(nodes, "fenced_code_block"@), nodes, text, table);
    let all = block + inline + fences;
    assert forall|i: int| 0 <= i < all.len() implies span_within(#[trigger] all[i], n) by {
        if i < block.len() {
            assert(all[i] == block[i]);
        } else if i < block.len() + inline.len() {
            assert(all[i] == inline[i - block.len()]);
        } else {
            assert(all[i] == fences[i - block.len() - inline.len()]);
        }
    }
    let sorted = sort_spans(all);
    crate::spans::law_sort_spans_sorted(all);
    assert forall|i: int| 0 <= i < sorted.len() implies span_within(#[trigger] sorted[i], n) by {
        let y = sorted[i];
        assert(sorted.contains(y));
        assert(all.contains(y));
        let k = choose|k: int| 0 <= k < all.len() && all[k] == y;
        assert(span_within(all[k], n));
    }
    assert forall|i: int, j: int| 0 <= i < j < sorted.len() implies #[trigger] sorted[i].start <= #[trigger] sorted[j].start by {
        assert(crate::spans::span_le(sorted[i], sorted[j]));
    }
    crate::spans::lemma_merge_spans_within(sorted, n);
    crate::spans::law_merge_spans_leaves_no_mergeable_neighbours(sorted);
    if fences.len() == 0 {
        assert forall|i: int| 0 <= i < all.len() implies !is_meta_capture(#[trigger] all[i].style) by {
            if i < block.len() {
                assert(all[i] == block[i]);
            } else {
                assert(all[i] == inline[i - block.len()]);
            }
        }
        crate::spans::lemma_sort_spans_styles(all);
        crate::spans::lemma_merge_spans_styles(sorted);
    }
    if fence_contents_aligned(source) {
        lemma_fences_spans_nonempty(collect_by_kind(nodes, "fenced_code_block"@), source);
        assert forall|i: int| 0 <= i < all.len() implies #[trigger] all[i].start < all[i].end by {
            if i < block.len() {
                assert(all[i] == block[i]);
            } else if i < block.len() + inline.len() {
                assert(all[i] == inline[i - block.len()]);
            } else {
                assert(all[i] == fences[i - block.len() - inline.len()]);
            }
        }
        assert forall|i: int| 0 <= i < sorted.len() implies #[trigger] sorted[i].start < sorted[i].end by {
            let y = sorted[i];
            assert(sorted.contains(y));
            assert(all.contains(y));
            let k = choose|k: int| 0 <= k < all.len() && all[k] == y;
            assert(all[k].start < all[k].end);
        }
        crate::spans::lemma_merge_spans_nonempty(sorted);
    }
}

/// The command names of a zsh source: each `command_name` node's character
/// range and text, in pre-order.
pub open spec fn commands_from(nodes: Seq<NodeView>, source: Seq<char>) -> Seq<(usize, usize, Seq<char>)>
    decreases nodes.len(),
{
    if nodes.len() == 0 {
        Seq::empty()
    } else {
        let rest = commands_from(nodes.drop_last(), source);
        let n = nodes.last();
        let (cs, ce) = char_range(byte_to_char(source), n.start_byte as int, n.end_byte as int, source.len() as int);
        if n.kind == "command_name"@ && cs <= ce {
            rest.push((cs as usize, ce as usize, source.subrange(cs, ce)))
        } else {
            rest
        }
    }
}

/// The views of a list of command positions and names.
pub open spec fn command_views(s: Seq<(usize, usize, String)>) -> Seq<(usize, usize, Seq<char>)> {
    s.map_values(|c: (usize, usize, String)| (c.0, c.1, c.2@))
}

/// The result of a highlighting call, as values.
pub open spec fn spans_result(r: Result<Vec<Span>, HighlightError>) -> Result<Seq<SpanView>, HighlightError> {
    match r {
        Ok(v) => Ok(span_views(v@)),
        Err(e) => Err(e),
    }
}

/// Zsh highlighting: static spans, plus path spans when `with_paths` holds.
pub open spec fn spec_highlight_zsh(source: Seq<char>, with_paths: bool, probe: spec_fn(Seq<char>) -> Option<PathType>) -> Result<Seq<SpanView>, HighlightError> {
    if !zsh_parse_ok(source) {
        Err(HighlightError::ZshParse)
    } else if with_paths {
        Ok(spec_zsh_with_paths(source, probe))
    } else {
        Ok(spec_zsh_static(source))
    }
}

/// Markdown highlighting.
pub open spec fn spec_highlight_markdown(source: Seq<char>) -> Result<Seq<SpanView>, HighlightError> {
    if markdown_parse_ok(md_text(source)) {
        Ok(spec_markdown_spans(source))
    } else {
        Err(HighlightError::MarkdownParse)
    }
}

/// Highlighting of `source` in `lang`, with path spans (for zsh) when `with_paths` holds.
pub open spec fn spec_highlight(lang: LanguageConfig, source: Seq<char>, with_paths: bool, probe: spec_fn(Seq<char>) -> Option<PathType>) -> Result<Seq<SpanView>, HighlightError> {
    match lang {
        LanguageConfig::Zsh => spec_highlight_zsh(source, with_paths, probe),
        LanguageConfig::Markdown => spec_highlight_markdown(source),
    }
}

impl HighlightEngine {
    /// Static zsh highlighting: the captures of the highlight query, sorted and merged.
    fn highlight_zsh_static(&self, source: &str) -> (r: Result<(ParsedZsh, Vec<Span>), HighlightError>)
        ensures
            match r {
                Ok((p, v)) => zsh_parse_ok(source@) && p.text() == source@ && span_views(v@) == spec_zsh_static(source@),
                Err(e) => !zsh_parse_ok(source@) && e == HighlightError::ZshParse,
            },
    {
        let parsed = match parse_zsh(source) {
            Some(p) => p,
            None => {
                return Err(HighlightError::ZshParse);
            },
        };
        let caps = zsh_query_captures(self, &parsed);
        let table = build_byte_to_char_table(source);
        let char_len = source.unicode_len();
        let mut spans: Vec<Span> = Vec::new();
        push_capture_spans(&mut spans, &caps, &table, char_len, false);
        assert(span_views(spans@) =~= capture_spans(zsh_captures_of(source@), byte_to_char(source@), source@.len() as int, false));
        let sorted = sort_spans_by_position(&spans);
        Ok((parsed, merge_spans(sorted)))
    }

    fn highlight_zsh<F: Fn(&str) -> Option<PathType>>(&self, source: &str, with_paths: bool, probe: &F) -> (r: Result<Vec<Span>, HighlightError>)
        requires
            forall|p: &str| #[trigger] call_requires(*probe, (p,)),
        ensures
            highlight_outcome(spans_result(r), LanguageConfig::Zsh, source@, with_paths, *probe),
            forall|f: spec_fn(Seq<char>) -> Option<PathType>| #[trigger] probes_as(*probe, f) ==>
                spans_result(r) == spec_highlight_zsh(source@, with_paths, f),
    {
        let (parsed, static_spans) = self.highlight_zsh_static(source)?;
        if !with_paths {
            return Ok(static_spans);
        }
        let mut all = match dynamic_highlight_zsh(&parsed, source, probe) {
            Ok(v) => v,
            Err(e) => {
                return Err(e);
            },
        };
        let ghost dyn_part = span_views(all@);
        let mut k: usize = 0;
        while k < static_spans.len()
            invariant
                0 <= k <= static_spans@.len(),
                span_views(all@) == dyn_part + span_views(static_spans@).take(k as int),
            decreases static_spans@.len() - k,
        {
            let ghost prev = span_views(all@);
            let c = static_spans[k].copy();
            all.push(c);
            assert(span_views(all@) =~= prev.push(c@));
            assert(span_views(static_spans@).take(k + 1) =~= span_views(static_spans@).take(k as int).push(static_spans@[k as int]@));
            assert(span_views(all@) =~= dyn_part + span_views(static_spans@).take(k + 1));
            k = k + 1;
        }
        assert(span_views(static_spans@).take(static_spans@.len() as int) == span_views(static_spans@));
        let r = sort_spans_by_position(&all);
        proof {
            let answers = choose|answers: spec_fn(int) -> Option<PathType>|
                #[trigger] probe_answers(*probe, zsh_nodes_of(parsed.text()), source@, answers)
                    && dyn_part == dynamic_spans_answered(zsh_nodes_of(parsed.text()), source@, answers);
            assert(span_views(r@) == spec_zsh_with_paths_answered(source@, answers));
        }
        Ok(r)
    }

    /// Highlights `source` in `lang`. For zsh on an engine with dynamic
    /// highlighting, words that look like paths are looked up with `probe`
    /// and the paths it finds get path spans.
    pub fn highlight<F: Fn(&str) -> Option<PathType>>(&self, lang: LanguageConfig, source: &str, probe: &F) -> (r: Result<Vec<Span>, HighlightError>)
        requires
            forall|p: &str| #[trigger] call_requires(*probe, (p,)),
        ensures
            highlight_outcome(spans_result(r), lang, source@, self.is_dynamic(), *probe),
            forall|f: spec_fn(Seq<char>) -> Option<PathType>| #[trigger] probes_as(*probe, f) ==>
                spans_result(r) == spec_highlight(lang, source@, self.is_dynamic(), f),
            lang is Markdown ==> (spans_result(r) matches Ok(v) ==> no_meta_styles(v)),
    {
        match lang {
            LanguageConfig::Zsh => self.highlight_zsh(source, self.dynamic, probe),
            LanguageConfig::Markdown => self.highlight_markdown(source),
        }
    }

    /// Highlights `source` in `lang` for a command line typed in a known
    /// working directory: when `pwd` is given, zsh highlighting always adds
    /// path spans found by `probe` (which resolves paths against `pwd`);
    /// otherwise this is `highlight`.
    pub fn highlight_with_pwd<F: Fn(&str) -> Option<PathType>>(
        &self,
        lang: LanguageConfig,
        source: &str,
        pwd: Option<&str>,
        probe: &F,
    ) -> (r: Result<Vec<Span>, HighlightError>)
        requires
            forall|p: &str| #[trigger] call_requires(*probe, (p,)),
        ensures
            highlight_outcome(spans_result(r), lang, source@, pwd is Some || self.is_dynamic(), *probe),
            forall|f: spec_fn(Seq<char>) -> Option<PathType>| #[trigger] probes_as(*probe, f) ==>
                spans_result(r) == spec_highlight(lang, source@, pwd is Some || self.is_dynamic(), f),
            lang is Markdown ==> (spans_result(r) matches Ok(v) ==> no_meta_styles(v)),
    {
        match pwd {
            Some(_) => match lang {
                LanguageConfig::Zsh => self.highlight_zsh(source, true, probe),
                LanguageConfig::Markdown => self.highlight_markdown(source),
            },
            None => self.highlight(lang, source, probe),
        }
    }

    /// Extract command name positions from zsh source.
    /// Returns (start_char, end_char, name) for each `command_name` node.
    pub fn extract_zsh_commands(&self, source: &str) -> (r: Result<Vec<(usize, usize, String)>, HighlightError>)
        ensures
            match r {
                Ok(v) => zsh_parse_ok(source@) && command_views(v@) == commands_from(zsh_nodes_of(source@), source@),
                Err(e) => !zsh_parse_ok(source@) && e == HighlightError::ZshParse,
            },
    {
        let parsed = match parse_zsh(source) {
            Some(p) => p,
            None => {
                return Err(HighlightError::ZshParse);
            },
        };
        let nodes = zsh_tree_nodes(&parsed);
        let table = build_byte_to_char_table(source);
        let char_len = source.unicode_len();
        let ghost nv = node_views(nodes@);
        let mut out: Vec<(usize, usize, String)> = Vec::new();
        let mut i: usize = 0;
        while i < nodes.len()
            invariant
                table@ == byte_to_char(source@),
                char_len == source@.len(),
                nv == node_views(nodes@),
                nv == zsh_nodes_of(source@),
                0 <= i <= nodes@.len(),
                command_views(out@) == commands_from(nv.take(i as int), source@),
            decreases nodes@.len() - i,
        {
            let n = &nodes[i];
            proof {
                let t = nv.take(i + 1);
                assert(t.drop_last() == nv.take(i as int));
                assert(t.last() == n@);
            }
            let ghost prev = command_views(out@);
            if str_eq(n.kind.as_str(), "command_name") {
                let (cs, ce) = char_range_of(&table, n.start_byte, n.end_byte, char_len);
                if cs <= ce {
                    let name = String::from_str(source.substring_char(cs, ce));
                    out.push((cs, ce, name));
                    assert(command_views(out@) =~= prev.push((cs, ce, name@)));
                }
            }
            i = i + 1;
        }
        assert(nv.take(nodes@.len() as int) == nv);
        Ok(out)
    }

    fn highlight_markdown(&self, source: &str) -> (r: Result<Vec<Span>, HighlightError>)
        ensures
            spans_result(r) == spec_highlight_markdown(source@),
            spans_result(r) matches Ok(v) ==> no_meta_styles(v),
    {
        proof {
            reveal_strlit("\n");
        }
        let n0 = source.unicode_len();
        let ends_with_newline = n0 > 0 && source.get_char(n0 - 1) == '\n';
        let text = if ends_with_newline {
            String::from_str(source)
        } else {
            concat(source, "\n")
        };
        assert(text@ == md_text(source@));
        let doc = match parse_markdown(text.as_str()) {
            Some(d) => d,
            None => {
                return Err(HighlightError::MarkdownParse);
            },
        };
        let ghost tv = text@;
        let table = build_byte_to_char_table(text.as_str());
        let n = text.unicode_len();
        let mut spans: Vec<Span> = Vec::new();

        // 1. Block captures, except code fence contents.
        let block_caps = md_block_captures(self, &doc);
        push_capture_spans(&mut spans, &block_caps, &table, n, true);
        let ghost block = span_views(spans@);

        // 2. Inline captures of every inline node.
        let nodes = md_block_nodes(&doc);
        let ghost nv = node_views(nodes@);
        let inline_nodes = collect_nodes_by_kind(&nodes, "inline");
        let ghost idxs = inline_nodes@.map_values(|i: usize| i as int);
        let mut k: usize = 0;
        while k < inline_nodes.len()
            invariant
                table@ == byte_to_char(tv),
                table@.len() > 0,
                n == tv.len(),
                doc.text() == tv,
                idxs == inline_nodes@.map_values(|i: usize| i as int),
                0 <= k <= inline_nodes@.len(),
                span_views(spans@) == block + inline_spans(idxs.take(k as int), tv, table@),
            decreases inline_nodes@.len() - k,
        {
            let caps = md_inline_captures(self, &doc, inline_nodes[k]);
            let ghost prev = span_views(spans@);
            push_capture_spans(&mut spans, &caps, &table, n, false);
            proof {
                let t = idxs.take(k + 1);
                assert(t.drop_last() == idxs.take(k as int));
                assert(t.last() == inline_nodes@[k as int] as int);
            }
            assert(span_views(spans@) =~= block + inline_spans(idxs.take(k + 1), tv, table@));
            k = k + 1;
        }
        assert(idxs.take(inline_nodes@.len() as int) == idxs);
        let ghost with_inline = span_views(spans@);
        proof {
            lemma_capture_spans_within(capture_views(block_caps@), table@, n as int, true);
            lemma_inline_spans_within(idxs, tv, table@);
            let il = inline_spans(idxs, tv, table@);
            assert(block =~= Seq::<SpanView>::empty() + capture_spans(capture_views(block_caps@), table@, n as int, true));
            assert forall|i: int| 0 <= i < with_inline.len() implies !is_meta_capture(#[trigger] with_inline[i].style) by {
                if i < block.len() {
                    assert(with_inline[i] == block[i]);
                } else {
                    assert(with_inline[i] == il[i - block.len()]);
                }
            }
        }

        // 3. Zsh highlighting inside shell code blocks.
        let blocks = collect_nodes_by_kind(&nodes, "fenced_code_block");
        let ghost bidx = blocks@.map_values(|i: usize| i as int);
        let mut b: usize = 0;
        while b < blocks.len()
            invariant
                table@ == byte_to_char(tv),
                table@.len() > 0,
                text@ == tv,
                nv == node_views(nodes@),
                nv == md_block_nodes_of(tv),
                bidx == blocks@.map_values(|i: usize| i as int),
                forall|j: int| 0 <= j < blocks@.len() ==> #[trigger] blocks@[j] < nodes@.len(),
                0 <= b <= blocks@.len(),
                span_views(spans@) == with_inline + fences_spans(bidx.take(b as int), nv, tv, table@),
                no_meta_styles(span_views(spans@)),
            decreases blocks@.len() - b,
        {
            let bi = blocks[b];
            let ghost prev = span_views(spans@);
            let (lang, content) = fence_info_of(&nodes, bi);
            if let Some((ls, le)) = lang {
                let language = byte_slice_of(text.as_str(), &table, ls, le);
                let shell = str_eq(language, "zsh") || str_eq(language, "bash") || str_eq(language, "sh") || str_eq(language, "shell");
                if shell {
                    if let Some((cs, ce)) = content {
                        let code = byte_slice_of(text.as_str(), &table, cs, ce);
                        if let Some(parsed) = parse_zsh(code) {
                            let caps = zsh_query_captures(self, &parsed);
                            let ghost before = span_views(spans@);
                            push_injection_spans(&mut spans, &caps, code, cs, &table);
                            proof {
                                let cv = capture_views(caps@);
                                assert forall|i: int| 0 <= i < cv.len() implies #[trigger] zsh_capture_names().contains(cv[i].name) by {
                                    assert(cv[i].name == caps@[i].name@);
                                }
                                lemma_injection_styles(cv, code@, cs as int, table@);
                                let inj = injection_spans(cv, code@, cs as int, table@);
                                let now = span_views(spans@);
                                assert forall|i: int| 0 <= i < now.len() implies !is_meta_capture(#[trigger] now[i].style) by {
                                    if i < before.len() {
                                        assert(now[i] == before[i]);
                                    } else {
                                        assert(now[i] == inj[i - before.len()]);
                                    }
                                }
                            }
                        }
                    }
                }
            }
            proof {
                let t = bidx.take(b + 1);
                assert(t.drop_last() == bidx.take(b as int));
                assert(t.last() == bi as int);
            }
            assert(span_views(spans@) =~= with_inline + fences_spans(bidx.take(b + 1), nv, tv, table@));
            b = b + 1;
        }
        assert(bidx.take(blocks@.len() as int) == bidx);
        let sorted = sort_spans_by_position(&spans);
        proof {
            crate::spans::lemma_sort_spans_styles(span_views(spans@));
            crate::spans::lemma_merge_spans_styles(span_views(sorted@));
        }
        Ok(merge_spans(sorted))
    }
}

/// One-shot highlighting: builds an engine (with dynamic highlighting) and highlights `text`.
pub fn highlight_one_shot<F: Fn(&str) -> Option<PathType>>(lang: LanguageConfig, text: &str, probe: &F) -> (r: Result<Vec<Span>, HighlightError>)
    requires
        forall|p: &str| #[trigger] call_requires(*probe, (p,)),
    ensures
        highlight_outcome(spans_result(r), lang, text@, true, *probe),
        forall|f: spec_fn(Seq<char>) -> Option<PathType>| #[trigger] probes_as(*probe, f) ==>
            spans_result(r) == spec_highlight(lang, text@, true, f),
        lang is Markdown ==> (spans_result(r) matches Ok(v) ==> no_meta_styles(v)),
{
    let engine = match HighlightEngine::new() {
        Ok(e) => e,
        Err(e) => {
            return Err(e);
        },
    };
    engine.highlight(lang, text, probe)
}

// ---------------------------------------------------------------------------
// Capture names
// ---------------------------------------------------------------------------

/// Whether `a` comes strictly before `b` in the order of their characters'
/// code points (which is the byte order of their UTF-8 encodings).
pub open spec fn str_lt(a: Seq<char>, b: Seq<char>) -> bool
    decreases a.len(),
{
    if a.len() == 0 {
        b.len() > 0
    } else if b.len() == 0 {
        false
    } else if a[0] < b[0] {
        true
    } else if a[0] == b[0] {
        str_lt(a.drop_first(), b.drop_first())
    } else {
        false
    }
}

/// Whether `a` comes strictly before `b`.
pub fn string_lt(a: &str, b: &str) -> (r: bool)
    ensures
        r == str_lt(a@, b@),
{
    let x = chars_of(a);
    let y = chars_of(b);
    let mut i: usize = 0;
    assert(a@.skip(0) == a@);
    assert(b@.skip(0) == b@);
    while i < x.len() && i < y.len() && x[i] == y[i]
        invariant
            x@ == a@,
            y@ == b@,
            0 <= i <= x@.len(),
            i <= y@.len(),
            str_lt(a@, b@) == str_lt(a@.skip(i as int), b@.skip(i as int)),
        decreases x@.len() - i,
    {
        assert(a@.skip(i as int).drop_first() == a@.skip(i + 1));
        assert(b@.skip(i as int).drop_first() == b@.skip(i + 1));
        i = i + 1;
    }
    if i == x.len() {
        return i < y.len();
    }
    if i == y.len() {
        return false;
    }
    let lt = x[i] < y[i];
    lt
}

/// Whether one of `names` is `x`.
pub open spec fn names_contain(names: Seq<String>, x: Seq<char>) -> bool {
    exists|a: int| 0 <= a < names.len() && #[trigger] names[a]@ == x
}

/// Whether `names` are in strictly ascending order.
pub open spec fn strictly_ascending(names: Seq<String>) -> bool {
    forall|i: int, j: int| 0 <= i < j < names.len() ==> str_lt(#[trigger] names[i]@, #[trigger] names[j]@)
}

/// Every capture name of the engine's queries, once each, in ascending order.
pub fn all_capture_names(engine: &HighlightEngine) -> (r: Vec<String>)
    ensures
        strictly_ascending(r@),
        forall|x: Seq<char>| names_contain(r@, x) <==> names_contain(engine.capture_name_list(), x),
{
    sorted_unique(&engine.capture_names)
}

/// `names` in ascending order, each once.
pub fn sorted_unique(names: &Vec<String>) -> (r: Vec<String>)
    ensures
        strictly_ascending(r@),
        forall|x: Seq<char>| names_contain(r@, x) <==> names_contain(names@, x),
{
    let mut out: Vec<String> = Vec::new();
    let mut i: usize = 0;
    while i < names.len()
        invariant
            0 <= i <= names@.len(),
            strictly_ascending(out@),
            forall|x: Seq<char>| names_contain(out@, x) <==> names_contain(names@.take(i as int), x),
        decreases names@.len() - i,
    {
        let ghost seen = names@.take(i as int);
        let ghost next = names@.take(i + 1);
        let ghost out0 = out@;
        proof {
            assert(next == seen.push(names@[i as int]));
            assert forall|x: Seq<char>| names_contain(next, x) <==> (names_contain(seen, x) || x == names@[i as int]@) by {
                if names_contain(next, x) {
                    let a = choose|a: int| 0 <= a < next.len() && #[trigger] next[a]@ == x;
                    if a < seen.len() {
                        assert(seen[a]@ == x);
                    }
                }
                if names_contain(seen, x) {
                    let a = choose|a: int| 0 <= a < seen.len() && #[trigger] seen[a]@ == x;
                    assert(next[a]@ == x);
                }
                if x == names@[i as int]@ {
                    assert(next[i as int]@ == x);
                }
            }
        }
        let name = names[i].as_str();
        let mut k: usize = 0;
        while k < out.len() && string_lt(out[k].as_str(), name)
            invariant
                0 <= k <= out@.len(),
                forall|a: int| 0 <= a < k ==> str_lt(#[trigger] out@[a]@, name@),
            decreases out@.len() - k,
        {
            k = k + 1;
        }
        if k < out.len() && str_eq(out[k].as_str(), name) {
            assert(out@[k as int]@ == name@);
            assert forall|x: Seq<char>| names_contain(out@, x) <==> (names_contain(out0, x) || x == name@) by {
                if x == name@ {
                    assert(out@[k as int]@ == x);
                }
            }
        } else {
            proof {
                if k < out@.len() {
                    lemma_str_lt_total(name@, out@[k as int]@);
                }
                assert forall|a: int| k <= a < out@.len() implies str_lt(name@, #[trigger] out@[a]@) by {
                    if a > k {
                        lemma_str_lt_trans(name@, out@[k as int]@, out@[a]@);
                    }
                }
            }
            let ghost before = out@;
            out.insert(k, String::from_str(name));
            assert forall|x: Seq<char>| names_contain(out@, x) <==> (names_contain(before, x) || x == name@) by {
                if names_contain(out@, x) {
                    let a = choose|a: int| 0 <= a < out@.len() && #[trigger] out@[a]@ == x;
                    if a < k {
                        assert(before[a]@ == x);
                    } else if a > k {
                        assert(before[a - 1]@ == x);
                    }
                }
                if names_contain(before, x) {
                    let a = choose|a: int| 0 <= a < before.len() && #[trigger] before[a]@ == x;
                    if a < k {
                        assert(out@[a]@ == x);
                    } else {
                        assert(out@[a + 1]@ == x);
                    }
                }
                if x == name@ {
                    assert(out@[k as int]@ == x);
                }
            }
            assert forall|a: int, b: int| 0 <= a < b < out@.len() implies str_lt(#[trigger] out@[a]@, #[trigger] out@[b]@) by {
                if a < k && b == k {
                } else if a < k && b > k {
                    assert(out@[b] == before[b - 1]);
                } else if a == k && b > k {
                    assert(out@[b] == before[b - 1]);
                } else if a > k {
                    assert(out@[a] == before[a - 1]);
                    assert(out@[b] == before[b - 1]);
                }
            }
        }
        assert(name@ == names@[i as int]@);
        assert forall|x: Seq<char>| names_contain(out@, x) <==> names_contain(next, x) by {
            assert(names_contain(out0, x) <==> names_contain(seen, x));
            assert(names_contain(out@, x) <==> (names_contain(out0, x) || x == name@));
        }
        i = i + 1;
    }
    assert(names@.take(names@.len() as int) == names@);
    out
}

/// Of two different strings, one comes before the other.
pub proof fn lemma_str_lt_total(a: Seq<char>, b: Seq<char>)
    ensures
        a == b || str_lt(a, b) || str_lt(b, a),
    decreases a.len(),
{
    if a.len() > 0 && b.len() > 0 && a[0] == b[0] {
        lemma_str_lt_total(a.drop_first(), b.drop_first());
        if a.drop_first() == b.drop_first() {
            assert forall|k: int| 0 <= k < a.len() implies a[k] == b[k] by {
                if k > 0 {
                    assert(a[k] == a.drop_first()[k - 1]);
                    assert(b[k] == b.drop_first()[k - 1]);
                }
            }
            assert(a =~= b);
        }
    } else if a.len() == 0 && b.len() == 0 {
        assert(a =~= b);
    }
}

/// The order of strings is transitive.
pub proof fn lemma_str_lt_trans(a: Seq<char>, b: Seq<char>, c: Seq<char>)
    requires
        str_lt(a, b),
        str_lt(b, c),
    ensures
        str_lt(a, c),
    decreases a.len(),
{
    if a.len() > 0 && b.len() > 0 && c.len() > 0 && a[0] == b[0] && b[0] == c[0] {
        lemma_str_lt_trans(a.drop_first(), b.drop_first(), c.drop_first());
    }
}

} // verus!
