//! Dynamic highlighting: words of a command line that name existing paths.
//! Which words look like paths, and how a path is expanded against the home
//! and working directories, is decided here; whether a path exists is asked of
//! a probe that the caller supplies.
use vstd::prelude::*;

use crate::highlight::{
    node_views, probes_as, spans_result, zsh_nodes_of, zsh_tree_nodes, HighlightError, NodeView, ParsedZsh,
};
use crate::spans::{build_byte_to_char_table, byte_to_char, char_range, char_range_of, span_views, Span, SpanView};
use crate::text::{
    chars_of, concat, opt_str_view, opt_string_view, starts_with, str_contains_char, str_eq, str_starts_with,
};

verus! {

/// Result of looking up a path.
#[derive(Debug, Clone, Copy, PartialEq, Eq, Structural)]
pub enum PathType {
    File,
    Directory,
}

/// Environment for dynamic lookups: the working directory that relative
/// paths are resolved against, if any.
#[derive(Debug, Clone)]
pub struct LookupEnv {
    pub pwd: Option<String>,
}

/// Whether `text` looks like a path: it starts with `/`, `./`, `../` or `~`,
/// or holds a `/`.
pub open spec fn spec_looks_like_path(text: Seq<char>) -> bool {
    starts_with(text, "/"@) || starts_with(text, "./"@) || starts_with(text, "../"@) || starts_with(text, "~"@)
        || text.contains('/')
}

/// Whether `text` looks like a path.
pub fn looks_like_path(text: &str) -> (r: bool)
    ensures
        r == spec_looks_like_path(text@),
{
    if str_starts_with(text, "/") || str_starts_with(text, "./") || str_starts_with(text, "../") {
        return true;
    }
    if str_starts_with(text, "~") {
        return true;
    }
    if str_contains_char(text, '/') {
        return true;
    }
    false
}

/// A word is a path candidate exactly when it holds a `/` anywhere (so
/// `src/`, `a/b` and `/etc` are) or begins with `~`.
pub proof fn law_path_candidates(text: Seq<char>)
    ensures
        spec_looks_like_path(text) == (text.contains('/') || (text.len() > 0 && text[0] == '~')),
{
    reveal_strlit("/");
    reveal_strlit("./");
    reveal_strlit("../");
    reveal_strlit("~");
    if starts_with(text, "/"@) {
        assert(text.take(1)[0] == '/');
        assert(text[0] == '/');
    }
    if starts_with(text, "./"@) {
        assert(text.take(2)[1] == '/');
        assert(text[1] == '/');
    }
    if starts_with(text, "../"@) {
        assert(text.take(3)[2] == '/');
        assert(text[2] == '/');
    }
    if text.len() > 0 && text[0] == '~' {
        assert(text.take(1) =~= "~"@);
    }
    if starts_with(text, "~"@) {
        assert(text.take(1)[0] == '~');
    }
}

/// `s` without its trailing `/` characters.
pub open spec fn trim_trailing_slashes(s: Seq<char>) -> Seq<char>
    decreases s.len(),
{
    if s.len() > 0 && s.last() == '/' {
        trim_trailing_slashes(s.drop_last())
    } else {
        s
    }
}

/// `s` without its trailing `/` characters.
pub fn trim_slashes_end(s: &str) -> (r: String)
    ensures
        r@ == trim_trailing_slashes(s@),
{
    let v = chars_of(s);
    let mut n = v.len();
    assert(v@.take(n as int) == v@);
    while n > 0 && v[n - 1] == '/'
        invariant
            v@ == s@,
            0 <= n <= v@.len(),
            trim_trailing_slashes(s@) == trim_trailing_slashes(v@.take(n as int)),
        decreases n,
    {
        assert(v@.take(n as int).drop_last() == v@.take(n - 1));
        n = n - 1;
    }
    assert(v@.take(n as int) == s@.subrange(0, n as int));
    String::from_str(s.substring_char(0, n))
}

/// `path` resolved against `dir`: `dir` without trailing slashes, `/`, `path`.
pub open spec fn under_dir(dir: Seq<char>, path: Seq<char>) -> Seq<char> {
    trim_trailing_slashes(dir) + "/"@ + path
}

/// How a word is expanded before it is looked up: a leading `~` (alone or
/// before `/`) becomes the home directory when that is known; `./…`, `../…`
/// and bare relative paths holding a `/` are resolved against the working
/// directory when that is known; anything else, absolute paths included,
/// stays as it is.
pub open spec fn spec_expand_path(path: Seq<char>, home: Option<Seq<char>>, pwd: Option<Seq<char>>) -> Seq<char> {
    if starts_with(path, "~"@) {
        match home {
            Some(h) => if path.len() == 1 {
                h
            } else if starts_with(path, "~/"@) {
                h + path.skip(1)
            } else {
                path
            },
            None => path,
        }
    } else if starts_with(path, "./"@) || starts_with(path, "../"@) {
        match pwd {
            Some(d) => under_dir(d, path),
            None => path,
        }
    } else if !starts_with(path, "/"@) && path.contains('/') && pwd is Some {
        under_dir(pwd->0, path)
    } else {
        path
    }
}

/// Removing trailing slashes leaves a prefix of `s` that is empty or does
/// not end with `/`, followed in `s` by nothing but `/` characters.
pub proof fn law_trim_trailing_slashes(s: Seq<char>)
    ensures
        trim_trailing_slashes(s).len() <= s.len(),
        s.take(trim_trailing_slashes(s).len() as int) == trim_trailing_slashes(s),
        forall|i: int| trim_trailing_slashes(s).len() <= i < s.len() ==> s[i] == '/',
        trim_trailing_slashes(s).len() == 0 || trim_trailing_slashes(s).last() != '/',
    decreases s.len(),
{
    if s.len() > 0 && s.last() == '/' {
        let d = s.drop_last();
        law_trim_trailing_slashes(d);
        let t = trim_trailing_slashes(d);
        assert(s.take(t.len() as int) =~= d.take(t.len() as int));
        assert forall|i: int| t.len() <= i < s.len() implies s[i] == '/' by {
            if i < d.len() {
                assert(s[i] == d[i]);
            }
        }
    } else {
        assert(s.take(s.len() as int) =~= s);
    }
}

/// A path that is neither absolute nor begins with `~`, and holds a `/`
/// (`sub/`, `a/b`, `./x`, `../y`), is looked up under a known working
/// directory `d`: `d` without its trailing slashes, then `/`, then the path,
/// whatever the path ends with.
pub proof fn law_relative_paths_resolve_under_pwd(path: Seq<char>, home: Option<Seq<char>>, d: Seq<char>)
    requires
        path.contains('/'),
        path[0] != '/',
        path[0] != '~',
    ensures
        spec_expand_path(path, home, Some(d)) == trim_trailing_slashes(d) + seq!['/'] + path,
{
    reveal_strlit("/");
    reveal_strlit("~");
    reveal_strlit("~/");
    assert(path.len() > 0);
    assert(!starts_with(path, "~"@)) by {
        if starts_with(path, "~"@) {
            assert(path.take(1)[0] == path[0]);
        }
    }
    assert(!starts_with(path, "/"@)) by {
        if starts_with(path, "/"@) {
            assert(path.take(1)[0] == path[0]);
        }
    }
}

/// The other cases of expansion: `~` alone is the home directory and
/// `~/rest` is the home directory followed by `/rest`, when the home is known;
/// an absolute path, and a path with no `/` that does not begin with `~`,
/// stay as written; and without a working directory, a path that does not
/// begin with `~` stays as written.
pub proof fn law_expand_other_paths(path: Seq<char>, home: Option<Seq<char>>, pwd: Option<Seq<char>>)
    ensures
        path == seq!['~'] && home is Some ==> spec_expand_path(path, home, pwd) == home->0,
        path.len() >= 2 && path[0] == '~' && path[1] == '/' && home is Some ==> spec_expand_path(path, home, pwd)
            == home->0 + path.skip(1),
        path.len() > 0 && path[0] == '/' ==> spec_expand_path(path, home, pwd) == path,
        !path.contains('/') && !(path.len() > 0 && path[0] == '~') ==> spec_expand_path(path, home, pwd) == path,
        pwd is None && !(path.len() > 0 && path[0] == '~') ==> spec_expand_path(path, home, pwd) == path,
{
    reveal_strlit("/");
    reveal_strlit("./");
    reveal_strlit("../");
    reveal_strlit("~");
    reveal_strlit("~/");
    if path.len() > 0 {
        if starts_with(path, "~"@) {
            assert(path.take(1)[0] == path[0]);
        }
        if path[0] == '~' {
            assert(path.take(1) =~= "~"@);
        }
        if path.len() >= 2 && path[0] == '~' && path[1] == '/' {
            assert(path.take(2) =~= "~/"@);
        }
        if starts_with(path, "./"@) {
            assert(path.take(2)[1] == path[1]);
        }
        if starts_with(path, "../"@) {
            assert(path.take(3)[2] == path[2]);
        }
        if path[0] == '/' {
            assert(path.take(1) =~= "/"@);
        }
        if starts_with(path, "/"@) {
            assert(path.take(1)[0] == path[0]);
        }
    }
}

impl LookupEnv {
    /// An environment with no working directory.
    pub fn new() -> (e: LookupEnv)
        ensures
            e.pwd is None,
    {
        LookupEnv { pwd: None }
    }

    /// Create a LookupEnv with a specific working directory for relative path resolution.
    pub fn with_pwd(pwd: &str) -> (e: LookupEnv)
        ensures
            opt_string_view(e.pwd) == Some(pwd@),
    {
        LookupEnv { pwd: Some(String::from_str(pwd)) }
    }

    /// Expands `path` for lookup, given the home directory `home` (if known).
    pub fn expand(&self, path: &str, home: Option<&str>) -> (r: String)
        ensures
            r@ == spec_expand_path(path@, opt_str_view(home), opt_string_view(self.pwd)),
    {
        proof {
            reveal_strlit("~");
            reveal_strlit("~/");
        }
        if str_starts_with(path, "~") {
            match home {
                Some(h) => {
                    let n = path.unicode_len();
                    if n == 1 {
                        String::from_str(h)
                    } else if str_starts_with(path, "~/") {
                        concat(h, path.substring_char(1, n))
                    } else {
                        String::from_str(path)
                    }
                },
                None => String::from_str(path),
            }
        } else if str_starts_with(path, "./") || str_starts_with(path, "../") {
            match &self.pwd {
                Some(d) => {
                    let base = trim_slashes_end(d.as_str());
                    concat(concat(base.as_str(), "/").as_str(), path)
                },
                None => String::from_str(path),
            }
        } else if !str_starts_with(path, "/") && str_contains_char(path, '/') && self.pwd.is_some() {
            match &self.pwd {
                Some(d) => {
                    let base = trim_slashes_end(d.as_str());
                    concat(concat(base.as_str(), "/").as_str(), path)
                },
                None => String::from_str(path),
            }
        } else {
            String::from_str(path)
        }
    }
}

impl Default for LookupEnv {
    fn default() -> (e: LookupEnv)
        ensures
            e.pwd is None,
    {
        LookupEnv::new()
    }
}

/// The style of a path span.
pub open spec fn path_style(t: PathType) -> Seq<char> {
    match t {
        PathType::File => "path"@,
        PathType::Directory => "path.directory"@,
    }
}

/// The style of a path span.
pub fn path_style_name(t: PathType) -> (r: String)
    ensures
        r@ == path_style(t),
{
    match t {
        PathType::File => String::from_str("path"),
        PathType::Directory => String::from_str("path.directory"),
    }
}

// ---------------------------------------------------------------------------
// Path spans
// ---------------------------------------------------------------------------

/// The path spans of a zsh source: each `word` or `string` node whose text
/// looks like a path and that `probe` finds, styled by what it finds.
pub open spec fn dynamic_spans_from(
    nodes: Seq<NodeView>,
    source: Seq<char>,
    probe: spec_fn(Seq<char>) -> Option<PathType>,
) -> Seq<SpanView>
    decreases nodes.len(),
{
    if nodes.len() == 0 {
        Seq::empty()
    } else {
        let rest = dynamic_spans_from(nodes.drop_last(), source, probe);
        let n = nodes.last();
        let (cs, ce) = char_range(byte_to_char(source), n.start_byte as int, n.end_byte as int, source.len() as int);
        let text = source.subrange(cs, ce);
        if (n.kind == "word"@ || n.kind == "string"@) && cs <= ce && spec_looks_like_path(text) {
            match probe(text) {
                Some(t) => rest.push(SpanView { start: cs as usize, end: ce as usize, style: path_style(t) }),
                None => rest,
            }
        } else {
            rest
        }
    }
}


/// The text of node `n` of `source` when the probe is asked about it: the
/// node is a `word` or a `string` and its text looks like a path.
pub open spec fn path_candidate(n: NodeView, source: Seq<char>) -> Option<Seq<char>> {
    let (cs, ce) = char_range(byte_to_char(source), n.start_byte as int, n.end_byte as int, source.len() as int);
    let text = source.subrange(cs, ce);
    if (n.kind == "word"@ || n.kind == "string"@) && cs <= ce && spec_looks_like_path(text) {
        Some(text)
    } else {
        None
    }
}

/// The path spans of a zsh source when the probe's answer about the node at
/// pre-order position `k` is `answers(k)`.
pub open spec fn dynamic_spans_answered(
    nodes: Seq<NodeView>,
    source: Seq<char>,
    answers: spec_fn(int) -> Option<PathType>,
) -> Seq<SpanView>
    decreases nodes.len(),
{
    if nodes.len() == 0 {
        Seq::empty()
    } else {
        let rest = dynamic_spans_answered(nodes.drop_last(), source, answers);
        let n = nodes.last();
        let (cs, ce) = char_range(byte_to_char(source), n.start_byte as int, n.end_byte as int, source.len() as int);
        match path_candidate(n, source) {
            Some(_) => match answers(nodes.len() - 1) {
                Some(t) => rest.push(SpanView { start: cs as usize, end: ce as usize, style: path_style(t) }),
                None => rest,
            },
            None => rest,
        }
    }
}

/// Whether `a` is an answer `probe` may give when asked about `text`.
pub open spec fn may_answer<F: Fn(&str) -> Option<PathType>>(probe: F, text: Seq<char>, a: Option<PathType>) -> bool {
    exists|p: &str| p@ == text && #[trigger] call_ensures(probe, (p,), a)
}

/// Whether `answers` holds, for each node the probe is asked about, an answer
/// the probe may give about that node's text.
pub open spec fn probe_answers<F: Fn(&str) -> Option<PathType>>(
    probe: F,
    nodes: Seq<NodeView>,
    source: Seq<char>,
    answers: spec_fn(int) -> Option<PathType>,
) -> bool {
    forall|k: int| #![trigger nodes[k]] 0 <= k < nodes.len() ==>
        (path_candidate(nodes[k], source) matches Some(text) ==> may_answer(probe, text, answers(k)))
}

proof fn lemma_answered_frame(
    nodes: Seq<NodeView>,
    source: Seq<char>,
    a1: spec_fn(int) -> Option<PathType>,
    a2: spec_fn(int) -> Option<PathType>,
)
    requires
        forall|k: int| 0 <= k < nodes.len() ==> #[trigger] a1(k) == a2(k),
    ensures
        dynamic_spans_answered(nodes, source, a1) == dynamic_spans_answered(nodes, source, a2),
    decreases nodes.len(),
{
    if nodes.len() > 0 {
        lemma_answered_frame(nodes.drop_last(), source, a1, a2);
    }
}

/// With a probe that answers as `f`, the answered path spans are those of `f`.
proof fn lemma_answered_as<F: Fn(&str) -> Option<PathType>>(
    probe: F,
    f: spec_fn(Seq<char>) -> Option<PathType>,
    nodes: Seq<NodeView>,
    source: Seq<char>,
    answers: spec_fn(int) -> Option<PathType>,
)
    requires
        probes_as(probe, f),
        probe_answers(probe, nodes, source, answers),
    ensures
        dynamic_spans_answered(nodes, source, answers) == dynamic_spans_from(nodes, source, f),
    decreases nodes.len(),
{
    if nodes.len() > 0 {
        let d = nodes.drop_last();
        assert forall|k: int| #![trigger d[k]] 0 <= k < d.len() implies
            (path_candidate(d[k], source) matches Some(text) ==> may_answer(probe, text, answers(k))) by {
            assert(d[k] == nodes[k]);
        }
        lemma_answered_as(probe, f, d, source, answers);
        let k = nodes.len() - 1;
        assert(nodes[k] == nodes.last());
        if let Some(text) = path_candidate(nodes.last(), source) {
            let p = choose|p: &str| p@ == text && #[trigger] call_ensures(probe, (p,), answers(k));
            assert(answers(k) == f(p@));
        }
    }
}

/// Run dynamic path highlighting on zsh source and return additional spans:
/// each `word` or `string` node of `tree` (parsed from `source`) whose text
/// looks like a path and that `probe` finds gets a path span. Accepts a
/// pre-parsed tree to avoid double-parsing.
pub fn dynamic_highlight_zsh<F: Fn(&str) -> Option<PathType>>(tree: &ParsedZsh, source: &str, probe: &F) -> (r: Result<Vec<Span>, HighlightError>)
    requires
        forall|p: &str| #[trigger] call_requires(*probe, (p,)),
    ensures
        r is Ok,
        exists|answers: spec_fn(int) -> Option<PathType>|
            #[trigger] probe_answers(*probe, zsh_nodes_of(tree.text()), source@, answers)
                && spans_result(r) == Ok::<Seq<SpanView>, HighlightError>(
                dynamic_spans_answered(zsh_nodes_of(tree.text()), source@, answers),
            ),
        forall|f: spec_fn(Seq<char>) -> Option<PathType>| #[trigger] probes_as(*probe, f) ==>
            spans_result(r) == Ok::<Seq<SpanView>, HighlightError>(dynamic_spans_from(zsh_nodes_of(tree.text()), source@, f)),
{
    let nodes = zsh_tree_nodes(tree);
    let table = build_byte_to_char_table(source);
    let char_len = source.unicode_len();
    let ghost nv = node_views(nodes@);
    let ghost mut answers: spec_fn(int) -> Option<PathType> = |k: int| None::<PathType>;
    let mut out: Vec<Span> = Vec::new();
    let mut i: usize = 0;
    while i < nodes.len()
        invariant
            forall|p: &str| #[trigger] call_requires(*probe, (p,)),
            table@ == byte_to_char(source@),
            char_len == source@.len(),
            nv == node_views(nodes@),
            0 <= i <= nodes@.len(),
            probe_answers(*probe, nv.take(i as int), source@, answers),
            span_views(out@) == dynamic_spans_answered(nv.take(i as int), source@, answers),
        decreases nodes@.len() - i,
    {
        let n = &nodes[i];
        let ghost before = span_views(out@);
        let ghost old_answers = answers;
        let ghost t = nv.take(i + 1);
        proof {
            assert(t.drop_last() == nv.take(i as int));
            assert(t.last() == n@);
            assert(nv[i as int] == n@);
        }
        let is_text_node = str_eq(n.kind.as_str(), "word") || str_eq(n.kind.as_str(), "string");
        let mut asked = false;
        if is_text_node {
            let (cs, ce) = char_range_of(&table, n.start_byte, n.end_byte, char_len);
            if cs <= ce {
                let text = source.substring_char(cs, ce);
                if looks_like_path(text) {
                    let found = probe(text);
                    proof {
                        answers = |k: int| if k == i as int { found } else { old_answers(k) };
                        lemma_answered_frame(nv.take(i as int), source@, old_answers, answers);
                        assert(may_answer(*probe, text@, found));
                    }
                    if let Some(pt) = found {
                        out.push(Span::new(cs, ce, path_style_name(pt)));
                    }
                    asked = true;
                    assert(span_views(out@) =~= dynamic_spans_answered(t, source@, answers));
                }
            }
        }
        if !asked {
            assert(path_candidate(n@, source@) is None);
            assert(span_views(out@) =~= dynamic_spans_answered(t, source@, answers));
        }
        proof {
            assert forall|k: int| #![trigger t[k]] 0 <= k < t.len() implies
                (path_candidate(t[k], source@) matches Some(text) ==> may_answer(*probe, text, answers(k))) by {
                if k < i {
                    assert(t[k] == nv.take(i as int)[k]);
                }
            }
        }
        i = i + 1;
    }
    assert(nv.take(nodes@.len() as int) == nv);
    proof {
        assert forall|f: spec_fn(Seq<char>) -> Option<PathType>| #[trigger] probes_as(*probe, f) implies
            span_views(out@) == dynamic_spans_from(nv, source@, f) by {
            lemma_answered_as(*probe, f, nv, source@, answers);
        }
    }
    Ok(out)
}

} // verus!
