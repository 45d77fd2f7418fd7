//! The grammar, stated mathematically: for every input and position, these
//! spec functions say exactly which tree the parser must produce, how far it
//! must advance, and which error it must report. The executable parser is
//! verified against them production by production.

use vstd::prelude::*;

verus! {

use crate::chars::is_alpha;
use crate::chars::is_ws;
use crate::node::NodeView;

/// Why a parse failed. Every failure is unrecoverable: no partial tree is
/// produced.
#[derive(Clone, Copy, Debug, PartialEq, Eq, Structural)]
pub enum ParseError {
    /// The first non-whitespace character of the document is not `@`.
    ExpectedRootDirective,
    /// A directive production started on a character other than `@`.
    ExpectedDirectiveStart,
    /// No alphabetic characters followed the `@` marker.
    EmptyDirectiveName,
    /// A directive name was followed by neither `(` nor `{`.
    ExpectedParenOrBrace,
    /// The reserved comment directive was not followed by `{`.
    ExpectedCommentBrace,
    /// The input ended inside a comment body, before its closing `}`.
    UnterminatedComment,
    /// An argument name production consumed zero characters.
    ExpectedArgName,
    /// An argument name was not followed by `:`.
    ExpectedColon,
    /// A quoted value production started on a character other than `"`.
    ExpectedQuote,
    /// The input ended inside a quoted value, before its closing quote.
    UnterminatedString,
    /// The input ended inside an argument list or a child block.
    UnexpectedEndOfInput,
}

impl ParseError {
    /// The short diagnostic this failure carries.
    pub fn message(&self) -> (r: &'static str)
        ensures
            *self is ExpectedRootDirective ==> r@ == "expected directive at root"@,
            *self is ExpectedDirectiveStart ==> r@ == "expected @ at start of directive"@,
            *self is EmptyDirectiveName ==> r@ == "expected directive name"@,
            *self is ExpectedParenOrBrace ==> r@ == "expected ( or { after directive name"@,
            *self is ExpectedCommentBrace ==> r@ == "expected { after comment directive"@,
            *self is UnterminatedComment ==> r@ == "unexpected end of input in comment"@,
            *self is ExpectedArgName ==> r@ == "expected directive arg name"@,
            *self is ExpectedColon ==> r@ == "expected : after directive arg name"@,
            *self is ExpectedQuote ==> r@ == "expected quote"@,
            *self is UnterminatedString ==> r@ == "unterminated quoted string"@,
            *self is UnexpectedEndOfInput ==> r@ == "unexpected end of input"@,
    {
        match self {
            ParseError::ExpectedRootDirective => "expected directive at root",
            ParseError::ExpectedDirectiveStart => "expected @ at start of directive",
            ParseError::EmptyDirectiveName => "expected directive name",
            ParseError::ExpectedParenOrBrace => "expected ( or { after directive name",
            ParseError::ExpectedCommentBrace => "expected { after comment directive",
            ParseError::UnterminatedComment => "unexpected end of input in comment",
            ParseError::ExpectedArgName => "expected directive arg name",
            ParseError::ExpectedColon => "expected : after directive arg name",
            ParseError::ExpectedQuote => "expected quote",
            ParseError::UnterminatedString => "unterminated quoted string",
            ParseError::UnexpectedEndOfInput => "unexpected end of input",
        }
    }
}

/// Outcome of parsing one node: the node and the position just past it.
#[verifier::ext_equal]
pub enum NodeStep {
    Done { node: NodeView, next: int },
    Fail { err: ParseError },
}

/// Outcome of parsing a brace-delimited child block: the children in source
/// order and the position just past the closing `}`.
#[verifier::ext_equal]
pub enum SeqStep {
    Done { nodes: Seq<NodeView>, next: int },
    Fail { err: ParseError },
}

/// Outcome of parsing a parenthesized argument list: the argument mapping
/// and the position just past the closing `)`.
#[verifier::ext_equal]
pub enum MapStep {
    Done { args: Map<Seq<char>, Seq<char>>, next: int },
    Fail { err: ParseError },
}

/// Outcome of parsing a quoted value: its contents and the position just
/// past the closing quote.
#[verifier::ext_equal]
pub enum StrStep {
    Done { text: Seq<char>, next: int },
    Fail { err: ParseError },
}

/// The position of the first non-whitespace character at or after `pos`.
pub open spec fn skip_ws_end(s: Seq<char>, pos: int) -> int
    decreases s.len() - pos
    when 0 <= pos <= s.len()
{
    if pos < s.len() && is_ws(s[pos]) {
        skip_ws_end(s, pos + 1)
    } else {
        pos
    }
}

pub proof fn lemma_skip_ws_end(s: Seq<char>, pos: int)
    requires
        0 <= pos <= s.len(),
    ensures
        pos <= skip_ws_end(s, pos) <= s.len(),
        skip_ws_end(s, pos) < s.len() ==> !is_ws(s[skip_ws_end(s, pos)]),
        forall|k: int| pos <= k < skip_ws_end(s, pos) ==> is_ws(s[k]),
    decreases s.len() - pos,
{
    if pos < s.len() && is_ws(s[pos]) {
        lemma_skip_ws_end(s, pos + 1);
    }
}

/// The position just past the maximal run of alphabetic characters starting
/// at `pos`.
pub open spec fn ident_end(s: Seq<char>, pos: int) -> int
    decreases s.len() - pos
    when 0 <= pos <= s.len()
{
    if pos < s.len() && is_alpha(s[pos]) {
        ident_end(s, pos + 1)
    } else {
        pos
    }
}

pub proof fn lemma_ident_end(s: Seq<char>, pos: int)
    requires
        0 <= pos <= s.len(),
    ensures
        pos <= ident_end(s, pos) <= s.len(),
        ident_end(s, pos) < s.len() ==> !is_alpha(s[ident_end(s, pos)]),
        forall|k: int| pos <= k < ident_end(s, pos) ==> is_alpha(s[k]),
    decreases s.len() - pos,
{
    if pos < s.len() && is_alpha(s[pos]) {
        lemma_ident_end(s, pos + 1);
    }
}

/// The position of the next newline at or after `pos`, or the end of input.
pub open spec fn text_end(s: Seq<char>, pos: int) -> int
    decreases s.len() - pos
    when 0 <= pos <= s.len()
{
    if pos < s.len() && s[pos] != '\n' {
        text_end(s, pos + 1)
    } else {
        pos
    }
}

pub proof fn lemma_text_end(s: Seq<char>, pos: int)
    requires
        0 <= pos <= s.len(),
    ensures
        pos <= text_end(s, pos) <= s.len(),
        text_end(s, pos) < s.len() ==> s[text_end(s, pos)] == '\n',
        forall|k: int| pos <= k < text_end(s, pos) ==> s[k] != '\n',
    decreases s.len() - pos,
{
    if pos < s.len() && s[pos] != '\n' {
        lemma_text_end(s, pos + 1);
    }
}

/// The position of the next `,` or `)` at or after `pos`, or the end of
/// input: an unquoted value runs up to exactly there.
pub open spec fn unquoted_end(s: Seq<char>, pos: int) -> int
    decreases s.len() - pos
    when 0 <= pos <= s.len()
{
    if pos < s.len() && s[pos] != ',' && s[pos] != ')' {
        unquoted_end(s, pos + 1)
    } else {
        pos
    }
}

pub proof fn lemma_unquoted_end(s: Seq<char>, pos: int)
    requires
        0 <= pos <= s.len(),
    ensures
        pos <= unquoted_end(s, pos) <= s.len(),
        unquoted_end(s, pos) < s.len() ==> (s[unquoted_end(s, pos)] == ','
            || s[unquoted_end(s, pos)] == ')'),
        forall|k: int| pos <= k < unquoted_end(s, pos) ==> (s[k] != ',' && s[k] != ')'),
    decreases s.len() - pos,
{
    if pos < s.len() && s[pos] != ',' && s[pos] != ')' {
        lemma_unquoted_end(s, pos + 1);
    }
}

/// The body of a quoted value, starting just past the opening quote.
/// Characters are taken verbatim, a backslash and the character after it
/// both included; a `"` not immediately preceded by `\` closes the value.
/// `prev_slash` says whether the character before `pos` was `\`.
pub open spec fn quoted_body(s: Seq<char>, pos: int, prev_slash: bool) -> StrStep
    decreases s.len() - pos
    when 0 <= pos <= s.len()
{
    if pos == s.len() {
        StrStep::Fail { err: ParseError::UnterminatedString }
    } else if s[pos] == '"' && !prev_slash {
        StrStep::Done { text: Seq::empty(), next: pos + 1 }
    } else {
        match quoted_body(s, pos + 1, s[pos] == '\\') {
            StrStep::Done { text, next } => StrStep::Done { text: seq![s[pos]] + text, next },
            fail => fail,
        }
    }
}

pub proof fn lemma_quoted_body(s: Seq<char>, pos: int, prev_slash: bool)
    requires
        0 <= pos <= s.len(),
    ensures
        quoted_body(s, pos, prev_slash) matches StrStep::Done { text, next } ==> pos < next
            <= s.len() && s[next - 1] == '"' && text =~= s.subrange(pos, next - 1),
    decreases s.len() - pos,
{
    if pos < s.len() && !(s[pos] == '"' && !prev_slash) {
        lemma_quoted_body(s, pos + 1, s[pos] == '\\');
        match quoted_body(s, pos, prev_slash) {
            StrStep::Done { text, next } => {
                assert(text =~= s.subrange(pos, next - 1));
            },
            StrStep::Fail { .. } => {},
        }
    }
}

/// The position of the first `}` at or after `pos`, if there is one. No
/// brace balancing is performed: the first `}` closes a comment body.
pub open spec fn brace_end(s: Seq<char>, pos: int) -> Option<int>
    decreases s.len() - pos
    when 0 <= pos <= s.len()
{
    if pos == s.len() {
        None
    } else if s[pos] == '}' {
        Some(pos)
    } else {
        brace_end(s, pos + 1)
    }
}

pub proof fn lemma_brace_end(s: Seq<char>, pos: int)
    requires
        0 <= pos <= s.len(),
    ensures
        brace_end(s, pos) matches Some(c) ==> pos <= c < s.len() && s[c] == '}' && forall|k: int|
            pos <= k < c ==> s[k] != '}',
        brace_end(s, pos) is None ==> forall|k: int| pos <= k < s.len() ==> s[k] != '}',
    decreases s.len() - pos,
{
    if pos < s.len() && s[pos] != '}' {
        lemma_brace_end(s, pos + 1);
    }
}

/// The position before which every trailing whitespace character of
/// `s.subrange(0, pos)` sits: scanning left from `pos`.
pub open spec fn rstrip_end(s: Seq<char>, pos: int) -> int
    decreases pos
    when 0 <= pos <= s.len()
{
    if pos > 0 && is_ws(s[pos - 1]) {
        rstrip_end(s, pos - 1)
    } else {
        pos
    }
}

/// The sequence with leading and trailing whitespace removed.
pub open spec fn trim_ws(s: Seq<char>) -> Seq<char> {
    let a = skip_ws_end(s, 0);
    if a == s.len() {
        Seq::empty()
    } else {
        s.subrange(a, rstrip_end(s, s.len() as int))
    }
}

/// A parenthesized argument list, starting just past the `(`: identifier,
/// `:`, then a quoted or unquoted value, then an optional `,`, repeatedly,
/// until the closing `)`. A repeated argument name silently keeps the
/// later value.
pub open spec fn parse_args_at(s: Seq<char>, pos: int) -> MapStep
    decreases s.len() - pos, 0int
    when 0 <= pos <= s.len()
    via parse_args_at_dec
{
    let q = skip_ws_end(s, pos);
    if q == s.len() {
        MapStep::Fail { err: ParseError::UnexpectedEndOfInput }
    } else if s[q] == ')' {
        MapStep::Done { args: Map::empty(), next: q + 1 }
    } else {
        let ke = ident_end(s, q);
        if ke == q {
            MapStep::Fail { err: ParseError::ExpectedArgName }
        } else {
            let key = s.subrange(q, ke);
            let c = skip_ws_end(s, ke);
            if c == s.len() || s[c] != ':' {
                MapStep::Fail { err: ParseError::ExpectedColon }
            } else {
                let vs = skip_ws_end(s, c + 1);
                if vs < s.len() && s[vs] == '"' {
                    match quoted_body(s, vs + 1, false) {
                        StrStep::Done { text, next } => parse_args_after_value(s, pos, key, text, next),
                        StrStep::Fail { err } => MapStep::Fail { err },
                    }
                } else {
                    let ve = unquoted_end(s, vs);
                    parse_args_after_value(s, pos, key, s.subrange(vs, ve), ve)
                }
            }
        }
    }
}

#[via_fn]
proof fn parse_args_at_dec(s: Seq<char>, pos: int) {
    lemma_skip_ws_end(s, pos);
    let q = skip_ws_end(s, pos);
    if q < s.len() && s[q] != ')' {
        lemma_ident_end(s, q);
        let ke = ident_end(s, q);
        if ke != q {
            lemma_skip_ws_end(s, ke);
            let c = skip_ws_end(s, ke);
            if c < s.len() && s[c] == ':' {
                lemma_skip_ws_end(s, c + 1);
                let vs = skip_ws_end(s, c + 1);
                if vs < s.len() && s[vs] == '"' {
                    lemma_quoted_body(s, vs + 1, false);
                } else {
                    lemma_unquoted_end(s, vs);
                }
            }
        }
    }
}

/// The rest of an argument list, after one `key: value` pair ending at
/// `pos`: an optional `,` is consumed, the remaining pairs are parsed, and
/// the pair is added, the later occurrence of a repeated key winning.
pub open spec fn parse_args_after_value(
    s: Seq<char>,
    start: int,
    key: Seq<char>,
    value: Seq<char>,
    pos: int,
) -> MapStep
    decreases s.len() - pos, 1int
    when 0 <= pos <= s.len() && 0 <= start
{
    let p = if pos < s.len() && s[pos] == ',' {
        pos + 1
    } else {
        pos
    };
    if start < p <= s.len() {
        match parse_args_at(s, p) {
            MapStep::Done { args, next } => MapStep::Done {
                args: Map::empty().insert(key, value).union_prefer_right(args),
                next,
            },
            fail => fail,
        }
    } else {
        // Unreachable: a parsed pair always advances past its start.
        MapStep::Fail { err: ParseError::UnexpectedEndOfInput }
    }
}

pub proof fn lemma_parse_args_bounds(s: Seq<char>, pos: int)
    requires
        0 <= pos <= s.len(),
    ensures
        parse_args_at(s, pos) matches MapStep::Done { next, .. } ==> pos < next <= s.len(),
    decreases s.len() - pos,
{
    let q = skip_ws_end(s, pos);
    lemma_skip_ws_end(s, pos);
    if q < s.len() && s[q] != ')' {
        let ke = ident_end(s, q);
        lemma_ident_end(s, q);
        if ke != q {
            let c = skip_ws_end(s, ke);
            lemma_skip_ws_end(s, ke);
            if c < s.len() && s[c] == ':' {
                let vs = skip_ws_end(s, c + 1);
                lemma_skip_ws_end(s, c + 1);
                if vs < s.len() && s[vs] == '"' {
                    lemma_quoted_body(s, vs + 1, false);
                    match quoted_body(s, vs + 1, false) {
                        StrStep::Done { next, .. } => {
                            let p = if next < s.len() && s[next] == ',' {
                                next + 1
                            } else {
                                next
                            };
                            if pos < p <= s.len() {
                                lemma_parse_args_bounds(s, p);
                            }
                        },
                        StrStep::Fail { .. } => {},
                    }
                } else {
                    let ve = unquoted_end(s, vs);
                    lemma_unquoted_end(s, vs);
                    let p = if ve < s.len() && s[ve] == ',' {
                        ve + 1
                    } else {
                        ve
                    };
                    if pos < p <= s.len() {
                        lemma_parse_args_bounds(s, p);
                    }
                }
            }
        }
    }
}

/// A comment directive's body, starting just past the reserved name: after
/// optional whitespace a `{` is required, everything up to the first `}` is
/// captured raw, and the captured span is trimmed of surrounding
/// whitespace. Nothing inside is parsed as markup.
pub open spec fn parse_comment_at(s: Seq<char>, pos: int) -> NodeStep {
    let q = skip_ws_end(s, pos);
    if q == s.len() || s[q] != '{' {
        NodeStep::Fail { err: ParseError::ExpectedCommentBrace }
    } else {
        match brace_end(s, q + 1) {
            None => NodeStep::Fail { err: ParseError::UnterminatedComment },
            Some(c) => NodeStep::Done {
                node: NodeView::Comment { text: trim_ws(s.subrange(q + 1, c)) },
                next: c + 1,
            },
        }
    }
}

/// A text line: whitespace is skipped, then everything up to (not
/// including) the next newline or the end of input is the line.
pub open spec fn parse_text_at(s: Seq<char>, pos: int) -> NodeStep {
    let q = skip_ws_end(s, pos);
    let e = text_end(s, q);
    NodeStep::Done { node: NodeView::Text { line: s.subrange(q, e) }, next: e }
}

/// The reserved name that switches a directive to the comment production.
pub open spec fn comment_name() -> Seq<char> {
    "Comment"@
}

/// One node: after whitespace, a `@` starts a directive, anything else a
/// text line.
pub open spec fn parse_node_at(s: Seq<char>, pos: int) -> NodeStep
    decreases s.len() - pos, 2int
    when 0 <= pos <= s.len()
    via parse_node_at_dec
{
    let q = skip_ws_end(s, pos);
    if q == s.len() {
        NodeStep::Fail { err: ParseError::UnexpectedEndOfInput }
    } else if s[q] == '@' {
        parse_directive_at(s, q)
    } else {
        parse_text_at(s, pos)
    }
}

#[via_fn]
proof fn parse_node_at_dec(s: Seq<char>, pos: int) {
    lemma_skip_ws_end(s, pos);
}

/// A directive: `@`, a non-empty alphabetic name, then either the comment
/// production (for the reserved name), or an optional `(...)` argument list
/// followed by an optional `{...}` child block — at least one of the two
/// must be present.
pub open spec fn parse_directive_at(s: Seq<char>, pos: int) -> NodeStep
    decreases s.len() - pos, 0int
    when 0 <= pos <= s.len()
    via parse_directive_at_dec
{
    if pos == s.len() || s[pos] != '@' {
        NodeStep::Fail { err: ParseError::ExpectedDirectiveStart }
    } else {
        let ne = ident_end(s, pos + 1);
        if ne == pos + 1 {
            NodeStep::Fail { err: ParseError::EmptyDirectiveName }
        } else if s.subrange(pos + 1, ne) == comment_name() {
            parse_comment_at(s, ne)
        } else {
            let name = s.subrange(pos + 1, ne);
            let p = skip_ws_end(s, ne);
            if p < s.len() && s[p] == '(' {
                match parse_args_at(s, p + 1) {
                    MapStep::Done { args, next } => {
                        let b = skip_ws_end(s, next);
                        if b < s.len() && s[b] == '{' {
                            match parse_children_at(s, b + 1) {
                                SeqStep::Done { nodes, next: after } => NodeStep::Done {
                                    node: NodeView::Directive { name, args, children: nodes },
                                    next: after,
                                },
                                SeqStep::Fail { err } => NodeStep::Fail { err },
                            }
                        } else {
                            NodeStep::Done {
                                node: NodeView::Directive {
                                    name,
                                    args,
                                    children: Seq::empty(),
                                },
                                next: b,
                            }
                        }
                    },
                    MapStep::Fail { err } => NodeStep::Fail { err },
                }
            } else if p < s.len() && s[p] == '{' {
                match parse_children_at(s, p + 1) {
                    SeqStep::Done { nodes, next: after } => NodeStep::Done {
                        node: NodeView::Directive {
                            name,
                            args: Map::empty(),
                            children: nodes,
                        },
                        next: after,
                    },
                    SeqStep::Fail { err } => NodeStep::Fail { err },
                }
            } else {
                NodeStep::Fail { err: ParseError::ExpectedParenOrBrace }
            }
        }
    }
}

#[via_fn]
proof fn parse_directive_at_dec(s: Seq<char>, pos: int) {
    if pos < s.len() && s[pos] == '@' {
        lemma_ident_end(s, pos + 1);
        let ne = ident_end(s, pos + 1);
        lemma_skip_ws_end(s, ne);
        let p = skip_ws_end(s, ne);
        if p < s.len() && s[p] == '(' {
            lemma_parse_args_bounds(s, p + 1);
            match parse_args_at(s, p + 1) {
                MapStep::Done { next, .. } => {
                    lemma_skip_ws_end(s, next);
                },
                MapStep::Fail { .. } => {},
            }
        }
    }
}

/// The inside of a `{...}` child block, starting just past the `{`: nodes
/// are parsed one after another, each preceded by whitespace-skipping,
/// until the closing `}`; running out of input first is an error.
pub open spec fn parse_children_at(s: Seq<char>, pos: int) -> SeqStep
    decreases s.len() - pos, 3int
    when 0 <= pos <= s.len()
    via parse_children_at_dec
{
    let q = skip_ws_end(s, pos);
    if q == s.len() {
        SeqStep::Fail { err: ParseError::UnexpectedEndOfInput }
    } else if s[q] == '}' {
        SeqStep::Done { nodes: Seq::empty(), next: q + 1 }
    } else {
        match parse_node_at(s, q) {
            NodeStep::Done { node, next } => {
                if q < next <= s.len() {
                    match parse_children_at(s, next) {
                        SeqStep::Done { nodes, next: after } => SeqStep::Done {
                            nodes: seq![node] + nodes,
                            next: after,
                        },
                        fail => fail,
                    }
                } else {
                    // Unreachable: a parsed node always advances.
                    SeqStep::Fail { err: ParseError::UnexpectedEndOfInput }
                }
            },
            NodeStep::Fail { err } => SeqStep::Fail { err },
        }
    }
}

#[via_fn]
proof fn parse_children_at_dec(s: Seq<char>, pos: int) {
    lemma_skip_ws_end(s, pos);
}

/// A whole document: after leading whitespace the input must start with
/// `@`, and the root node is parsed from the beginning. Characters after
/// the root node are ignored.
pub open spec fn spec_parse(s: Seq<char>) -> NodeStep {
    let q = skip_ws_end(s, 0);
    if q == s.len() || s[q] != '@' {
        NodeStep::Fail { err: ParseError::ExpectedRootDirective }
    } else {
        parse_node_at(s, 0)
    }
}

} // verus!
