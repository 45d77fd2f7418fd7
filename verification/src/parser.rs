//! The executable recursive-descent parser. Every production is verified
//! against the corresponding spec function of the grammar: it returns
//! exactly the node (or the error) the grammar prescribes and leaves the
//! cursor exactly where the grammar says the production ends.

use vstd::prelude::*;

verus! {

use crate::chars::is_alphabetic_char;
use crate::chars::is_ws;
use crate::chars::is_whitespace_char;
use crate::chars::chars_of;
use crate::chars::string_of_range;
use crate::grammar::MapStep;
use crate::grammar::NodeStep;
use crate::grammar::ParseError;
use crate::grammar::SeqStep;
use crate::grammar::StrStep;
use crate::grammar::brace_end;
use crate::grammar::comment_name;
use crate::grammar::ident_end;
use crate::grammar::lemma_brace_end;
use crate::grammar::lemma_parse_args_bounds;
use crate::grammar::lemma_quoted_body;
use crate::grammar::lemma_text_end;
use crate::grammar::lemma_skip_ws_end;
use crate::grammar::parse_args_at;
use crate::grammar::parse_children_at;
use crate::grammar::parse_comment_at;
use crate::grammar::parse_directive_at;
use crate::grammar::parse_node_at;
use crate::grammar::parse_text_at;
use crate::grammar::quoted_body;
use crate::grammar::rstrip_end;
use crate::grammar::skip_ws_end;
use crate::grammar::spec_parse;
use crate::grammar::text_end;
use crate::grammar::trim_ws;
use crate::grammar::unquoted_end;
use crate::node::Args;
use crate::node::Node;
use crate::node::NodeView;
use crate::node::lemma_nodes_view_push;
use crate::node::nodes_view;

/// Advances the cursor past the whitespace run at the current position.
fn skip_whitespace(s: &Vec<char>, pos: &mut usize)
    requires
        *old(pos) <= s@.len(),
    ensures
        *old(pos) <= *final(pos) <= s@.len(),
        *final(pos) == skip_ws_end(s@, *old(pos) as int),
{
    while *pos < s.len() && is_whitespace_char(s[*pos])
        invariant
            *old(pos) <= *pos <= s@.len(),
            skip_ws_end(s@, *old(pos) as int) == skip_ws_end(s@, *pos as int),
        decreases s@.len() - *pos,
    {
        *pos = *pos + 1;
    }
}

/// Consumes the maximal alphabetic run at the cursor and returns it.
fn parse_ident(s: &Vec<char>, pos: &mut usize) -> (r: String)
    requires
        *old(pos) <= s@.len(),
    ensures
        *old(pos) <= *final(pos) <= s@.len(),
        *final(pos) == ident_end(s@, *old(pos) as int),
        r@ == s@.subrange(*old(pos) as int, *final(pos) as int),
{
    let start = *pos;
    while *pos < s.len() && is_alphabetic_char(s[*pos])
        invariant
            start <= *pos <= s@.len(),
            ident_end(s@, start as int) == ident_end(s@, *pos as int),
        decreases s@.len() - *pos,
    {
        *pos = *pos + 1;
    }
    string_of_range(s, start, *pos)
}

/// Consumes an unquoted argument value: everything up to (not including)
/// the next `,` or `)`, taken verbatim.
fn parse_unquoted_arg(s: &Vec<char>, pos: &mut usize) -> (r: String)
    requires
        *old(pos) <= s@.len(),
    ensures
        *old(pos) <= *final(pos) <= s@.len(),
        *final(pos) == unquoted_end(s@, *old(pos) as int),
        r@ == s@.subrange(*old(pos) as int, *final(pos) as int),
{
    let start = *pos;
    while *pos < s.len() && s[*pos] != ',' && s[*pos] != ')'
        invariant
            start <= *pos <= s@.len(),
            unquoted_end(s@, start as int) == unquoted_end(s@, *pos as int),
        decreases s@.len() - *pos,
    {
        *pos = *pos + 1;
    }
    string_of_range(s, start, *pos)
}

/// Consumes a quoted argument value. The opening quote must be at the
/// cursor; characters are taken verbatim (backslashes included) until a
/// quote not preceded by a backslash; running out of input is an error.
#[verifier::loop_isolation(false)]
fn parse_quoted_str(s: &Vec<char>, pos: &mut usize) -> (r: Result<String, ParseError>)
    requires
        *old(pos) <= s@.len(),
    ensures
        *old(pos) < s@.len() && s@[*old(pos) as int] == '"' ==> (match quoted_body(
            s@,
            *old(pos) + 1,
            false,
        ) {
            StrStep::Done { text, next } => r matches Ok(v) && v@ == text && *final(pos) == next
                && *old(pos) < next <= s@.len(),
            StrStep::Fail { err } => r matches Err(e) && e == err,
        }),
        !(*old(pos) < s@.len() && s@[*old(pos) as int] == '"') ==> (r matches Err(e) && e
            == ParseError::ExpectedQuote),
{
    if !(*pos < s.len() && s[*pos] == '"') {
        return Err(ParseError::ExpectedQuote);
    }
    *pos = *pos + 1;
    let start = *pos;
    let mut prev_slash = false;
    proof {
        match quoted_body(s@, start as int, false) {
            StrStep::Done { text, next } => {
                assert(s@.subrange(start as int, start as int) + text =~= text);
            },
            StrStep::Fail { .. } => {},
        }
    }
    loop
        invariant
            start <= *pos <= s@.len(),
            start == *old(pos) + 1,
            start <= s@.len(),
            (match quoted_body(s@, *pos as int, prev_slash) {
                StrStep::Done { text, next } => quoted_body(s@, start as int, false)
                    == (StrStep::Done {
                    text: s@.subrange(start as int, *pos as int) + text,
                    next,
                }),
                StrStep::Fail { err } => quoted_body(s@, start as int, false) == (StrStep::Fail {
                    err,
                }),
            }),
        decreases s@.len() - *pos,
    {
        if *pos == s.len() {
            return Err(ParseError::UnterminatedString);
        }
        let c = s[*pos];
        if c == '"' && !prev_slash {
            *pos = *pos + 1;
            let text = string_of_range(s, start, *pos - 1);
            proof {
                lemma_quoted_body(s@, start as int, false);
                assert(s@.subrange(start as int, *pos - 1) + Seq::<char>::empty() =~= s@.subrange(
                    start as int,
                    *pos - 1,
                ));
            }
            return Ok(text);
        }
        prev_slash = c == '\\';
        *pos = *pos + 1;
        proof {
            match quoted_body(s@, *pos as int, prev_slash) {
                StrStep::Done { text, next } => {
                    assert(s@.subrange(start as int, *pos - 1) + (seq![c] + text) =~= s@.subrange(
                        start as int,
                        *pos as int,
                    ) + text);
                },
                StrStep::Fail { .. } => {},
            }
        }
    }
}

/// Consumes a text line: everything up to (not including) the next newline
/// or the end of input, after leading whitespace.
fn parse_text(s: &Vec<char>, pos: &mut usize) -> (r: Node)
    requires
        *old(pos) <= s@.len(),
    ensures
        (match parse_text_at(s@, *old(pos) as int) {
            NodeStep::Done { node, next } => r@ == node && *final(pos) == next && skip_ws_end(
                s@,
                *old(pos) as int,
            ) <= next <= s@.len(),
            NodeStep::Fail { .. } => false,
        }),
{
    skip_whitespace(s, pos);
    let start = *pos;
    while *pos < s.len() && s[*pos] != '\n'
        invariant
            start <= *pos <= s@.len(),
            text_end(s@, start as int) == text_end(s@, *pos as int),
        decreases s@.len() - *pos,
    {
        *pos = *pos + 1;
    }
    Node::Text(string_of_range(s, start, *pos))
}

/// Consumes the body of the reserved comment directive, the cursor standing
/// just past its name: `{`, raw text up to the first `}`, trimmed.
#[verifier::loop_isolation(false)]
fn parse_comment_directive(s: &Vec<char>, pos: &mut usize) -> (r: Result<Node, ParseError>)
    requires
        *old(pos) <= s@.len(),
    ensures
        (match parse_comment_at(s@, *old(pos) as int) {
            NodeStep::Done { node, next } => r matches Ok(n) && n@ == node && *final(pos) == next
                && *old(pos) < next <= s@.len(),
            NodeStep::Fail { err } => r matches Err(e) && e == err,
        }),
{
    skip_whitespace(s, pos);
    if !(*pos < s.len() && s[*pos] == '{') {
        return Err(ParseError::ExpectedCommentBrace);
    }
    *pos = *pos + 1;
    let open = *pos;
    while *pos < s.len() && s[*pos] != '}'
        invariant
            open <= *pos <= s@.len(),
            brace_end(s@, open as int) == brace_end(s@, *pos as int),
        decreases s@.len() - *pos,
    {
        *pos = *pos + 1;
    }
    if *pos == s.len() {
        return Err(ParseError::UnterminatedComment);
    }
    let close = *pos;
    *pos = *pos + 1;
    let ghost t = s@.subrange(open as int, close as int);
    proof {
        lemma_brace_end(s@, open as int);
    }
    // Trim the captured span in place: drop leading, then trailing whitespace.
    let mut a = open;
    while a < close && is_whitespace_char(s[a])
        invariant
            open <= a <= close <= s@.len(),
            t == s@.subrange(open as int, close as int),
            skip_ws_end(t, 0) == skip_ws_end(t, a - open),
        decreases close - a,
    {
        proof {
            assert(t[a - open] == s@[a as int]);
        }
        a = a + 1;
    }
    if a == close {
        proof {
            assert(trim_ws(t) =~= Seq::<char>::empty());
        }
        return Ok(Node::Comment(String::new()));
    }
    proof {
        assert(t[a - open] == s@[a as int]);
        assert(!is_ws(s@[a as int]));
        assert(skip_ws_end(t, 0) == a - open);
    }
    let mut b = close;
    while b > a && is_whitespace_char(s[b - 1])
        invariant
            a < b <= close,
            rstrip_end(t, close - open) == rstrip_end(t, b - open),
        decreases b,
    {
        proof {
            assert(t[b - 1 - open] == s@[b - 1]);
            if b - 1 == a {
                assert(!is_ws(s@[a as int]));
            }
        }
        b = b - 1;
    }
    proof {
        assert(t[b - 1 - open] == s@[b - 1]);
        assert(rstrip_end(t, b - open) == b - open);
        assert(trim_ws(t) =~= s@.subrange(a as int, b as int));
    }
    Ok(Node::Comment(string_of_range(s, a, b)))
}

/// Consumes a parenthesized argument list, the cursor standing just past
/// the `(`: `name: value` pairs with optional trailing commas, until `)`.
#[verifier::loop_isolation(false)]
fn parse_directive_args(s: &Vec<char>, pos: &mut usize) -> (r: Result<Args, ParseError>)
    requires
        *old(pos) <= s@.len(),
    ensures
        (match parse_args_at(s@, *old(pos) as int) {
            MapStep::Done { args, next } => r matches Ok(a) && a@ == args && *final(pos) == next
                && *old(pos) < next <= s@.len(),
            MapStep::Fail { err } => r matches Err(e) && e == err,
        }),
{
    let ghost p0 = *old(pos) as int;
    let mut map = Args::new();
    proof {
        lemma_parse_args_bounds(s@, p0);
        match parse_args_at(s@, p0) {
            MapStep::Done { args, next } => {
                assert(Map::<Seq<char>, Seq<char>>::empty().union_prefer_right(args) =~= args);
            },
            MapStep::Fail { .. } => {},
        }
    }
    loop
        invariant
            p0 <= *pos <= s@.len(),
            0 <= p0,
            (match parse_args_at(s@, *pos as int) {
                MapStep::Done { args, next } => parse_args_at(s@, p0) == (MapStep::Done {
                    args: map@.union_prefer_right(args),
                    next,
                }) && p0 < next,
                MapStep::Fail { err } => parse_args_at(s@, p0) == (MapStep::Fail { err }),
            }),
        decreases s@.len() - *pos,
    {
        let ghost p_cur = *pos as int;
        skip_whitespace(s, pos);
        if *pos == s.len() {
            proof {
                assert(parse_args_at(s@, p_cur) == (MapStep::Fail {
                    err: ParseError::UnexpectedEndOfInput,
                }));
            }
            return Err(ParseError::UnexpectedEndOfInput);
        }
        if s[*pos] == ')' {
            *pos = *pos + 1;
            proof {
                assert(map@.union_prefer_right(Map::empty()) =~= map@);
            }
            return Ok(map);
        }
        let name = parse_ident(s, pos);
        if name.as_str().is_empty() {
            proof {
                assert(parse_args_at(s@, p_cur) == (MapStep::Fail {
                    err: ParseError::ExpectedArgName,
                }));
            }
            return Err(ParseError::ExpectedArgName);
        }
        let ghost key = name@;
        skip_whitespace(s, pos);
        if !(*pos < s.len() && s[*pos] == ':') {
            proof {
                assert(parse_args_at(s@, p_cur) == (MapStep::Fail {
                    err: ParseError::ExpectedColon,
                }));
            }
            return Err(ParseError::ExpectedColon);
        }
        *pos = *pos + 1;
        skip_whitespace(s, pos);
        let value: String;
        if *pos < s.len() && s[*pos] == '"' {
            match parse_quoted_str(s, pos) {
                Ok(v) => {
                    value = v;
                },
                Err(e) => {
                    proof {
                        assert(parse_args_at(s@, p_cur) == (MapStep::Fail { err: e }));
                    }
                    return Err(e);
                },
            }
        } else {
            value = parse_unquoted_arg(s, pos);
        }
        if *pos < s.len() && s[*pos] == ',' {
            *pos = *pos + 1;
        }
        let ghost m0 = map@;
        map.insert(name, value);
        proof {
            match parse_args_at(s@, *pos as int) {
                MapStep::Done { args, next } => {
                    assert(m0.union_prefer_right(
                        Map::empty().insert(key, value@).union_prefer_right(args),
                    ) =~= m0.insert(key, value@).union_prefer_right(args));
                },
                MapStep::Fail { .. } => {},
            }
        }
    }
}

/// Consumes a directive, the cursor standing on its `@`: name, then the
/// comment production for the reserved name, else an optional argument
/// list and an optional child block, at least one of which must appear.
#[verifier::loop_isolation(false)]
fn parse_directive(s: &Vec<char>, pos: &mut usize) -> (r: Result<Node, ParseError>)
    requires
        *old(pos) <= s@.len(),
    ensures
        (match parse_directive_at(s@, *old(pos) as int) {
            NodeStep::Done { node, next } => r matches Ok(n) && n@ == node && *final(pos) == next
                && *old(pos) < next <= s@.len(),
            NodeStep::Fail { err } => r matches Err(e) && e == err,
        }),
    decreases s@.len() - *old(pos), 0int,
{
    let ghost p0 = *old(pos) as int;
    if !(*pos < s.len() && s[*pos] == '@') {
        proof {
            assert(parse_directive_at(s@, p0) == (NodeStep::Fail {
                err: ParseError::ExpectedDirectiveStart,
            }));
        }
        return Err(ParseError::ExpectedDirectiveStart);
    }
    *pos = *pos + 1;
    let name = parse_ident(s, pos);
    if name.as_str().is_empty() {
        proof {
            assert(parse_directive_at(s@, p0) == (NodeStep::Fail {
                err: ParseError::EmptyDirectiveName,
            }));
        }
        return Err(ParseError::EmptyDirectiveName);
    }
    if name == "Comment".to_owned() {
        proof {
            assert(name@ == comment_name());
            assert(parse_directive_at(s@, p0) == parse_comment_at(s@, *pos as int));
        }
        return parse_comment_directive(s, pos);
    }
    let ghost nv = name@;
    skip_whitespace(s, pos);
    let got_paren = *pos < s.len() && s[*pos] == '(';
    let mut args = Args::new();
    if got_paren {
        *pos = *pos + 1;
        match parse_directive_args(s, pos) {
            Ok(a) => {
                args = a;
            },
            Err(e) => {
                proof {
                    assert(parse_directive_at(s@, p0) == (NodeStep::Fail { err: e }));
                }
                return Err(e);
            },
        }
        skip_whitespace(s, pos);
    }
    let ghost av = args@;
    let ghost b = *pos as int;
    let mut children: Vec<Node> = Vec::new();
    if *pos < s.len() && s[*pos] == '{' {
        *pos = *pos + 1;
        let ghost block_start = *pos as int;
        proof {
            assert(parse_directive_at(s@, p0) == (match parse_children_at(s@, block_start) {
                SeqStep::Done { nodes, next } => (NodeStep::Done {
                    node: (NodeView::Directive { name: nv, args: av, children: nodes }),
                    next,
                }),
                SeqStep::Fail { err } => (NodeStep::Fail { err }),
            }));
            match parse_children_at(s@, block_start) {
                SeqStep::Done { nodes, next } => {
                    assert(nodes_view(children@) =~= Seq::<NodeView>::empty());
                    assert(Seq::<NodeView>::empty() + nodes =~= nodes);
                },
                SeqStep::Fail { .. } => {},
            }
        }
        loop
            invariant
                p0 < block_start <= *pos <= s@.len(),
                (match parse_children_at(s@, *pos as int) {
                    SeqStep::Done { nodes, next } => parse_children_at(s@, block_start)
                        == (SeqStep::Done { nodes: nodes_view(children@) + nodes, next }),
                    SeqStep::Fail { err } => parse_children_at(s@, block_start) == (SeqStep::Fail {
                        err,
                    }),
                }),
            decreases s@.len() - *pos,
        {
            let ghost p_cur = *pos as int;
            skip_whitespace(s, pos);
            let ghost q = *pos as int;
            if *pos == s.len() {
                proof {
                    assert(parse_children_at(s@, p_cur) == (SeqStep::Fail {
                        err: ParseError::UnexpectedEndOfInput,
                    }));
                }
                return Err(ParseError::UnexpectedEndOfInput);
            }
            if s[*pos] == '}' {
                *pos = *pos + 1;
                proof {
                    assert(parse_children_at(s@, p_cur) == (SeqStep::Done {
                        nodes: Seq::<NodeView>::empty(),
                        next: *pos as int,
                    }));
                    assert(nodes_view(children@) + Seq::<NodeView>::empty() =~= nodes_view(
                        children@,
                    ));
                }
                break ;
            }
            match parse_from_chars(s, pos) {
                Ok(n) => {
                    let ghost cs0 = children@;
                    children.push(n);
                    proof {
                        lemma_nodes_view_push(cs0, n);
                        lemma_skip_ws_end(s@, q);
                        assert(q == skip_ws_end(s@, p_cur));
                        assert(parse_node_at(s@, q) == (NodeStep::Done {
                            node: n@,
                            next: *pos as int,
                        }));
                        assert(q < *pos as int <= s@.len());
                        match parse_children_at(s@, *pos as int) {
                            SeqStep::Done { nodes, next } => {
                                assert(parse_children_at(s@, p_cur) == (SeqStep::Done {
                                    nodes: seq![n@] + nodes,
                                    next,
                                }));
                                assert((nodes_view(cs0) + seq![n@]) + nodes =~= nodes_view(cs0) + (
                                seq![n@] + nodes));
                                assert(nodes_view(children@) =~= nodes_view(cs0) + seq![n@]);
                            },
                            SeqStep::Fail { err } => {
                                assert(parse_children_at(s@, p_cur) == (SeqStep::Fail { err }));
                            },
                        }
                    }
                },
                Err(e) => {
                    return Err(e);
                },
            }
        }
        proof {
            assert(parse_children_at(s@, block_start) == (SeqStep::Done {
                nodes: nodes_view(children@),
                next: *pos as int,
            }));
        }
    } else {
        if !got_paren {
            proof {
                assert(parse_directive_at(s@, p0) == (NodeStep::Fail {
                    err: ParseError::ExpectedParenOrBrace,
                }));
            }
            return Err(ParseError::ExpectedParenOrBrace);
        }
        proof {
            assert(nodes_view(children@) =~= Seq::<NodeView>::empty());
            assert(parse_directive_at(s@, p0) == (NodeStep::Done {
                node: (NodeView::Directive {
                    name: nv,
                    args: av,
                    children: Seq::<NodeView>::empty(),
                }),
                next: b,
            }));
        }
    }
    Ok(Node::Directive { name, args, children })
}

/// Consumes one node: a directive if (after whitespace) the cursor stands
/// on `@`, else a text line.
#[verifier::loop_isolation(false)]
fn parse_from_chars(s: &Vec<char>, pos: &mut usize) -> (r: Result<Node, ParseError>)
    requires
        *old(pos) <= s@.len(),
    ensures
        (match parse_node_at(s@, *old(pos) as int) {
            NodeStep::Done { node, next } => r matches Ok(n) && n@ == node && *final(pos) == next
                && skip_ws_end(s@, *old(pos) as int) < next <= s@.len(),
            NodeStep::Fail { err } => r matches Err(e) && e == err,
        }),
    decreases s@.len() - *old(pos), 1int,
{
    let ghost p0 = *old(pos) as int;
    skip_whitespace(s, pos);
    if *pos == s.len() {
        return Err(ParseError::UnexpectedEndOfInput);
    }
    if s[*pos] == '@' {
        parse_directive(s, pos)
    } else {
        proof {
            lemma_skip_ws_end(s@, p0);
            assert(!is_ws(s@[*pos as int]));
            assert(s@[*pos as int] != '\n');
            lemma_text_end(s@, *pos as int);
        }
        Ok(parse_text(s, pos))
    }
}

/// Parses a whole document: after leading whitespace the input must start
/// with `@`; the root node is parsed and anything after it is ignored.
pub fn parse(s: &str) -> (r: Result<Node, ParseError>)
    ensures
        (match spec_parse(s@) {
            NodeStep::Done { node, .. } => r matches Ok(n) && n@ == node,
            NodeStep::Fail { err } => r matches Err(e) && e == err,
        }),
{
    let v = chars_of(s);
    let mut pos: usize = 0;
    skip_whitespace(&v, &mut pos);
    if !(pos < v.len() && v[pos] == '@') {
        return Err(ParseError::ExpectedRootDirective);
    }
    proof {
        lemma_skip_ws_end(s@, 0);
        assert(skip_ws_end(s@, pos as int) == pos as int);
        assert(parse_node_at(s@, 0) == parse_node_at(s@, pos as int));
    }
    match parse_from_chars(&v, &mut pos) {
        Ok(n) => Ok(n),
        Err(e) => Err(e),
    }
}

} // verus!
