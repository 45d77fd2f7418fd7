//! Laws of the grammar, stated and proved once and for all inputs: what
//! quoted and unquoted values preserve, how child blocks and comment bodies
//! are treated, the shape of a depth-first traversal, and determinism.

use vstd::prelude::*;

verus! {

use crate::chars::is_alpha;
use crate::chars::is_ws;
use crate::grammar::MapStep;
use crate::grammar::NodeStep;
use crate::grammar::ParseError;
use crate::grammar::SeqStep;
use crate::grammar::StrStep;
use crate::grammar::brace_end;
use crate::grammar::comment_name;
use crate::grammar::ident_end;
use crate::grammar::lemma_brace_end;
use crate::grammar::lemma_skip_ws_end;
use crate::grammar::parse_args_after_value;
use crate::grammar::parse_args_at;
use crate::grammar::parse_children_at;
use crate::grammar::parse_comment_at;
use crate::grammar::parse_directive_at;
use crate::grammar::parse_node_at;
use crate::grammar::quoted_body;
use crate::grammar::skip_ws_end;
use crate::grammar::spec_parse;
use crate::grammar::trim_ws;
use crate::grammar::unquoted_end;
use crate::node::NodeView;
use crate::traverse::dfs;
use crate::traverse::dfs_all;

/// Where a scan ends, characterized from the outside: if every character
/// of `s` in positions `pos..e` is whitespace and `e` is the end of input
/// or a non-whitespace character, the whitespace skip from `pos` stops
/// exactly at `e`.
pub proof fn lemma_skip_ws_end_is(s: Seq<char>, pos: int, e: int)
    requires
        0 <= pos <= e <= s.len(),
        forall|k: int| pos <= k < e ==> is_ws(s[k]),
        e == s.len() || !is_ws(s[e]),
    ensures
        skip_ws_end(s, pos) == e,
    decreases e - pos,
{
    if pos < e {
        lemma_skip_ws_end_is(s, pos + 1, e);
    }
}

/// If every character in `pos..e` is alphabetic and `e` is the end of
/// input or a non-alphabetic character, the identifier starting at `pos`
/// is exactly `s[pos..e]`.
pub proof fn lemma_ident_end_is(s: Seq<char>, pos: int, e: int)
    requires
        0 <= pos <= e <= s.len(),
        forall|k: int| pos <= k < e ==> is_alpha(s[k]),
        e == s.len() || !is_alpha(s[e]),
    ensures
        ident_end(s, pos) == e,
    decreases e - pos,
{
    if pos < e {
        lemma_ident_end_is(s, pos + 1, e);
    }
}

/// An unquoted value is taken verbatim up to (not including) the next `,`
/// or `)`: if no character in `pos..e` is `,` or `)` and `e` is the end of
/// input, a `,`, or a `)`, the value starting at `pos` is exactly
/// `s[pos..e]`, internal whitespace included.
pub proof fn lemma_unquoted_value_verbatim(s: Seq<char>, pos: int, e: int)
    requires
        0 <= pos <= e <= s.len(),
        forall|k: int| pos <= k < e ==> (s[k] != ',' && s[k] != ')'),
        e == s.len() || s[e] == ',' || s[e] == ')',
    ensures
        unquoted_end(s, pos) == e,
    decreases e - pos,
{
    if pos < e {
        lemma_unquoted_value_verbatim(s, pos + 1, e);
    }
}

proof fn lemma_quoted_scan(s: Seq<char>, pos: int, e: int, p: int, prev_slash: bool)
    requires
        0 <= pos <= p <= e < s.len(),
        s[e] == '"',
        forall|k: int| pos <= k < e ==> ((#[trigger] s[k]) == '"' ==> k > pos && s[k - 1]
            == '\\'),
        e > pos ==> s[e - 1] != '\\',
        prev_slash == (p > pos && s[p - 1] == '\\'),
    ensures
        quoted_body(s, p, prev_slash) == (StrStep::Done { text: s.subrange(p, e), next: e + 1 }),
    decreases e - p,
{
    if p == e {
        assert(!prev_slash);
        assert(s.subrange(p, e) =~= Seq::<char>::empty());
    } else {
        assert(s[p] == '"' ==> p > pos && s[p - 1] == '\\');
        lemma_quoted_scan(s, pos, e, p + 1, s[p] == '\\');
        assert(seq![s[p]] + s.subrange(p + 1, e) =~= s.subrange(p, e));
    }
}

/// A quoted value preserves its contents verbatim — internal whitespace,
/// backslashes and the characters they escape included; no escape decoding
/// is performed. If no `"` inside `v = s[pos..e]` is unescaped and `v`
/// does not end in `\`, the quoted-value body starting at `pos` consumes
/// exactly up to the closing quote at `e` and yields `v` itself.
pub proof fn lemma_quoted_value_verbatim(s: Seq<char>, pos: int, e: int)
    requires
        0 <= pos <= e < s.len(),
        s[e] == '"',
        forall|k: int| pos <= k < e ==> ((#[trigger] s[k]) == '"' ==> k > pos && s[k - 1]
            == '\\'),
        e > pos ==> s[e - 1] != '\\',
    ensures
        quoted_body(s, pos, false) == (StrStep::Done { text: s.subrange(pos, e), next: e + 1 }),
{
    lemma_quoted_scan(s, pos, e, pos, false);
}

/// The children of a brace-delimited block come in source order: if a
/// block parse succeeds on a non-empty block, its first node is exactly
/// the parse of the first item after the `{`, and the remaining nodes are
/// exactly the parse of the rest of the block.
pub proof fn lemma_children_in_source_order(s: Seq<char>, pos: int)
    requires
        0 <= pos <= s.len(),
    ensures
        (match parse_children_at(s, pos) {
            SeqStep::Done { nodes, next } => {
                let q = skip_ws_end(s, pos);
                q < s.len() && (s[q] != '}' ==> (match parse_node_at(s, q) {
                    NodeStep::Done { node, next: after } => nodes.len() >= 1 && nodes[0] == node
                        && parse_children_at(s, after) == (SeqStep::Done {
                        nodes: nodes.drop_first(),
                        next,
                    }),
                    NodeStep::Fail { .. } => false,
                }))
            },
            SeqStep::Fail { .. } => true,
        }),
{
    let q = skip_ws_end(s, pos);
    lemma_skip_ws_end(s, pos);
    match parse_children_at(s, pos) {
        SeqStep::Done { nodes, next } => {
            if s[q] != '}' {
                match parse_node_at(s, q) {
                    NodeStep::Done { node, next: after } => {
                        match parse_children_at(s, after) {
                            SeqStep::Done { nodes: rest, next: n2 } => {
                                assert((seq![node] + rest).drop_first() =~= rest);
                            },
                            SeqStep::Fail { .. } => {},
                        }
                    },
                    NodeStep::Fail { .. } => {},
                }
            }
        },
        SeqStep::Fail { .. } => {},
    }
}

/// The reserved comment directive never has its body parsed as markup: if
/// the name after the `@` reads exactly like the reserved identifier, the
/// directive parse switches to the comment production, and a successful
/// comment parse captures exactly the raw span between the `{` and the
/// first `}`, trimmed of surrounding whitespace — nothing inside it is
/// interpreted.
pub proof fn lemma_comment_body_raw(s: Seq<char>, pos: int)
    requires
        0 <= pos < s.len(),
        s[pos] == '@',
        ident_end(s, pos + 1) > pos + 1,
        s.subrange(pos + 1, ident_end(s, pos + 1)) == comment_name(),
    ensures
        parse_directive_at(s, pos) == parse_comment_at(s, ident_end(s, pos + 1)),
        (match parse_comment_at(s, ident_end(s, pos + 1)) {
            NodeStep::Done { node, next } => {
                let q = skip_ws_end(s, ident_end(s, pos + 1));
                node == (NodeView::Comment { text: trim_ws(s.subrange(q + 1, next - 1)) }) && s[q]
                    == '{' && s[next - 1] == '}'
            },
            NodeStep::Fail { .. } => true,
        }),
{
    let ne = ident_end(s, pos + 1);
    crate::grammar::lemma_ident_end(s, pos + 1);
    let q = skip_ws_end(s, ne);
    lemma_skip_ws_end(s, ne);
    if q < s.len() && s[q] == '{' {
        lemma_brace_end(s, q + 1);
        match brace_end(s, q + 1) {
            Some(c) => {
                assert(s[c] == '}');
            },
            None => {},
        }
    }
}

/// A depth-first traversal is pre-order: it yields the node itself first,
/// and then exactly the traversals of its children, in child order.
pub proof fn lemma_dfs_preorder(n: NodeView)
    ensures
        dfs(n).len() >= 1,
        dfs(n)[0] == n,
        dfs(n).drop_first() == dfs_all(n.children()),
{
    match n {
        NodeView::Directive { children, .. } => {
            assert((seq![n] + dfs_all(children)).drop_first() =~= dfs_all(children));
        },
        _ => {
            assert(dfs(n) == seq![n]);
            assert(dfs_all(n.children()) == Seq::<NodeView>::empty());
            assert((seq![n]).drop_first() =~= Seq::<NodeView>::empty());
        },
    }
}

/// An input whose first non-whitespace character is not the directive
/// marker fails, deterministically, with the root-directive error.
pub proof fn lemma_root_requires_marker(s: Seq<char>)
    requires
        skip_ws_end(s, 0) == s.len() || s[skip_ws_end(s, 0)] != '@',
    ensures
        spec_parse(s) == (NodeStep::Fail { err: ParseError::ExpectedRootDirective }),
{
}

/// Parsing is deterministic: the grammar maps each input to exactly one
/// outcome, so two parses of the same input yield structurally equal
/// trees, or the same error.
pub proof fn lemma_parse_deterministic(s: Seq<char>, r1: NodeStep, r2: NodeStep)
    requires
        r1 == spec_parse(s),
        r2 == spec_parse(s),
    ensures
        r1 == r2,
{
}

/// Characters that may form a directive or argument name in these laws:
/// alphabetic, and not whitespace.
pub open spec fn ident_chars(cs: Seq<char>) -> bool {
    forall|i: int| 0 <= i < cs.len() ==> is_alpha(#[trigger] cs[i]) && !is_ws(cs[i])
}

/// Characters that may form an unquoted argument value in these laws: free
/// of the two delimiters, not opening like a quoted value, and not starting
/// with whitespace (which the grammar would absorb before the value).
pub open spec fn value_chars(cs: Seq<char>) -> bool {
    &&& cs.len() > 0
    &&& forall|i: int| 0 <= i < cs.len() ==> (#[trigger] cs[i]) != ',' && cs[i] != ')'
    &&& !is_ws(cs[0])
    &&& cs[0] != '"'
}

/// The well-formed two-argument directive input of the grammar:
/// `@Name(k1: v1, k2: v2)`.
pub open spec fn two_arg_input(
    name: Seq<char>,
    k1: Seq<char>,
    v1: Seq<char>,
    k2: Seq<char>,
    v2: Seq<char>,
) -> Seq<char> {
    seq!['@'] + name + seq!['('] + k1 + seq![':', ' '] + v1 + seq![',', ' '] + k2 + seq![':', ' ']
        + v2 + seq![')']
}

/// Parsing a well-formed `@Name(k1: v1, k2: v2)` yields a directive named
/// `Name` whose argument mapping is exactly `{k1: v1, k2: v2}` — the same
/// mapping in whichever order the two bindings are written down — and
/// whose children are empty.
pub proof fn lemma_two_arg_directive(
    name: Seq<char>,
    k1: Seq<char>,
    v1: Seq<char>,
    k2: Seq<char>,
    v2: Seq<char>,
)
    requires
        name.len() > 0,
        ident_chars(name),
        name != comment_name(),
        k1.len() > 0,
        ident_chars(k1),
        k2.len() > 0,
        ident_chars(k2),
        k1 != k2,
        value_chars(v1),
        value_chars(v2),
    ensures
        ({
            let s = two_arg_input(name, k1, v1, k2, v2);
            let args = Map::<Seq<char>, Seq<char>>::empty().insert(k1, v1).insert(k2, v2);
            spec_parse(s) == (NodeStep::Done {
                node: (NodeView::Directive { name, args, children: Seq::empty() }),
                next: s.len() as int,
            }) && args == Map::<Seq<char>, Seq<char>>::empty().insert(k2, v2).insert(k1, v1)
        }),
{
    let s = two_arg_input(name, k1, v1, k2, v2);
    let n1 = 1 + name.len() as int;  // position of '('
    let a1 = n1 + 1;  // start of k1
    let c1 = a1 + k1.len() as int;  // position of ':'
    let w1 = c1 + 2;  // start of v1, after ": "
    let m1 = w1 + v1.len() as int;  // position of ','
    let a2 = m1 + 2;  // start of k2, after ", "
    let c2 = a2 + k2.len() as int;  // position of the second ':'
    let w2 = c2 + 2;  // start of v2
    let m2 = w2 + v2.len() as int;  // position of ')'
    assert(s.len() == m2 + 1);
    assert(s[0] == '@');
    assert(s.subrange(1, n1) =~= name);
    assert(s[n1] == '(');
    assert(s.subrange(a1, c1) =~= k1);
    assert(s[c1] == ':');
    assert(s[c1 + 1] == ' ');
    assert(s.subrange(w1, m1) =~= v1);
    assert(s[m1] == ',');
    assert(s[m1 + 1] == ' ');
    assert(s.subrange(a2, c2) =~= k2);
    assert(s[c2] == ':');
    assert(s[c2 + 1] == ' ');
    assert(s.subrange(w2, m2) =~= v2);
    assert(s[m2] == ')');

    // The empty tail of the argument list, at the closing parenthesis.
    lemma_skip_ws_end_is(s, m2, m2);
    assert(parse_args_at(s, m2) == (MapStep::Done {
        args: Map::<Seq<char>, Seq<char>>::empty(),
        next: m2 + 1,
    }));

    // The second pair: `k2: v2` followed by `)`.
    assert forall|k: int| a2 <= k < c2 implies is_alpha(#[trigger] s[k]) && !is_ws(s[k]) by {
        assert(s[k] == k2[k - a2]);
    }
    assert forall|k: int| w2 <= k < m2 implies (#[trigger] s[k]) != ',' && s[k] != ')' by {
        assert(s[k] == v2[k - w2]);
    }
    assert(s[a2] == k2[0] && !is_ws(k2[0]));
    assert(s[w2] == v2[0] && !is_ws(v2[0]) && v2[0] != '"');
    lemma_skip_ws_end_is(s, m1 + 1, a2);
    lemma_ident_end_is(s, a2, c2);
    lemma_skip_ws_end_is(s, c2, c2);
    lemma_skip_ws_end_is(s, c2 + 1, w2);
    lemma_unquoted_value_verbatim(s, w2, m2);
    assert(parse_args_after_value(s, m1 + 1, k2, v2, m2) == (MapStep::Done {
        args: Map::<Seq<char>, Seq<char>>::empty().insert(k2, v2).union_prefer_right(
            Map::empty(),
        ),
        next: m2 + 1,
    }));
    assert(Map::<Seq<char>, Seq<char>>::empty().insert(k2, v2).union_prefer_right(Map::empty())
        =~= Map::<Seq<char>, Seq<char>>::empty().insert(k2, v2));
    assert(!is_alpha(')'));
    assert(parse_args_at(s, m1 + 1) == (MapStep::Done {
        args: Map::<Seq<char>, Seq<char>>::empty().insert(k2, v2),
        next: m2 + 1,
    }));

    // The first pair: `k1: v1` followed by `,`.
    assert forall|k: int| a1 <= k < c1 implies is_alpha(#[trigger] s[k]) && !is_ws(s[k]) by {
        assert(s[k] == k1[k - a1]);
    }
    assert forall|k: int| w1 <= k < m1 implies (#[trigger] s[k]) != ',' && s[k] != ')' by {
        assert(s[k] == v1[k - w1]);
    }
    assert(s[a1] == k1[0] && !is_ws(k1[0]));
    assert(s[w1] == v1[0] && !is_ws(v1[0]) && v1[0] != '"');
    lemma_skip_ws_end_is(s, a1, a1);
    lemma_ident_end_is(s, a1, c1);
    lemma_skip_ws_end_is(s, c1, c1);
    lemma_skip_ws_end_is(s, c1 + 1, w1);
    lemma_unquoted_value_verbatim(s, w1, m1);
    let args = Map::<Seq<char>, Seq<char>>::empty().insert(k1, v1).insert(k2, v2);
    assert(parse_args_after_value(s, a1, k1, v1, m1) == (MapStep::Done {
        args: Map::<Seq<char>, Seq<char>>::empty().insert(k1, v1).union_prefer_right(
            Map::<Seq<char>, Seq<char>>::empty().insert(k2, v2),
        ),
        next: m2 + 1,
    }));
    assert(Map::<Seq<char>, Seq<char>>::empty().insert(k1, v1).union_prefer_right(
        Map::<Seq<char>, Seq<char>>::empty().insert(k2, v2),
    ) =~= args);
    assert(parse_args_at(s, a1) == (MapStep::Done { args, next: m2 + 1 }));

    // The directive around the argument list.
    assert forall|k: int| 1 <= k < n1 implies is_alpha(#[trigger] s[k]) && !is_ws(s[k]) by {
        assert(s[k] == name[k - 1]);
    }
    assert(!is_alpha('('));
    lemma_ident_end_is(s, 1, n1);
    assert(s.subrange(1, n1) == name && name != comment_name());
    lemma_skip_ws_end_is(s, n1, n1);
    lemma_skip_ws_end_is(s, m2 + 1, m2 + 1);
    assert(skip_ws_end(s, m2 + 1) == s.len());
    assert(parse_directive_at(s, 0) == (NodeStep::Done {
        node: (NodeView::Directive { name, args, children: Seq::empty() }),
        next: s.len() as int,
    }));

    // The whole document.
    lemma_skip_ws_end_is(s, 0, 0);
    assert(spec_parse(s) == parse_node_at(s, 0));
    assert(parse_node_at(s, 0) == parse_directive_at(s, 0));

    // The mapping does not depend on the order the bindings were written.
    assert(args =~= Map::<Seq<char>, Seq<char>>::empty().insert(k2, v2).insert(k1, v1));
}


/// For an input of the form `@Name { ... }` (a named directive with a child
/// block and no argument list), the resulting directive's children sequence
/// is exactly what parses, node after node, inside the braces — see
/// `lemma_children_in_source_order` for the order of those nodes.
pub proof fn lemma_directive_children(s: Seq<char>, pos: int)
    requires
        0 <= pos < s.len(),
        s[pos] == '@',
        ident_end(s, pos + 1) > pos + 1,
        s.subrange(pos + 1, ident_end(s, pos + 1)) != comment_name(),
        ({
            let p = skip_ws_end(s, ident_end(s, pos + 1));
            p < s.len() && s[p] == '{'
        }),
    ensures
        ({
            let ne = ident_end(s, pos + 1);
            let p = skip_ws_end(s, ne);
            parse_directive_at(s, pos) == (match parse_children_at(s, p + 1) {
                SeqStep::Done { nodes, next } => (NodeStep::Done {
                    node: (NodeView::Directive {
                        name: s.subrange(pos + 1, ne),
                        args: Map::empty(),
                        children: nodes,
                    }),
                    next,
                }),
                SeqStep::Fail { err } => (NodeStep::Fail { err }),
            })
        }),
{
    crate::grammar::lemma_ident_end(s, pos + 1);
    lemma_skip_ws_end(s, ident_end(s, pos + 1));
}


/// A successful directive parse always consumes input: it ends strictly
/// past where it started, within bounds.
pub proof fn lemma_directive_advances(s: Seq<char>, pos: int)
    requires
        0 <= pos <= s.len(),
    ensures
        parse_directive_at(s, pos) matches NodeStep::Done { next, .. } ==> pos < next <= s.len(),
    decreases s.len() - pos, 0int,
{
    if pos < s.len() && s[pos] == '@' {
        crate::grammar::lemma_ident_end(s, pos + 1);
        let ne = ident_end(s, pos + 1);
        if ne > pos + 1 {
            if s.subrange(pos + 1, ne) == comment_name() {
                lemma_skip_ws_end(s, ne);
                let q = skip_ws_end(s, ne);
                if q < s.len() && s[q] == '{' {
                    lemma_brace_end(s, q + 1);
                }
            } else {
                lemma_skip_ws_end(s, ne);
                let p = skip_ws_end(s, ne);
                if p < s.len() && s[p] == '(' {
                    crate::grammar::lemma_parse_args_bounds(s, p + 1);
                    match parse_args_at(s, p + 1) {
                        MapStep::Done { next, .. } => {
                            lemma_skip_ws_end(s, next);
                            let b = skip_ws_end(s, next);
                            if b < s.len() && s[b] == '{' {
                                lemma_children_bounds(s, b + 1);
                            }
                        },
                        MapStep::Fail { .. } => {},
                    }
                } else if p < s.len() && s[p] == '{' {
                    lemma_children_bounds(s, p + 1);
                }
            }
        }
    }
}

/// A successful node parse always consumes input past the whitespace that
/// precedes it.
pub proof fn lemma_node_advances(s: Seq<char>, pos: int)
    requires
        0 <= pos <= s.len(),
    ensures
        parse_node_at(s, pos) matches NodeStep::Done { next, .. } ==> skip_ws_end(s, pos) < next
            <= s.len(),
    decreases s.len() - pos, 2int,
{
    lemma_skip_ws_end(s, pos);
    let q = skip_ws_end(s, pos);
    if q < s.len() {
        if s[q] == '@' {
            lemma_directive_advances(s, q);
        } else {
            crate::grammar::lemma_text_end(s, q);
            lemma_skip_ws_end(s, q);
        }
    }
}

/// A successful child-block parse ends strictly past where it started,
/// within bounds. Together with `lemma_node_advances` this shows that the
/// grammar never stalls: the guarded fallback branches inside
/// `parse_children_at` and `parse_args_after_value` are never taken.
pub proof fn lemma_children_bounds(s: Seq<char>, pos: int)
    requires
        0 <= pos <= s.len(),
    ensures
        parse_children_at(s, pos) matches SeqStep::Done { next, .. } ==> pos < next <= s.len(),
    decreases s.len() - pos, 3int,
{
    lemma_skip_ws_end(s, pos);
    let q = skip_ws_end(s, pos);
    if q < s.len() && s[q] != '}' {
        lemma_node_advances(s, q);
        lemma_skip_ws_end(s, q);
        match parse_node_at(s, q) {
            NodeStep::Done { next, .. } => {
                if q < next <= s.len() {
                    lemma_children_bounds(s, next);
                }
            },
            NodeStep::Fail { .. } => {},
        }
    }
}


/// A quoted value can fail in only one way: by the input ending before its
/// closing quote. Its failure is always the unterminated-string error.
pub proof fn lemma_quoted_fails_unterminated(s: Seq<char>, pos: int, prev_slash: bool)
    requires
        0 <= pos <= s.len(),
    ensures
        quoted_body(s, pos, prev_slash) matches StrStep::Fail { err } ==> err
            == ParseError::UnterminatedString,
    decreases s.len() - pos,
{
    if pos < s.len() && !(s[pos] == '"' && !prev_slash) {
        lemma_quoted_fails_unterminated(s, pos + 1, s[pos] == '\\');
    }
}

/// A child block whose closing `}` never comes cannot parse: if no `}`
/// appears anywhere at or after the block's start, the block parse fails,
/// deterministically.
pub proof fn lemma_unterminated_block_fails(s: Seq<char>, pos: int)
    requires
        0 <= pos <= s.len(),
        forall|k: int| pos <= k < s.len() ==> (#[trigger] s[k]) != '}',
    ensures
        parse_children_at(s, pos) is Fail,
    decreases s.len() - pos,
{
    lemma_skip_ws_end(s, pos);
    let q = skip_ws_end(s, pos);
    if q < s.len() {
        assert(s[q] != '}');
        match parse_node_at(s, q) {
            NodeStep::Done { next, .. } => {
                if q < next <= s.len() {
                    lemma_unterminated_block_fails(s, next);
                }
            },
            NodeStep::Fail { .. } => {},
        }
    }
}

} // verus!
