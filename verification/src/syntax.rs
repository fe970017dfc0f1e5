//! The grammar of `layout!` bodies: items that are elements, `if` and `for`
//! blocks and `$(..)` insertions, with Rust types, expressions and closure
//! parameters in them as `syn` reads them.
use vstd::prelude::*;

use crate::format::{type_end, type_end_exec, first_group, first_tok, find_group, find_token,
    group_at, is_tok, lemma_type_end, lemma_first_group, lemma_first_tok, tok_at, token_is, split_commas,
    split_commas_exec, parts_ok, lemma_comma_parts};
use crate::lexer::{lemma_view_nodes_at, lemma_view_nodes_subrange, lex, lex_nodes, view_node_flat, view_nodes, Node, Tree};
use crate::rust_syntax::{
    fn_arg_error, ident_error, syn_expr, syn_expr_no_brace, syn_fn_arg, syn_ident, syn_type, expr_error,
    expr_no_brace_error, type_error,
};
use crate::text::{push_all, push_word, string_of};

verus! {

// ---------------------------------------------------------------------------
// Positions and pieces of text.
// ---------------------------------------------------------------------------

/// The offset where a node begins.
pub open spec fn start_of(n: Tree) -> int {
    match n {
        Tree::Token { start, .. } => start,
        Tree::Comment { start, .. } => start,
        Tree::Group { start, .. } => start,
    }
}

/// The offset just after a node.
pub open spec fn end_of(n: Tree) -> int {
    match n {
        Tree::Token { end, .. } => end,
        Tree::Comment { start, .. } => start,
        Tree::Group { end, .. } => end,
    }
}

/// `n` clamped to `0..=len`.
pub open spec fn clamp(n: int, len: int) -> int {
    if n < 0 {
        0
    } else if n > len {
        len
    } else {
        n
    }
}

/// The text from offset `a` to offset `b`, both clamped to the text.
pub open spec fn slice(t: Seq<char>, a: int, b: int) -> Seq<char> {
    let x = clamp(a, t.len() as int);
    let y = clamp(b, t.len() as int);
    t.subrange(x, if y < x { x } else { y })
}

/// The offset of a group's closing delimiter.
pub open spec fn inner_end(n: Tree) -> int {
    if end_of(n) > 0 {
        end_of(n) - 1
    } else {
        0
    }
}

/// Where the node at `c` begins, or `end` when there is none.
pub open spec fn pos(ns: Seq<Tree>, c: int, end: int) -> int {
    if 0 <= c < ns.len() {
        start_of(ns[c])
    } else {
        end
    }
}

/// The text of the nodes `a..b`.
pub open spec fn span_text(t: Seq<char>, ns: Seq<Tree>, a: int, b: int) -> Seq<char> {
    if 0 <= a < b <= ns.len() {
        slice(t, start_of(ns[a]), end_of(ns[b - 1]))
    } else {
        seq![]
    }
}

/// The failure "expected {what}" at node `c`, or "unexpected end of input,
/// expected {what}" at `end` when the nodes are used up.
pub open spec fn expected_at(ns: Seq<Tree>, c: int, end: int, what: Seq<char>) -> Result<int, (int, Seq<char>)> {
    if 0 <= c < ns.len() {
        Err((start_of(ns[c]), ['e', 'x', 'p', 'e', 'c', 't', 'e', 'd', ' ']@ + what))
    } else {
        Err((end, ['u', 'n', 'e', 'x', 'p', 'e', 'c', 't', 'e', 'd', ' ', 'e', 'n', 'd', ' ', 'o', 'f', ' ', 'i', 'n', 'p', 'u', 't', ',', ' ', 'e', 'x', 'p', 'e', 'c', 't', 'e', 'd', ' ']@ + what))
    }
}

/// `c` when `syn`'s answer about the text of the nodes `a..b` is no error, else
/// that error at the nodes.
pub open spec fn checked(answer: Option<Seq<char>>, ns: Seq<Tree>, a: int, end: int, c: int) -> Result<
    int,
    (int, Seq<char>),
> {
    match answer {
        None => Ok(c),
        Some(m) => Err((pos(ns, a, end), m)),
    }
}

/// The nodes without comments, at every level.
#[verifier::opaque]
pub open spec fn strip(ns: Seq<Tree>) -> Seq<Tree>
    decreases ns,
{
    if ns.len() == 0 {
        seq![]
    } else {
        let rest = strip(ns.subrange(0, ns.len() - 1));
        match ns[ns.len() - 1] {
            Tree::Comment { .. } => rest,
            Tree::Token { text, start, end } => rest.push(Tree::Token { text, start, end }),
            Tree::Group { open, close, nodes, start, end } => rest.push(
                Tree::Group { open, close, nodes: strip(nodes), start, end },
            ),
        }
    }
}

// ---------------------------------------------------------------------------
// The grammar.
// ---------------------------------------------------------------------------

/// The layout in a group's braces: the group at `c`, opened by `open`, whose
/// children must form a layout; `what` names the delimiter in the message.
#[verifier::opaque]
pub open spec fn group_layout(t: Seq<char>, ns: Seq<Tree>, c: int, end: int, what: Seq<char>) -> Result<
    int,
    (int, Seq<char>),
>
    decreases ns, 0int, 0int,
{
    match group_at(ns, c, '{') {
        None => expected_at(ns, c, end, what),
        Some(inner) => {
            proof {
                crate::format::lemma_group_smaller(ns, c, '{');
            }
            match layout_items(t, inner, 0, inner_end(ns[c])) {
                Err(e) => Err(e),
                Ok(_) => Ok(c + 1),
            }
        },
    }
}

/// The items of a layout from `c` on, each optionally followed by a comma.
#[verifier::opaque]
pub open spec fn layout_items(t: Seq<char>, ns: Seq<Tree>, c: int, end: int) -> Result<int, (int, Seq<char>)>
    decreases ns, 4int, ns.len() - c,
{
    if c < 0 || c >= ns.len() {
        Ok(c)
    } else {
        match layout_item(t, ns, c, end) {
            Err(e) => Err(e),
            Ok(c2) => if c2 <= c || c2 > ns.len() {
                Err((pos(ns, c, end), ['u', 'n', 'e', 'x', 'p', 'e', 'c', 't', 'e', 'd', ' ', 't', 'o', 'k', 'e', 'n']@))
            } else {
                layout_items(t, ns, if is_tok(ns, c2, [',']@) { c2 + 1 } else { c2 }, end)
            },
        }
    }
}

/// One item at `c`: an insertion, an `if`, a `for` or an element.
#[verifier::opaque]
pub open spec fn layout_item(t: Seq<char>, ns: Seq<Tree>, c: int, end: int) -> Result<int, (int, Seq<char>)>
    decreases ns, 3int, 0int,
{
    if is_tok(ns, c, ['$']@) || (is_tok(ns, c, ['y', 'i', 'e', 'l', 'd']@) && is_tok(ns, c + 1, ['$']@)) {
        let d = if is_tok(ns, c, ['y', 'i', 'e', 'l', 'd']@) { c + 2 } else { c + 1 };
        match group_at(ns, d, '(') {
            None => expected_at(ns, d, end, ['p', 'a', 'r', 'e', 'n', 't', 'h', 'e', 's', 'e', 's']@),
            Some(_) => checked(
                syn_expr_no_brace(slice(t, start_of(ns[d]) + 1, end_of(ns[d]) - 1)),
                ns,
                d,
                end,
                d + 1,
            ),
        }
    } else if is_tok(ns, c, ['i', 'f']@) {
        if_item(t, ns, c, end)
    } else if is_tok(ns, c, ['f', 'o', 'r']@) {
        for_item(t, ns, c, end)
    } else {
        element(t, ns, c, end)
    }
}

/// An `if` item: the condition up to the first brace group, the block, and
/// an `else` with a block or another `if`.
#[verifier::opaque]
pub open spec fn if_item(t: Seq<char>, ns: Seq<Tree>, c: int, end: int) -> Result<int, (int, Seq<char>)>
    decreases ns, 2int, ns.len() - c,
{
    if c < 0 || c >= ns.len() {
        Ok(c)
    } else {
        let b = first_group(ns, c + 1, '{');
        match checked(syn_expr_no_brace(span_text(t, ns, c + 1, b)), ns, c + 1, end, b) {
            Err(e) => Err(e),
            Ok(_) => match group_layout(t, ns, b, end, ['c', 'u', 'r', 'l', 'y', ' ', 'b', 'r', 'a', 'c', 'e', 's']@) {
                Err(e) => Err(e),
                Ok(d) => if is_tok(ns, d, ['e', 'l', 's', 'e']@) {
                    if is_tok(ns, d + 1, ['i', 'f']@) {
                        if d + 1 <= c {
                            Ok(d)
                        } else {
                            if_item(t, ns, d + 1, end)
                        }
                    } else {
                        group_layout(t, ns, d + 1, end, ['c', 'u', 'r', 'l', 'y', ' ', 'b', 'r', 'a', 'c', 'e', 's']@)
                    }
                } else {
                    Ok(d)
                },
            },
        }
    }
}

/// A `for` item: the binding, `in`, the data expression, an optional
/// `where key = expr`, and the block.
#[verifier::opaque]
pub open spec fn for_item(t: Seq<char>, ns: Seq<Tree>, c: int, end: int) -> Result<int, (int, Seq<char>)>
    decreases ns, 2int, 0int,
{
    let binding = match tok_at(ns, c + 1) {
        Some(name) => checked(syn_ident(name), ns, c + 1, end, c + 2),
        None => expected_at(ns, c + 1, end, ['i', 'd', 'e', 'n', 't', 'i', 'f', 'i', 'e', 'r']@),
    };
    match binding {
        Err(e) => Err(e),
        Ok(d) => if !is_tok(ns, d, ['i', 'n']@) {
            expected_at(ns, d, end, ['`', 'i', 'n', '`']@)
        } else {
            let w = first_tok(ns, d + 1, ['w', 'h', 'e', 'r', 'e']@);
            let b = first_group(ns, d + 1, '{');
            let e = if w < b { w } else { b };
            match checked(syn_expr_no_brace(span_text(t, ns, d + 1, e)), ns, d + 1, end, e) {
                Err(x) => Err(x),
                Ok(_) => for_tail(t, ns, e, end),
            }
        },
    }
}

/// The rest of a `for` item at `e`: an optional `where key = expr`, then the block.
#[verifier::opaque]
pub open spec fn for_tail(t: Seq<char>, ns: Seq<Tree>, e: int, end: int) -> Result<int, (int, Seq<char>)>
    decreases ns, 1int, 0int,
{
    if is_tok(ns, e, ['w', 'h', 'e', 'r', 'e']@) {
        let key = match tok_at(ns, e + 1) {
            Some(name) => checked(syn_ident(name), ns, e + 1, end, e + 2),
            None => expected_at(ns, e + 1, end, ['i', 'd', 'e', 'n', 't', 'i', 'f', 'i', 'e', 'r']@),
        };
        match key {
            Err(x) => Err(x),
            Ok(_) => if is_tok(ns, e + 1, ['k', 'e', 'y']@) {
                if !is_tok(ns, e + 2, ['=']@) {
                    expected_at(ns, e + 2, end, ['`', '=', '`']@)
                } else {
                    let b = first_group(ns, e + 3, '{');
                    match checked(syn_expr_no_brace(span_text(t, ns, e + 3, b)), ns, e + 3, end, b) {
                        Err(x) => Err(x),
                        Ok(_) => group_layout(t, ns, b, end, ['c', 'u', 'r', 'l', 'y', ' ', 'b', 'r', 'a', 'c', 'e', 's']@),
                    }
                }
            } else {
                group_layout(t, ns, e, end, ['c', 'u', 'r', 'l', 'y', ' ', 'b', 'r', 'a', 'c', 'e', 's']@)
            },
        }
    } else {
        group_layout(t, ns, e, end, ['c', 'u', 'r', 'l', 'y', ' ', 'b', 'r', 'a', 'c', 'e', 's']@)
    }
}

/// The captures of an element: comma-separated expressions, each optionally
/// named by `name:`.
pub open spec fn captures_ok(t: Seq<char>, ns: Seq<Tree>, parts: Seq<(int, int)>, k: int, end: int) -> Result<
    int,
    (int, Seq<char>),
>
    decreases parts.len() - k,
{
    if k < 0 || k >= parts.len() {
        Ok(0)
    } else {
        let (a, b) = parts[k];
        let named = b - a >= 2 && is_tok(ns, a + 1, [':']@);
        let r = if named {
            let name = match tok_at(ns, a) {
                Some(name) => checked(syn_ident(name), ns, a, end, 0),
                None => expected_at(ns, a, end, ['i', 'd', 'e', 'n', 't', 'i', 'f', 'i', 'e', 'r']@),
            };
            match name {
                Err(x) => Err(x),
                Ok(_) => checked(syn_expr(span_text(t, ns, a + 2, b)), ns, a + 2, end, 0),
            }
        } else {
            checked(syn_expr(span_text(t, ns, a, b)), ns, a, end, 0)
        };
        match r {
            Err(x) => Err(x),
            Ok(_) => captures_ok(t, ns, parts, k + 1, end),
        }
    }
}

/// The parameters of a child closure: comma-separated, a trailing comma allowed.
pub open spec fn params_ok(t: Seq<char>, ns: Seq<Tree>, parts: Seq<(int, int)>, k: int, end: int) -> Result<
    int,
    (int, Seq<char>),
>
    decreases parts.len() - k,
{
    if k < 0 || k >= parts.len() {
        Ok(0)
    } else {
        let (a, b) = parts[k];
        match checked(syn_fn_arg(span_text(t, ns, a, b)), ns, a, end, 0) {
            Err(x) => Err(x),
            Ok(_) => params_ok(t, ns, parts, k + 1, end),
        }
    }
}

/// An element: an optional `yield` and `name @`, the component type, props,
/// captures, child closure parameters and children.
#[verifier::opaque]
pub open spec fn element(t: Seq<char>, ns: Seq<Tree>, c: int, end: int) -> Result<int, (int, Seq<char>)>
    decreases ns, 2int, 0int,
{
    let c0 = if is_tok(ns, c, ['y', 'i', 'e', 'l', 'd']@) { c + 1 } else { c };
    let bound = if is_tok(ns, c0 + 1, ['@']@) {
        match tok_at(ns, c0) {
            Some(name) => checked(syn_ident(name), ns, c0, end, c0 + 2),
            None => expected_at(ns, c0, end, ['i', 'd', 'e', 'n', 't', 'i', 'f', 'i', 'e', 'r']@),
        }
    } else {
        Ok(c0)
    };
    match bound {
        Err(x) => Err(x),
        Ok(c1) => {
            let e = match type_end(ns, c1, true) {
                Ok(e) => if e > c1 { e } else if c1 < ns.len() { c1 + 1 } else { c1 },
                Err(_) => ns.len() as int,
            };
            match checked(syn_type(span_text(t, ns, c1, e)), ns, c1, end, e) {
                Err(x) => Err(x),
                Ok(_) => element_tail(t, ns, e, end),
            }
        },
    }
}

/// An element after its type at `c`.
#[verifier::opaque]
pub open spec fn element_tail(t: Seq<char>, ns: Seq<Tree>, c: int, end: int) -> Result<int, (int, Seq<char>)>
    decreases ns, 1int, 0int,
{
    let props = if is_tok(ns, c, ['$']@) {
        match group_at(ns, c + 1, '(') {
            None => expected_at(ns, c + 1, end, ['p', 'a', 'r', 'e', 'n', 't', 'h', 'e', 's', 'e', 's']@),
            Some(_) => Ok(c + 2),
        }
    } else if group_at(ns, c, '(') is Some {
        Ok(c + 1)
    } else {
        Ok(c)
    };
    match props {
        Err(x) => Err(x),
        Ok(c3) => {
            let captures = match group_at(ns, c3, '[') {
                Some(inner) => match captures_ok(
                    t,
                    inner,
                    split_commas(inner),
                    0,
                    inner_end(ns[c3]),
                ) {
                    Err(x) => Err(x),
                    Ok(_) => Ok(c3 + 1),
                },
                None => Ok(c3),
            };
            match captures {
                Err(x) => Err(x),
                Ok(c4) => {
                    let params = if is_tok(ns, c4, ['|', '|']@) {
                        Ok(c4 + 1)
                    } else if is_tok(ns, c4, ['|']@) {
                        let close = first_tok(ns, c4 + 1, ['|']@);
                        let inner = ns.subrange(c4 + 1, if close <= ns.len() { close } else { ns.len() as int });
                        match params_ok(t, inner, split_commas(inner), 0, pos(ns, close, end)) {
                            Err(x) => Err(x),
                            Ok(_) => if close >= ns.len() {
                                expected_at(ns, close, end, ['`', '|', '`']@)
                            } else {
                                Ok(close + 1)
                            },
                        }
                    } else {
                        Ok(c4)
                    };
                    match params {
                        Err(x) => Err(x),
                        Ok(c5) => if group_at(ns, c5, '{') is Some {
                            group_layout(t, ns, c5, end, ['c', 'u', 'r', 'l', 'y', ' ', 'b', 'r', 'a', 'c', 'e', 's']@)
                        } else {
                            Ok(c5)
                        },
                    }
                },
            }
        },
    }
}

/// Whether `text` follows the layout grammar, or the offset and message of
/// the first place where it does not. Comments are ignored, as `syn` ignores
/// them; a text that does not even split into tokens fails where the split fails.
pub open spec fn layout_check(text: Seq<char>) -> Result<(), (int, Seq<char>)> {
    match lex(text) {
        Err(e) => Err(e),
        Ok(ns) => match layout_items(text, strip(ns), 0, text.len() as int) {
            Err(e) => Err(e),
            Ok(_) => Ok(()),
        },
    }
}


pub proof fn lemma_group_layout_unfold(t: Seq<char>, ns: Seq<Tree>, c: int, end: int, what: Seq<char>)
    ensures
        group_layout(t, ns, c, end, what) == ({
            match group_at(ns, c, '{') {
                None => expected_at(ns, c, end, what),
                Some(inner) => {
                    match layout_items(t, inner, 0, inner_end(ns[c])) {
                        Err(e) => Err(e),
                        Ok(_) => Ok(c + 1),
                    }
                },
            }
        }),
{
    reveal(group_layout);
    reveal(layout_items);
}

pub proof fn lemma_layout_items_unfold(t: Seq<char>, ns: Seq<Tree>, c: int, end: int)
    ensures
        layout_items(t, ns, c, end) == ({
            if c < 0 || c >= ns.len() {
                Ok(c)
            } else {
                match layout_item(t, ns, c, end) {
                    Err(e) => Err(e),
                    Ok(c2) => if c2 <= c || c2 > ns.len() {
                        Err((pos(ns, c, end), ['u', 'n', 'e', 'x', 'p', 'e', 'c', 't', 'e', 'd', ' ', 't', 'o', 'k', 'e', 'n']@))
                    } else {
                        layout_items(t, ns, if is_tok(ns, c2, [',']@) { c2 + 1 } else { c2 }, end)
                    },
                }
            }
        }),
{
    reveal(layout_items);
    reveal(layout_item);
}

pub proof fn lemma_layout_item_unfold(t: Seq<char>, ns: Seq<Tree>, c: int, end: int)
    ensures
        layout_item(t, ns, c, end) == ({
            if is_tok(ns, c, ['$']@) || (is_tok(ns, c, ['y', 'i', 'e', 'l', 'd']@) && is_tok(ns, c + 1, ['$']@)) {
                let d = if is_tok(ns, c, ['y', 'i', 'e', 'l', 'd']@) { c + 2 } else { c + 1 };
                match group_at(ns, d, '(') {
                    None => expected_at(ns, d, end, ['p', 'a', 'r', 'e', 'n', 't', 'h', 'e', 's', 'e', 's']@),
                    Some(_) => checked(
                        syn_expr_no_brace(slice(t, start_of(ns[d]) + 1, end_of(ns[d]) - 1)),
                        ns,
                        d,
                        end,
                        d + 1,
                    ),
                }
            } else if is_tok(ns, c, ['i', 'f']@) {
                if_item(t, ns, c, end)
            } else if is_tok(ns, c, ['f', 'o', 'r']@) {
                for_item(t, ns, c, end)
            } else {
                element(t, ns, c, end)
            }
        }),
{
    reveal(layout_item);
    reveal(element);
    reveal(if_item);
    reveal(for_item);
}

pub proof fn lemma_if_item_unfold(t: Seq<char>, ns: Seq<Tree>, c: int, end: int)
    ensures
        if_item(t, ns, c, end) == ({
            if c < 0 || c >= ns.len() {
                Ok(c)
            } else {
                let b = first_group(ns, c + 1, '{');
                match checked(syn_expr_no_brace(span_text(t, ns, c + 1, b)), ns, c + 1, end, b) {
                    Err(e) => Err(e),
                    Ok(_) => match group_layout(t, ns, b, end, ['c', 'u', 'r', 'l', 'y', ' ', 'b', 'r', 'a', 'c', 'e', 's']@) {
                        Err(e) => Err(e),
                        Ok(d) => if is_tok(ns, d, ['e', 'l', 's', 'e']@) {
                            if is_tok(ns, d + 1, ['i', 'f']@) {
                                if d + 1 <= c {
                                    Ok(d)
                                } else {
                                    if_item(t, ns, d + 1, end)
                                }
                            } else {
                                group_layout(t, ns, d + 1, end, ['c', 'u', 'r', 'l', 'y', ' ', 'b', 'r', 'a', 'c', 'e', 's']@)
                            }
                        } else {
                            Ok(d)
                        },
                    },
                }
            }
        }),
{
    reveal(if_item);
    reveal(group_layout);
}

pub proof fn lemma_for_item_unfold(t: Seq<char>, ns: Seq<Tree>, c: int, end: int)
    ensures
        for_item(t, ns, c, end) == ({
            let binding = match tok_at(ns, c + 1) {
                Some(name) => checked(syn_ident(name), ns, c + 1, end, c + 2),
                None => expected_at(ns, c + 1, end, ['i', 'd', 'e', 'n', 't', 'i', 'f', 'i', 'e', 'r']@),
            };
            match binding {
                Err(e) => Err(e),
                Ok(d) => if !is_tok(ns, d, ['i', 'n']@) {
                    expected_at(ns, d, end, ['`', 'i', 'n', '`']@)
                } else {
                    let w = first_tok(ns, d + 1, ['w', 'h', 'e', 'r', 'e']@);
                    let b = first_group(ns, d + 1, '{');
                    let e = if w < b { w } else { b };
                    match checked(syn_expr_no_brace(span_text(t, ns, d + 1, e)), ns, d + 1, end, e) {
                        Err(x) => Err(x),
                        Ok(_) => for_tail(t, ns, e, end),
                    }
                },
            }
        }),
{
    reveal(for_item);
    reveal(for_tail);
}

pub proof fn lemma_for_tail_unfold(t: Seq<char>, ns: Seq<Tree>, e: int, end: int)
    ensures
        for_tail(t, ns, e, end) == ({
            if is_tok(ns, e, ['w', 'h', 'e', 'r', 'e']@) {
                let key = match tok_at(ns, e + 1) {
                    Some(name) => checked(syn_ident(name), ns, e + 1, end, e + 2),
                    None => expected_at(ns, e + 1, end, ['i', 'd', 'e', 'n', 't', 'i', 'f', 'i', 'e', 'r']@),
                };
                match key {
                    Err(x) => Err(x),
                    Ok(_) => if is_tok(ns, e + 1, ['k', 'e', 'y']@) {
                        if !is_tok(ns, e + 2, ['=']@) {
                            expected_at(ns, e + 2, end, ['`', '=', '`']@)
                        } else {
                            let b = first_group(ns, e + 3, '{');
                            match checked(syn_expr_no_brace(span_text(t, ns, e + 3, b)), ns, e + 3, end, b) {
                                Err(x) => Err(x),
                                Ok(_) => group_layout(t, ns, b, end, ['c', 'u', 'r', 'l', 'y', ' ', 'b', 'r', 'a', 'c', 'e', 's']@),
                            }
                        }
                    } else {
                        group_layout(t, ns, e, end, ['c', 'u', 'r', 'l', 'y', ' ', 'b', 'r', 'a', 'c', 'e', 's']@)
                    },
                }
            } else {
                group_layout(t, ns, e, end, ['c', 'u', 'r', 'l', 'y', ' ', 'b', 'r', 'a', 'c', 'e', 's']@)
            }
        }),
{
    reveal(for_tail);
    reveal(group_layout);
}

pub proof fn lemma_element_unfold(t: Seq<char>, ns: Seq<Tree>, c: int, end: int)
    ensures
        element(t, ns, c, end) == ({
            let c0 = if is_tok(ns, c, ['y', 'i', 'e', 'l', 'd']@) { c + 1 } else { c };
            let bound = if is_tok(ns, c0 + 1, ['@']@) {
                match tok_at(ns, c0) {
                    Some(name) => checked(syn_ident(name), ns, c0, end, c0 + 2),
                    None => expected_at(ns, c0, end, ['i', 'd', 'e', 'n', 't', 'i', 'f', 'i', 'e', 'r']@),
                }
            } else {
                Ok(c0)
            };
            match bound {
                Err(x) => Err(x),
                Ok(c1) => {
                    let e = match type_end(ns, c1, true) {
                        Ok(e) => if e > c1 { e } else if c1 < ns.len() { c1 + 1 } else { c1 },
                        Err(_) => ns.len() as int,
                    };
                    match checked(syn_type(span_text(t, ns, c1, e)), ns, c1, end, e) {
                        Err(x) => Err(x),
                        Ok(_) => element_tail(t, ns, e, end),
                    }
                },
            }
        }),
{
    reveal(element);
    reveal(element_tail);
}

pub proof fn lemma_element_tail_unfold(t: Seq<char>, ns: Seq<Tree>, c: int, end: int)
    ensures
        element_tail(t, ns, c, end) == ({
            let props = if is_tok(ns, c, ['$']@) {
                match group_at(ns, c + 1, '(') {
                    None => expected_at(ns, c + 1, end, ['p', 'a', 'r', 'e', 'n', 't', 'h', 'e', 's', 'e', 's']@),
                    Some(_) => Ok(c + 2),
                }
            } else if group_at(ns, c, '(') is Some {
                Ok(c + 1)
            } else {
                Ok(c)
            };
            match props {
                Err(x) => Err(x),
                Ok(c3) => {
                    let captures = match group_at(ns, c3, '[') {
                        Some(inner) => match captures_ok(
                            t,
                            inner,
                            split_commas(inner),
                            0,
                            inner_end(ns[c3]),
                        ) {
                            Err(x) => Err(x),
                            Ok(_) => Ok(c3 + 1),
                        },
                        None => Ok(c3),
                    };
                    match captures {
                        Err(x) => Err(x),
                        Ok(c4) => {
                            let params = if is_tok(ns, c4, ['|', '|']@) {
                                Ok(c4 + 1)
                            } else if is_tok(ns, c4, ['|']@) {
                                let close = first_tok(ns, c4 + 1, ['|']@);
                                let inner = ns.subrange(c4 + 1, if close <= ns.len() { close } else { ns.len() as int });
                                match params_ok(t, inner, split_commas(inner), 0, pos(ns, close, end)) {
                                    Err(x) => Err(x),
                                    Ok(_) => if close >= ns.len() {
                                        expected_at(ns, close, end, ['`', '|', '`']@)
                                    } else {
                                        Ok(close + 1)
                                    },
                                }
                            } else {
                                Ok(c4)
                            };
                            match params {
                                Err(x) => Err(x),
                                Ok(c5) => if group_at(ns, c5, '{') is Some {
                                    group_layout(t, ns, c5, end, ['c', 'u', 'r', 'l', 'y', ' ', 'b', 'r', 'a', 'c', 'e', 's']@)
                                } else {
                                    Ok(c5)
                                },
                            }
                        },
                    }
                },
            }
        }),
{
    reveal(element_tail);
    reveal(group_layout);
}

pub proof fn lemma_strip_unfold(ns: Seq<Tree>)
    ensures
        strip(ns) == ({
            if ns.len() == 0 {
                seq![]
            } else {
                let rest = strip(ns.subrange(0, ns.len() - 1));
                match ns[ns.len() - 1] {
                    Tree::Comment { .. } => rest,
                    Tree::Token { text, start, end } => rest.push(Tree::Token { text, start, end }),
                    Tree::Group { open, close, nodes, start, end } => rest.push(
                        Tree::Group { open, close, nodes: strip(nodes), start, end },
                    ),
                }
            }
        }),
{
    reveal(strip);
}

// ---------------------------------------------------------------------------
// The executable check.
// ---------------------------------------------------------------------------

pub open spec fn res_view(r: Result<usize, (usize, Vec<char>)>) -> Result<int, (int, Seq<char>)> {
    match r {
        Ok(c) => Ok(c as int),
        Err((a, m)) => Err((a as int, m@)),
    }
}

pub(crate) fn start_exec(n: &Node) -> (r: usize)
    ensures
        r as int == start_of(view_node_flat(*n)),
{
    match n {
        Node::Token { start, .. } => *start,
        Node::Comment { start, .. } => *start,
        Node::Group { start, .. } => *start,
    }
}

pub(crate) fn end_exec(n: &Node) -> (r: usize)
    ensures
        r as int == end_of(view_node_flat(*n)),
{
    match n {
        Node::Token { end, .. } => *end,
        Node::Comment { start, .. } => *start,
        Node::Group { end, .. } => *end,
    }
}

pub(crate) fn slice_exec(t: &[char], a: usize, b: usize) -> (r: String)
    ensures
        r@ == slice(t@, a as int, b as int),
{
    let n = t.len();
    let x = if a > n { n } else { a };
    let y = if b > n { n } else { b };
    let y = if y < x { x } else { y };
    string_of(&t[x..y])
}

pub(crate) fn pos_exec(ns: &[Node], c: usize, end: usize) -> (r: usize)
    ensures
        r as int == pos(view_nodes(ns@), c as int, end as int),
{
    proof {
        lemma_view_nodes_at(ns@, c as int);
    }
    if c < ns.len() {
        start_exec(&ns[c])
    } else {
        end
    }
}

pub(crate) fn span_exec(t: &[char], ns: &[Node], a: usize, b: usize) -> (r: String)
    ensures
        r@ == span_text(t@, view_nodes(ns@), a as int, b as int),
{
    proof {
        lemma_view_nodes_at(ns@, a as int);
        lemma_view_nodes_at(ns@, b - 1);
    }
    if a < b && b <= ns.len() {
        let x = start_exec(&ns[a]);
        let y = end_exec(&ns[b - 1]);
        slice_exec(t, x, y)
    } else {
        String::new()
    }
}

pub(crate) fn expected_exec<const N: usize>(ns: &[Node], c: usize, end: usize, what: [char; N]) -> (r: Result<usize, (usize, Vec<char>)>)
    ensures
        res_view(r) == expected_at(view_nodes(ns@), c as int, end as int, what@),
{
    proof {
        lemma_view_nodes_at(ns@, c as int);
    }
    let mut m: Vec<char> = Vec::new();
    if c < ns.len() {
        push_word(&mut m, ['e', 'x', 'p', 'e', 'c', 't', 'e', 'd', ' ']);
        push_word(&mut m, what);
        Err((start_exec(&ns[c]), m))
    } else {
        push_word(&mut m, ['u', 'n', 'e', 'x', 'p', 'e', 'c', 't', 'e', 'd', ' ', 'e', 'n', 'd', ' ', 'o', 'f', ' ', 'i', 'n', 'p', 'u', 't', ',', ' ', 'e', 'x', 'p', 'e', 'c', 't', 'e', 'd', ' ']);
        push_word(&mut m, what);
        Err((end, m))
    }
}

/// `c` when `syn`'s answer about the nodes at `a` is no error, else that
/// error at the nodes.
pub fn checked_exec(answer: Option<String>, ns: &[Node], a: usize, end: usize, c: usize) -> (r: Result<usize, (usize, Vec<char>)>)
    ensures
        res_view(r) == checked(crate::rust_syntax::answer_view(answer), view_nodes(ns@), a as int, end as int, c as int),
{
    match answer {
        None => Ok(c),
        Some(m) => Err((pos_exec(ns, a, end), crate::text::chars_of(m.as_str()))),
    }
}

pub(crate) fn group_end_exec(n: &Node) -> (r: usize)
    ensures
        r as int == inner_end(view_node_flat(*n)),
{
    let e = end_exec(n);
    if e > 0 {
        e - 1
    } else {
        0
    }
}

/// The nodes without comments, at every level.
pub fn strip_exec(ns: &[Node]) -> (r: Vec<Node>)
    ensures
        view_nodes(r@) == strip(view_nodes(ns@)),
    decreases ns@,
{
    proof {
        lemma_view_nodes_at(ns@, 0);
    }
    let ghost v = view_nodes(ns@);
    let n = ns.len();
    let mut out: Vec<Node> = Vec::new();
    let mut k: usize = 0;
    proof {
        lemma_strip_unfold(v.subrange(0, 0));
        crate::lexer::lemma_view_nodes_at(out@, 0);
        assert(view_nodes(out@) =~= Seq::<Tree>::empty());
    }
    while k < n
        invariant
            n == ns@.len(),
            v == view_nodes(ns@),
            v.len() == n,
            k <= n,
            view_nodes(out@) == strip(v.subrange(0, k as int)),
        decreases n - k,
    {
        proof {
            lemma_view_nodes_at(ns@, k as int);
            crate::format::lemma_prefix_step(v, k as int);
            lemma_strip_unfold(v.subrange(0, k + 1));
        }
        match &ns[k] {
            Node::Comment { .. } => {},
            Node::Token { text, start, end } => {
                let mut copy: Vec<char> = Vec::new();
                push_all(&mut copy, text.as_slice());
                let node = Node::Token { text: copy, start: *start, end: *end };
                proof {
                    crate::lexer::lemma_view_nodes_push(out@, node);
                    crate::lexer::lemma_view_node_flat(node);
                }
                out.push(node);
            },
            Node::Group { open, close, nodes, start, end } => {
                assert(decreases_to!(ns@ => nodes@));
                let inner = strip_exec(nodes.as_slice());
                let node = Node::Group { open: *open, close: *close, nodes: inner, start: *start, end: *end };
                proof {
                    crate::lexer::lemma_view_nodes_push(out@, node);
                    crate::lexer::lemma_view_node_flat(node);
                }
                out.push(node);
            },
        }
        k = k + 1;
    }
    assert(v.subrange(0, n as int) =~= v);
    out
}

fn group_layout_exec<const N: usize>(t: &[char], ns: &[Node], c: usize, end: usize, what: [char; N]) -> (r: Result<usize, (usize, Vec<char>)>)
    ensures
        res_view(r) == group_layout(t@, view_nodes(ns@), c as int, end as int, what@),
    decreases ns@, 0int, 0int,
{
    proof {
        lemma_group_layout_unfold(t@, view_nodes(ns@), c as int, end as int, what@);
        lemma_view_nodes_at(ns@, c as int);
    }
    match crate::format::group_ref(ns, c, '{') {
        None => expected_exec(ns, c, end, what),
        Some(inner) => {
            let inner_end = group_end_exec(&ns[c]);
            match layout_items_exec(t, inner.as_slice(), 0, inner_end) {
                Err(e) => Err(e),
                Ok(_) => Ok(c + 1),
            }
        },
    }
}

fn layout_items_exec(t: &[char], ns: &[Node], c: usize, end: usize) -> (r: Result<usize, (usize, Vec<char>)>)
    ensures
        res_view(r) == layout_items(t@, view_nodes(ns@), c as int, end as int),
    decreases ns@, 4int, 0int,
{
    proof {
        lemma_view_nodes_at(ns@, 0);
    }
    let ghost v = view_nodes(ns@);
    let n = ns.len();
    let mut k = c;
    while k < n
        invariant
            n == ns@.len(),
            v == view_nodes(ns@),
            v.len() == n,
            layout_items(t@, v, k as int, end as int) == layout_items(t@, v, c as int, end as int),
        decreases n - k,
    {
        proof {
            lemma_layout_items_unfold(t@, v, k as int, end as int);
        }
        match layout_item_exec(t, ns, k, end) {
            Err(e) => {
                return Err(e);
            },
            Ok(c2) => {
                if c2 <= k || c2 > n {
                    let mut m: Vec<char> = Vec::new();
                    push_word(&mut m, ['u', 'n', 'e', 'x', 'p', 'e', 'c', 't', 'e', 'd', ' ', 't', 'o', 'k', 'e', 'n']);
                    return Err((pos_exec(ns, k, end), m));
                }
                k = if token_is(ns, c2, [',']) {
                    c2 + 1
                } else {
                    c2
                };
            },
        }
    }
    proof {
        lemma_layout_items_unfold(t@, v, k as int, end as int);
    }
    Ok(k)
}

fn layout_item_exec(t: &[char], ns: &[Node], c: usize, end: usize) -> (r: Result<usize, (usize, Vec<char>)>)
    requires
        c < ns@.len(),
    ensures
        res_view(r) == layout_item(t@, view_nodes(ns@), c as int, end as int),
    decreases ns@, 3int, 0int,
{
    proof {
        lemma_view_nodes_at(ns@, 0);
        lemma_layout_item_unfold(t@, view_nodes(ns@), c as int, end as int);
    }
    let n = ns.len();
    let yielded = token_is(ns, c, ['y', 'i', 'e', 'l', 'd']);
    if token_is(ns, c, ['$']) || (yielded && token_is(ns, c + 1, ['$'])) {
        let d = if yielded {
            c + 2
        } else {
            c + 1
        };
        match crate::format::group_ref(ns, d, '(') {
            None => expected_exec(ns, d, end, ['p', 'a', 'r', 'e', 'n', 't', 'h', 'e', 's', 'e', 's']),
            Some(_) => {
                proof {
                    lemma_view_nodes_at(ns@, d as int);
                }
                let a = start_exec(&ns[d]);
                let b = group_end_exec(&ns[d]);
                let text = slice_exec(t, a.saturating_add(1), b);
                proof {
                    assert(slice(t@, a.saturating_add(1) as int, b as int) == slice(t@, a + 1, end_of(view_nodes(ns@)[d as int]) - 1));
                }
                checked_exec(expr_no_brace_error(text.as_str()), ns, d, end, d + 1)
            },
        }
    } else if token_is(ns, c, ['i', 'f']) {
        if_item_exec(t, ns, c, end)
    } else if token_is(ns, c, ['f', 'o', 'r']) {
        for_item_exec(t, ns, c, end)
    } else {
        element_exec(t, ns, c, end)
    }
}

fn if_item_exec(t: &[char], ns: &[Node], c: usize, end: usize) -> (r: Result<usize, (usize, Vec<char>)>)
    ensures
        res_view(r) == if_item(t@, view_nodes(ns@), c as int, end as int),
    decreases ns@, 2int, ns@.len() - c,
{
    proof {
        lemma_view_nodes_at(ns@, 0);
        lemma_if_item_unfold(t@, view_nodes(ns@), c as int, end as int);
    }
    let n = ns.len();
    if c >= n {
        return Ok(c);
    }
    let b = find_group(ns, c + 1, '{');
    let cond = span_exec(t, ns, c + 1, b);
    match checked_exec(expr_no_brace_error(cond.as_str()), ns, c + 1, end, b) {
        Err(e) => {
            return Err(e);
        },
        Ok(_) => {},
    }
    let d = match group_layout_exec(t, ns, b, end, ['c', 'u', 'r', 'l', 'y', ' ', 'b', 'r', 'a', 'c', 'e', 's']) {
        Err(e) => {
            return Err(e);
        },
        Ok(d) => d,
    };
    if token_is(ns, d, ['e', 'l', 's', 'e']) {
        if token_is(ns, d + 1, ['i', 'f']) {
            if d + 1 <= c {
                Ok(d)
            } else {
                if_item_exec(t, ns, d + 1, end)
            }
        } else {
            group_layout_exec(t, ns, d + 1, end, ['c', 'u', 'r', 'l', 'y', ' ', 'b', 'r', 'a', 'c', 'e', 's'])
        }
    } else {
        Ok(d)
    }
}

pub(crate) fn ident_at_exec(t: &[char], ns: &[Node], c: usize, end: usize, next: usize) -> (r: Result<usize, (usize, Vec<char>)>)
    ensures
        res_view(r) == match tok_at(view_nodes(ns@), c as int) {
            Some(name) => checked(syn_ident(name), view_nodes(ns@), c as int, end as int, next as int),
            None => expected_at(view_nodes(ns@), c as int, end as int, ['i', 'd', 'e', 'n', 't', 'i', 'f', 'i', 'e', 'r']@),
        },
{
    match crate::format::token_at(ns, c) {
        Some(name) => {
            let text = string_of(name.as_slice());
            checked_exec(ident_error(text.as_str()), ns, c, end, next)
        },
        None => expected_exec(ns, c, end, ['i', 'd', 'e', 'n', 't', 'i', 'f', 'i', 'e', 'r']),
    }
}

fn for_item_exec(t: &[char], ns: &[Node], c: usize, end: usize) -> (r: Result<usize, (usize, Vec<char>)>)
    requires
        c < ns@.len(),
    ensures
        res_view(r) == for_item(t@, view_nodes(ns@), c as int, end as int),
    decreases ns@, 2int, 0int,
{
    proof {
        lemma_view_nodes_at(ns@, 0);
        lemma_for_item_unfold(t@, view_nodes(ns@), c as int, end as int);
    }
    let n = ns.len();
    let d = match ident_at_exec(t, ns, c + 1, end, c.saturating_add(2)) {
        Err(e) => {
            return Err(e);
        },
        Ok(d) => d,
    };
    if !token_is(ns, d, ['i', 'n']) {
        return expected_exec(ns, d, end, ['`', 'i', 'n', '`']);
    }
    let from = if d < n {
        d + 1
    } else {
        n
    };
    proof {
        lemma_first_tok(view_nodes(ns@), from as int, ['w', 'h', 'e', 'r', 'e']@);
        lemma_first_group(view_nodes(ns@), from as int, '{');
    }
    let w = find_token(ns, from, ['w', 'h', 'e', 'r', 'e']);
    let b = find_group(ns, from, '{');
    let e = if w < b {
        w
    } else {
        b
    };
    let data = span_exec(t, ns, d + 1, e);
    match checked_exec(expr_no_brace_error(data.as_str()), ns, d + 1, end, e) {
        Err(x) => Err(x),
        Ok(_) => for_tail_exec(t, ns, e, end),
    }
}

fn for_tail_exec(t: &[char], ns: &[Node], e: usize, end: usize) -> (r: Result<usize, (usize, Vec<char>)>)
    requires
        e <= ns@.len(),
    ensures
        res_view(r) == for_tail(t@, view_nodes(ns@), e as int, end as int),
    decreases ns@, 1int, 0int,
{
    proof {
        lemma_view_nodes_at(ns@, 0);
        lemma_for_tail_unfold(t@, view_nodes(ns@), e as int, end as int);
    }
    let n = ns.len();
    if token_is(ns, e, ['w', 'h', 'e', 'r', 'e']) {
        match ident_at_exec(t, ns, e + 1, end, e.saturating_add(2)) {
            Err(x) => {
                return Err(x);
            },
            Ok(_) => {},
        }
        if token_is(ns, e + 1, ['k', 'e', 'y']) {
            if !token_is(ns, e + 2, ['=']) {
                return expected_exec(ns, e + 2, end, ['`', '=', '`']);
            }
            let b = find_group(ns, e + 3, '{');
            let value = span_exec(t, ns, e + 3, b);
            match checked_exec(expr_no_brace_error(value.as_str()), ns, e + 3, end, b) {
                Err(x) => Err(x),
                Ok(_) => group_layout_exec(t, ns, b, end, ['c', 'u', 'r', 'l', 'y', ' ', 'b', 'r', 'a', 'c', 'e', 's']),
            }
        } else {
            group_layout_exec(t, ns, e, end, ['c', 'u', 'r', 'l', 'y', ' ', 'b', 'r', 'a', 'c', 'e', 's'])
        }
    } else {
        group_layout_exec(t, ns, e, end, ['c', 'u', 'r', 'l', 'y', ' ', 'b', 'r', 'a', 'c', 'e', 's'])
    }
}

fn captures_ok_exec(t: &[char], ns: &[Node], end: usize) -> (r: Result<usize, (usize, Vec<char>)>)
    ensures
        res_view(r) == captures_ok(t@, view_nodes(ns@), split_commas(view_nodes(ns@)), 0, end as int),
{
    proof {
        lemma_view_nodes_at(ns@, 0);
    }
    let ghost v = view_nodes(ns@);
    let parts = split_commas_exec(ns);
    let ghost sp = split_commas(v);
    let mut k: usize = 0;
    while k < parts.len()
        invariant
            v == view_nodes(ns@),
            v.len() == ns@.len(),
            sp == split_commas(v),
            parts@.len() == sp.len(),
            parts_ok(v, sp),
            forall|j: int|
                0 <= j < parts@.len() ==> (parts@[j].0 as int, parts@[j].1 as int) == #[trigger] sp[j],
            k <= parts@.len(),
            captures_ok(t@, v, sp, k as int, end as int) == captures_ok(t@, v, sp, 0, end as int),
        decreases parts@.len() - k,
    {
        let (a, b) = parts[k];
        assert(sp[k as int] == (a as int, b as int));
        let named = b - a >= 2 && token_is(ns, a + 1, [':']);
        if named {
            match ident_at_exec(t, ns, a, end, 0) {
                Err(x) => {
                    return Err(x);
                },
                Ok(_) => {},
            }
            let text = span_exec(t, ns, a + 2, b);
            match checked_exec(expr_error(text.as_str()), ns, a + 2, end, 0) {
                Err(x) => {
                    return Err(x);
                },
                Ok(_) => {},
            }
        } else {
            let text = span_exec(t, ns, a, b);
            match checked_exec(expr_error(text.as_str()), ns, a, end, 0) {
                Err(x) => {
                    return Err(x);
                },
                Ok(_) => {},
            }
        }
        k = k + 1;
    }
    Ok(0)
}

fn params_ok_exec(t: &[char], ns: &[Node], end: usize) -> (r: Result<usize, (usize, Vec<char>)>)
    ensures
        res_view(r) == params_ok(t@, view_nodes(ns@), split_commas(view_nodes(ns@)), 0, end as int),
{
    proof {
        lemma_view_nodes_at(ns@, 0);
    }
    let ghost v = view_nodes(ns@);
    let parts = split_commas_exec(ns);
    let ghost sp = split_commas(v);
    let mut k: usize = 0;
    while k < parts.len()
        invariant
            v == view_nodes(ns@),
            v.len() == ns@.len(),
            sp == split_commas(v),
            parts@.len() == sp.len(),
            forall|j: int|
                0 <= j < parts@.len() ==> (parts@[j].0 as int, parts@[j].1 as int) == #[trigger] sp[j],
            k <= parts@.len(),
            params_ok(t@, v, sp, k as int, end as int) == params_ok(t@, v, sp, 0, end as int),
        decreases parts@.len() - k,
    {
        let (a, b) = parts[k];
        assert(sp[k as int] == (a as int, b as int));
        let text = span_exec(t, ns, a, b);
        match checked_exec(fn_arg_error(text.as_str()), ns, a, end, 0) {
            Err(x) => {
                return Err(x);
            },
            Ok(_) => {},
        }
        k = k + 1;
    }
    Ok(0)
}

fn element_exec(t: &[char], ns: &[Node], c: usize, end: usize) -> (r: Result<usize, (usize, Vec<char>)>)
    requires
        c < ns@.len(),
    ensures
        res_view(r) == element(t@, view_nodes(ns@), c as int, end as int),
    decreases ns@, 2int, 0int,
{
    proof {
        lemma_view_nodes_at(ns@, 0);
        lemma_element_unfold(t@, view_nodes(ns@), c as int, end as int);
    }
    let n = ns.len();
    let c0 = if token_is(ns, c, ['y', 'i', 'e', 'l', 'd']) {
        c + 1
    } else {
        c
    };
    let c1 = if c0 < n && token_is(ns, c0 + 1, ['@']) {
        match ident_at_exec(t, ns, c0, end, c0.saturating_add(2)) {
            Err(x) => {
                return Err(x);
            },
            Ok(c1) => c1,
        }
    } else {
        c0
    };
    proof {
        lemma_type_end(view_nodes(ns@), c1 as int, true);
    }
    let e = match type_end_exec(ns, c1, true) {
        Ok(e) => if e > c1 {
            e
        } else if c1 < n {
            c1 + 1
        } else {
            c1
        },
        Err(_) => n,
    };
    let ty = span_exec(t, ns, c1, e);
    match checked_exec(type_error(ty.as_str()), ns, c1, end, e) {
        Err(x) => Err(x),
        Ok(_) => element_tail_exec(t, ns, e, end),
    }
}

fn element_tail_exec(t: &[char], ns: &[Node], c: usize, end: usize) -> (r: Result<usize, (usize, Vec<char>)>)
    requires
        c <= ns@.len() + 1,
    ensures
        res_view(r) == element_tail(t@, view_nodes(ns@), c as int, end as int),
    decreases ns@, 1int, 0int,
{
    proof {
        lemma_view_nodes_at(ns@, 0);
        lemma_element_tail_unfold(t@, view_nodes(ns@), c as int, end as int);
    }
    let n = ns.len();
    let c3 = if token_is(ns, c, ['$']) {
        match crate::format::group_ref(ns, c + 1, '(') {
            None => {
                return expected_exec(ns, c + 1, end, ['p', 'a', 'r', 'e', 'n', 't', 'h', 'e', 's', 'e', 's']);
            },
            Some(_) => c + 2,
        }
    } else if crate::format::group_ref(ns, c, '(').is_some() {
        c + 1
    } else {
        c
    };
    let c4 = match crate::format::group_ref(ns, c3, '[') {
        Some(inner) => {
            proof {
                lemma_view_nodes_at(ns@, c3 as int);
            }
            let inner_end = group_end_exec(&ns[c3]);
            match captures_ok_exec(t, inner.as_slice(), inner_end) {
                Err(x) => {
                    return Err(x);
                },
                Ok(_) => c3 + 1,
            }
        },
        None => c3,
    };
    let c5 = if token_is(ns, c4, ['|', '|']) {
        c4 + 1
    } else if token_is(ns, c4, ['|']) {
        proof {
            lemma_first_tok(view_nodes(ns@), c4 + 1, ['|']@);
        }
        let close = find_token(ns, c4 + 1, ['|']);
        proof {
            lemma_view_nodes_subrange(ns@, c4 + 1, close as int);
        }
        let inner = &ns[c4 + 1..close];
        let at = pos_exec(ns, close, end);
        match params_ok_exec(t, inner, at) {
            Err(x) => {
                return Err(x);
            },
            Ok(_) => {},
        }
        if close >= n {
            return expected_exec(ns, close, end, ['`', '|', '`']);
        }
        close + 1
    } else {
        c4
    };
    if crate::format::group_ref(ns, c5, '{').is_some() {
        group_layout_exec(t, ns, c5, end, ['c', 'u', 'r', 'l', 'y', ' ', 'b', 'r', 'a', 'c', 'e', 's'])
    } else {
        Ok(c5)
    }
}

/// Checks `text` against the layout grammar.
pub fn check_layout(text: &[char]) -> (r: Result<(), (usize, Vec<char>)>)
    ensures
        match (r, layout_check(text@)) {
            (Ok(()), Ok(())) => true,
            (Err((a, m)), Err((b, n))) => a as int == b && m@ == n,
            _ => false,
        },
{
    match lex_nodes(text) {
        Err(e) => Err(e),
        Ok(ns) => {
            let stripped = strip_exec(ns.as_slice());
            match layout_items_exec(text, stripped.as_slice(), 0, text.len()) {
                Err(e) => Err(e),
                Ok(_) => Ok(()),
            }
        },
    }
}

/// A syntax error: its character offset in the checked text and its message.
pub struct SyntaxError {
    pub offset: usize,
    pub message: String,
}

/// A layout body that follows the layout grammar.
pub struct Layout;

impl Layout {
    /// Reads a layout body: a `Layout` when it follows the layout grammar,
    /// else the place and message of the first error.
    pub fn parse(source: &str) -> (r: Result<Layout, SyntaxError>)
        ensures
            match (r, layout_check(source@)) {
                (Ok(_), Ok(())) => true,
                (Err(e), Err((b, n))) => e.offset as int == b && e.message@ == n,
                _ => false,
            },
    {
        let text = crate::text::chars_of(source);
        match check_layout(text.as_slice()) {
            Ok(()) => Ok(Layout),
            Err((offset, message)) => Err(SyntaxError { offset, message: string_of(message.as_slice()) }),
        }
    }
}

/// Checks a layout body against the layout grammar.
pub fn validate(source: &str) -> (r: Result<(), SyntaxError>)
    ensures
        match (r, layout_check(source@)) {
            (Ok(()), Ok(())) => true,
            (Err(e), Err((b, n))) => e.offset as int == b && e.message@ == n,
            _ => false,
        },
{
    match Layout::parse(source) {
        Ok(_) => Ok(()),
        Err(e) => Err(e),
    }
}

} // verus!
