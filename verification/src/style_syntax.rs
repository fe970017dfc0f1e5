//! The grammar of `style!` and `computed_style!` bodies: `$(..)` insertions
//! and rules, a rule being a selector list and a block of declarations and
//! nested rules.
use vstd::prelude::*;

use crate::format::{group_at, group_ref, is_tok, tok_at, token_at, token_is};
use crate::lexer::{lemma_view_nodes_at, lex, lex_nodes, view_node_flat, view_nodes, Node, Tree};
use crate::rust_syntax::{expr_error, ident_error, syn_expr, syn_ident};
use crate::syntax::{
    checked, checked_exec, end_of, expected_at, expected_exec, group_end_exec, ident_at_exec, inner_end,
    pos, pos_exec, res_view, slice, slice_exec, start_exec, start_of, strip, strip_exec,
};
use crate::text::{push_word, string_of};

verus! {

// ---------------------------------------------------------------------------
// Selectors.
// ---------------------------------------------------------------------------

/// A combinator token before a compound selector.
pub open spec fn is_combinator_tok(ns: Seq<Tree>, c: int) -> bool {
    is_tok(ns, c, ['>']@) || is_tok(ns, c, ['+']@) || is_tok(ns, c, ['~']@) || is_tok(ns, c, ['>', '>']@)
}

/// The index after a combinator at `c`: one token, and a `>` after a single one.
pub open spec fn after_combinator(ns: Seq<Tree>, c: int) -> int {
    if !is_tok(ns, c, ['>', '>']@) && is_tok(ns, c + 1, ['>']@) {
        c + 2
    } else {
        c + 1
    }
}

/// Whether an identifier (not a keyword) stands at `c`.
pub open spec fn ident_at(ns: Seq<Tree>, c: int) -> bool {
    match tok_at(ns, c) {
        Some(t) => syn_ident(t) is None,
        None => false,
    }
}

/// The parts of a compound selector from `c` on: `.class`, `&` and `:pseudo`
/// pieces; at least one is owed when `found` is false.
#[verifier::opaque]
pub open spec fn compound(ns: Seq<Tree>, c: int, end: int, found: bool) -> Result<int, (int, Seq<char>)>
    decreases ns, 0int, ns.len() - c,
{
    if c < 0 || c >= ns.len() || !(is_tok(ns, c, ['.']@) || is_tok(ns, c, [':']@) || is_tok(ns, c, ['&']@)
        || is_tok(ns, c, ['&', '&']@)) {
        if found {
            Ok(c)
        } else {
            expected_at(ns, c, end, ['s', 'e', 'l', 'e', 'c', 't', 'o', 'r']@)
        }
    } else if is_tok(ns, c, ['.']@) {
        match tok_at(ns, c + 1) {
            None => expected_at(ns, c + 1, end, ['i', 'd', 'e', 'n', 't', 'i', 'f', 'i', 'e', 'r']@),
            Some(name) => match checked(syn_ident(name), ns, c + 1, end, c + 2) {
                Err(e) => Err(e),
                Ok(d) => compound(ns, d, end, true),
            },
        }
    } else if is_tok(ns, c, ['&']@) || is_tok(ns, c, ['&', '&']@) {
        compound(ns, c + 1, end, true)
    } else {
        match tok_at(ns, c + 1) {
            None => expected_at(ns, c + 1, end, ['i', 'd', 'e', 'n', 't', 'i', 'f', 'i', 'e', 'r']@),
            Some(name) => match checked(syn_ident(name), ns, c + 1, end, c + 2) {
                Err(e) => Err(e),
                Ok(d) => if name == ['n', 'o', 't']@ {
                    match group_at(ns, d, '(') {
                        None => expected_at(ns, d, end, ['p', 'a', 'r', 'e', 'n', 't', 'h', 'e', 's', 'e', 's']@),
                        Some(inner) => {
                            proof {
                                crate::format::lemma_group_smaller(ns, d, '(');
                            }
                            match selector_list(inner, 0, inner_end(ns[d])) {
                                Err(e) => Err(e),
                                Ok(k) => if k < inner.len() {
                                    Err((start_of(inner[k]), ['u', 'n', 'e', 'x', 'p', 'e', 'c', 't', 'e', 'd', ' ', 't', 'o', 'k', 'e', 'n']@))
                                } else {
                                    compound(ns, d + 1, end, true)
                                },
                            }
                        },
                    }
                } else if name == ['n', 't', 'h', '_', 'c', 'h', 'i', 'l', 'd']@ {
                    match group_at(ns, d, '(') {
                        None => expected_at(ns, d, end, ['p', 'a', 'r', 'e', 'n', 't', 'h', 'e', 's', 'e', 's']@),
                        Some(inner) => if inner.len() == 0 {
                            Err(
                                (
                                    inner_end(ns[d]),
                                    ['u', 'n', 'e', 'x', 'p', 'e', 'c', 't', 'e', 'd', ' ', 'e', 'n', 'd', ' ', 'o', 'f', ' ', 'i', 'n', 'p', 'u', 't', ',', ' ', 'e', 'x', 'p', 'e', 'c', 't', 'e', 'd', ' ', 'a', 'n', ' ', '`', 'A', 'n', '+', 'B', '`', ' ', 'e', 'x', 'p', 'r', 'e', 's', 's', 'i', 'o', 'n', ' ', 'i', 'n', ' ', '`', 'n', 't', 'h', '_', 'c', 'h', 'i', 'l', 'd', '(', ')', '`']@,
                                ),
                            )
                        } else {
                            compound(ns, d + 1, end, true)
                        },
                    }
                } else if name == ['f', 'i', 'r', 's', 't', '_', 'c', 'h', 'i', 'l', 'd']@ || name == ['l', 'a', 's', 't', '_', 'c', 'h', 'i', 'l', 'd']@ {
                    compound(ns, d, end, true)
                } else {
                    Err(
                        (
                            pos(ns, c + 1, end),
                            ['u', 'n', 's', 'u', 'p', 'p', 'o', 'r', 't', 'e', 'd', ' ', 'p', 's', 'e', 'u', 'd', 'o', ' ', 's', 'e', 'l', 'e', 'c', 't', 'o', 'r', ';', ' ', 'e', 'x', 'p', 'e', 'c', 't', 'e', 'd', ' ', '`', 'n', 'o', 't', '`', ',', ' ', '`', 'f', 'i', 'r', 's', 't', '_', 'c', 'h', 'i', 'l', 'd', '`', ',', ' ', '`', 'l', 'a', 's', 't', '_', 'c', 'h', 'i', 'l', 'd', '`', ',', ' ', 'o', 'r', ' ', '`', 'n', 't', 'h', '_', 'c', 'h', 'i', 'l', 'd', '`']@,
                        ),
                    )
                },
            },
        }
    }
}

/// The compound selectors after the first one in a chain, each after a combinator.
#[verifier::opaque]
pub open spec fn chain_rest(ns: Seq<Tree>, c: int, end: int) -> Result<int, (int, Seq<char>)>
    decreases ns, 1int, ns.len() - c,
{
    if c < 0 || c >= ns.len() || !is_combinator_tok(ns, c) {
        Ok(c)
    } else {
        match compound(ns, after_combinator(ns, c), end, false) {
            Err(e) => Err(e),
            Ok(d) => if d <= c || d > ns.len() {
                Ok(d)
            } else {
                chain_rest(ns, d, end)
            },
        }
    }
}

/// A selector chain: an optional leading combinator, then compound selectors
/// joined by combinators.
#[verifier::opaque]
pub open spec fn selector_chain(ns: Seq<Tree>, c: int, end: int) -> Result<int, (int, Seq<char>)>
    decreases ns, 2int, 0int,
{
    let start = if is_combinator_tok(ns, c) { after_combinator(ns, c) } else { c };
    match compound(ns, start, end, false) {
        Err(e) => Err(e),
        Ok(d) => chain_rest(ns, d, end),
    }
}

/// A comma-separated list of selector chains from `c` on.
#[verifier::opaque]
pub open spec fn selector_list(ns: Seq<Tree>, c: int, end: int) -> Result<int, (int, Seq<char>)>
    decreases ns, 3int, ns.len() - c,
{
    match selector_chain(ns, c, end) {
        Err(e) => Err(e),
        Ok(d) => if is_tok(ns, d, [',']@) && d >= c && d < ns.len() {
            selector_list(ns, d + 1, end)
        } else {
            Ok(d)
        },
    }
}

// ---------------------------------------------------------------------------
// Sheets, rules and properties.
// ---------------------------------------------------------------------------

/// An expression in the parentheses of the group at `c`.
pub open spec fn insertion_check(t: Seq<char>, ns: Seq<Tree>, c: int, end: int) -> Result<int, (int, Seq<char>)> {
    match group_at(ns, c, '(') {
        None => expected_at(ns, c, end, ['p', 'a', 'r', 'e', 'n', 't', 'h', 'e', 's', 'e', 's']@),
        Some(_) => checked(syn_expr(slice(t, start_of(ns[c]) + 1, end_of(ns[c]) - 1)), ns, c, end, c + 1),
    }
}

/// The value tokens of a property from `c` up to its `;`.
pub open spec fn value_end(ns: Seq<Tree>, c: int, end: int) -> Result<int, (int, Seq<char>)>
    decreases ns.len() - c,
{
    if c < 0 || c >= ns.len() {
        Err((end, ['u', 'n', 'e', 'x', 'p', 'e', 'c', 't', 'e', 'd', ' ', 'e', 'n', 'd', ' ', 'o', 'f', ' ', 'i', 'n', 'p', 'u', 't', ',', ' ', 'e', 'x', 'p', 'e', 'c', 't', 'e', 'd', ' ', '`', ';', '`', ' ', 'a', 'f', 't', 'e', 'r', ' ', 's', 't', 'y', 'l', 'e', ' ', 'p', 'r', 'o', 'p', 'e', 'r', 't', 'y', ' ', 'v', 'a', 'l', 'u', 'e']@))
    } else if is_tok(ns, c, [';']@) {
        Ok(c)
    } else {
        value_end(ns, c + 1, end)
    }
}

/// A property at `c`: an optional `--`, a name, `:`, a value and `;`.
pub open spec fn property_check(t: Seq<char>, ns: Seq<Tree>, c: int, end: int) -> Result<int, (int, Seq<char>)> {
    let dashes = if is_tok(ns, c, ['-']@) {
        if is_tok(ns, c + 1, ['-']@) {
            Ok(c + 2)
        } else {
            expected_at(ns, c + 1, end, ['`', '-', '`']@)
        }
    } else {
        Ok(c)
    };
    match dashes {
        Err(e) => Err(e),
        Ok(d) => {
            let name = match tok_at(ns, d) {
                Some(n) => checked(syn_ident(n), ns, d, end, d + 1),
                None => expected_at(ns, d, end, ['i', 'd', 'e', 'n', 't', 'i', 'f', 'i', 'e', 'r']@),
            };
            match name {
                Err(e) => Err(e),
                Ok(d) => if !is_tok(ns, d, [':']@) {
                    expected_at(ns, d, end, ['`', ':', '`']@)
                } else {
                    let value = if is_tok(ns, d + 1, ['$']@) {
                        insertion_check(t, ns, d + 2, end)
                    } else {
                        value_end(ns, d + 1, end)
                    };
                    match value {
                        Err(e) => Err(e),
                        Ok(v) => if is_tok(ns, v, [';']@) {
                            Ok(v + 1)
                        } else {
                            expected_at(ns, v, end, ['`', ';', '`']@)
                        },
                    }
                },
            }
        },
    }
}

/// A rule at `c`: a selector list and a block.
#[verifier::opaque]
pub open spec fn style_rule_check(t: Seq<char>, ns: Seq<Tree>, c: int, end: int) -> Result<int, (int, Seq<char>)>
    decreases ns, 0int, 0int,
{
    match selector_list(ns, c, end) {
        Err(e) => Err(e),
        Ok(d) => match group_at(ns, d, '{') {
            None => expected_at(ns, d, end, ['c', 'u', 'r', 'l', 'y', ' ', 'b', 'r', 'a', 'c', 'e', 's']@),
            Some(inner) => {
                proof {
                    crate::format::lemma_group_smaller(ns, d, '{');
                }
                match rule_body_check(t, inner, 0, inner_end(ns[d])) {
                    Err(e) => Err(e),
                    Ok(_) => Ok(d + 1),
                }
            },
        },
    }
}

/// The block of a rule from `c` on: properties and nested rules.
#[verifier::opaque]
pub open spec fn rule_body_check(t: Seq<char>, ns: Seq<Tree>, c: int, end: int) -> Result<int, (int, Seq<char>)>
    decreases ns, 1int, ns.len() - c,
{
    if c < 0 || c >= ns.len() {
        Ok(c)
    } else {
        let item = if ident_at(ns, c) || is_tok(ns, c, ['-']@) {
            property_check(t, ns, c, end)
        } else {
            style_rule_check(t, ns, c, end)
        };
        match item {
            Err(e) => Err(e),
            Ok(d) => if d <= c || d > ns.len() {
                Err((pos(ns, c, end), ['u', 'n', 'e', 'x', 'p', 'e', 'c', 't', 'e', 'd', ' ', 't', 'o', 'k', 'e', 'n']@))
            } else {
                rule_body_check(t, ns, d, end)
            },
        }
    }
}

/// The items of a sheet from `c` on: insertions and rules.
#[verifier::opaque]
pub open spec fn sheet_check(t: Seq<char>, ns: Seq<Tree>, c: int, end: int) -> Result<int, (int, Seq<char>)>
    decreases ns.len() - c,
{
    if c < 0 || c >= ns.len() {
        Ok(c)
    } else {
        let item = if is_tok(ns, c, ['$']@) {
            insertion_check(t, ns, c + 1, end)
        } else {
            style_rule_check(t, ns, c, end)
        };
        match item {
            Err(e) => Err(e),
            Ok(d) => if d <= c || d > ns.len() {
                Err((pos(ns, c, end), ['u', 'n', 'e', 'x', 'p', 'e', 'c', 't', 'e', 'd', ' ', 't', 'o', 'k', 'e', 'n']@))
            } else {
                sheet_check(t, ns, d, end)
            },
        }
    }
}

/// Whether `text` follows the style grammar, or the offset and message of the
/// first place where it does not; with `computed`, a leading bracket group of
/// captures is allowed. Comments are ignored.
pub open spec fn style_check(text: Seq<char>, computed: bool) -> Result<(), (int, Seq<char>)> {
    match lex(text) {
        Err(e) => Err(e),
        Ok(ns) => {
            let ns = strip(ns);
            let start = if computed && group_at(ns, 0, '[') is Some { 1int } else { 0int };
            match sheet_check(text, ns, start, text.len() as int) {
                Err(e) => Err(e),
                Ok(_) => Ok(()),
            }
        },
    }
}


pub proof fn lemma_compound_unfold(ns: Seq<Tree>, c: int, end: int, found: bool)
    ensures
        compound(ns, c, end, found) == ({
            if c < 0 || c >= ns.len() || !(is_tok(ns, c, ['.']@) || is_tok(ns, c, [':']@) || is_tok(ns, c, ['&']@)
                || is_tok(ns, c, ['&', '&']@)) {
                if found {
                    Ok(c)
                } else {
                    expected_at(ns, c, end, ['s', 'e', 'l', 'e', 'c', 't', 'o', 'r']@)
                }
            } else if is_tok(ns, c, ['.']@) {
                match tok_at(ns, c + 1) {
                    None => expected_at(ns, c + 1, end, ['i', 'd', 'e', 'n', 't', 'i', 'f', 'i', 'e', 'r']@),
                    Some(name) => match checked(syn_ident(name), ns, c + 1, end, c + 2) {
                        Err(e) => Err(e),
                        Ok(d) => compound(ns, d, end, true),
                    },
                }
            } else if is_tok(ns, c, ['&']@) || is_tok(ns, c, ['&', '&']@) {
                compound(ns, c + 1, end, true)
            } else {
                match tok_at(ns, c + 1) {
                    None => expected_at(ns, c + 1, end, ['i', 'd', 'e', 'n', 't', 'i', 'f', 'i', 'e', 'r']@),
                    Some(name) => match checked(syn_ident(name), ns, c + 1, end, c + 2) {
                        Err(e) => Err(e),
                        Ok(d) => if name == ['n', 'o', 't']@ {
                            match group_at(ns, d, '(') {
                                None => expected_at(ns, d, end, ['p', 'a', 'r', 'e', 'n', 't', 'h', 'e', 's', 'e', 's']@),
                                Some(inner) => {
                                    match selector_list(inner, 0, inner_end(ns[d])) {
                                        Err(e) => Err(e),
                                        Ok(k) => if k < inner.len() {
                                            Err((start_of(inner[k]), ['u', 'n', 'e', 'x', 'p', 'e', 'c', 't', 'e', 'd', ' ', 't', 'o', 'k', 'e', 'n']@))
                                        } else {
                                            compound(ns, d + 1, end, true)
                                        },
                                    }
                                },
                            }
                        } else if name == ['n', 't', 'h', '_', 'c', 'h', 'i', 'l', 'd']@ {
                            match group_at(ns, d, '(') {
                                None => expected_at(ns, d, end, ['p', 'a', 'r', 'e', 'n', 't', 'h', 'e', 's', 'e', 's']@),
                                Some(inner) => if inner.len() == 0 {
                                    Err(
                                        (
                                            inner_end(ns[d]),
                                            ['u', 'n', 'e', 'x', 'p', 'e', 'c', 't', 'e', 'd', ' ', 'e', 'n', 'd', ' ', 'o', 'f', ' ', 'i', 'n', 'p', 'u', 't', ',', ' ', 'e', 'x', 'p', 'e', 'c', 't', 'e', 'd', ' ', 'a', 'n', ' ', '`', 'A', 'n', '+', 'B', '`', ' ', 'e', 'x', 'p', 'r', 'e', 's', 's', 'i', 'o', 'n', ' ', 'i', 'n', ' ', '`', 'n', 't', 'h', '_', 'c', 'h', 'i', 'l', 'd', '(', ')', '`']@,
                                        ),
                                    )
                                } else {
                                    compound(ns, d + 1, end, true)
                                },
                            }
                        } else if name == ['f', 'i', 'r', 's', 't', '_', 'c', 'h', 'i', 'l', 'd']@ || name == ['l', 'a', 's', 't', '_', 'c', 'h', 'i', 'l', 'd']@ {
                            compound(ns, d, end, true)
                        } else {
                            Err(
                                (
                                    pos(ns, c + 1, end),
                                    ['u', 'n', 's', 'u', 'p', 'p', 'o', 'r', 't', 'e', 'd', ' ', 'p', 's', 'e', 'u', 'd', 'o', ' ', 's', 'e', 'l', 'e', 'c', 't', 'o', 'r', ';', ' ', 'e', 'x', 'p', 'e', 'c', 't', 'e', 'd', ' ', '`', 'n', 'o', 't', '`', ',', ' ', '`', 'f', 'i', 'r', 's', 't', '_', 'c', 'h', 'i', 'l', 'd', '`', ',', ' ', '`', 'l', 'a', 's', 't', '_', 'c', 'h', 'i', 'l', 'd', '`', ',', ' ', 'o', 'r', ' ', '`', 'n', 't', 'h', '_', 'c', 'h', 'i', 'l', 'd', '`']@,
                                ),
                            )
                        },
                    },
                }
            }
        }),
{
    reveal(compound);
    reveal(selector_list);
}

pub proof fn lemma_chain_rest_unfold(ns: Seq<Tree>, c: int, end: int)
    ensures
        chain_rest(ns, c, end) == ({
            if c < 0 || c >= ns.len() || !is_combinator_tok(ns, c) {
                Ok(c)
            } else {
                match compound(ns, after_combinator(ns, c), end, false) {
                    Err(e) => Err(e),
                    Ok(d) => if d <= c || d > ns.len() {
                        Ok(d)
                    } else {
                        chain_rest(ns, d, end)
                    },
                }
            }
        }),
{
    reveal(chain_rest);
    reveal(compound);
}

pub proof fn lemma_selector_chain_unfold(ns: Seq<Tree>, c: int, end: int)
    ensures
        selector_chain(ns, c, end) == ({
            let start = if is_combinator_tok(ns, c) { after_combinator(ns, c) } else { c };
            match compound(ns, start, end, false) {
                Err(e) => Err(e),
                Ok(d) => chain_rest(ns, d, end),
            }
        }),
{
    reveal(selector_chain);
    reveal(chain_rest);
    reveal(compound);
}

pub proof fn lemma_selector_list_unfold(ns: Seq<Tree>, c: int, end: int)
    ensures
        selector_list(ns, c, end) == ({
            match selector_chain(ns, c, end) {
                Err(e) => Err(e),
                Ok(d) => if is_tok(ns, d, [',']@) && d >= c && d < ns.len() {
                    selector_list(ns, d + 1, end)
                } else {
                    Ok(d)
                },
            }
        }),
{
    reveal(selector_list);
    reveal(selector_chain);
}

pub proof fn lemma_style_rule_check_unfold(t: Seq<char>, ns: Seq<Tree>, c: int, end: int)
    ensures
        style_rule_check(t, ns, c, end) == ({
            match selector_list(ns, c, end) {
                Err(e) => Err(e),
                Ok(d) => match group_at(ns, d, '{') {
                    None => expected_at(ns, d, end, ['c', 'u', 'r', 'l', 'y', ' ', 'b', 'r', 'a', 'c', 'e', 's']@),
                    Some(inner) => {
                        match rule_body_check(t, inner, 0, inner_end(ns[d])) {
                            Err(e) => Err(e),
                            Ok(_) => Ok(d + 1),
                        }
                    },
                },
            }
        }),
{
    reveal(style_rule_check);
    reveal(rule_body_check);
    reveal(selector_list);
}

pub proof fn lemma_rule_body_check_unfold(t: Seq<char>, ns: Seq<Tree>, c: int, end: int)
    ensures
        rule_body_check(t, ns, c, end) == ({
            if c < 0 || c >= ns.len() {
                Ok(c)
            } else {
                let item = if ident_at(ns, c) || is_tok(ns, c, ['-']@) {
                    property_check(t, ns, c, end)
                } else {
                    style_rule_check(t, ns, c, end)
                };
                match item {
                    Err(e) => Err(e),
                    Ok(d) => if d <= c || d > ns.len() {
                        Err((pos(ns, c, end), ['u', 'n', 'e', 'x', 'p', 'e', 'c', 't', 'e', 'd', ' ', 't', 'o', 'k', 'e', 'n']@))
                    } else {
                        rule_body_check(t, ns, d, end)
                    },
                }
            }
        }),
{
    reveal(rule_body_check);
    reveal(style_rule_check);
}

pub proof fn lemma_sheet_check_unfold(t: Seq<char>, ns: Seq<Tree>, c: int, end: int)
    ensures
        sheet_check(t, ns, c, end) == ({
            if c < 0 || c >= ns.len() {
                Ok(c)
            } else {
                let item = if is_tok(ns, c, ['$']@) {
                    insertion_check(t, ns, c + 1, end)
                } else {
                    style_rule_check(t, ns, c, end)
                };
                match item {
                    Err(e) => Err(e),
                    Ok(d) => if d <= c || d > ns.len() {
                        Err((pos(ns, c, end), ['u', 'n', 'e', 'x', 'p', 'e', 'c', 't', 'e', 'd', ' ', 't', 'o', 'k', 'e', 'n']@))
                    } else {
                        sheet_check(t, ns, d, end)
                    },
                }
            }
        }),
{
    reveal(sheet_check);
    reveal(style_rule_check);
}

// ---------------------------------------------------------------------------
// The executable check.
// ---------------------------------------------------------------------------

fn is_combinator_exec(ns: &[Node], c: usize) -> (b: bool)
    ensures
        b == is_combinator_tok(view_nodes(ns@), c as int),
{
    token_is(ns, c, ['>']) || token_is(ns, c, ['+']) || token_is(ns, c, ['~']) || token_is(ns, c, ['>', '>'])
}

fn after_combinator_exec(ns: &[Node], c: usize) -> (r: usize)
    requires
        c < ns@.len(),
    ensures
        r as int == after_combinator(view_nodes(ns@), c as int),
{
    proof {
        lemma_view_nodes_at(ns@, 0);
    }
    let n = ns.len();
    if !token_is(ns, c, ['>', '>']) && token_is(ns, c + 1, ['>']) {
        c + 2
    } else {
        c + 1
    }
}

fn ident_here(ns: &[Node], c: usize) -> (b: bool)
    ensures
        b == ident_at(view_nodes(ns@), c as int),
{
    match token_at(ns, c) {
        Some(t) => {
            let text = string_of(t.as_slice());
            ident_error(text.as_str()).is_none()
        },
        None => false,
    }
}

fn compound_exec(ns: &[Node], c: usize, end: usize, found: bool) -> (r: Result<usize, (usize, Vec<char>)>)
    requires
        c <= ns@.len(),
    ensures
        res_view(r) == compound(view_nodes(ns@), c as int, end as int, found),
        r matches Ok(d) ==> d <= ns@.len(),
    decreases ns@, 0int, ns@.len() - c,
{
    proof {
        lemma_view_nodes_at(ns@, 0);
        lemma_compound_unfold(view_nodes(ns@), c as int, end as int, found);
    }
    let n = ns.len();
    let dot = token_is(ns, c, ['.']);
    let colon = token_is(ns, c, [':']);
    let amp = token_is(ns, c, ['&']) || token_is(ns, c, ['&', '&']);
    if c >= n || !(dot || colon || amp) {
        if found {
            return Ok(c);
        } else {
            return expected_exec(ns, c, end, ['s', 'e', 'l', 'e', 'c', 't', 'o', 'r']);
        }
    }
    if dot {
        return match token_at(ns, c + 1) {
            None => expected_exec(ns, c + 1, end, ['i', 'd', 'e', 'n', 't', 'i', 'f', 'i', 'e', 'r']),
            Some(name) => {
                let text = string_of(name.as_slice());
                match checked_exec(ident_error(text.as_str()), ns, c + 1, end, c + 2) {
                    Err(e) => Err(e),
                    Ok(d) => compound_exec(ns, d, end, true),
                }
            },
        };
    }
    if amp {
        return compound_exec(ns, c + 1, end, true);
    }
    match token_at(ns, c + 1) {
        None => expected_exec(ns, c + 1, end, ['i', 'd', 'e', 'n', 't', 'i', 'f', 'i', 'e', 'r']),
        Some(name) => {
            let text = string_of(name.as_slice());
            let d = match checked_exec(ident_error(text.as_str()), ns, c + 1, end, c + 2) {
                Err(e) => {
                    return Err(e);
                },
                Ok(d) => d,
            };
            if crate::text::word_is(name.as_slice(), ['n', 'o', 't']) {
                match group_ref(ns, d, '(') {
                    None => expected_exec(ns, d, end, ['p', 'a', 'r', 'e', 'n', 't', 'h', 'e', 's', 'e', 's']),
                    Some(inner) => {
                        proof {
                            lemma_view_nodes_at(ns@, d as int);
                            lemma_view_nodes_at(inner@, 0);
                        }
                        let inner_end = group_end_exec(&ns[d]);
                        match selector_list_exec(inner.as_slice(), 0, inner_end) {
                            Err(e) => Err(e),
                            Ok(k) => if k < inner.len() {
                                proof {
                                    lemma_view_nodes_at(inner@, k as int);
                                }
                                let mut m: Vec<char> = Vec::new();
                                push_word(&mut m, ['u', 'n', 'e', 'x', 'p', 'e', 'c', 't', 'e', 'd', ' ', 't', 'o', 'k', 'e', 'n']);
                                Err((start_exec(&inner[k]), m))
                            } else {
                                compound_exec(ns, d + 1, end, true)
                            },
                        }
                    },
                }
            } else if crate::text::word_is(name.as_slice(), ['n', 't', 'h', '_', 'c', 'h', 'i', 'l', 'd']) {
                match group_ref(ns, d, '(') {
                    None => expected_exec(ns, d, end, ['p', 'a', 'r', 'e', 'n', 't', 'h', 'e', 's', 'e', 's']),
                    Some(inner) => {
                        proof {
                            lemma_view_nodes_at(ns@, d as int);
                            lemma_view_nodes_at(inner@, 0);
                        }
                        if inner.len() == 0 {
                            let mut m: Vec<char> = Vec::new();
                            push_word(&mut m, ['u', 'n', 'e', 'x', 'p', 'e', 'c', 't', 'e', 'd', ' ', 'e', 'n', 'd', ' ', 'o', 'f', ' ', 'i', 'n', 'p', 'u', 't', ',', ' ', 'e', 'x', 'p', 'e', 'c', 't', 'e', 'd', ' ', 'a', 'n', ' ', '`', 'A', 'n', '+', 'B', '`', ' ', 'e', 'x', 'p', 'r', 'e', 's', 's', 'i', 'o', 'n', ' ', 'i', 'n', ' ', '`', 'n', 't', 'h', '_', 'c', 'h', 'i', 'l', 'd', '(', ')', '`']);
                            Err((group_end_exec(&ns[d]), m))
                        } else {
                            compound_exec(ns, d + 1, end, true)
                        }
                    },
                }
            } else if crate::text::word_is(name.as_slice(), ['f', 'i', 'r', 's', 't', '_', 'c', 'h', 'i', 'l', 'd']) || crate::text::word_is(
                name.as_slice(),
                ['l', 'a', 's', 't', '_', 'c', 'h', 'i', 'l', 'd'],
            ) {
                compound_exec(ns, d, end, true)
            } else {
                let mut m: Vec<char> = Vec::new();
                push_word(&mut m, ['u', 'n', 's', 'u', 'p', 'p', 'o', 'r', 't', 'e', 'd', ' ', 'p', 's', 'e', 'u', 'd', 'o', ' ', 's', 'e', 'l', 'e', 'c', 't', 'o', 'r', ';', ' ', 'e', 'x', 'p', 'e', 'c', 't', 'e', 'd', ' ', '`', 'n', 'o', 't', '`', ',', ' ', '`', 'f', 'i', 'r', 's', 't', '_', 'c', 'h', 'i', 'l', 'd', '`', ',', ' ', '`', 'l', 'a', 's', 't', '_', 'c', 'h', 'i', 'l', 'd', '`', ',', ' ', 'o', 'r', ' ', '`', 'n', 't', 'h', '_', 'c', 'h', 'i', 'l', 'd', '`']);
                Err((pos_exec(ns, c + 1, end), m))
            }
        },
    }
}

fn chain_rest_exec(ns: &[Node], c: usize, end: usize) -> (r: Result<usize, (usize, Vec<char>)>)
    requires
        c <= ns@.len(),
    ensures
        res_view(r) == chain_rest(view_nodes(ns@), c as int, end as int),
        r matches Ok(d) ==> d <= ns@.len(),
    decreases ns@, 1int, ns@.len() - c,
{
    proof {
        lemma_view_nodes_at(ns@, 0);
        lemma_chain_rest_unfold(view_nodes(ns@), c as int, end as int);
    }
    let n = ns.len();
    if c >= n || !is_combinator_exec(ns, c) {
        return Ok(c);
    }
    let a = after_combinator_exec(ns, c);
    if a > n {
        return compound_exec(ns, n, end, false);
    }
    match compound_exec(ns, a, end, false) {
        Err(e) => Err(e),
        Ok(d) => if d <= c || d > n {
            Ok(d)
        } else {
            chain_rest_exec(ns, d, end)
        },
    }
}

fn selector_chain_exec(ns: &[Node], c: usize, end: usize) -> (r: Result<usize, (usize, Vec<char>)>)
    requires
        c <= ns@.len(),
    ensures
        res_view(r) == selector_chain(view_nodes(ns@), c as int, end as int),
        r matches Ok(d) ==> d <= ns@.len(),
    decreases ns@, 2int, 0int,
{
    proof {
        lemma_view_nodes_at(ns@, 0);
        lemma_selector_chain_unfold(view_nodes(ns@), c as int, end as int);
    }
    let n = ns.len();
    let start = if c < n && is_combinator_exec(ns, c) {
        after_combinator_exec(ns, c)
    } else {
        c
    };
    if start > n {
        return compound_exec(ns, n, end, false);
    }
    match compound_exec(ns, start, end, false) {
        Err(e) => Err(e),
        Ok(d) => chain_rest_exec(ns, d, end),
    }
}

fn selector_list_exec(ns: &[Node], c: usize, end: usize) -> (r: Result<usize, (usize, Vec<char>)>)
    requires
        c <= ns@.len(),
    ensures
        res_view(r) == selector_list(view_nodes(ns@), c as int, end as int),
        r matches Ok(d) ==> d <= ns@.len(),
    decreases ns@, 3int, ns@.len() - c,
{
    proof {
        lemma_view_nodes_at(ns@, 0);
        lemma_selector_list_unfold(view_nodes(ns@), c as int, end as int);
    }
    let n = ns.len();
    match selector_chain_exec(ns, c, end) {
        Err(e) => Err(e),
        Ok(d) => if token_is(ns, d, [',']) && d >= c && d < n {
            selector_list_exec(ns, d + 1, end)
        } else {
            Ok(d)
        },
    }
}

fn insertion_check_exec(t: &[char], ns: &[Node], c: usize, end: usize) -> (r: Result<usize, (usize, Vec<char>)>)
    ensures
        res_view(r) == insertion_check(t@, view_nodes(ns@), c as int, end as int),
{
    proof {
        lemma_view_nodes_at(ns@, 0);
    }
    let n = ns.len();
    match group_ref(ns, c, '(') {
        None => expected_exec(ns, c, end, ['p', 'a', 'r', 'e', 'n', 't', 'h', 'e', 's', 'e', 's']),
        Some(_) => {
            proof {
                lemma_view_nodes_at(ns@, c as int);
            }
            let a = start_exec(&ns[c]);
            let b = group_end_exec(&ns[c]);
            let text = slice_exec(t, a.saturating_add(1), b);
            proof {
                assert(slice(t@, a.saturating_add(1) as int, b as int) == slice(
                    t@,
                    a + 1,
                    end_of(view_nodes(ns@)[c as int]) - 1,
                ));
            }
            checked_exec(expr_error(text.as_str()), ns, c, end, c + 1)
        },
    }
}

fn value_end_exec(ns: &[Node], c: usize, end: usize) -> (r: Result<usize, (usize, Vec<char>)>)
    requires
        c <= ns@.len(),
    ensures
        res_view(r) == value_end(view_nodes(ns@), c as int, end as int),
{
    proof {
        lemma_view_nodes_at(ns@, 0);
    }
    let ghost v = view_nodes(ns@);
    let n = ns.len();
    let mut k = c;
    while k < n
        invariant
            n == ns@.len(),
            v == view_nodes(ns@),
            v.len() == n,
            c <= k <= n,
            value_end(v, k as int, end as int) == value_end(v, c as int, end as int),
        decreases n - k,
    {
        if token_is(ns, k, [';']) {
            return Ok(k);
        }
        k = k + 1;
    }
    let mut m: Vec<char> = Vec::new();
    push_word(&mut m, ['u', 'n', 'e', 'x', 'p', 'e', 'c', 't', 'e', 'd', ' ', 'e', 'n', 'd', ' ', 'o', 'f', ' ', 'i', 'n', 'p', 'u', 't', ',', ' ', 'e', 'x', 'p', 'e', 'c', 't', 'e', 'd', ' ', '`', ';', '`', ' ', 'a', 'f', 't', 'e', 'r', ' ', 's', 't', 'y', 'l', 'e', ' ', 'p', 'r', 'o', 'p', 'e', 'r', 't', 'y', ' ', 'v', 'a', 'l', 'u', 'e']);
    Err((end, m))
}

fn property_check_exec(t: &[char], ns: &[Node], c: usize, end: usize) -> (r: Result<usize, (usize, Vec<char>)>)
    requires
        c < ns@.len(),
    ensures
        res_view(r) == property_check(t@, view_nodes(ns@), c as int, end as int),
{
    proof {
        lemma_view_nodes_at(ns@, 0);
    }
    let n = ns.len();
    let d = if token_is(ns, c, ['-']) {
        if token_is(ns, c + 1, ['-']) {
            c + 2
        } else {
            return expected_exec(ns, c + 1, end, ['`', '-', '`']);
        }
    } else {
        c
    };
    let d = match ident_at_exec(t, ns, d, end, d.saturating_add(1)) {
        Err(e) => {
            return Err(e);
        },
        Ok(d) => d,
    };
    if !token_is(ns, d, [':']) {
        return expected_exec(ns, d, end, ['`', ':', '`']);
    }
    let value = if token_is(ns, d + 1, ['$']) {
        insertion_check_exec(t, ns, d + 2, end)
    } else {
        value_end_exec(ns, d + 1, end)
    };
    match value {
        Err(e) => Err(e),
        Ok(v) => if token_is(ns, v, [';']) {
            Ok(v + 1)
        } else {
            expected_exec(ns, v, end, ['`', ';', '`'])
        },
    }
}

fn style_rule_check_exec(t: &[char], ns: &[Node], c: usize, end: usize) -> (r: Result<usize, (usize, Vec<char>)>)
    requires
        c <= ns@.len(),
    ensures
        res_view(r) == style_rule_check(t@, view_nodes(ns@), c as int, end as int),
    decreases ns@, 0int, 0int,
{
    proof {
        lemma_view_nodes_at(ns@, 0);
        lemma_style_rule_check_unfold(t@, view_nodes(ns@), c as int, end as int);
    }
    let d = match selector_list_exec(ns, c, end) {
        Err(e) => {
            return Err(e);
        },
        Ok(d) => d,
    };
    match group_ref(ns, d, '{') {
        None => expected_exec(ns, d, end, ['c', 'u', 'r', 'l', 'y', ' ', 'b', 'r', 'a', 'c', 'e', 's']),
        Some(inner) => {
            proof {
                lemma_view_nodes_at(ns@, d as int);
            }
            let inner_end = group_end_exec(&ns[d]);
            match rule_body_check_exec(t, inner.as_slice(), 0, inner_end) {
                Err(e) => Err(e),
                Ok(_) => Ok(d + 1),
            }
        },
    }
}

fn rule_body_check_exec(t: &[char], ns: &[Node], c: usize, end: usize) -> (r: Result<usize, (usize, Vec<char>)>)
    ensures
        res_view(r) == rule_body_check(t@, view_nodes(ns@), c as int, end as int),
    decreases ns@, 1int, ns@.len() - c,
{
    proof {
        lemma_view_nodes_at(ns@, 0);
        lemma_rule_body_check_unfold(t@, view_nodes(ns@), c as int, end as int);
    }
    let n = ns.len();
    if c >= n {
        return Ok(c);
    }
    let item = if ident_here(ns, c) || token_is(ns, c, ['-']) {
        property_check_exec(t, ns, c, end)
    } else {
        style_rule_check_exec(t, ns, c, end)
    };
    match item {
        Err(e) => Err(e),
        Ok(d) => if d <= c || d > n {
            let mut m: Vec<char> = Vec::new();
            push_word(&mut m, ['u', 'n', 'e', 'x', 'p', 'e', 'c', 't', 'e', 'd', ' ', 't', 'o', 'k', 'e', 'n']);
            Err((pos_exec(ns, c, end), m))
        } else {
            rule_body_check_exec(t, ns, d, end)
        },
    }
}

fn sheet_check_exec(t: &[char], ns: &[Node], c: usize, end: usize) -> (r: Result<usize, (usize, Vec<char>)>)
    ensures
        res_view(r) == sheet_check(t@, view_nodes(ns@), c as int, end as int),
    decreases ns@.len() - c,
{
    proof {
        lemma_view_nodes_at(ns@, 0);
        lemma_sheet_check_unfold(t@, view_nodes(ns@), c as int, end as int);
    }
    let n = ns.len();
    if c >= n {
        return Ok(c);
    }
    let item = if token_is(ns, c, ['$']) {
        insertion_check_exec(t, ns, c + 1, end)
    } else {
        style_rule_check_exec(t, ns, c, end)
    };
    match item {
        Err(e) => Err(e),
        Ok(d) => if d <= c || d > n {
            let mut m: Vec<char> = Vec::new();
            push_word(&mut m, ['u', 'n', 'e', 'x', 'p', 'e', 'c', 't', 'e', 'd', ' ', 't', 'o', 'k', 'e', 'n']);
            Err((pos_exec(ns, c, end), m))
        } else {
            sheet_check_exec(t, ns, d, end)
        },
    }
}

/// Checks `text` against the style grammar.
pub fn check_style(text: &[char], computed: bool) -> (r: Result<(), (usize, Vec<char>)>)
    ensures
        match (r, style_check(text@, computed)) {
            (Ok(()), Ok(())) => true,
            (Err((a, m)), Err((b, n))) => a as int == b && m@ == n,
            _ => false,
        },
{
    match lex_nodes(text) {
        Err(e) => Err(e),
        Ok(ns) => {
            let stripped = strip_exec(ns.as_slice());
            let start: usize = if computed && group_ref(stripped.as_slice(), 0, '[').is_some() {
                1
            } else {
                0
            };
            match sheet_check_exec(text, stripped.as_slice(), start, text.len()) {
                Err(e) => Err(e),
                Ok(_) => Ok(()),
            }
        },
    }
}

/// Checks a style body against the style grammar; `computed` allows a
/// leading capture list.
pub fn validate(source: &str, computed: bool) -> (r: Result<(), crate::syntax::SyntaxError>)
    ensures
        match (r, style_check(source@, computed)) {
            (Ok(()), Ok(())) => true,
            (Err(e), Err((b, n))) => e.offset as int == b && e.message@ == n,
            _ => false,
        },
{
    let text = crate::text::chars_of(source);
    match check_style(text.as_slice(), computed) {
        Ok(()) => Ok(()),
        Err((offset, message)) => Err(crate::syntax::SyntaxError { offset, message: string_of(message.as_slice()) }),
    }
}

} // verus!
