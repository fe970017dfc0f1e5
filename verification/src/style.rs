//! Layout of `style!` and `computed_style!` bodies: rules with selectors,
//! declarations, nested rules and `$(..)` insertions.
use vstd::prelude::*;

use crate::format::{
    ctx_of, first_group, first_tok, fmt_generic, find_group, find_token, format_generic, group_at,
    group_ref, inline_text, is_tok, lemma_comma_parts, lemma_first_group, lemma_first_tok,
    lemma_prefix_step, parts_ok, split_commas, split_commas_exec, stop_of, text_result, texts, tok_at, fail_with, item_result, fresh_ask, lemma_fresh_fmt_generic, lemma_offline_fmt_generic, offline,
    token_at, token_is, Ctx, Halt, RustfmtAnswers, Stop,
};
use crate::lexer::{lemma_view_nodes_at, lemma_view_nodes_subrange, view_node_flat, view_nodes, Node, Tree};
use crate::text::{
    WIDTH, ascii_digit, byte_len, ident_start, is_ascii_digit, is_ident_start, join, join_exec, make_spaces,
    pop_spaces, push_all, push_spaces, push_word, sat, sat_add, spaces, trim_end, trim_end_of,
    trim_spaces_end, word_is,
};

verus! {

// ---------------------------------------------------------------------------
// Inline rendering of selectors and values.
// ---------------------------------------------------------------------------

/// Whether a token starts a word of a style value: an identifier, a number
/// or a string.
pub open spec fn is_word_token(t: Seq<char>) -> bool {
    t.len() > 0 && (ident_start(t[0]) || is_ascii_digit(t[0]) || t[0] == '"')
}

/// Whether `t` is a number written with the unit `unit` glued to it.
pub open spec fn unit_number(t: Seq<char>, unit: Seq<char>) -> bool {
    &&& t.len() > unit.len()
    &&& t.subrange(t.len() - unit.len(), t.len() as int) == unit
    &&& forall|i: int|
        0 <= i < t.len() - unit.len() ==> (is_ascii_digit(#[trigger] t[i]) || t[i] == '.' || t[i]
            == '_')
}

/// A value token as written out: `10px` becomes `10 px`, `2em` becomes `2 em`.
pub open spec fn style_token_text(t: Seq<char>) -> Seq<char> {
    if unit_number(t, ['p', 'x']@) {
        t.subrange(0, t.len() - 2) + [' ', 'p', 'x']@
    } else if unit_number(t, ['e', 'm']@) {
        t.subrange(0, t.len() - 2) + [' ', 'e', 'm']@
    } else {
        t
    }
}

/// The value rendering after the first `k` nodes, and whether it ends in a word.
#[verifier::opaque]
pub open spec fn style_inline_state(nodes: Seq<Tree>, k: int) -> (Seq<char>, bool)
    decreases nodes, k,
{
    if k <= 0 || k > nodes.len() {
        (seq![], false)
    } else {
        let (out, prev) = style_inline_state(nodes, k - 1);
        match nodes[k - 1] {
            Tree::Token { text, .. } => if text == [',']@ {
                (trim_spaces_end(out) + [',', ' ']@, false)
            } else {
                let w = is_word_token(text);
                (
                    (if prev && w {
                        out.push(' ')
                    } else {
                        out
                    }) + style_token_text(text),
                    w,
                )
            },
            Tree::Group { open, close, nodes: inner, .. } => (
                (if prev {
                    out.push(' ')
                } else {
                    out
                }).push(open) + style_inline(inner) + seq![close],
                true,
            ),
            Tree::Comment { text, .. } => (
                (if prev {
                    out.push(' ')
                } else {
                    out
                }) + text,
                true,
            ),
        }
    }
}

/// A style value (or property name) on one line: words one space apart,
/// `, ` after commas, units set off from their numbers.
#[verifier::opaque]
pub open spec fn style_inline(nodes: Seq<Tree>) -> Seq<char>
    decreases nodes, nodes.len() + 1,
{
    trim_end(style_inline_state(nodes, nodes.len() as int).0)
}

/// Selector combinators, written with a space on each side.
pub open spec fn is_combinator(t: Seq<char>) -> bool {
    t == ['>']@ || t == ['>', '>']@ || t == ['+']@ || t == ['~']@
}

/// The selector rendering after the first `k` nodes.
#[verifier::opaque]
pub open spec fn selector_state(nodes: Seq<Tree>, k: int) -> Seq<char>
    decreases nodes, k,
{
    if k <= 0 || k > nodes.len() {
        seq![]
    } else {
        let out = selector_state(nodes, k - 1);
        match nodes[k - 1] {
            Tree::Token { text, .. } => if text == [',']@ {
                trim_spaces_end(out) + [',', ' ']@
            } else if is_combinator(text) {
                (if out.len() > 0 && out.last() != ' ' {
                    out.push(' ')
                } else {
                    out
                }) + text + seq![' ']
            } else {
                out + text
            },
            Tree::Group { open, close, nodes: inner, .. } => out.push(open) + selector_inline(inner)
                + seq![close],
            Tree::Comment { text, .. } => (if out.len() > 0 && out.last() == ' ' {
                out
            } else {
                out.push(' ')
            }) + text + seq![' '],
        }
    }
}

/// A selector on one line: tokens glued together, combinators and commas
/// spaced.
#[verifier::opaque]
pub open spec fn selector_inline(nodes: Seq<Tree>) -> Seq<char>
    decreases nodes, nodes.len() + 1,
{
    trim_end(selector_state(nodes, nodes.len() as int))
}

/// The `k`-th line of a selector list broken at its commas.
pub open spec fn selector_part(nodes: Seq<Tree>, parts: Seq<(int, int)>, k: int, indent: nat) -> Seq<
    char,
> {
    (if k == 0 {
        seq![]
    } else {
        spaces(indent)
    }) + selector_inline(nodes.subrange(parts[k].0, parts[k].1)) + (if k + 1 < parts.len() {
        seq![',']
    } else {
        seq![]
    })
}

/// A selector at `indent`: on one line when it fits or has no comma, else one
/// comma part per line.
pub open spec fn style_selector(nodes: Seq<Tree>, indent: nat) -> Seq<char> {
    let sel = selector_inline(nodes);
    let parts = split_commas(nodes);
    if indent + byte_len(sel) <= WIDTH || parts.len() == 1 {
        sel
    } else {
        join(Seq::new(parts.len(), |k: int| selector_part(nodes, parts, k, indent)), seq!['\n'])
    }
}

/// Whether a brace group with a `;` directly in it occurs in the nodes.
#[verifier::opaque]
pub open spec fn style_statement_block(nodes: Seq<Tree>) -> bool
    decreases nodes,
{
    if nodes.len() == 0 {
        false
    } else {
        style_statement_block(nodes.subrange(0, nodes.len() - 1)) || match nodes[nodes.len() - 1] {
            Tree::Group { open, nodes: inner, .. } => if open == '{' {
                first_tok(inner, 0, [';']@) < inner.len()
            } else {
                style_statement_block(inner)
            },
            _ => false,
        }
    }
}

// ---------------------------------------------------------------------------
// Sheets, rules and declarations.
// ---------------------------------------------------------------------------

/// The comment lines from `c` on, each at `indent`, and the index after them.
#[verifier::opaque]
pub open spec fn style_comments(nodes: Seq<Tree>, c: int, indent: nat, acc: Seq<Seq<char>>) -> (
    Seq<Seq<char>>,
    int,
)
    decreases nodes.len() - c,
{
    if 0 <= c < nodes.len() && nodes[c] is Comment {
        style_comments(nodes, c + 1, indent, acc.push(spaces(indent) + nodes[c]->Comment_text))
    } else {
        (acc, c)
    }
}

/// Whether the item at `c` is a declaration: a name, or `--` and a name.
pub open spec fn is_declaration_start(nodes: Seq<Tree>, c: int) -> bool {
    match tok_at(nodes, c) {
        Some(t) => if t == ['-']@ {
            is_tok(nodes, c + 1, ['-']@)
        } else {
            t.len() > 0 && ident_start(t[0])
        },
        None => false,
    }
}

/// A `$(..)` insertion at `c`, and the index after it.
pub open spec fn style_insertion(nodes: Seq<Tree>, c: int, indent: nat, ctx: Ctx) -> Result<
    (Seq<char>, int),
    Stop,
> {
    match group_at(nodes, c + 1, '(') {
        None => Err(Stop::Fail(['e', 'x', 'p', 'e', 'c', 't', 'e', 'd', ' ', 'p', 'a', 'r', 'e', 'n', 't', 'h', 'e', 's', 'i', 'z', 'e', 'd', ' ', 'e', 'x', 'p', 'r', 'e', 's', 's', 'i', 'o', 'n', ' ', 'a', 'f', 't', 'e', 'r', ' ', '`', '$', '`', ' ', 'i', 'n', ' ', 's', 't', 'y', 'l', 'e', ' ', 's', 'h', 'e', 'e', 't']@)),
        Some(e) => match fmt_generic(e, sat_add(indent, 2), ctx) {
            Err(s) => Err(s),
            Ok(g) => Ok((spaces(indent) + ['$', '(']@ + g + seq![')'], c + 2)),
        },
    }
}

/// A declaration at `c`: `name: value;`, and the index after it.
pub open spec fn style_declaration(nodes: Seq<Tree>, c: int, indent: nat, ctx: Ctx) -> Result<
    (Seq<char>, int),
    Stop,
> {
    let semi = first_tok(nodes, c, [';']@);
    let colon = first_tok(nodes, c, [':']@);
    if semi >= nodes.len() {
        Err(Stop::Fail(['e', 'x', 'p', 'e', 'c', 't', 'e', 'd', ' ', '`', ';', '`', ' ', 'a', 'f', 't', 'e', 'r', ' ', 's', 't', 'y', 'l', 'e', ' ', 'p', 'r', 'o', 'p', 'e', 'r', 't', 'y', ' ', 'v', 'a', 'l', 'u', 'e']@))
    } else if colon >= semi {
        Err(Stop::Fail(['e', 'x', 'p', 'e', 'c', 't', 'e', 'd', ' ', '`', ':', '`', ' ', 'a', 'f', 't', 'e', 'r', ' ', 's', 't', 'y', 'l', 'e', ' ', 'p', 'r', 'o', 'p', 'e', 'r', 't', 'y', ' ', 'n', 'a', 'm', 'e']@))
    } else {
        let name = style_inline(nodes.subrange(c, colon));
        let value_nodes = nodes.subrange(colon + 1, semi);
        let value = if is_tok(value_nodes, 0, ['$']@) && value_nodes.len() == 2 && group_at(
            value_nodes,
            1,
            '(',
        ) is Some {
            let e = group_at(value_nodes, 1, '(')->0;
            let compact = inline_text(e);
            let expression = if !style_statement_block(e) && indent + byte_len(name) + byte_len(
                compact,
            ) + 5 <= WIDTH {
                Ok(compact)
            } else {
                fmt_generic(e, sat((indent + byte_len(name) + 4) as int), ctx)
            };
            match expression {
                Err(s) => Err(s),
                Ok(x) => Ok(['$', '(']@ + x + seq![')']),
            }
        } else {
            Ok(style_inline(value_nodes))
        };
        match value {
            Err(s) => Err(s),
            Ok(v) => Ok((spaces(indent) + name + [':', ' ']@ + v + seq![';'], semi + 1)),
        }
    }
}

/// A rule at `c`: its selector and its block, and the index after it.
#[verifier::opaque]
pub open spec fn style_rule(nodes: Seq<Tree>, c: int, indent: nat, ctx: Ctx) -> Result<
    (Seq<char>, int),
    Stop,
>
    decreases nodes, 1int, 0int,
{
    let body_at = first_group(nodes, c, '{');
    if c < 0 || c > nodes.len() || body_at >= nodes.len() {
        Err(Stop::Fail(['e', 'x', 'p', 'e', 'c', 't', 'e', 'd', ' ', 'b', 'l', 'o', 'c', 'k', ' ', 'a', 'f', 't', 'e', 'r', ' ', 's', 't', 'y', 'l', 'e', ' ', 's', 'e', 'l', 'e', 'c', 't', 'o', 'r']@))
    } else {
        proof {
            lemma_first_group(nodes, c, '{');
            crate::format::lemma_group_smaller(nodes, body_at, '{');
        }
        let selector = style_selector(nodes.subrange(c, body_at), indent);
        let body = group_at(nodes, body_at, '{')->0;
        if body.len() == 0 {
            Ok((spaces(indent) + selector + [' ', '{', '}']@, body_at + 1))
        } else {
            match style_rule_body(body, 0, sat_add(indent, 4), ctx, seq![], false) {
                Err(s) => Err(s),
                Ok(b) => Ok(
                    (
                        spaces(indent) + selector + [' ', '{', '\n']@ + b + seq!['\n'] + spaces(indent)
                            + seq!['}'],
                        body_at + 1,
                    ),
                ),
            }
        }
    }
}

/// The block of a rule from `c` on, after `out`: declarations one per line,
/// a blank line around nested rules, comments on their own lines.
#[verifier::opaque]
pub open spec fn style_rule_body(
    nodes: Seq<Tree>,
    c: int,
    indent: nat,
    ctx: Ctx,
    out: Seq<char>,
    after_rule: bool,
) -> Result<Seq<char>, Stop>
    decreases nodes, 2int, nodes.len() - c,
{
    if c < 0 || c >= nodes.len() {
        Ok(out)
    } else {
        let (comments, c1) = style_comments(nodes, c, indent, seq![]);
        if c1 >= nodes.len() {
            Ok(
                (if out.len() > 0 {
                    out.push('\n')
                } else {
                    out
                }) + join(comments, seq!['\n']),
            )
        } else {
            let declaration = is_declaration_start(nodes, c1);
            let o = if out.len() > 0 {
                if after_rule || !declaration {
                    out + ['\n', '\n']@
                } else {
                    out.push('\n')
                }
            } else {
                out
            };
            let o = if comments.len() > 0 {
                o + join(comments, seq!['\n']) + seq!['\n']
            } else {
                o
            };
            let item = if declaration {
                style_declaration(nodes, c1, indent, ctx)
            } else {
                style_rule(nodes, c1, indent, ctx)
            };
            match item {
                Err(s) => Err(s),
                Ok((t, c2)) => if c2 <= c || c2 > nodes.len() {
                    Err(Stop::Fail(['e', 'x', 'p', 'e', 'c', 't', 'e', 'd', ' ', 'b', 'l', 'o', 'c', 'k', ' ', 'a', 'f', 't', 'e', 'r', ' ', 's', 't', 'y', 'l', 'e', ' ', 's', 'e', 'l', 'e', 'c', 't', 'o', 'r']@))
                } else {
                    style_rule_body(nodes, c2, indent, ctx, o + t, !declaration)
                },
            }
        }
    }
}

/// The items of a sheet from `c` on, after `chunks`: each insertion or rule
/// with the comments before it.
#[verifier::opaque]
pub open spec fn style_items(
    nodes: Seq<Tree>,
    c: int,
    indent: nat,
    ctx: Ctx,
    chunks: Seq<Seq<char>>,
) -> Result<Seq<Seq<char>>, Stop>
    decreases nodes.len() - c,
{
    if c < 0 || c >= nodes.len() {
        Ok(chunks)
    } else {
        let (comments, c1) = style_comments(nodes, c, indent, seq![]);
        if c1 >= nodes.len() {
            Ok(
                if comments.len() > 0 {
                    chunks.push(join(comments, seq!['\n']))
                } else {
                    chunks
                },
            )
        } else {
            let item = if is_tok(nodes, c1, ['$']@) {
                style_insertion(nodes, c1, indent, ctx)
            } else {
                style_rule(nodes, c1, indent, ctx)
            };
            match item {
                Err(s) => Err(s),
                Ok((t, c2)) => if c2 <= c || c2 > nodes.len() {
                    Err(Stop::Fail(['e', 'x', 'p', 'e', 'c', 't', 'e', 'd', ' ', 'b', 'l', 'o', 'c', 'k', ' ', 'a', 'f', 't', 'e', 'r', ' ', 's', 't', 'y', 'l', 'e', ' ', 's', 'e', 'l', 'e', 'c', 't', 'o', 'r']@))
                } else {
                    style_items(nodes, c2, indent, ctx, chunks.push(join(comments.push(t), seq!['\n'])))
                },
            }
        }
    }
}

/// A style sheet laid out at `indent`: a `computed_style!` capture list first
/// when there is one, then the items, a blank line apart.
pub open spec fn style_sheet(nodes: Seq<Tree>, indent: nat, computed: bool, ctx: Ctx) -> Result<
    Seq<char>,
    Stop,
> {
    let captured = computed && group_at(nodes, 0, '[') is Some;
    let first = if captured {
        seq![spaces(indent) + seq!['['] + selector_inline(group_at(nodes, 0, '[')->0) + seq![']']]
    } else {
        seq![]
    };
    match style_items(nodes, if captured { 1 } else { 0 }, indent, ctx, first) {
        Err(s) => Err(s),
        Ok(chunks) => Ok(join(chunks, ['\n', '\n']@)),
    }
}


pub proof fn lemma_style_rule_unfold(nodes: Seq<Tree>, c: int, indent: nat, ctx: Ctx)
    ensures
        style_rule(nodes, c, indent, ctx) == ({
            let body_at = first_group(nodes, c, '{');
            if c < 0 || c > nodes.len() || body_at >= nodes.len() {
                Err(Stop::Fail(['e', 'x', 'p', 'e', 'c', 't', 'e', 'd', ' ', 'b', 'l', 'o', 'c', 'k', ' ', 'a', 'f', 't', 'e', 'r', ' ', 's', 't', 'y', 'l', 'e', ' ', 's', 'e', 'l', 'e', 'c', 't', 'o', 'r']@))
            } else {
                let selector = style_selector(nodes.subrange(c, body_at), indent);
                let body = group_at(nodes, body_at, '{')->0;
                if body.len() == 0 {
                    Ok((spaces(indent) + selector + [' ', '{', '}']@, body_at + 1))
                } else {
                    match style_rule_body(body, 0, sat_add(indent, 4), ctx, seq![], false) {
                        Err(s) => Err(s),
                        Ok(b) => Ok(
                            (
                                spaces(indent) + selector + [' ', '{', '\n']@ + b + seq!['\n'] + spaces(indent)
                                    + seq!['}'],
                                body_at + 1,
                            ),
                        ),
                    }
                }
            }
        }),
{
    reveal(style_rule);
    reveal(style_rule_body);
}

pub proof fn lemma_style_rule_body_unfold(nodes: Seq<Tree>,
    c: int,
    indent: nat,
    ctx: Ctx,
    out: Seq<char>,
    after_rule: bool,)
    ensures
        style_rule_body(nodes, c, indent, ctx, out, after_rule) == ({
            if c < 0 || c >= nodes.len() {
                Ok(out)
            } else {
                let (comments, c1) = style_comments(nodes, c, indent, seq![]);
                if c1 >= nodes.len() {
                    Ok(
                        (if out.len() > 0 {
                            out.push('\n')
                        } else {
                            out
                        }) + join(comments, seq!['\n']),
                    )
                } else {
                    let declaration = is_declaration_start(nodes, c1);
                    let o = if out.len() > 0 {
                        if after_rule || !declaration {
                            out + ['\n', '\n']@
                        } else {
                            out.push('\n')
                        }
                    } else {
                        out
                    };
                    let o = if comments.len() > 0 {
                        o + join(comments, seq!['\n']) + seq!['\n']
                    } else {
                        o
                    };
                    let item = if declaration {
                        style_declaration(nodes, c1, indent, ctx)
                    } else {
                        style_rule(nodes, c1, indent, ctx)
                    };
                    match item {
                        Err(s) => Err(s),
                        Ok((t, c2)) => if c2 <= c || c2 > nodes.len() {
                            Err(Stop::Fail(['e', 'x', 'p', 'e', 'c', 't', 'e', 'd', ' ', 'b', 'l', 'o', 'c', 'k', ' ', 'a', 'f', 't', 'e', 'r', ' ', 's', 't', 'y', 'l', 'e', ' ', 's', 'e', 'l', 'e', 'c', 't', 'o', 'r']@))
                        } else {
                            style_rule_body(nodes, c2, indent, ctx, o + t, !declaration)
                        },
                    }
                }
            }
        }),
{
    reveal(style_rule_body);
    reveal(style_rule);
}

pub proof fn lemma_style_items_unfold(nodes: Seq<Tree>,
    c: int,
    indent: nat,
    ctx: Ctx,
    chunks: Seq<Seq<char>>,)
    ensures
        style_items(nodes, c, indent, ctx, chunks) == ({
            if c < 0 || c >= nodes.len() {
                Ok(chunks)
            } else {
                let (comments, c1) = style_comments(nodes, c, indent, seq![]);
                if c1 >= nodes.len() {
                    Ok(
                        if comments.len() > 0 {
                            chunks.push(join(comments, seq!['\n']))
                        } else {
                            chunks
                        },
                    )
                } else {
                    let item = if is_tok(nodes, c1, ['$']@) {
                        style_insertion(nodes, c1, indent, ctx)
                    } else {
                        style_rule(nodes, c1, indent, ctx)
                    };
                    match item {
                        Err(s) => Err(s),
                        Ok((t, c2)) => if c2 <= c || c2 > nodes.len() {
                            Err(Stop::Fail(['e', 'x', 'p', 'e', 'c', 't', 'e', 'd', ' ', 'b', 'l', 'o', 'c', 'k', ' ', 'a', 'f', 't', 'e', 'r', ' ', 's', 't', 'y', 'l', 'e', ' ', 's', 'e', 'l', 'e', 'c', 't', 'o', 'r']@))
                        } else {
                            style_items(nodes, c2, indent, ctx, chunks.push(join(comments.push(t), seq!['\n'])))
                        },
                    }
                }
            }
        }),
{
    reveal(style_items);
    reveal(style_rule);
}

pub proof fn lemma_style_comments_unfold(nodes: Seq<Tree>, c: int, indent: nat, acc: Seq<Seq<char>>)
    ensures
        style_comments(nodes, c, indent, acc) == ({
            if 0 <= c < nodes.len() && nodes[c] is Comment {
                style_comments(nodes, c + 1, indent, acc.push(spaces(indent) + nodes[c]->Comment_text))
            } else {
                (acc, c)
            }
        }),
{
    reveal(style_comments);
}

pub proof fn lemma_style_inline_state_unfold(nodes: Seq<Tree>, k: int)
    ensures
        style_inline_state(nodes, k) == ({
            if k <= 0 || k > nodes.len() {
                (seq![], false)
            } else {
                let (out, prev) = style_inline_state(nodes, k - 1);
                match nodes[k - 1] {
                    Tree::Token { text, .. } => if text == [',']@ {
                        (trim_spaces_end(out) + [',', ' ']@, false)
                    } else {
                        let w = is_word_token(text);
                        (
                            (if prev && w {
                                out.push(' ')
                            } else {
                                out
                            }) + style_token_text(text),
                            w,
                        )
                    },
                    Tree::Group { open, close, nodes: inner, .. } => (
                        (if prev {
                            out.push(' ')
                        } else {
                            out
                        }).push(open) + style_inline(inner) + seq![close],
                        true,
                    ),
                    Tree::Comment { text, .. } => (
                        (if prev {
                            out.push(' ')
                        } else {
                            out
                        }) + text,
                        true,
                    ),
                }
            }
        }),
{
    reveal(style_inline_state);
    reveal(style_inline);
}

pub proof fn lemma_style_inline_unfold(nodes: Seq<Tree>)
    ensures
        style_inline(nodes) == ({
            trim_end(style_inline_state(nodes, nodes.len() as int).0)
        }),
{
    reveal(style_inline);
    reveal(style_inline_state);
}

pub proof fn lemma_selector_state_unfold(nodes: Seq<Tree>, k: int)
    ensures
        selector_state(nodes, k) == ({
            if k <= 0 || k > nodes.len() {
                seq![]
            } else {
                let out = selector_state(nodes, k - 1);
                match nodes[k - 1] {
                    Tree::Token { text, .. } => if text == [',']@ {
                        trim_spaces_end(out) + [',', ' ']@
                    } else if is_combinator(text) {
                        (if out.len() > 0 && out.last() != ' ' {
                            out.push(' ')
                        } else {
                            out
                        }) + text + seq![' ']
                    } else {
                        out + text
                    },
                    Tree::Group { open, close, nodes: inner, .. } => out.push(open) + selector_inline(inner)
                        + seq![close],
                    Tree::Comment { text, .. } => (if out.len() > 0 && out.last() == ' ' {
                        out
                    } else {
                        out.push(' ')
                    }) + text + seq![' '],
                }
            }
        }),
{
    reveal(selector_state);
    reveal(selector_inline);
}

pub proof fn lemma_selector_inline_unfold(nodes: Seq<Tree>)
    ensures
        selector_inline(nodes) == ({
            trim_end(selector_state(nodes, nodes.len() as int))
        }),
{
    reveal(selector_inline);
    reveal(selector_state);
}

pub proof fn lemma_style_statement_block_unfold(nodes: Seq<Tree>)
    ensures
        style_statement_block(nodes) == ({
            if nodes.len() == 0 {
                false
            } else {
                style_statement_block(nodes.subrange(0, nodes.len() - 1)) || match nodes[nodes.len() - 1] {
                    Tree::Group { open, nodes: inner, .. } => if open == '{' {
                        first_tok(inner, 0, [';']@) < inner.len()
                    } else {
                        style_statement_block(inner)
                    },
                    _ => false,
                }
            }
        }),
{
    reveal(style_statement_block);
}


pub proof fn lemma_fresh_style_insertion(nodes: Seq<Tree>, c: int, indent: nat, ctx: Ctx)
    ensures
        fresh_ask(style_insertion(nodes, c, indent, ctx), ctx),
{
    {
        match group_at(nodes, c + 1, '(') {
            None => {},
            Some(e) => { lemma_fresh_fmt_generic(e, sat_add(indent, 2), ctx); },
        }
    }
}

pub proof fn lemma_fresh_style_declaration(nodes: Seq<Tree>, c: int, indent: nat, ctx: Ctx)
    ensures
        fresh_ask(style_declaration(nodes, c, indent, ctx), ctx),
{
    {
        let semi = first_tok(nodes, c, [';']@);
        let colon = first_tok(nodes, c, [':']@);
        if semi >= nodes.len() {} else if colon >= semi {} else {
            let name = style_inline(nodes.subrange(c, colon));
            let value_nodes = nodes.subrange(colon + 1, semi);
            let value = if is_tok(value_nodes, 0, ['$']@) && value_nodes.len() == 2 && group_at(
                value_nodes,
                1,
                '(',
            ) is Some {
                let e = group_at(value_nodes, 1, '(')->0;
                let compact = inline_text(e);
                let expression = if !style_statement_block(e) && indent + byte_len(name) + byte_len(
                    compact,
                ) + 5 <= WIDTH {
                    Ok(compact)
                } else {
                    { lemma_fresh_fmt_generic(e, sat((indent + byte_len(name) + 4) as int), ctx); fmt_generic(e, sat((indent + byte_len(name) + 4) as int), ctx) }
                };
                match expression {
                    Err(s) => Err(s),
                    Ok(x) => Ok(['$', '(']@ + x + seq![')']),
                }
            } else {
                Ok(style_inline(value_nodes))
            };
        }
    }
}

pub proof fn lemma_fresh_style_rule(nodes: Seq<Tree>, c: int, indent: nat, ctx: Ctx)
    ensures
        fresh_ask(style_rule(nodes, c, indent, ctx), ctx),
    decreases nodes, 1int, 0int,
{
    lemma_style_rule_unfold(nodes, c, indent, ctx);
    {
        let body_at = first_group(nodes, c, '{');
        if c < 0 || c > nodes.len() || body_at >= nodes.len() {} else {
            {
                lemma_first_group(nodes, c, '{');
                crate::format::lemma_group_smaller(nodes, body_at, '{');
            }
            let selector = style_selector(nodes.subrange(c, body_at), indent);
            let body = group_at(nodes, body_at, '{')->0;
            if body.len() == 0 {} else {
                { lemma_fresh_style_rule_body(body, 0, sat_add(indent, 4), ctx, seq![], false); }
            }
        }
    }
}

pub proof fn lemma_fresh_style_rule_body(nodes: Seq<Tree>,
    c: int,
    indent: nat,
    ctx: Ctx,
    out: Seq<char>,
    after_rule: bool,)
    ensures
        fresh_ask(style_rule_body(nodes, c, indent, ctx, out, after_rule), ctx),
    decreases nodes, 2int, nodes.len() - c,
{
    lemma_style_rule_body_unfold(nodes, c, indent, ctx, out, after_rule);
    {
        if c < 0 || c >= nodes.len() {} else {
            let (comments, c1) = style_comments(nodes, c, indent, seq![]);
            if c1 >= nodes.len() {} else {
                let declaration = is_declaration_start(nodes, c1);
                let o = if out.len() > 0 {
                    if after_rule || !declaration {
                        out + ['\n', '\n']@
                    } else {
                        out.push('\n')
                    }
                } else {
                    out
                };
                let o = if comments.len() > 0 {
                    o + join(comments, seq!['\n']) + seq!['\n']
                } else {
                    o
                };
                let item = if declaration {
                    { lemma_fresh_style_declaration(nodes, c1, indent, ctx); style_declaration(nodes, c1, indent, ctx) }
                } else {
                    { lemma_fresh_style_rule(nodes, c1, indent, ctx); style_rule(nodes, c1, indent, ctx) }
                };
                match item {
                    Err(s) => {},
                    Ok((t, c2)) => if c2 <= c || c2 > nodes.len() {} else {
                        {
                            lemma_fresh_style_rule_body(nodes, c2, indent, ctx, o + t, !declaration);
                        }
                    },
                }
            }
        }
    }
}

pub proof fn lemma_fresh_style_items(nodes: Seq<Tree>,
    c: int,
    indent: nat,
    ctx: Ctx,
    chunks: Seq<Seq<char>>,)
    ensures
        fresh_ask(style_items(nodes, c, indent, ctx, chunks), ctx),
    decreases nodes.len() - c,
{
    lemma_style_items_unfold(nodes, c, indent, ctx, chunks);
    {
        if c < 0 || c >= nodes.len() {} else {
            let (comments, c1) = style_comments(nodes, c, indent, seq![]);
            if c1 >= nodes.len() {} else {
                let item = if is_tok(nodes, c1, ['$']@) {
                    { lemma_fresh_style_insertion(nodes, c1, indent, ctx); style_insertion(nodes, c1, indent, ctx) }
                } else {
                    { lemma_fresh_style_rule(nodes, c1, indent, ctx); style_rule(nodes, c1, indent, ctx) }
                };
                match item {
                    Err(s) => {},
                    Ok((t, c2)) => if c2 <= c || c2 > nodes.len() {} else {
                        {
                            lemma_fresh_style_items(nodes, c2, indent, ctx, chunks.push(join(comments.push(t), seq!['\n'])));
                        }
                    },
                }
            }
        }
    }
}

pub proof fn lemma_fresh_style_sheet(nodes: Seq<Tree>, indent: nat, computed: bool, ctx: Ctx)
    ensures
        fresh_ask(style_sheet(nodes, indent, computed, ctx), ctx),
{
    {
        let captured = computed && group_at(nodes, 0, '[') is Some;
        let first = if captured {
            seq![spaces(indent) + seq!['['] + selector_inline(group_at(nodes, 0, '[')->0) + seq![']']]
        } else {
            seq![]
        };
        { lemma_fresh_style_items(nodes, if captured { 1 } else { 0 }, indent, ctx, first); }
    }
}


pub proof fn lemma_offline_style_insertion(nodes: Seq<Tree>, c: int, indent: nat, ctx: Ctx)
    requires
        !ctx.rustfmt,
    ensures
        style_insertion(nodes, c, indent, ctx) == style_insertion(nodes, c, indent, offline()),
{
    {
        match group_at(nodes, c + 1, '(') {
            None => {},
            Some(e) => { lemma_offline_fmt_generic(e, sat_add(indent, 2), ctx); },
        }
    }
}

pub proof fn lemma_offline_style_declaration(nodes: Seq<Tree>, c: int, indent: nat, ctx: Ctx)
    requires
        !ctx.rustfmt,
    ensures
        style_declaration(nodes, c, indent, ctx) == style_declaration(nodes, c, indent, offline()),
{
    {
        let semi = first_tok(nodes, c, [';']@);
        let colon = first_tok(nodes, c, [':']@);
        if semi >= nodes.len() {} else if colon >= semi {} else {
            let name = style_inline(nodes.subrange(c, colon));
            let value_nodes = nodes.subrange(colon + 1, semi);
            let value = if is_tok(value_nodes, 0, ['$']@) && value_nodes.len() == 2 && group_at(
                value_nodes,
                1,
                '(',
            ) is Some {
                let e = group_at(value_nodes, 1, '(')->0;
                let compact = inline_text(e);
                let expression = if !style_statement_block(e) && indent + byte_len(name) + byte_len(
                    compact,
                ) + 5 <= WIDTH {
                    Ok(compact)
                } else {
                    { lemma_offline_fmt_generic(e, sat((indent + byte_len(name) + 4) as int), ctx); fmt_generic(e, sat((indent + byte_len(name) + 4) as int), ctx) }
                };
                match expression {
                    Err(s) => Err(s),
                    Ok(x) => Ok(['$', '(']@ + x + seq![')']),
                }
            } else {
                Ok(style_inline(value_nodes))
            };
        }
    }
}

pub proof fn lemma_offline_style_rule(nodes: Seq<Tree>, c: int, indent: nat, ctx: Ctx)
    requires
        !ctx.rustfmt,
    ensures
        style_rule(nodes, c, indent, ctx) == style_rule(nodes, c, indent, offline()),
    decreases nodes, 1int, 0int,
{
    lemma_style_rule_unfold(nodes, c, indent, ctx);
    lemma_style_rule_unfold(nodes, c, indent, offline());
    {
        let body_at = first_group(nodes, c, '{');
        if c < 0 || c > nodes.len() || body_at >= nodes.len() {} else {
            {
                lemma_first_group(nodes, c, '{');
                crate::format::lemma_group_smaller(nodes, body_at, '{');
            }
            let selector = style_selector(nodes.subrange(c, body_at), indent);
            let body = group_at(nodes, body_at, '{')->0;
            if body.len() == 0 {} else {
                { lemma_offline_style_rule_body(body, 0, sat_add(indent, 4), ctx, seq![], false); }
            }
        }
    }
}

pub proof fn lemma_offline_style_rule_body(nodes: Seq<Tree>,
    c: int,
    indent: nat,
    ctx: Ctx,
    out: Seq<char>,
    after_rule: bool,)
    requires
        !ctx.rustfmt,
    ensures
        style_rule_body(nodes, c, indent, ctx, out, after_rule) == style_rule_body(nodes, c, indent, offline(), out, after_rule),
    decreases nodes, 2int, nodes.len() - c,
{
    lemma_style_rule_body_unfold(nodes, c, indent, ctx, out, after_rule);
    lemma_style_rule_body_unfold(nodes, c, indent, offline(), out, after_rule);
    {
        if c < 0 || c >= nodes.len() {} else {
            let (comments, c1) = style_comments(nodes, c, indent, seq![]);
            if c1 >= nodes.len() {} else {
                let declaration = is_declaration_start(nodes, c1);
                let o = if out.len() > 0 {
                    if after_rule || !declaration {
                        out + ['\n', '\n']@
                    } else {
                        out.push('\n')
                    }
                } else {
                    out
                };
                let o = if comments.len() > 0 {
                    o + join(comments, seq!['\n']) + seq!['\n']
                } else {
                    o
                };
                let item = if declaration {
                    { lemma_offline_style_declaration(nodes, c1, indent, ctx); style_declaration(nodes, c1, indent, ctx) }
                } else {
                    { lemma_offline_style_rule(nodes, c1, indent, ctx); style_rule(nodes, c1, indent, ctx) }
                };
                match item {
                    Err(s) => {},
                    Ok((t, c2)) => if c2 <= c || c2 > nodes.len() {} else {
                        {
                            lemma_offline_style_rule_body(nodes, c2, indent, ctx, o + t, !declaration);
                        }
                    },
                }
            }
        }
    }
}

pub proof fn lemma_offline_style_items(nodes: Seq<Tree>,
    c: int,
    indent: nat,
    ctx: Ctx,
    chunks: Seq<Seq<char>>,)
    requires
        !ctx.rustfmt,
    ensures
        style_items(nodes, c, indent, ctx, chunks) == style_items(nodes, c, indent, offline(), chunks),
    decreases nodes.len() - c,
{
    lemma_style_items_unfold(nodes, c, indent, ctx, chunks);
    lemma_style_items_unfold(nodes, c, indent, offline(), chunks);
    {
        if c < 0 || c >= nodes.len() {} else {
            let (comments, c1) = style_comments(nodes, c, indent, seq![]);
            if c1 >= nodes.len() {} else {
                let item = if is_tok(nodes, c1, ['$']@) {
                    { lemma_offline_style_insertion(nodes, c1, indent, ctx); style_insertion(nodes, c1, indent, ctx) }
                } else {
                    { lemma_offline_style_rule(nodes, c1, indent, ctx); style_rule(nodes, c1, indent, ctx) }
                };
                match item {
                    Err(s) => {},
                    Ok((t, c2)) => if c2 <= c || c2 > nodes.len() {} else {
                        {
                            lemma_offline_style_items(nodes, c2, indent, ctx, chunks.push(join(comments.push(t), seq!['\n'])));
                        }
                    },
                }
            }
        }
    }
}

pub proof fn lemma_offline_style_sheet(nodes: Seq<Tree>, indent: nat, computed: bool, ctx: Ctx)
    requires
        !ctx.rustfmt,
    ensures
        style_sheet(nodes, indent, computed, ctx) == style_sheet(nodes, indent, computed, offline()),
{
    {
        let captured = computed && group_at(nodes, 0, '[') is Some;
        let first = if captured {
            seq![spaces(indent) + seq!['['] + selector_inline(group_at(nodes, 0, '[')->0) + seq![']']]
        } else {
            seq![]
        };
        { lemma_offline_style_items(nodes, if captured { 1 } else { 0 }, indent, ctx, first); }
    }
}

// ---------------------------------------------------------------------------
// The executable layout of style sheets.
// ---------------------------------------------------------------------------

fn style_word(t: &[char]) -> (b: bool)
    ensures
        b == is_word_token(t@),
{
    t.len() > 0 && (is_ident_start(t[0]) || ascii_digit(t[0]) || t[0] == '"')
}

fn unit_number_exec(t: &[char], unit: [char; 2]) -> (b: bool)
    ensures
        b == unit_number(t@, unit@),
{
    let n = t.len();
    if n <= 2 {
        return false;
    }
    if t[n - 2] != unit[0] || t[n - 1] != unit[1] {
        proof {
            if t@.subrange(n - 2, n as int) == unit@ {
                assert(t@.subrange(n - 2, n as int)[0] == t@[n - 2]);
                assert(t@.subrange(n - 2, n as int)[1] == t@[n - 1]);
            }
        }
        return false;
    }
    assert(t@.subrange(n - 2, n as int) =~= unit@);
    let mut i: usize = 0;
    while i < n - 2
        invariant
            n == t@.len(),
            n > 2,
            i <= n - 2,
            forall|j: int| 0 <= j < i ==> (is_ascii_digit(#[trigger] t@[j]) || t@[j] == '.' || t@[j] == '_'),
        decreases n - 2 - i,
    {
        if !(ascii_digit(t[i]) || t[i] == '.' || t[i] == '_') {
            return false;
        }
        i = i + 1;
    }
    true
}

/// Appends a value token as written out, its unit set off from the number.
fn push_style_token(out: &mut Vec<char>, t: &[char])
    ensures
        final(out)@ == old(out)@ + style_token_text(t@),
{
    let n = t.len();
    if unit_number_exec(t, ['p', 'x']) {
        push_all(out, &t[0..n - 2]);
        push_word(out, [' ', 'p', 'x']);
        assert(final(out)@ =~= old(out)@ + (t@.subrange(0, n - 2) + [' ', 'p', 'x']@));
    } else if unit_number_exec(t, ['e', 'm']) {
        push_all(out, &t[0..n - 2]);
        push_word(out, [' ', 'e', 'm']);
        assert(final(out)@ =~= old(out)@ + (t@.subrange(0, n - 2) + [' ', 'e', 'm']@));
    } else {
        push_all(out, t);
    }
}

/// A style value or property name on one line.
pub fn style_inline_exec(nodes: &[Node]) -> (r: Vec<char>)
    ensures
        r@ == style_inline(view_nodes(nodes@)),
    decreases nodes@,
{
    proof {
        lemma_view_nodes_at(nodes@, 0);
    }
    let ghost v = view_nodes(nodes@);
    let mut out: Vec<char> = Vec::new();
    let mut prev = false;
    let n = nodes.len();
    let mut k: usize = 0;
    proof {
        lemma_style_inline_state_unfold(v, 0);
    }
    while k < n
        invariant
            n == nodes@.len(),
            v == view_nodes(nodes@),
            v.len() == n,
            k <= n,
            (out@, prev) == style_inline_state(v, k as int),
        decreases n - k,
    {
        proof {
            lemma_view_nodes_at(nodes@, k as int);
            lemma_style_inline_state_unfold(v, k + 1);
        }
        let ghost out0 = out@;
        match &nodes[k] {
            Node::Token { text, .. } => {
                if word_is(text.as_slice(), [',']) {
                    pop_spaces(&mut out);
                    out.push(',');
                    out.push(' ');
                    prev = false;
                    assert(out@ =~= trim_spaces_end(out0) + [',', ' ']@);
                } else {
                    let w = style_word(text.as_slice());
                    if prev && w {
                        out.push(' ');
                    }
                    push_style_token(&mut out, text.as_slice());
                    prev = w;
                }
            },
            Node::Group { open, close, nodes: inner, .. } => {
                assert(decreases_to!(nodes@ => inner@));
                if prev {
                    out.push(' ');
                }
                out.push(*open);
                let ghost o1 = out@;
                let t = style_inline_exec(inner.as_slice());
                push_all(&mut out, t.as_slice());
                out.push(*close);
                assert(out@ =~= o1 + t@ + seq![*close]);
                prev = true;
            },
            Node::Comment { text, .. } => {
                if prev {
                    out.push(' ');
                }
                push_all(&mut out, text.as_slice());
                prev = true;
            },
        }
        k = k + 1;
    }
    proof {
        lemma_style_inline_unfold(v);
    }
    trim_end_of(out.as_slice())
}

/// A selector on one line.
pub fn selector_inline_exec(nodes: &[Node]) -> (r: Vec<char>)
    ensures
        r@ == selector_inline(view_nodes(nodes@)),
    decreases nodes@,
{
    proof {
        lemma_view_nodes_at(nodes@, 0);
    }
    let ghost v = view_nodes(nodes@);
    let mut out: Vec<char> = Vec::new();
    let n = nodes.len();
    let mut k: usize = 0;
    proof {
        lemma_selector_state_unfold(v, 0);
    }
    while k < n
        invariant
            n == nodes@.len(),
            v == view_nodes(nodes@),
            v.len() == n,
            k <= n,
            out@ == selector_state(v, k as int),
        decreases n - k,
    {
        proof {
            lemma_view_nodes_at(nodes@, k as int);
            lemma_selector_state_unfold(v, k + 1);
        }
        let ghost out0 = out@;
        match &nodes[k] {
            Node::Token { text, .. } => {
                if word_is(text.as_slice(), [',']) {
                    pop_spaces(&mut out);
                    out.push(',');
                    out.push(' ');
                    assert(out@ =~= trim_spaces_end(out0) + [',', ' ']@);
                } else if word_is(text.as_slice(), ['>']) || word_is(text.as_slice(), ['>', '>'])
                    || word_is(text.as_slice(), ['+']) || word_is(text.as_slice(), ['~']) {
                    let m = out.len();
                    if m > 0 && out[m - 1] != ' ' {
                        out.push(' ');
                    }
                    let ghost o1 = out@;
                    push_all(&mut out, text.as_slice());
                    out.push(' ');
                    assert(out@ =~= o1 + text@ + seq![' ']);
                } else {
                    push_all(&mut out, text.as_slice());
                }
            },
            Node::Group { open, close, nodes: inner, .. } => {
                assert(decreases_to!(nodes@ => inner@));
                out.push(*open);
                let ghost o1 = out@;
                let t = selector_inline_exec(inner.as_slice());
                push_all(&mut out, t.as_slice());
                out.push(*close);
                assert(out@ =~= o1 + t@ + seq![*close]);
            },
            Node::Comment { text, .. } => {
                let m = out.len();
                if !(m > 0 && out[m - 1] == ' ') {
                    out.push(' ');
                }
                let ghost o1 = out@;
                push_all(&mut out, text.as_slice());
                out.push(' ');
                assert(out@ =~= o1 + text@ + seq![' ']);
            },
        }
        k = k + 1;
    }
    proof {
        lemma_selector_inline_unfold(v);
    }
    trim_end_of(out.as_slice())
}

/// A selector at `indent`, broken at its commas when it does not fit.
fn style_selector_exec(nodes: &[Node], indent: usize) -> (r: Vec<char>)
    ensures
        r@ == style_selector(view_nodes(nodes@), indent as nat),
{
    proof {
        lemma_view_nodes_at(nodes@, 0);
    }
    let ghost v = view_nodes(nodes@);
    let sel = selector_inline_exec(nodes);
    let parts = split_commas_exec(nodes);
    let ghost sp = split_commas(v);
    if indent.saturating_add(crate::text::utf8_len(sel.as_slice())) <= WIDTH || parts.len() == 1 {
        return sel;
    }
    let ghost want = Seq::new(sp.len(), |k: int| selector_part(v, sp, k, indent as nat));
    let mut lines: Vec<Vec<char>> = Vec::new();
    let mut k: usize = 0;
    while k < parts.len()
        invariant
            v == view_nodes(nodes@),
            v.len() == nodes@.len(),
            sp == split_commas(v),
            parts@.len() == sp.len(),
            parts_ok(v, sp),
            forall|j: int|
                0 <= j < parts@.len() ==> (parts@[j].0 as int, parts@[j].1 as int) == #[trigger] sp[j],
            want == Seq::new(sp.len(), |k: int| selector_part(v, sp, k, indent as nat)),
            k <= parts@.len(),
            texts(lines@) == want.take(k as int),
        decreases parts@.len() - k,
    {
        let (a, b) = parts[k];
        assert(sp[k as int] == (a as int, b as int));
        let mut line: Vec<char> = if k == 0 {
            Vec::new()
        } else {
            make_spaces(indent)
        };
        proof {
            lemma_view_nodes_subrange(nodes@, a as int, b as int);
        }
        let part = selector_inline_exec(&nodes[a..b]);
        push_all(&mut line, part.as_slice());
        if k + 1 < parts.len() {
            line.push(',');
        }
        assert(line@ =~= selector_part(v, sp, k as int, indent as nat));
        let ghost before = lines@;
        lines.push(line);
        assert(want.take(k + 1) =~= want.take(k as int).push(want[k as int]));
        assert(texts(lines@) =~= texts(before).push(line@));
        assert(texts(lines@) =~= want.take(k + 1));
        k = k + 1;
    }
    assert(want.take(parts@.len() as int) =~= want);
    let mut nl: Vec<char> = Vec::new();
    nl.push('\n');
    join_exec(&lines, nl.as_slice())
}

proof fn lemma_statement_block_prefix(v: Seq<Tree>, j: int)
    requires
        0 <= j <= v.len(),
    ensures
        style_statement_block(v.subrange(0, j)) ==> style_statement_block(v),
    decreases v.len() - j,
{
    if j < v.len() {
        lemma_prefix_step(v, j);
        lemma_style_statement_block_unfold(v.subrange(0, j + 1));
        lemma_statement_block_prefix(v, j + 1);
    } else {
        assert(v.subrange(0, j) =~= v);
    }
}

/// Whether a brace group with a `;` directly in it occurs in the nodes.
fn style_statement_block_exec(nodes: &[Node]) -> (b: bool)
    ensures
        b == style_statement_block(view_nodes(nodes@)),
    decreases nodes@,
{
    proof {
        lemma_view_nodes_at(nodes@, 0);
    }
    let ghost v = view_nodes(nodes@);
    let n = nodes.len();
    let mut k: usize = 0;
    proof {
        lemma_style_statement_block_unfold(v.subrange(0, 0));
    }
    while k < n
        invariant
            n == nodes@.len(),
            v == view_nodes(nodes@),
            v.len() == n,
            k <= n,
            !style_statement_block(v.subrange(0, k as int)),
        decreases n - k,
    {
        proof {
            lemma_view_nodes_at(nodes@, k as int);
            lemma_prefix_step(v, k as int);
            lemma_style_statement_block_unfold(v.subrange(0, k + 1));
            lemma_statement_block_prefix(v, k + 1);
        }
        match &nodes[k] {
            Node::Group { open, nodes: inner, .. } => {
                assert(decreases_to!(nodes@ => inner@));
                proof {
                    lemma_view_nodes_at(inner@, 0);
                }
                if *open == '{' {
                    if find_token(inner.as_slice(), 0, [';']) < inner.len() {
                        return true;
                    }
                } else if style_statement_block_exec(inner.as_slice()) {
                    return true;
                }
            },
            _ => {},
        }
        k = k + 1;
    }
    assert(v.subrange(0, n as int) =~= v);
    false
}

/// Appends the comment lines from `c` on, each at `indent`; the index after them.
fn style_comments_exec(nodes: &[Node], c: usize, indent: usize, lines: &mut Vec<Vec<char>>) -> (r: usize)
    requires
        c <= nodes@.len(),
    ensures
        (texts(final(lines)@), r as int) == style_comments(
            view_nodes(nodes@),
            c as int,
            indent as nat,
            texts(old(lines)@),
        ),
        c <= r <= nodes@.len(),
{
    proof {
        lemma_view_nodes_at(nodes@, 0);
    }
    let ghost v = view_nodes(nodes@);
    let n = nodes.len();
    let mut k = c;
    while k < n
        invariant
            n == nodes@.len(),
            v == view_nodes(nodes@),
            v.len() == n,
            c <= k <= n,
            style_comments(v, k as int, indent as nat, texts(lines@)) == style_comments(
                v,
                c as int,
                indent as nat,
                texts(old(lines)@),
            ),
        decreases n - k,
    {
        proof {
            lemma_view_nodes_at(nodes@, k as int);
            lemma_style_comments_unfold(v, k as int, indent as nat, texts(lines@));
        }
        match &nodes[k] {
            Node::Comment { text, .. } => {
                let mut line = make_spaces(indent);
                push_all(&mut line, text.as_slice());
                let ghost before = lines@;
                lines.push(line);
                assert(texts(lines@) =~= texts(before).push(spaces(indent as nat) + text@));
            },
            _ => {
                return k;
            },
        }
        k = k + 1;
    }
    proof {
        lemma_style_comments_unfold(v, k as int, indent as nat, texts(lines@));
    }
    k
}

/// Whether the item at `c` is a declaration.
fn is_declaration_start_exec(nodes: &[Node], c: usize) -> (b: bool)
    ensures
        b == is_declaration_start(view_nodes(nodes@), c as int),
{
    proof {
        lemma_view_nodes_at(nodes@, 0);
    }
    let n = nodes.len();
    match token_at(nodes, c) {
        Some(t) => {
            if word_is(t.as_slice(), ['-']) {
                token_is(nodes, c + 1, ['-'])
            } else {
                t.len() > 0 && is_ident_start(t[0])
            }
        },
        None => false,
    }
}

/// A `$(..)` insertion at `c`, and the index after it.
fn style_insertion_exec(
    nodes: &[Node],
    c: usize,
    indent: usize,
    rustfmt: bool,
    answers: &RustfmtAnswers,
) -> (r: Result<(Vec<char>, usize), Halt>)
    requires
        c < nodes@.len(),
    ensures
        item_result(r) == style_insertion(view_nodes(nodes@), c as int, indent as nat, ctx_of(rustfmt, answers)),
{
    proof {
        lemma_view_nodes_at(nodes@, 0);
    }
    let n = nodes.len();
    match group_ref(nodes, c + 1, '(') {
        None => Err(fail_with(['e', 'x', 'p', 'e', 'c', 't', 'e', 'd', ' ', 'p', 'a', 'r', 'e', 'n', 't', 'h', 'e', 's', 'i', 'z', 'e', 'd', ' ', 'e', 'x', 'p', 'r', 'e', 's', 's', 'i', 'o', 'n', ' ', 'a', 'f', 't', 'e', 'r', ' ', '`', '$', '`', ' ', 'i', 'n', ' ', 's', 't', 'y', 'l', 'e', ' ', 's', 'h', 'e', 'e', 't'])),
        Some(e) => match format_generic(e.as_slice(), indent.saturating_add(2), rustfmt, answers) {
            Err(s) => Err(s),
            Ok(g) => {
                let mut out = make_spaces(indent);
                out.push('$');
                out.push('(');
                push_all(&mut out, g.as_slice());
                out.push(')');
                assert(out@ =~= spaces(indent as nat) + ['$', '(']@ + g@ + seq![')']);
                Ok((out, c + 2))
            },
        },
    }
}

/// A declaration at `c`, and the index after it.
fn style_declaration_exec(
    nodes: &[Node],
    c: usize,
    indent: usize,
    rustfmt: bool,
    answers: &RustfmtAnswers,
) -> (r: Result<(Vec<char>, usize), Halt>)
    requires
        c <= nodes@.len(),
    ensures
        item_result(r) == style_declaration(view_nodes(nodes@), c as int, indent as nat, ctx_of(rustfmt, answers)),
        r matches Ok((_, c2)) ==> c < c2 <= nodes@.len(),
{
    proof {
        lemma_view_nodes_at(nodes@, 0);
    }
    let ghost v = view_nodes(nodes@);
    let n = nodes.len();
    let semi = find_token(nodes, c, [';']);
    let colon = find_token(nodes, c, [':']);
    if semi >= n {
        return Err(fail_with(['e', 'x', 'p', 'e', 'c', 't', 'e', 'd', ' ', '`', ';', '`', ' ', 'a', 'f', 't', 'e', 'r', ' ', 's', 't', 'y', 'l', 'e', ' ', 'p', 'r', 'o', 'p', 'e', 'r', 't', 'y', ' ', 'v', 'a', 'l', 'u', 'e']));
    }
    if colon >= semi {
        return Err(fail_with(['e', 'x', 'p', 'e', 'c', 't', 'e', 'd', ' ', '`', ':', '`', ' ', 'a', 'f', 't', 'e', 'r', ' ', 's', 't', 'y', 'l', 'e', ' ', 'p', 'r', 'o', 'p', 'e', 'r', 't', 'y', ' ', 'n', 'a', 'm', 'e']));
    }
    proof {
        lemma_view_nodes_subrange(nodes@, c as int, colon as int);
        lemma_view_nodes_subrange(nodes@, colon + 1, semi as int);
    }
    let name = style_inline_exec(&nodes[c..colon]);
    let value_nodes = &nodes[colon + 1..semi];
    proof {
        lemma_view_nodes_at(value_nodes@, 0);
    }
    let mut value: Vec<char> = Vec::new();
    let inserted = token_is(value_nodes, 0, ['$']) && value_nodes.len() == 2;
    let group = if inserted {
        group_ref(value_nodes, 1, '(')
    } else {
        None
    };
    match group {
        Some(e) => {
            let compact = crate::format::inline(e.as_slice());
            let width = indent.saturating_add(crate::text::utf8_len(name.as_slice())).saturating_add(
                crate::text::utf8_len(compact.as_slice()),
            ).saturating_add(5);
            let expression = if !style_statement_block_exec(e.as_slice()) && width <= WIDTH {
                compact
            } else {
                let at = indent.saturating_add(crate::text::utf8_len(name.as_slice())).saturating_add(4);
                assert(at as nat == sat((indent + byte_len(name@) + 4) as int));
                match format_generic(e.as_slice(), at, rustfmt, answers) {
                    Err(s) => {
                        return Err(s);
                    },
                    Ok(x) => x,
                }
            };
            value.push('$');
            value.push('(');
            push_all(&mut value, expression.as_slice());
            value.push(')');
            assert(value@ =~= ['$', '(']@ + expression@ + seq![')']);
        },
        None => {
            value = style_inline_exec(value_nodes);
        },
    }
    let mut out = make_spaces(indent);
    push_all(&mut out, name.as_slice());
    out.push(':');
    out.push(' ');
    push_all(&mut out, value.as_slice());
    out.push(';');
    assert(out@ =~= spaces(indent as nat) + name@ + [':', ' ']@ + value@ + seq![';']);
    Ok((out, semi + 1))
}

/// A rule at `c`, and the index after it.
fn style_rule_exec(
    nodes: &[Node],
    c: usize,
    indent: usize,
    rustfmt: bool,
    answers: &RustfmtAnswers,
) -> (r: Result<(Vec<char>, usize), Halt>)
    requires
        c <= nodes@.len(),
    ensures
        item_result(r) == style_rule(view_nodes(nodes@), c as int, indent as nat, ctx_of(rustfmt, answers)),
        r matches Ok((_, c2)) ==> c < c2 <= nodes@.len(),
    decreases nodes@, 1int, 0int,
{
    proof {
        lemma_view_nodes_at(nodes@, 0);
        lemma_style_rule_unfold(view_nodes(nodes@), c as int, indent as nat, ctx_of(rustfmt, answers));
    }
    let n = nodes.len();
    let body_at = find_group(nodes, c, '{');
    proof {
        lemma_first_group(view_nodes(nodes@), c as int, '{');
    }
    if body_at >= n {
        return Err(fail_with(['e', 'x', 'p', 'e', 'c', 't', 'e', 'd', ' ', 'b', 'l', 'o', 'c', 'k', ' ', 'a', 'f', 't', 'e', 'r', ' ', 's', 't', 'y', 'l', 'e', ' ', 's', 'e', 'l', 'e', 'c', 't', 'o', 'r']));
    }
    proof {
        lemma_view_nodes_subrange(nodes@, c as int, body_at as int);
    }
    let selector = style_selector_exec(&nodes[c..body_at], indent);
    let body = match group_ref(nodes, body_at, '{') {
        Some(b) => b,
        None => {
            return Err(fail_with(['e', 'x', 'p', 'e', 'c', 't', 'e', 'd', ' ', 'b', 'l', 'o', 'c', 'k', ' ', 'a', 'f', 't', 'e', 'r', ' ', 's', 't', 'y', 'l', 'e', ' ', 's', 'e', 'l', 'e', 'c', 't', 'o', 'r']));
        },
    };
    proof {
        lemma_view_nodes_at(body@, 0);
    }
    let mut out = make_spaces(indent);
    push_all(&mut out, selector.as_slice());
    if body.len() == 0 {
        push_word(&mut out, [' ', '{', '}']);
        assert(out@ =~= spaces(indent as nat) + selector@ + [' ', '{', '}']@);
        return Ok((out, body_at + 1));
    }
    match style_rule_body_exec(body.as_slice(), indent.saturating_add(4), rustfmt, answers) {
        Err(s) => Err(s),
        Ok(b) => {
            push_word(&mut out, [' ', '{', '\n']);
            push_all(&mut out, b.as_slice());
            out.push('\n');
            push_spaces(&mut out, indent);
            out.push('}');
            assert(out@ =~= spaces(indent as nat) + selector@ + [' ', '{', '\n']@ + b@ + seq!['\n']
                + spaces(indent as nat) + seq!['}']);
            Ok((out, body_at + 1))
        },
    }
}

/// The block of a rule.
fn style_rule_body_exec(nodes: &[Node], indent: usize, rustfmt: bool, answers: &RustfmtAnswers) -> (r:
    Result<Vec<char>, Halt>)
    ensures
        text_result(r) == style_rule_body(
            view_nodes(nodes@),
            0,
            indent as nat,
            ctx_of(rustfmt, answers),
            seq![],
            false,
        ),
    decreases nodes@, 2int, 0int,
{
    proof {
        lemma_view_nodes_at(nodes@, 0);
    }
    let ghost v = view_nodes(nodes@);
    let ghost ctx = ctx_of(rustfmt, answers);
    let n = nodes.len();
    let mut out: Vec<char> = Vec::new();
    let mut after_rule = false;
    let mut c: usize = 0;
    while c < n
        invariant
            n == nodes@.len(),
            v == view_nodes(nodes@),
            v.len() == n,
            ctx == ctx_of(rustfmt, answers),
            c <= n,
            style_rule_body(v, c as int, indent as nat, ctx, out@, after_rule) == style_rule_body(
                v,
                0,
                indent as nat,
                ctx,
                seq![],
                false,
            ),
        decreases n - c,
    {
        proof {
            lemma_style_rule_body_unfold(v, c as int, indent as nat, ctx, out@, after_rule);
        }
        let ghost out0 = out@;
        let mut comments: Vec<Vec<char>> = Vec::new();
        assert(texts(comments@) =~= Seq::<Seq<char>>::empty());
        let c1 = style_comments_exec(nodes, c, indent, &mut comments);
        let mut nl: Vec<char> = Vec::new();
        nl.push('\n');
        if c1 >= n {
            if out.len() > 0 {
                out.push('\n');
            }
            let ghost o1 = out@;
            let joined = join_exec(&comments, nl.as_slice());
            push_all(&mut out, joined.as_slice());
            assert(out@ =~= o1 + join(texts(comments@), seq!['\n']));
            return Ok(out);
        }
        let declaration = is_declaration_start_exec(nodes, c1);
        if out.len() > 0 {
            if after_rule || !declaration {
                out.push('\n');
                out.push('\n');
                assert(out@ =~= out0 + ['\n', '\n']@);
            } else {
                out.push('\n');
            }
        }
        if comments.len() > 0 {
            let ghost o1 = out@;
            let joined = join_exec(&comments, nl.as_slice());
            push_all(&mut out, joined.as_slice());
            out.push('\n');
            assert(out@ =~= o1 + join(texts(comments@), seq!['\n']) + seq!['\n']);
        }
        let item = if declaration {
            style_declaration_exec(nodes, c1, indent, rustfmt, answers)
        } else {
            style_rule_exec(nodes, c1, indent, rustfmt, answers)
        };
        match item {
            Err(s) => {
                return Err(s);
            },
            Ok((t, c2)) => {
                if c2 <= c || c2 > n {
                    return Err(fail_with(['e', 'x', 'p', 'e', 'c', 't', 'e', 'd', ' ', 'b', 'l', 'o', 'c', 'k', ' ', 'a', 'f', 't', 'e', 'r', ' ', 's', 't', 'y', 'l', 'e', ' ', 's', 'e', 'l', 'e', 'c', 't', 'o', 'r']));
                }
                let ghost o2 = out@;
                push_all(&mut out, t.as_slice());
                assert(out@ =~= o2 + t@);
                after_rule = !declaration;
                c = c2;
            },
        }
    }
    proof {
        lemma_style_rule_body_unfold(v, c as int, indent as nat, ctx, out@, after_rule);
    }
    Ok(out)
}

/// A style sheet laid out at `indent`.
pub fn format_style_sheet(
    nodes: &[Node],
    indent: usize,
    computed: bool,
    rustfmt: bool,
    answers: &RustfmtAnswers,
) -> (r: Result<Vec<char>, Halt>)
    ensures
        text_result(r) == style_sheet(view_nodes(nodes@), indent as nat, computed, ctx_of(rustfmt, answers)),
{
    proof {
        lemma_view_nodes_at(nodes@, 0);
    }
    let ghost v = view_nodes(nodes@);
    let ghost ctx = ctx_of(rustfmt, answers);
    let n = nodes.len();
    let mut chunks: Vec<Vec<char>> = Vec::new();
    let mut c: usize = 0;
    let captures = if computed {
        group_ref(nodes, 0, '[')
    } else {
        None
    };
    match captures {
        Some(caps) => {
            let mut first = make_spaces(indent);
            first.push('[');
            let inner = selector_inline_exec(caps.as_slice());
            push_all(&mut first, inner.as_slice());
            first.push(']');
            assert(first@ =~= spaces(indent as nat) + seq!['['] + inner@ + seq![']']);
            chunks.push(first);
            assert(texts(chunks@) =~= seq![first@]);
            c = 1;
        },
        None => {
            assert(texts(chunks@) =~= Seq::<Seq<char>>::empty());
        },
    }
    let ghost start = c as int;
    let ghost first = texts(chunks@);
    assert(first =~= (if computed && group_at(v, 0, '[') is Some {
        seq![spaces(indent as nat) + seq!['['] + selector_inline(group_at(v, 0, '[')->0) + seq![']']]
    } else {
        seq![]
    }));
    while c < n
        invariant
            n == nodes@.len(),
            v == view_nodes(nodes@),
            v.len() == n,
            ctx == ctx_of(rustfmt, answers),
            c <= n,
            style_sheet(v, indent as nat, computed, ctx) == match style_items(v, start, indent as nat, ctx, first) {
                Err(s) => Err(s),
                Ok(ch) => Ok(join(ch, ['\n', '\n']@)),
            },
            style_items(v, c as int, indent as nat, ctx, texts(chunks@)) == style_items(
                v,
                start,
                indent as nat,
                ctx,
                first,
            ),
        ensures
            c >= n,
            style_sheet(v, indent as nat, computed, ctx) == match style_items(v, start, indent as nat, ctx, first) {
                Err(s) => Err(s),
                Ok(ch) => Ok(join(ch, ['\n', '\n']@)),
            },
            style_items(v, c as int, indent as nat, ctx, texts(chunks@)) == style_items(
                v,
                start,
                indent as nat,
                ctx,
                first,
            ),
        decreases n - c,
    {
        proof {
            lemma_style_items_unfold(v, c as int, indent as nat, ctx, texts(chunks@));
        }
        let mut comments: Vec<Vec<char>> = Vec::new();
        assert(texts(comments@) =~= Seq::<Seq<char>>::empty());
        let c1 = style_comments_exec(nodes, c, indent, &mut comments);
        let mut nl: Vec<char> = Vec::new();
        nl.push('\n');
        if c1 >= n {
            if comments.len() > 0 {
                let joined = join_exec(&comments, nl.as_slice());
                let ghost before = chunks@;
                chunks.push(joined);
                assert(texts(chunks@) =~= texts(before).push(join(texts(comments@), seq!['\n'])));
            }
            c = n;
            proof {
                lemma_style_items_unfold(v, c as int, indent as nat, ctx, texts(chunks@));
            }
            break;
        }
        let item = if token_is(nodes, c1, ['$']) {
            style_insertion_exec(nodes, c1, indent, rustfmt, answers)
        } else {
            style_rule_exec(nodes, c1, indent, rustfmt, answers)
        };
        match item {
            Err(s) => {
                return Err(s);
            },
            Ok((t, c2)) => {
                if c2 <= c || c2 > n {
                    return Err(fail_with(['e', 'x', 'p', 'e', 'c', 't', 'e', 'd', ' ', 'b', 'l', 'o', 'c', 'k', ' ', 'a', 'f', 't', 'e', 'r', ' ', 's', 't', 'y', 'l', 'e', ' ', 's', 'e', 'l', 'e', 'c', 't', 'o', 'r']));
                }
                let ghost cm = texts(comments@);
                comments.push(t);
                assert(texts(comments@) =~= cm.push(t@));
                let joined = join_exec(&comments, nl.as_slice());
                let ghost before = chunks@;
                chunks.push(joined);
                assert(texts(chunks@) =~= texts(before).push(join(texts(comments@), seq!['\n'])));
                c = c2;
            },
        }
    }
    proof {
        lemma_style_items_unfold(v, c as int, indent as nat, ctx, texts(chunks@));
    }
    let sep: [char; 2] = ['\n', '\n'];
    assert(sep@ =~= ['\n', '\n']@);
    Ok(join_exec(&chunks, sep.as_slice()))
}

} // verus!
