//! Where the comments of a macro body go: every line of a comment, trimmed,
//! occurs in the text that the layout gives.
use vstd::prelude::*;

use crate::format::{
    append_pipe, append_token, block_scan, collect_postfix, comma_parts, comment_block, comment_lines,
    comments_then_item, element_captures, element_closure, element_props, first_group, first_tok,
    fmt_element, fmt_for, fmt_for_header, fmt_generic, fmt_if, fmt_item, fmt_layout, fmt_parens,
    fmt_rust_block, generic_parts, generic_tokens, group_at, inline_state, inline_text, is_tok,
    layout_call_at, layout_lines, lemma_block_scan_unfold, lemma_collect_postfix, lemma_comma_parts,
    lemma_comments_then_item_unfold, lemma_element_captures_unfold, lemma_element_closure_unfold,
    lemma_element_props_unfold, lemma_first_group, lemma_first_tok, lemma_fmt_element_unfold,
    lemma_fmt_for_header_unfold, lemma_fmt_for_unfold, lemma_fmt_generic_unfold, lemma_fmt_if_unfold,
    lemma_fmt_item_unfold, lemma_fmt_layout_unfold, lemma_fmt_parens_unfold, lemma_fmt_rust_block_unfold,
    lemma_generic_parts_unfold, lemma_generic_tokens_unfold, lemma_layout_lines_unfold,
    lemma_parens_parts_unfold, lines_block, needs_space_before_group, parens_parts, parts_ok,
    split_commas, strip_prefix, tok_at, Ctx, Stop,
};
use crate::lexer::Tree;
use crate::style::{
    lemma_selector_inline_unfold, lemma_selector_state_unfold, lemma_style_comments_unfold,
    lemma_style_inline_state_unfold, lemma_style_inline_unfold, lemma_style_items_unfold,
    lemma_style_rule_body_unfold, lemma_style_rule_unfold, selector_inline, selector_part, selector_state,
    style_comments, style_declaration, style_inline, style_inline_state, style_insertion, style_items,
    style_rule, style_rule_body, style_selector, style_sheet,
};
use crate::text::{first_of, lemma_first_of_bounds, lines, trim, trim_end, trim_spaces_end, trim_start};

verus! {

// ---------------------------------------------------------------------------
// Texts inside texts.
// ---------------------------------------------------------------------------

/// The `n` characters of `s` from `i`.
pub open spec fn sub_at(s: Seq<char>, i: int, n: int) -> Seq<char> {
    s.subrange(i, i + n)
}

/// Whether `x` occurs in `s`.
pub open spec fn occurs_in(x: Seq<char>, s: Seq<char>) -> bool {
    exists|i: int| 0 <= i && i + x.len() <= s.len() && #[trigger] sub_at(s, i, x.len() as int) == x
}

/// Whether `p` begins `t`.
pub open spec fn prefix_of(p: Seq<char>, t: Seq<char>) -> bool {
    p.len() <= t.len() && t.subrange(0, p.len() as int) == p
}

/// Whether `t` keeps `s` up to its trailing spaces.
pub open spec fn keeps(s: Seq<char>, t: Seq<char>) -> bool {
    prefix_of(trim_spaces_end(s), t)
}

/// A text that does not end with a space.
pub open spec fn solid(x: Seq<char>) -> bool {
    x.len() == 0 || x.last() != ' '
}

proof fn lemma_occurs_at(x: Seq<char>, s: Seq<char>, i: int)
    requires
        0 <= i,
        i + x.len() <= s.len(),
        s.subrange(i, i + x.len()) == x,
    ensures
        occurs_in(x, s),
{
    assert(sub_at(s, i, x.len() as int) == x);
}

proof fn lemma_occurs_self(x: Seq<char>)
    ensures
        occurs_in(x, x),
{
    assert(x.subrange(0, x.len() as int) =~= x);
    lemma_occurs_at(x, x, 0);
}

proof fn lemma_occurs_concat(x: Seq<char>, a: Seq<char>, b: Seq<char>)
    ensures
        occurs_in(x, a) ==> occurs_in(x, a + b),
        occurs_in(x, b) ==> occurs_in(x, a + b),
{
    if occurs_in(x, a) {
        let i = choose|i: int| 0 <= i && i + x.len() <= a.len() && #[trigger] sub_at(a, i, x.len() as int) == x;
        assert((a + b).subrange(i, i + x.len()) =~= a.subrange(i, i + x.len()));
        lemma_occurs_at(x, a + b, i);
    }
    if occurs_in(x, b) {
        let i = choose|i: int| 0 <= i && i + x.len() <= b.len() && #[trigger] sub_at(b, i, x.len() as int) == x;
        assert((a + b).subrange(a.len() + i, a.len() + i + x.len()) =~= b.subrange(i, i + x.len()));
        lemma_occurs_at(x, a + b, a.len() + i);
    }
}

proof fn lemma_occurs_trans(x: Seq<char>, y: Seq<char>, z: Seq<char>)
    requires
        occurs_in(x, y),
        occurs_in(y, z),
    ensures
        occurs_in(x, z),
{
    let i = choose|i: int| 0 <= i && i + x.len() <= y.len() && #[trigger] sub_at(y, i, x.len() as int) == x;
    let j = choose|j: int| 0 <= j && j + y.len() <= z.len() && #[trigger] sub_at(z, j, y.len() as int) == y;
    assert(z.subrange(j + i, j + i + x.len()) =~= y.subrange(i, i + x.len()));
    lemma_occurs_at(x, z, j + i);
}

proof fn lemma_occurs_sub(s: Seq<char>, a: int, b: int)
    requires
        0 <= a <= b <= s.len(),
    ensures
        occurs_in(s.subrange(a, b), s),
{
    lemma_occurs_at(s.subrange(a, b), s, a);
}

proof fn lemma_trim_end_sub(s: Seq<char>)
    ensures
        trim_end(s).len() <= s.len(),
        trim_end(s) == s.subrange(0, trim_end(s).len() as int),
        trim_end(s).len() > 0 ==> !crate::text::unicode_whitespace(trim_end(s).last()),
        forall|j: int| trim_end(s).len() <= j < s.len() ==> crate::text::unicode_whitespace(#[trigger] s[j]),
    decreases s.len(),
{
    if s.len() > 0 && crate::text::unicode_whitespace(s.last()) {
        lemma_trim_end_sub(s.drop_last());
        assert(trim_end(s.drop_last()) =~= s.subrange(0, trim_end(s.drop_last()).len() as int));
        assert forall|j: int| trim_end(s).len() <= j < s.len() implies crate::text::unicode_whitespace(#[trigger] s[j]) by {
            if j < s.len() - 1 {
                assert(s.drop_last()[j] == s[j]);
            }
        }
    } else {
        assert(s.subrange(0, s.len() as int) =~= s);
    }
}

proof fn lemma_trim_start_sub(s: Seq<char>)
    ensures
        trim_start(s).len() <= s.len(),
        trim_start(s) == s.subrange(s.len() - trim_start(s).len(), s.len() as int),
    decreases s.len(),
{
    if s.len() > 0 && crate::text::unicode_whitespace(s[0]) {
        lemma_trim_start_sub(s.drop_first());
        let t = trim_start(s.drop_first());
        assert(t =~= s.subrange(s.len() - t.len(), s.len() as int));
    } else {
        assert(s.subrange(0, s.len() as int) =~= s);
    }
}

proof fn lemma_trim_start_first(s: Seq<char>)
    ensures
        trim_start(s).len() > 0 ==> !crate::text::unicode_whitespace(trim_start(s)[0]),
    decreases s.len(),
{
    if s.len() > 0 && crate::text::unicode_whitespace(s[0]) {
        lemma_trim_start_first(s.drop_first());
    }
}

/// A trimmed text lies in the text and neither begins nor ends with a space.
proof fn lemma_trim_in(s: Seq<char>)
    ensures
        occurs_in(trim(s), s),
        solid(trim(s)),
        trim(s).len() > 0 ==> trim(s)[0] != ' ',
        trim(s).len() > 0 ==> !crate::text::unicode_whitespace(trim(s).last()),
{
    lemma_trim_start_first(trim_end(s));
    assert(crate::text::unicode_whitespace(' '));
    let e = trim_end(s);
    lemma_trim_end_sub(s);
    lemma_trim_start_sub(e);
    let t = trim_start(e);
    let a = e.len() - t.len();
    assert(s.subrange(a, e.len() as int) =~= e.subrange(a, e.len() as int));
    lemma_occurs_at(t, s, a);
    if t.len() > 0 {
        assert(t.last() == e.last());
        assert(crate::text::unicode_whitespace(' '));
    }
}

/// Each line of a text lies in it.
proof fn lemma_lines_in(s: Seq<char>)
    ensures
        forall|k: int| 0 <= k < lines(s).len() ==> occurs_in(#[trigger] lines(s)[k], s),
    decreases s.len(),
{
    if s.len() > 0 {
        let n = first_of(s, 0, '\n');
        lemma_first_of_bounds(s, 0, '\n');
        if n == s.len() {
            lemma_occurs_self(s);
        } else {
            let rest = s.skip(n + 1);
            lemma_lines_in(rest);
            let line = s.take(n);
            let line = if line.len() > 0 && line.last() == '\r' {
                line.drop_last()
            } else {
                line
            };
            assert(lines(s) == seq![line] + lines(rest));
            assert forall|k: int| 0 <= k < lines(s).len() implies occurs_in(#[trigger] lines(s)[k], s) by {
                if k == 0 {
                    assert(line =~= s.subrange(0, line.len() as int));
                    lemma_occurs_sub(s, 0, line.len() as int);
                } else {
                    assert(lines(s)[k] == lines(rest)[k - 1]);
                    assert(rest =~= s.subrange(n + 1, s.len() as int));
                    lemma_occurs_sub(s, n + 1, s.len() as int);
                    lemma_occurs_trans(lines(rest)[k - 1], rest, s);
                }
            }
        }
    }
}

proof fn lemma_trim_spaces_end(s: Seq<char>)
    ensures
        trim_spaces_end(s).len() <= s.len(),
        trim_spaces_end(s) == s.subrange(0, trim_spaces_end(s).len() as int),
        solid(trim_spaces_end(s)),
        forall|j: int| trim_spaces_end(s).len() <= j < s.len() ==> s[j] == ' ',
    decreases s.len(),
{
    if s.len() > 0 && s.last() == ' ' {
        lemma_trim_spaces_end(s.drop_last());
        assert(trim_spaces_end(s.drop_last()) =~= s.subrange(0, trim_spaces_end(s.drop_last()).len() as int));
        assert forall|j: int| trim_spaces_end(s).len() <= j < s.len() implies s[j] == ' ' by {
            if j < s.len() - 1 {
                assert(s.drop_last()[j] == s[j]);
            }
        }
    } else {
        assert(s.subrange(0, s.len() as int) =~= s);
    }
}

/// A text that does not end with a space and occurs in `s` occurs in every
/// text that keeps `s`.
proof fn lemma_keeps_occurs(x: Seq<char>, s: Seq<char>, t: Seq<char>)
    requires
        occurs_in(x, s),
        solid(x),
        keeps(s, t),
    ensures
        occurs_in(x, t),
{
    if x.len() == 0 {
        assert(t.subrange(0, 0) =~= x);
        lemma_occurs_at(x, t, 0);
    } else {
        let i = choose|i: int| 0 <= i && i + x.len() <= s.len() && #[trigger] sub_at(s, i, x.len() as int) == x;
        lemma_trim_spaces_end(s);
        let k = trim_spaces_end(s).len() as int;
        assert(s[i + x.len() - 1] == x.last());
        assert(i + x.len() <= k);
        assert(t.subrange(0, k) == trim_spaces_end(s));
        assert(t.subrange(i, i + x.len()) =~= t.subrange(0, k).subrange(i, i + x.len()));
        assert(s.subrange(i, i + x.len()) =~= s.subrange(0, k).subrange(i, i + x.len()));
        lemma_occurs_at(x, t, i);
    }
}

/// A text that does not end with whitespace and occurs in `s` occurs in `s`
/// without its trailing whitespace.
proof fn lemma_trim_end_occurs(x: Seq<char>, s: Seq<char>)
    requires
        occurs_in(x, s),
        x.len() > 0 ==> !crate::text::unicode_whitespace(x.last()),
    ensures
        occurs_in(x, trim_end(s)),
{
    if x.len() == 0 {
        assert(trim_end(s).subrange(0, 0) =~= x);
        lemma_occurs_at(x, trim_end(s), 0);
    } else {
        let i = choose|i: int| 0 <= i && i + x.len() <= s.len() && #[trigger] sub_at(s, i, x.len() as int) == x;
        lemma_trim_end_sub(s);
        let k = trim_end(s).len() as int;
        assert(s[i + x.len() - 1] == x.last());
        assert(i + x.len() <= k);
        assert(trim_end(s).subrange(i, i + x.len()) =~= s.subrange(i, i + x.len()));
        lemma_occurs_at(x, trim_end(s), i);
    }
}

proof fn lemma_prefix_trans(a: Seq<char>, b: Seq<char>, c: Seq<char>)
    requires
        prefix_of(a, b),
        prefix_of(b, c),
    ensures
        prefix_of(a, c),
{
    assert(c.subrange(0, a.len() as int) =~= b.subrange(0, a.len() as int));
}

proof fn lemma_prefix_concat(a: Seq<char>, b: Seq<char>)
    ensures
        prefix_of(a, a + b),
{
    assert((a + b).subrange(0, a.len() as int) =~= a);
}

/// What keeps `s`: `s` itself with more after it, or `s` without its trailing
/// spaces with more after it.
proof fn lemma_keeps_extend(s: Seq<char>, r: Seq<char>)
    ensures
        keeps(s, s + r),
        keeps(s, trim_spaces_end(s) + r),
        keeps(s, s.push(' ') + r),
{
    lemma_trim_spaces_end(s);
    let t = trim_spaces_end(s);
    assert(s =~= t + s.subrange(t.len() as int, s.len() as int));
    lemma_prefix_concat(t, s.subrange(t.len() as int, s.len() as int) + r);
    assert(s + r =~= t + (s.subrange(t.len() as int, s.len() as int) + r));
    lemma_prefix_concat(t, r);
    assert(s.push(' ') + r =~= t + (s.subrange(t.len() as int, s.len() as int) + seq![' '] + r));
    lemma_prefix_concat(t, s.subrange(t.len() as int, s.len() as int) + seq![' '] + r);
}

proof fn lemma_trim_spaces_push(s: Seq<char>)
    ensures
        trim_spaces_end(s.push(' ')) == trim_spaces_end(s),
{
    assert(s.push(' ').drop_last() =~= s);
}

// ---------------------------------------------------------------------------
// Comments of a token tree.
// ---------------------------------------------------------------------------

/// Whether every line of the comment `text`, trimmed, occurs in `out`.
pub open spec fn comment_kept(text: Seq<char>, out: Seq<char>) -> bool {
    forall|k: int| 0 <= k < lines(text).len() ==> occurs_in(trim(#[trigger] lines(text)[k]), out)
}

/// Whether every comment in `t`, at any depth, is kept in `out`.
pub open spec fn tree_kept(t: Tree, out: Seq<char>) -> bool
    decreases t, 1int,
{
    match t {
        Tree::Comment { text, .. } => comment_kept(text, out),
        Tree::Group { nodes, .. } => nodes_kept(nodes, out),
        Tree::Token { .. } => true,
    }
}

/// Whether every comment in `nodes`, at any depth, is kept in `out`.
pub open spec fn nodes_kept(nodes: Seq<Tree>, out: Seq<char>) -> bool
    decreases nodes, 0int,
{
    if nodes.len() == 0 {
        true
    } else {
        nodes_kept(nodes.subrange(0, nodes.len() - 1), out) && tree_kept(nodes[nodes.len() - 1], out)
    }
}

proof fn lemma_comment_in(text: Seq<char>, out: Seq<char>)
    requires
        occurs_in(text, out),
    ensures
        comment_kept(text, out),
{
    lemma_lines_in(text);
    assert forall|k: int| 0 <= k < lines(text).len() implies occurs_in(trim(#[trigger] lines(text)[k]), out) by {
        lemma_trim_in(lines(text)[k]);
        lemma_occurs_trans(trim(lines(text)[k]), lines(text)[k], text);
        lemma_occurs_trans(trim(lines(text)[k]), text, out);
    }
}

/// What is kept in a text stays kept in any text in which that text occurs,
/// and in any text that keeps it.
proof fn lemma_tree_kept_moves(t: Tree, s: Seq<char>, u: Seq<char>)
    requires
        tree_kept(t, s),
        occurs_in(s, u) || keeps(s, u) || u == trim_end(s),
    ensures
        tree_kept(t, u),
    decreases t, 1int,
{
    match t {
        Tree::Comment { text, .. } => {
            assert forall|k: int| 0 <= k < lines(text).len() implies occurs_in(trim(#[trigger] lines(text)[k]), u) by {
                lemma_trim_in(lines(text)[k]);
                if occurs_in(s, u) {
                    lemma_occurs_trans(trim(lines(text)[k]), s, u);
                } else if keeps(s, u) {
                    lemma_keeps_occurs(trim(lines(text)[k]), s, u);
                } else {
                    lemma_trim_end_occurs(trim(lines(text)[k]), s);
                }
            }
        },
        Tree::Group { nodes, .. } => lemma_nodes_kept_moves(nodes, s, u),
        Tree::Token { .. } => {},
    }
}

proof fn lemma_nodes_kept_moves(nodes: Seq<Tree>, s: Seq<char>, u: Seq<char>)
    requires
        nodes_kept(nodes, s),
        occurs_in(s, u) || keeps(s, u) || u == trim_end(s),
    ensures
        nodes_kept(nodes, u),
    decreases nodes, 0int,
{
    if nodes.len() > 0 {
        lemma_nodes_kept_moves(nodes.subrange(0, nodes.len() - 1), s, u);
        lemma_tree_kept_moves(nodes[nodes.len() - 1], s, u);
    }
}

proof fn lemma_nodes_kept_push(nodes: Seq<Tree>, k: int, out: Seq<char>)
    requires
        0 < k <= nodes.len(),
    ensures
        nodes_kept(nodes.subrange(0, k), out) == (nodes_kept(nodes.subrange(0, k - 1), out) && tree_kept(
            nodes[k - 1],
            out,
        )),
{
    assert(nodes.subrange(0, k).subrange(0, k - 1) =~= nodes.subrange(0, k - 1));
}

// ---------------------------------------------------------------------------
// The inline rendering.
// ---------------------------------------------------------------------------

proof fn lemma_append_token_keeps(out: Seq<char>, t: Seq<char>)
    ensures
        keeps(out, append_token(out, t)),
{
    reveal(append_token);
    let operator = crate::format::is_operator(t);
    let pad = !crate::format::tight_before(t) && !(out.len() == 0 || crate::format::tight_after(out.last()))
        && (operator || (crate::format::is_word(t) && out.len() > 0 && crate::format::ends_value(out.last())));
    let o1 = if pad {
        out.push(' ')
    } else {
        out
    };
    lemma_trim_spaces_push(out);
    lemma_trim_spaces_end(out);
    let base = trim_spaces_end(out);
    assert(trim_spaces_end(o1) == base);
    lemma_trim_spaces_end(o1);
    let o2 = if operator {
        let trimmed = trim_spaces_end(o1);
        if trimmed.len() > 0 && trimmed.last() != '\n' {
            trimmed.push(' ')
        } else {
            trimmed
        }
    } else {
        o1
    };
    assert(prefix_of(base, o2)) by {
        if operator {
            lemma_prefix_concat(base, seq![' ']);
            assert(base.push(' ') =~= base + seq![' ']);
            assert(base =~= base + seq![]);
            lemma_prefix_concat(base, seq![]);
        } else {
            lemma_keeps_extend(out, seq![]);
            assert(out + seq![] =~= out);
            assert(out.push(' ') + seq![] =~= out.push(' '));
        }
    }
    let o3 = o2 + t;
    lemma_prefix_concat(o2, t);
    lemma_prefix_trans(base, o2, o3);
    lemma_prefix_concat(o3, seq![' ']);
    assert(o3.push(' ') =~= o3 + seq![' ']);
    if append_token(out, t) == o3.push(' ') {
        lemma_prefix_trans(base, o3, o3.push(' '));
    }
}

proof fn lemma_append_pipe_keeps(out: Seq<char>, open: bool)
    ensures
        keeps(out, append_pipe(out, open).0),
{
    reveal(append_pipe);
    if open {
        lemma_keeps_extend(out, seq!['|', ' ']);
        assert(trim_spaces_end(out).push('|').push(' ') =~= trim_spaces_end(out) + seq!['|', ' ']);
    } else {
        lemma_keeps_extend(out, seq!['|']);
        assert(out.push('|') =~= out + seq!['|']);
        assert(out.push(' ').push('|') =~= out.push(' ') + seq!['|']);
    }
}

proof fn lemma_inline_state_kept(nodes: Seq<Tree>, k: int)
    requires
        0 <= k <= nodes.len(),
    ensures
        nodes_kept(nodes.subrange(0, k), inline_state(nodes, k).0),
    decreases nodes, k,
{
    reveal(inline_state);
    reveal(inline_text);
    if k > 0 {
        lemma_inline_state_kept(nodes, k - 1);
        let (out, open) = inline_state(nodes, k - 1);
        let new = inline_state(nodes, k).0;
        lemma_nodes_kept_push(nodes, k, new);
        match nodes[k - 1] {
            Tree::Token { text, .. } => {
                if text == ['|']@ {
                    lemma_append_pipe_keeps(out, open);
                } else {
                    lemma_append_token_keeps(out, text);
                }
                lemma_nodes_kept_moves(nodes.subrange(0, k - 1), out, new);
            },
            Tree::Comment { text, .. } => {
                let o = if out.len() > 0 && out.last() != ' ' {
                    out.push(' ')
                } else {
                    out
                };
                assert(new == o + text);
                lemma_keeps_extend(out, text);
                lemma_nodes_kept_moves(nodes.subrange(0, k - 1), out, new);
                lemma_occurs_self(text);
                lemma_occurs_concat(text, o, text);
                lemma_comment_in(text, new);
            },
            Tree::Group { open: o, close, nodes: inner, .. } => {
                let a0 = if needs_space_before_group(out) && o == '{' {
                    out.push(' ')
                } else {
                    out
                };
                let a = a0.push(o);
                let a = if o == '{' && inner.len() > 0 {
                    a.push(' ')
                } else {
                    a
                };
                let it = inline_text(inner);
                let b = a + it;
                let b = if o == '{' && inner.len() > 0 {
                    b.push(' ')
                } else {
                    b
                };
                assert(inline_state(nodes, k) == (b.push(close), open));
                let r = new.subrange(a0.len() as int, new.len() as int);
                assert(new =~= a0 + r);
                lemma_keeps_extend(out, r);
                lemma_nodes_kept_moves(nodes.subrange(0, k - 1), out, new);
                lemma_inline_text_kept(inner);
                assert(new.subrange(a.len() as int, (a.len() + it.len()) as int) =~= it);
                lemma_occurs_at(it, new, a.len() as int);
                lemma_nodes_kept_moves(inner, it, new);
            },
        }
    }
}

/// Every comment of a token run, at any depth, is kept in its inline
/// rendering.
pub proof fn lemma_inline_text_kept(nodes: Seq<Tree>)
    ensures
        nodes_kept(nodes, inline_text(nodes)),
    decreases nodes, nodes.len() + 1,
{
    reveal(inline_text);
    reveal(inline_state);
    assert(nodes.subrange(0, nodes.len() as int) =~= nodes);
    lemma_inline_state_kept(nodes, nodes.len() as int);
}


// ---------------------------------------------------------------------------
// Ranges of nodes, lines and blocks.
// ---------------------------------------------------------------------------

/// Whether every comment in `nodes[a..b]`, at any depth, is kept in `out`.
pub open spec fn range_kept(nodes: Seq<Tree>, a: int, b: int, out: Seq<char>) -> bool {
    forall|i: int| a <= i < b ==> tree_kept(#[trigger] nodes[i], out)
}

proof fn lemma_kept_range(nodes: Seq<Tree>, out: Seq<char>)
    ensures
        nodes_kept(nodes, out) <==> range_kept(nodes, 0, nodes.len() as int, out),
    decreases nodes.len(),
{
    if nodes.len() > 0 {
        let p = nodes.subrange(0, nodes.len() - 1);
        lemma_kept_range(p, out);
        if nodes_kept(nodes, out) {
            assert forall|i: int| 0 <= i < nodes.len() implies tree_kept(#[trigger] nodes[i], out) by {
                if i < nodes.len() - 1 {
                    assert(p[i] == nodes[i]);
                }
            }
        }
        if range_kept(nodes, 0, nodes.len() as int, out) {
            assert forall|i: int| 0 <= i < p.len() implies tree_kept(#[trigger] p[i], out) by {
                assert(p[i] == nodes[i]);
            }
        }
    }
}

proof fn lemma_sub_kept(nodes: Seq<Tree>, a: int, b: int, out: Seq<char>)
    requires
        0 <= a <= b <= nodes.len(),
        nodes_kept(nodes.subrange(a, b), out),
    ensures
        range_kept(nodes, a, b, out),
{
    let sub = nodes.subrange(a, b);
    lemma_kept_range(sub, out);
    assert forall|i: int| a <= i < b implies tree_kept(#[trigger] nodes[i], out) by {
        assert(sub[i - a] == nodes[i]);
    }
}

proof fn lemma_range_moves(nodes: Seq<Tree>, a: int, b: int, s: Seq<char>, u: Seq<char>)
    requires
        range_kept(nodes, a, b, s),
        occurs_in(s, u) || keeps(s, u),
    ensures
        range_kept(nodes, a, b, u),
{
    assert forall|i: int| a <= i < b implies tree_kept(#[trigger] nodes[i], u) by {
        lemma_tree_kept_moves(nodes[i], s, u);
    }
}

proof fn lemma_prefix_occurs(p: Seq<char>, t: Seq<char>)
    requires
        prefix_of(p, t),
    ensures
        occurs_in(p, t),
{
    lemma_occurs_at(p, t, 0);
}

proof fn lemma_keeps_trans(a: Seq<char>, b: Seq<char>, c: Seq<char>)
    requires
        keeps(a, b),
        keeps(b, c) || prefix_of(b, c),
    ensures
        keeps(a, c),
{
    let ta = trim_spaces_end(a);
    lemma_trim_spaces_end(a);
    if prefix_of(b, c) {
        lemma_prefix_trans(ta, b, c);
    } else {
        lemma_trim_spaces_end(b);
        let tb = trim_spaces_end(b);
        if ta.len() > 0 {
            assert(b[ta.len() - 1] == ta.last());
        }
        assert(ta.len() <= tb.len());
        assert(tb.subrange(0, ta.len() as int) =~= b.subrange(0, ta.len() as int));
        lemma_prefix_trans(ta, tb, c);
    }
}

proof fn lemma_occurs_join(ls: Seq<Seq<char>>, sep: Seq<char>, j: int)
    requires
        0 <= j < ls.len(),
    ensures
        occurs_in(ls[j], crate::text::join(ls, sep)),
    decreases ls.len(),
{
    if ls.len() == 1 {
        lemma_occurs_self(ls[0]);
    } else {
        let p = ls.drop_last();
        if j == ls.len() - 1 {
            lemma_occurs_self(ls[j]);
            lemma_occurs_concat(ls[j], crate::text::join(p, sep) + sep, ls[j]);
        } else {
            lemma_occurs_join(p, sep, j);
            assert(p[j] == ls[j]);
            lemma_occurs_concat(ls[j], crate::text::join(p, sep), sep);
            lemma_occurs_concat(ls[j], crate::text::join(p, sep) + sep, ls.last());
        }
    }
}

/// Every line of every comment of the list is kept in its block.
proof fn lemma_comment_block_kept(comments: Seq<Seq<char>>, indent: nat)
    ensures
        forall|j: int| 0 <= j < comments.len() ==> comment_kept(#[trigger] comments[j], comment_block(comments, indent)),
    decreases comments.len(),
{
    reveal(comment_block);
    if comments.len() > 0 {
        let p = comments.drop_last();
        lemma_comment_block_kept(p, indent);
        let a = comment_block(p, indent);
        let last = comments.last();
        let lb = lines_block(lines(last), indent);
        assert(comment_block(comments, indent) == a + lb);
        lemma_lines_block_kept(lines(last), indent);
        assert forall|j: int| 0 <= j < comments.len() implies comment_kept(#[trigger] comments[j], a + lb) by {
            if j < p.len() {
                assert(comments[j] == p[j]);
                assert forall|k: int| 0 <= k < lines(comments[j]).len() implies occurs_in(trim(#[trigger] lines(comments[j])[k]), a + lb) by {
                    lemma_occurs_concat(trim(lines(comments[j])[k]), a, lb);
                }
            } else {
                assert forall|k: int| 0 <= k < lines(last).len() implies occurs_in(trim(#[trigger] lines(last)[k]), a + lb) by {
                    lemma_occurs_concat(trim(lines(last)[k]), a, lb);
                }
            }
        }
    }
}

proof fn lemma_lines_block_kept(ls: Seq<Seq<char>>, indent: nat)
    ensures
        forall|k: int| 0 <= k < ls.len() ==> occurs_in(trim(#[trigger] ls[k]), lines_block(ls, indent)),
    decreases ls.len(),
{
    reveal(lines_block);
    if ls.len() > 0 {
        let p = ls.drop_last();
        lemma_lines_block_kept(p, indent);
        let a = lines_block(p, indent);
        let x = trim(ls.last());
        assert(lines_block(ls, indent) == a + crate::text::spaces(indent) + x + seq!['\n']);
        assert forall|k: int| 0 <= k < ls.len() implies occurs_in(trim(#[trigger] ls[k]), lines_block(ls, indent)) by {
            let whole = lines_block(ls, indent);
            if k < p.len() {
                assert(ls[k] == p[k]);
                assert(whole =~= a + (crate::text::spaces(indent) + x + seq!['\n']));
                lemma_occurs_concat(trim(ls[k]), a, crate::text::spaces(indent) + x + seq!['\n']);
            } else {
                let start: int = (a.len() + indent) as int;
                assert(whole.subrange(start, start + x.len()) =~= x);
                lemma_occurs_at(x, whole, start);
            }
        }
    }
}

/// Every line of a comment, trimmed, occurs in its layout lines.
proof fn lemma_comment_lines_kept(text: Seq<char>, indent: nat, k: int)
    requires
        0 <= k < lines(text).len(),
    ensures
        occurs_in(trim(lines(text)[k]), comment_lines(text, indent)[k]),
        comment_lines(text, indent).len() == lines(text).len(),
{
    reveal(comment_lines);
    let x = trim(lines(text)[k]);
    lemma_occurs_self(x);
    lemma_occurs_concat(x, crate::text::spaces(indent), x);
}

/// What is kept in a text stays kept once leading spaces are cut off it.
proof fn lemma_tree_kept_strip(t: Tree, s: Seq<char>, n: nat)
    requires
        tree_kept(t, s),
    ensures
        tree_kept(t, strip_prefix(s, crate::text::spaces(n))),
    decreases t, 1int,
{
    match t {
        Tree::Comment { text, .. } => {
            let u = strip_prefix(s, crate::text::spaces(n));
            assert forall|k: int| 0 <= k < lines(text).len() implies occurs_in(trim(#[trigger] lines(text)[k]), u) by {
                let x = trim(lines(text)[k]);
                lemma_trim_in(lines(text)[k]);
                if u != s {
                    if x.len() == 0 {
                        assert(u.subrange(0, 0) =~= x);
                        lemma_occurs_at(x, u, 0);
                    } else {
                        let i = choose|i: int| 0 <= i && i + x.len() <= s.len() && #[trigger] sub_at(s, i, x.len() as int) == x;
                        assert(s[i] == x[0]);
                        if i < n {
                            assert(s.subrange(0, n as int)[i] == ' ');
                        }
                        assert(u.subrange(i - n, i - n + x.len()) =~= s.subrange(i, i + x.len()));
                        lemma_occurs_at(x, u, i - n);
                    }
                }
            }
        },
        Tree::Group { nodes, .. } => lemma_nodes_kept_strip(nodes, s, n),
        Tree::Token { .. } => {},
    }
}

proof fn lemma_nodes_kept_strip(nodes: Seq<Tree>, s: Seq<char>, n: nat)
    requires
        nodes_kept(nodes, s),
    ensures
        nodes_kept(nodes, strip_prefix(s, crate::text::spaces(n))),
    decreases nodes, 0int,
{
    if nodes.len() > 0 {
        lemma_nodes_kept_strip(nodes.subrange(0, nodes.len() - 1), s, n);
        lemma_tree_kept_strip(nodes[nodes.len() - 1], s, n);
    }
}

/// The comma parts keep the parts already found.
proof fn lemma_comma_prefix(nodes: Seq<Tree>, index: int, start: int, acc: Seq<(int, int)>)
    ensures
        comma_parts(nodes, index, start, acc).len() >= acc.len(),
        comma_parts(nodes, index, start, acc).subrange(0, acc.len() as int) == acc,
    decreases nodes.len() - index,
{
    reveal(comma_parts);
    let r = comma_parts(nodes, index, start, acc);
    if index < 0 || index >= nodes.len() {
        assert(r.subrange(0, acc.len() as int) =~= acc);
    } else if is_tok(nodes, index, [','] @) {
        let acc2 = acc.push((start, index));
        lemma_comma_prefix(nodes, index + 1, index + 1, acc2);
        assert(r.subrange(0, acc.len() as int) =~= acc2.subrange(0, acc.len() as int));
        assert(acc2.subrange(0, acc.len() as int) =~= acc);
    } else {
        lemma_comma_prefix(nodes, index + 1, start, acc);
    }
}

/// A non-comma node at `i` lies in one of the comma parts found from `index`.
proof fn lemma_comma_cover(nodes: Seq<Tree>, index: int, start: int, acc: Seq<(int, int)>, i: int) -> (k: int)
    requires
        0 <= start <= index <= nodes.len(),
        start <= i < nodes.len(),
        !is_tok(nodes, i, [','] @),
    ensures
        acc.len() <= k < comma_parts(nodes, index, start, acc).len(),
        comma_parts(nodes, index, start, acc)[k].0 <= i < comma_parts(nodes, index, start, acc)[k].1,
    decreases nodes.len() - index,
{
    reveal(comma_parts);
    let r = comma_parts(nodes, index, start, acc);
    if index >= nodes.len() {
        acc.len() as int
    } else if is_tok(nodes, index, [','] @) {
        let acc2 = acc.push((start, index));
        lemma_comma_prefix(nodes, index + 1, index + 1, acc2);
        if i < index {
            assert(r.subrange(0, acc2.len() as int)[acc.len() as int] == acc2[acc.len() as int]);
            acc.len() as int
        } else {
            lemma_comma_cover(nodes, index + 1, index + 1, acc2, i)
        }
    } else {
        lemma_comma_cover(nodes, index + 1, start, acc, i)
    }
}


// ---------------------------------------------------------------------------
// The layout without rustfmt.
// ---------------------------------------------------------------------------

proof fn lemma_keeps_self(s: Seq<char>)
    ensures
        keeps(s, s),
{
    lemma_keeps_extend(s, seq![]);
    assert(s + seq![] =~= s);
}

/// Nodes whose comma parts are all kept in `o` are kept in `o`.
proof fn lemma_cover_kept(nodes: Seq<Tree>, o: Seq<char>)
    requires
        forall|k: int|
            0 <= k < split_commas(nodes).len() ==> range_kept(
                nodes,
                #[trigger] split_commas(nodes)[k].0,
                split_commas(nodes)[k].1,
                o,
            ),
    ensures
        nodes_kept(nodes, o),
{
    let parts = split_commas(nodes);
    assert forall|i: int| 0 <= i < nodes.len() implies tree_kept(#[trigger] nodes[i], o) by {
        if !is_tok(nodes, i, [',']@) {
            let k = lemma_comma_cover(nodes, 0, 0, seq![], i);
            assert(range_kept(nodes, parts[k].0, parts[k].1, o));
        }
    }
    lemma_kept_range(nodes, o);
}

/// A token run laid out without rustfmt keeps every comment in it.
pub proof fn lemma_kept_fmt_generic(nodes: Seq<Tree>, indent: nat, ctx: Ctx)
    requires
        !ctx.rustfmt,
    ensures
        fmt_generic(nodes, indent, ctx) matches Ok(o) ==> nodes_kept(nodes, o),
    decreases nodes, 1int, 0int,
{
    lemma_fmt_generic_unfold(nodes, indent, ctx);
    let parts = split_commas(nodes);
    lemma_comma_parts(nodes, 0, 0, seq![]);
    if parts.len() > 1 {
        lemma_kept_generic_parts(nodes, parts, 0, indent, ctx, seq![]);
        match generic_parts(nodes, parts, 0, indent, ctx, seq![]) {
            Ok(texts) => {
                let sep = [',', '\n']@ + crate::text::spaces(indent);
                let out = crate::text::join(texts, sep);
                assert forall|i: int| 0 <= i < nodes.len() implies tree_kept(#[trigger] nodes[i], out) by {
                    if !is_tok(nodes, i, [',']@) {
                        let k = lemma_comma_cover(nodes, 0, 0, seq![], i);
                        assert(parts[k].0 < parts[k].1);
                        let j = choose|j: int|
                            0 <= j < texts.len() && range_kept(nodes, parts[k].0, parts[k].1, #[trigger] texts[j]);
                        lemma_occurs_join(texts, sep, j);
                        lemma_tree_kept_moves(nodes[i], texts[j], out);
                    }
                }
                lemma_kept_range(nodes, out);
            },
            _ => {},
        }
    } else {
        lemma_kept_generic_tokens(nodes, 0, indent, ctx, seq![], false);
        match generic_tokens(nodes, 0, indent, ctx, seq![], false) {
            Ok(r) => lemma_kept_range(nodes, r),
            _ => {},
        }
    }
}

proof fn lemma_kept_generic_parts(
    nodes: Seq<Tree>,
    parts: Seq<(int, int)>,
    k: int,
    indent: nat,
    ctx: Ctx,
    acc: Seq<Seq<char>>,
)
    requires
        !ctx.rustfmt,
        0 <= k,
    ensures
        generic_parts(nodes, parts, k, indent, ctx, acc) matches Ok(texts) ==> texts.len() >= acc.len()
            && texts.subrange(0, acc.len() as int) == acc && (parts_ok(nodes, parts) && parts.len() > 1
            ==> forall|k2: int|
            k <= k2 < parts.len() && #[trigger] parts[k2].0 < parts[k2].1 ==> exists|j: int|
                0 <= j < texts.len() && range_kept(nodes, parts[k2].0, parts[k2].1, #[trigger] texts[j])),
    decreases nodes, 0int, parts.len() - k,
{
    lemma_generic_parts_unfold(nodes, parts, k, indent, ctx, acc);
    if k < 0 || k >= parts.len() || !parts_ok(nodes, parts) || parts.len() <= 1 {
        assert(acc.subrange(0, acc.len() as int) =~= acc);
    } else {
        let (a, b) = parts[k];
        if a == b {
            lemma_kept_generic_parts(nodes, parts, k + 1, indent, ctx, acc);
        } else {
            lemma_kept_fmt_generic(nodes.subrange(a, b), indent, ctx);
            match fmt_generic(nodes.subrange(a, b), indent, ctx) {
                Ok(t) => {
                    lemma_sub_kept(nodes, a, b, t);
                    let acc2 = acc.push(t);
                    lemma_kept_generic_parts(nodes, parts, k + 1, indent, ctx, acc2);
                    match generic_parts(nodes, parts, k + 1, indent, ctx, acc2) {
                        Ok(texts) => {
                            assert(texts.subrange(0, acc.len() as int) =~= acc2.subrange(0, acc.len() as int));
                            assert(acc2.subrange(0, acc.len() as int) =~= acc);
                            assert(texts[acc.len() as int] == t) by {
                                assert(texts.subrange(0, acc2.len() as int)[acc.len() as int] == acc2[acc.len() as int]);
                            }
                            assert forall|k2: int| k <= k2 < parts.len() && #[trigger] parts[k2].0 < parts[k2].1 implies exists|j: int|
                                0 <= j < texts.len() && range_kept(nodes, parts[k2].0, parts[k2].1, #[trigger] texts[j]) by {
                                if k2 == k {
                                    assert(range_kept(nodes, parts[k2].0, parts[k2].1, texts[acc.len() as int]));
                                }
                            }
                        },
                        _ => {},
                    }
                },
                _ => {},
            }
        }
    }
}

proof fn lemma_kept_generic_tokens(
    nodes: Seq<Tree>,
    index: int,
    indent: nat,
    ctx: Ctx,
    out: Seq<char>,
    pipe: bool,
)
    requires
        !ctx.rustfmt,
        0 <= index,
    ensures
        generic_tokens(nodes, index, indent, ctx, out, pipe) matches Ok(r) ==> keeps(out, r) && range_kept(
            nodes,
            index,
            nodes.len() as int,
            r,
        ),
    decreases nodes, 0int, nodes.len() - index,
{
    lemma_generic_tokens_unfold(nodes, index, indent, ctx, out, pipe);
    if index >= nodes.len() {
        lemma_keeps_self(out);
    } else if layout_call_at(nodes, index) {
        match nodes[index + 2] {
            Tree::Group { open, close, nodes: body, .. } => {
                let o = append_token(append_token(out, ['l', 'a', 'y', 'o', 'u', 't']@), ['!']@);
                let o1 = if open == '{' {
                    o.push(' ')
                } else {
                    o
                };
                let o2 = o1.push(open).push('\n');
                let ind = crate::text::sat_add(indent, 4);
                lemma_kept_fmt_layout(body, ind, ctx);
                lemma_inline_text_kept(body);
                let inner = match fmt_layout(body, ind, ctx) {
                    Ok(t) => Ok(t),
                    Err(Stop::Fail(_)) => Ok(crate::text::spaces(ind) + inline_text(body)),
                    Err(Stop::Ask(w, n)) => Err(Stop::Ask(w, n)),
                };
                match inner {
                    Ok(t) => {
                        if fmt_layout(body, ind, ctx) is Err {
                            lemma_occurs_self(inline_text(body));
                            lemma_occurs_concat(inline_text(body), crate::text::spaces(ind), inline_text(body));
                            lemma_nodes_kept_moves(body, inline_text(body), t);
                        }
                        let out2 = o2 + t + seq!['\n'] + crate::text::spaces(indent) + seq![close];
                        lemma_kept_generic_tokens(nodes, index + 3, indent, ctx, out2, pipe);
                        match generic_tokens(nodes, index + 3, indent, ctx, out2, pipe) {
                            Ok(r) => {
                                let oa = append_token(out, ['l', 'a', 'y', 'o', 'u', 't']@);
                                lemma_append_token_keeps(out, ['l', 'a', 'y', 'o', 'u', 't']@);
                                lemma_append_token_keeps(oa, ['!']@);
                                lemma_keeps_trans(out, oa, o);
                                let rest = out2.subrange(o.len() as int, out2.len() as int);
                                assert(out2 =~= o + rest);
                                lemma_keeps_extend(o, rest);
                                lemma_keeps_trans(out, o, out2);
                                lemma_keeps_trans(out, out2, r);
                                assert(out2.subrange(o2.len() as int, (o2.len() + t.len()) as int) =~= t);
                                lemma_occurs_at(t, out2, o2.len() as int);
                                lemma_nodes_kept_moves(body, t, out2);
                                lemma_nodes_kept_moves(body, out2, r);
                                assert(tree_kept(nodes[index + 2], r));
                            },
                            _ => {},
                        }
                    },
                    _ => {},
                }
            },
            _ => {},
        }
    } else {
        match nodes[index] {
            Tree::Comment { text, .. } => {
                let o = if out.len() > 0 && out.last() != '\n' {
                    out.push('\n')
                } else {
                    out
                };
                let o2 = o + text;
                let o3 = if index + 1 < nodes.len() {
                    o2 + seq!['\n'] + crate::text::spaces(indent)
                } else {
                    o2
                };
                lemma_kept_generic_tokens(nodes, index + 1, indent, ctx, o3, pipe);
                match generic_tokens(nodes, index + 1, indent, ctx, o3, pipe) {
                    Ok(r) => {
                        let rest = o3.subrange(out.len() as int, o3.len() as int);
                        assert(o3 =~= out + rest);
                        lemma_keeps_extend(out, rest);
                        lemma_keeps_trans(out, o3, r);
                        assert(o3.subrange(o.len() as int, (o.len() + text.len()) as int) =~= text);
                        lemma_occurs_at(text, o3, o.len() as int);
                        lemma_comment_in(text, o3);
                        lemma_tree_kept_moves(nodes[index], o3, r);
                    },
                    _ => {},
                }
            },
            Tree::Group { open, close, nodes: inner, .. } => {
                if open == '{' && crate::format::has_top_level_statement(inner) {
                    let o = trim_spaces_end(out);
                    let o = if o.len() > 0 {
                        o.push(' ')
                    } else {
                        o
                    };
                    lemma_kept_fmt_rust_block(inner, indent, ctx);
                    match fmt_rust_block(inner, indent, ctx) {
                        Ok(b) => {
                            lemma_kept_generic_tokens(nodes, index + 1, indent, ctx, o + b, pipe);
                            match generic_tokens(nodes, index + 1, indent, ctx, o + b, pipe) {
                                Ok(r) => {
                                    let t = trim_spaces_end(out);
                                    let rest = (o + b).subrange(t.len() as int, (o + b).len() as int);
                                    assert(o + b =~= t + rest);
                                    lemma_keeps_extend(out, rest);
                                    lemma_keeps_trans(out, o + b, r);
                                    lemma_occurs_concat(b, o, b);
                                    lemma_occurs_self(b);
                                    lemma_nodes_kept_moves(inner, b, o + b);
                                    lemma_nodes_kept_moves(inner, o + b, r);
                                },
                                _ => {},
                            }
                        },
                        _ => {},
                    }
                } else {
                    lemma_kept_fmt_generic(inner, indent, ctx);
                    match fmt_generic(inner, indent, ctx) {
                        Ok(g) => {
                            let o = out.push(open) + g + seq![close];
                            lemma_kept_generic_tokens(nodes, index + 1, indent, ctx, o, pipe);
                            match generic_tokens(nodes, index + 1, indent, ctx, o, pipe) {
                                Ok(r) => {
                                    let rest = o.subrange(out.len() as int, o.len() as int);
                                    assert(o =~= out + rest);
                                    lemma_keeps_extend(out, rest);
                                    lemma_keeps_trans(out, o, r);
                                    assert(o.subrange((out.len() + 1) as int, (out.len() + 1 + g.len()) as int) =~= g);
                                    lemma_occurs_at(g, o, (out.len() + 1) as int);
                                    lemma_nodes_kept_moves(inner, g, o);
                                    lemma_nodes_kept_moves(inner, o, r);
                                },
                                _ => {},
                            }
                        },
                        _ => {},
                    }
                }
            },
            Tree::Token { text, .. } => {
                if text == ['|']@ {
                    let (o, p) = append_pipe(out, pipe);
                    lemma_kept_generic_tokens(nodes, index + 1, indent, ctx, o, p);
                    lemma_append_pipe_keeps(out, pipe);
                    match generic_tokens(nodes, index + 1, indent, ctx, o, p) {
                        Ok(r) => lemma_keeps_trans(out, o, r),
                        _ => {},
                    }
                } else {
                    let o = append_token(out, text);
                    lemma_kept_generic_tokens(nodes, index + 1, indent, ctx, o, pipe);
                    lemma_append_token_keeps(out, text);
                    match generic_tokens(nodes, index + 1, indent, ctx, o, pipe) {
                        Ok(r) => lemma_keeps_trans(out, o, r),
                        _ => {},
                    }
                }
            },
        }
    }
}

/// A brace block laid out without rustfmt keeps every comment in it.
pub proof fn lemma_kept_fmt_rust_block(nodes: Seq<Tree>, indent: nat, ctx: Ctx)
    requires
        !ctx.rustfmt,
    ensures
        fmt_rust_block(nodes, indent, ctx) matches Ok(o) ==> nodes_kept(nodes, o),
    decreases nodes, 3int, 0int,
{
    lemma_fmt_rust_block_unfold(nodes, indent, ctx);
    let child = crate::text::sat_add(indent, 4);
    lemma_kept_block_scan(nodes, 0, 0, child, ctx, ['{', '\n']@);
    match block_scan(nodes, 0, 0, child, ctx, ['{', '\n']@) {
        Ok(o) => {
            let r = o + crate::text::spaces(indent) + seq!['}'];
            assert(r =~= o + (crate::text::spaces(indent) + seq!['}']));
            lemma_prefix_concat(o, crate::text::spaces(indent) + seq!['}']);
            lemma_prefix_occurs(o, r);
            lemma_range_moves(nodes, 0, nodes.len() as int, o, r);
            lemma_kept_range(nodes, r);
        },
        _ => {},
    }
}

proof fn lemma_kept_block_scan(
    nodes: Seq<Tree>,
    index: int,
    start: int,
    child: nat,
    ctx: Ctx,
    out: Seq<char>,
)
    requires
        !ctx.rustfmt,
        0 <= start <= index,
    ensures
        block_scan(nodes, index, start, child, ctx, out) matches Ok(r) ==> prefix_of(out, r) && range_kept(
            nodes,
            start,
            nodes.len() as int,
            r,
        ),
    decreases nodes, 2int, nodes.len() - index,
{
    lemma_block_scan_unfold(nodes, index, start, child, ctx, out);
    if index >= nodes.len() {
        if start < nodes.len() {
            let sub = nodes.subrange(start, nodes.len() as int);
            if start == 0 {
                assert(sub =~= nodes);
            }
            lemma_kept_fmt_generic(sub, child, ctx);
            match fmt_generic(sub, child, ctx) {
                Ok(g) => {
                    let r = out + crate::text::spaces(child) + g + seq!['\n'];
                    assert(r =~= out + (crate::text::spaces(child) + g + seq!['\n']));
                    lemma_prefix_concat(out, crate::text::spaces(child) + g + seq!['\n']);
                    lemma_sub_kept(nodes, start, nodes.len() as int, g);
                    assert(r.subrange((out.len() + child) as int, (out.len() + child + g.len()) as int) =~= g);
                    lemma_occurs_at(g, r, (out.len() + child) as int);
                    lemma_range_moves(nodes, start, nodes.len() as int, g, r);
                },
                _ => {},
            }
        } else {
            lemma_prefix_concat(out, seq![]);
            assert(out + seq![] =~= out);
        }
    } else if is_tok(nodes, index, [';']@) {
        if start < index {
            let sub = nodes.subrange(start, index);
            lemma_kept_fmt_generic(sub, child, ctx);
            match fmt_generic(sub, child, ctx) {
                Ok(g) => {
                    let o = out + crate::text::spaces(child) + g + [';', '\n']@;
                    lemma_kept_block_scan(nodes, index + 1, index + 1, child, ctx, o);
                    match block_scan(nodes, index + 1, index + 1, child, ctx, o) {
                        Ok(r) => {
                            assert(o =~= out + (crate::text::spaces(child) + g + [';', '\n']@));
                            lemma_prefix_concat(out, crate::text::spaces(child) + g + [';', '\n']@);
                            lemma_prefix_trans(out, o, r);
                            lemma_sub_kept(nodes, start, index, g);
                            assert(o.subrange((out.len() + child) as int, (out.len() + child + g.len()) as int) =~= g);
                            lemma_occurs_at(g, o, (out.len() + child) as int);
                            lemma_range_moves(nodes, start, index, g, o);
                            lemma_prefix_occurs(o, r);
                            lemma_range_moves(nodes, start, index, o, r);
                        },
                        _ => {},
                    }
                },
                _ => {},
            }
        } else {
            lemma_kept_block_scan(nodes, index + 1, index + 1, child, ctx, out);
        }
    } else {
        lemma_kept_block_scan(nodes, index + 1, start, child, ctx, out);
    }
}

/// Parenthesized arguments laid out without rustfmt keep every comment in
/// them.
/// Parenthesized arguments laid out without rustfmt keep every comment in
/// them.
pub proof fn lemma_kept_fmt_parens(nodes: Seq<Tree>, indent: nat, prefix_len: nat, ctx: Ctx)
    requires
        !ctx.rustfmt,
    ensures
        fmt_parens(nodes, indent, prefix_len, ctx) matches Ok(o) ==> nodes_kept(nodes, o),
    decreases nodes, 3int, 0int,
{
    if nodes.len() == 0 {
        lemma_fmt_parens_unfold(nodes, indent, prefix_len, ctx);
    } else {
        let w = crate::text::sat_add(crate::text::sat_add(indent, prefix_len), 1);
        let child = crate::text::sat_add(indent, 4);
        let parts = split_commas(nodes);
        let g = fmt_generic(nodes, w, ctx);
        let pp = parens_parts(nodes, parts, 0, child, ctx, ['(', '\n']@);
        assert(fmt_parens(nodes, indent, prefix_len, ctx) is Err || (g is Ok && fmt_parens(
            nodes,
            indent,
            prefix_len,
            ctx,
        ) == Ok::<Seq<char>, Stop>(seq!['('] + g->Ok_0 + seq![')'])) || (pp is Ok && fmt_parens(
            nodes,
            indent,
            prefix_len,
            ctx,
        ) == Ok::<Seq<char>, Stop>(pp->Ok_0 + crate::text::spaces(indent) + seq![')']))) by {
            lemma_fmt_parens_unfold(nodes, indent, prefix_len, ctx);
        }
        lemma_kept_fmt_generic(nodes, w, ctx);
        if g is Ok {
            let compact = g->Ok_0;
            let one = seq!['('] + compact + seq![')'];
            lemma_occurs_self(compact);
            lemma_occurs_concat(compact, seq!['('], compact);
            lemma_occurs_concat(compact, seq!['('] + compact, seq![')']);
            lemma_nodes_kept_moves(nodes, compact, one);
        }
        lemma_kept_parens_cover(nodes, indent, child, ctx);
    }
}

proof fn lemma_kept_parens_cover(nodes: Seq<Tree>, indent: nat, child: nat, ctx: Ctx)
    requires
        !ctx.rustfmt,
    ensures
        parens_parts(nodes, split_commas(nodes), 0, child, ctx, ['(', '\n']@) matches Ok(o) ==> nodes_kept(
            nodes,
            o + crate::text::spaces(indent) + seq![')'],
        ),
    decreases nodes, 2int, split_commas(nodes).len() + 1,
{
    let parts = split_commas(nodes);
    lemma_comma_parts(nodes, 0, 0, seq![]);
    lemma_kept_parens_parts(nodes, parts, 0, child, ctx, ['(', '\n']@);
    match parens_parts(nodes, parts, 0, child, ctx, ['(', '\n']@) {
        Ok(o) => {
            let r = o + crate::text::spaces(indent) + seq![')'];
            assert(r =~= o + (crate::text::spaces(indent) + seq![')']));
            lemma_prefix_concat(o, crate::text::spaces(indent) + seq![')']);
            lemma_prefix_occurs(o, r);
            lemma_cover_kept(nodes, o);
            lemma_nodes_kept_moves(nodes, o, r);
        },
        _ => {},
    }
}

proof fn lemma_kept_parens_parts(
    nodes: Seq<Tree>,
    parts: Seq<(int, int)>,
    k: int,
    child: nat,
    ctx: Ctx,
    out: Seq<char>,
)
    requires
        !ctx.rustfmt,
        0 <= k,
        parts_ok(nodes, parts),
    ensures
        parens_parts(nodes, parts, k, child, ctx, out) matches Ok(r) ==> prefix_of(out, r) && forall|k2: int|
            k <= k2 < parts.len() ==> range_kept(nodes, #[trigger] parts[k2].0, parts[k2].1, r),
    decreases nodes, 2int, parts.len() - k,
{
    lemma_parens_parts_unfold(nodes, parts, k, child, ctx, out);
    if k >= parts.len() {
        lemma_prefix_concat(out, seq![]);
        assert(out + seq![] =~= out);
    } else {
        let (a, b) = parts[k];
        if a == b {
            lemma_kept_parens_parts(nodes, parts, k + 1, child, ctx, out);
        } else {
            let sub = nodes.subrange(a, b);
            if a == 0 && b == nodes.len() {
                assert(sub =~= nodes);
            }
            lemma_kept_fmt_generic(sub, child, ctx);
            match fmt_generic(sub, child, ctx) {
                Ok(g) => {
                    let o = out + crate::text::spaces(child) + g + [',', '\n']@;
                    lemma_kept_parens_parts(nodes, parts, k + 1, child, ctx, o);
                    match parens_parts(nodes, parts, k + 1, child, ctx, o) {
                        Ok(r) => {
                            assert(o =~= out + (crate::text::spaces(child) + g + [',', '\n']@));
                            lemma_prefix_concat(out, crate::text::spaces(child) + g + [',', '\n']@);
                            lemma_prefix_trans(out, o, r);
                            lemma_sub_kept(nodes, a, b, g);
                            assert(o.subrange((out.len() + child) as int, (out.len() + child + g.len()) as int) =~= g);
                            lemma_occurs_at(g, o, (out.len() + child) as int);
                            lemma_prefix_occurs(o, r);
                            lemma_occurs_trans(g, o, r);
                            lemma_range_moves(nodes, a, b, g, r);
                        },
                        _ => {},
                    }
                },
                _ => {},
            }
        }
    }
}

/// A `for` header laid out without rustfmt keeps every comment in it.
pub proof fn lemma_kept_fmt_for_header(nodes: Seq<Tree>, indent: nat, ctx: Ctx)
    requires
        !ctx.rustfmt,
    ensures
        fmt_for_header(nodes, indent, ctx) matches Ok(o) ==> nodes_kept(nodes, o),
    decreases nodes, 2int, 0int,
{
    lemma_fmt_for_header_unfold(nodes, indent, ctx);
    let in_lit = ['i', 'n']@;
    let where_lit = ['w', 'h', 'e', 'r', 'e']@;
    let in_at = first_tok(nodes, 0, in_lit);
    lemma_first_tok(nodes, 0, in_lit);
    lemma_first_tok(nodes, 0, where_lit);
    if in_at >= nodes.len() {
        lemma_kept_fmt_generic(nodes, indent, ctx);
    } else {
        let where_at = first_tok(nodes, 0, where_lit);
        let data_end0 = if where_at < nodes.len() {
            where_at
        } else {
            nodes.len() as int
        };
        let binding = inline_text(nodes.subrange(0, in_at));
        let data_end = if data_end0 < in_at + 1 {
            in_at + 1
        } else {
            data_end0
        };
        let dsub = nodes.subrange(in_at + 1, data_end);
        lemma_kept_fmt_generic(dsub, indent, ctx);
        lemma_inline_text_kept(nodes.subrange(0, in_at));
        lemma_sub_kept(nodes, 0, in_at, binding);
        match fmt_generic(dsub, indent, ctx) {
            Ok(data) => {
                lemma_sub_kept(nodes, in_at + 1, data_end, data);
                let header = binding + [' ', 'i', 'n', ' ']@ + data;
                lemma_occurs_self(binding);
                lemma_occurs_concat(binding, binding, [' ', 'i', 'n', ' ']@ + data);
                assert(header =~= binding + ([' ', 'i', 'n', ' ']@ + data));
                lemma_occurs_self(data);
                lemma_occurs_concat(data, binding + [' ', 'i', 'n', ' ']@, data);
                if where_at < nodes.len() {
                    let key_start = where_at + 1;
                    let eq = first_tok(nodes, key_start, ['=']@);
                    lemma_first_tok(nodes, key_start, ['=']@);
                    if eq < nodes.len() {
                        let key_name = inline_text(nodes.subrange(key_start, eq));
                        lemma_inline_text_kept(nodes.subrange(key_start, eq));
                        lemma_sub_kept(nodes, key_start, eq, key_name);
                        let ksub = nodes.subrange(eq + 1, nodes.len() as int);
                        lemma_kept_fmt_generic(ksub, indent, ctx);
                        match fmt_generic(ksub, indent, ctx) {
                            Ok(key) => {
                                lemma_sub_kept(nodes, eq + 1, nodes.len() as int, key);
                                let w = [' ', 'w', 'h', 'e', 'r', 'e', ' ']@;
                                let e3 = [' ', '=', ' ']@;
                                let r = header + w + key_name + e3 + key;
                                assert(r =~= header + (w + key_name + e3 + key));
                                lemma_occurs_concat(header, header, w + key_name + e3 + key);
                                lemma_occurs_self(header);
                                assert(r =~= (header + w) + key_name + (e3 + key));
                                lemma_occurs_self(key_name);
                                lemma_occurs_concat(key_name, header + w, key_name);
                                lemma_occurs_concat(key_name, header + w + key_name, e3 + key);
                                lemma_occurs_self(key);
                                lemma_occurs_concat(key, header + w + key_name + e3, key);
                                assert forall|i: int| 0 <= i < nodes.len() implies tree_kept(#[trigger] nodes[i], r) by {
                                    if i < in_at {
                                        lemma_tree_kept_moves(nodes[i], binding, header);
                                        lemma_tree_kept_moves(nodes[i], header, r);
                                    } else if in_at < i < data_end {
                                        lemma_tree_kept_moves(nodes[i], data, header);
                                        lemma_tree_kept_moves(nodes[i], header, r);
                                    } else if key_start <= i < eq {
                                        lemma_tree_kept_moves(nodes[i], key_name, r);
                                    } else if eq < i {
                                        lemma_tree_kept_moves(nodes[i], key, r);
                                    }
                                }
                                lemma_kept_range(nodes, r);
                            },
                            _ => {},
                        }
                    } else {
                        let ksub = nodes.subrange(key_start, nodes.len() as int);
                        lemma_kept_fmt_generic(ksub, indent, ctx);
                        match fmt_generic(ksub, indent, ctx) {
                            Ok(key) => {
                                lemma_sub_kept(nodes, key_start, nodes.len() as int, key);
                                let w = [' ', 'w', 'h', 'e', 'r', 'e', ' ']@;
                                let r = header + w + key;
                                assert(r =~= header + (w + key));
                                lemma_occurs_self(header);
                                lemma_occurs_concat(header, header, w + key);
                                lemma_occurs_self(key);
                                lemma_occurs_concat(key, header + w, key);
                                assert forall|i: int| 0 <= i < nodes.len() implies tree_kept(#[trigger] nodes[i], r) by {
                                    if i < in_at {
                                        lemma_tree_kept_moves(nodes[i], binding, header);
                                        lemma_tree_kept_moves(nodes[i], header, r);
                                    } else if in_at < i < data_end {
                                        lemma_tree_kept_moves(nodes[i], data, header);
                                        lemma_tree_kept_moves(nodes[i], header, r);
                                    } else if key_start <= i {
                                        lemma_tree_kept_moves(nodes[i], key, r);
                                    }
                                }
                                lemma_kept_range(nodes, r);
                            },
                            _ => {},
                        }
                    }
                } else {
                    assert forall|i: int| 0 <= i < nodes.len() implies tree_kept(#[trigger] nodes[i], header) by {
                        if i < in_at {
                            lemma_tree_kept_moves(nodes[i], binding, header);
                        } else if in_at < i {
                            lemma_tree_kept_moves(nodes[i], data, header);
                        }
                    }
                    lemma_kept_range(nodes, header);
                }
            },
            _ => {},
        }
    }
}

/// The comments that an element collects stay in its comment block, with
/// those it had before.
proof fn lemma_kept_collect(nodes: Seq<Tree>, cursor: int, comments: Seq<Seq<char>>, indent: nat)
    requires
        0 <= cursor <= nodes.len(),
    ensures
        ({
            let (cs, c2) = collect_postfix(nodes, cursor, comments);
            &&& cursor <= c2 <= nodes.len()
            &&& cs.len() >= comments.len()
            &&& forall|j: int| 0 <= j < comments.len() ==> #[trigger] cs[j] == comments[j]
            &&& range_kept(nodes, cursor, c2, comment_block(cs, indent))
            &&& forall|j: int| 0 <= j < cs.len() ==> comment_kept(#[trigger] cs[j], comment_block(cs, indent))
        }),
{
    lemma_collect_postfix(nodes, cursor, comments);
    let (cs, c2) = collect_postfix(nodes, cursor, comments);
    lemma_comment_block_kept(cs, indent);
    if c2 != cursor {
        assert forall|j: int| 0 <= j < comments.len() implies #[trigger] cs[j] == comments[j] by {
            assert(cs.subrange(0, comments.len() as int)[j] == cs[j]);
        }
        assert forall|i: int| cursor <= i < c2 implies tree_kept(#[trigger] nodes[i], comment_block(cs, indent)) by {
            assert(nodes[i] is Comment);
            assert(cs[comments.len() + i - cursor] == nodes[i]->Comment_text);
        }
    }
}

pub open spec fn element_kept(
    nodes: Seq<Tree>,
    c: int,
    prefix: Seq<char>,
    comments: Seq<Seq<char>>,
    r: Result<(Seq<char>, int), Stop>,
) -> bool {
    r matches Ok((text, ce)) ==> range_kept(nodes, c, ce, text) && occurs_in(prefix, text) && forall|j: int|
        0 <= j < comments.len() ==> comment_kept(#[trigger] comments[j], text)
}

proof fn lemma_comments_move(comments: Seq<Seq<char>>, s: Seq<char>, u: Seq<char>)
    requires
        forall|j: int| 0 <= j < comments.len() ==> comment_kept(#[trigger] comments[j], s),
        occurs_in(s, u) || keeps(s, u),
    ensures
        forall|j: int| 0 <= j < comments.len() ==> comment_kept(#[trigger] comments[j], u),
{
    assert forall|j: int| 0 <= j < comments.len() implies comment_kept(#[trigger] comments[j], u) by {
        lemma_tree_kept_moves(Tree::Comment { text: comments[j], start: 0 }, s, u);
    }
}

#[verifier::rlimit(60)]
proof fn lemma_kept_element_closure(
    nodes: Seq<Tree>,
    c: int,
    indent: nat,
    ctx: Ctx,
    prefix: Seq<char>,
    comments: Seq<Seq<char>>,
)
    requires
        !ctx.rustfmt,
        0 <= c <= nodes.len(),
    ensures
        element_kept(nodes, c, prefix, comments, element_closure(nodes, c, indent, ctx, prefix, comments)),
    decreases nodes, 3int, 0int,
{
    lemma_element_closure_unfold(nodes, c, indent, ctx, prefix, comments);
    let bar = ['|']@;
    let closure: Result<(Seq<char>, int), Stop> = if is_tok(nodes, c, bar) {
        let args_start = c + 1;
        let close = first_tok(nodes, args_start, bar);
        lemma_first_tok(nodes, args_start, bar);
        if close >= nodes.len() {
            Err(Stop::Fail(seq![]))
        } else {
            let p = prefix.push(' ').push('|');
            let sub = nodes.subrange(args_start, close);
            let w = crate::text::sat_add(indent, crate::text::byte_len(p));
            lemma_kept_fmt_generic(sub, w, ctx);
            match fmt_generic(sub, w, ctx) {
                Err(e) => Err(e),
                Ok(t) => {
                    let p2 = p + t + seq!['|'];
                    lemma_sub_kept(nodes, args_start, close, t);
                    assert(p2.subrange(p.len() as int, (p.len() + t.len()) as int) =~= t);
                    lemma_occurs_at(t, p2, p.len() as int);
                    lemma_range_moves(nodes, args_start, close, t, p2);
                    assert(p2.subrange(0, prefix.len() as int) =~= prefix);
                    lemma_occurs_at(prefix, p2, 0);
                    Ok((p2, close + 1))
                },
            }
        }
    } else {
        lemma_occurs_self(prefix);
        Ok((prefix, c))
    };
    match closure {
        Ok((prefix2, c1)) => {
            lemma_kept_collect(nodes, c1, comments, indent);
            let (cs, c2) = collect_postfix(nodes, c1, comments);
            let block = comment_block(cs, indent);
            let head = block + crate::text::spaces(indent) + prefix2;
            assert(head.subrange((block.len() + indent) as int, head.len() as int) =~= prefix2);
            lemma_occurs_at(prefix2, head, (block.len() + indent) as int);
            lemma_occurs_trans(prefix, prefix2, head);
            assert(head =~= block + (crate::text::spaces(indent) + prefix2));
            lemma_prefix_concat(block, crate::text::spaces(indent) + prefix2);
            lemma_prefix_occurs(block, head);
            lemma_range_moves(nodes, c1, c2, block, head);
            lemma_range_moves(nodes, c, c1, prefix2, head);
            assert forall|j: int| 0 <= j < comments.len() implies comment_kept(#[trigger] comments[j], head) by {
                assert(cs[j] == comments[j]);
                lemma_tree_kept_moves(Tree::Comment { text: cs[j], start: 0 }, block, head);
            }
            let ind = crate::text::sat_add(indent, 4);
            match group_at(nodes, c2, '{') {
                Some(children) => {
                    lemma_kept_fmt_layout(children, ind, ctx);
                    match fmt_layout(children, ind, ctx) {
                        Ok(t2) => {
                            let tail = [' ', '{', '\n']@ + t2 + seq!['\n'] + crate::text::spaces(indent) + seq!['}'];
                            let text = head + [' ', '{', '\n']@ + t2 + seq!['\n'] + crate::text::spaces(indent)
                                + seq!['}'];
                            assert(text =~= head + tail);
                            lemma_prefix_concat(head, tail);
                            lemma_prefix_occurs(head, text);
                            lemma_range_moves(nodes, c, c2, head, text);
                            lemma_occurs_trans(prefix, head, text);
                            lemma_comments_move(comments, head, text);
                            assert(text.subrange((head.len() + 3) as int, (head.len() + 3 + t2.len()) as int) =~= t2);
                            lemma_occurs_at(t2, text, (head.len() + 3) as int);
                            lemma_nodes_kept_moves(children, t2, text);
                            assert(tree_kept(nodes[c2], text));
                        },
                        _ => {},
                    }
                },
                None => {},
            }
        },
        _ => {},
    }
}

proof fn lemma_kept_element_captures(
    nodes: Seq<Tree>,
    c: int,
    indent: nat,
    ctx: Ctx,
    prefix: Seq<char>,
    comments: Seq<Seq<char>>,
)
    requires
        !ctx.rustfmt,
        0 <= c <= nodes.len(),
    ensures
        element_kept(nodes, c, prefix, comments, element_captures(nodes, c, indent, ctx, prefix, comments)),
    decreases nodes, 4int, 0int,
{
    lemma_element_captures_unfold(nodes, c, indent, ctx, prefix, comments);
    let captured: Result<(Seq<char>, int), Stop> = match group_at(nodes, c, '[') {
        Some(captures) => {
            let p = prefix.push(' ').push('[');
            let w = crate::text::sat_add(crate::text::sat_add(indent, crate::text::byte_len(p)), 1);
            lemma_kept_fmt_generic(captures, w, ctx);
            match fmt_generic(captures, w, ctx) {
                Err(e) => Err(e),
                Ok(t) => {
                    let p2 = p + t + seq![']'];
                    assert(p2.subrange(p.len() as int, (p.len() + t.len()) as int) =~= t);
                    lemma_occurs_at(t, p2, p.len() as int);
                    lemma_nodes_kept_moves(captures, t, p2);
                    assert(tree_kept(nodes[c], p2));
                    assert(p2.subrange(0, prefix.len() as int) =~= prefix);
                    lemma_occurs_at(prefix, p2, 0);
                    Ok((p2, c + 1))
                },
            }
        },
        None => {
            lemma_occurs_self(prefix);
            Ok((prefix, c))
        },
    };
    match captured {
        Ok((prefix2, c1)) => {
            lemma_kept_collect(nodes, c1, comments, indent);
            let (cs, c2) = collect_postfix(nodes, c1, comments);
            lemma_kept_element_closure(nodes, c2, indent, ctx, prefix2, cs);
            match element_closure(nodes, c2, indent, ctx, prefix2, cs) {
                Ok((text, ce)) => {
                    lemma_occurs_trans(prefix, prefix2, text);
                    lemma_range_moves(nodes, c, c1, prefix2, text);
                    assert forall|j: int| 0 <= j < comments.len() implies comment_kept(#[trigger] comments[j], text) by {
                        assert(cs[j] == comments[j]);
                    }
                    assert forall|i: int| c <= i < ce implies tree_kept(#[trigger] nodes[i], text) by {
                        if c1 <= i < c2 {
                            lemma_collect_postfix(nodes, c1, comments);
                            assert(nodes[i] is Comment);
                            let k = comments.len() + i - c1;
                            assert(cs[k] == nodes[i]->Comment_text);
                        }
                    }
                },
                _ => {},
            }
        },
        _ => {},
    }
}

proof fn lemma_kept_after_props(
    nodes: Seq<Tree>,
    c: int,
    c1: int,
    indent: nat,
    ctx: Ctx,
    prefix: Seq<char>,
    prefix2: Seq<char>,
    comments: Seq<Seq<char>>,
)
    requires
        !ctx.rustfmt,
        0 <= c <= c1 <= nodes.len(),
        range_kept(nodes, c, c1, prefix2),
        occurs_in(prefix, prefix2),
    ensures
        element_kept(
            nodes,
            c,
            prefix,
            comments,
            element_captures(
                nodes,
                collect_postfix(nodes, c1, comments).1,
                indent,
                ctx,
                prefix2,
                collect_postfix(nodes, c1, comments).0,
            ),
        ),
    decreases nodes, 4int, 1int,
{
    lemma_collect_postfix(nodes, c1, comments);
    let (cs, c2) = collect_postfix(nodes, c1, comments);
    lemma_kept_element_captures(nodes, c2, indent, ctx, prefix2, cs);
    match element_captures(nodes, c2, indent, ctx, prefix2, cs) {
        Ok((text, ce)) => {
            lemma_occurs_trans(prefix, prefix2, text);
            lemma_range_moves(nodes, c, c1, prefix2, text);
            assert forall|j: int| 0 <= j < comments.len() implies comment_kept(#[trigger] comments[j], text) by {
                if c2 != c1 {
                    assert(cs.subrange(0, comments.len() as int)[j] == cs[j]);
                }
            }
            assert forall|i: int| c <= i < ce implies tree_kept(#[trigger] nodes[i], text) by {
                if c1 <= i < c2 {
                    assert(nodes[i] is Comment);
                    let k = comments.len() + i - c1;
                    assert(cs[k] == nodes[i]->Comment_text);
                }
            }
        },
        _ => {},
    }
}

proof fn lemma_kept_element_props(
    nodes: Seq<Tree>,
    c: int,
    indent: nat,
    ctx: Ctx,
    prefix: Seq<char>,
    comments: Seq<Seq<char>>,
)
    requires
        !ctx.rustfmt,
        0 <= c <= nodes.len(),
    ensures
        element_kept(nodes, c, prefix, comments, element_props(nodes, c, indent, ctx, prefix, comments)),
    decreases nodes, 5int, 0int,
{
    let r = element_props(nodes, c, indent, ctx, prefix, comments);
    crate::format::lemma_group_smaller(nodes, c + 1, '(');
    crate::format::lemma_group_smaller(nodes, c, '(');
    if is_tok(nodes, c, ['$']@) {
        match group_at(nodes, c + 1, '(') {
            None => {
                assert(r is Err) by {
                    lemma_element_props_unfold(nodes, c, indent, ctx, prefix, comments);
                }
            },
            Some(ps) => lemma_kept_props_direct(nodes, c, indent, ctx, prefix, comments, ps),
        }
    } else {
        match group_at(nodes, c, '(') {
            Some(ps) => lemma_kept_props_plain(nodes, c, indent, ctx, prefix, comments, ps),
            None => {
                assert(r == element_captures(
                    nodes,
                    collect_postfix(nodes, c, comments).1,
                    indent,
                    ctx,
                    prefix,
                    collect_postfix(nodes, c, comments).0,
                )) by {
                    lemma_element_props_unfold(nodes, c, indent, ctx, prefix, comments);
                }
                lemma_occurs_self(prefix);
                lemma_kept_after_props(nodes, c, c, indent, ctx, prefix, prefix, comments);
            },
        }
    }
}

proof fn lemma_kept_props_direct(
    nodes: Seq<Tree>,
    c: int,
    indent: nat,
    ctx: Ctx,
    prefix: Seq<char>,
    comments: Seq<Seq<char>>,
    ps: Seq<Tree>,
)
    requires
        !ctx.rustfmt,
        0 <= c <= nodes.len(),
        is_tok(nodes, c, ['$']@),
        group_at(nodes, c + 1, '(') == Some(ps),
    ensures
        element_kept(nodes, c, prefix, comments, element_props(nodes, c, indent, ctx, prefix, comments)),
    decreases nodes, 4int, 2int,
{
    crate::format::lemma_group_smaller(nodes, c + 1, '(');
    let p = prefix.push('$');
    let pl = crate::text::sat(crate::text::byte_len(p) as int);
    let r = element_props(nodes, c, indent, ctx, prefix, comments);
    lemma_kept_fmt_parens(ps, indent, pl, ctx);
    let fp = fmt_parens(ps, indent, pl, ctx);
    assert(fp is Err ==> r is Err) by {
        lemma_element_props_unfold(nodes, c, indent, ctx, prefix, comments);
    }
    if fp is Ok {
        let t = fp->Ok_0;
        let p2 = p + t;
        assert(r == element_captures(
            nodes,
            collect_postfix(nodes, c + 1 + 1, comments).1,
            indent,
            ctx,
            p2,
            collect_postfix(nodes, c + 1 + 1, comments).0,
        )) by {
            lemma_element_props_unfold(nodes, c, indent, ctx, prefix, comments);
        }
        lemma_occurs_self(t);
        lemma_occurs_concat(t, p, t);
        lemma_nodes_kept_moves(ps, t, p2);
        assert(tree_kept(nodes[c + 1], p2));
        assert forall|i: int| c <= i < c + 2 implies tree_kept(#[trigger] nodes[i], p2) by {
            if i == c {
                assert(nodes[i] is Token);
            }
        }
        assert(p2.subrange(0, prefix.len() as int) =~= prefix);
        lemma_occurs_at(prefix, p2, 0);
        lemma_kept_after_props(nodes, c, c + 1 + 1, indent, ctx, prefix, p2, comments);
    }
}

proof fn lemma_kept_props_plain(
    nodes: Seq<Tree>,
    c: int,
    indent: nat,
    ctx: Ctx,
    prefix: Seq<char>,
    comments: Seq<Seq<char>>,
    ps: Seq<Tree>,
)
    requires
        !ctx.rustfmt,
        0 <= c <= nodes.len(),
        !is_tok(nodes, c, ['$']@),
        group_at(nodes, c, '(') == Some(ps),
    ensures
        element_kept(nodes, c, prefix, comments, element_props(nodes, c, indent, ctx, prefix, comments)),
    decreases nodes, 4int, 2int,
{
    crate::format::lemma_group_smaller(nodes, c, '(');
    let p = prefix;
    let pl = crate::text::sat(crate::text::byte_len(p) as int);
    let r = element_props(nodes, c, indent, ctx, prefix, comments);
    lemma_kept_fmt_parens(ps, indent, pl, ctx);
    let fp = fmt_parens(ps, indent, pl, ctx);
    assert(fp is Err ==> r is Err) by {
        lemma_element_props_unfold(nodes, c, indent, ctx, prefix, comments);
    }
    if fp is Ok {
        let t = fp->Ok_0;
        let p2 = p + t;
        assert(r == element_captures(
            nodes,
            collect_postfix(nodes, c + 1, comments).1,
            indent,
            ctx,
            p2,
            collect_postfix(nodes, c + 1, comments).0,
        )) by {
            lemma_element_props_unfold(nodes, c, indent, ctx, prefix, comments);
        }
        lemma_occurs_self(t);
        lemma_occurs_concat(t, p, t);
        lemma_nodes_kept_moves(ps, t, p2);
        match nodes[c] {
            Tree::Group { nodes: g, .. } => {
                assert(g == ps);
                assert(tree_kept(nodes[c], p2));
            },
            _ => {},
        }
        assert(range_kept(nodes, c, c + 1, p2));
        lemma_prefix_concat(prefix, t);
        lemma_prefix_occurs(prefix, p2);
        lemma_kept_after_props(nodes, c, c + 1, indent, ctx, prefix, p2, comments);
    }
}

/// An element laid out without rustfmt keeps every comment in the nodes it
/// takes.
proof fn lemma_kept_fmt_element(nodes: Seq<Tree>, cursor: int, indent: nat, yielded: bool, ctx: Ctx)
    requires
        !ctx.rustfmt,
        0 <= cursor <= nodes.len(),
    ensures
        fmt_element(nodes, cursor, indent, yielded, ctx) matches Ok((text, ce)) ==> range_kept(
            nodes,
            cursor,
            ce,
            text,
        ),
    decreases nodes, 6int, 0int,
{
    lemma_fmt_element_unfold(nodes, cursor, indent, yielded, ctx);
    let prefix: Seq<char> = if yielded {
        ['y', 'i', 'e', 'l', 'd', ' ']@
    } else {
        seq![]
    };
    let bound: Result<(Seq<char>, int), Stop> = if is_tok(nodes, cursor + 1, ['@']@) {
        match tok_at(nodes, cursor) {
            None => Err(Stop::Fail(seq![])),
            Some(b) => Ok((prefix + b + [' ', '@', ' ']@, cursor + 2)),
        }
    } else {
        Ok((prefix, cursor))
    };
    match bound {
        Ok((prefix1, c)) => {
            crate::format::lemma_consume_type(nodes, c);
            match crate::format::consume_type(nodes, c) {
                Ok(c2) => if c2 != c && 0 <= c && c <= c2 && c2 <= nodes.len() {
                    let ty = inline_text(nodes.subrange(c, c2));
                    let prefix2 = prefix1 + ty;
                    lemma_inline_text_kept(nodes.subrange(c, c2));
                    lemma_sub_kept(nodes, c, c2, ty);
                    lemma_occurs_self(ty);
                    lemma_occurs_concat(ty, prefix1, ty);
                    lemma_range_moves(nodes, c, c2, ty, prefix2);
                    lemma_collect_postfix(nodes, c2, seq![]);
                    let (cs, c3) = collect_postfix(nodes, c2, seq![]);
                    lemma_kept_element_props(nodes, c3, indent, ctx, prefix2, cs);
                    match element_props(nodes, c3, indent, ctx, prefix2, cs) {
                        Ok((text, ce)) => {
                            lemma_range_moves(nodes, c, c2, prefix2, text);
                            assert forall|i: int| cursor <= i < ce implies tree_kept(#[trigger] nodes[i], text) by {
                                if c2 <= i < c3 {
                                    assert(nodes[i] is Comment);
                                    assert(cs[i - c2] == nodes[i]->Comment_text);
                                }
                            }
                        },
                        _ => {},
                    }
                },
                _ => {},
            }
        },
        _ => {},
    }
}

/// An `if` item laid out without rustfmt keeps every comment after its `if`.
proof fn lemma_kept_fmt_if(nodes: Seq<Tree>, cursor: int, indent: nat, ctx: Ctx)
    requires
        !ctx.rustfmt,
        0 <= cursor < nodes.len(),
    ensures
        fmt_if(nodes, cursor, indent, ctx) matches Ok((text, ce)) ==> range_kept(nodes, cursor + 1, ce, text),
    decreases nodes, 6int, nodes.len() - cursor,
{
    lemma_fmt_if_unfold(nodes, cursor, indent, ctx);
    let c = cursor + 1;
    let branch = first_group(nodes, c, '{');
    lemma_first_group(nodes, c, '{');
    crate::format::lemma_group_smaller(nodes, branch, '{');
    if branch < nodes.len() {
        let cond = nodes.subrange(c, branch);
        let w = crate::text::sat_add(indent, 3);
        lemma_kept_fmt_generic(cond, w, ctx);
        match fmt_generic(cond, w, ctx) {
            Ok(condition) => {
                let ind = crate::text::sat_add(indent, 4);
                let body_nodes = group_at(nodes, branch, '{')->0;
                lemma_kept_fmt_layout(body_nodes, ind, ctx);
                match fmt_layout(body_nodes, ind, ctx) {
                    Ok(body) => {
                        let sp = crate::text::spaces(indent);
                        let out = sp + ['i', 'f', ' ']@ + condition + [' ', '{', '\n']@ + body + seq!['\n'] + sp
                            + seq!['}'];
                        assert(out.subrange((indent + 3) as int, (indent + 3 + condition.len()) as int) =~= condition);
                        lemma_occurs_at(condition, out, (indent + 3) as int);
                        lemma_sub_kept(nodes, c, branch, condition);
                        lemma_range_moves(nodes, c, branch, condition, out);
                        let bs = indent + 3 + condition.len() + 3;
                        assert(out.subrange(bs as int, (bs + body.len()) as int) =~= body);
                        lemma_occurs_at(body, out, bs as int);
                        lemma_nodes_kept_moves(body_nodes, body, out);
                        assert(tree_kept(nodes[branch], out));
                        let c3 = branch + 1;
                        if is_tok(nodes, c3, ['e', 'l', 's', 'e']@) {
                            let c4 = c3 + 1;
                            if is_tok(nodes, c4, ['i', 'f']@) {
                                lemma_kept_fmt_if(nodes, c4, indent, ctx);
                                match fmt_if(nodes, c4, indent, ctx) {
                                    Ok((nested, c5)) => {
                                        let st = strip_prefix(nested, sp);
                                        let text = out + [' ', 'e', 'l', 's', 'e', ' ']@ + st;
                                        assert(text =~= out + ([' ', 'e', 'l', 's', 'e', ' ']@ + st));
                                        lemma_prefix_concat(out, [' ', 'e', 'l', 's', 'e', ' ']@ + st);
                                        lemma_prefix_occurs(out, text);
                                        lemma_range_moves(nodes, cursor + 1, c3, out, text);
                                        assert forall|i: int| c4 + 1 <= i < c5 implies tree_kept(#[trigger] nodes[i], text) by {
                                            lemma_tree_kept_strip(nodes[i], nested, indent);
                                            lemma_occurs_self(st);
                                            lemma_occurs_concat(st, out + [' ', 'e', 'l', 's', 'e', ' ']@, st);
                                            lemma_tree_kept_moves(nodes[i], st, text);
                                        }
                                    },
                                    _ => {},
                                }
                            } else {
                                crate::format::lemma_group_smaller(nodes, c4, '{');
                                match group_at(nodes, c4, '{') {
                                    Some(other) => {
                                        lemma_kept_fmt_layout(other, ind, ctx);
                                        match fmt_layout(other, ind, ctx) {
                                            Ok(b) => {
                                                let text = out + [' ', 'e', 'l', 's', 'e', ' ', '{', '\n']@ + b + seq!['\n']
                                                    + sp + seq!['}'];
                                                assert(text =~= out + ([' ', 'e', 'l', 's', 'e', ' ', '{', '\n']@ + b
                                                    + seq!['\n'] + sp + seq!['}']));
                                                lemma_prefix_concat(out, [' ', 'e', 'l', 's', 'e', ' ', '{', '\n']@ + b
                                                    + seq!['\n'] + sp + seq!['}']);
                                                lemma_prefix_occurs(out, text);
                                                lemma_range_moves(nodes, cursor + 1, c3, out, text);
                                                assert(text.subrange((out.len() + 8) as int, (out.len() + 8 + b.len()) as int) =~= b);
                                                lemma_occurs_at(b, text, (out.len() + 8) as int);
                                                lemma_nodes_kept_moves(other, b, text);
                                                assert(tree_kept(nodes[c4], text));
                                            },
                                            _ => {},
                                        }
                                    },
                                    None => {},
                                }
                            }
                        }
                    },
                    _ => {},
                }
            },
            _ => {},
        }
    }
}

/// A `for` item laid out without rustfmt keeps every comment after its `for`.
proof fn lemma_kept_fmt_for(nodes: Seq<Tree>, cursor: int, indent: nat, ctx: Ctx)
    requires
        !ctx.rustfmt,
        0 <= cursor < nodes.len(),
    ensures
        fmt_for(nodes, cursor, indent, ctx) matches Ok((text, ce)) ==> range_kept(nodes, cursor + 1, ce, text),
    decreases nodes, 6int, 0int,
{
    lemma_fmt_for_unfold(nodes, cursor, indent, ctx);
    let c = cursor + 1;
    let body_at = first_group(nodes, c, '{');
    lemma_first_group(nodes, c, '{');
    crate::format::lemma_group_smaller(nodes, body_at, '{');
    if body_at < nodes.len() {
        let ind = crate::text::sat_add(indent, 4);
        let hs = nodes.subrange(c, body_at);
        lemma_kept_fmt_for_header(hs, ind, ctx);
        match fmt_for_header(hs, ind, ctx) {
            Ok(header) => {
                let body_nodes = group_at(nodes, body_at, '{')->0;
                lemma_kept_fmt_layout(body_nodes, ind, ctx);
                match fmt_layout(body_nodes, ind, ctx) {
                    Ok(body) => {
                        let sp = crate::text::spaces(indent);
                        let text = sp + ['f', 'o', 'r', ' ']@ + header + [' ', '{', '\n']@ + body + seq!['\n'] + sp
                            + seq!['}'];
                        assert(text.subrange((indent + 4) as int, (indent + 4 + header.len()) as int) =~= header);
                        lemma_occurs_at(header, text, (indent + 4) as int);
                        lemma_sub_kept(nodes, c, body_at, header);
                        lemma_range_moves(nodes, c, body_at, header, text);
                        let bs = indent + 4 + header.len() + 3;
                        assert(text.subrange(bs as int, (bs + body.len()) as int) =~= body);
                        lemma_occurs_at(body, text, bs as int);
                        lemma_nodes_kept_moves(body_nodes, body, text);
                        assert(tree_kept(nodes[body_at], text));
                    },
                    _ => {},
                }
            },
            _ => {},
        }
    }
}

/// A layout item laid out without rustfmt keeps every comment in the nodes
/// it takes.
proof fn lemma_kept_fmt_item(nodes: Seq<Tree>, cursor: int, indent: nat, ctx: Ctx)
    requires
        !ctx.rustfmt,
        0 <= cursor < nodes.len(),
    ensures
        fmt_item(nodes, cursor, indent, ctx) matches Ok((text, ce)) ==> range_kept(nodes, cursor, ce, text),
    decreases nodes, 7int, 0int,
{
    lemma_fmt_item_unfold(nodes, cursor, indent, ctx);
    let yielded = is_tok(nodes, cursor, ['y', 'i', 'e', 'l', 'd']@);
    let c = if yielded {
        cursor + 1
    } else {
        cursor
    };
    if is_tok(nodes, c, ['$']@) {
        let c1 = c + 1;
        crate::format::lemma_group_smaller(nodes, c1, '(');
        if c1 < nodes.len() {
            match group_at(nodes, c1, '(') {
                Some(inner) => {
                    let w = crate::text::sat_add(indent, 2);
                    lemma_kept_fmt_generic(inner, w, ctx);
                    match fmt_generic(inner, w, ctx) {
                        Ok(e) => {
                            let pre = crate::text::spaces(indent) + (if yielded {
                                ['y', 'i', 'e', 'l', 'd', ' ']@
                            } else {
                                seq![]
                            }) + ['$', '(']@;
                            let text = pre + e + seq![')'];
                            assert(text.subrange(pre.len() as int, (pre.len() + e.len()) as int) =~= e);
                            lemma_occurs_at(e, text, pre.len() as int);
                            lemma_nodes_kept_moves(inner, e, text);
                            assert(tree_kept(nodes[c1], text));
                        },
                        _ => {},
                    }
                },
                None => {},
            }
        }
    } else if !yielded && is_tok(nodes, c, ['i', 'f']@) {
        lemma_kept_fmt_if(nodes, c, indent, ctx);
    } else if !yielded && is_tok(nodes, c, ['f', 'o', 'r']@) {
        lemma_kept_fmt_for(nodes, c, indent, ctx);
    } else {
        if c <= nodes.len() {
            lemma_kept_fmt_element(nodes, c, indent, yielded, ctx);
        }
    }
}

proof fn lemma_kept_layout_lines(nodes: Seq<Tree>, c: int, indent: nat, ctx: Ctx, lines_in: Seq<Seq<char>>)
    requires
        !ctx.rustfmt,
        0 <= c,
    ensures
        layout_lines(nodes, c, indent, ctx, lines_in) matches Ok(ls) ==> ls.len() >= lines_in.len()
            && ls.subrange(0, lines_in.len() as int) == lines_in && range_kept(
            nodes,
            c,
            nodes.len() as int,
            crate::text::join(ls, seq!['\n']),
        ),
    decreases nodes, 8int, 2 * (nodes.len() - c) + 1,
{
    lemma_layout_lines_unfold(nodes, c, indent, ctx, lines_in);
    if c >= nodes.len() {
        assert(lines_in.subrange(0, lines_in.len() as int) =~= lines_in);
    } else if is_tok(nodes, c, [',']@) {
        lemma_kept_layout_lines(nodes, c + 1, indent, ctx, lines_in);
    } else {
        lemma_kept_comments_then_item(nodes, c, indent, ctx, lines_in);
    }
}

proof fn lemma_kept_comments_then_item(nodes: Seq<Tree>, c: int, indent: nat, ctx: Ctx, lines_in: Seq<Seq<char>>)
    requires
        !ctx.rustfmt,
        0 <= c,
    ensures
        comments_then_item(nodes, c, indent, ctx, lines_in) matches Ok(ls) ==> ls.len() >= lines_in.len()
            && ls.subrange(0, lines_in.len() as int) == lines_in && range_kept(
            nodes,
            c,
            nodes.len() as int,
            crate::text::join(ls, seq!['\n']),
        ),
    decreases nodes, 8int, 2 * (nodes.len() - c),
{
    lemma_comments_then_item_unfold(nodes, c, indent, ctx, lines_in);
    if c >= nodes.len() {
        assert(lines_in.subrange(0, lines_in.len() as int) =~= lines_in);
    } else {
        match nodes[c] {
            Tree::Comment { text, .. } => {
                let cl = comment_lines(text, indent);
                let l2 = lines_in + cl;
                lemma_kept_comments_then_item(nodes, c + 1, indent, ctx, l2);
                match comments_then_item(nodes, c + 1, indent, ctx, l2) {
                    Ok(ls) => {
                        assert(ls.subrange(0, lines_in.len() as int) =~= l2.subrange(0, lines_in.len() as int));
                        assert(l2.subrange(0, lines_in.len() as int) =~= lines_in);
                        let joined = crate::text::join(ls, seq!['\n']);
                        assert forall|k: int| 0 <= k < lines(text).len() implies occurs_in(trim(#[trigger] lines(text)[k]), joined) by {
                            lemma_comment_lines_kept(text, indent, k);
                            let j = lines_in.len() + k;
                            assert(ls[j] == l2[j]) by {
                                assert(ls.subrange(0, l2.len() as int)[j] == l2[j]);
                            }
                            assert(l2[j] == cl[k]);
                            lemma_occurs_join(ls, seq!['\n'], j);
                            lemma_occurs_trans(trim(lines(text)[k]), cl[k], joined);
                        }
                        assert(tree_kept(nodes[c], joined));
                    },
                    _ => {},
                }
            },
            _ => {
                lemma_kept_fmt_item(nodes, c, indent, ctx);
                match fmt_item(nodes, c, indent, ctx) {
                    Ok((line, c2)) => if c < c2 && c2 <= nodes.len() {
                        let l2 = lines_in.push(line);
                        lemma_kept_layout_lines(nodes, c2, indent, ctx, l2);
                        match layout_lines(nodes, c2, indent, ctx, l2) {
                            Ok(ls) => {
                                assert(ls.subrange(0, lines_in.len() as int) =~= l2.subrange(0, lines_in.len() as int));
                                assert(l2.subrange(0, lines_in.len() as int) =~= lines_in);
                                let joined = crate::text::join(ls, seq!['\n']);
                                let j = lines_in.len() as int;
                                assert(ls[j] == line) by {
                                    assert(ls.subrange(0, l2.len() as int)[j] == l2[j]);
                                }
                                lemma_occurs_join(ls, seq!['\n'], j);
                                lemma_range_moves(nodes, c, c2, line, joined);
                            },
                            _ => {},
                        }
                    },
                    _ => {},
                }
            },
        }
    }
}

/// A layout body laid out without rustfmt keeps every comment in it, at any
/// depth: each of its lines, trimmed, occurs in the layout.
pub proof fn lemma_kept_fmt_layout(nodes: Seq<Tree>, indent: nat, ctx: Ctx)
    requires
        !ctx.rustfmt,
    ensures
        fmt_layout(nodes, indent, ctx) matches Ok(o) ==> nodes_kept(nodes, o),
    decreases nodes, 9int, 0int,
{
    lemma_fmt_layout_unfold(nodes, indent, ctx);
    lemma_kept_layout_lines(nodes, 0, indent, ctx, seq![]);
    match layout_lines(nodes, 0, indent, ctx, seq![]) {
        Ok(ls) => lemma_kept_range(nodes, crate::text::join(ls, seq!['\n'])),
        _ => {},
    }
}

/// Comments kept in `f` stay kept in a text that holds `f` from offset `at`.
pub proof fn lemma_nodes_kept_moves_pub(nodes: Seq<Tree>, f: Seq<char>, u: Seq<char>, at: int)
    requires
        nodes_kept(nodes, f),
        0 <= at,
        at + f.len() <= u.len(),
        u.subrange(at, at + f.len()) == f,
    ensures
        nodes_kept(nodes, u),
{
    lemma_occurs_at(f, u, at);
    lemma_nodes_kept_moves(nodes, f, u);
}

// ---------------------------------------------------------------------------
// Style sheets without rustfmt.
// ---------------------------------------------------------------------------

proof fn lemma_kept_style_inline_state(nodes: Seq<Tree>, k: int)
    requires
        0 <= k <= nodes.len(),
    ensures
        nodes_kept(nodes.subrange(0, k), style_inline_state(nodes, k).0),
    decreases nodes, k,
{
    lemma_style_inline_state_unfold(nodes, k);
    if k > 0 {
        lemma_kept_style_inline_state(nodes, k - 1);
        let (out, prev) = style_inline_state(nodes, k - 1);
        let new = style_inline_state(nodes, k).0;
        lemma_nodes_kept_push(nodes, k, new);
        let o = if prev {
            out.push(' ')
        } else {
            out
        };
        match nodes[k - 1] {
            Tree::Token { text, .. } => {
                if text == [',']@ {
                    lemma_keeps_extend(out, [',', ' ']@);
                } else {
                    let w = crate::style::is_word_token(text);
                    let o2 = if prev && w {
                        out.push(' ')
                    } else {
                        out
                    };
                    assert(new == o2 + crate::style::style_token_text(text));
                    lemma_keeps_extend(out, crate::style::style_token_text(text));
                }
                lemma_nodes_kept_moves(nodes.subrange(0, k - 1), out, new);
            },
            Tree::Comment { text, .. } => {
                assert(new == o + text);
                lemma_keeps_extend(out, text);
                lemma_nodes_kept_moves(nodes.subrange(0, k - 1), out, new);
                lemma_occurs_self(text);
                lemma_occurs_concat(text, o, text);
                lemma_comment_in(text, new);
            },
            Tree::Group { open, close, nodes: inner, .. } => {
                let a = o.push(open);
                let it = style_inline(inner);
                assert(new == a + it + seq![close]);
                let r = new.subrange(out.len() as int, new.len() as int);
                if prev {
                    assert(new =~= out.push(' ') + new.subrange((out.len() + 1) as int, new.len() as int));
                } else {
                    assert(new =~= out + r);
                }
                lemma_keeps_extend(out, r);
                lemma_keeps_extend(out, new.subrange((out.len() + 1) as int, new.len() as int));
                lemma_nodes_kept_moves(nodes.subrange(0, k - 1), out, new);
                lemma_kept_style_inline(inner);
                assert(new.subrange(a.len() as int, (a.len() + it.len()) as int) =~= it);
                lemma_occurs_at(it, new, a.len() as int);
                lemma_nodes_kept_moves(inner, it, new);
            },
        }
    }
}

/// Every comment of a style value, at any depth, is kept in its one-line
/// rendering.
proof fn lemma_kept_style_inline(nodes: Seq<Tree>)
    ensures
        nodes_kept(nodes, style_inline(nodes)),
    decreases nodes, nodes.len() + 1,
{
    lemma_style_inline_unfold(nodes);
    assert(nodes.subrange(0, nodes.len() as int) =~= nodes);
    lemma_kept_style_inline_state(nodes, nodes.len() as int);
    lemma_nodes_kept_moves(nodes, style_inline_state(nodes, nodes.len() as int).0, style_inline(nodes));
}

proof fn lemma_kept_selector_state(nodes: Seq<Tree>, k: int)
    requires
        0 <= k <= nodes.len(),
    ensures
        nodes_kept(nodes.subrange(0, k), selector_state(nodes, k)),
    decreases nodes, k,
{
    lemma_selector_state_unfold(nodes, k);
    if k > 0 {
        lemma_kept_selector_state(nodes, k - 1);
        let out = selector_state(nodes, k - 1);
        let new = selector_state(nodes, k);
        lemma_nodes_kept_push(nodes, k, new);
        match nodes[k - 1] {
            Tree::Token { text, .. } => {
                if text == [',']@ {
                    lemma_keeps_extend(out, [',', ' ']@);
                } else if crate::style::is_combinator(text) {
                    lemma_keeps_extend(out, text + seq![' ']);
                    if out.len() > 0 && out.last() != ' ' {
                        assert(new =~= out.push(' ') + (text + seq![' ']));
                    } else {
                        assert(new =~= out + (text + seq![' ']));
                    }
                } else {
                    lemma_keeps_extend(out, text);
                }
                lemma_nodes_kept_moves(nodes.subrange(0, k - 1), out, new);
            },
            Tree::Comment { text, .. } => {
                let o = if out.len() > 0 && out.last() == ' ' {
                    out
                } else {
                    out.push(' ')
                };
                assert(new =~= o + (text + seq![' ']));
                lemma_keeps_extend(out, text + seq![' ']);
                lemma_nodes_kept_moves(nodes.subrange(0, k - 1), out, new);
                lemma_occurs_self(text);
                lemma_occurs_concat(text, o, text);
                assert(new =~= (o + text) + seq![' ']);
                lemma_occurs_concat(text, o + text, seq![' ']);
                lemma_comment_in(text, new);
            },
            Tree::Group { open, close, nodes: inner, .. } => {
                let a = out.push(open);
                let it = selector_inline(inner);
                assert(new =~= out + (seq![open] + it + seq![close]));
                lemma_keeps_extend(out, seq![open] + it + seq![close]);
                lemma_nodes_kept_moves(nodes.subrange(0, k - 1), out, new);
                lemma_kept_selector_inline(inner);
                assert(new.subrange(a.len() as int, (a.len() + it.len()) as int) =~= it);
                lemma_occurs_at(it, new, a.len() as int);
                lemma_nodes_kept_moves(inner, it, new);
            },
        }
    }
}

/// Every comment of a selector, at any depth, is kept in its one-line
/// rendering.
proof fn lemma_kept_selector_inline(nodes: Seq<Tree>)
    ensures
        nodes_kept(nodes, selector_inline(nodes)),
    decreases nodes, nodes.len() + 1,
{
    lemma_selector_inline_unfold(nodes);
    assert(nodes.subrange(0, nodes.len() as int) =~= nodes);
    lemma_kept_selector_state(nodes, nodes.len() as int);
    lemma_nodes_kept_moves(nodes, selector_state(nodes, nodes.len() as int), selector_inline(nodes));
}

proof fn lemma_kept_style_selector(nodes: Seq<Tree>, indent: nat)
    ensures
        nodes_kept(nodes, style_selector(nodes, indent)),
{
    let sel = selector_inline(nodes);
    let parts = split_commas(nodes);
    lemma_kept_selector_inline(nodes);
    if !(indent + crate::text::byte_len(sel) <= crate::text::WIDTH || parts.len() == 1) {
        let ls = Seq::new(parts.len(), |k: int| selector_part(nodes, parts, k, indent));
        let out = crate::text::join(ls, seq!['\n']);
        assert(style_selector(nodes, indent) == out);
        lemma_comma_parts(nodes, 0, 0, seq![]);
        assert forall|k: int| 0 <= k < parts.len() implies range_kept(nodes, #[trigger] parts[k].0, parts[k].1, out) by {
            let p = parts[k];
            assert(0 <= p.0 <= p.1 <= nodes.len());
            let sub = nodes.subrange(p.0, p.1);
            let si = selector_inline(sub);
            lemma_kept_selector_inline(sub);
            let pre: Seq<char> = if k == 0 {
                seq![]
            } else {
                crate::text::spaces(indent)
            };
            let post: Seq<char> = if k + 1 < parts.len() {
                seq![',']
            } else {
                seq![]
            };
            assert(ls[k] == pre + si + post);
            lemma_occurs_self(si);
            lemma_occurs_concat(si, pre, si);
            lemma_occurs_concat(si, pre + si, post);
            lemma_occurs_join(ls, seq!['\n'], k);
            lemma_occurs_trans(si, ls[k], out);
            lemma_nodes_kept_moves(sub, si, out);
            lemma_sub_kept(nodes, p.0, p.1, out);
        }
        lemma_cover_kept(nodes, out);
    }
}


/// A `$(..)` insertion keeps the comments of its expression.
/// A group whose nodes are kept in `t` is kept in `t`.
proof fn lemma_group_kept(nodes: Seq<Tree>, i: int, open: char, t: Seq<char>)
    requires
        group_at(nodes, i, open) is Some,
        nodes_kept(group_at(nodes, i, open)->0, t),
    ensures
        0 <= i < nodes.len(),
        tree_kept(nodes[i], t),
{
    match nodes[i] {
        Tree::Group { nodes: inner, .. } => {
            assert(inner == group_at(nodes, i, open)->0);
        },
        _ => {},
    }
}

/// `x` occurs in `a + x + b`.
proof fn lemma_occurs_mid(a: Seq<char>, x: Seq<char>, b: Seq<char>)
    ensures
        occurs_in(x, a + x + b),
{
    assert((a + x + b).subrange(a.len() as int, (a.len() + x.len()) as int) =~= x);
    lemma_occurs_at(x, a + x + b, a.len() as int);
}

/// A `$(..)` insertion keeps the comments of its expression.
proof fn lemma_kept_style_insertion(nodes: Seq<Tree>, c: int, indent: nat, ctx: Ctx)
    requires
        !ctx.rustfmt,
        0 <= c,
        is_tok(nodes, c, ['$']@),
    ensures
        style_insertion(nodes, c, indent, ctx) matches Ok((t, c2)) ==> c2 == c + 2 && range_kept(nodes, c, c2, t),
{
    if let Some(e) = group_at(nodes, c + 1, '(') {
        let ind = crate::text::sat_add(indent, 2);
        lemma_kept_fmt_generic(e, ind, ctx);
        if let Ok(g) = fmt_generic(e, ind, ctx) {
            let pre = crate::text::spaces(indent) + ['$', '(']@;
            let t = pre + g + seq![')'];
            assert(style_insertion(nodes, c, indent, ctx) == Ok::<(Seq<char>, int), Stop>((t, c + 2)));
            lemma_occurs_mid(pre, g, seq![')']);
            lemma_nodes_kept_moves(e, g, t);
            lemma_group_kept(nodes, c + 1, '(', t);
            assert(tree_kept(nodes[c], t));
            assert forall|i: int| c <= i < c + 2 implies tree_kept(#[trigger] nodes[i], t) by {
                if i == c + 1 {
                    assert(tree_kept(nodes[c + 1], t));
                }
            }
        }
    }
}


/// The comments that `style_comments` takes from `c` are each kept in the
/// line it gives for them.
proof fn lemma_kept_style_comments(nodes: Seq<Tree>, c: int, indent: nat, acc: Seq<Seq<char>>)
    requires
        0 <= c,
    ensures
        c <= style_comments(nodes, c, indent, acc).1,
        c <= nodes.len() ==> style_comments(nodes, c, indent, acc).1 <= nodes.len(),
        style_comments(nodes, c, indent, acc).0.len() == acc.len() + (style_comments(nodes, c, indent, acc).1 - c),
        style_comments(nodes, c, indent, acc).0.subrange(0, acc.len() as int) == acc,
        forall|j: int|
            c <= j < style_comments(nodes, c, indent, acc).1 ==> tree_kept(
                #[trigger] nodes[j],
                style_comments(nodes, c, indent, acc).0[acc.len() + j - c],
            ),
    decreases nodes.len() - c,
{
    lemma_style_comments_unfold(nodes, c, indent, acc);
    if 0 <= c < nodes.len() && nodes[c] is Comment {
        let text = nodes[c]->Comment_text;
        let line = crate::text::spaces(indent) + text;
        let acc2 = acc.push(line);
        lemma_kept_style_comments(nodes, c + 1, indent, acc2);
        let ls = style_comments(nodes, c + 1, indent, acc2).0;
        let c1 = style_comments(nodes, c + 1, indent, acc2).1;
        assert(style_comments(nodes, c, indent, acc) == (ls, c1));
        assert(ls.subrange(0, acc.len() as int) =~= acc) by {
            assert(ls.subrange(0, acc2.len() as int) == acc2);
            assert forall|k: int| 0 <= k < acc.len() implies #[trigger] ls[k] == acc[k] by {
                assert(ls.subrange(0, acc2.len() as int)[k] == ls[k]);
            }
        }
        assert(ls[acc.len() as int] == line) by {
            assert(ls.subrange(0, acc2.len() as int)[acc.len() as int] == ls[acc.len() as int]);
        }
        lemma_occurs_mid(crate::text::spaces(indent), text, seq![]);
        assert(crate::text::spaces(indent) + text + seq![] =~= line);
        lemma_comment_in(text, line);
        assert forall|j: int| c <= j < c1 implies tree_kept(#[trigger] nodes[j], ls[acc.len() + j - c]) by {
            if j > c {
                assert(acc2.len() + j - (c + 1) == acc.len() + j - c);
            }
        }
    } else {
        assert(acc.subrange(0, acc.len() as int) =~= acc);
    }
}

/// The rendering of a declaration's value keeps its comments.
#[verifier::spinoff_prover]
#[verifier::rlimit(50)]
proof fn lemma_kept_style_value(value_nodes: Seq<Tree>, v: Seq<char>, name_len: nat, indent: nat, ctx: Ctx)
    requires
        !ctx.rustfmt,
        ({
            if is_tok(value_nodes, 0, ['$']@) && value_nodes.len() == 2 && group_at(value_nodes, 1, '(') is Some {
                let e = group_at(value_nodes, 1, '(')->0;
                exists|x: Seq<char>|
                    v == ['$', '(']@ + x + seq![')'] && (x == inline_text(e) || fmt_generic(
                        e,
                        crate::text::sat((indent + name_len + 4) as int),
                        ctx,
                    ) == Ok::<Seq<char>, Stop>(x))
            } else {
                v == style_inline(value_nodes)
            }
        }),
    ensures
        nodes_kept(value_nodes, v),
{
    if is_tok(value_nodes, 0, ['$']@) && value_nodes.len() == 2 && group_at(value_nodes, 1, '(') is Some {
        let e = group_at(value_nodes, 1, '(')->0;
        let x = choose|x: Seq<char>|
            v == ['$', '(']@ + x + seq![')'] && (x == inline_text(e) || fmt_generic(
                e,
                crate::text::sat((indent + name_len + 4) as int),
                ctx,
            ) == Ok::<Seq<char>, Stop>(x));
        lemma_inline_text_kept(e);
        lemma_kept_fmt_generic(e, crate::text::sat((indent + name_len + 4) as int), ctx);
        lemma_occurs_mid(['$', '(']@, x, seq![')']);
        lemma_nodes_kept_moves(e, x, v);
        lemma_group_kept(value_nodes, 1, '(', v);
        assert(tree_kept(value_nodes[0], v));
        assert(range_kept(value_nodes, 0, 2, v)) by {
            assert forall|i: int| 0 <= i < 2 implies tree_kept(#[trigger] value_nodes[i], v) by {
                if i == 1 {
                    assert(tree_kept(value_nodes[1], v));
                }
            }
        }
        lemma_kept_range(value_nodes, v);
    } else {
        lemma_kept_style_inline(value_nodes);
    }
}

/// A declaration keeps the comments of its name and value.
proof fn lemma_kept_style_declaration(nodes: Seq<Tree>, c: int, indent: nat, ctx: Ctx)
    requires
        !ctx.rustfmt,
        0 <= c <= nodes.len(),
    ensures
        style_declaration(nodes, c, indent, ctx) matches Ok((t, c2)) ==> c < c2 <= nodes.len() && range_kept(
            nodes,
            c,
            c2,
            t,
        ),
{
    let semi = first_tok(nodes, c, [';']@);
    let colon = first_tok(nodes, c, [':']@);
    lemma_first_tok(nodes, c, [';']@);
    lemma_first_tok(nodes, c, [':']@);
    if semi < nodes.len() && colon < semi {
        let name = style_inline(nodes.subrange(c, colon));
        let value_nodes = nodes.subrange(colon + 1, semi);
        let value = if is_tok(value_nodes, 0, ['$']@) && value_nodes.len() == 2 && group_at(
            value_nodes,
            1,
            '(',
        ) is Some {
            let e = group_at(value_nodes, 1, '(')->0;
            let compact = inline_text(e);
            let expression = if !crate::style::style_statement_block(e) && indent + crate::text::byte_len(name)
                + crate::text::byte_len(compact) + 5 <= crate::text::WIDTH {
                Ok(compact)
            } else {
                fmt_generic(e, crate::text::sat((indent + crate::text::byte_len(name) + 4) as int), ctx)
            };
            match expression {
                Err(s) => Err(s),
                Ok(x) => Ok(['$', '(']@ + x + seq![')']),
            }
        } else {
            Ok(style_inline(value_nodes))
        };
        assert(style_declaration(nodes, c, indent, ctx) == match value {
            Err(s) => Err(s),
            Ok(v) => Ok::<(Seq<char>, int), Stop>(
                (crate::text::spaces(indent) + name + [':', ' ']@ + v + seq![';'], semi + 1),
            ),
        });
        if let Ok(v) = value {
            let t = crate::text::spaces(indent) + name + [':', ' ']@ + v + seq![';'];
            lemma_kept_style_value(value_nodes, v, crate::text::byte_len(name), indent, ctx);
            lemma_kept_style_inline(nodes.subrange(c, colon));
            lemma_occurs_mid(crate::text::spaces(indent), name, [':', ' ']@ + v + seq![';']);
            assert(t =~= crate::text::spaces(indent) + name + ([':', ' ']@ + v + seq![';']));
            lemma_nodes_kept_moves(nodes.subrange(c, colon), name, t);
            lemma_sub_kept(nodes, c, colon, t);
            lemma_occurs_mid(crate::text::spaces(indent) + name + [':', ' ']@, v, seq![';']);
            lemma_nodes_kept_moves(value_nodes, v, t);
            lemma_sub_kept(nodes, colon + 1, semi, t);
            assert forall|i: int| c <= i < semi + 1 implies tree_kept(#[trigger] nodes[i], t) by {
                if i == colon || i == semi {
                }
            }
        }
    }
}

/// What is kept in `a` is kept in a text that `a` begins.
proof fn lemma_range_prefix(nodes: Seq<Tree>, x: int, y: int, a: Seq<char>, r: Seq<char>)
    requires
        range_kept(nodes, x, y, a),
        prefix_of(a, r),
    ensures
        range_kept(nodes, x, y, r),
{
    lemma_prefix_occurs(a, r);
    lemma_range_moves(nodes, x, y, a, r);
}

/// A rule keeps the comments of its selector and of its block.
proof fn lemma_kept_style_rule(nodes: Seq<Tree>, c: int, indent: nat, ctx: Ctx)
    requires
        !ctx.rustfmt,
        0 <= c,
    ensures
        style_rule(nodes, c, indent, ctx) matches Ok((t, c2)) ==> c < c2 <= nodes.len() && range_kept(
            nodes,
            c,
            c2,
            t,
        ),
    decreases nodes, 1int, 0int,
{
    lemma_style_rule_unfold(nodes, c, indent, ctx);
    let body_at = first_group(nodes, c, '{');
    if c <= nodes.len() && body_at < nodes.len() {
        lemma_first_group(nodes, c, '{');
        crate::format::lemma_group_smaller(nodes, body_at, '{');
        let sub = nodes.subrange(c, body_at);
        let selector = style_selector(sub, indent);
        let body = group_at(nodes, body_at, '{')->0;
        lemma_kept_style_selector(sub, indent);
        let sp = crate::text::spaces(indent);
        if body.len() == 0 {
            let t = sp + selector + [' ', '{', '}']@;
            lemma_occurs_mid(sp, selector, [' ', '{', '}']@);
            lemma_nodes_kept_moves(sub, selector, t);
            lemma_sub_kept(nodes, c, body_at, t);
            lemma_group_kept(nodes, body_at, '{', t);
            assert forall|i: int| c <= i < body_at + 1 implies tree_kept(#[trigger] nodes[i], t) by {
                if i == body_at {
                    assert(tree_kept(nodes[body_at], t));
                }
            }
        } else {
            let ind = crate::text::sat_add(indent, 4);
            lemma_kept_style_rule_body(body, 0, ind, ctx, seq![], false);
            if let Ok(b) = style_rule_body(body, 0, ind, ctx, seq![], false) {
                let t = sp + selector + [' ', '{', '\n']@ + b + seq!['\n'] + sp + seq!['}'];
                assert(t =~= sp + selector + ([' ', '{', '\n']@ + b + seq!['\n'] + sp + seq!['}']));
                lemma_occurs_mid(sp, selector, [' ', '{', '\n']@ + b + seq!['\n'] + sp + seq!['}']);
                lemma_nodes_kept_moves(sub, selector, t);
                lemma_sub_kept(nodes, c, body_at, t);
                assert(t =~= (sp + selector + [' ', '{', '\n']@) + b + (seq!['\n'] + sp + seq!['}']));
                lemma_occurs_mid(sp + selector + [' ', '{', '\n']@, b, seq!['\n'] + sp + seq!['}']);
                lemma_kept_range(body, b);
                lemma_nodes_kept_moves(body, b, t);
                lemma_group_kept(nodes, body_at, '{', t);
                assert forall|i: int| c <= i < body_at + 1 implies tree_kept(#[trigger] nodes[i], t) by {
                    if i == body_at {
                        assert(tree_kept(nodes[body_at], t));
                    }
                }
            }
        }
    }
}

/// The rest of a rule's block keeps what came before it and the comments of
/// its items from `c` on.
proof fn lemma_kept_style_rule_body(
    nodes: Seq<Tree>,
    c: int,
    indent: nat,
    ctx: Ctx,
    out: Seq<char>,
    after_rule: bool,
)
    requires
        !ctx.rustfmt,
        0 <= c,
    ensures
        style_rule_body(nodes, c, indent, ctx, out, after_rule) matches Ok(r) ==> prefix_of(out, r) && range_kept(
            nodes,
            c,
            nodes.len() as int,
            r,
        ),
    decreases nodes, 2int, nodes.len() - c,
{
    lemma_style_rule_body_unfold(nodes, c, indent, ctx, out, after_rule);
    if c >= nodes.len() {
        lemma_prefix_concat(out, seq![]);
        assert(out + seq![] =~= out);
    } else {
        lemma_kept_style_comments(nodes, c, indent, seq![]);
        let comments = style_comments(nodes, c, indent, seq![]).0;
        let c1 = style_comments(nodes, c, indent, seq![]).1;
        let jc = crate::text::join(comments, seq!['\n']);
        assert(range_kept(nodes, c, c1, jc)) by {
            assert forall|j: int| c <= j < c1 implies tree_kept(#[trigger] nodes[j], jc) by {
                assert(tree_kept(nodes[j], comments[Seq::<Seq<char>>::empty().len() + j - c]));
                lemma_occurs_join(comments, seq!['\n'], j - c);
                lemma_tree_kept_moves(nodes[j], comments[j - c], jc);
            }
        }
        if c1 >= nodes.len() {
            let o = if out.len() > 0 {
                out.push('\n')
            } else {
                out
            };
            let r = o + jc;
            assert(prefix_of(out, r)) by {
                if out.len() > 0 {
                    assert(r =~= out + (seq!['\n'] + jc));
                    lemma_prefix_concat(out, seq!['\n'] + jc);
                } else {
                    lemma_prefix_concat(out, jc);
                }
            }
            lemma_occurs_mid(o, jc, seq![]);
            assert(o + jc + seq![] =~= r);
            lemma_range_moves(nodes, c, c1, jc, r);
        } else {
            let declaration = crate::style::is_declaration_start(nodes, c1);
            let o1 = if out.len() > 0 {
                if after_rule || !declaration {
                    out + ['\n', '\n']@
                } else {
                    out.push('\n')
                }
            } else {
                out
            };
            let o = if comments.len() > 0 {
                o1 + jc + seq!['\n']
            } else {
                o1
            };
            assert(prefix_of(out, o)) by {
                if out.len() > 0 {
                    if after_rule || !declaration {
                        lemma_prefix_concat(out, ['\n', '\n']@);
                    } else {
                        assert(out.push('\n') =~= out + seq!['\n']);
                        lemma_prefix_concat(out, seq!['\n']);
                    }
                } else {
                    assert(out =~= out + seq![]);
                    lemma_prefix_concat(out, seq![]);
                }
                if comments.len() > 0 {
                    assert(o =~= o1 + (jc + seq!['\n']));
                    lemma_prefix_concat(o1, jc + seq!['\n']);
                    lemma_prefix_trans(out, o1, o);
                }
            }
            let item = if declaration {
                style_declaration(nodes, c1, indent, ctx)
            } else {
                style_rule(nodes, c1, indent, ctx)
            };
            if declaration {
                lemma_kept_style_declaration(nodes, c1, indent, ctx);
            } else {
                lemma_kept_style_rule(nodes, c1, indent, ctx);
            }
            if let Ok((t, c2)) = item {
                if c < c2 <= nodes.len() {
                    lemma_kept_style_rule_body(nodes, c2, indent, ctx, o + t, !declaration);
                    if let Ok(r) = style_rule_body(nodes, c2, indent, ctx, o + t, !declaration) {
                        assert(style_rule_body(nodes, c, indent, ctx, out, after_rule) == Ok::<Seq<char>, Stop>(r));
                        lemma_prefix_concat(o, t);
                        lemma_prefix_trans(out, o, o + t);
                        lemma_prefix_trans(out, o + t, r);
                        lemma_prefix_trans(o, o + t, r);
                        if comments.len() > 0 {
                            lemma_occurs_mid(o1, jc, seq!['\n']);
                            lemma_prefix_occurs(o, r);
                            lemma_occurs_trans(jc, o, r);
                            lemma_range_moves(nodes, c, c1, jc, r);
                        }
                        lemma_occurs_mid(o, t, seq![]);
                        assert(o + t + seq![] =~= o + t);
                        lemma_prefix_occurs(o + t, r);
                        lemma_occurs_trans(t, o + t, r);
                        lemma_range_moves(nodes, c1, c2, t, r);
                        assert forall|i: int| c <= i < nodes.len() implies tree_kept(#[trigger] nodes[i], r) by {
                            if i < c1 {
                                assert(comments.len() > 0);
                            } else if i < c2 {
                            }
                        }
                    }
                }
            }
        }
    }
}

/// The items of a sheet from `c` on keep their comments in the chunks they
/// add after `chunks`.
proof fn lemma_kept_style_items(nodes: Seq<Tree>, c: int, indent: nat, ctx: Ctx, chunks: Seq<Seq<char>>)
    requires
        !ctx.rustfmt,
        0 <= c,
    ensures
        style_items(nodes, c, indent, ctx, chunks) matches Ok(cs) ==> cs.len() >= chunks.len() && cs.subrange(
            0,
            chunks.len() as int,
        ) == chunks && range_kept(nodes, c, nodes.len() as int, crate::text::join(cs, ['\n', '\n']@)),
    decreases nodes.len() - c,
{
    lemma_style_items_unfold(nodes, c, indent, ctx, chunks);
    let sep = ['\n', '\n']@;
    if c >= nodes.len() {
        assert(chunks.subrange(0, chunks.len() as int) =~= chunks);
    } else {
        lemma_kept_style_comments(nodes, c, indent, seq![]);
        let comments = style_comments(nodes, c, indent, seq![]).0;
        let c1 = style_comments(nodes, c, indent, seq![]).1;
        let jc = crate::text::join(comments, seq!['\n']);
        if c1 >= nodes.len() {
            if comments.len() > 0 {
                let cs = chunks.push(jc);
                assert(cs.subrange(0, chunks.len() as int) =~= chunks);
                let out = crate::text::join(cs, sep);
                lemma_occurs_join(cs, sep, chunks.len() as int);
                assert forall|j: int| c <= j < nodes.len() implies tree_kept(#[trigger] nodes[j], out) by {
                    assert(tree_kept(nodes[j], comments[Seq::<Seq<char>>::empty().len() + j - c]));
                    lemma_occurs_join(comments, seq!['\n'], j - c);
                    lemma_occurs_trans(comments[j - c], jc, out);
                    lemma_tree_kept_moves(nodes[j], comments[j - c], out);
                }
            } else {
                assert(chunks.subrange(0, chunks.len() as int) =~= chunks);
            }
        } else {
            let dollar = is_tok(nodes, c1, ['$']@);
            let item = if dollar {
                style_insertion(nodes, c1, indent, ctx)
            } else {
                style_rule(nodes, c1, indent, ctx)
            };
            if dollar {
                lemma_kept_style_insertion(nodes, c1, indent, ctx);
            } else {
                lemma_kept_style_rule(nodes, c1, indent, ctx);
            }
            if let Ok((t, c2)) = item {
                if c < c2 <= nodes.len() {
                    let ls = comments.push(t);
                    let chunk = crate::text::join(ls, seq!['\n']);
                    let chunks2 = chunks.push(chunk);
                    lemma_kept_style_items(nodes, c2, indent, ctx, chunks2);
                    if let Ok(cs) = style_items(nodes, c2, indent, ctx, chunks2) {
                        assert(style_items(nodes, c, indent, ctx, chunks) == Ok::<Seq<Seq<char>>, Stop>(cs));
                        let out = crate::text::join(cs, sep);
                        assert(cs.subrange(0, chunks.len() as int) =~= chunks) by {
                            assert forall|k: int| 0 <= k < chunks.len() implies #[trigger] cs[k] == chunks[k] by {
                                assert(cs.subrange(0, chunks2.len() as int)[k] == cs[k]);
                                assert(chunks2[k] == chunks[k]);
                            }
                        }
                        assert(cs[chunks.len() as int] == chunk) by {
                            assert(cs.subrange(0, chunks2.len() as int)[chunks.len() as int] == cs[chunks.len() as int]);
                        }
                        lemma_occurs_join(cs, sep, chunks.len() as int);
                        lemma_occurs_join(ls, seq!['\n'], comments.len() as int);
                        assert(ls[comments.len() as int] == t);
                        lemma_occurs_trans(t, chunk, out);
                        lemma_range_moves(nodes, c1, c2, t, out);
                        assert forall|j: int| c <= j < nodes.len() implies tree_kept(#[trigger] nodes[j], out) by {
                            if j < c1 {
                                assert(tree_kept(nodes[j], comments[Seq::<Seq<char>>::empty().len() + j - c]));
                                lemma_occurs_join(ls, seq!['\n'], j - c);
                                assert(ls[j - c] == comments[j - c]);
                                lemma_occurs_trans(comments[j - c], chunk, out);
                                lemma_tree_kept_moves(nodes[j], comments[j - c], out);
                            } else if j < c2 {
                            }
                        }
                    }
                }
            }
        }
    }
}

/// A style sheet laid out without rustfmt keeps every comment in it.
pub proof fn lemma_kept_style_sheet(nodes: Seq<Tree>, indent: nat, computed: bool, ctx: Ctx)
    requires
        !ctx.rustfmt,
    ensures
        style_sheet(nodes, indent, computed, ctx) matches Ok(o) ==> nodes_kept(nodes, o),
{
    let captured = computed && group_at(nodes, 0, '[') is Some;
    let first: Seq<Seq<char>> = if captured {
        seq![crate::text::spaces(indent) + seq!['['] + selector_inline(group_at(nodes, 0, '[')->0) + seq![']']]
    } else {
        seq![]
    };
    let start: int = if captured {
        1
    } else {
        0
    };
    lemma_kept_style_items(nodes, start, indent, ctx, first);
    if let Ok(cs) = style_items(nodes, start, indent, ctx, first) {
        let out = crate::text::join(cs, ['\n', '\n']@);
        assert(style_sheet(nodes, indent, computed, ctx) == Ok::<Seq<char>, Stop>(out));
        if captured {
            let g = group_at(nodes, 0, '[')->0;
            let si = selector_inline(g);
            lemma_kept_selector_inline(g);
            assert(cs[0] == first[0]) by {
                assert(cs.subrange(0, 1)[0] == cs[0]);
            }
            lemma_occurs_mid(crate::text::spaces(indent) + seq!['['], si, seq![']']);
            lemma_occurs_join(cs, ['\n', '\n']@, 0);
            lemma_occurs_trans(si, cs[0], out);
            lemma_nodes_kept_moves(g, si, out);
            lemma_group_kept(nodes, 0, '[', out);
        }
        assert forall|i: int| 0 <= i < nodes.len() implies tree_kept(#[trigger] nodes[i], out) by {
            if i < start {
                assert(tree_kept(nodes[0], out));
            }
        }
        lemma_kept_range(nodes, out);
    }
}

} // verus!
