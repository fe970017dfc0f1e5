//! Layout of a `layout!` body: the item grammar (elements, `if`, `for`, `$(..)`),
//! the inline rendering of token runs, and the hand-off of Rust expressions
//! to rustfmt.
use vstd::prelude::*;

use crate::lexer::{view_node_flat, lemma_view_nodes_at, lemma_view_nodes_subrange, view_node, view_nodes, Node, Tree};
use crate::rust_syntax::{expr_error, syn_expr};
use crate::text::{
    WIDTH,
    char_is_alphanumeric, chars_eq, word_is, push_word, ends_with, ident_start, is_ascii_digit, is_ident_start,
    join, join_exec, lines, make_spaces, pop_spaces, push_all, push_spaces, sat, spaces,
    split_lines, trim, trim_of, sat_add, trim_spaces_end, unicode_alphanumeric, ascii_digit, first_of,
    lemma_first_of_bounds,
};

verus! {


// ---------------------------------------------------------------------------
// Access to the token tree.
// ---------------------------------------------------------------------------

/// The text of a token node.
pub open spec fn tok(n: Tree) -> Option<Seq<char>> {
    match n {
        Tree::Token { text, .. } => Some(text),
        _ => None,
    }
}

/// The text of the token at `i`, if a token stands there.
pub open spec fn tok_at(nodes: Seq<Tree>, i: int) -> Option<Seq<char>> {
    if 0 <= i < nodes.len() {
        tok(nodes[i])
    } else {
        None
    }
}

/// Whether the token at `i` reads `lit`.
pub open spec fn is_tok(nodes: Seq<Tree>, i: int, lit: Seq<char>) -> bool {
    tok_at(nodes, i) == Some(lit)
}

/// The children of a group node opened by `open`.
pub open spec fn group_of(n: Tree, open: char) -> Option<Seq<Tree>> {
    match n {
        Tree::Group { open: o, nodes, .. } => if o == open {
            Some(nodes)
        } else {
            None
        },
        _ => None,
    }
}

pub open spec fn group_at(nodes: Seq<Tree>, i: int, open: char) -> Option<Seq<Tree>> {
    if 0 <= i < nodes.len() {
        group_of(nodes[i], open)
    } else {
        None
    }
}



/// The first index at or after `from` that holds a group opened by `open`,
/// or the length.
#[verifier::opaque]
pub open spec fn first_group(nodes: Seq<Tree>, from: int, open: char) -> int
    decreases nodes.len() - from,
{
    if from < 0 || from >= nodes.len() {
        nodes.len() as int
    } else if group_of(nodes[from], open) is Some {
        from
    } else {
        first_group(nodes, from + 1, open)
    }
}

/// The first index at or after `from` that holds the token `lit`, or the length.
#[verifier::opaque]
pub open spec fn first_tok(nodes: Seq<Tree>, from: int, lit: Seq<char>) -> int
    decreases nodes.len() - from,
{
    if from < 0 || from >= nodes.len() {
        nodes.len() as int
    } else if tok(nodes[from]) == Some(lit) {
        from
    } else {
        first_tok(nodes, from + 1, lit)
    }
}

pub proof fn lemma_first_group(nodes: Seq<Tree>, from: int, open: char)
    requires
        0 <= from <= nodes.len(),
    ensures
        from <= first_group(nodes, from, open) <= nodes.len(),
        first_group(nodes, from, open) < nodes.len() ==> group_of(
            nodes[first_group(nodes, from, open)],
            open,
        ) is Some,
    decreases nodes.len() - from,
{
    reveal(first_group);
    if from < nodes.len() && group_of(nodes[from], open) is None {
        lemma_first_group(nodes, from + 1, open);
    }
}

pub proof fn lemma_first_tok(nodes: Seq<Tree>, from: int, lit: Seq<char>)
    requires
        0 <= from <= nodes.len(),
    ensures
        from <= first_tok(nodes, from, lit) <= nodes.len(),
        first_tok(nodes, from, lit) < nodes.len() ==> tok(nodes[first_tok(nodes, from, lit)])
            == Some(lit),
    decreases nodes.len() - from,
{
    reveal(first_tok);
    if from < nodes.len() && tok(nodes[from]) != Some(lit) {
        lemma_first_tok(nodes, from + 1, lit);
    }
}

/// Whether the token at `i` reads `lit`.
pub fn token_is<const N: usize>(nodes: &[Node], i: usize, lit: [char; N]) -> (b: bool)
    ensures
        b == is_tok(view_nodes(nodes@), i as int, lit@),
{
    proof {
        lemma_view_nodes_at(nodes@, 0);
    }
    proof {
        lemma_view_nodes_at(nodes@, i as int);
    }
    if i >= nodes.len() {
        return false;
    }
    match &nodes[i] {
        Node::Token { text, .. } => word_is(text.as_slice(), lit),
        _ => false,
    }
}

/// The token text at `i`, if a token stands there.
pub fn token_at(nodes: &[Node], i: usize) -> (r: Option<&Vec<char>>)
    ensures
        r is None <==> tok_at(view_nodes(nodes@), i as int) is None,
        r matches Some(t) ==> tok_at(view_nodes(nodes@), i as int) == Some(t@),
{
    proof {
        lemma_view_nodes_at(nodes@, 0);
    }
    proof {
        lemma_view_nodes_at(nodes@, i as int);
    }
    if i >= nodes.len() {
        return None;
    }
    match &nodes[i] {
        Node::Token { text, .. } => Some(text),
        _ => None,
    }
}

/// The children of the group at `i` if it is opened by `open`.
pub fn group_ref(nodes: &[Node], i: usize, open: char) -> (r: Option<&Vec<Node>>)
    ensures
        r is None <==> group_at(view_nodes(nodes@), i as int, open) is None,
        r matches Some(g) ==> group_at(view_nodes(nodes@), i as int, open) == Some(
            view_nodes(g@),
        ) && decreases_to!(nodes@ => g@),
{
    proof {
        lemma_view_nodes_at(nodes@, 0);
    }
    proof {
        lemma_view_nodes_at(nodes@, i as int);
    }
    if i >= nodes.len() {
        return None;
    }
    match &nodes[i] {
        Node::Group { open: o, nodes: inner, .. } => {
            if *o == open {
                assert(decreases_to!(nodes@ => inner@));
                Some(inner)
            } else {
                None
            }
        },
        _ => None,
    }
}

pub fn find_group(nodes: &[Node], from: usize, open: char) -> (r: usize)
    requires
        from <= nodes@.len(),
    ensures
        r as int == first_group(view_nodes(nodes@), from as int, open),
        from <= r <= nodes@.len(),
{
    proof {
        reveal(first_group);
    }
    proof {
        lemma_view_nodes_at(nodes@, 0);
        lemma_first_group(view_nodes(nodes@), from as int, open);
    }
    let n = nodes.len();
    let mut k = from;
    while k < n && group_ref(nodes, k, open).is_none()
        invariant
            n == nodes@.len(),
            from <= k <= n,
            first_group(view_nodes(nodes@), k as int, open) == first_group(
                view_nodes(nodes@),
                from as int,
                open,
            ),
        decreases n - k,
    {
        proof {
            reveal(first_group);
        }
        k = k + 1;
    }
    k
}

pub fn find_token<const N: usize>(nodes: &[Node], from: usize, lit: [char; N]) -> (r: usize)
    requires
        from <= nodes@.len(),
    ensures
        r as int == first_tok(view_nodes(nodes@), from as int, lit@),
        from <= r <= nodes@.len(),
{
    proof {
        reveal(first_tok);
    }
    proof {
        lemma_view_nodes_at(nodes@, 0);
        lemma_first_tok(view_nodes(nodes@), from as int, lit@);
    }
    let n = nodes.len();
    let mut k = from;
    while k < n && !token_is(nodes, k, lit)
        invariant
            n == nodes@.len(),
            from <= k <= n,
            first_tok(view_nodes(nodes@), k as int, lit@) == first_tok(
                view_nodes(nodes@),
                from as int,
                lit@,
            ),
        decreases n - k,
    {
        proof {
            reveal(first_tok);
        }
        k = k + 1;
    }
    k
}

// ---------------------------------------------------------------------------
// Inline rendering of a token run.
// ---------------------------------------------------------------------------

/// Tokens that are never preceded by a space.
#[verifier::opaque]
pub open spec fn tight_before(t: Seq<char>) -> bool {
    t == [',']@ || t == [';']@ || t == ['.']@ || t == ['?']@ || t == [':']@ || t
        == [':', ':']@ || t == ['!']@
}

/// Characters after which no space is put.
pub open spec fn tight_after(c: char) -> bool {
    c == ' ' || c == '\n' || c == '(' || c == '[' || c == '.' || c == ':' || c == '!' || c == '#'
        || c == '$'
}

/// The operators that are spaced on both sides.
#[verifier::opaque]
pub open spec fn is_operator(t: Seq<char>) -> bool {
    t == ['=']@ || t == ['+']@ || t == ['-']@ || t == ['/']@ || t == ['%']@ || t == ['=', '=']@ || t == ['!', '=']@ || t == ['<', '=']@ || t == ['>', '=']@ || t == ['&', '&']@ || t == ['|', '|']@
        || t == ['=', '>']@ || t == ['-', '>']@ || t == ['@']@ || t == ['<', '-']@ || t == ['+', '=']@
        || t == ['-', '=']@ || t == ['*', '=']@ || t == ['/', '=']@ || t == ['%', '=']@ || t == ['&', '=']@
        || t == ['|', '=']@ || t == ['^', '=']@ || t == ['<', '<', '=']@ || t == ['>', '>', '=']@ || t == ['|']@
}

/// Whether a token reads as a word: an identifier, number, or literal.
pub open spec fn is_word(t: Seq<char>) -> bool {
    t.len() > 0 && (ident_start(t[0]) || is_ascii_digit(t[0]) || t[0] == '\'' || t[0] == '"')
}

/// Whether `c` ends a value, so that a following word needs a space.
pub open spec fn ends_value(c: char) -> bool {
    unicode_alphanumeric(c) || c == '_' || c == '\'' || c == '"' || c == ')' || c == ']' || c
        == '}'
}

/// `out` followed by the token `t` with the spacing rules of the formatter.
#[verifier::opaque]
pub open spec fn append_token(out: Seq<char>, t: Seq<char>) -> Seq<char> {
    let operator = is_operator(t);
    let o1 = if !tight_before(t) && !(out.len() == 0 || tight_after(out.last())) && (operator || (
    is_word(t) && out.len() > 0 && ends_value(out.last()))) {
        out.push(' ')
    } else {
        out
    };
    let o2 = if operator {
        let trimmed = trim_spaces_end(o1);
        if trimmed.len() > 0 && trimmed.last() != '\n' {
            trimmed.push(' ')
        } else {
            trimmed
        }
    } else {
        o1
    };
    let o3 = o2 + t;
    if t == [',']@ || t == [';']@ || t == [':']@ || operator {
        o3.push(' ')
    } else {
        o3
    }
}

/// `out` followed by a `|`, which alternately opens and closes closure
/// parameters; gives the new text and whether a closure is open.
#[verifier::opaque]
pub open spec fn append_pipe(out: Seq<char>, open: bool) -> (Seq<char>, bool) {
    if open {
        (trim_spaces_end(out).push('|').push(' '), false)
    } else {
        let o = if out.len() > 0 && !(out.last() == ' ' || out.last() == '(' || out.last() == '['
            || out.last() == '{') {
            out.push(' ')
        } else {
            out
        };
        (o.push('|'), true)
    }
}

/// Whether a brace group after `out` needs a space before it.
#[verifier::opaque]
pub open spec fn needs_space_before_group(out: Seq<char>) -> bool {
    out.len() > 0 && (unicode_alphanumeric(out.last()) || out.last() == '_' || out.last() == ')'
        || out.last() == ']')
}

/// The inline rendering after the first `k` nodes, with the closure state.
#[verifier::opaque]
pub open spec fn inline_state(nodes: Seq<Tree>, k: int) -> (Seq<char>, bool)
    decreases nodes, k,
{
    if k <= 0 || k > nodes.len() {
        (seq![], false)
    } else {
        let (out, open) = inline_state(nodes, k - 1);
        match nodes[k - 1] {
            Tree::Token { text, .. } => if text == ['|']@ {
                append_pipe(out, open)
            } else {
                (append_token(out, text), open)
            },
            Tree::Comment { text, .. } => {
                let o = if out.len() > 0 && out.last() != ' ' {
                    out.push(' ')
                } else {
                    out
                };
                (o + text, open)
            },
            Tree::Group { open: o, close, nodes: inner, .. } => {
                let a = if needs_space_before_group(out) && o == '{' {
                    out.push(' ')
                } else {
                    out
                };
                let a = a.push(o);
                let a = if o == '{' && inner.len() > 0 {
                    a.push(' ')
                } else {
                    a
                };
                let a = a + inline_text(inner);
                let a = if o == '{' && inner.len() > 0 {
                    a.push(' ')
                } else {
                    a
                };
                (a.push(close), open)
            },
        }
    }
}

/// The nodes rendered on one line with the formatter's spacing rules.
#[verifier::opaque]
pub open spec fn inline_text(nodes: Seq<Tree>) -> Seq<char>
    decreases nodes, nodes.len() + 1,
{
    inline_state(nodes, nodes.len() as int).0
}

fn is_operator_exec(t: &[char]) -> (b: bool)
    ensures
        b == is_operator(t@),
{
    proof {
        reveal(is_operator);
    }
    if word_is(t, ['=']) {
        return true;
    }
    if word_is(t, ['+']) {
        return true;
    }
    if word_is(t, ['-']) {
        return true;
    }
    if word_is(t, ['/']) {
        return true;
    }
    if word_is(t, ['%']) {
        return true;
    }
    if word_is(t, ['=', '=']) {
        return true;
    }
    if word_is(t, ['!', '=']) {
        return true;
    }
    if word_is(t, ['<', '=']) {
        return true;
    }
    if word_is(t, ['>', '=']) {
        return true;
    }
    if word_is(t, ['&', '&']) {
        return true;
    }
    if word_is(t, ['|', '|']) {
        return true;
    }
    if word_is(t, ['=', '>']) {
        return true;
    }
    if word_is(t, ['-', '>']) {
        return true;
    }
    if word_is(t, ['@']) {
        return true;
    }
    if word_is(t, ['<', '-']) {
        return true;
    }
    if word_is(t, ['+', '=']) {
        return true;
    }
    if word_is(t, ['-', '=']) {
        return true;
    }
    if word_is(t, ['*', '=']) {
        return true;
    }
    if word_is(t, ['/', '=']) {
        return true;
    }
    if word_is(t, ['%', '=']) {
        return true;
    }
    if word_is(t, ['&', '=']) {
        return true;
    }
    if word_is(t, ['|', '=']) {
        return true;
    }
    if word_is(t, ['^', '=']) {
        return true;
    }
    if word_is(t, ['<', '<', '=']) {
        return true;
    }
    if word_is(t, ['>', '>', '=']) {
        return true;
    }
    if word_is(t, ['|']) {
        return true;
    }
    false
}

fn tight_before_exec(t: &[char]) -> (b: bool)
    ensures
        b == tight_before(t@),
{
    proof {
        reveal(tight_before);
    }
    if word_is(t, [',']) {
        return true;
    }
    if word_is(t, [';']) {
        return true;
    }
    if word_is(t, ['.']) {
        return true;
    }
    if word_is(t, ['?']) {
        return true;
    }
    if word_is(t, [':']) {
        return true;
    }
    if word_is(t, [':', ':']) {
        return true;
    }
    if word_is(t, ['!']) {
        return true;
    }
    false
}

fn ends_value_exec(c: char) -> (b: bool)
    ensures
        b == ends_value(c),
{
    char_is_alphanumeric(c) || c == '_' || c == '\'' || c == '"' || c == ')' || c == ']' || c
        == '}'
}

/// Appends the token `t` to `out` with the spacing rules of the formatter.
pub fn push_token(out: &mut Vec<char>, t: &[char])
    ensures
        final(out)@ == append_token(old(out)@, t@),
{
    proof {
        reveal(append_token);
    }
    let operator = is_operator_exec(t);
    let n = out.len();
    let tight_prev = n == 0 || {
        let c = out[n - 1];
        c == ' ' || c == '\n' || c == '(' || c == '[' || c == '.' || c == ':' || c == '!' || c
            == '#' || c == '$'
    };
    let word = t.len() > 0 && (is_ident_start(t[0]) || ascii_digit(t[0]) || t[0] == '\'' || t[0]
        == '"');
    let follows = n > 0 && ends_value_exec(out[n - 1]);
    if !tight_before_exec(t) && !tight_prev && (operator || (word && follows)) {
        out.push(' ');
    }
    if operator {
        pop_spaces(out);
        let m = out.len();
        if m > 0 && out[m - 1] != '\n' {
            out.push(' ');
        }
    }
    push_all(out, t);
    let comma = word_is(t, [',']);
    let semi = word_is(t, [';']);
    let colon = word_is(t, [':']);
    if comma || semi || colon || operator {
        out.push(' ');
    }
}

/// Appends a `|` to `out`; `open` tracks whether a closure's parameters are open.
pub fn push_pipe(out: &mut Vec<char>, open: &mut bool)
    ensures
        (final(out)@, *final(open)) == append_pipe(old(out)@, *old(open)),
{
    proof {
        reveal(append_pipe);
    }
    if *open {
        pop_spaces(out);
        out.push('|');
        out.push(' ');
        *open = false;
    } else {
        let n = out.len();
        if n > 0 && !(out[n - 1] == ' ' || out[n - 1] == '(' || out[n - 1] == '[' || out[n - 1]
            == '{') {
            out.push(' ');
        }
        out.push('|');
        *open = true;
    }
}

fn needs_space_before_group_exec(out: &Vec<char>) -> (b: bool)
    ensures
        b == needs_space_before_group(out@),
{
    proof {
        reveal(needs_space_before_group);
    }
    let n = out.len();
    n > 0 && (char_is_alphanumeric(out[n - 1]) || out[n - 1] == '_' || out[n - 1] == ')' || out[n
        - 1] == ']')
}

/// The nodes rendered on one line with the formatter's spacing rules.
pub fn inline(nodes: &[Node]) -> (r: Vec<char>)
    ensures
        r@ == inline_text(view_nodes(nodes@)),
    decreases nodes@,
{
    proof {
        lemma_view_nodes_at(nodes@, 0);
    }
    proof {
        reveal(inline_state);
        reveal(inline_text);
    }
    let ghost v = view_nodes(nodes@);
    proof {
        lemma_view_nodes_at(nodes@, 0);
    }
    let mut out: Vec<char> = Vec::new();
    let mut open = false;
    let n = nodes.len();
    proof {
        lemma_view_nodes_at(nodes@, 0);
    }
    let mut k: usize = 0;
    while k < n
        invariant
            n == nodes@.len(),
            v == view_nodes(nodes@),
            v.len() == nodes@.len(),
            k <= n,
            (out@, open) == inline_state(v, k as int),
        decreases n - k,
    {
        proof {
            reveal(inline_state);
            reveal(inline_text);
            lemma_view_nodes_at(nodes@, k as int);
        }
        match &nodes[k] {
            Node::Token { text, .. } => {
                if word_is(text.as_slice(), ['|']) {
                    push_pipe(&mut out, &mut open);
                } else {
                    push_token(&mut out, text.as_slice());
                }
            },
            Node::Comment { text, .. } => {
                let m = out.len();
                if m > 0 && out[m - 1] != ' ' {
                    out.push(' ');
                }
                push_all(&mut out, text.as_slice());
            },
            Node::Group { open: o, close, nodes: inner, .. } => {
                if needs_space_before_group_exec(&out) && *o == '{' {
                    out.push(' ');
                }
                out.push(*o);
                if *o == '{' && inner.len() > 0 {
                    out.push(' ');
                }
                assert(decreases_to!(nodes@ => inner@));
                proof {
                    lemma_view_nodes_at(inner@, 0);
                }
                let rendered = inline(inner.as_slice());
                push_all(&mut out, rendered.as_slice());
                if *o == '{' && inner.len() > 0 {
                    out.push(' ');
                }
                out.push(*close);
            },
        }
        k = k + 1;
    }
    out
}


// ---------------------------------------------------------------------------
// Properties of token runs.
// ---------------------------------------------------------------------------

/// Whether a comment occurs anywhere in the nodes, nested groups included.
#[verifier::opaque]
pub open spec fn contains_comments(nodes: Seq<Tree>) -> bool
    decreases nodes,
{
    if nodes.len() == 0 {
        false
    } else {
        contains_comments(nodes.subrange(0, nodes.len() - 1)) || match nodes[nodes.len() - 1] {
            Tree::Comment { .. } => true,
            Tree::Group { nodes: inner, .. } => contains_comments(inner),
            Tree::Token { .. } => false,
        }
    }
}

/// Whether the nodes hold a `;` or a comment at their own level.
pub open spec fn has_top_level_statement(nodes: Seq<Tree>) -> bool {
    contains_comments(nodes) || first_tok(nodes, 0, [';']@) < nodes.len()
}

/// Whether a brace group with a statement in it occurs in the nodes.
#[verifier::opaque]
pub open spec fn has_statement_block(nodes: Seq<Tree>) -> bool
    decreases nodes,
{
    if nodes.len() == 0 {
        false
    } else {
        has_statement_block(nodes.subrange(0, nodes.len() - 1)) || match nodes[nodes.len() - 1] {
            Tree::Group { open, nodes: inner, .. } => if open == '{' {
                has_top_level_statement(inner)
            } else {
                has_statement_block(inner)
            },
            _ => false,
        }
    }
}

/// Whether `layout ! (group)` begins at `k`.
pub open spec fn layout_call_at(nodes: Seq<Tree>, k: int) -> bool {
    0 <= k && k + 2 < nodes.len() && is_tok(nodes, k, ['l', 'a', 'y', 'o', 'u', 't']@) && is_tok(nodes, k + 1, ['!']@)
        && nodes[k + 2] is Group
}

/// Whether a nested `layout!` call occurs in the nodes.
#[verifier::opaque]
pub open spec fn has_nested_layout(nodes: Seq<Tree>) -> bool
    decreases nodes,
{
    if nodes.len() == 0 {
        false
    } else {
        has_nested_layout(nodes.subrange(0, nodes.len() - 1)) || layout_call_at(
            nodes,
            nodes.len() - 3,
        ) || match nodes[nodes.len() - 1] {
            Tree::Group { nodes: inner, .. } => has_nested_layout(inner),
            _ => false,
        }
    }
}

/// The ranges between the top-level commas; a trailing empty range is left out.
#[verifier::opaque]
pub open spec fn comma_parts(nodes: Seq<Tree>, index: int, start: int, acc: Seq<(int, int)>) -> Seq<
    (int, int),
>
    decreases nodes.len() - index,
{
    if index < 0 || index >= nodes.len() {
        if start < nodes.len() {
            acc.push((start, nodes.len() as int))
        } else {
            acc
        }
    } else if is_tok(nodes, index, [',']@) {
        comma_parts(nodes, index + 1, index + 1, acc.push((start, index)))
    } else {
        comma_parts(nodes, index + 1, start, acc)
    }
}

pub open spec fn split_commas(nodes: Seq<Tree>) -> Seq<(int, int)> {
    comma_parts(nodes, 0, 0, seq![])
}

/// Every range lies inside the nodes, and when there are several each
/// leaves out at least one node.
pub open spec fn parts_ok(nodes: Seq<Tree>, parts: Seq<(int, int)>) -> bool {
    forall|k: int|
        0 <= k < parts.len() ==> {
            let p = #[trigger] parts[k];
            &&& 0 <= p.0 <= p.1 <= nodes.len()
            &&& parts.len() > 1 ==> p.1 - p.0 < nodes.len()
        }
}

pub proof fn lemma_comma_parts(nodes: Seq<Tree>, index: int, start: int, acc: Seq<(int, int)>)
    requires
        0 <= start <= index <= nodes.len(),
        forall|k: int|
            0 <= k < acc.len() ==> {
                let p = #[trigger] acc[k];
                &&& 0 <= p.0 <= p.1 <= nodes.len()
                &&& p.1 < nodes.len()
            },
        acc.len() > 0 ==> start > 0,
    ensures
        parts_ok(nodes, comma_parts(nodes, index, start, acc)),
    decreases nodes.len() - index,
{
    reveal(comma_parts);
    if index >= nodes.len() {
        let r = comma_parts(nodes, index, start, acc);
        assert forall|k: int| 0 <= k < r.len() implies {
            let p = #[trigger] r[k];
            &&& 0 <= p.0 <= p.1 <= nodes.len()
            &&& r.len() > 1 ==> p.1 - p.0 < nodes.len()
        } by {
            if k < acc.len() {
                assert(r[k] == acc[k]);
            }
        }
    } else if is_tok(nodes, index, [',']@) {
        lemma_comma_parts(nodes, index + 1, index + 1, acc.push((start, index)));
    } else {
        lemma_comma_parts(nodes, index + 1, start, acc);
    }
}

// ---------------------------------------------------------------------------
// Rustfmt requests and answers.
// ---------------------------------------------------------------------------

/// What rustfmt printed for an expression wrapper at a width, or `None` when
/// it failed.
pub struct ExpressionAnswer {
    pub wrapper: String,
    pub max_width: usize,
    pub output: Option<String>,
}

/// What rustfmt gave for a whole source text: the formatted text, or the
/// error message to report.
pub struct SourceAnswer {
    pub source: String,
    pub output: Result<String, String>,
}

/// The rustfmt answers known so far.
pub struct RustfmtAnswers {
    pub sources: Vec<SourceAnswer>,
    pub expressions: Vec<ExpressionAnswer>,
}

/// The context of formatting: whether rustfmt is used, and its answers.
pub struct Ctx {
    pub rustfmt: bool,
    pub exprs: Seq<ExpressionAnswer>,
}

pub open spec fn ctx_of(rustfmt: bool, answers: &RustfmtAnswers) -> Ctx {
    Ctx { rustfmt, exprs: answers.expressions@ }
}

/// The first recorded answer for `wrapper` at `width`, scanning from `k`.
pub open spec fn expr_lookup(exprs: Seq<ExpressionAnswer>, k: int, wrapper: Seq<char>, width: nat) -> Option<
    Option<Seq<char>>,
>
    decreases exprs.len() - k,
{
    if k < 0 || k >= exprs.len() {
        None
    } else if exprs[k].wrapper@ == wrapper && exprs[k].max_width == width {
        Some(
            match exprs[k].output {
                Some(o) => Some(o@),
                None => None,
            },
        )
    } else {
        expr_lookup(exprs, k + 1, wrapper, width)
    }
}

/// Why formatting stopped: an error message, or a rustfmt request for an
/// expression wrapper at a width that has no answer yet.
pub enum Stop {
    Fail(Seq<char>),
    Ask(Seq<char>, nat),
}

/// Why formatting stopped.
pub enum Halt {
    Fail(Vec<char>),
    Ask(Vec<char>, usize),
}

pub open spec fn stop_of(h: Halt) -> Stop {
    match h {
        Halt::Fail(m) => Stop::Fail(m@),
        Halt::Ask(w, n) => Stop::Ask(w@, n as nat),
    }
}

pub open spec fn text_result(r: Result<Vec<char>, Halt>) -> Result<Seq<char>, Stop> {
    match r {
        Ok(v) => Ok(v@),
        Err(h) => Err(stop_of(h)),
    }
}

pub open spec fn item_result(r: Result<(Vec<char>, usize), Halt>) -> Result<(Seq<char>, int), Stop> {
    match r {
        Ok((v, c)) => Ok((v@, c as int)),
        Err(h) => Err(stop_of(h)),
    }
}

pub open spec fn option_result(r: Result<Option<Vec<char>>, Halt>) -> Result<Option<Seq<char>>, Stop> {
    match r {
        Ok(Some(v)) => Ok(Some(v@)),
        Ok(None) => Ok(None),
        Err(h) => Err(stop_of(h)),
    }
}

// ---------------------------------------------------------------------------
// Rust expressions through rustfmt.
// ---------------------------------------------------------------------------

/// The line that precedes the expression in the rustfmt wrapper.
pub open spec fn marker() -> Seq<char> {
    [' ', ' ', ' ', ' ', 'l', 'e', 't', ' ', '_', '_', 'n', 'e', 's', 't', 'i', 'x', '_', 'v', 'a', 'l', 'u', 'e', ' ', '=', ' ']@
}

/// The function that wraps an expression for rustfmt.
pub open spec fn wrapper_of(expression: Seq<char>) -> Seq<char> {
    ['f', 'n', ' ', '_', '_', 'n', 'e', 's', 't', 'i', 'x', '_', 'f', 'm', 't', '(', ')', ' ', '{', '\n']@ + marker() + expression + [';', '\n', '}', '\n']@
}

/// The rustfmt width for an expression that starts at `start_column`.
pub open spec fn rustfmt_width(start_column: nat) -> nat {
    let w = WIDTH + marker().len() - start_column;
    if w > 40 {
        w as nat
    } else {
        40
    }
}


/// The first index at or after `from` where `pat` occurs, if any.
#[verifier::opaque]
pub open spec fn find_from(s: Seq<char>, from: int, pat: Seq<char>) -> Option<int>
    decreases s.len() + 1 - from,
{
    if from < 0 || from + pat.len() > s.len() {
        None
    } else if s.subrange(from, from + pat.len()) == pat {
        Some(from)
    } else {
        find_from(s, from + 1, pat)
    }
}

/// The last index at or before `at` where `pat` occurs, if any.
#[verifier::opaque]
pub open spec fn rfind_from(s: Seq<char>, at: int, pat: Seq<char>) -> Option<int>
    decreases at + 1,
{
    if at < 0 {
        None
    } else if at + pat.len() <= s.len() && s.subrange(at, at + pat.len()) == pat {
        Some(at)
    } else {
        rfind_from(s, at - 1, pat)
    }
}

/// `line` without four leading spaces, if it has them.
pub open spec fn strip_indent(line: Seq<char>) -> Seq<char> {
    if line.len() >= 4 && line.subrange(0, 4) == [' ', ' ', ' ', ' ']@ {
        line.skip(4)
    } else {
        line
    }
}

/// The lines after the first, each on a new line at `indent`.
#[verifier::opaque]
pub open spec fn continuation_lines(ls: Seq<Seq<char>>, indent: nat) -> Seq<char>
    decreases ls.len(),
{
    if ls.len() == 0 {
        seq![]
    } else {
        continuation_lines(ls.drop_last(), indent) + seq!['\n'] + spaces(indent) + strip_indent(
            ls.last(),
        )
    }
}

/// The expression cut out of rustfmt's output for the wrapper and
/// re-indented at `indent`, if the output has the expected shape.
#[verifier::opaque]
pub open spec fn rustfmt_fragment(output: Seq<char>, indent: nat) -> Option<Seq<char>> {
    match find_from(output, 0, marker()) {
        None => None,
        Some(m) => match rfind_from(output, output.len() - 3, [';', '\n', '}']@) {
            None => None,
            Some(end) => {
                let start = m + marker().len();
                if start > end {
                    None
                } else {
                    let ls = lines(output.subrange(start, end));
                    if ls.len() == 0 {
                        None
                    } else {
                        Some(ls[0] + continuation_lines(ls.drop_first(), indent))
                    }
                }
            },
        },
    }
}

/// `expression` formatted by rustfmt for a start column, continuation lines
/// at `indent`, given whether `syn` parses it as a Rust expression: `Ok(None)`
/// when rustfmt is not in use, when it is no Rust expression, or when rustfmt
/// gave nothing usable, and a request when rustfmt has not answered yet.
#[verifier::opaque]
pub open spec fn rust_expression_with(expression: Seq<char>, parses: bool, start_column: nat, indent: nat, ctx: Ctx) -> Result<
    Option<Seq<char>>,
    Stop,
> {
    if !ctx.rustfmt || !parses {
        Ok(None)
    } else {
        let wrapper = wrapper_of(expression);
        let width = rustfmt_width(start_column);
        match expr_lookup(ctx.exprs, 0, wrapper, width) {
            None => Err(Stop::Ask(wrapper, width)),
            Some(None) => Ok(None),
            Some(Some(output)) => Ok(rustfmt_fragment(output, indent)),
        }
    }
}

/// `expression` formatted by rustfmt, as `rust_expression_with` says, where
/// `syn` decides whether it is a Rust expression.
#[verifier::opaque]
pub open spec fn fmt_rust_expression(expression: Seq<char>, start_column: nat, indent: nat, ctx: Ctx) -> Result<
    Option<Seq<char>>,
    Stop,
> {
    rust_expression_with(expression, syn_expr(expression) is None, start_column, indent, ctx)
}

/// Whether `s` holds no line break.
pub open spec fn no_breaks(s: Seq<char>) -> bool {
    forall|j: int| 0 <= j < s.len() ==> s[j] != '\n'
}

/// Whether every line break in `s` is followed by `indent` spaces.
pub open spec fn breaks_indented(s: Seq<char>, indent: nat) -> bool {
    forall|i: int|
        0 <= i < s.len() && #[trigger] s[i] == '\n' ==> i + 1 + indent <= s.len() && s.subrange(
            i + 1,
            i + 1 + indent,
        ) == spaces(indent)
}

proof fn lemma_lines_no_breaks(s: Seq<char>)
    ensures
        forall|k: int| 0 <= k < lines(s).len() ==> no_breaks(#[trigger] lines(s)[k]),
    decreases s.len(),
{
    if s.len() > 0 {
        let n = first_of(s, 0, '\n');
        lemma_first_of_bounds(s, 0, '\n');
        if n < s.len() {
            lemma_lines_no_breaks(s.skip(n + 1));
            let line = s.take(n);
            let line = if line.len() > 0 && line.last() == '\r' {
                line.drop_last()
            } else {
                line
            };
            assert(no_breaks(line));
            assert(lines(s) == seq![line] + lines(s.skip(n + 1)));
            assert forall|k: int| 0 <= k < lines(s).len() implies no_breaks(#[trigger] lines(s)[k]) by {
                if k > 0 {
                    assert(lines(s)[k] == lines(s.skip(n + 1))[k - 1]);
                }
            }
        }
    }
}

proof fn lemma_continuation_breaks(ls: Seq<Seq<char>>, indent: nat)
    requires
        forall|k: int| 0 <= k < ls.len() ==> no_breaks(#[trigger] ls[k]),
    ensures
        breaks_indented(continuation_lines(ls, indent), indent),
    decreases ls.len(),
{
    reveal(continuation_lines);
    if ls.len() > 0 {
        let p = continuation_lines(ls.drop_last(), indent);
        assert forall|k: int| 0 <= k < ls.drop_last().len() implies no_breaks(#[trigger] ls.drop_last()[k]) by {
            assert(ls.drop_last()[k] == ls[k]);
        }
        lemma_continuation_breaks(ls.drop_last(), indent);
        let last = ls[ls.len() - 1];
        assert(no_breaks(last));
        let st = strip_indent(last);
        assert(no_breaks(st)) by {
            if last.len() >= 4 && last.subrange(0, 4) == [' ', ' ', ' ', ' ']@ {
                assert forall|j: int| 0 <= j < st.len() implies st[j] != '\n' by {
                    assert(st[j] == last[j + 4]);
                }
            }
        }
        let r = p + seq!['\n'] + spaces(indent) + st;
        assert(continuation_lines(ls, indent) == r);
        let q = p.len() + 1 + indent;
        assert forall|i: int| 0 <= i < r.len() && #[trigger] r[i] == '\n' implies i + 1 + indent <= r.len()
            && r.subrange(i + 1, i + 1 + indent) == spaces(indent) by {
            if i < p.len() {
                assert(r[i] == p[i]);
                assert(p[i] == '\n');
                assert(r.subrange(i + 1, i + 1 + indent) =~= p.subrange(i + 1, i + 1 + indent));
            } else if i == p.len() {
                assert(r.subrange(i + 1, i + 1 + indent) =~= spaces(indent));
            } else if i < q {
                assert(r[i] == spaces(indent)[i - p.len() - 1]);
            } else {
                assert(r[i] == st[i - q]);
            }
        }
    }
}

proof fn lemma_fragment_breaks(output: Seq<char>, indent: nat)
    ensures
        rustfmt_fragment(output, indent) matches Some(f) ==> breaks_indented(f, indent),
{
    reveal(rustfmt_fragment);
    match find_from(output, 0, marker()) {
        None => {},
        Some(m) => match rfind_from(output, output.len() - 3, [';', '\n', '}']@) {
            None => {},
            Some(end) => {
                let start = m + marker().len();
                if start <= end {
                    let ls = lines(output.subrange(start, end));
                    if ls.len() > 0 {
                        lemma_lines_no_breaks(output.subrange(start, end));
                        let rest = ls.drop_first();
                        assert forall|k: int| 0 <= k < rest.len() implies no_breaks(#[trigger] rest[k]) by {
                            assert(rest[k] == ls[k + 1]);
                        }
                        lemma_continuation_breaks(rest, indent);
                        let head = ls[0];
                        assert(no_breaks(head));
                        let c = continuation_lines(rest, indent);
                        let f = head + c;
                        assert forall|i: int| 0 <= i < f.len() && #[trigger] f[i] == '\n' implies i + 1 + indent
                            <= f.len() && f.subrange(i + 1, i + 1 + indent) == spaces(indent) by {
                            if i < head.len() {
                                assert(f[i] == head[i]);
                            } else {
                                let j = i - head.len();
                                assert(f[i] == c[j]);
                                assert(c[j] == '\n');
                                assert(f.subrange(i + 1, i + 1 + indent) =~= c.subrange(j + 1, j + 1 + indent));
                            }
                        }
                    }
                }
            },
        },
    }
}

/// rustfmt's layout of an embedded Rust expression is re-indented: every line
/// after the first starts at the continuation indent.
pub proof fn lemma_rust_expression_continuation(expression: Seq<char>, start_column: nat, indent: nat, ctx: Ctx)
    ensures
        fmt_rust_expression(expression, start_column, indent, ctx) matches Ok(Some(f)) ==> breaks_indented(
            f,
            indent,
        ),
{
    reveal(fmt_rust_expression);
    reveal(rust_expression_with);
    let wrapper = wrapper_of(expression);
    let width = rustfmt_width(start_column);
    match expr_lookup(ctx.exprs, 0, wrapper, width) {
        Some(Some(output)) => lemma_fragment_breaks(output, indent),
        _ => {},
    }
}


// ---------------------------------------------------------------------------
// Pieces of layout items.
// ---------------------------------------------------------------------------

pub proof fn lemma_group_smaller(nodes: Seq<Tree>, i: int, open: char)
    ensures
        group_at(nodes, i, open) matches Some(g) ==> decreases_to!(nodes => g),
{
    if 0 <= i < nodes.len() {
        match nodes[i] {
            Tree::Group { nodes: g, .. } => {
                assert(decreases_to!(nodes => nodes[i]));
            },
            _ => {},
        }
    }
}

/// The lines of a comment, each trimmed and indented.
#[verifier::opaque]
pub open spec fn comment_lines(text: Seq<char>, indent: nat) -> Seq<Seq<char>> {
    lines(text).map_values(|line: Seq<char>| spaces(indent) + trim(line))
}

/// The lines of the comments, each trimmed, indented and ended by a newline.
#[verifier::opaque]
pub open spec fn comment_block(comments: Seq<Seq<char>>, indent: nat) -> Seq<char>
    decreases comments.len(),
{
    if comments.len() == 0 {
        seq![]
    } else {
        comment_block(comments.drop_last(), indent) + lines_block(lines(comments.last()), indent)
    }
}

#[verifier::opaque]
pub open spec fn lines_block(ls: Seq<Seq<char>>, indent: nat) -> Seq<char>
    decreases ls.len(),
{
    if ls.len() == 0 {
        seq![]
    } else {
        lines_block(ls.drop_last(), indent) + spaces(indent) + trim(ls.last()) + seq!['\n']
    }
}

/// The first index at or after `from` that is not a comment, or the length.
#[verifier::opaque]
pub open spec fn first_non_comment(nodes: Seq<Tree>, from: int) -> int
    decreases nodes.len() - from,
{
    if from < 0 || from >= nodes.len() {
        nodes.len() as int
    } else if nodes[from] is Comment {
        first_non_comment(nodes, from + 1)
    } else {
        from
    }
}

/// The texts of the comments in `nodes[a..b]`.
#[verifier::opaque]
pub open spec fn comment_texts(nodes: Seq<Tree>, a: int, b: int) -> Seq<Seq<char>>
    decreases b - a,
{
    if b <= a || b > nodes.len() || a < 0 {
        seq![]
    } else {
        comment_texts(nodes, a, b - 1) + match nodes[b - 1] {
            Tree::Comment { text, .. } => seq![text],
            _ => seq![],
        }
    }
}

/// Comments that stand before a postfix part of an element (`$`, `|`, or a
/// group) are taken into `comments`; otherwise nothing moves.
#[verifier::opaque]
pub open spec fn collect_postfix(nodes: Seq<Tree>, cursor: int, comments: Seq<Seq<char>>) -> (
    Seq<Seq<char>>,
    int,
) {
    let e = first_non_comment(nodes, cursor);
    if e < nodes.len() && (is_tok(nodes, e, ['$']@) || is_tok(nodes, e, ['|']@)
        || nodes[e] is Group) {
        (comments + comment_texts(nodes, cursor, e), e)
    } else {
        (comments, cursor)
    }
}

proof fn lemma_first_non_comment(nodes: Seq<Tree>, from: int)
    requires
        0 <= from <= nodes.len(),
    ensures
        from <= first_non_comment(nodes, from) <= nodes.len(),
        forall|j: int| from <= j < first_non_comment(nodes, from) ==> #[trigger] nodes[j] is Comment,
        first_non_comment(nodes, from) < nodes.len() ==> !(nodes[first_non_comment(nodes, from)] is Comment),
    decreases nodes.len() - from,
{
    reveal(first_non_comment);
    if from < nodes.len() && nodes[from] is Comment {
        lemma_first_non_comment(nodes, from + 1);
    }
}

proof fn lemma_comment_texts_run(nodes: Seq<Tree>, a: int, b: int)
    requires
        0 <= a <= b <= nodes.len(),
        forall|j: int| a <= j < b ==> #[trigger] nodes[j] is Comment,
    ensures
        comment_texts(nodes, a, b).len() == b - a,
        forall|i: int| a <= i < b ==> comment_texts(nodes, a, b)[i - a] == (#[trigger] nodes[i])->Comment_text,
    decreases b - a,
{
    reveal(comment_texts);
    if b > a {
        lemma_comment_texts_run(nodes, a, b - 1);
        assert(nodes[b - 1] is Comment);
    }
}

/// Comments before a postfix part of an element move into the element's
/// comments: when the longest run of comments at `cursor` is followed by a
/// `$` or `|` token or a group, the cursor moves past the run and its texts
/// are appended in order; otherwise nothing changes.
pub proof fn lemma_collect_postfix(nodes: Seq<Tree>, cursor: int, comments: Seq<Seq<char>>)
    requires
        0 <= cursor <= nodes.len(),
    ensures
        ({
            let e = first_non_comment(nodes, cursor);
            &&& cursor <= e <= nodes.len()
            &&& forall|j: int| cursor <= j < e ==> #[trigger] nodes[j] is Comment
            &&& e < nodes.len() ==> !(nodes[e] is Comment)
            &&& if e < nodes.len() && (is_tok(nodes, e, ['$']@) || is_tok(nodes, e, ['|']@)
                || nodes[e] is Group) {
                &&& collect_postfix(nodes, cursor, comments).1 == e
                &&& collect_postfix(nodes, cursor, comments).0.len() == comments.len() + (e - cursor)
                &&& collect_postfix(nodes, cursor, comments).0.subrange(0, comments.len() as int) == comments
                &&& forall|i: int| cursor <= i < e ==> collect_postfix(nodes, cursor, comments).0[comments.len() + i
                    - cursor] == (#[trigger] nodes[i])->Comment_text
            } else {
                collect_postfix(nodes, cursor, comments) == (comments, cursor)
            }
        }),
{
    reveal(collect_postfix);
    lemma_first_non_comment(nodes, cursor);
    let e = first_non_comment(nodes, cursor);
    lemma_comment_texts_run(nodes, cursor, e);
    let t = comment_texts(nodes, cursor, e);
    assert((comments + t).subrange(0, comments.len() as int) =~= comments);
    assert forall|i: int| cursor <= i < e implies (comments + t)[comments.len() + i - cursor]
        == (#[trigger] nodes[i])->Comment_text by {
        assert((comments + t)[comments.len() + i - cursor] == t[i - cursor]);
    }
}

/// The rest of a component type's path from `c`, with `angles` generic
/// brackets open: the index after it, or an error message. With `shifts`, a
/// `>>` token closes two open brackets (the one, where only one is open), as
/// Rust's own parser reads it; without, it is skipped like any other token
/// inside brackets.
#[verifier::opaque]
pub open spec fn type_tail(nodes: Seq<Tree>, c: int, angles: int, shifts: bool) -> Result<int, Seq<char>>
    decreases nodes.len() - c,
{
    match tok_at(nodes, c) {
        Some(t) => if t == ['<']@ {
            type_tail(nodes, c + 1, angles + 1, shifts)
        } else if t == ['>']@ && angles > 0 {
            type_tail(nodes, c + 1, angles - 1, shifts)
        } else if shifts && t == ['>', '>']@ && angles > 0 {
            type_tail(nodes, c + 1, if angles > 1 { angles - 2 } else { 0 }, shifts)
        } else if angles > 0 {
            type_tail(nodes, c + 1, angles, shifts)
        } else if t == [':', ':']@ {
            if c + 1 >= nodes.len() {
                Err(['e', 'x', 'p', 'e', 'c', 't', 'e', 'd', ' ', 'p', 'a', 't', 'h', ' ', 's', 'e', 'g', 'm', 'e', 'n', 't', ' ', 'a', 'f', 't', 'e', 'r', ' ', '`', ':', ':', '`']@)
            } else {
                type_tail(nodes, c + 2, angles, shifts)
            }
        } else {
            Ok(c)
        },
        None => if angles > 0 {
            Err(['u', 'n', 'c', 'l', 'o', 's', 'e', 'd', ' ', 'g', 'e', 'n', 'e', 'r', 'i', 'c', ' ', 'a', 'r', 'g', 'u', 'm', 'e', 'n', 't', 's', ' ', 'i', 'n', ' ', 'c', 'o', 'm', 'p', 'o', 'n', 'e', 'n', 't', ' ', 't', 'y', 'p', 'e']@)
        } else {
            Ok(c)
        },
    }
}

/// Whether a token after `&` or `*` qualifies the pointer: a lifetime, `mut`
/// or `const`.
pub open spec fn is_pointer_qualifier(t: Seq<char>) -> bool {
    (t.len() > 0 && t[0] == '\'') || t == ['m', 'u', 't']@ || t == ['c', 'o', 'n', 's', 't']@
}

/// The component type that begins at `c`: the index after it, or an error
/// message; `shifts` as for `type_tail`.
#[verifier::opaque]
pub open spec fn type_end(nodes: Seq<Tree>, c: int, shifts: bool) -> Result<int, Seq<char>>
    decreases nodes.len() - c,
{
    if c < 0 || c >= nodes.len() {
        Ok(c)
    } else {
        match nodes[c] {
            Tree::Group { open, .. } => if open == '(' {
                Ok(c + 1)
            } else {
                Ok(c)
            },
            Tree::Comment { .. } => Ok(c),
            Tree::Token { text, .. } => if text == ['&']@ || text == ['*']@ {
                let next = match tok_at(nodes, c + 1) {
                    Some(u) => if is_pointer_qualifier(u) {
                        c + 2
                    } else {
                        c + 1
                    },
                    None => c + 1,
                };
                type_end(nodes, next, shifts)
            } else if text == [':', ':']@ {
                if tok_at(nodes, c + 1) is None {
                    Err(['e', 'x', 'p', 'e', 'c', 't', 'e', 'd', ' ', 'p', 'a', 't', 'h', ' ', 's', 'e', 'g', 'm', 'e', 'n', 't', ' ', 'a', 'f', 't', 'e', 'r', ' ', 'l', 'e', 'a', 'd', 'i', 'n', 'g', ' ', '`', ':', ':', '`']@)
                } else {
                    type_tail(nodes, c + 2, 0, shifts)
                }
            } else {
                type_tail(nodes, c + 1, 0, shifts)
            },
        }
    }
}

/// The component type that begins at `c` as the formatter reads it: the
/// index after it, or an error message. A `>>` token does not close brackets.
pub open spec fn consume_type(nodes: Seq<Tree>, c: int) -> Result<int, Seq<char>> {
    type_end(nodes, c, false)
}

/// The separator of an assignment-like DSL line: the first `=` or `:` token
/// from `from`, or the length.
#[verifier::opaque]
pub open spec fn first_assign(nodes: Seq<Tree>, from: int) -> int
    decreases nodes.len() - from,
{
    if from < 0 || from >= nodes.len() {
        nodes.len() as int
    } else if is_tok(nodes, from, ['=']@) || is_tok(nodes, from, [':']@) {
        from
    } else {
        first_assign(nodes, from + 1)
    }
}

/// A DSL assignment (`.name = expr` or `name: expr`) whose right side rustfmt
/// formats: `Ok(None)` when the nodes are no such assignment or rustfmt gave
/// nothing usable.
#[verifier::opaque]
pub open spec fn fmt_dsl_assignment(nodes: Seq<Tree>, indent: nat, ctx: Ctx) -> Result<
    Option<Seq<char>>,
    Stop,
> {
    let sep = first_assign(nodes, 0);
    if sep >= nodes.len() || sep == 0 || sep + 1 == nodes.len() {
        Ok(None)
    } else if !(is_tok(nodes, 0, ['.']@) || first_tok(nodes.subrange(0, sep + 1), 0, [':']@)
        < sep + 1) {
        Ok(None)
    } else {
        let left = crate::text::trim_end(inline_text(nodes.subrange(0, sep + 1)));
        let expression = inline_text(nodes.subrange(sep + 1, nodes.len() as int));
        match fmt_rust_expression(
            expression,
            sat_add(sat_add(indent, crate::text::byte_len(left)), 1),
            indent,
            ctx,
        ) {
            Err(e) => Err(e),
            Ok(None) => Ok(None),
            Ok(Some(e)) => Ok(Some(left + seq![' '] + e)),
        }
    }
}

/// `s` without `prefix` when it begins with it.
pub open spec fn strip_prefix(s: Seq<char>, prefix: Seq<char>) -> Seq<char> {
    if prefix.len() <= s.len() && s.subrange(0, prefix.len() as int) == prefix {
        s.skip(prefix.len() as int)
    } else {
        s
    }
}

// ---------------------------------------------------------------------------
// The layout of token runs and items.
// ---------------------------------------------------------------------------

/// A token run laid out at `indent`: on one line when it fits and rustfmt is
/// in use, through rustfmt when it is a Rust expression or a DSL assignment,
/// split at top-level commas, or token by token.
#[verifier::opaque]
pub open spec fn fmt_generic(nodes: Seq<Tree>, indent: nat, ctx: Ctx) -> Result<Seq<char>, Stop>
    decreases nodes, 1int, 0int,
{
    let compact = inline_text(nodes);
    let cc = contains_comments(nodes);
    let nl = has_nested_layout(nodes);
    if ctx.rustfmt && !cc && !has_statement_block(nodes) && !nl && indent + crate::text::byte_len(
        compact,
    ) <= WIDTH {
        Ok(compact)
    } else {
        let through_rustfmt = if ctx.rustfmt && !cc && !nl {
            fmt_rust_expression(compact, indent, indent, ctx)
        } else {
            Ok(None)
        };
        match through_rustfmt {
            Err(e) => Err(e),
            Ok(Some(f)) => Ok(f),
            Ok(None) => {
                let assignment = if ctx.rustfmt {
                    fmt_dsl_assignment(nodes, indent, ctx)
                } else {
                    Ok(None)
                };
                match assignment {
                    Err(e) => Err(e),
                    Ok(Some(f)) => Ok(f),
                    Ok(None) => {
                        let parts = split_commas(nodes);
                        proof {
                            lemma_comma_parts(nodes, 0, 0, seq![]);
                        }
                        if parts.len() > 1 {
                            match generic_parts(nodes, parts, 0, indent, ctx, seq![]) {
                                Err(e) => Err(e),
                                Ok(texts) => Ok(join(texts, [',', '\n']@ + spaces(indent))),
                            }
                        } else {
                            generic_tokens(nodes, 0, indent, ctx, seq![], false)
                        }
                    },
                }
            },
        }
    }
}

/// The non-empty comma parts from `k` on, each laid out at `indent`.
#[verifier::opaque]
pub open spec fn generic_parts(
    nodes: Seq<Tree>,
    parts: Seq<(int, int)>,
    k: int,
    indent: nat,
    ctx: Ctx,
    acc: Seq<Seq<char>>,
) -> Result<Seq<Seq<char>>, Stop>
    decreases nodes, 0int, parts.len() - k,
{
    if k < 0 || k >= parts.len() || !parts_ok(nodes, parts) || parts.len() <= 1 {
        Ok(acc)
    } else {
        let (a, b) = parts[k];
        if a == b {
            generic_parts(nodes, parts, k + 1, indent, ctx, acc)
        } else {
            match fmt_generic(nodes.subrange(a, b), indent, ctx) {
                Err(e) => Err(e),
                Ok(t) => generic_parts(nodes, parts, k + 1, indent, ctx, acc.push(t)),
            }
        }
    }
}

/// The token-by-token layout from `index` on, after `out`.
#[verifier::opaque]
pub open spec fn generic_tokens(
    nodes: Seq<Tree>,
    index: int,
    indent: nat,
    ctx: Ctx,
    out: Seq<char>,
    pipe: bool,
) -> Result<Seq<char>, Stop>
    decreases nodes, 0int, nodes.len() - index,
{
    if index < 0 || index >= nodes.len() {
        Ok(out)
    } else if layout_call_at(nodes, index) {
        match nodes[index + 2] {
            Tree::Group { open, close, nodes: body, .. } => {
                let o = append_token(append_token(out, ['l', 'a', 'y', 'o', 'u', 't']@), ['!']@);
                let o = if open == '{' {
                    o.push(' ')
                } else {
                    o
                };
                let o = o.push(open).push('\n');
                let inner = match fmt_layout(body, sat_add(indent, 4), ctx) {
                    Ok(t) => Ok(t),
                    Err(Stop::Fail(_)) => Ok(spaces(sat_add(indent, 4)) + inline_text(body)),
                    Err(Stop::Ask(w, n)) => Err(Stop::Ask(w, n)),
                };
                match inner {
                    Err(e) => Err(e),
                    Ok(t) => generic_tokens(
                        nodes,
                        index + 3,
                        indent,
                        ctx,
                        o + t + seq!['\n'] + spaces(indent) + seq![close],
                        pipe,
                    ),
                }
            },
            _ => Ok(out),
        }
    } else {
        match nodes[index] {
            Tree::Comment { text, .. } => {
                let o = if out.len() > 0 && out.last() != '\n' {
                    out.push('\n')
                } else {
                    out
                };
                let o = o + text;
                let o = if index + 1 < nodes.len() {
                    o + seq!['\n'] + spaces(indent)
                } else {
                    o
                };
                generic_tokens(nodes, index + 1, indent, ctx, o, pipe)
            },
            Tree::Group { open, close, nodes: inner, .. } => {
                if open == '{' && has_top_level_statement(inner) {
                    let o = trim_spaces_end(out);
                    let o = if o.len() > 0 {
                        o.push(' ')
                    } else {
                        o
                    };
                    match fmt_rust_block(inner, indent, ctx) {
                        Err(e) => Err(e),
                        Ok(b) => generic_tokens(nodes, index + 1, indent, ctx, o + b, pipe),
                    }
                } else {
                    match fmt_generic(inner, indent, ctx) {
                        Err(e) => Err(e),
                        Ok(g) => generic_tokens(
                            nodes,
                            index + 1,
                            indent,
                            ctx,
                            out.push(open) + g + seq![close],
                            pipe,
                        ),
                    }
                }
            },
            Tree::Token { text, .. } => if text == ['|']@ {
                let (o, p) = append_pipe(out, pipe);
                generic_tokens(nodes, index + 1, indent, ctx, o, p)
            } else {
                generic_tokens(nodes, index + 1, indent, ctx, append_token(out, text), pipe)
            },
        }
    }
}

/// A brace block with statements: one statement per line at `indent + 4`,
/// each ended by `;` where the source had one.
#[verifier::opaque]
pub open spec fn fmt_rust_block(nodes: Seq<Tree>, indent: nat, ctx: Ctx) -> Result<Seq<char>, Stop>
    decreases nodes, 3int, 0int,
{
    let child = sat_add(indent, 4);
    match block_scan(nodes, 0, 0, child, ctx, ['{', '\n']@) {
        Err(e) => Err(e),
        Ok(o) => Ok(o + spaces(indent) + seq!['}']),
    }
}

/// The statements of a block from `index` on, the current one beginning at
/// `start`.
#[verifier::opaque]
pub open spec fn block_scan(
    nodes: Seq<Tree>,
    index: int,
    start: int,
    child: nat,
    ctx: Ctx,
    out: Seq<char>,
) -> Result<Seq<char>, Stop>
    decreases nodes, 2int, nodes.len() - index,
{
    if index < 0 || start < 0 || start > index || index >= nodes.len() {
        if 0 <= start < nodes.len() {
            proof {
                if start == 0 {
                    assert(nodes.subrange(start, nodes.len() as int) =~= nodes);
                }
            }
            match fmt_generic(nodes.subrange(start, nodes.len() as int), child, ctx) {
                Err(e) => Err(e),
                Ok(g) => Ok(out + spaces(child) + g + seq!['\n']),
            }
        } else {
            Ok(out)
        }
    } else if is_tok(nodes, index, [';']@) {
        if start < index {
            match fmt_generic(nodes.subrange(start, index), child, ctx) {
                Err(e) => Err(e),
                Ok(g) => block_scan(
                    nodes,
                    index + 1,
                    index + 1,
                    child,
                    ctx,
                    out + spaces(child) + g + [';', '\n']@,
                ),
            }
        } else {
            block_scan(nodes, index + 1, index + 1, child, ctx, out)
        }
    } else {
        block_scan(nodes, index + 1, start, child, ctx, out)
    }
}

/// Parenthesized arguments after a prefix of `prefix_len` bytes at `indent`:
/// on one line when they fit, else one comma part per line.
#[verifier::opaque]
pub open spec fn fmt_parens(nodes: Seq<Tree>, indent: nat, prefix_len: nat, ctx: Ctx) -> Result<
    Seq<char>,
    Stop,
>
    decreases nodes, 3int, 0int,
{
    if nodes.len() == 0 {
        Ok(['(', ')']@)
    } else {
        match fmt_generic(nodes, sat_add(sat_add(indent, prefix_len), 1), ctx) {
            Err(e) => Err(e),
            Ok(compact) => if !contains_comments(nodes) && !has_statement_block(nodes) && indent
                + prefix_len + crate::text::byte_len(compact) + 2 <= WIDTH {
                Ok(seq!['('] + compact + seq![')'])
            } else {
                let child = sat_add(indent, 4);
                let parts = split_commas(nodes);
                proof {
                    lemma_comma_parts(nodes, 0, 0, seq![]);
                }
                match parens_parts(nodes, parts, 0, child, ctx, ['(', '\n']@) {
                    Err(e) => Err(e),
                    Ok(o) => Ok(o + spaces(indent) + seq![')']),
                }
            },
        }
    }
}

/// The non-empty comma parts from `k` on, one per line at `child`.
#[verifier::opaque]
pub open spec fn parens_parts(
    nodes: Seq<Tree>,
    parts: Seq<(int, int)>,
    k: int,
    child: nat,
    ctx: Ctx,
    out: Seq<char>,
) -> Result<Seq<char>, Stop>
    decreases nodes, 2int, parts.len() - k,
{
    if k < 0 || k >= parts.len() || !parts_ok(nodes, parts) {
        Ok(out)
    } else {
        let (a, b) = parts[k];
        if a == b {
            parens_parts(nodes, parts, k + 1, child, ctx, out)
        } else {
            proof {
                if a == 0 && b == nodes.len() {
                    assert(nodes.subrange(a, b) =~= nodes);
                }
            }
            match fmt_generic(nodes.subrange(a, b), child, ctx) {
                Err(e) => Err(e),
                Ok(g) => parens_parts(
                    nodes,
                    parts,
                    k + 1,
                    child,
                    ctx,
                    out + spaces(child) + g + [',', '\n']@,
                ),
            }
        }
    }
}

/// The header of a `for` item: `binding in data` and an optional
/// `where key = expr`.
#[verifier::opaque]
pub open spec fn fmt_for_header(nodes: Seq<Tree>, indent: nat, ctx: Ctx) -> Result<Seq<char>, Stop>
    decreases nodes, 2int, 0int,
{
    let in_at = first_tok(nodes, 0, ['i', 'n']@);
    proof {
        lemma_first_tok(nodes, 0, ['i', 'n']@);
        lemma_first_tok(nodes, 0, ['w', 'h', 'e', 'r', 'e']@);
    }
    if in_at >= nodes.len() {
        fmt_generic(nodes, indent, ctx)
    } else {
        let where_at = first_tok(nodes, 0, ['w', 'h', 'e', 'r', 'e']@);
        let data_end = if where_at < nodes.len() {
            where_at
        } else {
            nodes.len() as int
        };
        let binding = inline_text(nodes.subrange(0, in_at));
        let data_end = if data_end < in_at + 1 {
            in_at + 1
        } else {
            data_end
        };
        match fmt_generic(nodes.subrange(in_at + 1, data_end), indent, ctx) {
            Err(e) => Err(e),
            Ok(data) => {
                let header = binding + [' ', 'i', 'n', ' ']@ + data;
                if where_at < nodes.len() {
                    let key_start = where_at + 1;
                    let eq = first_tok(nodes, key_start, ['=']@);
                    proof {
                        lemma_first_tok(nodes, key_start, ['=']@);
                    }
                    if eq < nodes.len() {
                        let key_name = inline_text(nodes.subrange(key_start, eq));
                        match fmt_generic(nodes.subrange(eq + 1, nodes.len() as int), indent, ctx) {
                            Err(e) => Err(e),
                            Ok(key) => Ok(header + [' ', 'w', 'h', 'e', 'r', 'e', ' ']@ + key_name + [' ', '=', ' ']@ + key),
                        }
                    } else {
                        match fmt_generic(
                            nodes.subrange(key_start, nodes.len() as int),
                            indent,
                            ctx,
                        ) {
                            Err(e) => Err(e),
                            Ok(key) => Ok(header + [' ', 'w', 'h', 'e', 'r', 'e', ' ']@ + key),
                        }
                    }
                } else {
                    Ok(header)
                }
            },
        }
    }
}

/// An element item from `cursor`: optional binding, component type, props,
/// captures, child closure parameters and children.
#[verifier::opaque]
pub open spec fn fmt_element(nodes: Seq<Tree>, cursor: int, indent: nat, yielded: bool, ctx: Ctx) -> Result<
    (Seq<char>, int),
    Stop,
>
    decreases nodes, 6int, 0int,
{
    let prefix: Seq<char> = if yielded {
        ['y', 'i', 'e', 'l', 'd', ' ']@
    } else {
        seq![]
    };
    let bound = if is_tok(nodes, cursor + 1, ['@']@) {
        match tok_at(nodes, cursor) {
            None => Err(Stop::Fail(['e', 'x', 'p', 'e', 'c', 't', 'e', 'd', ' ', 'b', 'i', 'n', 'd', 'i', 'n', 'g', ' ', 'n', 'a', 'm', 'e']@)),
            Some(b) => Ok((prefix + b + [' ', '@', ' ']@, cursor + 2)),
        }
    } else {
        Ok((prefix, cursor))
    };
    match bound {
        Err(e) => Err(e),
        Ok((prefix, c)) => match consume_type(nodes, c) {
            Err(m) => Err(Stop::Fail(m)),
            Ok(c2) => if c2 == c {
                Err(Stop::Fail(['e', 'x', 'p', 'e', 'c', 't', 'e', 'd', ' ', 'c', 'o', 'm', 'p', 'o', 'n', 'e', 'n', 't', ' ', 't', 'y', 'p', 'e']@))
            } else if c < 0 || c2 < c || c2 > nodes.len() {
                Err(Stop::Fail(['e', 'x', 'p', 'e', 'c', 't', 'e', 'd', ' ', 'c', 'o', 'm', 'p', 'o', 'n', 'e', 'n', 't', ' ', 't', 'y', 'p', 'e']@))
            } else {
                let prefix = prefix + inline_text(nodes.subrange(c, c2));
                let (comments, c3) = collect_postfix(nodes, c2, seq![]);
                element_props(nodes, c3, indent, ctx, prefix, comments)
            },
        },
    }
}

/// The element after its type: props from `c` on.
#[verifier::opaque]
pub open spec fn element_props(
    nodes: Seq<Tree>,
    c: int,
    indent: nat,
    ctx: Ctx,
    prefix: Seq<char>,
    comments: Seq<Seq<char>>,
) -> Result<(Seq<char>, int), Stop>
    decreases nodes, 5int, 0int,
{
    proof {
        lemma_group_smaller(nodes, c + 1, '(');
        lemma_group_smaller(nodes, c, '(');
    }
    let props = if is_tok(nodes, c, ['$']@) {
        match group_at(nodes, c + 1, '(') {
            None => Err(Stop::Fail(['e', 'x', 'p', 'e', 'c', 't', 'e', 'd', ' ', 'd', 'i', 'r', 'e', 'c', 't', ' ', 'p', 'r', 'o', 'p', 's', ' ', 'a', 'f', 't', 'e', 'r', ' ', '`', '$', '`']@)),
            Some(props) => {
                let p = prefix.push('$');
                match fmt_parens(props, indent, sat(crate::text::byte_len(p) as int), ctx) {
                    Err(e) => Err(e),
                    Ok(t) => Ok((p + t, c + 2)),
                }
            },
        }
    } else {
        match group_at(nodes, c, '(') {
            Some(props) => match fmt_parens(props, indent, sat(crate::text::byte_len(prefix) as int), ctx) {
                Err(e) => Err(e),
                Ok(t) => Ok((prefix + t, c + 1)),
            },
            None => Ok((prefix, c)),
        }
    };
    match props {
        Err(e) => Err(e),
        Ok((prefix, c)) => {
            let (comments, c) = collect_postfix(nodes, c, comments);
            element_captures(nodes, c, indent, ctx, prefix, comments)
        },
    }
}

/// The element after its props: captures from `c` on.
#[verifier::opaque]
pub open spec fn element_captures(
    nodes: Seq<Tree>,
    c: int,
    indent: nat,
    ctx: Ctx,
    prefix: Seq<char>,
    comments: Seq<Seq<char>>,
) -> Result<(Seq<char>, int), Stop>
    decreases nodes, 4int, 0int,
{
    proof {
        lemma_group_smaller(nodes, c, '[');
    }
    let captured = match group_at(nodes, c, '[') {
        Some(captures) => {
            let p = prefix.push(' ').push('[');
            match fmt_generic(captures, sat_add(sat_add(indent, crate::text::byte_len(p)), 1), ctx) {
                Err(e) => Err(e),
                Ok(t) => Ok((p + t + seq![']'], c + 1)),
            }
        },
        None => Ok((prefix, c)),
    };
    match captured {
        Err(e) => Err(e),
        Ok((prefix, c)) => {
            let (comments, c) = collect_postfix(nodes, c, comments);
            element_closure(nodes, c, indent, ctx, prefix, comments)
        },
    }
}

/// The element after its captures: child closure parameters and children
/// from `c` on.
#[verifier::opaque]
pub open spec fn element_closure(
    nodes: Seq<Tree>,
    c: int,
    indent: nat,
    ctx: Ctx,
    prefix: Seq<char>,
    comments: Seq<Seq<char>>,
) -> Result<(Seq<char>, int), Stop>
    decreases nodes, 3int, 0int,
{
    let closure = if is_tok(nodes, c, ['|']@) {
        let args_start = c + 1;
        let close = first_tok(nodes, args_start, ['|']@);
        proof {
            lemma_first_tok(nodes, args_start, ['|']@);
        }
        if close >= nodes.len() {
            Err(Stop::Fail(['u', 'n', 'c', 'l', 'o', 's', 'e', 'd', ' ', 'c', 'h', 'i', 'l', 'd', ' ', 'c', 'l', 'o', 's', 'u', 'r', 'e', ' ', 'a', 'r', 'g', 'u', 'm', 'e', 'n', 't', 's']@))
        } else {
            let p = prefix.push(' ').push('|');
            match fmt_generic(
                nodes.subrange(args_start, close),
                sat_add(indent, crate::text::byte_len(p)),
                ctx,
            ) {
                Err(e) => Err(e),
                Ok(t) => Ok((p + t + seq!['|'], close + 1)),
            }
        }
    } else {
        Ok((prefix, c))
    };
    match closure {
        Err(e) => Err(e),
        Ok((prefix, c)) => {
            let (comments, c) = collect_postfix(nodes, c, comments);
            let head = comment_block(comments, indent) + spaces(indent) + prefix;
            proof {
                lemma_group_smaller(nodes, c, '{');
            }
            match group_at(nodes, c, '{') {
                Some(children) => match fmt_layout(children, sat_add(indent, 4), ctx) {
                    Err(e) => Err(e),
                    Ok(t) => Ok(
                        (
                            head + [' ', '{', '\n']@ + t + seq!['\n'] + spaces(indent) + seq!['}'],
                            c + 1,
                        ),
                    ),
                },
                None => Ok((head, c)),
            }
        },
    }
}

/// An `if` item whose `if` stands at `cursor`, with its `else` branches.
#[verifier::opaque]
pub open spec fn fmt_if(nodes: Seq<Tree>, cursor: int, indent: nat, ctx: Ctx) -> Result<
    (Seq<char>, int),
    Stop,
>
    decreases nodes, 6int, nodes.len() - cursor,
{
    let c = cursor + 1;
    if c < 0 || c > nodes.len() {
        Err(Stop::Fail(['e', 'x', 'p', 'e', 'c', 't', 'e', 'd', ' ', 'b', 'l', 'o', 'c', 'k', ' ', 'a', 'f', 't', 'e', 'r', ' ', '`', 'i', 'f', '`', ' ', 'c', 'o', 'n', 'd', 'i', 't', 'i', 'o', 'n']@))
    } else {
        let branch = first_group(nodes, c, '{');
        proof {
            lemma_first_group(nodes, c, '{');
            lemma_group_smaller(nodes, branch, '{');
        }
        if branch >= nodes.len() {
            Err(Stop::Fail(['e', 'x', 'p', 'e', 'c', 't', 'e', 'd', ' ', 'b', 'l', 'o', 'c', 'k', ' ', 'a', 'f', 't', 'e', 'r', ' ', '`', 'i', 'f', '`', ' ', 'c', 'o', 'n', 'd', 'i', 't', 'i', 'o', 'n']@))
        } else {
            let cond = nodes.subrange(c, branch);
            let ci = inline_text(cond);
            let condition = if ctx.rustfmt && indent + 3 + crate::text::byte_len(ci) > WIDTH {
                match fmt_rust_expression(ci, sat_add(indent, 3), indent, ctx) {
                    Err(e) => Err(e),
                    Ok(Some(f)) => Ok(f),
                    Ok(None) => fmt_generic(cond, sat_add(indent, 3), ctx),
                }
            } else {
                fmt_generic(cond, sat_add(indent, 3), ctx)
            };
            match condition {
                Err(e) => Err(e),
                Ok(condition) => match fmt_layout(group_at(nodes, branch, '{')->0, sat_add(indent, 4), ctx) {
                    Err(e) => Err(e),
                    Ok(body) => {
                        let out = spaces(indent) + ['i', 'f', ' ']@ + condition + [' ', '{', '\n']@ + body
                            + seq!['\n'] + spaces(indent) + seq!['}'];
                        let c = branch + 1;
                        if is_tok(nodes, c, ['e', 'l', 's', 'e']@) {
                            let c = c + 1;
                            if is_tok(nodes, c, ['i', 'f']@) {
                                match fmt_if(nodes, c, indent, ctx) {
                                    Err(e) => Err(e),
                                    Ok((nested, c2)) => Ok(
                                        (
                                            out + [' ', 'e', 'l', 's', 'e', ' ']@ + strip_prefix(
                                                nested,
                                                spaces(indent),
                                            ),
                                            c2,
                                        ),
                                    ),
                                }
                            } else {
                                proof {
                                    lemma_group_smaller(nodes, c, '{');
                                }
                                match group_at(nodes, c, '{') {
                                    None => Err(Stop::Fail(['e', 'x', 'p', 'e', 'c', 't', 'e', 'd', ' ', 'b', 'l', 'o', 'c', 'k', ' ', 'a', 'f', 't', 'e', 'r', ' ', '`', 'e', 'l', 's', 'e', '`']@)),
                                    Some(other) => match fmt_layout(other, sat_add(indent, 4), ctx) {
                                        Err(e) => Err(e),
                                        Ok(b) => Ok(
                                            (
                                                out + [' ', 'e', 'l', 's', 'e', ' ', '{', '\n']@ + b + seq!['\n'] + spaces(
                                                    indent,
                                                ) + seq!['}'],
                                                c + 1,
                                            ),
                                        ),
                                    },
                                }
                            }
                        } else {
                            Ok((out, c))
                        }
                    },
                },
            }
        }
    }
}

/// A `for` item whose `for` stands at `cursor`.
#[verifier::opaque]
pub open spec fn fmt_for(nodes: Seq<Tree>, cursor: int, indent: nat, ctx: Ctx) -> Result<
    (Seq<char>, int),
    Stop,
>
    decreases nodes, 6int, 0int,
{
    let c = cursor + 1;
    if c < 0 || c > nodes.len() {
        Err(Stop::Fail(['e', 'x', 'p', 'e', 'c', 't', 'e', 'd', ' ', 'b', 'l', 'o', 'c', 'k', ' ', 'a', 'f', 't', 'e', 'r', ' ', '`', 'f', 'o', 'r', '`', ' ', 'h', 'e', 'a', 'd', 'e', 'r']@))
    } else {
        let body_at = first_group(nodes, c, '{');
        proof {
            lemma_first_group(nodes, c, '{');
            lemma_group_smaller(nodes, body_at, '{');
        }
        if body_at >= nodes.len() {
            Err(Stop::Fail(['e', 'x', 'p', 'e', 'c', 't', 'e', 'd', ' ', 'b', 'l', 'o', 'c', 'k', ' ', 'a', 'f', 't', 'e', 'r', ' ', '`', 'f', 'o', 'r', '`', ' ', 'h', 'e', 'a', 'd', 'e', 'r']@))
        } else {
            match fmt_for_header(nodes.subrange(c, body_at), sat_add(indent, 4), ctx) {
                Err(e) => Err(e),
                Ok(header) => match fmt_layout(group_at(nodes, body_at, '{')->0, sat_add(indent, 4), ctx) {
                    Err(e) => Err(e),
                    Ok(body) => Ok(
                        (
                            spaces(indent) + ['f', 'o', 'r', ' ']@ + header + [' ', '{', '\n']@ + body + seq!['\n']
                                + spaces(indent) + seq!['}'],
                            body_at + 1,
                        ),
                    ),
                },
            }
        }
    }
}

/// "could not format layout item beginning with `{start}`: {message}"
pub open spec fn item_message(start: Seq<char>, message: Seq<char>) -> Seq<char> {
    ['c', 'o', 'u', 'l', 'd', ' ', 'n', 'o', 't', ' ', 'f', 'o', 'r', 'm', 'a', 't', ' ', 'l', 'a', 'y', 'o', 'u', 't', ' ', 'i', 't', 'e', 'm', ' ', 'b', 'e', 'g', 'i', 'n', 'n', 'i', 'n', 'g', ' ', 'w', 'i', 't', 'h', ' ', '`']@ + start + ['`', ':', ' ']@ + message
}

/// One layout item from `cursor`: a `$(..)` insertion, an `if`, a `for`, or
/// an element; its text and the index after it.
#[verifier::opaque]
pub open spec fn fmt_item(nodes: Seq<Tree>, cursor: int, indent: nat, ctx: Ctx) -> Result<
    (Seq<char>, int),
    Stop,
>
    decreases nodes, 7int, 0int,
{
    let yielded = is_tok(nodes, cursor, ['y', 'i', 'e', 'l', 'd']@);
    let c = if yielded {
        cursor + 1
    } else {
        cursor
    };
    if is_tok(nodes, c, ['$']@) {
        let c = c + 1;
        proof {
            lemma_group_smaller(nodes, c, '(');
        }
        if c >= nodes.len() {
            Err(Stop::Fail(['e', 'x', 'p', 'e', 'c', 't', 'e', 'd', ' ', 'e', 'x', 'p', 'r', 'e', 's', 's', 'i', 'o', 'n', ' ', 'a', 'f', 't', 'e', 'r', ' ', '`', '$', '`']@))
        } else {
            match group_at(nodes, c, '(') {
                None => Err(Stop::Fail(['e', 'x', 'p', 'e', 'c', 't', 'e', 'd', ' ', 'p', 'a', 'r', 'e', 'n', 't', 'h', 'e', 's', 'i', 'z', 'e', 'd', ' ', 'e', 'x', 'p', 'r', 'e', 's', 's', 'i', 'o', 'n', ' ', 'a', 'f', 't', 'e', 'r', ' ', '`', '$', '`']@)),
                Some(inner) => match fmt_generic(inner, sat_add(indent, 2), ctx) {
                    Err(e) => Err(e),
                    Ok(e) => Ok(
                        (
                            spaces(indent) + (if yielded {
                                ['y', 'i', 'e', 'l', 'd', ' ']@
                            } else {
                                seq![]
                            }) + ['$', '(']@ + e + seq![')'],
                            c + 1,
                        ),
                    ),
                },
            }
        }
    } else if !yielded && is_tok(nodes, c, ['i', 'f']@) {
        fmt_if(nodes, c, indent, ctx)
    } else if !yielded && is_tok(nodes, c, ['f', 'o', 'r']@) {
        fmt_for(nodes, c, indent, ctx)
    } else {
        match fmt_element(nodes, c, indent, yielded, ctx) {
            Err(Stop::Fail(m)) => {
                let end = if nodes.len() < cursor + 4 {
                    nodes.len() as int
                } else {
                    cursor + 4
                };
                let start = if 0 <= cursor <= end {
                    inline_text(nodes.subrange(cursor, end))
                } else {
                    seq![]
                };
                Err(Stop::Fail(item_message(start, m)))
            },
            other => other,
        }
    }
}

/// The layout lines from `c` on, after `lines`: a leading `,` is skipped.
#[verifier::opaque]
pub open spec fn layout_lines(
    nodes: Seq<Tree>,
    c: int,
    indent: nat,
    ctx: Ctx,
    lines: Seq<Seq<char>>,
) -> Result<Seq<Seq<char>>, Stop>
    decreases nodes, 8int, 2 * (nodes.len() - c) + 1,
{
    if c < 0 || c >= nodes.len() {
        Ok(lines)
    } else if is_tok(nodes, c, [',']@) {
        layout_lines(nodes, c + 1, indent, ctx, lines)
    } else {
        comments_then_item(nodes, c, indent, ctx, lines)
    }
}

/// The comments from `c` on, then the item after them.
#[verifier::opaque]
pub open spec fn comments_then_item(
    nodes: Seq<Tree>,
    c: int,
    indent: nat,
    ctx: Ctx,
    lines: Seq<Seq<char>>,
) -> Result<Seq<Seq<char>>, Stop>
    decreases nodes, 8int, 2 * (nodes.len() - c),
{
    if c < 0 || c >= nodes.len() {
        Ok(lines)
    } else {
        match nodes[c] {
            Tree::Comment { text, .. } => comments_then_item(
                nodes,
                c + 1,
                indent,
                ctx,
                lines + comment_lines(text, indent),
            ),
            _ => match fmt_item(nodes, c, indent, ctx) {
                Err(e) => Err(e),
                Ok((line, c2)) => if c2 <= c || c2 > nodes.len() {
                    Err(Stop::Fail(['e', 'x', 'p', 'e', 'c', 't', 'e', 'd', ' ', 'c', 'o', 'm', 'p', 'o', 'n', 'e', 'n', 't', ' ', 't', 'y', 'p', 'e']@))
                } else {
                    layout_lines(nodes, c2, indent, ctx, lines.push(line))
                },
            },
        }
    }
}

/// The items of a layout body, one per line (comments on their own lines) at
/// `indent`.
#[verifier::opaque]
pub open spec fn fmt_layout(nodes: Seq<Tree>, indent: nat, ctx: Ctx) -> Result<Seq<char>, Stop>
    decreases nodes, 9int, 0int,
{
    match layout_lines(nodes, 0, indent, ctx, seq![]) {
        Err(e) => Err(e),
        Ok(lines) => Ok(join(lines, seq!['\n'])),
    }
}


// ---------------------------------------------------------------------------
// Executable predicates and pieces.
// ---------------------------------------------------------------------------

pub proof fn lemma_prefix_step(nodes: Seq<Tree>, k: int)
    requires
        0 <= k < nodes.len(),
    ensures
        nodes.subrange(0, k + 1).subrange(0, k) == nodes.subrange(0, k),
        nodes.subrange(0, k + 1)[k] == nodes[k],
        nodes.subrange(0, k + 1).len() == k + 1,
{
    assert(nodes.subrange(0, k + 1).subrange(0, k) =~= nodes.subrange(0, k));
}

proof fn lemma_prefix_monotone(v: Seq<Tree>, j: int)
    requires
        0 <= j <= v.len(),
    ensures
        contains_comments(v.subrange(0, j)) ==> contains_comments(v),
        has_statement_block(v.subrange(0, j)) ==> has_statement_block(v),
        has_nested_layout(v.subrange(0, j)) ==> has_nested_layout(v),
    decreases v.len() - j,
{
    reveal(contains_comments);
    reveal(has_statement_block);
    reveal(has_nested_layout);
    if j < v.len() {
        lemma_prefix_step(v, j);
        lemma_prefix_monotone(v, j + 1);
    } else {
        assert(v.subrange(0, j) =~= v);
    }
}

/// Whether a comment occurs anywhere in the nodes, nested groups included.
pub fn has_comments(nodes: &[Node]) -> (b: bool)
    ensures
        b == contains_comments(view_nodes(nodes@)),
    decreases nodes@,
{
    proof {
        reveal(contains_comments);
    }
    let ghost v = view_nodes(nodes@);
    proof {
        lemma_view_nodes_at(nodes@, 0);
    }
    let n = nodes.len();
    let mut k: usize = 0;
    assert(v.subrange(0, 0).len() == 0);
    while k < n
        invariant
            n == nodes@.len(),
            v == view_nodes(nodes@),
            v.len() == nodes@.len(),
            k <= n,
            !contains_comments(v.subrange(0, k as int)),
        decreases n - k,
    {
        proof {
            reveal(contains_comments);
        }
        proof {
            lemma_prefix_step(v, k as int);
            lemma_prefix_monotone(v, k + 1);
        }
        proof {
            lemma_view_nodes_at(nodes@, (k) as int);
        }
        match &nodes[k] {
            Node::Comment { .. } => {
                return true;
            },
            Node::Group { nodes: inner, .. } => {
                assert(decreases_to!(nodes@ => inner@));
                if has_comments(inner.as_slice()) {
                    return true;
                }
            },
            Node::Token { .. } => {},
        }
        k = k + 1;
    }
    assert(v.subrange(0, n as int) =~= v);
    false
}

/// Whether the nodes hold a `;` or a comment at their own level.
pub fn top_level_statement(nodes: &[Node]) -> (b: bool)
    ensures
        b == has_top_level_statement(view_nodes(nodes@)),
{
    proof {
        lemma_view_nodes_at(nodes@, 0);
    }
    has_comments(nodes) || find_token(nodes, 0, [';']) < nodes.len()
}

/// Whether a brace group with a statement in it occurs in the nodes.
pub fn statement_block(nodes: &[Node]) -> (b: bool)
    ensures
        b == has_statement_block(view_nodes(nodes@)),
    decreases nodes@,
{
    proof {
        reveal(has_statement_block);
    }
    let ghost v = view_nodes(nodes@);
    proof {
        lemma_view_nodes_at(nodes@, 0);
    }
    let n = nodes.len();
    let mut k: usize = 0;
    assert(v.subrange(0, 0).len() == 0);
    while k < n
        invariant
            n == nodes@.len(),
            v == view_nodes(nodes@),
            v.len() == nodes@.len(),
            k <= n,
            !has_statement_block(v.subrange(0, k as int)),
        decreases n - k,
    {
        proof {
            reveal(has_statement_block);
        }
        proof {
            lemma_prefix_step(v, k as int);
            lemma_prefix_monotone(v, k + 1);
        }
        proof {
            lemma_view_nodes_at(nodes@, (k) as int);
        }
        match &nodes[k] {
            Node::Group { open, nodes: inner, .. } => {
                assert(decreases_to!(nodes@ => inner@));
                if *open == '{' {
                    if top_level_statement(inner.as_slice()) {
                        return true;
                    }
                } else if statement_block(inner.as_slice()) {
                    return true;
                }
            },
            _ => {},
        }
        k = k + 1;
    }
    assert(v.subrange(0, n as int) =~= v);
    false
}

fn layout_call(nodes: &[Node], k: usize) -> (b: bool)
    ensures
        b == layout_call_at(view_nodes(nodes@), k as int),
{
    proof {
        lemma_view_nodes_at(nodes@, 0);
    }
    let n = nodes.len();
    if k >= n || n - k <= 2 {
        return false;
    }
    proof {
        lemma_view_nodes_at(nodes@, k + 2);
    }
    token_is(nodes, k, ['l', 'a', 'y', 'o', 'u', 't']) && token_is(nodes, k + 1, ['!']) && match &nodes[k + 2] {
        Node::Group { .. } => true,
        _ => false,
    }
}

/// Whether a nested `layout!` call occurs in the nodes.
pub fn nested_layout(nodes: &[Node]) -> (b: bool)
    ensures
        b == has_nested_layout(view_nodes(nodes@)),
    decreases nodes@,
{
    proof {
        reveal(has_nested_layout);
    }
    let ghost v = view_nodes(nodes@);
    proof {
        lemma_view_nodes_at(nodes@, 0);
    }
    let n = nodes.len();
    let mut k: usize = 0;
    assert(v.subrange(0, 0).len() == 0);
    while k < n
        invariant
            n == nodes@.len(),
            v == view_nodes(nodes@),
            v.len() == nodes@.len(),
            k <= n,
            !has_nested_layout(v.subrange(0, k as int)),
        decreases n - k,
    {
        proof {
            reveal(has_nested_layout);
        }
        proof {
            lemma_prefix_step(v, k as int);
            lemma_prefix_monotone(v, k + 1);
        }
        let ghost w = v.subrange(0, k + 1);
        if k >= 2 && layout_call(nodes, k - 2) {
            assert(layout_call_at(w, w.len() - 3)) by {
                assert(w[k - 2] == v[k - 2]);
                assert(w[k - 1] == v[k - 1]);
            }
            return true;
        }
        assert(!layout_call_at(w, w.len() - 3)) by {
            if k >= 2 {
                assert(w[k - 2] == v[k - 2]);
                assert(w[k - 1] == v[k - 1]);
            }
        }
        proof {
            lemma_view_nodes_at(nodes@, (k) as int);
        }
        match &nodes[k] {
            Node::Group { nodes: inner, .. } => {
                assert(decreases_to!(nodes@ => inner@));
                if nested_layout(inner.as_slice()) {
                    return true;
                }
            },
            _ => {},
        }
        k = k + 1;
    }
    assert(v.subrange(0, n as int) =~= v);
    false
}

/// The ranges between the top-level commas; a trailing empty range is left out.
pub fn split_commas_exec(nodes: &[Node]) -> (r: Vec<(usize, usize)>)
    ensures
        r@.len() == split_commas(view_nodes(nodes@)).len(),
        forall|k: int|
            0 <= k < r@.len() ==> (r@[k].0 as int, r@[k].1 as int) == #[trigger] split_commas(
                view_nodes(nodes@),
            )[k],
        parts_ok(view_nodes(nodes@), split_commas(view_nodes(nodes@))),
{
    proof {
        reveal(comma_parts);
    }
    let ghost v = view_nodes(nodes@);
    proof {
        lemma_view_nodes_at(nodes@, 0);
    }
    proof {
        lemma_comma_parts(v, 0, 0, seq![]);
    }
    let n = nodes.len();
    let mut parts: Vec<(usize, usize)> = Vec::new();
    let mut start: usize = 0;
    let mut index: usize = 0;
    assert(parts@.map_values(|p: (usize, usize)| (p.0 as int, p.1 as int)) =~= Seq::<
        (int, int),
    >::empty());
    while index < n
        invariant
            n == nodes@.len(),
            v == view_nodes(nodes@),
            v.len() == nodes@.len(),
            start <= index <= n,
            comma_parts(v, index as int, start as int, parts@.map_values(|p: (usize, usize)| (p.0 as int, p.1 as int)))
                == split_commas(v),
        decreases n - index,
    {
        proof {
            reveal(comma_parts);
        }
        if token_is(nodes, index, [',']) {
            let ghost before = parts@;
            parts.push((start, index));
            assert(parts@.map_values(|p: (usize, usize)| (p.0 as int, p.1 as int)) =~= before.map_values(
                |p: (usize, usize)| (p.0 as int, p.1 as int),
            ).push((start as int, index as int)));
            start = index + 1;
        }
        index = index + 1;
    }
    if start < n {
        let ghost before = parts@;
        parts.push((start, n));
        assert(parts@.map_values(|p: (usize, usize)| (p.0 as int, p.1 as int)) =~= before.map_values(
            |p: (usize, usize)| (p.0 as int, p.1 as int),
        ).push((start as int, n as int)));
    }
    assert(forall|k: int|
        0 <= k < parts@.len() ==> (parts@[k].0 as int, parts@[k].1 as int) == parts@.map_values(
            |p: (usize, usize)| (p.0 as int, p.1 as int),
        )[k]);
    parts
}

fn copy_chars(v: &[char]) -> (r: Vec<char>)
    ensures
        r@ == v@,
{
    let mut r: Vec<char> = Vec::new();
    push_all(&mut r, v);
    r
}

pub open spec fn texts(v: Seq<Vec<char>>) -> Seq<Seq<char>> {
    v.map_values(|t: Vec<char>| t@)
}

/// Appends the comment lines of `text`, trimmed and indented, to `lines`.
fn push_comment_lines(out: &mut Vec<Vec<char>>, text: &[char], indent: usize)
    ensures
        texts(final(out)@) == texts(old(out)@) + comment_lines(text@, indent as nat),
{
    proof {
        reveal(comment_lines);
    }
    let ls = split_lines(text);
    let ghost cl = comment_lines(text@, indent as nat);
    let mut k: usize = 0;
    while k < ls.len()
        invariant
            k <= ls@.len(),
            ls@.len() == lines(text@).len(),
            forall|j: int| 0 <= j < ls@.len() ==> (#[trigger] ls@[j])@ == lines(text@)[j],
            cl == comment_lines(text@, indent as nat),
            texts(out@) == texts(old(out)@) + cl.take(k as int),
        decreases ls@.len() - k,
    {
        proof {
            reveal(comment_lines);
        }
        let mut line = make_spaces(indent);
        let t = trim_of(ls[k].as_slice());
        push_all(&mut line, t.as_slice());
        let ghost before = out@;
        out.push(line);
        assert(texts(out@) =~= texts(before).push(line@));
        assert(cl.take(k + 1) =~= cl.take(k as int).push(cl[k as int]));
        k = k + 1;
    }
    assert(cl.take(ls@.len() as int) =~= cl);
}

/// Appends the lines of each comment, trimmed, indented and ended by a newline.
fn push_comment_block(out: &mut Vec<char>, comments: &Vec<Vec<char>>, indent: usize)
    ensures
        final(out)@ == old(out)@ + comment_block(texts(comments@), indent as nat),
{
    proof {
        reveal(comment_block);
        reveal(lines_block);
    }
    let ghost cs = texts(comments@);
    let mut k: usize = 0;
    while k < comments.len()
        invariant
            k <= comments@.len(),
            cs == texts(comments@),
            out@ == old(out)@ + comment_block(cs.take(k as int), indent as nat),
        decreases comments@.len() - k,
    {
        proof {
            reveal(comment_block);
            reveal(lines_block);
        }
        assert(cs.take(k + 1).drop_last() =~= cs.take(k as int));
        let ls = split_lines(comments[k].as_slice());
        let ghost before = out@;
        let ghost lv = lines(cs[k as int]);
        let mut j: usize = 0;
        while j < ls.len()
            invariant
                j <= ls@.len(),
                ls@.len() == lv.len(),
                forall|i: int| 0 <= i < ls@.len() ==> (#[trigger] ls@[i])@ == lv[i],
                out@ == before + lines_block(lv.take(j as int), indent as nat),
            decreases ls@.len() - j,
        {
            proof {
                reveal(comment_block);
                reveal(lines_block);
            }
            assert(lv.take(j + 1).drop_last() =~= lv.take(j as int));
            push_spaces(out, indent);
            let t = trim_of(ls[j].as_slice());
            push_all(out, t.as_slice());
            out.push('\n');
            j = j + 1;
            assert(out@ =~= before + lines_block(lv.take(j as int), indent as nat));
        }
        assert(lv.take(ls@.len() as int) =~= lv);
        k = k + 1;
        assert(out@ =~= old(out)@ + comment_block(cs.take(k as int), indent as nat));
    }
    assert(cs.take(comments@.len() as int) =~= cs);
}

fn is_comment_at(nodes: &[Node], i: usize) -> (b: bool)
    requires
        i < nodes@.len(),
    ensures
        b == view_nodes(nodes@)[i as int] is Comment,
{
    proof {
        lemma_view_nodes_at(nodes@, 0);
    }
    proof {
        lemma_view_nodes_at(nodes@, (i) as int);
    }
    match &nodes[i] {
        Node::Comment { .. } => true,
        _ => false,
    }
}

fn is_group_at(nodes: &[Node], i: usize) -> (b: bool)
    requires
        i < nodes@.len(),
    ensures
        b == view_nodes(nodes@)[i as int] is Group,
{
    proof {
        lemma_view_nodes_at(nodes@, 0);
    }
    proof {
        lemma_view_nodes_at(nodes@, (i) as int);
    }
    match &nodes[i] {
        Node::Group { .. } => true,
        _ => false,
    }
}

/// Takes the comments before a postfix part of an element into `comments`
/// and moves past them; otherwise leaves the cursor where it was.
pub fn collect_postfix_comments(nodes: &[Node], cursor: usize, comments: &mut Vec<Vec<char>>) -> (r: usize)
    ensures
        (texts(final(comments)@), r as int) == collect_postfix(
            view_nodes(nodes@),
            cursor as int,
            texts(old(comments)@),
        ),
        cursor <= r,
        cursor <= nodes@.len() ==> r <= nodes@.len(),
{
    proof {
        lemma_view_nodes_at(nodes@, 0);
    }
    proof {
        reveal(first_non_comment);
        reveal(comment_texts);
        reveal(collect_postfix);
    }
    if cursor > nodes.len() {
        return cursor;
    }
    let ghost v = view_nodes(nodes@);
    proof {
        lemma_view_nodes_at(nodes@, 0);
    }
    let n = nodes.len();
    let mut e = cursor;
    while e < n && is_comment_at(nodes, e)
        invariant
            n == nodes@.len(),
            v == view_nodes(nodes@),
            v.len() == nodes@.len(),
            cursor <= e <= n,
            first_non_comment(v, e as int) == first_non_comment(v, cursor as int),
            forall|j: int| cursor <= j < e ==> v[j] is Comment,
        decreases n - e,
    {
        proof {
            reveal(first_non_comment);
            reveal(comment_texts);
            reveal(collect_postfix);
        }
        e = e + 1;
    }
    let postfix = e < n && (token_is(nodes, e, ['$']) || token_is(nodes, e, ['|'])
        || is_group_at(nodes, e));
    if postfix {
        let ghost before = texts(comments@);
        let mut j = cursor;
        assert(comment_texts(v, cursor as int, cursor as int) =~= Seq::<Seq<char>>::empty());
        while j < e
            invariant
                n == nodes@.len(),
                v == view_nodes(nodes@),
                v.len() == nodes@.len(),
                cursor <= j <= e <= n,
                texts(comments@) == before + comment_texts(v, cursor as int, j as int),
            decreases e - j,
        {
            proof {
                reveal(first_non_comment);
                reveal(comment_texts);
                reveal(collect_postfix);
            }
            proof {
                lemma_view_nodes_at(nodes@, (j) as int);
            }
            match &nodes[j] {
                Node::Comment { text, .. } => {
                    let ghost b2 = comments@;
                    comments.push(copy_chars(text.as_slice()));
                    assert(texts(comments@) =~= texts(b2).push(text@));
                },
                _ => {},
            }
            j = j + 1;
            assert(texts(comments@) =~= before + comment_texts(v, cursor as int, j as int));
        }
        e
    } else {
        cursor
    }
}

proof fn lemma_type_tail(nodes: Seq<Tree>, c: int, angles: int, shifts: bool)
    requires
        0 <= c,
    ensures
        type_tail(nodes, c, angles, shifts) matches Ok(e) ==> c <= e && (c <= nodes.len() ==> e
            <= nodes.len()),
    decreases nodes.len() - c,
{
    reveal(type_tail);
    match tok_at(nodes, c) {
        Some(t) => if t == ['<']@ {
            lemma_type_tail(nodes, c + 1, angles + 1, shifts);
        } else if t == ['>']@ && angles > 0 {
            lemma_type_tail(nodes, c + 1, angles - 1, shifts);
        } else if shifts && t == ['>', '>']@ && angles > 0 {
            lemma_type_tail(nodes, c + 1, if angles > 1 { angles - 2 } else { 0 }, shifts);
        } else if angles > 0 {
            lemma_type_tail(nodes, c + 1, angles, shifts);
        } else if t == [':', ':']@ {
            if c + 1 < nodes.len() {
                lemma_type_tail(nodes, c + 2, angles, shifts);
            }
        },
        None => {},
    }
}

pub proof fn lemma_type_end(nodes: Seq<Tree>, c: int, shifts: bool)
    requires
        0 <= c <= nodes.len(),
    ensures
        type_end(nodes, c, shifts) matches Ok(e) ==> c <= e <= nodes.len(),
    decreases nodes.len() - c,
{
    reveal(type_end);
    if c < nodes.len() {
        match nodes[c] {
            Tree::Token { text, .. } => if text == ['&']@ || text == ['*']@ {
                let next = match tok_at(nodes, c + 1) {
                    Some(u) => if is_pointer_qualifier(u) {
                        c + 2
                    } else {
                        c + 1
                    },
                    None => c + 1,
                };
                lemma_type_end(nodes, next, shifts);
            } else if text == [':', ':']@ {
                lemma_type_tail(nodes, c + 2, 0, shifts);
            } else {
                lemma_type_tail(nodes, c + 1, 0, shifts);
            },
            _ => {},
        }
    }
}

pub proof fn lemma_consume_type(nodes: Seq<Tree>, c: int)
    requires
        0 <= c <= nodes.len(),
    ensures
        consume_type(nodes, c) matches Ok(e) ==> c <= e <= nodes.len(),
{
    lemma_type_end(nodes, c, false);
}

fn type_tail_exec(nodes: &[Node], start: usize, shifts: bool) -> (r: Result<usize, Vec<char>>)
    requires
        start <= nodes@.len() + 1,
    ensures
        match (r, type_tail(view_nodes(nodes@), start as int, 0, shifts)) {
            (Ok(a), Ok(b)) => a as int == b,
            (Err(m), Err(n)) => m@ == n,
            _ => false,
        },
{
    proof {
        reveal(type_tail);
    }
    let ghost v = view_nodes(nodes@);
    proof {
        lemma_view_nodes_at(nodes@, 0);
    }
    let n = nodes.len();
    let mut c = start;
    let mut angles: usize = 0;
    loop
        invariant
            n == nodes@.len(),
            v == view_nodes(nodes@),
            v.len() == nodes@.len(),
            c <= n + 1,
            angles <= c,
            type_tail(v, c as int, angles as int, shifts) == type_tail(v, start as int, 0, shifts),
        decreases n + 1 - c,
    {
        proof {
            reveal(type_tail);
        }
        match token_at(nodes, c) {
            Some(t) => {
                if word_is(t.as_slice(), ['<']) {
                    angles = angles + 1;
                    c = c + 1;
                } else if word_is(t.as_slice(), ['>']) && angles > 0 {
                    angles = angles - 1;
                    c = c + 1;
                } else if shifts && word_is(t.as_slice(), ['>', '>']) && angles > 0 {
                    angles = if angles > 1 { angles - 2 } else { 0 };
                    c = c + 1;
                } else if angles > 0 {
                    c = c + 1;
                } else if word_is(t.as_slice(), [':', ':']) {
                    if c + 1 >= n {
                        let mut m: Vec<char> = Vec::new();
                        push_word(&mut m, ['e', 'x', 'p', 'e', 'c', 't', 'e', 'd', ' ', 'p', 'a', 't', 'h', ' ', 's', 'e', 'g', 'm', 'e', 'n', 't', ' ', 'a', 'f', 't', 'e', 'r', ' ', '`', ':', ':', '`']);
                        return Err(m);
                    }
                    c = c + 2;
                } else {
                    return Ok(c);
                }
            },
            None => {
                if angles > 0 {
                    let mut m: Vec<char> = Vec::new();
                    push_word(&mut m, ['u', 'n', 'c', 'l', 'o', 's', 'e', 'd', ' ', 'g', 'e', 'n', 'e', 'r', 'i', 'c', ' ', 'a', 'r', 'g', 'u', 'm', 'e', 'n', 't', 's', ' ', 'i', 'n', ' ', 'c', 'o', 'm', 'p', 'o', 'n', 'e', 'n', 't', ' ', 't', 'y', 'p', 'e']);
                    return Err(m);
                }
                return Ok(c);
            },
        }
    }
}

/// The component type that begins at `c`: the index after it, or an error
/// message; `shifts` as for `type_tail`.
pub fn type_end_exec(nodes: &[Node], c: usize, shifts: bool) -> (r: Result<usize, Vec<char>>)
    ensures
        match (r, type_end(view_nodes(nodes@), c as int, shifts)) {
            (Ok(a), Ok(b)) => a as int == b,
            (Err(m), Err(n)) => m@ == n,
            _ => false,
        },
    decreases nodes@.len() - c,
{
    proof {
        reveal(type_end);
        lemma_view_nodes_at(nodes@, 0);
    }
    let n = nodes.len();
    if c >= n {
        return Ok(c);
    }
    proof {
        lemma_view_nodes_at(nodes@, (c) as int);
    }
    match &nodes[c] {
        Node::Group { open, .. } => {
            if *open == '(' {
                Ok(c + 1)
            } else {
                Ok(c)
            }
        },
        Node::Comment { .. } => Ok(c),
        Node::Token { text, .. } => {
            if word_is(text.as_slice(), ['&']) || word_is(text.as_slice(), ['*']) {
                let next = match token_at(nodes, c + 1) {
                    Some(u) => {
                        if (u.len() > 0 && u[0] == '\'') || word_is(u.as_slice(), ['m', 'u', 't'])
                            || word_is(u.as_slice(), ['c', 'o', 'n', 's', 't']) {
                            c + 2
                        } else {
                            c + 1
                        }
                    },
                    None => c + 1,
                };
                if next > n {
                    return Ok(next);
                }
                type_end_exec(nodes, next, shifts)
            } else if word_is(text.as_slice(), [':', ':']) {
                if token_at(nodes, c + 1).is_none() {
                    let mut m: Vec<char> = Vec::new();
                    push_word(&mut m, ['e', 'x', 'p', 'e', 'c', 't', 'e', 'd', ' ', 'p', 'a', 't', 'h', ' ', 's', 'e', 'g', 'm', 'e', 'n', 't', ' ', 'a', 'f', 't', 'e', 'r', ' ', 'l', 'e', 'a', 'd', 'i', 'n', 'g', ' ', '`', ':', ':', '`']);
                    return Err(m);
                }
                type_tail_exec(nodes, c + 2, shifts)
            } else {
                type_tail_exec(nodes, c + 1, shifts)
            }
        },
    }
}

/// The component type that begins at `c` as the formatter reads it: the
/// index after it, or an error message.
pub fn consume_type_exec(nodes: &[Node], c: usize) -> (r: Result<usize, Vec<char>>)
    ensures
        match (r, consume_type(view_nodes(nodes@), c as int)) {
            (Ok(a), Ok(b)) => a as int == b,
            (Err(m), Err(n)) => m@ == n,
            _ => false,
        },
{
    type_end_exec(nodes, c, false)
}

// ---------------------------------------------------------------------------
// Rust expressions through rustfmt.
// ---------------------------------------------------------------------------

fn find_from_exec<const N: usize>(s: &[char], from: usize, pat: [char; N]) -> (r: Option<usize>)
    requires
        pat@.len() > 0,
    ensures
        r is None <==> find_from(s@, from as int, pat@) is None,
        r matches Some(i) ==> find_from(s@, from as int, pat@) == Some(i as int) && i + pat@.len()
            <= s@.len(),
{
    proof {
        reveal(find_from);
    }
    let n = s.len();
    let mut k = from;
    while k <= n && n - k >= pat.len()
        invariant
            n == s@.len(),
            pat@.len() > 0,
            from <= k,
            find_from(s@, k as int, pat@) == find_from(s@, from as int, pat@),
        decreases n + 1 - k,
    {
        proof {
            reveal(find_from);
        }
        if crate::text::occurs_at_exec(s, k, pat.as_slice()) {
            return Some(k);
        }
        k = k + 1;
    }
    None
}

fn rfind_exec<const N: usize>(s: &[char], pat: [char; N]) -> (r: Option<usize>)
    ensures
        r is None <==> rfind_from(s@, s@.len() - pat@.len(), pat@) is None,
        r matches Some(i) ==> rfind_from(s@, s@.len() - pat@.len(), pat@) == Some(i as int) && i
            + pat@.len() <= s@.len(),
{
    proof {
        reveal(rfind_from);
    }
    let n = s.len();
    if pat.len() > n {
        return None;
    }
    let mut k = n - pat.len();
    loop
        invariant
            n == s@.len(),
            k + pat@.len() <= n,
            rfind_from(s@, k as int, pat@) == rfind_from(s@, s@.len() - pat@.len(), pat@),
        decreases k,
    {
        proof {
            reveal(rfind_from);
        }
        if crate::text::occurs_at_exec(s, k, pat.as_slice()) {
            return Some(k);
        }
        if k == 0 {
            assert(rfind_from(s@, -1, pat@) is None);
            return None;
        }
        k = k - 1;
    }
}

/// The expression cut out of rustfmt's output and re-indented at `indent`.
fn rustfmt_fragment_exec(output: &[char], indent: usize) -> (r: Option<Vec<char>>)
    ensures
        r is None <==> rustfmt_fragment(output@, indent as nat) is None,
        r matches Some(t) ==> rustfmt_fragment(output@, indent as nat) == Some(t@),
{
    proof {
        reveal(rustfmt_fragment);
        reveal(continuation_lines);
    }
    let olen = output.len();
    let marker_chars = [' ', ' ', ' ', ' ', 'l', 'e', 't', ' ', '_', '_', 'n', 'e', 's', 't', 'i', 'x', '_', 'v', 'a', 'l', 'u', 'e', ' ', '=', ' '];
    assert(marker_chars@ == marker());
    assert(marker_chars@.len() == 25);
    let m = match find_from_exec(output, 0, marker_chars) {
        Some(m) => m,
        None => {
            return None;
        },
    };
    let end = match rfind_exec(output, [';', '\n', '}']) {
        Some(e) => e,
        None => {
            return None;
        },
    };
    let start = m + 25;
    if start > end {
        return None;
    }
    let ls = split_lines(&output[start..end]);
    if ls.len() == 0 {
        return None;
    }
    let ghost lv = lines(output@.subrange(start as int, end as int));
    let mut r = copy_chars(ls[0].as_slice());
    let mut k: usize = 1;
    while k < ls.len()
        invariant
            1 <= k <= ls@.len(),
            ls@.len() == lv.len(),
            forall|i: int| 0 <= i < ls@.len() ==> (#[trigger] ls@[i])@ == lv[i],
            r@ == lv[0] + continuation_lines(lv.drop_first().take(k - 1), indent as nat),
        decreases ls@.len() - k,
    {
        proof {
            reveal(rustfmt_fragment);
            reveal(continuation_lines);
        }
        assert(lv.drop_first().take(k as int).drop_last() =~= lv.drop_first().take(k - 1));
        r.push('\n');
        push_spaces(&mut r, indent);
        let line = ls[k].as_slice();
        let strip = line.len() >= 4 && line[0] == ' ' && line[1] == ' ' && line[2] == ' ' && line[3]
            == ' ';
        assert(strip == (lv[k as int].len() >= 4 && lv[k as int].subrange(0, 4) == [' ', ' ', ' ', ' ']@)) by {
            if lv[k as int].len() >= 4 {
                if strip {
                    assert(lv[k as int].subrange(0, 4) =~= [' ', ' ', ' ', ' ']@);
                } else if lv[k as int].subrange(0, 4) == [' ', ' ', ' ', ' ']@ {
                    assert(lv[k as int].subrange(0, 4)[0] == ' ');
                    assert(lv[k as int].subrange(0, 4)[1] == ' ');
                    assert(lv[k as int].subrange(0, 4)[2] == ' ');
                    assert(lv[k as int].subrange(0, 4)[3] == ' ');
                }
            }
        }
        if strip {
            push_all(&mut r, &line[4..line.len()]);
        } else {
            push_all(&mut r, line);
        }
        k = k + 1;
        assert(r@ =~= lv[0] + continuation_lines(lv.drop_first().take(k - 1), indent as nat));
    }
    assert(lv.drop_first().take(ls@.len() - 1) =~= lv.drop_first());
    Some(r)
}

fn lookup_expression(answers: &RustfmtAnswers, wrapper: &String, width: usize) -> (r: Option<
    Option<Vec<char>>,
>)
    ensures
        r is None <==> expr_lookup(answers.expressions@, 0, wrapper@, width as nat) is None,
        r matches Some(a) ==> expr_lookup(answers.expressions@, 0, wrapper@, width as nat) == Some(
            match a {
                Some(t) => Some(t@),
                None => None,
            },
        ),
{
    let n = answers.expressions.len();
    let mut k: usize = 0;
    while k < n
        invariant
            n == answers.expressions@.len(),
            k <= n,
            expr_lookup(answers.expressions@, k as int, wrapper@, width as nat) == expr_lookup(
                answers.expressions@,
                0,
                wrapper@,
                width as nat,
            ),
        decreases n - k,
    {
        let e = &answers.expressions[k];
        if e.wrapper == *wrapper && e.max_width == width {
            return Some(
                match &e.output {
                    Some(o) => Some(crate::text::chars_of(o.as_str())),
                    None => None,
                },
            );
        }
        k = k + 1;
    }
    None
}

/// `expression` formatted by rustfmt for a start column, continuation lines
/// at `indent`, given whether `syn` parses it as a Rust expression; or a
/// request for rustfmt's answer.
pub fn rust_expression_after_parse(
    expression: &[char],
    parses: bool,
    start_column: usize,
    indent: usize,
    rustfmt: bool,
    answers: &RustfmtAnswers,
) -> (r: Result<Option<Vec<char>>, Halt>)
    ensures
        option_result(r) == rust_expression_with(
            expression@,
            parses,
            start_column as nat,
            indent as nat,
            ctx_of(rustfmt, answers),
        ),
{
    proof {
        reveal(rust_expression_with);
    }
    if !rustfmt || !parses {
        return Ok(None);
    }
    let mut wrapper: Vec<char> = Vec::new();
    push_word(&mut wrapper, ['f', 'n', ' ', '_', '_', 'n', 'e', 's', 't', 'i', 'x', '_', 'f', 'm', 't', '(', ')', ' ', '{', '\n', ' ', ' ', ' ', ' ', 'l', 'e', 't', ' ', '_', '_', 'n', 'e', 's', 't', 'i', 'x', '_', 'v', 'a', 'l', 'u', 'e', ' ', '=', ' ']);
    push_all(&mut wrapper, expression);
    push_word(&mut wrapper, [';', '\n', '}', '\n']);
    assert(wrapper@ =~= wrapper_of(expression@));
    let w = 125usize.saturating_sub(start_column);
    let width = if w > 40 {
        w
    } else {
        40
    };
    let wrapper_text = crate::text::string_of(wrapper.as_slice());
    match lookup_expression(answers, &wrapper_text, width) {
        None => Err(Halt::Ask(wrapper, width)),
        Some(None) => Ok(None),
        Some(Some(output)) => Ok(rustfmt_fragment_exec(output.as_slice(), indent)),
    }
}

/// `expression` formatted by rustfmt for a start column, continuation lines
/// at `indent`, or a request for rustfmt's answer.
pub fn format_rust_expression(
    expression: &[char],
    start_column: usize,
    indent: usize,
    rustfmt: bool,
    answers: &RustfmtAnswers,
) -> (r: Result<Option<Vec<char>>, Halt>)
    ensures
        option_result(r) == fmt_rust_expression(
            expression@,
            start_column as nat,
            indent as nat,
            ctx_of(rustfmt, answers),
        ),
{
    proof {
        reveal(fmt_rust_expression);
        reveal(rust_expression_with);
    }
    if !rustfmt {
        return Ok(None);
    }
    let text = crate::text::string_of(expression);
    let parses = expr_error(text.as_str()).is_none();
    rust_expression_after_parse(expression, parses, start_column, indent, rustfmt, answers)
}

/// The first `=` or `:` token.
fn find_assign(nodes: &[Node]) -> (r: usize)
    ensures
        r as int == first_assign(view_nodes(nodes@), 0),
        r <= nodes@.len(),
{
    proof {
        lemma_view_nodes_at(nodes@, 0);
    }
    proof {
        reveal(first_assign);
    }
    let n = nodes.len();
    let mut k: usize = 0;
    while k < n && !token_is(nodes, k, ['=']) && !token_is(nodes, k, [':'])
        invariant
            n == nodes@.len(),
            k <= n,
            first_assign(view_nodes(nodes@), k as int) == first_assign(view_nodes(nodes@), 0),
        decreases n - k,
    {
        proof {
            reveal(first_assign);
        }
        k = k + 1;
    }
    k
}

/// A DSL assignment whose right side rustfmt formats.
pub fn format_dsl_assignment(nodes: &[Node], indent: usize, answers: &RustfmtAnswers) -> (r: Result<
    Option<Vec<char>>,
    Halt,
>)
    ensures
        option_result(r) == fmt_dsl_assignment(view_nodes(nodes@), indent as nat, ctx_of(true, answers)),
{
    proof {
        reveal(fmt_dsl_assignment);
    }
    let ghost v = view_nodes(nodes@);
    proof {
        lemma_view_nodes_at(nodes@, 0);
    }
    let n = nodes.len();
    let sep = find_assign(nodes);
    if sep >= n || sep == 0 || sep + 1 == n {
        return Ok(None);
    }
    let left_nodes = &nodes[0..sep + 1];
    proof {
        lemma_view_nodes_subrange(nodes@, 0, sep + 1);
    }
    if !(token_is(nodes, 0, ['.']) || find_token(left_nodes, 0, [':']) < sep + 1) {
        return Ok(None);
    }
    let left = crate::text::trim_end_of(inline(left_nodes).as_slice());
    proof {
        lemma_view_nodes_subrange(nodes@, sep + 1, n as int);
    }
    let expression = inline(&nodes[sep + 1..n]);
    let column = indent.saturating_add(crate::text::utf8_len(left.as_slice())).saturating_add(1);
    assert(left@ == crate::text::trim_end(inline_text(v.subrange(0, sep + 1))));
    assert(expression@ == inline_text(v.subrange(sep + 1, n as int)));
    assert(column as nat == sat_add(sat_add(indent as nat, crate::text::byte_len(left@)), 1));
    assert(sep as int == first_assign(v, 0));
    match format_rust_expression(expression.as_slice(), column, indent, true, answers) {
        Err(e) => Err(e),
        Ok(None) => Ok(None),
        Ok(Some(e)) => {
            let mut out = left;
            out.push(' ');
            push_all(&mut out, e.as_slice());
            assert(out@ =~= left@ + seq![' '] + e@);
            Ok(Some(out))
        },
    }
}



pub proof fn lemma_fmt_generic_unfold(nodes: Seq<Tree>, indent: nat, ctx: Ctx)
    ensures
        fmt_generic(nodes, indent, ctx) == ({
            let compact = inline_text(nodes);
            let cc = contains_comments(nodes);
            let nl = has_nested_layout(nodes);
            if ctx.rustfmt && !cc && !has_statement_block(nodes) && !nl && indent + crate::text::byte_len(
                compact,
            ) <= WIDTH {
                Ok(compact)
            } else {
                let through_rustfmt = if ctx.rustfmt && !cc && !nl {
                    fmt_rust_expression(compact, indent, indent, ctx)
                } else {
                    Ok(None)
                };
                match through_rustfmt {
                    Err(e) => Err(e),
                    Ok(Some(f)) => Ok(f),
                    Ok(None) => {
                        let assignment = if ctx.rustfmt {
                            fmt_dsl_assignment(nodes, indent, ctx)
                        } else {
                            Ok(None)
                        };
                        match assignment {
                            Err(e) => Err(e),
                            Ok(Some(f)) => Ok(f),
                            Ok(None) => {
                                let parts = split_commas(nodes);
                                if parts.len() > 1 {
                                    match generic_parts(nodes, parts, 0, indent, ctx, seq![]) {
                                        Err(e) => Err(e),
                                        Ok(texts) => Ok(join(texts, [',', '\n']@ + spaces(indent))),
                                    }
                                } else {
                                    generic_tokens(nodes, 0, indent, ctx, seq![], false)
                                }
                            },
                        }
                    },
                }
            }
        }),
{
    reveal(fmt_generic);
    reveal(generic_parts);
    reveal(generic_tokens);
}

pub proof fn lemma_generic_parts_unfold(nodes: Seq<Tree>,
    parts: Seq<(int, int)>,
    k: int,
    indent: nat,
    ctx: Ctx,
    acc: Seq<Seq<char>>,)
    ensures
        generic_parts(nodes, parts, k, indent, ctx, acc) == ({
            if k < 0 || k >= parts.len() || !parts_ok(nodes, parts) || parts.len() <= 1 {
                Ok(acc)
            } else {
                let (a, b) = parts[k];
                if a == b {
                    generic_parts(nodes, parts, k + 1, indent, ctx, acc)
                } else {
                    match fmt_generic(nodes.subrange(a, b), indent, ctx) {
                        Err(e) => Err(e),
                        Ok(t) => generic_parts(nodes, parts, k + 1, indent, ctx, acc.push(t)),
                    }
                }
            }
        }),
{
    reveal(generic_parts);
    reveal(fmt_generic);
}

pub proof fn lemma_generic_tokens_unfold(nodes: Seq<Tree>,
    index: int,
    indent: nat,
    ctx: Ctx,
    out: Seq<char>,
    pipe: bool,)
    ensures
        generic_tokens(nodes, index, indent, ctx, out, pipe) == ({
            if index < 0 || index >= nodes.len() {
                Ok(out)
            } else if layout_call_at(nodes, index) {
                match nodes[index + 2] {
                    Tree::Group { open, close, nodes: body, .. } => {
                        let o = append_token(append_token(out, ['l', 'a', 'y', 'o', 'u', 't']@), ['!']@);
                        let o = if open == '{' {
                            o.push(' ')
                        } else {
                            o
                        };
                        let o = o.push(open).push('\n');
                        let inner = match fmt_layout(body, sat_add(indent, 4), ctx) {
                            Ok(t) => Ok(t),
                            Err(Stop::Fail(_)) => Ok(spaces(sat_add(indent, 4)) + inline_text(body)),
                            Err(Stop::Ask(w, n)) => Err(Stop::Ask(w, n)),
                        };
                        match inner {
                            Err(e) => Err(e),
                            Ok(t) => generic_tokens(
                                nodes,
                                index + 3,
                                indent,
                                ctx,
                                o + t + seq!['\n'] + spaces(indent) + seq![close],
                                pipe,
                            ),
                        }
                    },
                    _ => Ok(out),
                }
            } else {
                match nodes[index] {
                    Tree::Comment { text, .. } => {
                        let o = if out.len() > 0 && out.last() != '\n' {
                            out.push('\n')
                        } else {
                            out
                        };
                        let o = o + text;
                        let o = if index + 1 < nodes.len() {
                            o + seq!['\n'] + spaces(indent)
                        } else {
                            o
                        };
                        generic_tokens(nodes, index + 1, indent, ctx, o, pipe)
                    },
                    Tree::Group { open, close, nodes: inner, .. } => {
                        if open == '{' && has_top_level_statement(inner) {
                            let o = trim_spaces_end(out);
                            let o = if o.len() > 0 {
                                o.push(' ')
                            } else {
                                o
                            };
                            match fmt_rust_block(inner, indent, ctx) {
                                Err(e) => Err(e),
                                Ok(b) => generic_tokens(nodes, index + 1, indent, ctx, o + b, pipe),
                            }
                        } else {
                            match fmt_generic(inner, indent, ctx) {
                                Err(e) => Err(e),
                                Ok(g) => generic_tokens(
                                    nodes,
                                    index + 1,
                                    indent,
                                    ctx,
                                    out.push(open) + g + seq![close],
                                    pipe,
                                ),
                            }
                        }
                    },
                    Tree::Token { text, .. } => if text == ['|']@ {
                        let (o, p) = append_pipe(out, pipe);
                        generic_tokens(nodes, index + 1, indent, ctx, o, p)
                    } else {
                        generic_tokens(nodes, index + 1, indent, ctx, append_token(out, text), pipe)
                    },
                }
            }
        }),
{
    reveal(generic_tokens);
    reveal(fmt_generic);
    reveal(fmt_rust_block);
    reveal(fmt_layout);
}

pub proof fn lemma_fmt_rust_block_unfold(nodes: Seq<Tree>, indent: nat, ctx: Ctx)
    ensures
        fmt_rust_block(nodes, indent, ctx) == ({
            let child = sat_add(indent, 4);
            match block_scan(nodes, 0, 0, child, ctx, ['{', '\n']@) {
                Err(e) => Err(e),
                Ok(o) => Ok(o + spaces(indent) + seq!['}']),
            }
        }),
{
    reveal(fmt_rust_block);
    reveal(block_scan);
}

pub proof fn lemma_block_scan_unfold(nodes: Seq<Tree>,
    index: int,
    start: int,
    child: nat,
    ctx: Ctx,
    out: Seq<char>,)
    ensures
        block_scan(nodes, index, start, child, ctx, out) == ({
            if index < 0 || start < 0 || start > index || index >= nodes.len() {
                if 0 <= start < nodes.len() {
                    match fmt_generic(nodes.subrange(start, nodes.len() as int), child, ctx) {
                        Err(e) => Err(e),
                        Ok(g) => Ok(out + spaces(child) + g + seq!['\n']),
                    }
                } else {
                    Ok(out)
                }
            } else if is_tok(nodes, index, [';']@) {
                if start < index {
                    match fmt_generic(nodes.subrange(start, index), child, ctx) {
                        Err(e) => Err(e),
                        Ok(g) => block_scan(
                            nodes,
                            index + 1,
                            index + 1,
                            child,
                            ctx,
                            out + spaces(child) + g + [';', '\n']@,
                        ),
                    }
                } else {
                    block_scan(nodes, index + 1, index + 1, child, ctx, out)
                }
            } else {
                block_scan(nodes, index + 1, start, child, ctx, out)
            }
        }),
{
    reveal(block_scan);
    reveal(fmt_generic);
}

pub proof fn lemma_fmt_parens_unfold(nodes: Seq<Tree>, indent: nat, prefix_len: nat, ctx: Ctx)
    ensures
        fmt_parens(nodes, indent, prefix_len, ctx) == ({
            if nodes.len() == 0 {
                Ok(['(', ')']@)
            } else {
                match fmt_generic(nodes, sat_add(sat_add(indent, prefix_len), 1), ctx) {
                    Err(e) => Err(e),
                    Ok(compact) => if !contains_comments(nodes) && !has_statement_block(nodes) && indent
                        + prefix_len + crate::text::byte_len(compact) + 2 <= WIDTH {
                        Ok(seq!['('] + compact + seq![')'])
                    } else {
                        let child = sat_add(indent, 4);
                        let parts = split_commas(nodes);
                        match parens_parts(nodes, parts, 0, child, ctx, ['(', '\n']@) {
                            Err(e) => Err(e),
                            Ok(o) => Ok(o + spaces(indent) + seq![')']),
                        }
                    },
                }
            }
        }),
{
    reveal(fmt_parens);
    reveal(fmt_generic);
    reveal(parens_parts);
}

pub proof fn lemma_parens_parts_unfold(nodes: Seq<Tree>,
    parts: Seq<(int, int)>,
    k: int,
    child: nat,
    ctx: Ctx,
    out: Seq<char>,)
    ensures
        parens_parts(nodes, parts, k, child, ctx, out) == ({
            if k < 0 || k >= parts.len() || !parts_ok(nodes, parts) {
                Ok(out)
            } else {
                let (a, b) = parts[k];
                if a == b {
                    parens_parts(nodes, parts, k + 1, child, ctx, out)
                } else {
                    match fmt_generic(nodes.subrange(a, b), child, ctx) {
                        Err(e) => Err(e),
                        Ok(g) => parens_parts(
                            nodes,
                            parts,
                            k + 1,
                            child,
                            ctx,
                            out + spaces(child) + g + [',', '\n']@,
                        ),
                    }
                }
            }
        }),
{
    reveal(parens_parts);
    reveal(fmt_generic);
}

pub proof fn lemma_fmt_for_header_unfold(nodes: Seq<Tree>, indent: nat, ctx: Ctx)
    ensures
        fmt_for_header(nodes, indent, ctx) == ({
            let in_at = first_tok(nodes, 0, ['i', 'n']@);
            if in_at >= nodes.len() {
                fmt_generic(nodes, indent, ctx)
            } else {
                let where_at = first_tok(nodes, 0, ['w', 'h', 'e', 'r', 'e']@);
                let data_end = if where_at < nodes.len() {
                    where_at
                } else {
                    nodes.len() as int
                };
                let binding = inline_text(nodes.subrange(0, in_at));
                let data_end = if data_end < in_at + 1 {
                    in_at + 1
                } else {
                    data_end
                };
                match fmt_generic(nodes.subrange(in_at + 1, data_end), indent, ctx) {
                    Err(e) => Err(e),
                    Ok(data) => {
                        let header = binding + [' ', 'i', 'n', ' ']@ + data;
                        if where_at < nodes.len() {
                            let key_start = where_at + 1;
                            let eq = first_tok(nodes, key_start, ['=']@);
                            if eq < nodes.len() {
                                let key_name = inline_text(nodes.subrange(key_start, eq));
                                match fmt_generic(nodes.subrange(eq + 1, nodes.len() as int), indent, ctx) {
                                    Err(e) => Err(e),
                                    Ok(key) => Ok(header + [' ', 'w', 'h', 'e', 'r', 'e', ' ']@ + key_name + [' ', '=', ' ']@ + key),
                                }
                            } else {
                                match fmt_generic(
                                    nodes.subrange(key_start, nodes.len() as int),
                                    indent,
                                    ctx,
                                ) {
                                    Err(e) => Err(e),
                                    Ok(key) => Ok(header + [' ', 'w', 'h', 'e', 'r', 'e', ' ']@ + key),
                                }
                            }
                        } else {
                            Ok(header)
                        }
                    },
                }
            }
        }),
{
    reveal(fmt_for_header);
    reveal(fmt_generic);
}

pub proof fn lemma_fmt_element_unfold(nodes: Seq<Tree>, cursor: int, indent: nat, yielded: bool, ctx: Ctx)
    ensures
        fmt_element(nodes, cursor, indent, yielded, ctx) == ({
            let prefix: Seq<char> = if yielded {
                ['y', 'i', 'e', 'l', 'd', ' ']@
            } else {
                seq![]
            };
            let bound = if is_tok(nodes, cursor + 1, ['@']@) {
                match tok_at(nodes, cursor) {
                    None => Err(Stop::Fail(['e', 'x', 'p', 'e', 'c', 't', 'e', 'd', ' ', 'b', 'i', 'n', 'd', 'i', 'n', 'g', ' ', 'n', 'a', 'm', 'e']@)),
                    Some(b) => Ok((prefix + b + [' ', '@', ' ']@, cursor + 2)),
                }
            } else {
                Ok((prefix, cursor))
            };
            match bound {
                Err(e) => Err(e),
                Ok((prefix, c)) => match consume_type(nodes, c) {
                    Err(m) => Err(Stop::Fail(m)),
                    Ok(c2) => if c2 == c {
                        Err(Stop::Fail(['e', 'x', 'p', 'e', 'c', 't', 'e', 'd', ' ', 'c', 'o', 'm', 'p', 'o', 'n', 'e', 'n', 't', ' ', 't', 'y', 'p', 'e']@))
                    } else if c < 0 || c2 < c || c2 > nodes.len() {
                        Err(Stop::Fail(['e', 'x', 'p', 'e', 'c', 't', 'e', 'd', ' ', 'c', 'o', 'm', 'p', 'o', 'n', 'e', 'n', 't', ' ', 't', 'y', 'p', 'e']@))
                    } else {
                        let prefix = prefix + inline_text(nodes.subrange(c, c2));
                        let (comments, c3) = collect_postfix(nodes, c2, seq![]);
                        element_props(nodes, c3, indent, ctx, prefix, comments)
                    },
                },
            }
        }),
{
    reveal(fmt_element);
    reveal(element_props);
}

pub proof fn lemma_element_props_unfold(nodes: Seq<Tree>,
    c: int,
    indent: nat,
    ctx: Ctx,
    prefix: Seq<char>,
    comments: Seq<Seq<char>>,)
    ensures
        element_props(nodes, c, indent, ctx, prefix, comments) == ({
            let props = if is_tok(nodes, c, ['$']@) {
                match group_at(nodes, c + 1, '(') {
                    None => Err(Stop::Fail(['e', 'x', 'p', 'e', 'c', 't', 'e', 'd', ' ', 'd', 'i', 'r', 'e', 'c', 't', ' ', 'p', 'r', 'o', 'p', 's', ' ', 'a', 'f', 't', 'e', 'r', ' ', '`', '$', '`']@)),
                    Some(props) => {
                        let p = prefix.push('$');
                        match fmt_parens(props, indent, sat(crate::text::byte_len(p) as int), ctx) {
                            Err(e) => Err(e),
                            Ok(t) => Ok((p + t, c + 2)),
                        }
                    },
                }
            } else {
                match group_at(nodes, c, '(') {
                    Some(props) => match fmt_parens(props, indent, sat(crate::text::byte_len(prefix) as int), ctx) {
                        Err(e) => Err(e),
                        Ok(t) => Ok((prefix + t, c + 1)),
                    },
                    None => Ok((prefix, c)),
                }
            };
            match props {
                Err(e) => Err(e),
                Ok((prefix, c)) => {
                    let (comments, c) = collect_postfix(nodes, c, comments);
                    element_captures(nodes, c, indent, ctx, prefix, comments)
                },
            }
        }),
{
    reveal(element_props);
    reveal(fmt_parens);
    reveal(element_captures);
}

pub proof fn lemma_element_captures_unfold(nodes: Seq<Tree>,
    c: int,
    indent: nat,
    ctx: Ctx,
    prefix: Seq<char>,
    comments: Seq<Seq<char>>,)
    ensures
        element_captures(nodes, c, indent, ctx, prefix, comments) == ({
            let captured = match group_at(nodes, c, '[') {
                Some(captures) => {
                    let p = prefix.push(' ').push('[');
                    match fmt_generic(captures, sat_add(sat_add(indent, crate::text::byte_len(p)), 1), ctx) {
                        Err(e) => Err(e),
                        Ok(t) => Ok((p + t + seq![']'], c + 1)),
                    }
                },
                None => Ok((prefix, c)),
            };
            match captured {
                Err(e) => Err(e),
                Ok((prefix, c)) => {
                    let (comments, c) = collect_postfix(nodes, c, comments);
                    element_closure(nodes, c, indent, ctx, prefix, comments)
                },
            }
        }),
{
    reveal(element_captures);
    reveal(fmt_generic);
    reveal(element_closure);
}

pub proof fn lemma_element_closure_unfold(nodes: Seq<Tree>,
    c: int,
    indent: nat,
    ctx: Ctx,
    prefix: Seq<char>,
    comments: Seq<Seq<char>>,)
    ensures
        element_closure(nodes, c, indent, ctx, prefix, comments) == ({
            let closure = if is_tok(nodes, c, ['|']@) {
                let args_start = c + 1;
                let close = first_tok(nodes, args_start, ['|']@);
                if close >= nodes.len() {
                    Err(Stop::Fail(['u', 'n', 'c', 'l', 'o', 's', 'e', 'd', ' ', 'c', 'h', 'i', 'l', 'd', ' ', 'c', 'l', 'o', 's', 'u', 'r', 'e', ' ', 'a', 'r', 'g', 'u', 'm', 'e', 'n', 't', 's']@))
                } else {
                    let p = prefix.push(' ').push('|');
                    match fmt_generic(
                        nodes.subrange(args_start, close),
                        sat_add(indent, crate::text::byte_len(p)),
                        ctx,
                    ) {
                        Err(e) => Err(e),
                        Ok(t) => Ok((p + t + seq!['|'], close + 1)),
                    }
                }
            } else {
                Ok((prefix, c))
            };
            match closure {
                Err(e) => Err(e),
                Ok((prefix, c)) => {
                    let (comments, c) = collect_postfix(nodes, c, comments);
                    let head = comment_block(comments, indent) + spaces(indent) + prefix;
                    match group_at(nodes, c, '{') {
                        Some(children) => match fmt_layout(children, sat_add(indent, 4), ctx) {
                            Err(e) => Err(e),
                            Ok(t) => Ok(
                                (
                                    head + [' ', '{', '\n']@ + t + seq!['\n'] + spaces(indent) + seq!['}'],
                                    c + 1,
                                ),
                            ),
                        },
                        None => Ok((head, c)),
                    }
                },
            }
        }),
{
    reveal(element_closure);
    reveal(fmt_generic);
    reveal(fmt_layout);
}

pub proof fn lemma_fmt_if_unfold(nodes: Seq<Tree>, cursor: int, indent: nat, ctx: Ctx)
    ensures
        fmt_if(nodes, cursor, indent, ctx) == ({
            let c = cursor + 1;
            if c < 0 || c > nodes.len() {
                Err(Stop::Fail(['e', 'x', 'p', 'e', 'c', 't', 'e', 'd', ' ', 'b', 'l', 'o', 'c', 'k', ' ', 'a', 'f', 't', 'e', 'r', ' ', '`', 'i', 'f', '`', ' ', 'c', 'o', 'n', 'd', 'i', 't', 'i', 'o', 'n']@))
            } else {
                let branch = first_group(nodes, c, '{');
                if branch >= nodes.len() {
                    Err(Stop::Fail(['e', 'x', 'p', 'e', 'c', 't', 'e', 'd', ' ', 'b', 'l', 'o', 'c', 'k', ' ', 'a', 'f', 't', 'e', 'r', ' ', '`', 'i', 'f', '`', ' ', 'c', 'o', 'n', 'd', 'i', 't', 'i', 'o', 'n']@))
                } else {
                    let cond = nodes.subrange(c, branch);
                    let ci = inline_text(cond);
                    let condition = if ctx.rustfmt && indent + 3 + crate::text::byte_len(ci) > WIDTH {
                        match fmt_rust_expression(ci, sat_add(indent, 3), indent, ctx) {
                            Err(e) => Err(e),
                            Ok(Some(f)) => Ok(f),
                            Ok(None) => fmt_generic(cond, sat_add(indent, 3), ctx),
                        }
                    } else {
                        fmt_generic(cond, sat_add(indent, 3), ctx)
                    };
                    match condition {
                        Err(e) => Err(e),
                        Ok(condition) => match fmt_layout(group_at(nodes, branch, '{')->0, sat_add(indent, 4), ctx) {
                            Err(e) => Err(e),
                            Ok(body) => {
                                let out = spaces(indent) + ['i', 'f', ' ']@ + condition + [' ', '{', '\n']@ + body
                                    + seq!['\n'] + spaces(indent) + seq!['}'];
                                let c = branch + 1;
                                if is_tok(nodes, c, ['e', 'l', 's', 'e']@) {
                                    let c = c + 1;
                                    if is_tok(nodes, c, ['i', 'f']@) {
                                        match fmt_if(nodes, c, indent, ctx) {
                                            Err(e) => Err(e),
                                            Ok((nested, c2)) => Ok(
                                                (
                                                    out + [' ', 'e', 'l', 's', 'e', ' ']@ + strip_prefix(
                                                        nested,
                                                        spaces(indent),
                                                    ),
                                                    c2,
                                                ),
                                            ),
                                        }
                                    } else {
                                        match group_at(nodes, c, '{') {
                                            None => Err(Stop::Fail(['e', 'x', 'p', 'e', 'c', 't', 'e', 'd', ' ', 'b', 'l', 'o', 'c', 'k', ' ', 'a', 'f', 't', 'e', 'r', ' ', '`', 'e', 'l', 's', 'e', '`']@)),
                                            Some(other) => match fmt_layout(other, sat_add(indent, 4), ctx) {
                                                Err(e) => Err(e),
                                                Ok(b) => Ok(
                                                    (
                                                        out + [' ', 'e', 'l', 's', 'e', ' ', '{', '\n']@ + b + seq!['\n'] + spaces(
                                                            indent,
                                                        ) + seq!['}'],
                                                        c + 1,
                                                    ),
                                                ),
                                            },
                                        }
                                    }
                                } else {
                                    Ok((out, c))
                                }
                            },
                        },
                    }
                }
            }
        }),
{
    reveal(fmt_if);
    reveal(fmt_generic);
    reveal(fmt_layout);
}

pub proof fn lemma_fmt_for_unfold(nodes: Seq<Tree>, cursor: int, indent: nat, ctx: Ctx)
    ensures
        fmt_for(nodes, cursor, indent, ctx) == ({
            let c = cursor + 1;
            if c < 0 || c > nodes.len() {
                Err(Stop::Fail(['e', 'x', 'p', 'e', 'c', 't', 'e', 'd', ' ', 'b', 'l', 'o', 'c', 'k', ' ', 'a', 'f', 't', 'e', 'r', ' ', '`', 'f', 'o', 'r', '`', ' ', 'h', 'e', 'a', 'd', 'e', 'r']@))
            } else {
                let body_at = first_group(nodes, c, '{');
                if body_at >= nodes.len() {
                    Err(Stop::Fail(['e', 'x', 'p', 'e', 'c', 't', 'e', 'd', ' ', 'b', 'l', 'o', 'c', 'k', ' ', 'a', 'f', 't', 'e', 'r', ' ', '`', 'f', 'o', 'r', '`', ' ', 'h', 'e', 'a', 'd', 'e', 'r']@))
                } else {
                    match fmt_for_header(nodes.subrange(c, body_at), sat_add(indent, 4), ctx) {
                        Err(e) => Err(e),
                        Ok(header) => match fmt_layout(group_at(nodes, body_at, '{')->0, sat_add(indent, 4), ctx) {
                            Err(e) => Err(e),
                            Ok(body) => Ok(
                                (
                                    spaces(indent) + ['f', 'o', 'r', ' ']@ + header + [' ', '{', '\n']@ + body + seq!['\n']
                                        + spaces(indent) + seq!['}'],
                                    body_at + 1,
                                ),
                            ),
                        },
                    }
                }
            }
        }),
{
    reveal(fmt_for);
    reveal(fmt_for_header);
    reveal(fmt_layout);
}

pub proof fn lemma_fmt_item_unfold(nodes: Seq<Tree>, cursor: int, indent: nat, ctx: Ctx)
    ensures
        fmt_item(nodes, cursor, indent, ctx) == ({
            let yielded = is_tok(nodes, cursor, ['y', 'i', 'e', 'l', 'd']@);
            let c = if yielded {
                cursor + 1
            } else {
                cursor
            };
            if is_tok(nodes, c, ['$']@) {
                let c = c + 1;
                if c >= nodes.len() {
                    Err(Stop::Fail(['e', 'x', 'p', 'e', 'c', 't', 'e', 'd', ' ', 'e', 'x', 'p', 'r', 'e', 's', 's', 'i', 'o', 'n', ' ', 'a', 'f', 't', 'e', 'r', ' ', '`', '$', '`']@))
                } else {
                    match group_at(nodes, c, '(') {
                        None => Err(Stop::Fail(['e', 'x', 'p', 'e', 'c', 't', 'e', 'd', ' ', 'p', 'a', 'r', 'e', 'n', 't', 'h', 'e', 's', 'i', 'z', 'e', 'd', ' ', 'e', 'x', 'p', 'r', 'e', 's', 's', 'i', 'o', 'n', ' ', 'a', 'f', 't', 'e', 'r', ' ', '`', '$', '`']@)),
                        Some(inner) => match fmt_generic(inner, sat_add(indent, 2), ctx) {
                            Err(e) => Err(e),
                            Ok(e) => Ok(
                                (
                                    spaces(indent) + (if yielded {
                                        ['y', 'i', 'e', 'l', 'd', ' ']@
                                    } else {
                                        seq![]
                                    }) + ['$', '(']@ + e + seq![')'],
                                    c + 1,
                                ),
                            ),
                        },
                    }
                }
            } else if !yielded && is_tok(nodes, c, ['i', 'f']@) {
                fmt_if(nodes, c, indent, ctx)
            } else if !yielded && is_tok(nodes, c, ['f', 'o', 'r']@) {
                fmt_for(nodes, c, indent, ctx)
            } else {
                match fmt_element(nodes, c, indent, yielded, ctx) {
                    Err(Stop::Fail(m)) => {
                        let end = if nodes.len() < cursor + 4 {
                            nodes.len() as int
                        } else {
                            cursor + 4
                        };
                        let start = if 0 <= cursor <= end {
                            inline_text(nodes.subrange(cursor, end))
                        } else {
                            seq![]
                        };
                        Err(Stop::Fail(item_message(start, m)))
                    },
                    other => other,
                }
            }
        }),
{
    reveal(fmt_item);
    reveal(fmt_generic);
    reveal(fmt_element);
    reveal(fmt_if);
    reveal(fmt_for);
}

pub proof fn lemma_layout_lines_unfold(nodes: Seq<Tree>,
    c: int,
    indent: nat,
    ctx: Ctx,
    lines: Seq<Seq<char>>,)
    ensures
        layout_lines(nodes, c, indent, ctx, lines) == ({
            if c < 0 || c >= nodes.len() {
                Ok(lines)
            } else if is_tok(nodes, c, [',']@) {
                layout_lines(nodes, c + 1, indent, ctx, lines)
            } else {
                comments_then_item(nodes, c, indent, ctx, lines)
            }
        }),
{
    reveal(layout_lines);
    reveal(comments_then_item);
}

pub proof fn lemma_comments_then_item_unfold(nodes: Seq<Tree>,
    c: int,
    indent: nat,
    ctx: Ctx,
    lines: Seq<Seq<char>>,)
    ensures
        comments_then_item(nodes, c, indent, ctx, lines) == ({
            if c < 0 || c >= nodes.len() {
                Ok(lines)
            } else {
                match nodes[c] {
                    Tree::Comment { text, .. } => comments_then_item(
                        nodes,
                        c + 1,
                        indent,
                        ctx,
                        lines + comment_lines(text, indent),
                    ),
                    _ => match fmt_item(nodes, c, indent, ctx) {
                        Err(e) => Err(e),
                        Ok((line, c2)) => if c2 <= c || c2 > nodes.len() {
                            Err(Stop::Fail(['e', 'x', 'p', 'e', 'c', 't', 'e', 'd', ' ', 'c', 'o', 'm', 'p', 'o', 'n', 'e', 'n', 't', ' ', 't', 'y', 'p', 'e']@))
                        } else {
                            layout_lines(nodes, c2, indent, ctx, lines.push(line))
                        },
                    },
                }
            }
        }),
{
    reveal(comments_then_item);
    reveal(fmt_item);
    reveal(layout_lines);
}

pub proof fn lemma_fmt_layout_unfold(nodes: Seq<Tree>, indent: nat, ctx: Ctx)
    ensures
        fmt_layout(nodes, indent, ctx) == ({
            match layout_lines(nodes, 0, indent, ctx, seq![]) {
                Err(e) => Err(e),
                Ok(lines) => Ok(join(lines, seq!['\n'])),
            }
        }),
{
    reveal(fmt_layout);
    reveal(layout_lines);
}

// ---------------------------------------------------------------------------
// What the layout asks of rustfmt.
// ---------------------------------------------------------------------------

/// Whether a result asks rustfmt only for something new: a request comes
/// only while rustfmt is in use, and only for an expression wrapper and width
/// that the answers lack.
pub open spec fn fresh_ask<T>(r: Result<T, Stop>, ctx: Ctx) -> bool {
    match r {
        Err(Stop::Ask(w, n)) => ctx.rustfmt && expr_lookup(ctx.exprs, 0, w, n) is None,
        _ => true,
    }
}


pub proof fn lemma_fresh_rust_expression_with(expression: Seq<char>, parses: bool, start_column: nat, indent: nat, ctx: Ctx)
    ensures
        fresh_ask(rust_expression_with(expression, parses, start_column, indent, ctx), ctx),
{
    reveal(rust_expression_with);
    {}
}

pub proof fn lemma_fresh_fmt_rust_expression(expression: Seq<char>, start_column: nat, indent: nat, ctx: Ctx)
    ensures
        fresh_ask(fmt_rust_expression(expression, start_column, indent, ctx), ctx),
{
    reveal(fmt_rust_expression);
    {
        {
            lemma_fresh_rust_expression_with(expression, syn_expr(expression) is None, start_column, indent, ctx);
        }
    }
}

pub proof fn lemma_fresh_fmt_dsl_assignment(nodes: Seq<Tree>, indent: nat, ctx: Ctx)
    ensures
        fresh_ask(fmt_dsl_assignment(nodes, indent, ctx), ctx),
{
    reveal(fmt_dsl_assignment);
    {
        let sep = first_assign(nodes, 0);
        if sep >= nodes.len() || sep == 0 || sep + 1 == nodes.len() {} else if !(is_tok(nodes, 0, ['.']@) || first_tok(nodes.subrange(0, sep + 1), 0, [':']@)
            < sep + 1) {} else {
            let left = crate::text::trim_end(inline_text(nodes.subrange(0, sep + 1)));
            let expression = inline_text(nodes.subrange(sep + 1, nodes.len() as int));
            { lemma_fresh_fmt_rust_expression(
                    expression,
                    sat_add(sat_add(indent, crate::text::byte_len(left)), 1),
                    indent,
                    ctx,
                ); }
        }
    }
}

pub proof fn lemma_fresh_fmt_generic(nodes: Seq<Tree>, indent: nat, ctx: Ctx)
    ensures
        fresh_ask(fmt_generic(nodes, indent, ctx), ctx),
    decreases nodes, 1int, 0int,
{
    lemma_fmt_generic_unfold(nodes, indent, ctx);
    {
        let compact = inline_text(nodes);
        let cc = contains_comments(nodes);
        let nl = has_nested_layout(nodes);
        if ctx.rustfmt && !cc && !has_statement_block(nodes) && !nl && indent + crate::text::byte_len(
            compact,
        ) <= WIDTH {} else {
            let through_rustfmt = if ctx.rustfmt && !cc && !nl {
                { lemma_fresh_fmt_rust_expression(compact, indent, indent, ctx); fmt_rust_expression(compact, indent, indent, ctx) }
            } else {
                Ok(None)
            };
            match through_rustfmt {
                Err(e) => {},
                Ok(Some(f)) => {},
                Ok(None) => {
                    let assignment = if ctx.rustfmt {
                        { lemma_fresh_fmt_dsl_assignment(nodes, indent, ctx); fmt_dsl_assignment(nodes, indent, ctx) }
                    } else {
                        Ok(None)
                    };
                    match assignment {
                        Err(e) => {},
                        Ok(Some(f)) => {},
                        Ok(None) => {
                            let parts = split_commas(nodes);
                            {
                                lemma_comma_parts(nodes, 0, 0, seq![]);
                            }
                            if parts.len() > 1 {
                                { lemma_fresh_generic_parts(nodes, parts, 0, indent, ctx, seq![]); }
                            } else {
                                {
                                    lemma_fresh_generic_tokens(nodes, 0, indent, ctx, seq![], false);
                                }
                            }
                        },
                    }
                },
            }
        }
    }
}

pub proof fn lemma_fresh_generic_parts(nodes: Seq<Tree>,
    parts: Seq<(int, int)>,
    k: int,
    indent: nat,
    ctx: Ctx,
    acc: Seq<Seq<char>>,)
    ensures
        fresh_ask(generic_parts(nodes, parts, k, indent, ctx, acc), ctx),
    decreases nodes, 0int, parts.len() - k,
{
    lemma_generic_parts_unfold(nodes, parts, k, indent, ctx, acc);
    {
        if k < 0 || k >= parts.len() || !parts_ok(nodes, parts) || parts.len() <= 1 {} else {
            let (a, b) = parts[k];
            if a == b {
                {
                    lemma_fresh_generic_parts(nodes, parts, k + 1, indent, ctx, acc);
                }
            } else {
                {
                    lemma_fresh_fmt_generic(nodes.subrange(a, b), indent, ctx);
                    match fmt_generic(nodes.subrange(a, b), indent, ctx) {
                        Err(e) => {},
                        Ok(t) => {
                            lemma_fresh_generic_parts(nodes, parts, k + 1, indent, ctx, acc.push(t));
                        },
                    }
                }
            }
        }
    }
}

pub proof fn lemma_fresh_generic_tokens(nodes: Seq<Tree>,
    index: int,
    indent: nat,
    ctx: Ctx,
    out: Seq<char>,
    pipe: bool,)
    ensures
        fresh_ask(generic_tokens(nodes, index, indent, ctx, out, pipe), ctx),
    decreases nodes, 0int, nodes.len() - index,
{
    lemma_generic_tokens_unfold(nodes, index, indent, ctx, out, pipe);
    {
        if index < 0 || index >= nodes.len() {} else if layout_call_at(nodes, index) {
            match nodes[index + 2] {
                Tree::Group { open, close, nodes: body, .. } => {
                    let o = append_token(append_token(out, ['l', 'a', 'y', 'o', 'u', 't']@), ['!']@);
                    let o = if open == '{' {
                        o.push(' ')
                    } else {
                        o
                    };
                    let o = o.push(open).push('\n');
                    let inner = match { lemma_fresh_fmt_layout(body, sat_add(indent, 4), ctx); fmt_layout(body, sat_add(indent, 4), ctx) } {
                        Ok(t) => Ok(t),
                        Err(Stop::Fail(_)) => Ok(spaces(sat_add(indent, 4)) + inline_text(body)),
                        Err(Stop::Ask(w, n)) => Err(Stop::Ask(w, n)),
                    };
                    match inner {
                        Err(e) => {},
                        Ok(t) => {
                            lemma_fresh_generic_tokens(
                                nodes,
                                index + 3,
                                indent,
                                ctx,
                                o + t + seq!['\n'] + spaces(indent) + seq![close],
                                pipe,
                            );
                        },
                    }
                },
                _ => {},
            }
        } else {
            match nodes[index] {
                Tree::Comment { text, .. } => {
                    let o = if out.len() > 0 && out.last() != '\n' {
                        out.push('\n')
                    } else {
                        out
                    };
                    let o = o + text;
                    let o = if index + 1 < nodes.len() {
                        o + seq!['\n'] + spaces(indent)
                    } else {
                        o
                    };
                    {
                        lemma_fresh_generic_tokens(nodes, index + 1, indent, ctx, o, pipe);
                    }
                },
                Tree::Group { open, close, nodes: inner, .. } => {
                    if open == '{' && has_top_level_statement(inner) {
                        let o = trim_spaces_end(out);
                        let o = if o.len() > 0 {
                            o.push(' ')
                        } else {
                            o
                        };
                        {
                            lemma_fresh_fmt_rust_block(inner, indent, ctx);
                            match fmt_rust_block(inner, indent, ctx) {
                                Err(e) => {},
                                Ok(b) => {
                                    lemma_fresh_generic_tokens(nodes, index + 1, indent, ctx, o + b, pipe);
                                },
                            }
                        }
                    } else {
                        {
                            lemma_fresh_fmt_generic(inner, indent, ctx);
                            match fmt_generic(inner, indent, ctx) {
                                Err(e) => {},
                                Ok(g) => {
                                    lemma_fresh_generic_tokens(
                                        nodes,
                                        index + 1,
                                        indent,
                                        ctx,
                                        out.push(open) + g + seq![close],
                                        pipe,
                                    );
                                },
                            }
                        }
                    }
                },
                Tree::Token { text, .. } => if text == ['|']@ {
                    let (o, p) = append_pipe(out, pipe);
                    {
                        lemma_fresh_generic_tokens(nodes, index + 1, indent, ctx, o, p);
                    }
                } else {
                    {
                        lemma_fresh_generic_tokens(nodes, index + 1, indent, ctx, append_token(out, text), pipe);
                    }
                },
            }
        }
    }
}

pub proof fn lemma_fresh_fmt_rust_block(nodes: Seq<Tree>, indent: nat, ctx: Ctx)
    ensures
        fresh_ask(fmt_rust_block(nodes, indent, ctx), ctx),
    decreases nodes, 3int, 0int,
{
    lemma_fmt_rust_block_unfold(nodes, indent, ctx);
    {
        let child = sat_add(indent, 4);
        { lemma_fresh_block_scan(nodes, 0, 0, child, ctx, ['{', '\n']@); }
    }
}

pub proof fn lemma_fresh_block_scan(nodes: Seq<Tree>,
    index: int,
    start: int,
    child: nat,
    ctx: Ctx,
    out: Seq<char>,)
    ensures
        fresh_ask(block_scan(nodes, index, start, child, ctx, out), ctx),
    decreases nodes, 2int, nodes.len() - index,
{
    lemma_block_scan_unfold(nodes, index, start, child, ctx, out);
    {
        if index < 0 || start < 0 || start > index || index >= nodes.len() {
            if 0 <= start < nodes.len() {
                {
                    if start == 0 {
                        assert(nodes.subrange(start, nodes.len() as int) =~= nodes);
                    }
                }
                { lemma_fresh_fmt_generic(nodes.subrange(start, nodes.len() as int), child, ctx); }
            } else {}
        } else if is_tok(nodes, index, [';']@) {
            if start < index {
                {
                    lemma_fresh_fmt_generic(nodes.subrange(start, index), child, ctx);
                    match fmt_generic(nodes.subrange(start, index), child, ctx) {
                        Err(e) => {},
                        Ok(g) => {
                            lemma_fresh_block_scan(
                                nodes,
                                index + 1,
                                index + 1,
                                child,
                                ctx,
                                out + spaces(child) + g + [';', '\n']@,
                            );
                        },
                    }
                }
            } else {
                {
                    lemma_fresh_block_scan(nodes, index + 1, index + 1, child, ctx, out);
                }
            }
        } else {
            {
                lemma_fresh_block_scan(nodes, index + 1, start, child, ctx, out);
            }
        }
    }
}

pub proof fn lemma_fresh_fmt_parens(nodes: Seq<Tree>, indent: nat, prefix_len: nat, ctx: Ctx)
    ensures
        fresh_ask(fmt_parens(nodes, indent, prefix_len, ctx), ctx),
    decreases nodes, 3int, 0int,
{
    lemma_fmt_parens_unfold(nodes, indent, prefix_len, ctx);
    {
        if nodes.len() == 0 {} else {
            {
                lemma_fresh_fmt_generic(nodes, sat_add(sat_add(indent, prefix_len), 1), ctx);
                match fmt_generic(nodes, sat_add(sat_add(indent, prefix_len), 1), ctx) {
                    Err(e) => {},
                    Ok(compact) => if !contains_comments(nodes) && !has_statement_block(nodes) && indent
                    + prefix_len + crate::text::byte_len(compact) + 2 <= WIDTH {} else {
                        let child = sat_add(indent, 4);
                        let parts = split_commas(nodes);
                        {
                            lemma_comma_parts(nodes, 0, 0, seq![]);
                        }
                        { lemma_fresh_parens_parts(nodes, parts, 0, child, ctx, ['(', '\n']@); }
                    },
                }
            }
        }
    }
}

pub proof fn lemma_fresh_parens_parts(nodes: Seq<Tree>,
    parts: Seq<(int, int)>,
    k: int,
    child: nat,
    ctx: Ctx,
    out: Seq<char>,)
    ensures
        fresh_ask(parens_parts(nodes, parts, k, child, ctx, out), ctx),
    decreases nodes, 2int, parts.len() - k,
{
    lemma_parens_parts_unfold(nodes, parts, k, child, ctx, out);
    {
        if k < 0 || k >= parts.len() || !parts_ok(nodes, parts) {} else {
            let (a, b) = parts[k];
            if a == b {
                {
                    lemma_fresh_parens_parts(nodes, parts, k + 1, child, ctx, out);
                }
            } else {
                {
                    if a == 0 && b == nodes.len() {
                        assert(nodes.subrange(a, b) =~= nodes);
                    }
                }
                {
                    lemma_fresh_fmt_generic(nodes.subrange(a, b), child, ctx);
                    match fmt_generic(nodes.subrange(a, b), child, ctx) {
                        Err(e) => {},
                        Ok(g) => {
                            lemma_fresh_parens_parts(
                                nodes,
                                parts,
                                k + 1,
                                child,
                                ctx,
                                out + spaces(child) + g + [',', '\n']@,
                            );
                        },
                    }
                }
            }
        }
    }
}

pub proof fn lemma_fresh_fmt_for_header(nodes: Seq<Tree>, indent: nat, ctx: Ctx)
    ensures
        fresh_ask(fmt_for_header(nodes, indent, ctx), ctx),
    decreases nodes, 2int, 0int,
{
    lemma_fmt_for_header_unfold(nodes, indent, ctx);
    {
        let in_at = first_tok(nodes, 0, ['i', 'n']@);
        {
            lemma_first_tok(nodes, 0, ['i', 'n']@);
            lemma_first_tok(nodes, 0, ['w', 'h', 'e', 'r', 'e']@);
        }
        if in_at >= nodes.len() {
            {
                lemma_fresh_fmt_generic(nodes, indent, ctx);
            }
        } else {
            let where_at = first_tok(nodes, 0, ['w', 'h', 'e', 'r', 'e']@);
            let data_end = if where_at < nodes.len() {
                where_at
            } else {
                nodes.len() as int
            };
            let binding = inline_text(nodes.subrange(0, in_at));
            let data_end = if data_end < in_at + 1 {
                in_at + 1
            } else {
                data_end
            };
            {
                lemma_fresh_fmt_generic(nodes.subrange(in_at + 1, data_end), indent, ctx);
                match fmt_generic(nodes.subrange(in_at + 1, data_end), indent, ctx) {
                    Err(e) => {},
                    Ok(data) => {
                        let header = binding + [' ', 'i', 'n', ' ']@ + data;
                        if where_at < nodes.len() {
                            let key_start = where_at + 1;
                            let eq = first_tok(nodes, key_start, ['=']@);
                            {
                                lemma_first_tok(nodes, key_start, ['=']@);
                            }
                            if eq < nodes.len() {
                                let key_name = inline_text(nodes.subrange(key_start, eq));
                                { lemma_fresh_fmt_generic(nodes.subrange(eq + 1, nodes.len() as int), indent, ctx); }
                            } else {
                                { lemma_fresh_fmt_generic(
                                        nodes.subrange(key_start, nodes.len() as int),
                                        indent,
                                        ctx,
                                    ); }
                            }
                        } else {}
                    },
                }
            }
        }
    }
}

pub proof fn lemma_fresh_fmt_element(nodes: Seq<Tree>, cursor: int, indent: nat, yielded: bool, ctx: Ctx)
    ensures
        fresh_ask(fmt_element(nodes, cursor, indent, yielded, ctx), ctx),
    decreases nodes, 6int, 0int,
{
    lemma_fmt_element_unfold(nodes, cursor, indent, yielded, ctx);
    {
        let prefix: Seq<char> = if yielded {
            ['y', 'i', 'e', 'l', 'd', ' ']@
        } else {
            seq![]
        };
        let bound = if is_tok(nodes, cursor + 1, ['@']@) {
            match tok_at(nodes, cursor) {
                None => Err(Stop::Fail(['e', 'x', 'p', 'e', 'c', 't', 'e', 'd', ' ', 'b', 'i', 'n', 'd', 'i', 'n', 'g', ' ', 'n', 'a', 'm', 'e']@)),
                Some(b) => Ok((prefix + b + [' ', '@', ' ']@, cursor + 2)),
            }
        } else {
            Ok((prefix, cursor))
        };
        match bound {
            Err(e) => {},
            Ok((prefix, c)) => match consume_type(nodes, c) {
                Err(m) => {},
                Ok(c2) => if c2 == c {} else if c < 0 || c2 < c || c2 > nodes.len() {} else {
                    let prefix = prefix + inline_text(nodes.subrange(c, c2));
                    let (comments, c3) = collect_postfix(nodes, c2, seq![]);
                    {
                        lemma_fresh_element_props(nodes, c3, indent, ctx, prefix, comments);
                    }
                },
            },
        }
    }
}

pub proof fn lemma_fresh_element_props(nodes: Seq<Tree>,
    c: int,
    indent: nat,
    ctx: Ctx,
    prefix: Seq<char>,
    comments: Seq<Seq<char>>,)
    ensures
        fresh_ask(element_props(nodes, c, indent, ctx, prefix, comments), ctx),
    decreases nodes, 5int, 0int,
{
    lemma_element_props_unfold(nodes, c, indent, ctx, prefix, comments);
    {
        {
            lemma_group_smaller(nodes, c + 1, '(');
            lemma_group_smaller(nodes, c, '(');
        }
        let props = if is_tok(nodes, c, ['$']@) {
            match group_at(nodes, c + 1, '(') {
                None => Err(Stop::Fail(['e', 'x', 'p', 'e', 'c', 't', 'e', 'd', ' ', 'd', 'i', 'r', 'e', 'c', 't', ' ', 'p', 'r', 'o', 'p', 's', ' ', 'a', 'f', 't', 'e', 'r', ' ', '`', '$', '`']@)),
                Some(props) => {
                    let p = prefix.push('$');
                    match { lemma_fresh_fmt_parens(props, indent, sat(crate::text::byte_len(p) as int), ctx); fmt_parens(props, indent, sat(crate::text::byte_len(p) as int), ctx) } {
                        Err(e) => Err(e),
                        Ok(t) => Ok((p + t, c + 2)),
                    }
                },
            }
        } else {
            match group_at(nodes, c, '(') {
                Some(props) => match { lemma_fresh_fmt_parens(props, indent, sat(crate::text::byte_len(prefix) as int), ctx); fmt_parens(props, indent, sat(crate::text::byte_len(prefix) as int), ctx) } {
                    Err(e) => Err(e),
                    Ok(t) => Ok((prefix + t, c + 1)),
                },
                None => Ok((prefix, c)),
            }
        };
        match props {
            Err(e) => {},
            Ok((prefix, c)) => {
                let (comments, c) = collect_postfix(nodes, c, comments);
                {
                    lemma_fresh_element_captures(nodes, c, indent, ctx, prefix, comments);
                }
            },
        }
    }
}

pub proof fn lemma_fresh_element_captures(nodes: Seq<Tree>,
    c: int,
    indent: nat,
    ctx: Ctx,
    prefix: Seq<char>,
    comments: Seq<Seq<char>>,)
    ensures
        fresh_ask(element_captures(nodes, c, indent, ctx, prefix, comments), ctx),
    decreases nodes, 4int, 0int,
{
    lemma_element_captures_unfold(nodes, c, indent, ctx, prefix, comments);
    {
        {
            lemma_group_smaller(nodes, c, '[');
        }
        let captured = match group_at(nodes, c, '[') {
            Some(captures) => {
                let p = prefix.push(' ').push('[');
                match { lemma_fresh_fmt_generic(captures, sat_add(sat_add(indent, crate::text::byte_len(p)), 1), ctx); fmt_generic(captures, sat_add(sat_add(indent, crate::text::byte_len(p)), 1), ctx) } {
                    Err(e) => Err(e),
                    Ok(t) => Ok((p + t + seq![']'], c + 1)),
                }
            },
            None => Ok((prefix, c)),
        };
        match captured {
            Err(e) => {},
            Ok((prefix, c)) => {
                let (comments, c) = collect_postfix(nodes, c, comments);
                {
                    lemma_fresh_element_closure(nodes, c, indent, ctx, prefix, comments);
                }
            },
        }
    }
}

pub proof fn lemma_fresh_element_closure(nodes: Seq<Tree>,
    c: int,
    indent: nat,
    ctx: Ctx,
    prefix: Seq<char>,
    comments: Seq<Seq<char>>,)
    ensures
        fresh_ask(element_closure(nodes, c, indent, ctx, prefix, comments), ctx),
    decreases nodes, 3int, 0int,
{
    lemma_element_closure_unfold(nodes, c, indent, ctx, prefix, comments);
    {
        let closure = if is_tok(nodes, c, ['|']@) {
            let args_start = c + 1;
            let close = first_tok(nodes, args_start, ['|']@);
            {
                lemma_first_tok(nodes, args_start, ['|']@);
            }
            if close >= nodes.len() {
                Err(Stop::Fail(['u', 'n', 'c', 'l', 'o', 's', 'e', 'd', ' ', 'c', 'h', 'i', 'l', 'd', ' ', 'c', 'l', 'o', 's', 'u', 'r', 'e', ' ', 'a', 'r', 'g', 'u', 'm', 'e', 'n', 't', 's']@))
            } else {
                let p = prefix.push(' ').push('|');
                match { lemma_fresh_fmt_generic(
                        nodes.subrange(args_start, close),
                        sat_add(indent, crate::text::byte_len(p)),
                        ctx,
                    ); fmt_generic(
                        nodes.subrange(args_start, close),
                        sat_add(indent, crate::text::byte_len(p)),
                        ctx,
                    ) } {
                    Err(e) => Err(e),
                    Ok(t) => Ok((p + t + seq!['|'], close + 1)),
                }
            }
        } else {
            Ok((prefix, c))
        };
        match closure {
            Err(e) => {},
            Ok((prefix, c)) => {
                let (comments, c) = collect_postfix(nodes, c, comments);
                let head = comment_block(comments, indent) + spaces(indent) + prefix;
                {
                    lemma_group_smaller(nodes, c, '{');
                }
                match group_at(nodes, c, '{') {
                    Some(children) => { lemma_fresh_fmt_layout(children, sat_add(indent, 4), ctx); },
                    None => {},
                }
            },
        }
    }
}

pub proof fn lemma_fresh_fmt_if(nodes: Seq<Tree>, cursor: int, indent: nat, ctx: Ctx)
    ensures
        fresh_ask(fmt_if(nodes, cursor, indent, ctx), ctx),
    decreases nodes, 6int, nodes.len() - cursor,
{
    lemma_fmt_if_unfold(nodes, cursor, indent, ctx);
    {
        let c = cursor + 1;
        if c < 0 || c > nodes.len() {} else {
            let branch = first_group(nodes, c, '{');
            {
                lemma_first_group(nodes, c, '{');
                lemma_group_smaller(nodes, branch, '{');
            }
            if branch >= nodes.len() {} else {
                let cond = nodes.subrange(c, branch);
                let ci = inline_text(cond);
                let condition = if ctx.rustfmt && indent + 3 + crate::text::byte_len(ci) > WIDTH {
                    match { lemma_fresh_fmt_rust_expression(ci, sat_add(indent, 3), indent, ctx); fmt_rust_expression(ci, sat_add(indent, 3), indent, ctx) } {
                        Err(e) => Err(e),
                        Ok(Some(f)) => Ok(f),
                        Ok(None) => { lemma_fresh_fmt_generic(cond, sat_add(indent, 3), ctx); fmt_generic(cond, sat_add(indent, 3), ctx) },
                    }
                } else {
                    { lemma_fresh_fmt_generic(cond, sat_add(indent, 3), ctx); fmt_generic(cond, sat_add(indent, 3), ctx) }
                };
                match condition {
                    Err(e) => {},
                    Ok(condition) => {
                        lemma_fresh_fmt_layout(group_at(nodes, branch, '{')->0, sat_add(indent, 4), ctx);
                        match fmt_layout(group_at(nodes, branch, '{')->0, sat_add(indent, 4), ctx) {
                            Err(e) => {},
                            Ok(body) => {
                                let out = spaces(indent) + ['i', 'f', ' ']@ + condition + [' ', '{', '\n']@ + body
                                + seq!['\n'] + spaces(indent) + seq!['}'];
                                let c = branch + 1;
                                if is_tok(nodes, c, ['e', 'l', 's', 'e']@) {
                                    let c = c + 1;
                                    if is_tok(nodes, c, ['i', 'f']@) {
                                        { lemma_fresh_fmt_if(nodes, c, indent, ctx); }
                                    } else {
                                        {
                                            lemma_group_smaller(nodes, c, '{');
                                        }
                                        match group_at(nodes, c, '{') {
                                            None => {},
                                            Some(other) => { lemma_fresh_fmt_layout(other, sat_add(indent, 4), ctx); },
                                        }
                                    }
                                } else {}
                            },
                        }
                    },
                }
            }
        }
    }
}

pub proof fn lemma_fresh_fmt_for(nodes: Seq<Tree>, cursor: int, indent: nat, ctx: Ctx)
    ensures
        fresh_ask(fmt_for(nodes, cursor, indent, ctx), ctx),
    decreases nodes, 6int, 0int,
{
    lemma_fmt_for_unfold(nodes, cursor, indent, ctx);
    {
        let c = cursor + 1;
        if c < 0 || c > nodes.len() {} else {
            let body_at = first_group(nodes, c, '{');
            {
                lemma_first_group(nodes, c, '{');
                lemma_group_smaller(nodes, body_at, '{');
            }
            if body_at >= nodes.len() {} else {
                {
                    lemma_fresh_fmt_for_header(nodes.subrange(c, body_at), sat_add(indent, 4), ctx);
                    match fmt_for_header(nodes.subrange(c, body_at), sat_add(indent, 4), ctx) {
                        Err(e) => {},
                        Ok(header) => { lemma_fresh_fmt_layout(group_at(nodes, body_at, '{')->0, sat_add(indent, 4), ctx); },
                    }
                }
            }
        }
    }
}

pub proof fn lemma_fresh_fmt_item(nodes: Seq<Tree>, cursor: int, indent: nat, ctx: Ctx)
    ensures
        fresh_ask(fmt_item(nodes, cursor, indent, ctx), ctx),
    decreases nodes, 7int, 0int,
{
    lemma_fmt_item_unfold(nodes, cursor, indent, ctx);
    {
        let yielded = is_tok(nodes, cursor, ['y', 'i', 'e', 'l', 'd']@);
        let c = if yielded {
            cursor + 1
        } else {
            cursor
        };
        if is_tok(nodes, c, ['$']@) {
            let c = c + 1;
            {
                lemma_group_smaller(nodes, c, '(');
            }
            if c >= nodes.len() {} else {
                match group_at(nodes, c, '(') {
                    None => {},
                    Some(inner) => { lemma_fresh_fmt_generic(inner, sat_add(indent, 2), ctx); },
                }
            }
        } else if !yielded && is_tok(nodes, c, ['i', 'f']@) {
            {
                lemma_fresh_fmt_if(nodes, c, indent, ctx);
            }
        } else if !yielded && is_tok(nodes, c, ['f', 'o', 'r']@) {
            {
                lemma_fresh_fmt_for(nodes, c, indent, ctx);
            }
        } else {
            { lemma_fresh_fmt_element(nodes, c, indent, yielded, ctx); }
        }
    }
}

pub proof fn lemma_fresh_layout_lines(nodes: Seq<Tree>,
    c: int,
    indent: nat,
    ctx: Ctx,
    lines: Seq<Seq<char>>,)
    ensures
        fresh_ask(layout_lines(nodes, c, indent, ctx, lines), ctx),
    decreases nodes, 8int, 2 * (nodes.len() - c) + 1,
{
    lemma_layout_lines_unfold(nodes, c, indent, ctx, lines);
    {
        if c < 0 || c >= nodes.len() {} else if is_tok(nodes, c, [',']@) {
            {
                lemma_fresh_layout_lines(nodes, c + 1, indent, ctx, lines);
            }
        } else {
            {
                lemma_fresh_comments_then_item(nodes, c, indent, ctx, lines);
            }
        }
    }
}

pub proof fn lemma_fresh_comments_then_item(nodes: Seq<Tree>,
    c: int,
    indent: nat,
    ctx: Ctx,
    lines: Seq<Seq<char>>,)
    ensures
        fresh_ask(comments_then_item(nodes, c, indent, ctx, lines), ctx),
    decreases nodes, 8int, 2 * (nodes.len() - c),
{
    lemma_comments_then_item_unfold(nodes, c, indent, ctx, lines);
    {
        if c < 0 || c >= nodes.len() {} else {
            match nodes[c] {
                Tree::Comment { text, .. } => {
                    lemma_fresh_comments_then_item(
                        nodes,
                        c + 1,
                        indent,
                        ctx,
                        lines + comment_lines(text, indent),
                    );
                },
                _ => {
                    lemma_fresh_fmt_item(nodes, c, indent, ctx);
                    match fmt_item(nodes, c, indent, ctx) {
                        Err(e) => {},
                        Ok((line, c2)) => if c2 <= c || c2 > nodes.len() {} else {
                            {
                                lemma_fresh_layout_lines(nodes, c2, indent, ctx, lines.push(line));
                            }
                        },
                    }
                },
            }
        }
    }
}

pub proof fn lemma_fresh_fmt_layout(nodes: Seq<Tree>, indent: nat, ctx: Ctx)
    ensures
        fresh_ask(fmt_layout(nodes, indent, ctx), ctx),
    decreases nodes, 9int, 0int,
{
    lemma_fmt_layout_unfold(nodes, indent, ctx);
    {
        { lemma_fresh_layout_lines(nodes, 0, indent, ctx, seq![]); }
    }
}

/// The context of formatting without rustfmt, with no answers.
pub open spec fn offline() -> Ctx {
    Ctx { rustfmt: false, exprs: seq![] }
}


pub proof fn lemma_offline_rust_expression_with(expression: Seq<char>, parses: bool, start_column: nat, indent: nat, ctx: Ctx)
    requires
        !ctx.rustfmt,
    ensures
        rust_expression_with(expression, parses, start_column, indent, ctx) == rust_expression_with(expression, parses, start_column, indent, offline()),
{
    reveal(rust_expression_with);
    {}
}

pub proof fn lemma_offline_fmt_rust_expression(expression: Seq<char>, start_column: nat, indent: nat, ctx: Ctx)
    requires
        !ctx.rustfmt,
    ensures
        fmt_rust_expression(expression, start_column, indent, ctx) == fmt_rust_expression(expression, start_column, indent, offline()),
{
    reveal(fmt_rust_expression);
    {
        {
            lemma_offline_rust_expression_with(expression, syn_expr(expression) is None, start_column, indent, ctx);
        }
    }
}

pub proof fn lemma_offline_fmt_dsl_assignment(nodes: Seq<Tree>, indent: nat, ctx: Ctx)
    requires
        !ctx.rustfmt,
    ensures
        fmt_dsl_assignment(nodes, indent, ctx) == fmt_dsl_assignment(nodes, indent, offline()),
{
    reveal(fmt_dsl_assignment);
    {
        let sep = first_assign(nodes, 0);
        if sep >= nodes.len() || sep == 0 || sep + 1 == nodes.len() {} else if !(is_tok(nodes, 0, ['.']@) || first_tok(nodes.subrange(0, sep + 1), 0, [':']@)
            < sep + 1) {} else {
            let left = crate::text::trim_end(inline_text(nodes.subrange(0, sep + 1)));
            let expression = inline_text(nodes.subrange(sep + 1, nodes.len() as int));
            { lemma_offline_fmt_rust_expression(
                    expression,
                    sat_add(sat_add(indent, crate::text::byte_len(left)), 1),
                    indent,
                    ctx,
                ); }
        }
    }
}

pub proof fn lemma_offline_fmt_generic(nodes: Seq<Tree>, indent: nat, ctx: Ctx)
    requires
        !ctx.rustfmt,
    ensures
        fmt_generic(nodes, indent, ctx) == fmt_generic(nodes, indent, offline()),
    decreases nodes, 1int, 0int,
{
    lemma_fmt_generic_unfold(nodes, indent, ctx);
    lemma_fmt_generic_unfold(nodes, indent, offline());
    {
        let compact = inline_text(nodes);
        let cc = contains_comments(nodes);
        let nl = has_nested_layout(nodes);
        if ctx.rustfmt && !cc && !has_statement_block(nodes) && !nl && indent + crate::text::byte_len(
            compact,
        ) <= WIDTH {} else {
            let through_rustfmt = if ctx.rustfmt && !cc && !nl {
                { lemma_offline_fmt_rust_expression(compact, indent, indent, ctx); fmt_rust_expression(compact, indent, indent, ctx) }
            } else {
                Ok(None)
            };
            match through_rustfmt {
                Err(e) => {},
                Ok(Some(f)) => {},
                Ok(None) => {
                    let assignment = if ctx.rustfmt {
                        { lemma_offline_fmt_dsl_assignment(nodes, indent, ctx); fmt_dsl_assignment(nodes, indent, ctx) }
                    } else {
                        Ok(None)
                    };
                    match assignment {
                        Err(e) => {},
                        Ok(Some(f)) => {},
                        Ok(None) => {
                            let parts = split_commas(nodes);
                            {
                                lemma_comma_parts(nodes, 0, 0, seq![]);
                            }
                            if parts.len() > 1 {
                                { lemma_offline_generic_parts(nodes, parts, 0, indent, ctx, seq![]); }
                            } else {
                                {
                                    lemma_offline_generic_tokens(nodes, 0, indent, ctx, seq![], false);
                                }
                            }
                        },
                    }
                },
            }
        }
    }
}

pub proof fn lemma_offline_generic_parts(nodes: Seq<Tree>,
    parts: Seq<(int, int)>,
    k: int,
    indent: nat,
    ctx: Ctx,
    acc: Seq<Seq<char>>,)
    requires
        !ctx.rustfmt,
    ensures
        generic_parts(nodes, parts, k, indent, ctx, acc) == generic_parts(nodes, parts, k, indent, offline(), acc),
    decreases nodes, 0int, parts.len() - k,
{
    lemma_generic_parts_unfold(nodes, parts, k, indent, ctx, acc);
    lemma_generic_parts_unfold(nodes, parts, k, indent, offline(), acc);
    {
        if k < 0 || k >= parts.len() || !parts_ok(nodes, parts) || parts.len() <= 1 {} else {
            let (a, b) = parts[k];
            if a == b {
                {
                    lemma_offline_generic_parts(nodes, parts, k + 1, indent, ctx, acc);
                }
            } else {
                {
                    lemma_offline_fmt_generic(nodes.subrange(a, b), indent, ctx);
                    match fmt_generic(nodes.subrange(a, b), indent, ctx) {
                        Err(e) => {},
                        Ok(t) => {
                            lemma_offline_generic_parts(nodes, parts, k + 1, indent, ctx, acc.push(t));
                        },
                    }
                }
            }
        }
    }
}

pub proof fn lemma_offline_generic_tokens(nodes: Seq<Tree>,
    index: int,
    indent: nat,
    ctx: Ctx,
    out: Seq<char>,
    pipe: bool,)
    requires
        !ctx.rustfmt,
    ensures
        generic_tokens(nodes, index, indent, ctx, out, pipe) == generic_tokens(nodes, index, indent, offline(), out, pipe),
    decreases nodes, 0int, nodes.len() - index,
{
    lemma_generic_tokens_unfold(nodes, index, indent, ctx, out, pipe);
    lemma_generic_tokens_unfold(nodes, index, indent, offline(), out, pipe);
    {
        if index < 0 || index >= nodes.len() {} else if layout_call_at(nodes, index) {
            match nodes[index + 2] {
                Tree::Group { open, close, nodes: body, .. } => {
                    let o = append_token(append_token(out, ['l', 'a', 'y', 'o', 'u', 't']@), ['!']@);
                    let o = if open == '{' {
                        o.push(' ')
                    } else {
                        o
                    };
                    let o = o.push(open).push('\n');
                    let inner = match { lemma_offline_fmt_layout(body, sat_add(indent, 4), ctx); fmt_layout(body, sat_add(indent, 4), ctx) } {
                        Ok(t) => Ok(t),
                        Err(Stop::Fail(_)) => Ok(spaces(sat_add(indent, 4)) + inline_text(body)),
                        Err(Stop::Ask(w, n)) => Err(Stop::Ask(w, n)),
                    };
                    match inner {
                        Err(e) => {},
                        Ok(t) => {
                            lemma_offline_generic_tokens(
                                nodes,
                                index + 3,
                                indent,
                                ctx,
                                o + t + seq!['\n'] + spaces(indent) + seq![close],
                                pipe,
                            );
                        },
                    }
                },
                _ => {},
            }
        } else {
            match nodes[index] {
                Tree::Comment { text, .. } => {
                    let o = if out.len() > 0 && out.last() != '\n' {
                        out.push('\n')
                    } else {
                        out
                    };
                    let o = o + text;
                    let o = if index + 1 < nodes.len() {
                        o + seq!['\n'] + spaces(indent)
                    } else {
                        o
                    };
                    {
                        lemma_offline_generic_tokens(nodes, index + 1, indent, ctx, o, pipe);
                    }
                },
                Tree::Group { open, close, nodes: inner, .. } => {
                    if open == '{' && has_top_level_statement(inner) {
                        let o = trim_spaces_end(out);
                        let o = if o.len() > 0 {
                            o.push(' ')
                        } else {
                            o
                        };
                        {
                            lemma_offline_fmt_rust_block(inner, indent, ctx);
                            match fmt_rust_block(inner, indent, ctx) {
                                Err(e) => {},
                                Ok(b) => {
                                    lemma_offline_generic_tokens(nodes, index + 1, indent, ctx, o + b, pipe);
                                },
                            }
                        }
                    } else {
                        {
                            lemma_offline_fmt_generic(inner, indent, ctx);
                            match fmt_generic(inner, indent, ctx) {
                                Err(e) => {},
                                Ok(g) => {
                                    lemma_offline_generic_tokens(
                                        nodes,
                                        index + 1,
                                        indent,
                                        ctx,
                                        out.push(open) + g + seq![close],
                                        pipe,
                                    );
                                },
                            }
                        }
                    }
                },
                Tree::Token { text, .. } => if text == ['|']@ {
                    let (o, p) = append_pipe(out, pipe);
                    {
                        lemma_offline_generic_tokens(nodes, index + 1, indent, ctx, o, p);
                    }
                } else {
                    {
                        lemma_offline_generic_tokens(nodes, index + 1, indent, ctx, append_token(out, text), pipe);
                    }
                },
            }
        }
    }
}

pub proof fn lemma_offline_fmt_rust_block(nodes: Seq<Tree>, indent: nat, ctx: Ctx)
    requires
        !ctx.rustfmt,
    ensures
        fmt_rust_block(nodes, indent, ctx) == fmt_rust_block(nodes, indent, offline()),
    decreases nodes, 3int, 0int,
{
    lemma_fmt_rust_block_unfold(nodes, indent, ctx);
    lemma_fmt_rust_block_unfold(nodes, indent, offline());
    {
        let child = sat_add(indent, 4);
        { lemma_offline_block_scan(nodes, 0, 0, child, ctx, ['{', '\n']@); }
    }
}

pub proof fn lemma_offline_block_scan(nodes: Seq<Tree>,
    index: int,
    start: int,
    child: nat,
    ctx: Ctx,
    out: Seq<char>,)
    requires
        !ctx.rustfmt,
    ensures
        block_scan(nodes, index, start, child, ctx, out) == block_scan(nodes, index, start, child, offline(), out),
    decreases nodes, 2int, nodes.len() - index,
{
    lemma_block_scan_unfold(nodes, index, start, child, ctx, out);
    lemma_block_scan_unfold(nodes, index, start, child, offline(), out);
    {
        if index < 0 || start < 0 || start > index || index >= nodes.len() {
            if 0 <= start < nodes.len() {
                {
                    if start == 0 {
                        assert(nodes.subrange(start, nodes.len() as int) =~= nodes);
                    }
                }
                { lemma_offline_fmt_generic(nodes.subrange(start, nodes.len() as int), child, ctx); }
            } else {}
        } else if is_tok(nodes, index, [';']@) {
            if start < index {
                {
                    lemma_offline_fmt_generic(nodes.subrange(start, index), child, ctx);
                    match fmt_generic(nodes.subrange(start, index), child, ctx) {
                        Err(e) => {},
                        Ok(g) => {
                            lemma_offline_block_scan(
                                nodes,
                                index + 1,
                                index + 1,
                                child,
                                ctx,
                                out + spaces(child) + g + [';', '\n']@,
                            );
                        },
                    }
                }
            } else {
                {
                    lemma_offline_block_scan(nodes, index + 1, index + 1, child, ctx, out);
                }
            }
        } else {
            {
                lemma_offline_block_scan(nodes, index + 1, start, child, ctx, out);
            }
        }
    }
}

pub proof fn lemma_offline_fmt_parens(nodes: Seq<Tree>, indent: nat, prefix_len: nat, ctx: Ctx)
    requires
        !ctx.rustfmt,
    ensures
        fmt_parens(nodes, indent, prefix_len, ctx) == fmt_parens(nodes, indent, prefix_len, offline()),
    decreases nodes, 3int, 0int,
{
    lemma_fmt_parens_unfold(nodes, indent, prefix_len, ctx);
    lemma_fmt_parens_unfold(nodes, indent, prefix_len, offline());
    {
        if nodes.len() == 0 {} else {
            {
                lemma_offline_fmt_generic(nodes, sat_add(sat_add(indent, prefix_len), 1), ctx);
                match fmt_generic(nodes, sat_add(sat_add(indent, prefix_len), 1), ctx) {
                    Err(e) => {},
                    Ok(compact) => if !contains_comments(nodes) && !has_statement_block(nodes) && indent
                    + prefix_len + crate::text::byte_len(compact) + 2 <= WIDTH {} else {
                        let child = sat_add(indent, 4);
                        let parts = split_commas(nodes);
                        {
                            lemma_comma_parts(nodes, 0, 0, seq![]);
                        }
                        { lemma_offline_parens_parts(nodes, parts, 0, child, ctx, ['(', '\n']@); }
                    },
                }
            }
        }
    }
}

pub proof fn lemma_offline_parens_parts(nodes: Seq<Tree>,
    parts: Seq<(int, int)>,
    k: int,
    child: nat,
    ctx: Ctx,
    out: Seq<char>,)
    requires
        !ctx.rustfmt,
    ensures
        parens_parts(nodes, parts, k, child, ctx, out) == parens_parts(nodes, parts, k, child, offline(), out),
    decreases nodes, 2int, parts.len() - k,
{
    lemma_parens_parts_unfold(nodes, parts, k, child, ctx, out);
    lemma_parens_parts_unfold(nodes, parts, k, child, offline(), out);
    {
        if k < 0 || k >= parts.len() || !parts_ok(nodes, parts) {} else {
            let (a, b) = parts[k];
            if a == b {
                {
                    lemma_offline_parens_parts(nodes, parts, k + 1, child, ctx, out);
                }
            } else {
                {
                    if a == 0 && b == nodes.len() {
                        assert(nodes.subrange(a, b) =~= nodes);
                    }
                }
                {
                    lemma_offline_fmt_generic(nodes.subrange(a, b), child, ctx);
                    match fmt_generic(nodes.subrange(a, b), child, ctx) {
                        Err(e) => {},
                        Ok(g) => {
                            lemma_offline_parens_parts(
                                nodes,
                                parts,
                                k + 1,
                                child,
                                ctx,
                                out + spaces(child) + g + [',', '\n']@,
                            );
                        },
                    }
                }
            }
        }
    }
}

pub proof fn lemma_offline_fmt_for_header(nodes: Seq<Tree>, indent: nat, ctx: Ctx)
    requires
        !ctx.rustfmt,
    ensures
        fmt_for_header(nodes, indent, ctx) == fmt_for_header(nodes, indent, offline()),
    decreases nodes, 2int, 0int,
{
    lemma_fmt_for_header_unfold(nodes, indent, ctx);
    lemma_fmt_for_header_unfold(nodes, indent, offline());
    {
        let in_at = first_tok(nodes, 0, ['i', 'n']@);
        {
            lemma_first_tok(nodes, 0, ['i', 'n']@);
            lemma_first_tok(nodes, 0, ['w', 'h', 'e', 'r', 'e']@);
        }
        if in_at >= nodes.len() {
            {
                lemma_offline_fmt_generic(nodes, indent, ctx);
            }
        } else {
            let where_at = first_tok(nodes, 0, ['w', 'h', 'e', 'r', 'e']@);
            let data_end = if where_at < nodes.len() {
                where_at
            } else {
                nodes.len() as int
            };
            let binding = inline_text(nodes.subrange(0, in_at));
            let data_end = if data_end < in_at + 1 {
                in_at + 1
            } else {
                data_end
            };
            {
                lemma_offline_fmt_generic(nodes.subrange(in_at + 1, data_end), indent, ctx);
                match fmt_generic(nodes.subrange(in_at + 1, data_end), indent, ctx) {
                    Err(e) => {},
                    Ok(data) => {
                        let header = binding + [' ', 'i', 'n', ' ']@ + data;
                        if where_at < nodes.len() {
                            let key_start = where_at + 1;
                            let eq = first_tok(nodes, key_start, ['=']@);
                            {
                                lemma_first_tok(nodes, key_start, ['=']@);
                            }
                            if eq < nodes.len() {
                                let key_name = inline_text(nodes.subrange(key_start, eq));
                                { lemma_offline_fmt_generic(nodes.subrange(eq + 1, nodes.len() as int), indent, ctx); }
                            } else {
                                { lemma_offline_fmt_generic(
                                        nodes.subrange(key_start, nodes.len() as int),
                                        indent,
                                        ctx,
                                    ); }
                            }
                        } else {}
                    },
                }
            }
        }
    }
}

pub proof fn lemma_offline_fmt_element(nodes: Seq<Tree>, cursor: int, indent: nat, yielded: bool, ctx: Ctx)
    requires
        !ctx.rustfmt,
    ensures
        fmt_element(nodes, cursor, indent, yielded, ctx) == fmt_element(nodes, cursor, indent, yielded, offline()),
    decreases nodes, 6int, 0int,
{
    lemma_fmt_element_unfold(nodes, cursor, indent, yielded, ctx);
    lemma_fmt_element_unfold(nodes, cursor, indent, yielded, offline());
    {
        let prefix: Seq<char> = if yielded {
            ['y', 'i', 'e', 'l', 'd', ' ']@
        } else {
            seq![]
        };
        let bound = if is_tok(nodes, cursor + 1, ['@']@) {
            match tok_at(nodes, cursor) {
                None => Err(Stop::Fail(['e', 'x', 'p', 'e', 'c', 't', 'e', 'd', ' ', 'b', 'i', 'n', 'd', 'i', 'n', 'g', ' ', 'n', 'a', 'm', 'e']@)),
                Some(b) => Ok((prefix + b + [' ', '@', ' ']@, cursor + 2)),
            }
        } else {
            Ok((prefix, cursor))
        };
        match bound {
            Err(e) => {},
            Ok((prefix, c)) => match consume_type(nodes, c) {
                Err(m) => {},
                Ok(c2) => if c2 == c {} else if c < 0 || c2 < c || c2 > nodes.len() {} else {
                    let prefix = prefix + inline_text(nodes.subrange(c, c2));
                    let (comments, c3) = collect_postfix(nodes, c2, seq![]);
                    {
                        lemma_offline_element_props(nodes, c3, indent, ctx, prefix, comments);
                    }
                },
            },
        }
    }
}

pub proof fn lemma_offline_element_props(nodes: Seq<Tree>,
    c: int,
    indent: nat,
    ctx: Ctx,
    prefix: Seq<char>,
    comments: Seq<Seq<char>>,)
    requires
        !ctx.rustfmt,
    ensures
        element_props(nodes, c, indent, ctx, prefix, comments) == element_props(nodes, c, indent, offline(), prefix, comments),
    decreases nodes, 5int, 0int,
{
    lemma_element_props_unfold(nodes, c, indent, ctx, prefix, comments);
    lemma_element_props_unfold(nodes, c, indent, offline(), prefix, comments);
    {
        {
            lemma_group_smaller(nodes, c + 1, '(');
            lemma_group_smaller(nodes, c, '(');
        }
        let props = if is_tok(nodes, c, ['$']@) {
            match group_at(nodes, c + 1, '(') {
                None => Err(Stop::Fail(['e', 'x', 'p', 'e', 'c', 't', 'e', 'd', ' ', 'd', 'i', 'r', 'e', 'c', 't', ' ', 'p', 'r', 'o', 'p', 's', ' ', 'a', 'f', 't', 'e', 'r', ' ', '`', '$', '`']@)),
                Some(props) => {
                    let p = prefix.push('$');
                    match { lemma_offline_fmt_parens(props, indent, sat(crate::text::byte_len(p) as int), ctx); fmt_parens(props, indent, sat(crate::text::byte_len(p) as int), ctx) } {
                        Err(e) => Err(e),
                        Ok(t) => Ok((p + t, c + 2)),
                    }
                },
            }
        } else {
            match group_at(nodes, c, '(') {
                Some(props) => match { lemma_offline_fmt_parens(props, indent, sat(crate::text::byte_len(prefix) as int), ctx); fmt_parens(props, indent, sat(crate::text::byte_len(prefix) as int), ctx) } {
                    Err(e) => Err(e),
                    Ok(t) => Ok((prefix + t, c + 1)),
                },
                None => Ok((prefix, c)),
            }
        };
        match props {
            Err(e) => {},
            Ok((prefix, c)) => {
                let (comments, c) = collect_postfix(nodes, c, comments);
                {
                    lemma_offline_element_captures(nodes, c, indent, ctx, prefix, comments);
                }
            },
        }
    }
}

pub proof fn lemma_offline_element_captures(nodes: Seq<Tree>,
    c: int,
    indent: nat,
    ctx: Ctx,
    prefix: Seq<char>,
    comments: Seq<Seq<char>>,)
    requires
        !ctx.rustfmt,
    ensures
        element_captures(nodes, c, indent, ctx, prefix, comments) == element_captures(nodes, c, indent, offline(), prefix, comments),
    decreases nodes, 4int, 0int,
{
    lemma_element_captures_unfold(nodes, c, indent, ctx, prefix, comments);
    lemma_element_captures_unfold(nodes, c, indent, offline(), prefix, comments);
    {
        {
            lemma_group_smaller(nodes, c, '[');
        }
        let captured = match group_at(nodes, c, '[') {
            Some(captures) => {
                let p = prefix.push(' ').push('[');
                match { lemma_offline_fmt_generic(captures, sat_add(sat_add(indent, crate::text::byte_len(p)), 1), ctx); fmt_generic(captures, sat_add(sat_add(indent, crate::text::byte_len(p)), 1), ctx) } {
                    Err(e) => Err(e),
                    Ok(t) => Ok((p + t + seq![']'], c + 1)),
                }
            },
            None => Ok((prefix, c)),
        };
        match captured {
            Err(e) => {},
            Ok((prefix, c)) => {
                let (comments, c) = collect_postfix(nodes, c, comments);
                {
                    lemma_offline_element_closure(nodes, c, indent, ctx, prefix, comments);
                }
            },
        }
    }
}

pub proof fn lemma_offline_element_closure(nodes: Seq<Tree>,
    c: int,
    indent: nat,
    ctx: Ctx,
    prefix: Seq<char>,
    comments: Seq<Seq<char>>,)
    requires
        !ctx.rustfmt,
    ensures
        element_closure(nodes, c, indent, ctx, prefix, comments) == element_closure(nodes, c, indent, offline(), prefix, comments),
    decreases nodes, 3int, 0int,
{
    lemma_element_closure_unfold(nodes, c, indent, ctx, prefix, comments);
    lemma_element_closure_unfold(nodes, c, indent, offline(), prefix, comments);
    {
        let closure = if is_tok(nodes, c, ['|']@) {
            let args_start = c + 1;
            let close = first_tok(nodes, args_start, ['|']@);
            {
                lemma_first_tok(nodes, args_start, ['|']@);
            }
            if close >= nodes.len() {
                Err(Stop::Fail(['u', 'n', 'c', 'l', 'o', 's', 'e', 'd', ' ', 'c', 'h', 'i', 'l', 'd', ' ', 'c', 'l', 'o', 's', 'u', 'r', 'e', ' ', 'a', 'r', 'g', 'u', 'm', 'e', 'n', 't', 's']@))
            } else {
                let p = prefix.push(' ').push('|');
                match { lemma_offline_fmt_generic(
                        nodes.subrange(args_start, close),
                        sat_add(indent, crate::text::byte_len(p)),
                        ctx,
                    ); fmt_generic(
                        nodes.subrange(args_start, close),
                        sat_add(indent, crate::text::byte_len(p)),
                        ctx,
                    ) } {
                    Err(e) => Err(e),
                    Ok(t) => Ok((p + t + seq!['|'], close + 1)),
                }
            }
        } else {
            Ok((prefix, c))
        };
        match closure {
            Err(e) => {},
            Ok((prefix, c)) => {
                let (comments, c) = collect_postfix(nodes, c, comments);
                let head = comment_block(comments, indent) + spaces(indent) + prefix;
                {
                    lemma_group_smaller(nodes, c, '{');
                }
                match group_at(nodes, c, '{') {
                    Some(children) => { lemma_offline_fmt_layout(children, sat_add(indent, 4), ctx); },
                    None => {},
                }
            },
        }
    }
}

pub proof fn lemma_offline_fmt_if(nodes: Seq<Tree>, cursor: int, indent: nat, ctx: Ctx)
    requires
        !ctx.rustfmt,
    ensures
        fmt_if(nodes, cursor, indent, ctx) == fmt_if(nodes, cursor, indent, offline()),
    decreases nodes, 6int, nodes.len() - cursor,
{
    lemma_fmt_if_unfold(nodes, cursor, indent, ctx);
    lemma_fmt_if_unfold(nodes, cursor, indent, offline());
    {
        let c = cursor + 1;
        if c < 0 || c > nodes.len() {} else {
            let branch = first_group(nodes, c, '{');
            {
                lemma_first_group(nodes, c, '{');
                lemma_group_smaller(nodes, branch, '{');
            }
            if branch >= nodes.len() {} else {
                let cond = nodes.subrange(c, branch);
                let ci = inline_text(cond);
                let condition = if ctx.rustfmt && indent + 3 + crate::text::byte_len(ci) > WIDTH {
                    match { lemma_offline_fmt_rust_expression(ci, sat_add(indent, 3), indent, ctx); fmt_rust_expression(ci, sat_add(indent, 3), indent, ctx) } {
                        Err(e) => Err(e),
                        Ok(Some(f)) => Ok(f),
                        Ok(None) => { lemma_offline_fmt_generic(cond, sat_add(indent, 3), ctx); fmt_generic(cond, sat_add(indent, 3), ctx) },
                    }
                } else {
                    { lemma_offline_fmt_generic(cond, sat_add(indent, 3), ctx); fmt_generic(cond, sat_add(indent, 3), ctx) }
                };
                match condition {
                    Err(e) => {},
                    Ok(condition) => {
                        lemma_offline_fmt_layout(group_at(nodes, branch, '{')->0, sat_add(indent, 4), ctx);
                        match fmt_layout(group_at(nodes, branch, '{')->0, sat_add(indent, 4), ctx) {
                            Err(e) => {},
                            Ok(body) => {
                                let out = spaces(indent) + ['i', 'f', ' ']@ + condition + [' ', '{', '\n']@ + body
                                + seq!['\n'] + spaces(indent) + seq!['}'];
                                let c = branch + 1;
                                if is_tok(nodes, c, ['e', 'l', 's', 'e']@) {
                                    let c = c + 1;
                                    if is_tok(nodes, c, ['i', 'f']@) {
                                        { lemma_offline_fmt_if(nodes, c, indent, ctx); }
                                    } else {
                                        {
                                            lemma_group_smaller(nodes, c, '{');
                                        }
                                        match group_at(nodes, c, '{') {
                                            None => {},
                                            Some(other) => { lemma_offline_fmt_layout(other, sat_add(indent, 4), ctx); },
                                        }
                                    }
                                } else {}
                            },
                        }
                    },
                }
            }
        }
    }
}

pub proof fn lemma_offline_fmt_for(nodes: Seq<Tree>, cursor: int, indent: nat, ctx: Ctx)
    requires
        !ctx.rustfmt,
    ensures
        fmt_for(nodes, cursor, indent, ctx) == fmt_for(nodes, cursor, indent, offline()),
    decreases nodes, 6int, 0int,
{
    lemma_fmt_for_unfold(nodes, cursor, indent, ctx);
    lemma_fmt_for_unfold(nodes, cursor, indent, offline());
    {
        let c = cursor + 1;
        if c < 0 || c > nodes.len() {} else {
            let body_at = first_group(nodes, c, '{');
            {
                lemma_first_group(nodes, c, '{');
                lemma_group_smaller(nodes, body_at, '{');
            }
            if body_at >= nodes.len() {} else {
                {
                    lemma_offline_fmt_for_header(nodes.subrange(c, body_at), sat_add(indent, 4), ctx);
                    match fmt_for_header(nodes.subrange(c, body_at), sat_add(indent, 4), ctx) {
                        Err(e) => {},
                        Ok(header) => { lemma_offline_fmt_layout(group_at(nodes, body_at, '{')->0, sat_add(indent, 4), ctx); },
                    }
                }
            }
        }
    }
}

pub proof fn lemma_offline_fmt_item(nodes: Seq<Tree>, cursor: int, indent: nat, ctx: Ctx)
    requires
        !ctx.rustfmt,
    ensures
        fmt_item(nodes, cursor, indent, ctx) == fmt_item(nodes, cursor, indent, offline()),
    decreases nodes, 7int, 0int,
{
    lemma_fmt_item_unfold(nodes, cursor, indent, ctx);
    lemma_fmt_item_unfold(nodes, cursor, indent, offline());
    {
        let yielded = is_tok(nodes, cursor, ['y', 'i', 'e', 'l', 'd']@);
        let c = if yielded {
            cursor + 1
        } else {
            cursor
        };
        if is_tok(nodes, c, ['$']@) {
            let c = c + 1;
            {
                lemma_group_smaller(nodes, c, '(');
            }
            if c >= nodes.len() {} else {
                match group_at(nodes, c, '(') {
                    None => {},
                    Some(inner) => { lemma_offline_fmt_generic(inner, sat_add(indent, 2), ctx); },
                }
            }
        } else if !yielded && is_tok(nodes, c, ['i', 'f']@) {
            {
                lemma_offline_fmt_if(nodes, c, indent, ctx);
            }
        } else if !yielded && is_tok(nodes, c, ['f', 'o', 'r']@) {
            {
                lemma_offline_fmt_for(nodes, c, indent, ctx);
            }
        } else {
            { lemma_offline_fmt_element(nodes, c, indent, yielded, ctx); }
        }
    }
}

pub proof fn lemma_offline_layout_lines(nodes: Seq<Tree>,
    c: int,
    indent: nat,
    ctx: Ctx,
    lines: Seq<Seq<char>>,)
    requires
        !ctx.rustfmt,
    ensures
        layout_lines(nodes, c, indent, ctx, lines) == layout_lines(nodes, c, indent, offline(), lines),
    decreases nodes, 8int, 2 * (nodes.len() - c) + 1,
{
    lemma_layout_lines_unfold(nodes, c, indent, ctx, lines);
    lemma_layout_lines_unfold(nodes, c, indent, offline(), lines);
    {
        if c < 0 || c >= nodes.len() {} else if is_tok(nodes, c, [',']@) {
            {
                lemma_offline_layout_lines(nodes, c + 1, indent, ctx, lines);
            }
        } else {
            {
                lemma_offline_comments_then_item(nodes, c, indent, ctx, lines);
            }
        }
    }
}

pub proof fn lemma_offline_comments_then_item(nodes: Seq<Tree>,
    c: int,
    indent: nat,
    ctx: Ctx,
    lines: Seq<Seq<char>>,)
    requires
        !ctx.rustfmt,
    ensures
        comments_then_item(nodes, c, indent, ctx, lines) == comments_then_item(nodes, c, indent, offline(), lines),
    decreases nodes, 8int, 2 * (nodes.len() - c),
{
    lemma_comments_then_item_unfold(nodes, c, indent, ctx, lines);
    lemma_comments_then_item_unfold(nodes, c, indent, offline(), lines);
    {
        if c < 0 || c >= nodes.len() {} else {
            match nodes[c] {
                Tree::Comment { text, .. } => {
                    lemma_offline_comments_then_item(
                        nodes,
                        c + 1,
                        indent,
                        ctx,
                        lines + comment_lines(text, indent),
                    );
                },
                _ => {
                    lemma_offline_fmt_item(nodes, c, indent, ctx);
                    match fmt_item(nodes, c, indent, ctx) {
                        Err(e) => {},
                        Ok((line, c2)) => if c2 <= c || c2 > nodes.len() {} else {
                            {
                                lemma_offline_layout_lines(nodes, c2, indent, ctx, lines.push(line));
                            }
                        },
                    }
                },
            }
        }
    }
}

pub proof fn lemma_offline_fmt_layout(nodes: Seq<Tree>, indent: nat, ctx: Ctx)
    requires
        !ctx.rustfmt,
    ensures
        fmt_layout(nodes, indent, ctx) == fmt_layout(nodes, indent, offline()),
    decreases nodes, 9int, 0int,
{
    lemma_fmt_layout_unfold(nodes, indent, ctx);
    lemma_fmt_layout_unfold(nodes, indent, offline());
    {
        { lemma_offline_layout_lines(nodes, 0, indent, ctx, seq![]); }
    }
}

// ---------------------------------------------------------------------------
// The executable layout.
// ---------------------------------------------------------------------------

pub fn fail_with<const N: usize>(lit: [char; N]) -> (h: Halt)
    ensures
        stop_of(h) == Stop::Fail(lit@),
{
    let mut m: Vec<char> = Vec::new();
    push_word(&mut m, lit);
    Halt::Fail(m)
}

/// A token run laid out at `indent`.
pub fn format_generic(nodes: &[Node], indent: usize, rustfmt: bool, answers: &RustfmtAnswers) -> (r:
    Result<Vec<char>, Halt>)
    ensures
        text_result(r) == fmt_generic(view_nodes(nodes@), indent as nat, ctx_of(rustfmt, answers)),
    decreases nodes@, 1int, 0int,
{
    proof {
        lemma_view_nodes_at(nodes@, 0);
    }
    proof {
        reveal(fmt_generic);
        reveal(generic_parts);
        reveal(generic_tokens);
    }
    let ghost v = view_nodes(nodes@);
    proof {
        lemma_view_nodes_at(nodes@, 0);
    }
    let ghost ctx = ctx_of(rustfmt, answers);
    let compact = inline(nodes);
    let cc = has_comments(nodes);
    let nl = nested_layout(nodes);
    if rustfmt && !cc && !statement_block(nodes) && !nl && indent.saturating_add(
        crate::text::utf8_len(compact.as_slice()),
    ) <= WIDTH {
        return Ok(compact);
    }
    if rustfmt && !cc && !nl {
        match format_rust_expression(compact.as_slice(), indent, indent, rustfmt, answers) {
            Err(e) => {
                return Err(e);
            },
            Ok(Some(f)) => {
                return Ok(f);
            },
            Ok(None) => {},
        }
    }
    if rustfmt {
        match format_dsl_assignment(nodes, indent, answers) {
            Err(e) => {
                return Err(e);
            },
            Ok(Some(f)) => {
                return Ok(f);
            },
            Ok(None) => {},
        }
    }
    let parts = split_commas_exec(nodes);
    let ghost sp = split_commas(v);
    if parts.len() > 1 {
        assert(fmt_generic(v, indent as nat, ctx) == match generic_parts(v, sp, 0, indent as nat, ctx, seq![]) {
            Err(e) => Err(e),
            Ok(texts) => Ok(join(texts, [',', '\n']@ + spaces(indent as nat))),
        });
        let mut done: Vec<Vec<char>> = Vec::new();
        let mut k: usize = 0;
        assert(texts(done@) =~= Seq::<Seq<char>>::empty());
        while k < parts.len()
            invariant
                v == view_nodes(nodes@),
                v.len() == nodes@.len(),
                ctx == ctx_of(rustfmt, answers),
                sp == split_commas(v),
                parts@.len() == sp.len(),
                sp.len() > 1,
                fmt_generic(v, indent as nat, ctx) == match generic_parts(v, sp, 0, indent as nat, ctx, seq![]) {
                    Err(e) => Err(e),
                    Ok(texts) => Ok(join(texts, [',', '\n']@ + spaces(indent as nat))),
                },
                parts_ok(v, sp),
                forall|j: int|
                    0 <= j < parts@.len() ==> (parts@[j].0 as int, parts@[j].1 as int) == #[trigger] sp[j],
                k <= parts@.len(),
                generic_parts(v, sp, k as int, indent as nat, ctx, texts(done@)) == generic_parts(
                    v,
                    sp,
                    0,
                    indent as nat,
                    ctx,
                    seq![],
                ),
            decreases parts@.len() - k,
        {
            proof {
                reveal(fmt_generic);
                reveal(generic_parts);
            }
            let (a, b) = parts[k];
            assert(sp[k as int] == (a as int, b as int));
            if a != b {
                proof {
                    lemma_view_nodes_subrange(nodes@, a as int, b as int);
                }
                match format_generic(&nodes[a..b], indent, rustfmt, answers) {
                    Err(e) => {
                        return Err(e);
                    },
                    Ok(t) => {
                        let ghost before = done@;
                        done.push(t);
                        assert(texts(done@) =~= texts(before).push(t@));
                    },
                }
            }
            k = k + 1;
        }
        let mut sep: Vec<char> = Vec::new();
        sep.push(',');
        sep.push('\n');
        push_spaces(&mut sep, indent);
        assert(sep@ =~= [',', '\n']@ + spaces(indent as nat));
        return Ok(join_exec(&done, sep.as_slice()));
    }
    generic_tokens_exec(nodes, indent, rustfmt, answers)
}

/// The token-by-token layout of a run.
fn generic_tokens_exec(nodes: &[Node], indent: usize, rustfmt: bool, answers: &RustfmtAnswers) -> (r:
    Result<Vec<char>, Halt>)
    ensures
        text_result(r) == generic_tokens(
            view_nodes(nodes@),
            0,
            indent as nat,
            ctx_of(rustfmt, answers),
            seq![],
            false,
        ),
    decreases nodes@, 0int, 0int,
{
    proof {
        reveal(generic_tokens);
    }
    let ghost v = view_nodes(nodes@);
    proof {
        lemma_view_nodes_at(nodes@, 0);
    }
    let ghost ctx = ctx_of(rustfmt, answers);
    let n = nodes.len();
    let mut out: Vec<char> = Vec::new();
    let mut pipe = false;
    let mut index: usize = 0;
    while index < n
        invariant
            n == nodes@.len(),
            v == view_nodes(nodes@),
            v.len() == nodes@.len(),
            ctx == ctx_of(rustfmt, answers),
            index <= n,
            generic_tokens(v, index as int, indent as nat, ctx, out@, pipe) == generic_tokens(
                v,
                0,
                indent as nat,
                ctx,
                seq![],
                false,
            ),
        decreases n - index,
    {
        proof {
            reveal(generic_tokens);
            reveal(fmt_rust_block);
            reveal(fmt_layout);
            reveal(fmt_generic);
        }
        let ghost out0 = out@;
        let ghost pipe0 = pipe;
        if layout_call(nodes, index) {
            proof {
                lemma_view_nodes_at(nodes@, (index + 2) as int);
            }
            match &nodes[index + 2] {
                Node::Group { open, close, nodes: body, .. } => {
                    assert(decreases_to!(nodes@ => body@));
                    push_token(&mut out, ['l', 'a', 'y', 'o', 'u', 't'].as_slice());
                    push_token(&mut out, ['!'].as_slice());
                    if *open == '{' {
                        out.push(' ');
                    }
                    out.push(*open);
                    out.push('\n');
                    let ghost o = out@;
                    let inner_indent = indent.saturating_add(4);
                    match format_layout(body.as_slice(), inner_indent, rustfmt, answers) {
                        Ok(t) => {
                            push_all(&mut out, t.as_slice());
                        },
                        Err(Halt::Fail(_)) => {
                            push_spaces(&mut out, inner_indent);
                            let flat = inline(body.as_slice());
                            push_all(&mut out, flat.as_slice());
                        },
                        Err(Halt::Ask(w, k)) => {
                            return Err(Halt::Ask(w, k));
                        },
                    }
                    out.push('\n');
                    push_spaces(&mut out, indent);
                    out.push(*close);
                    index = index + 3;
                    proof {
                        let inner = match fmt_layout(view_nodes(body@), sat_add(indent as nat, 4), ctx) {
                            Ok(t) => t,
                            Err(_) => spaces(sat_add(indent as nat, 4)) + inline_text(view_nodes(body@)),
                        };
                        assert(out@ =~= o + inner + seq!['\n'] + spaces(indent as nat) + seq![*close]);
                    }
                },
                _ => {
                    return Ok(out);
                },
            }
        } else {
            proof {
                lemma_view_nodes_at(nodes@, (index) as int);
            }
            match &nodes[index] {
                Node::Comment { text, .. } => {
                    let m = out.len();
                    if m > 0 && out[m - 1] != '\n' {
                        out.push('\n');
                    }
                    let ghost o1 = out@;
                    push_all(&mut out, text.as_slice());
                    let ghost o2 = out@;
                    assert(o2 =~= o1 + text@);
                    if index + 1 < n {
                        out.push('\n');
                        push_spaces(&mut out, indent);
                        assert(out@ =~= o2 + seq!['\n'] + spaces(indent as nat));
                    }
                },
                Node::Group { open, close, nodes: inner, .. } => {
                    assert(decreases_to!(nodes@ => inner@));
                    if *open == '{' && top_level_statement(inner.as_slice()) {
                        pop_spaces(&mut out);
                        if out.len() > 0 {
                            out.push(' ');
                        }
                        let ghost o1 = out@;
                        match format_rust_block(inner.as_slice(), indent, rustfmt, answers) {
                            Err(e) => {
                                assert(v[index as int] == view_node_flat(nodes@[index as int]));
                                assert(generic_tokens(v, index as int, indent as nat, ctx, out0, pipe0) == Err::<Seq<char>, Stop>(stop_of(e)));
                                return Err(e);
                            },
                            Ok(b) => {
                                push_all(&mut out, b.as_slice());
                                assert(out@ =~= o1 + b@);
                            },
                        }
                    } else {
                        match format_generic(inner.as_slice(), indent, rustfmt, answers) {
                            Err(e) => {
                                return Err(e);
                            },
                            Ok(g) => {
                                out.push(*open);
                                push_all(&mut out, g.as_slice());
                                out.push(*close);
                                assert(out@ =~= out0.push(*open) + g@ + seq![*close]);
                            },
                        }
                    }
                },
                Node::Token { text, .. } => {
                    if word_is(text.as_slice(), ['|']) {
                        push_pipe(&mut out, &mut pipe);
                    } else {
                        push_token(&mut out, text.as_slice());
                    }
                },
            }
            index = index + 1;
        }
    }
    Ok(out)
}

/// A brace block with statements, one per line at `indent + 4`.
pub fn format_rust_block(nodes: &[Node], indent: usize, rustfmt: bool, answers: &RustfmtAnswers) -> (r:
    Result<Vec<char>, Halt>)
    ensures
        text_result(r) == fmt_rust_block(view_nodes(nodes@), indent as nat, ctx_of(rustfmt, answers)),
    decreases nodes@, 3int, 0int,
{
    proof {
        lemma_view_nodes_at(nodes@, 0);
    }
    proof {
        reveal(fmt_rust_block);
        reveal(block_scan);
        reveal(fmt_generic);
    }
    let ghost v = view_nodes(nodes@);
    proof {
        lemma_view_nodes_at(nodes@, 0);
    }
    let ghost ctx = ctx_of(rustfmt, answers);
    let child = indent.saturating_add(4);
    let n = nodes.len();
    let mut out: Vec<char> = Vec::new();
    out.push('{');
    out.push('\n');
    assert(out@ =~= ['{', '\n']@);
    let mut start: usize = 0;
    let mut index: usize = 0;
    while index < n
        invariant
            n == nodes@.len(),
            v == view_nodes(nodes@),
            v.len() == nodes@.len(),
            ctx == ctx_of(rustfmt, answers),
            child as nat == sat_add(indent as nat, 4),
            fmt_rust_block(v, indent as nat, ctx) == match block_scan(v, 0, 0, child as nat, ctx, ['{', '\n']@) {
                Err(e) => Err(e),
                Ok(o) => Ok(o + spaces(indent as nat) + seq!['}']),
            },
            start <= index <= n,
            block_scan(v, index as int, start as int, child as nat, ctx, out@) == block_scan(
                v,
                0,
                0,
                child as nat,
                ctx,
                ['{', '\n']@,
            ),
        decreases n - index,
    {
        proof {
            reveal(fmt_rust_block);
            reveal(block_scan);
            reveal(fmt_generic);
        }
        let ghost out0 = out@;
        let ghost start0 = start;
        if token_is(nodes, index, [';']) {
            if start < index {
                proof {
                    lemma_view_nodes_subrange(nodes@, start as int, index as int);
                }
                match format_generic(&nodes[start..index], child, rustfmt, answers) {
                    Err(e) => {
                        return Err(e);
                    },
                    Ok(g) => {
                        let ghost o0 = out@;
                        push_spaces(&mut out, child);
                        push_all(&mut out, g.as_slice());
                        out.push(';');
                        out.push('\n');
                        assert(out@ =~= o0 + spaces(child as nat) + g@ + [';', '\n']@);
                    },
                }
            }
            start = index + 1;
            assert(block_scan(v, index + 1, start as int, child as nat, ctx, out@) == block_scan(v, index as int, start0 as int, child as nat, ctx, out0));
        } else {
            assert(block_scan(v, index + 1, start as int, child as nat, ctx, out@) == block_scan(v, index as int, start0 as int, child as nat, ctx, out0));
        }
        index = index + 1;
    }
    if start < n {
        proof {
            lemma_view_nodes_subrange(nodes@, start as int, n as int);
            if start == 0 {
                assert(nodes@.subrange(0, n as int) =~= nodes@);
            }
        }
        match format_generic(&nodes[start..n], child, rustfmt, answers) {
            Err(e) => {
                return Err(e);
            },
            Ok(g) => {
                let ghost o0 = out@;
                push_spaces(&mut out, child);
                push_all(&mut out, g.as_slice());
                out.push('\n');
                assert(out@ =~= o0 + spaces(child as nat) + g@ + seq!['\n']);
            },
        }
    }
    let ghost o1 = out@;
    push_spaces(&mut out, indent);
    out.push('}');
    assert(out@ =~= o1 + spaces(indent as nat) + seq!['}']);
    Ok(out)
}

/// Parenthesized arguments after a prefix of `prefix_len` bytes at `indent`.


pub fn format_parens(
    nodes: &[Node],
    indent: usize,
    prefix_len: usize,
    rustfmt: bool,
    answers: &RustfmtAnswers,
) -> (r: Result<Vec<char>, Halt>)
    ensures
        text_result(r) == fmt_parens(
            view_nodes(nodes@),
            indent as nat,
            prefix_len as nat,
            ctx_of(rustfmt, answers),
        ),
    decreases nodes@, 3int, 0int,
{
    proof {
        lemma_view_nodes_at(nodes@, 0);
    }
    proof {
        lemma_fmt_parens_unfold(view_nodes(nodes@), indent as nat, prefix_len as nat, ctx_of(rustfmt, answers));
        lemma_comma_parts(view_nodes(nodes@), 0, 0, seq![]);
    }
    let ghost v = view_nodes(nodes@);
    proof {
        lemma_view_nodes_at(nodes@, 0);
    }
    let ghost ctx = ctx_of(rustfmt, answers);
    let n = nodes.len();
    if n == 0 {
        let mut r: Vec<char> = Vec::new();
        r.push('(');
        r.push(')');
        assert(r@ =~= ['(', ')']@);
        return Ok(r);
    }
    let compact = match format_generic(
        nodes,
        indent.saturating_add(prefix_len).saturating_add(1),
        rustfmt,
        answers,
    ) {
        Err(e) => {
            return Err(e);
        },
        Ok(c) => c,
    };
    if !has_comments(nodes) && !statement_block(nodes) && indent.saturating_add(prefix_len).saturating_add(
        crate::text::utf8_len(compact.as_slice()),
    ).saturating_add(2) <= WIDTH {
        let mut r: Vec<char> = Vec::new();
        r.push('(');
        push_all(&mut r, compact.as_slice());
        r.push(')');
        assert(r@ =~= seq!['('] + compact@ + seq![')']);
        return Ok(r);
    }
    let child = indent.saturating_add(4);
    let parts = split_commas_exec(nodes);
    let ghost sp = split_commas(v);
    let mut out: Vec<char> = Vec::new();
    out.push('(');
    out.push('\n');
    assert(out@ =~= ['(', '\n']@);
    let mut k: usize = 0;
    while k < parts.len()
        invariant
            n == nodes@.len(),
            v == view_nodes(nodes@),
            v.len() == nodes@.len(),
            ctx == ctx_of(rustfmt, answers),
            sp == split_commas(v),
            parts@.len() == sp.len(),
            parts_ok(v, sp),
            forall|j: int|
                0 <= j < parts@.len() ==> (parts@[j].0 as int, parts@[j].1 as int) == #[trigger] sp[j],
            child as nat == sat_add(indent as nat, 4),
            fmt_parens(v, indent as nat, prefix_len as nat, ctx) == match parens_parts(v, sp, 0, child as nat, ctx, ['(', '\n']@) {
                Err(e) => Err(e),
                Ok(o) => Ok(o + spaces(indent as nat) + seq![')']),
            },
            k <= parts@.len(),
            parens_parts(v, sp, k as int, child as nat, ctx, out@) == parens_parts(
                v,
                sp,
                0,
                child as nat,
                ctx,
                ['(', '\n']@,
            ),
        decreases parts@.len() - k,
    {
        proof {
            reveal(parens_parts);
            reveal(fmt_generic);
        }
        let (a, b) = parts[k];
        assert(sp[k as int] == (a as int, b as int));
        if a != b {
            proof {
                lemma_view_nodes_subrange(nodes@, a as int, b as int);
                if a == 0 && b == n {
                    assert(nodes@.subrange(0, n as int) =~= nodes@);
                }
            }
            match format_generic(&nodes[a..b], child, rustfmt, answers) {
                Err(e) => {
                    return Err(e);
                },
                Ok(g) => {
                    let ghost o0 = out@;
                    push_spaces(&mut out, child);
                    push_all(&mut out, g.as_slice());
                    out.push(',');
                    out.push('\n');
                    assert(out@ =~= o0 + spaces(child as nat) + g@ + [',', '\n']@);
                },
            }
        }
        k = k + 1;
    }
    assert(parens_parts(v, sp, k as int, child as nat, ctx, out@) == Ok::<Seq<char>, Stop>(out@)) by {
        reveal(parens_parts);
    }
    let ghost o1 = out@;
    push_spaces(&mut out, indent);
    out.push(')');
    assert(out@ =~= o1 + spaces(indent as nat) + seq![')']);
    Ok(out)
}


/// The header of a `for` item.
pub fn format_for_header(nodes: &[Node], indent: usize, rustfmt: bool, answers: &RustfmtAnswers) -> (r:
    Result<Vec<char>, Halt>)
    ensures
        text_result(r) == fmt_for_header(view_nodes(nodes@), indent as nat, ctx_of(rustfmt, answers)),
    decreases nodes@, 2int, 0int,
{
    proof {
        lemma_fmt_for_header_unfold(view_nodes(nodes@), indent as nat, ctx_of(rustfmt, answers));
    }
    proof {
        lemma_view_nodes_at(nodes@, 0);
    }
    let n = nodes.len();
    let in_at = find_token(nodes, 0, ['i', 'n']);
    if in_at >= n {
        return format_generic(nodes, indent, rustfmt, answers);
    }
    let where_at = find_token(nodes, 0, ['w', 'h', 'e', 'r', 'e']);
    let data_end = if where_at < n {
        where_at
    } else {
        n
    };
    proof {
        lemma_view_nodes_subrange(nodes@, 0, in_at as int);
    }
    let binding = inline(&nodes[0..in_at]);
    let data_end = if data_end < in_at + 1 {
        in_at + 1
    } else {
        data_end
    };
    proof {
        lemma_view_nodes_subrange(nodes@, in_at + 1, data_end as int);
    }
    let data = match format_generic(&nodes[in_at + 1..data_end], indent, rustfmt, answers) {
        Err(e) => {
            return Err(e);
        },
        Ok(d) => d,
    };
    let mut header = binding;
    push_word(&mut header, [' ', 'i', 'n', ' ']);
    push_all(&mut header, data.as_slice());
    if where_at < n {
        let key_start = where_at + 1;
        let eq = find_token(nodes, key_start, ['=']);
        if eq < n {
            proof {
                lemma_view_nodes_subrange(nodes@, key_start as int, eq as int);
                lemma_view_nodes_subrange(nodes@, eq + 1, n as int);
            }
            let key_name = inline(&nodes[key_start..eq]);
            let key = match format_generic(&nodes[eq + 1..n], indent, rustfmt, answers) {
                Err(e) => {
                    return Err(e);
                },
                Ok(k) => k,
            };
            let ghost h = header@;
            push_word(&mut header, [' ', 'w', 'h', 'e', 'r', 'e', ' ']);
            push_all(&mut header, key_name.as_slice());
            push_word(&mut header, [' ', '=', ' ']);
            push_all(&mut header, key.as_slice());
            assert(header@ =~= h + [' ', 'w', 'h', 'e', 'r', 'e', ' ']@ + key_name@ + [' ', '=', ' ']@ + key@);
        } else {
            proof {
                lemma_view_nodes_subrange(nodes@, key_start as int, n as int);
            }
            let key = match format_generic(&nodes[key_start..n], indent, rustfmt, answers) {
                Err(e) => {
                    return Err(e);
                },
                Ok(k) => k,
            };
            let ghost h = header@;
            push_word(&mut header, [' ', 'w', 'h', 'e', 'r', 'e', ' ']);
            push_all(&mut header, key.as_slice());
            assert(header@ =~= h + [' ', 'w', 'h', 'e', 'r', 'e', ' ']@ + key@);
        }
    }
    Ok(header)
}

/// An element item from `cursor`.
pub fn format_element(
    nodes: &[Node],
    cursor: usize,
    indent: usize,
    yielded: bool,
    rustfmt: bool,
    answers: &RustfmtAnswers,
) -> (r: Result<(Vec<char>, usize), Halt>)
    requires
        cursor <= nodes@.len(),
    ensures
        item_result(r) == fmt_element(
            view_nodes(nodes@),
            cursor as int,
            indent as nat,
            yielded,
            ctx_of(rustfmt, answers),
        ),
        r matches Ok((_, c)) ==> c <= nodes@.len(),
    decreases nodes@, 6int, 0int,
{
    proof {
        lemma_fmt_element_unfold(view_nodes(nodes@), cursor as int, indent as nat, yielded, ctx_of(rustfmt, answers));
    }
    let ghost v = view_nodes(nodes@);
    proof {
        lemma_view_nodes_at(nodes@, 0);
    }
    let n = nodes.len();
    let mut prefix: Vec<char> = Vec::new();
    if yielded {
        push_word(&mut prefix, ['y', 'i', 'e', 'l', 'd', ' ']);
    }
    let mut c = cursor;
    if cursor < n && token_is(nodes, cursor + 1, ['@']) {
        match token_at(nodes, cursor) {
            None => {
                return Err(fail_with(['e', 'x', 'p', 'e', 'c', 't', 'e', 'd', ' ', 'b', 'i', 'n', 'd', 'i', 'n', 'g', ' ', 'n', 'a', 'm', 'e']));
            },
            Some(b) => {
                let ghost p0 = prefix@;
                push_all(&mut prefix, b.as_slice());
                push_word(&mut prefix, [' ', '@', ' ']);
                assert(prefix@ =~= p0 + b@ + [' ', '@', ' ']@);
                c = cursor + 2;
            },
        }
    }
    assert(c <= n);
    proof {
        lemma_consume_type(v, c as int);
    }
    let c2 = match consume_type_exec(nodes, c) {
        Err(m) => {
            return Err(Halt::Fail(m));
        },
        Ok(c2) => c2,
    };
    if c2 == c {
        return Err(fail_with(['e', 'x', 'p', 'e', 'c', 't', 'e', 'd', ' ', 'c', 'o', 'm', 'p', 'o', 'n', 'e', 'n', 't', ' ', 't', 'y', 'p', 'e']));
    }
    proof {
        lemma_view_nodes_subrange(nodes@, c as int, c2 as int);
    }
    let ty = inline(&nodes[c..c2]);
    let ghost p1 = prefix@;
    push_all(&mut prefix, ty.as_slice());
    assert(prefix@ =~= p1 + ty@);
    let mut comments: Vec<Vec<char>> = Vec::new();
    assert(texts(comments@) =~= Seq::<Seq<char>>::empty());
    let c3 = collect_postfix_comments(nodes, c2, &mut comments);
    element_props_exec(nodes, c3, indent, rustfmt, answers, prefix, comments)
}

fn element_props_exec(
    nodes: &[Node],
    c: usize,
    indent: usize,
    rustfmt: bool,
    answers: &RustfmtAnswers,
    prefix: Vec<char>,
    comments: Vec<Vec<char>>,
) -> (r: Result<(Vec<char>, usize), Halt>)
    requires
        c <= nodes@.len(),
    ensures
        item_result(r) == element_props(
            view_nodes(nodes@),
            c as int,
            indent as nat,
            ctx_of(rustfmt, answers),
            prefix@,
            texts(comments@),
        ),
        r matches Ok((_, c)) ==> c <= nodes@.len(),
    decreases nodes@, 5int, 0int,
{
    proof {
        lemma_view_nodes_at(nodes@, 0);
    }
    proof {
        lemma_element_props_unfold(view_nodes(nodes@), c as int, indent as nat, ctx_of(rustfmt, answers), prefix@, texts(comments@));
    }
    let n = nodes.len();
    let mut prefix = prefix;
    let mut comments = comments;
    let mut c = c;
    if token_is(nodes, c, ['$']) {
        assert(c < nodes@.len());
        match group_ref(nodes, c + 1, '(') {
            None => {
                return Err(fail_with(['e', 'x', 'p', 'e', 'c', 't', 'e', 'd', ' ', 'd', 'i', 'r', 'e', 'c', 't', ' ', 'p', 'r', 'o', 'p', 's', ' ', 'a', 'f', 't', 'e', 'r', ' ', '`', '$', '`']));
            },
            Some(props) => {
                prefix.push('$');
                let len = crate::text::utf8_len(prefix.as_slice());
                match format_parens(props.as_slice(), indent, len, rustfmt, answers) {
                    Err(e) => {
                        return Err(e);
                    },
                    Ok(t) => {
                        let ghost p0 = prefix@;
                        push_all(&mut prefix, t.as_slice());
                        assert(prefix@ =~= p0 + t@);
                    },
                }
                c = c + 2;
            },
        }
    } else {
        match group_ref(nodes, c, '(') {
            Some(props) => {
                assert(c < nodes@.len());
                let len = crate::text::utf8_len(prefix.as_slice());
                match format_parens(props.as_slice(), indent, len, rustfmt, answers) {
                    Err(e) => {
                        return Err(e);
                    },
                    Ok(t) => {
                        let ghost p0 = prefix@;
                        push_all(&mut prefix, t.as_slice());
                        assert(prefix@ =~= p0 + t@);
                    },
                }
                c = c + 1;
            },
            None => {},
        }
    }
    let c = collect_postfix_comments(nodes, c, &mut comments);
    element_captures_exec(nodes, c, indent, rustfmt, answers, prefix, comments)
}

fn element_captures_exec(
    nodes: &[Node],
    c: usize,
    indent: usize,
    rustfmt: bool,
    answers: &RustfmtAnswers,
    prefix: Vec<char>,
    comments: Vec<Vec<char>>,
) -> (r: Result<(Vec<char>, usize), Halt>)
    requires
        c <= nodes@.len(),
    ensures
        item_result(r) == element_captures(
            view_nodes(nodes@),
            c as int,
            indent as nat,
            ctx_of(rustfmt, answers),
            prefix@,
            texts(comments@),
        ),
        r matches Ok((_, c)) ==> c <= nodes@.len(),
    decreases nodes@, 4int, 0int,
{
    proof {
        lemma_view_nodes_at(nodes@, 0);
    }
    proof {
        lemma_element_captures_unfold(view_nodes(nodes@), c as int, indent as nat, ctx_of(rustfmt, answers), prefix@, texts(comments@));
    }
    let n = nodes.len();
    let mut prefix = prefix;
    let mut comments = comments;
    let mut c = c;
    match group_ref(nodes, c, '[') {
        Some(captures) => {
            prefix.push(' ');
            prefix.push('[');
            let at = indent.saturating_add(crate::text::utf8_len(prefix.as_slice())).saturating_add(1);
            match format_generic(captures.as_slice(), at, rustfmt, answers) {
                Err(e) => {
                    return Err(e);
                },
                Ok(t) => {
                    let ghost p0 = prefix@;
                    push_all(&mut prefix, t.as_slice());
                    prefix.push(']');
                    assert(prefix@ =~= p0 + t@ + seq![']']);
                },
            }
            c = c + 1;
        },
        None => {},
    }
    let c = collect_postfix_comments(nodes, c, &mut comments);
    element_closure_exec(nodes, c, indent, rustfmt, answers, prefix, comments)
}

fn element_closure_exec(
    nodes: &[Node],
    c: usize,
    indent: usize,
    rustfmt: bool,
    answers: &RustfmtAnswers,
    prefix: Vec<char>,
    comments: Vec<Vec<char>>,
) -> (r: Result<(Vec<char>, usize), Halt>)
    requires
        c <= nodes@.len(),
    ensures
        item_result(r) == element_closure(
            view_nodes(nodes@),
            c as int,
            indent as nat,
            ctx_of(rustfmt, answers),
            prefix@,
            texts(comments@),
        ),
        r matches Ok((_, c)) ==> c <= nodes@.len(),
    decreases nodes@, 3int, 0int,
{
    proof {
        lemma_view_nodes_at(nodes@, 0);
    }
    proof {
        lemma_element_closure_unfold(view_nodes(nodes@), c as int, indent as nat, ctx_of(rustfmt, answers), prefix@, texts(comments@));
    }
    let n = nodes.len();
    let mut prefix = prefix;
    let mut comments = comments;
    let mut c = c;
    if token_is(nodes, c, ['|']) {
        let args_start = c + 1;
        let close = find_token(nodes, args_start, ['|']);
        if close >= n {
            return Err(fail_with(['u', 'n', 'c', 'l', 'o', 's', 'e', 'd', ' ', 'c', 'h', 'i', 'l', 'd', ' ', 'c', 'l', 'o', 's', 'u', 'r', 'e', ' ', 'a', 'r', 'g', 'u', 'm', 'e', 'n', 't', 's']));
        }
        prefix.push(' ');
        prefix.push('|');
        let at = indent.saturating_add(crate::text::utf8_len(prefix.as_slice()));
        proof {
            lemma_view_nodes_subrange(nodes@, args_start as int, close as int);
        }
        match format_generic(&nodes[args_start..close], at, rustfmt, answers) {
            Err(e) => {
                return Err(e);
            },
            Ok(t) => {
                let ghost p0 = prefix@;
                push_all(&mut prefix, t.as_slice());
                prefix.push('|');
                assert(prefix@ =~= p0 + t@ + seq!['|']);
            },
        }
        c = close + 1;
    }
    let c = collect_postfix_comments(nodes, c, &mut comments);
    let mut head: Vec<char> = Vec::new();
    push_comment_block(&mut head, &comments, indent);
    let ghost h0 = head@;
    push_spaces(&mut head, indent);
    push_all(&mut head, prefix.as_slice());
    assert(head@ =~= h0 + spaces(indent as nat) + prefix@);
    match group_ref(nodes, c, '{') {
        Some(children) => {
            match format_layout(children.as_slice(), indent.saturating_add(4), rustfmt, answers) {
                Err(e) => Err(e),
                Ok(t) => {
                    let ghost h = head@;
                    push_word(&mut head, [' ', '{', '\n']);
                    push_all(&mut head, t.as_slice());
                    head.push('\n');
                    push_spaces(&mut head, indent);
                    head.push('}');
                    assert(head@ =~= h + [' ', '{', '\n']@ + t@ + seq!['\n'] + spaces(indent as nat)
                        + seq!['}']);
                    Ok((head, c + 1))
                },
            }
        },
        None => Ok((head, c)),
    }
}

/// An `if` item whose `if` stands at `cursor`.
pub fn format_if(
    nodes: &[Node],
    cursor: usize,
    indent: usize,
    rustfmt: bool,
    answers: &RustfmtAnswers,
) -> (r: Result<(Vec<char>, usize), Halt>)
    requires
        cursor < nodes@.len(),
    ensures
        item_result(r) == fmt_if(view_nodes(nodes@), cursor as int, indent as nat, ctx_of(rustfmt, answers)),
        r matches Ok((_, c)) ==> c <= nodes@.len(),
    decreases nodes@, 6int, nodes@.len() - cursor,
{
    proof {
        lemma_fmt_if_unfold(view_nodes(nodes@), cursor as int, indent as nat, ctx_of(rustfmt, answers));
    }
    let ghost v = view_nodes(nodes@);
    proof {
        lemma_view_nodes_at(nodes@, 0);
    }
    let n = nodes.len();
    let c = cursor + 1;
    let branch = find_group(nodes, c, '{');
    proof {
        lemma_first_group(v, c as int, '{');
    }
    if branch >= n {
        return Err(fail_with(['e', 'x', 'p', 'e', 'c', 't', 'e', 'd', ' ', 'b', 'l', 'o', 'c', 'k', ' ', 'a', 'f', 't', 'e', 'r', ' ', '`', 'i', 'f', '`', ' ', 'c', 'o', 'n', 'd', 'i', 't', 'i', 'o', 'n']));
    }
    proof {
        lemma_view_nodes_subrange(nodes@, c as int, branch as int);
    }
    let cond = &nodes[c..branch];
    let ci = inline(cond);
    let condition = if rustfmt && indent.saturating_add(3).saturating_add(
        crate::text::utf8_len(ci.as_slice()),
    ) > WIDTH {
        match format_rust_expression(ci.as_slice(), indent.saturating_add(3), indent, rustfmt, answers) {
            Err(e) => {
                return Err(e);
            },
            Ok(Some(f)) => f,
            Ok(None) => match format_generic(cond, indent.saturating_add(3), rustfmt, answers) {
                Err(e) => {
                    return Err(e);
                },
                Ok(g) => g,
            },
        }
    } else {
        match format_generic(cond, indent.saturating_add(3), rustfmt, answers) {
            Err(e) => {
                return Err(e);
            },
            Ok(g) => g,
        }
    };
    let then = match group_ref(nodes, branch, '{') {
        Some(t) => t,
        None => {
            return Err(fail_with(['e', 'x', 'p', 'e', 'c', 't', 'e', 'd', ' ', 'b', 'l', 'o', 'c', 'k', ' ', 'a', 'f', 't', 'e', 'r', ' ', '`', 'i', 'f', '`', ' ', 'c', 'o', 'n', 'd', 'i', 't', 'i', 'o', 'n']));
        },
    };
    let body = match format_layout(then.as_slice(), indent.saturating_add(4), rustfmt, answers) {
        Err(e) => {
            return Err(e);
        },
        Ok(b) => b,
    };
    let mut out = make_spaces(indent);
    push_word(&mut out, ['i', 'f', ' ']);
    push_all(&mut out, condition.as_slice());
    push_word(&mut out, [' ', '{', '\n']);
    push_all(&mut out, body.as_slice());
    out.push('\n');
    push_spaces(&mut out, indent);
    out.push('}');
    assert(out@ =~= spaces(indent as nat) + ['i', 'f', ' ']@ + condition@ + [' ', '{', '\n']@ + body@
        + seq!['\n'] + spaces(indent as nat) + seq!['}']);
    let c = branch + 1;
    if token_is(nodes, c, ['e', 'l', 's', 'e']) {
        let c = c + 1;
        if token_is(nodes, c, ['i', 'f']) {
            match format_if(nodes, c, indent, rustfmt, answers) {
                Err(e) => Err(e),
                Ok((nested, c2)) => {
                    let ghost o = out@;
                    push_word(&mut out, [' ', 'e', 'l', 's', 'e', ' ']);
                    let k = indent;
                    let strip = nested.len() >= k && {
                        let sp = make_spaces(k);
                        crate::text::chars_eq(&nested.as_slice()[0..k], sp.as_slice())
                    };
                    if strip {
                        push_all(&mut out, &nested.as_slice()[k..nested.len()]);
                    } else {
                        push_all(&mut out, nested.as_slice());
                    }
                    assert(out@ =~= o + [' ', 'e', 'l', 's', 'e', ' ']@ + strip_prefix(nested@, spaces(indent as nat)));
                    Ok((out, c2))
                },
            }
        } else {
            match group_ref(nodes, c, '{') {
                None => Err(fail_with(['e', 'x', 'p', 'e', 'c', 't', 'e', 'd', ' ', 'b', 'l', 'o', 'c', 'k', ' ', 'a', 'f', 't', 'e', 'r', ' ', '`', 'e', 'l', 's', 'e', '`'])),
                Some(other) => match format_layout(other.as_slice(), indent.saturating_add(4), rustfmt, answers) {
                    Err(e) => Err(e),
                    Ok(b) => {
                        let ghost o = out@;
                        push_word(&mut out, [' ', 'e', 'l', 's', 'e', ' ', '{', '\n']);
                        push_all(&mut out, b.as_slice());
                        out.push('\n');
                        push_spaces(&mut out, indent);
                        out.push('}');
                        assert(out@ =~= o + [' ', 'e', 'l', 's', 'e', ' ', '{', '\n']@ + b@ + seq!['\n'] + spaces(indent as nat)
                            + seq!['}']);
                        Ok((out, c + 1))
                    },
                },
            }
        }
    } else {
        Ok((out, c))
    }
}

/// A `for` item whose `for` stands at `cursor`.
pub fn format_for(
    nodes: &[Node],
    cursor: usize,
    indent: usize,
    rustfmt: bool,
    answers: &RustfmtAnswers,
) -> (r: Result<(Vec<char>, usize), Halt>)
    requires
        cursor < nodes@.len(),
    ensures
        item_result(r) == fmt_for(view_nodes(nodes@), cursor as int, indent as nat, ctx_of(rustfmt, answers)),
        r matches Ok((_, c)) ==> c <= nodes@.len(),
    decreases nodes@, 6int, 0int,
{
    proof {
        lemma_view_nodes_at(nodes@, 0);
    }
    proof {
        lemma_fmt_for_unfold(view_nodes(nodes@), cursor as int, indent as nat, ctx_of(rustfmt, answers));
    }
    let n = nodes.len();
    let c = cursor + 1;
    let body_at = find_group(nodes, c, '{');
    proof {
        lemma_first_group(view_nodes(nodes@), c as int, '{');
    }
    if body_at >= n {
        return Err(fail_with(['e', 'x', 'p', 'e', 'c', 't', 'e', 'd', ' ', 'b', 'l', 'o', 'c', 'k', ' ', 'a', 'f', 't', 'e', 'r', ' ', '`', 'f', 'o', 'r', '`', ' ', 'h', 'e', 'a', 'd', 'e', 'r']));
    }
    proof {
        lemma_view_nodes_subrange(nodes@, c as int, body_at as int);
    }
    let header = match format_for_header(&nodes[c..body_at], indent.saturating_add(4), rustfmt, answers) {
        Err(e) => {
            return Err(e);
        },
        Ok(h) => h,
    };
    let body_nodes = match group_ref(nodes, body_at, '{') {
        Some(b) => b,
        None => {
            return Err(fail_with(['e', 'x', 'p', 'e', 'c', 't', 'e', 'd', ' ', 'b', 'l', 'o', 'c', 'k', ' ', 'a', 'f', 't', 'e', 'r', ' ', '`', 'f', 'o', 'r', '`', ' ', 'h', 'e', 'a', 'd', 'e', 'r']));
        },
    };
    let body = match format_layout(body_nodes.as_slice(), indent.saturating_add(4), rustfmt, answers) {
        Err(e) => {
            return Err(e);
        },
        Ok(b) => b,
    };
    let mut out = make_spaces(indent);
    push_word(&mut out, ['f', 'o', 'r', ' ']);
    push_all(&mut out, header.as_slice());
    push_word(&mut out, [' ', '{', '\n']);
    push_all(&mut out, body.as_slice());
    out.push('\n');
    push_spaces(&mut out, indent);
    out.push('}');
    assert(out@ =~= spaces(indent as nat) + ['f', 'o', 'r', ' ']@ + header@ + [' ', '{', '\n']@ + body@
        + seq!['\n'] + spaces(indent as nat) + seq!['}']);
    Ok((out, body_at + 1))
}

/// One layout item from `cursor`, and the index after it.
pub fn format_item(
    nodes: &[Node],
    cursor: usize,
    indent: usize,
    rustfmt: bool,
    answers: &RustfmtAnswers,
) -> (r: Result<(Vec<char>, usize), Halt>)
    requires
        cursor < nodes@.len(),
    ensures
        item_result(r) == fmt_item(view_nodes(nodes@), cursor as int, indent as nat, ctx_of(rustfmt, answers)),
        r matches Ok((_, c)) ==> c <= nodes@.len(),
    decreases nodes@, 7int, 0int,
{
    proof {
        lemma_fmt_item_unfold(view_nodes(nodes@), cursor as int, indent as nat, ctx_of(rustfmt, answers));
    }
    proof {
        lemma_view_nodes_at(nodes@, 0);
    }
    let n = nodes.len();
    let yielded = token_is(nodes, cursor, ['y', 'i', 'e', 'l', 'd']);
    let c = if yielded {
        cursor + 1
    } else {
        cursor
    };
    if token_is(nodes, c, ['$']) {
        let c = c + 1;
        if c >= n {
            return Err(fail_with(['e', 'x', 'p', 'e', 'c', 't', 'e', 'd', ' ', 'e', 'x', 'p', 'r', 'e', 's', 's', 'i', 'o', 'n', ' ', 'a', 'f', 't', 'e', 'r', ' ', '`', '$', '`']));
        }
        match group_ref(nodes, c, '(') {
            None => Err(fail_with(['e', 'x', 'p', 'e', 'c', 't', 'e', 'd', ' ', 'p', 'a', 'r', 'e', 'n', 't', 'h', 'e', 's', 'i', 'z', 'e', 'd', ' ', 'e', 'x', 'p', 'r', 'e', 's', 's', 'i', 'o', 'n', ' ', 'a', 'f', 't', 'e', 'r', ' ', '`', '$', '`'])),
            Some(inner) => match format_generic(inner.as_slice(), indent.saturating_add(2), rustfmt, answers) {
                Err(e) => Err(e),
                Ok(e) => {
                    let mut out = make_spaces(indent);
                    if yielded {
                        push_word(&mut out, ['y', 'i', 'e', 'l', 'd', ' ']);
                    }
                    push_word(&mut out, ['$', '(']);
                    push_all(&mut out, e.as_slice());
                    out.push(')');
                    assert(out@ =~= spaces(indent as nat) + (if yielded {
                        ['y', 'i', 'e', 'l', 'd', ' ']@
                    } else {
                        seq![]
                    }) + ['$', '(']@ + e@ + seq![')']);
                    Ok((out, c + 1))
                },
            },
        }
    } else if !yielded && token_is(nodes, c, ['i', 'f']) {
        format_if(nodes, c, indent, rustfmt, answers)
    } else if !yielded && token_is(nodes, c, ['f', 'o', 'r']) {
        format_for(nodes, c, indent, rustfmt, answers)
    } else {
        match format_element(nodes, c, indent, yielded, rustfmt, answers) {
            Err(Halt::Fail(m)) => {
                let end = if n - cursor < 4 {
                    n
                } else {
                    cursor + 4
                };
                proof {
                    lemma_view_nodes_subrange(nodes@, cursor as int, end as int);
                }
                let start = inline(&nodes[cursor..end]);
                let mut msg: Vec<char> = Vec::new();
                push_word(&mut msg, ['c', 'o', 'u', 'l', 'd', ' ', 'n', 'o', 't', ' ', 'f', 'o', 'r', 'm', 'a', 't', ' ', 'l', 'a', 'y', 'o', 'u', 't', ' ', 'i', 't', 'e', 'm', ' ', 'b', 'e', 'g', 'i', 'n', 'n', 'i', 'n', 'g', ' ', 'w', 'i', 't', 'h', ' ', '`']);
                push_all(&mut msg, start.as_slice());
                push_word(&mut msg, ['`', ':', ' ']);
                push_all(&mut msg, m.as_slice());
                assert(msg@ =~= item_message(start@, m@));
                Err(Halt::Fail(msg))
            },
            other => other,
        }
    }
}

/// The items of a layout body, one per line at `indent`.
pub fn format_layout(nodes: &[Node], indent: usize, rustfmt: bool, answers: &RustfmtAnswers) -> (r:
    Result<Vec<char>, Halt>)
    ensures
        text_result(r) == fmt_layout(view_nodes(nodes@), indent as nat, ctx_of(rustfmt, answers)),
    decreases nodes@, 9int, 0int,
{
    proof {
        lemma_view_nodes_at(nodes@, 0);
    }
    proof {
        lemma_fmt_layout_unfold(view_nodes(nodes@), indent as nat, ctx_of(rustfmt, answers));
    }
    let ghost v = view_nodes(nodes@);
    proof {
        lemma_view_nodes_at(nodes@, 0);
    }
    let ghost ctx = ctx_of(rustfmt, answers);
    let n = nodes.len();
    let mut lines: Vec<Vec<char>> = Vec::new();
    let mut c: usize = 0;
    assert(texts(lines@) =~= Seq::<Seq<char>>::empty());
    while c < n
        invariant
            n == nodes@.len(),
            v == view_nodes(nodes@),
            v.len() == nodes@.len(),
            ctx == ctx_of(rustfmt, answers),
            fmt_layout(v, indent as nat, ctx) == match layout_lines(v, 0, indent as nat, ctx, seq![]) {
                Err(e) => Err(e),
                Ok(lines) => Ok(join(lines, seq!['\n'])),
            },
            c <= n,
            layout_lines(v, c as int, indent as nat, ctx, texts(lines@)) == layout_lines(
                v,
                0,
                indent as nat,
                ctx,
                seq![],
            ),
        ensures
            c >= n,
            layout_lines(v, c as int, indent as nat, ctx, texts(lines@)) == layout_lines(
                v,
                0,
                indent as nat,
                ctx,
                seq![],
            ),
        decreases n - c,
    {
        proof {
            lemma_layout_lines_unfold(v, c as int, indent as nat, ctx, texts(lines@));
        }
        if token_is(nodes, c, [',']) {
            c = c + 1;
            continue ;
        }
        assert(layout_lines(v, c as int, indent as nat, ctx, texts(lines@)) == comments_then_item(
            v,
            c as int,
            indent as nat,
            ctx,
            texts(lines@),
        ));
        let c0 = c;
        while c < n && is_comment_at(nodes, c)
            invariant
                n == nodes@.len(),
                v == view_nodes(nodes@),
                v.len() == nodes@.len(),
                ctx == ctx_of(rustfmt, answers),
                fmt_layout(v, indent as nat, ctx) == match layout_lines(v, 0, indent as nat, ctx, seq![]) {
                    Err(e) => Err(e),
                    Ok(lines) => Ok(join(lines, seq!['\n'])),
                },
                c0 <= c <= n,
                comments_then_item(v, c as int, indent as nat, ctx, texts(lines@)) == layout_lines(
                    v,
                    0,
                    indent as nat,
                    ctx,
                    seq![],
                ),
            decreases n - c,
        {
            proof {
                lemma_comments_then_item_unfold(v, c as int, indent as nat, ctx, texts(lines@));
                lemma_view_nodes_at(nodes@, (c) as int);
            }
            match &nodes[c] {
                Node::Comment { text, .. } => {
                    push_comment_lines(&mut lines, text.as_slice(), indent);
                },
                _ => {},
            }
            c = c + 1;
        }
        if c >= n {
            proof {
                lemma_comments_then_item_unfold(v, c as int, indent as nat, ctx, texts(lines@));
                lemma_layout_lines_unfold(v, c as int, indent as nat, ctx, texts(lines@));
            }
            break ;
        }
        proof {
            lemma_comments_then_item_unfold(v, c as int, indent as nat, ctx, texts(lines@));
        }
        match format_item(nodes, c, indent, rustfmt, answers) {
            Err(e) => {
                return Err(e);
            },
            Ok((line, c2)) => {
                if c2 <= c || c2 > n {
                    return Err(fail_with(['e', 'x', 'p', 'e', 'c', 't', 'e', 'd', ' ', 'c', 'o', 'm', 'p', 'o', 'n', 'e', 'n', 't', ' ', 't', 'y', 'p', 'e']));
                }
                let ghost before = lines@;
                lines.push(line);
                assert(texts(lines@) =~= texts(before).push(line@));
                c = c2;
            },
        }
    }
    proof {
        lemma_layout_lines_unfold(v, c as int, indent as nat, ctx, texts(lines@));
    }
    let mut nl: Vec<char> = Vec::new();
    nl.push('\n');
    Ok(join_exec(&lines, nl.as_slice()))
}

} // verus!
