//! What the formatter keeps of the text it lays out: words stay apart,
//! operators stay whole, selector lists keep their commas, quoted code is
//! left alone, and style combinators are read alike.
use vstd::prelude::*;

use crate::format::{append_token, ends_value, inline_state, is_operator, is_word, tight_after, tight_before};
use crate::lexer::{lex, lex_scan, lemma_punct_len, lemma_word_end, punct2, punct3, punct_len, word_end, Tree};
use crate::scan::{
    bang_delimiter, closer, ident_end, is_closer, layout_scan, lemma_bang_delimiter, lemma_delimiter_scan,
    lemma_ident_end, lemma_literal_or_comment_end, lit2, literal_or_comment_end, macro_kind,
    matching_delimiter, Invocation,
};
use crate::text::{first_of, is_ascii_ws, lemma_first_of_bounds, occurs_at, trim_end};
use crate::style_syntax::{chain_rest, compound};
use crate::style::{
    lemma_selector_inline_unfold, lemma_selector_state_unfold, selector_inline, selector_part, selector_state,
    style_selector,
};
use crate::format::{comma_parts, is_tok, split_commas};
use crate::text::{join, spaces, trim_spaces_end, unicode_whitespace};
use crate::text::{ident_start, is_ascii_digit, unicode_alphanumeric};

verus! {

// ---------------------------------------------------------------------------
// Token spacing.
// ---------------------------------------------------------------------------

/// Whether `c` can end an identifier, keyword or number: `_`, or a character
/// that is alphanumeric and is not ASCII punctuation or whitespace.
pub open spec fn word_char(c: char) -> bool {
    c == '_' || (unicode_alphanumeric(c) && (crate::text::is_ascii_alphanumeric(c) || (c as u32) >= 0x80))
}

/// Whether `t` begins like an identifier, keyword or number.
pub open spec fn word_start(t: Seq<char>) -> bool {
    t.len() > 0 && (ident_start(t[0]) || is_ascii_digit(t[0]))
}

/// Words stay apart: a token that begins like an identifier, keyword or
/// number, put after a text that ends in a word character, follows it after
/// exactly one space, so the two never run together into one word.
pub proof fn lemma_words_stay_apart(out: Seq<char>, t: Seq<char>)
    requires
        out.len() > 0,
        word_char(out.last()),
        word_start(t),
    ensures
        append_token(out, t) == out + seq![' '] + t,
{
    reveal(append_token);
    reveal(is_operator);
    reveal(tight_before);
    assert(!is_operator(t)) by {
        if is_operator(t) {
            assert(t[0] == '=' || t[0] == '+' || t[0] == '-' || t[0] == '/' || t[0] == '%' || t[0] == '!'
                || t[0] == '<' || t[0] == '>' || t[0] == '&' || t[0] == '|' || t[0] == '@' || t[0] == '*'
                || t[0] == '^');
        }
    }
    assert(!tight_before(t)) by {
        let c = t[0];
        assert(ident_start(c) || is_ascii_digit(c));
        assert(c != ',' && c != ';' && c != '.' && c != '?' && c != ':' && c != '!');
        if t == [',']@ {
            assert(t[0] == ',');
        }
        if t == [';']@ {
            assert(t[0] == ';');
        }
        if t == ['.']@ {
            assert(t[0] == '.');
        }
        if t == ['?']@ {
            assert(t[0] == '?');
        }
        if t == [':']@ {
            assert(t[0] == ':');
        }
        if t == [':', ':']@ {
            assert(t[0] == ':');
        }
        if t == ['!']@ {
            assert(t[0] == '!');
        }
    }
    assert(t != [',']@ && t != [';']@ && t != [':']@) by {
        if t == [',']@ || t == [';']@ || t == [':']@ {
            assert(t[0] == ',' || t[0] == ';' || t[0] == ':');
        }
    }
    assert(out.push(' ') + t =~= out + seq![' '] + t);
}

/// In the one-line rendering of a token run, a word token that follows a
/// token ending in a word character comes after exactly one space: the
/// rendering of the first `k + 1` nodes is that of the first `k`, a space,
/// and the word; and the rendering of the first `k` ends with the token at
/// `k - 1`.
pub proof fn lemma_inline_words_stay_apart(nodes: Seq<Tree>, k: int)
    requires
        0 < k < nodes.len(),
        nodes[k - 1] is Token,
        nodes[k] is Token,
        nodes[k - 1]->Token_text.len() > 0,
        word_char(nodes[k - 1]->Token_text.last()),
        word_start(nodes[k]->Token_text),
    ensures
        inline_state(nodes, k + 1).0 == inline_state(nodes, k).0 + seq![' '] + nodes[k]->Token_text,
        inline_state(nodes, k).0.len() >= nodes[k - 1]->Token_text.len(),
        inline_state(nodes, k).0.subrange(
            inline_state(nodes, k).0.len() - nodes[k - 1]->Token_text.len(),
            inline_state(nodes, k).0.len() as int,
        ) == nodes[k - 1]->Token_text,
{
    reveal(inline_state);
    reveal(append_token);
    reveal(is_operator);
    reveal(tight_before);
    let a = nodes[k - 1]->Token_text;
    let b = nodes[k]->Token_text;
    let prev = inline_state(nodes, k - 1).0;
    assert(a != ['|']@) by {
        if a == ['|']@ {
            assert(a.last() == '|');
        }
    }
    assert(!is_operator(a) && a != [',']@ && a != [';']@ && a != [':']@) by {
        if is_operator(a) || a == [',']@ || a == [';']@ || a == [':']@ {
            let l = a.last();
            assert(l == '=' || l == '+' || l == '-' || l == '/' || l == '%' || l == '&' || l == '|' || l == '>'
                || l == '@' || l == ',' || l == ';' || l == ':');
        }
    }
    let cur = inline_state(nodes, k).0;
    assert(cur == append_token(prev, a));
    let o1 = if !tight_before(a) && !(prev.len() == 0 || tight_after(prev.last())) && (is_word(a) && prev.len() > 0
        && ends_value(prev.last())) {
        prev.push(' ')
    } else {
        prev
    };
    assert(cur == o1 + a);
    assert(cur.subrange(cur.len() - a.len(), cur.len() as int) =~= a);
    assert(cur.last() == a.last());
    assert(b != ['|']@) by {
        if b == ['|']@ {
            assert(b[0] == '|');
        }
    }
    lemma_words_stay_apart(cur, b);
}

// ---------------------------------------------------------------------------
// Style selector combinators.
// ---------------------------------------------------------------------------

/// Whether `a` and `b` hold the same nodes from `k` on.
pub open spec fn same_from(a: Seq<Tree>, b: Seq<Tree>, k: int) -> bool {
    a.len() == b.len() && forall|i: int| k <= i < a.len() ==> a[i] == b[i]
}

/// A compound selector is read from where it starts on: nodes before it play
/// no part.
proof fn lemma_compound_frame(a: Seq<Tree>, b: Seq<Tree>, c: int, end: int, found: bool)
    requires
        0 <= c,
        same_from(a, b, c),
    ensures
        compound(a, c, end, found) == compound(b, c, end, found),
    decreases a.len() - c,
{
    reveal(compound);
    if c < a.len() {
        assert(a[c] == b[c]);
        if c + 1 < a.len() {
            assert(a[c + 1] == b[c + 1]);
            lemma_compound_frame(a, b, c + 1, end, true);
        }
        if c + 2 < a.len() {
            assert(a[c + 2] == b[c + 2]);
            lemma_compound_frame(a, b, c + 2, end, true);
        }
        if c + 3 < a.len() {
            lemma_compound_frame(a, b, c + 3, end, true);
        }
    }
}

/// The rest of a selector chain is read from where it starts on.
proof fn lemma_chain_rest_frame(a: Seq<Tree>, b: Seq<Tree>, c: int, end: int)
    requires
        0 <= c,
        same_from(a, b, c),
    ensures
        chain_rest(a, c, end) == chain_rest(b, c, end),
    decreases a.len() - c,
{
    crate::style_syntax::lemma_chain_rest_unfold(a, c, end);
    crate::style_syntax::lemma_chain_rest_unfold(b, c, end);
    if c < a.len() {
        assert(a[c] == b[c]);
        if c + 1 < a.len() {
            assert(a[c + 1] == b[c + 1]);
        }
        let k = crate::style_syntax::after_combinator(a, c);
        lemma_compound_frame(a, b, k, end, false);
        match compound(a, k, end, false) {
            Ok(d) => if d > c && d <= a.len() {
                lemma_chain_rest_frame(a, b, d, end);
            },
            Err(_) => {},
        }
    }
}

/// The single-character combinators of a style selector: child `>`, next
/// sibling `+`, later sibling `~`.
pub open spec fn single_combinator(t: Seq<char>) -> bool {
    t == seq!['>'] || t == seq!['+'] || t == seq!['~']
}

/// The combinators of a style selector: the single-character ones and the
/// descendant combinator `>>`.
pub open spec fn combinator(t: Seq<char>) -> bool {
    single_combinator(t) || t == seq!['>', '>']
}

/// Whether a `>` token follows position `c`.
pub open spec fn gt_after(ns: Seq<Tree>, c: int) -> bool {
    c + 1 < ns.len() && ns[c + 1] is Token && ns[c + 1]->Token_text == seq!['>']
}

/// Style combinators are read alike: in a selector chain, putting one of `>`,
/// `+`, `~`, `>>` in place of another leaves the reading of the chain from
/// there on unchanged, so whatever the grammar accepts with one it accepts
/// with the others. (A `>>` is compared only where no `>` token follows it,
/// since `> >` is read as one `>>`.)
pub proof fn lemma_combinators_read_alike(ns: Seq<Tree>, c: int, end: int, other: Seq<char>)
    requires
        0 <= c < ns.len(),
        ns[c] is Token,
        combinator(ns[c]->Token_text),
        combinator(other),
        single_combinator(ns[c]->Token_text) && single_combinator(other) || !gt_after(ns, c),
    ensures
        chain_rest(ns, c, end) == chain_rest(
            ns.update(c, Tree::Token { text: other, start: ns[c]->Token_start, end: ns[c]->Token_end }),
            c,
            end,
        ),
{
    let ns2 = ns.update(c, Tree::Token { text: other, start: ns[c]->Token_start, end: ns[c]->Token_end });
    crate::style_syntax::lemma_chain_rest_unfold(ns, c, end);
    crate::style_syntax::lemma_chain_rest_unfold(ns2, c, end);
    assert(seq!['>'] == ['>']@ && seq!['+'] == ['+']@ && seq!['~'] == ['~']@);
    assert(seq!['>'] != ['>', '>']@ && seq!['+'] != ['>', '>']@ && seq!['~'] != ['>', '>']@);
    assert(seq!['>', '>'] == ['>', '>']@);
    if c + 1 < ns.len() {
        assert(ns2[c + 1] == ns[c + 1]);
    }
    let k = crate::style_syntax::after_combinator(ns, c);
    assert(k == crate::style_syntax::after_combinator(ns2, c));
    assert(same_from(ns, ns2, k));
    lemma_compound_frame(ns, ns2, k, end, false);
    match compound(ns, k, end, false) {
        Ok(d) => if d > c && d <= ns.len() {
            assert(same_from(ns, ns2, d));
            lemma_chain_rest_frame(ns, ns2, d, end);
        },
        Err(_) => {},
    }
}

// ---------------------------------------------------------------------------
// Operators in the token tree.
// ---------------------------------------------------------------------------

/// The two-character operators of Rust that the token tree keeps whole:
/// `::`, `==`, `!=`, `<=`, `>=`, `&&`, `||`, `=>`, `->`, `<-`, the compound
/// assignments `+=` to `^=`, `<<`, `>>` and `..`.
pub open spec fn two_char_operator(x: Seq<char>) -> bool {
    x == seq![':', ':'] || x == seq!['=', '='] || x == seq!['!', '='] || x == seq!['<', '='] || x == seq!['>', '='] || x == seq!['&', '&'] || x == seq!['|', '|'] || x == seq!['=', '>'] || x == seq!['-', '>'] || x == seq!['<', '-'] || x == seq!['+', '='] || x == seq!['-', '='] || x == seq!['*', '='] || x == seq!['/', '='] || x == seq!['%', '='] || x == seq!['&', '='] || x == seq!['|', '='] || x == seq!['^', '='] || x == seq!['<', '<'] || x == seq!['>', '>'] || x == seq!['.', '.']
}

/// Whether such an operator occurs in `s` at `i`.
pub open spec fn operator_at(s: Seq<char>, i: int) -> bool {
    0 <= i && i + 2 <= s.len() && two_char_operator(s.subrange(i, i + 2))
}

/// The three-character operators the token tree keeps whole: `<<=`, `>>=`
/// and `..=`.
pub open spec fn three_char_operator(x: Seq<char>) -> bool {
    x == seq!['<', '<', '='] || x == seq!['>', '>', '='] || x == seq!['.', '.', '=']
}

/// Whether such an operator occurs in `s` at `i`.
pub open spec fn operator3_at(s: Seq<char>, i: int) -> bool {
    0 <= i && i + 3 <= s.len() && three_char_operator(s.subrange(i, i + 3))
}

/// Whether a token that begins where an operator occurs spans all of it.
pub open spec fn tree_ops_whole(s: Seq<char>, t: Tree) -> bool
    decreases t, 1int,
{
    match t {
        Tree::Token { start, end, .. } => (operator_at(s, start) ==> end >= start + 2) && (operator3_at(
            s,
            start,
        ) ==> end >= start + 3),
        Tree::Group { nodes, .. } => ops_whole(s, nodes),
        Tree::Comment { .. } => true,
    }
}

/// Whether every token of `nodes`, at any depth, that begins where an
/// operator occurs spans all of it.
pub open spec fn ops_whole(s: Seq<char>, nodes: Seq<Tree>) -> bool
    decreases nodes, 0int,
{
    if nodes.len() == 0 {
        true
    } else {
        ops_whole(s, nodes.subrange(0, nodes.len() - 1)) && tree_ops_whole(s, nodes[nodes.len() - 1])
    }
}

proof fn lemma_ops_push(s: Seq<char>, acc: Seq<Tree>, t: Tree)
    ensures
        ops_whole(s, acc.push(t)) == (ops_whole(s, acc) && tree_ops_whole(s, t)),
{
    assert(acc.push(t).subrange(0, acc.len() as int) =~= acc);
}

/// Each listed operator is one the lexer keeps together.
proof fn lemma_listed_operator(x: Seq<char>) -> (k: int)
    requires
        two_char_operator(x),
    ensures
        0 <= k < punct2().len(),
        punct2()[k] == x,
{
    if x == seq![':', ':'] {
        assert(punct2()[0] == x);
    }
    if x == seq!['=', '='] {
        assert(punct2()[1] == x);
    }
    if x == seq!['!', '='] {
        assert(punct2()[2] == x);
    }
    if x == seq!['<', '='] {
        assert(punct2()[3] == x);
    }
    if x == seq!['>', '='] {
        assert(punct2()[4] == x);
    }
    if x == seq!['&', '&'] {
        assert(punct2()[5] == x);
    }
    if x == seq!['|', '|'] {
        assert(punct2()[6] == x);
    }
    if x == seq!['=', '>'] {
        assert(punct2()[7] == x);
    }
    if x == seq!['-', '>'] {
        assert(punct2()[8] == x);
    }
    if x == seq!['<', '-'] {
        assert(punct2()[9] == x);
    }
    if x == seq!['+', '='] {
        assert(punct2()[10] == x);
    }
    if x == seq!['-', '='] {
        assert(punct2()[11] == x);
    }
    if x == seq!['*', '='] {
        assert(punct2()[12] == x);
    }
    if x == seq!['/', '='] {
        assert(punct2()[13] == x);
    }
    if x == seq!['%', '='] {
        assert(punct2()[14] == x);
    }
    if x == seq!['&', '='] {
        assert(punct2()[15] == x);
    }
    if x == seq!['|', '='] {
        assert(punct2()[16] == x);
    }
    if x == seq!['^', '='] {
        assert(punct2()[17] == x);
    }
    if x == seq!['<', '<'] {
        assert(punct2()[18] == x);
    }
    if x == seq!['>', '>'] {
        assert(punct2()[19] == x);
    }
    if x == seq!['.', '.'] {
        assert(punct2()[20] == x);
    }
    choose|k: int| 0 <= k < punct2().len() && punct2()[k] == x
}

/// A token that the lexer reads at an operator spans it.
proof fn lemma_operator_token(s: Seq<char>, index: int)
    requires
        0 <= index < s.len(),
        operator_at(s, index),
    ensures
        !is_ascii_ws(s[index]),
        !occurs_at(s, index, lit2('/', '/')),
        !occurs_at(s, index, lit2('/', '*')),
        !is_closer(s[index]),
        closer(s[index]) is None,
        literal_or_comment_end(s, index) is None,
        !(crate::text::ident_start(s[index]) || crate::text::is_ascii_digit(s[index])),
        punct_len(s, index) >= 2,
{
    let x = s.subrange(index, index + 2);
    assert(x[0] == s[index] && x[1] == s[index + 1]);
    let c = s[index];
    assert(c == '!' || c == '%' || c == '&' || c == '*' || c == '+' || c == '-' || c == '.' || c == '/' || c == ':' || c == '<' || c == '=' || c == '>' || c == '^' || c == '|');
    assert(s[index + 1] != '/' && s[index + 1] != '*');
    assert(!occurs_at(s, index, lit2('/', '/'))) by {
        if occurs_at(s, index, lit2('/', '/')) {
            assert(s.subrange(index, index + 2)[1] == '/');
        }
    }
    assert(!occurs_at(s, index, lit2('/', '*'))) by {
        if occurs_at(s, index, lit2('/', '*')) {
            assert(s.subrange(index, index + 2)[1] == '*');
        }
    }
    let k = lemma_listed_operator(x);
    assert(occurs_at(s, index, punct2()[k]));
}

/// A token that the lexer reads at a three-character operator spans it.
proof fn lemma_operator3_token(s: Seq<char>, index: int)
    requires
        0 <= index < s.len(),
        operator3_at(s, index),
    ensures
        operator_at(s, index),
        punct_len(s, index) >= 3,
{
    let x = s.subrange(index, index + 3);
    assert(s.subrange(index, index + 2) =~= x.subrange(0, 2));
    assert(x.subrange(0, 2) == seq!['<', '<'] || x.subrange(0, 2) == seq!['>', '>'] || x.subrange(0, 2) == seq![
        '.',
        '.',
    ]);
    if x == seq!['<', '<', '='] {
        assert(punct3()[0] == x);
        assert(crate::text::occurs_at(s, index, punct3()[0]));
    } else if x == seq!['>', '>', '='] {
        assert(punct3()[1] == x);
        assert(crate::text::occurs_at(s, index, punct3()[1]));
    } else {
        assert(punct3()[2] == x);
        assert(crate::text::occurs_at(s, index, punct3()[2]));
    }
}

proof fn lemma_lex_scan_ops(s: Seq<char>, index: int, expected: Option<char>, acc: Seq<Tree>)
    requires
        0 <= index <= s.len(),
        ops_whole(s, acc),
    ensures
        lex_scan(s, index, expected, acc) matches Ok((nodes, _)) ==> ops_whole(s, nodes),
    decreases s.len() - index,
{
    if index < s.len() {
        let c = s[index];
        if is_ascii_ws(c) {
            lemma_lex_scan_ops(s, index + 1, expected, acc);
        } else if occurs_at(s, index, lit2('/', '/')) {
            let end = first_of(s, index, '\n');
            lemma_first_of_bounds(s, index, '\n');
            assert(s[index] == '/');
            let t = Tree::Comment { text: trim_end(s.subrange(index, end)), start: index };
            lemma_ops_push(s, acc, t);
            lemma_lex_scan_ops(s, end, expected, acc.push(t));
        } else if occurs_at(s, index, lit2('/', '*')) {
            lemma_literal_or_comment_end(s, index);
            let end = match literal_or_comment_end(s, index) {
                Some(e) => e,
                None => s.len() as int,
            };
            let t = Tree::Comment { text: s.subrange(index, end), start: index };
            lemma_ops_push(s, acc, t);
            lemma_lex_scan_ops(s, end, expected, acc.push(t));
        } else if Some(c) == expected {
        } else if is_closer(c) {
        } else if closer(c) is Some {
            lemma_lex_scan_ops(s, index + 1, closer(c), seq![]);
            match lex_scan(s, index + 1, closer(c), seq![]) {
                Err(_) => {},
                Ok((inner, j)) => if j > index && j <= s.len() {
                    let t = Tree::Group { open: c, close: closer(c)->0, nodes: inner, start: index, end: j };
                    if operator3_at(s, index) {
                        lemma_operator3_token(s, index);
                    }
                    if operator_at(s, index) {
                        lemma_operator_token(s, index);
                    }
                    lemma_ops_push(s, acc, t);
                    lemma_lex_scan_ops(s, j, expected, acc.push(t));
                },
            }
        } else {
            match literal_or_comment_end(s, index) {
                Some(end) => {
                    lemma_literal_or_comment_end(s, index);
                    if operator3_at(s, index) {
                        lemma_operator3_token(s, index);
                    }
                    if operator_at(s, index) {
                        lemma_operator_token(s, index);
                    }
                    let t = Tree::Token { text: s.subrange(index, end), start: index, end };
                    lemma_ops_push(s, acc, t);
                    lemma_lex_scan_ops(s, end, expected, acc.push(t));
                },
                None => if crate::text::ident_start(c) || crate::text::is_ascii_digit(c) {
                    let end = word_end(s, index + 1);
                    lemma_word_end(s, index + 1);
                    if operator3_at(s, index) {
                        lemma_operator3_token(s, index);
                    }
                    if operator_at(s, index) {
                        lemma_operator_token(s, index);
                    }
                    let t = Tree::Token { text: s.subrange(index, end), start: index, end };
                    lemma_ops_push(s, acc, t);
                    lemma_lex_scan_ops(s, end, expected, acc.push(t));
                } else {
                    let end = index + punct_len(s, index);
                    lemma_punct_len(s, index);
                    if operator3_at(s, index) {
                        lemma_operator3_token(s, index);
                    }
                    if operator_at(s, index) {
                        lemma_operator_token(s, index);
                    }
                    let t = Tree::Token { text: s.subrange(index, end), start: index, end };
                    lemma_ops_push(s, acc, t);
                    lemma_lex_scan_ops(s, end, expected, acc.push(t));
                },
            }
        }
    }
}

/// Operators stay whole: in the token tree of a text, a token never begins
/// where one of the listed two- or three-character operators occurs and ends
/// inside it, so `=>`, `->`, `::`, `<<=` and the others are each read as one
/// token (or as the start of a longer one).
pub proof fn lemma_operators_read_whole(s: Seq<char>)
    ensures
        lex(s) matches Ok(nodes) ==> ops_whole(s, nodes),
{
    lemma_lex_scan_ops(s, 0, None, seq![]);
}

// ---------------------------------------------------------------------------
// Quoted code.
// ---------------------------------------------------------------------------

/// The names of the quoting macros, whose bodies are Rust code to be built,
/// not code to format: `quote` and `quote_spanned`.
pub open spec fn quoting_macro(name: Seq<char>) -> bool {
    name == seq!['q', 'u', 'o', 't', 'e'] || name == seq![
        'q',
        'u',
        'o',
        't',
        'e',
        '_',
        's',
        'p',
        'a',
        'n',
        'n',
        'e',
        'd',
    ]
}

/// The scan from `index` keeps what it was given and reports only
/// invocations whose opening delimiter lies at or after `index`.
proof fn lemma_scan_reports_after(s: Seq<char>, index: int, found: Seq<Invocation>)
    requires
        0 <= index,
        s.len() <= usize::MAX,
    ensures
        layout_scan(s, index, found) matches Ok(r) ==> r.len() >= found.len() && r.subrange(
            0,
            found.len() as int,
        ) == found && forall|k: int| found.len() <= k < r.len() ==> #[trigger] r[k].open_offset >= index,
    decreases s.len() - index,
{
    if index >= s.len() {
        assert(found.subrange(0, found.len() as int) =~= found);
    } else {
        lemma_literal_or_comment_end(s, index);
        match literal_or_comment_end(s, index) {
            Some(end) => {
                lemma_scan_reports_after(s, end, found);
            },
            None => {
                if crate::text::ident_start(s[index]) {
                    let e = ident_end(s, index + 1);
                    lemma_ident_end(s, index + 1);
                    lemma_bang_delimiter(s, e);
                    let name = s.subrange(index, e);
                    lemma_scan_reports_after(s, e, found);
                    match bang_delimiter(s, e) {
                        None => {},
                        Some((open_at, open, close)) => {
                            lemma_delimiter_scan(s, open_at + 1, seq![close], open_at, open);
                            match matching_delimiter(s, open_at, open, close) {
                                Err(_) => {},
                                Ok(m) => {
                                    lemma_scan_reports_after(s, m + 1, found);
                                    let inv = Invocation {
                                        kind: macro_kind(name)->0,
                                        open_offset: open_at as usize,
                                        body_start: (open_at + 1) as usize,
                                        body_end: m as usize,
                                    };
                                    let f2 = found.push(inv);
                                    lemma_scan_reports_after(s, m + 1, f2);
                                    if let Ok(r) = layout_scan(s, m + 1, f2) {
                                        assert(r.subrange(0, found.len() as int) =~= f2.subrange(
                                            0,
                                            found.len() as int,
                                        ));
                                        assert(f2.subrange(0, found.len() as int) =~= found);
                                        assert(r[found.len() as int] == inv) by {
                                            assert(r.subrange(0, f2.len() as int)[found.len() as int]
                                                == r[found.len() as int]);
                                        }
                                        assert(forall|k: int|
                                            found.len() <= k < r.len() ==> #[trigger] r[k].open_offset >= index) by {
                                            assert forall|k: int| found.len() <= k < r.len() implies #[trigger] r[
                                                k
                                            ].open_offset >= index by {
                                                if k == found.len() {
                                                    assert(r[k] == inv);
                                                }
                                            }
                                        }
                                    }
                                },
                            }
                        },
                    }
                } else {
                    lemma_scan_reports_after(s, index + 1, found);
                }
            },
        }
    }
}

/// Quoted code is left alone: where the scan for invocations meets the name
/// of a `quote!` or `quote_spanned!` invocation (outside any literal or
/// comment), it goes on after the delimiter that closes that invocation's
/// body, exactly as if the body were not there; so nothing inside the body is
/// ever reported as an invocation (every invocation reported from there opens
/// after that delimiter), and an error inside it is never raised.
pub proof fn lemma_quoted_bodies_skipped(s: Seq<char>, index: int, found: Seq<Invocation>, open_at: int, m: int)
    requires
        0 <= index < s.len(),
        literal_or_comment_end(s, index) is None,
        crate::text::ident_start(s[index]),
        quoting_macro(s.subrange(index, ident_end(s, index + 1))),
        bang_delimiter(s, ident_end(s, index + 1)) matches Some((o, open, close)) && o == open_at
            && matching_delimiter(s, open_at, open, close) == Ok::<int, (int, Seq<char>)>(m),
    ensures
        layout_scan(s, index, found) == layout_scan(s, m + 1, found),
        s.len() <= usize::MAX ==> (layout_scan(s, index, found) matches Ok(r) ==> forall|k: int|
            found.len() <= k < r.len() ==> #[trigger] r[k].open_offset > m),
{
    assert(seq!['q', 'u', 'o', 't', 'e'] == crate::scan::word_quote());
    assert(seq!['q', 'u', 'o', 't', 'e', '_', 's', 'p', 'a', 'n', 'n', 'e', 'd'] == crate::scan::word_quote_spanned());
    if s.len() <= usize::MAX {
        lemma_ident_end(s, index + 1);
        lemma_bang_delimiter(s, ident_end(s, index + 1));
        let b = bang_delimiter(s, ident_end(s, index + 1))->Some_0;
        lemma_delimiter_scan(s, open_at + 1, seq![b.2], open_at, b.1);
        lemma_scan_reports_after(s, m + 1, found);
    }
}

// ---------------------------------------------------------------------------
// Selectors keep their text.
// ---------------------------------------------------------------------------

/// `x` without its whitespace.
pub open spec fn no_ws(x: Seq<char>) -> Seq<char>
    decreases x.len(),
{
    if x.len() == 0 {
        seq![]
    } else {
        no_ws(x.drop_last()) + if unicode_whitespace(x.last()) {
            seq![]
        } else {
            seq![x.last()]
        }
    }
}

/// The text of a node without whitespace: a token's or comment's text, a
/// group's delimiters around the text of its nodes.
pub open spec fn tree_flat(t: Tree) -> Seq<char>
    decreases t, 1int,
{
    match t {
        Tree::Token { text, .. } => no_ws(text),
        Tree::Comment { text, .. } => no_ws(text),
        Tree::Group { open, close, nodes, .. } => no_ws(seq![open]) + sel_flat(nodes) + no_ws(seq![close]),
    }
}

/// The text of the nodes, in order, without whitespace.
pub open spec fn sel_flat(nodes: Seq<Tree>) -> Seq<char>
    decreases nodes, 0int,
{
    if nodes.len() == 0 {
        seq![]
    } else {
        sel_flat(nodes.subrange(0, nodes.len() - 1)) + tree_flat(nodes[nodes.len() - 1])
    }
}

proof fn lemma_no_ws_cat(a: Seq<char>, b: Seq<char>)
    ensures
        no_ws(a + b) == no_ws(a) + no_ws(b),
    decreases b.len(),
{
    if b.len() == 0 {
        assert(a + b =~= a);
        assert(no_ws(a) + no_ws(b) =~= no_ws(a));
    } else {
        assert((a + b).drop_last() =~= a + b.drop_last());
        lemma_no_ws_cat(a, b.drop_last());
        let tail: Seq<char> = if unicode_whitespace(b.last()) {
            seq![]
        } else {
            seq![b.last()]
        };
        assert(no_ws(a + b) == no_ws(a + b.drop_last()) + tail);
        assert(no_ws(b) == no_ws(b.drop_last()) + tail);
        assert(no_ws(a) + no_ws(b.drop_last()) + tail =~= no_ws(a) + (no_ws(b.drop_last()) + tail));
    }
}

proof fn lemma_no_ws_unit(c: char)
    ensures
        no_ws(seq![c]) == if unicode_whitespace(c) {
            seq![]
        } else {
            seq![c]
        },
{
    assert(seq![c].drop_last() =~= Seq::<char>::empty());
    assert(no_ws(Seq::<char>::empty()) == Seq::<char>::empty());
    let tail: Seq<char> = if unicode_whitespace(c) {
        seq![]
    } else {
        seq![c]
    };
    assert(Seq::<char>::empty() + tail =~= tail);
}

proof fn lemma_no_ws_spaces(n: nat)
    ensures
        no_ws(spaces(n)) == Seq::<char>::empty(),
    decreases n,
{
    if n > 0 {
        assert(spaces(n).drop_last() =~= spaces((n - 1) as nat));
        lemma_no_ws_spaces((n - 1) as nat);
        assert(unicode_whitespace(' '));
        assert(spaces(n).last() == ' ');
    }
}

proof fn lemma_no_ws_trim_end(x: Seq<char>)
    ensures
        no_ws(crate::text::trim_end(x)) == no_ws(x),
    decreases x.len(),
{
    if x.len() > 0 && unicode_whitespace(x.last()) {
        lemma_no_ws_trim_end(x.drop_last());
        assert(no_ws(x) =~= no_ws(x.drop_last()) + Seq::<char>::empty());
    }
}

proof fn lemma_no_ws_trim_spaces(x: Seq<char>)
    ensures
        no_ws(trim_spaces_end(x)) == no_ws(x),
    decreases x.len(),
{
    if x.len() > 0 && x.last() == ' ' {
        lemma_no_ws_trim_spaces(x.drop_last());
        assert(unicode_whitespace(' '));
        assert(no_ws(x) =~= no_ws(x.drop_last()) + Seq::<char>::empty());
    }
}

proof fn lemma_no_ws_push_space(x: Seq<char>)
    ensures
        no_ws(x.push(' ')) == no_ws(x),
{
    assert(x.push(' ') =~= x + seq![' ']);
    lemma_no_ws_cat(x, seq![' ']);
    lemma_no_ws_unit(' ');
    assert(unicode_whitespace(' '));
    assert(no_ws(x) + Seq::<char>::empty() =~= no_ws(x));
}

proof fn lemma_sel_flat_push(nodes: Seq<Tree>, k: int)
    requires
        0 < k <= nodes.len(),
    ensures
        sel_flat(nodes.subrange(0, k)) == sel_flat(nodes.subrange(0, k - 1)) + tree_flat(nodes[k - 1]),
{
    assert(nodes.subrange(0, k).subrange(0, k - 1) =~= nodes.subrange(0, k - 1));
}

proof fn lemma_sel_flat_cat(a: Seq<Tree>, b: Seq<Tree>)
    ensures
        sel_flat(a + b) == sel_flat(a) + sel_flat(b),
    decreases b.len(),
{
    if b.len() == 0 {
        assert(a + b =~= a);
        assert(sel_flat(a) + sel_flat(b) =~= sel_flat(a));
    } else {
        let ab = a + b;
        assert(ab.subrange(0, ab.len() - 1) =~= a + b.subrange(0, b.len() - 1));
        lemma_sel_flat_cat(a, b.subrange(0, b.len() - 1));
        assert(ab[ab.len() - 1] == b[b.len() - 1]);
        assert(sel_flat(a) + sel_flat(b.subrange(0, b.len() - 1)) + tree_flat(b[b.len() - 1]) =~= sel_flat(a) + (
        sel_flat(b.subrange(0, b.len() - 1)) + tree_flat(b[b.len() - 1])));
    }
}

proof fn lemma_flat_selector_state(nodes: Seq<Tree>, k: int)
    requires
        0 <= k <= nodes.len(),
    ensures
        no_ws(selector_state(nodes, k)) == sel_flat(nodes.subrange(0, k)),
    decreases nodes, k,
{
    lemma_selector_state_unfold(nodes, k);
    if k == 0 {
        assert(nodes.subrange(0, 0) =~= Seq::<Tree>::empty());
    } else {
        lemma_flat_selector_state(nodes, k - 1);
        lemma_sel_flat_push(nodes, k);
        let out = selector_state(nodes, k - 1);
        let new = selector_state(nodes, k);
        assert(unicode_whitespace(' '));
        assert(seq![','] =~= [',']@);
        match nodes[k - 1] {
            Tree::Token { text, .. } => {
                if text == seq![','] {
                    assert(text == [',']@);
                    assert(new == trim_spaces_end(out) + [',', ' ']@);
                    assert([',', ' ']@ =~= seq![','] + seq![' ']);
                    lemma_no_ws_cat(trim_spaces_end(out), [',', ' ']@);
                    lemma_no_ws_cat(seq![','], seq![' ']);
                    lemma_no_ws_unit(',');
                    lemma_no_ws_unit(' ');
                    lemma_no_ws_trim_spaces(out);
                    assert(seq![','] + Seq::<char>::empty() =~= seq![',']);
                } else if crate::style::is_combinator(text) {
                    assert(text != [',']@);
                    let o = if out.len() > 0 && out.last() != ' ' {
                        out.push(' ')
                    } else {
                        out
                    };
                    assert(new == o + text + seq![' ']);
                    lemma_no_ws_push_space(out);
                    lemma_no_ws_cat(o, text);
                    lemma_no_ws_push_space(o + text);
                    assert((o + text).push(' ') =~= o + text + seq![' ']);
                } else {
                    assert(text != [',']@);
                    assert(new == out + text);
                    lemma_no_ws_cat(out, text);
                }
            },
            Tree::Comment { text, .. } => {
                let o = if out.len() > 0 && out.last() == ' ' {
                    out
                } else {
                    out.push(' ')
                };
                assert(new == o + text + seq![' ']);
                lemma_no_ws_push_space(out);
                lemma_no_ws_cat(o, text);
                lemma_no_ws_push_space(o + text);
                assert((o + text).push(' ') =~= o + text + seq![' ']);
            },
            Tree::Group { open, close, nodes: inner, .. } => {
                let si = selector_inline(inner);
                assert(new == out.push(open) + si + seq![close]);
                lemma_flat_selector_inline(inner);
                assert(out.push(open) =~= out + seq![open]);
                lemma_no_ws_cat(out, seq![open]);
                lemma_no_ws_cat(out + seq![open], si);
                lemma_no_ws_cat(out + seq![open] + si, seq![close]);
                assert(no_ws(out) + no_ws(seq![open]) + sel_flat(inner) + no_ws(seq![close]) =~= no_ws(out) + (no_ws(
                    seq![open],
                ) + sel_flat(inner) + no_ws(seq![close])));
            },
        }
    }
}

proof fn lemma_flat_selector_inline(nodes: Seq<Tree>)
    ensures
        no_ws(selector_inline(nodes)) == sel_flat(nodes),
    decreases nodes, nodes.len() + 1,
{
    lemma_selector_inline_unfold(nodes);
    lemma_flat_selector_state(nodes, nodes.len() as int);
    assert(nodes.subrange(0, nodes.len() as int) =~= nodes);
    lemma_no_ws_trim_end(selector_state(nodes, nodes.len() as int));
}

/// Whether the last node is a top-level comma.
pub open spec fn ends_with_comma(nodes: Seq<Tree>) -> bool {
    nodes.len() > 0 && is_tok(nodes, nodes.len() - 1, seq![','])
}

/// The text without whitespace of comma part `k`, with the comma after it
/// when another part follows.
pub open spec fn part_text(nodes: Seq<Tree>, parts: Seq<(int, int)>, k: int) -> Seq<char> {
    sel_flat(nodes.subrange(parts[k].0, parts[k].1)) + if k + 1 < parts.len() {
        seq![',']
    } else {
        seq![]
    }
}

/// The texts of the parts from `k` on.
pub open spec fn parts_from(nodes: Seq<Tree>, parts: Seq<(int, int)>, k: int) -> Seq<char>
    decreases parts.len() - k,
{
    if k < 0 || k >= parts.len() {
        seq![]
    } else {
        part_text(nodes, parts, k) + parts_from(nodes, parts, k + 1)
    }
}

/// The texts of the first `m` parts.
pub open spec fn parts_to(nodes: Seq<Tree>, parts: Seq<(int, int)>, m: int) -> Seq<char>
    decreases m,
{
    if m <= 0 || m > parts.len() {
        seq![]
    } else {
        parts_to(nodes, parts, m - 1) + part_text(nodes, parts, m - 1)
    }
}

proof fn lemma_parts_prefix(nodes: Seq<Tree>, index: int, start: int, acc: Seq<(int, int)>)
    ensures
        comma_parts(nodes, index, start, acc).len() >= acc.len(),
        comma_parts(nodes, index, start, acc).subrange(0, acc.len() as int) == acc,
    decreases nodes.len() - index,
{
    reveal(comma_parts);
    let r = comma_parts(nodes, index, start, acc);
    if index < 0 || index >= nodes.len() {
        assert(r.subrange(0, acc.len() as int) =~= acc);
    } else if is_tok(nodes, index, [',']@) {
        let acc2 = acc.push((start, index));
        lemma_parts_prefix(nodes, index + 1, index + 1, acc2);
        assert(r.subrange(0, acc.len() as int) =~= acc2.subrange(0, acc.len() as int));
        assert(acc2.subrange(0, acc.len() as int) =~= acc);
    } else {
        lemma_parts_prefix(nodes, index + 1, start, acc);
    }
}

proof fn lemma_parts_more(nodes: Seq<Tree>, index: int, start: int, acc: Seq<(int, int)>)
    requires
        0 <= start <= index <= nodes.len(),
        start < nodes.len(),
    ensures
        comma_parts(nodes, index, start, acc).len() > acc.len(),
    decreases nodes.len() - index,
{
    reveal(comma_parts);
    if index < nodes.len() {
        if is_tok(nodes, index, [',']@) {
            lemma_parts_prefix(nodes, index + 1, index + 1, acc.push((start, index)));
        } else {
            lemma_parts_more(nodes, index + 1, start, acc);
        }
    }
}

proof fn lemma_parts_flat(nodes: Seq<Tree>, index: int, start: int, acc: Seq<(int, int)>)
    requires
        0 <= start <= index <= nodes.len(),
        !ends_with_comma(nodes),
    ensures
        parts_from(nodes, comma_parts(nodes, index, start, acc), acc.len() as int) == sel_flat(
            nodes.subrange(start, nodes.len() as int),
        ),
    decreases nodes.len() - index,
{
    reveal(comma_parts);
    let p = comma_parts(nodes, index, start, acc);
    let n = nodes.len() as int;
    assert(seq![','] =~= [',']@);
    if index >= n {
        if start < n {
            assert(p == acc.push((start, n)));
            assert(parts_from(nodes, p, (acc.len() + 1) as int) == Seq::<char>::empty());
            assert(part_text(nodes, p, acc.len() as int) =~= sel_flat(nodes.subrange(start, n)));
            assert(parts_from(nodes, p, acc.len() as int) =~= part_text(nodes, p, acc.len() as int)
                + parts_from(nodes, p, (acc.len() + 1) as int));
        } else {
            assert(nodes.subrange(start, n) =~= Seq::<Tree>::empty());
        }
    } else if is_tok(nodes, index, [',']@) {
        let acc2 = acc.push((start, index));
        assert(index + 1 < n) by {
            if index + 1 >= n {
                assert(ends_with_comma(nodes));
            }
        }
        lemma_parts_flat(nodes, index + 1, index + 1, acc2);
        lemma_parts_prefix(nodes, index + 1, index + 1, acc2);
        lemma_parts_more(nodes, index + 1, index + 1, acc2);
        assert(p[acc.len() as int] == (start, index)) by {
            assert(p.subrange(0, acc2.len() as int)[acc.len() as int] == p[acc.len() as int]);
        }
        assert(acc.len() + 1 < p.len());
        let t = nodes[index];
        assert(t is Token && t->Token_text == seq![',']);
        lemma_no_ws_unit(',');
        assert(tree_flat(t) == seq![',']);
        let a = nodes.subrange(start, index);
        let b = nodes.subrange(index + 1, n);
        assert(nodes.subrange(start, n) =~= a + seq![t] + b);
        lemma_sel_flat_cat(a + seq![t], b);
        lemma_sel_flat_cat(a, seq![t]);
        assert(seq![t].subrange(0, 0) =~= Seq::<Tree>::empty());
        assert(sel_flat(seq![t]) == sel_flat(Seq::<Tree>::empty()) + tree_flat(t));
        assert(sel_flat(seq![t]) =~= seq![',']);
        assert(parts_from(nodes, p, acc.len() as int) == part_text(nodes, p, acc.len() as int) + parts_from(
            nodes,
            p,
            (acc.len() + 1) as int,
        ));
        assert(part_text(nodes, p, acc.len() as int) == sel_flat(a) + seq![',']);
        assert(sel_flat(a) + seq![','] + sel_flat(b) =~= sel_flat(a) + sel_flat(seq![t]) + sel_flat(b));
    } else {
        lemma_parts_flat(nodes, index + 1, start, acc);
    }
}

proof fn lemma_parts_to_from(nodes: Seq<Tree>, parts: Seq<(int, int)>, m: int)
    requires
        0 <= m <= parts.len(),
    ensures
        parts_to(nodes, parts, m) + parts_from(nodes, parts, m) == parts_from(nodes, parts, 0),
    decreases m,
{
    if m == 0 {
        assert(parts_to(nodes, parts, 0) + parts_from(nodes, parts, 0) =~= parts_from(nodes, parts, 0));
    } else {
        lemma_parts_to_from(nodes, parts, m - 1);
        assert(parts_from(nodes, parts, m - 1) == part_text(nodes, parts, m - 1) + parts_from(nodes, parts, m));
        assert(parts_to(nodes, parts, m) == parts_to(nodes, parts, m - 1) + part_text(nodes, parts, m - 1));
        assert(parts_to(nodes, parts, m - 1) + part_text(nodes, parts, m - 1) + parts_from(nodes, parts, m)
            =~= parts_to(nodes, parts, m - 1) + (part_text(nodes, parts, m - 1) + parts_from(nodes, parts, m)));
    }
}

proof fn lemma_part_line(nodes: Seq<Tree>, parts: Seq<(int, int)>, k: int, indent: nat)
    requires
        0 <= k < parts.len(),
    ensures
        no_ws(selector_part(nodes, parts, k, indent)) == part_text(nodes, parts, k),
{
    let pre: Seq<char> = if k == 0 {
        seq![]
    } else {
        spaces(indent)
    };
    let post: Seq<char> = if k + 1 < parts.len() {
        seq![',']
    } else {
        seq![]
    };
    let si = selector_inline(nodes.subrange(parts[k].0, parts[k].1));
    assert(selector_part(nodes, parts, k, indent) == pre + si + post);
    lemma_no_ws_cat(pre + si, post);
    lemma_no_ws_cat(pre, si);
    lemma_no_ws_spaces(indent);
    assert(no_ws(Seq::<char>::empty()) == Seq::<char>::empty());
    assert(no_ws(pre) == Seq::<char>::empty());
    lemma_flat_selector_inline(nodes.subrange(parts[k].0, parts[k].1));
    lemma_no_ws_unit(',');
    assert(no_ws(post) == post);
    assert(Seq::<char>::empty() + sel_flat(nodes.subrange(parts[k].0, parts[k].1)) =~= sel_flat(
        nodes.subrange(parts[k].0, parts[k].1),
    ));
}

proof fn lemma_join_parts(nodes: Seq<Tree>, parts: Seq<(int, int)>, indent: nat, m: int)
    requires
        1 <= m <= parts.len(),
    ensures
        no_ws(
            join(
                Seq::new(parts.len(), |k: int| selector_part(nodes, parts, k, indent)).take(m),
                seq!['\n'],
            ),
        ) == parts_to(nodes, parts, m),
    decreases m,
{
    let ls = Seq::new(parts.len(), |k: int| selector_part(nodes, parts, k, indent));
    let t = ls.take(m);
    lemma_part_line(nodes, parts, m - 1, indent);
    assert(t[m - 1] == selector_part(nodes, parts, m - 1, indent));
    assert(parts_to(nodes, parts, m) == parts_to(nodes, parts, m - 1) + part_text(nodes, parts, m - 1));
    if m == 1 {
        assert(join(t, seq!['\n']) == t[0]);
        assert(parts_to(nodes, parts, 0) == Seq::<char>::empty());
        assert(Seq::<char>::empty() + part_text(nodes, parts, 0) =~= part_text(nodes, parts, 0));
    } else {
        lemma_join_parts(nodes, parts, indent, m - 1);
        assert(t.drop_last() =~= ls.take(m - 1));
        assert(join(t, seq!['\n']) == join(t.drop_last(), seq!['\n']) + seq!['\n'] + t.last());
        lemma_no_ws_cat(join(t.drop_last(), seq!['\n']) + seq!['\n'], t.last());
        lemma_no_ws_cat(join(t.drop_last(), seq!['\n']), seq!['\n']);
        lemma_no_ws_unit('\n');
        assert(unicode_whitespace('\n'));
        assert(parts_to(nodes, parts, m - 1) + Seq::<char>::empty() =~= parts_to(nodes, parts, m - 1));
    }
}

/// Selectors keep their text: laid out on one line, or broken at its
/// top-level commas over several lines, a selector list without its
/// whitespace is the text of its nodes in order, so no token, comment or
/// comma is lost, moved or added. A broken list leaves out a trailing
/// top-level comma, so a list that ends with one is covered only on one line.
pub proof fn lemma_selector_keeps_text(nodes: Seq<Tree>, indent: nat)
    ensures
        no_ws(selector_inline(nodes)) == sel_flat(nodes),
        !ends_with_comma(nodes) || style_selector(nodes, indent) == selector_inline(nodes) ==> no_ws(
            style_selector(nodes, indent),
        ) == sel_flat(nodes),
{
    lemma_flat_selector_inline(nodes);
    let parts = split_commas(nodes);
    if !ends_with_comma(nodes) && style_selector(nodes, indent) != selector_inline(nodes) {
        let ls = Seq::new(parts.len(), |k: int| selector_part(nodes, parts, k, indent));
        assert(style_selector(nodes, indent) == join(ls, seq!['\n']));
        lemma_parts_flat(nodes, 0, 0, seq![]);
        assert(nodes.subrange(0, nodes.len() as int) =~= nodes);
        lemma_parts_to_from(nodes, parts, parts.len() as int);
        assert(parts_from(nodes, parts, parts.len() as int) == Seq::<char>::empty());
        assert(parts_to(nodes, parts, parts.len() as int) + Seq::<char>::empty() =~= parts_to(
            nodes,
            parts,
            parts.len() as int,
        ));
        if parts.len() >= 1 {
            lemma_join_parts(nodes, parts, indent, parts.len() as int);
            assert(ls.take(parts.len() as int) =~= ls);
        } else {
            assert(join(ls, seq!['\n']) == Seq::<char>::empty());
            assert(no_ws(Seq::<char>::empty()) == Seq::<char>::empty());
        }
    }
}

} // verus!
