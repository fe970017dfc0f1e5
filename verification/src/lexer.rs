//! The token tree of a macro body: tokens, comments and delimited groups.
use vstd::prelude::*;

use crate::scan::{
    closer, closer_of, get, is_closer, lemma_literal_or_comment_end, lit2, literal_or_comment_end,
    skip_literal_or_comment,
};
use crate::text::{
    ascii_digit, ascii_ws, find_char, first_of, ident_continue, ident_start, is_ascii_digit,
    is_ascii_ws, is_ident_continue, is_ident_start, lemma_first_of_bounds, occurs_at,
    occurs_at_exec, push_all, trim_end, trim_end_of,
};

verus! {

/// A node of the token tree, as a mathematical value. Offsets are character
/// offsets into the lexed text; a group's `end` is one past its closer.
pub enum Tree {
    Token { text: Seq<char>, start: int, end: int },
    Comment { text: Seq<char>, start: int },
    Group { open: char, close: char, nodes: Seq<Tree>, start: int, end: int },
}

/// A node of the token tree.
pub enum Node {
    Token { text: Vec<char>, start: usize, end: usize },
    Comment { text: Vec<char>, start: usize },
    Group { open: char, close: char, nodes: Vec<Node>, start: usize, end: usize },
}

pub open spec fn view_node(n: Node) -> Tree
    decreases n,
{
    match n {
        Node::Token { text, start, end } => Tree::Token {
            text: text@,
            start: start as int,
            end: end as int,
        },
        Node::Comment { text, start } => Tree::Comment { text: text@, start: start as int },
        Node::Group { open, close, nodes, start, end } => Tree::Group {
            open,
            close,
            nodes: view_nodes(nodes@),
            start: start as int,
            end: end as int,
        },
    }
}

#[verifier::opaque]
pub open spec fn view_nodes(s: Seq<Node>) -> Seq<Tree>
    decreases s,
{
    Seq::new(
        s.len(),
        |i: int|
            if 0 <= i < s.len() {
                view_node(s[i])
            } else {
                Tree::Comment { text: seq![], start: 0 }
            },
    )
}



/// One node's view, its children taken through `view_nodes`.
pub open spec fn view_node_flat(n: Node) -> Tree {
    match n {
        Node::Token { text, start, end } => Tree::Token {
            text: text@,
            start: start as int,
            end: end as int,
        },
        Node::Comment { text, start } => Tree::Comment { text: text@, start: start as int },
        Node::Group { open, close, nodes, start, end } => Tree::Group {
            open,
            close,
            nodes: view_nodes(nodes@),
            start: start as int,
            end: end as int,
        },
    }
}

pub proof fn lemma_view_node_flat(n: Node)
    ensures
        view_node(n) == view_node_flat(n),
{
    reveal(view_nodes);
}

pub proof fn lemma_view_nodes_at(s: Seq<Node>, i: int)
    ensures
        view_nodes(s).len() == s.len(),
        0 <= i < s.len() ==> view_nodes(s)[i] == view_node_flat(s[i]),
{
    reveal(view_nodes);
}

pub proof fn lemma_view_nodes_push(s: Seq<Node>, n: Node)
    ensures
        view_nodes(s.push(n)) == view_nodes(s).push(view_node(n)),
{
    reveal(view_nodes);
    assert(view_nodes(s.push(n)) =~= view_nodes(s).push(view_node(n)));
}

pub proof fn lemma_view_nodes_subrange(s: Seq<Node>, a: int, b: int)
    requires
        0 <= a <= b <= s.len(),
    ensures
        view_nodes(s.subrange(a, b)) == view_nodes(s).subrange(a, b),
{
    reveal(view_nodes);
    assert(view_nodes(s.subrange(a, b)) =~= view_nodes(s).subrange(a, b));
}

/// The three-character operators the lexer keeps together.
pub open spec fn punct3() -> Seq<Seq<char>> {
    seq![seq!['<', '<', '='], seq!['>', '>', '='], seq!['.', '.', '=']]
}

/// The two-character operators the lexer keeps together.
pub open spec fn punct2() -> Seq<Seq<char>> {
    seq![
        lit2(':', ':'),
        lit2('=', '='),
        lit2('!', '='),
        lit2('<', '='),
        lit2('>', '='),
        lit2('&', '&'),
        lit2('|', '|'),
        lit2('=', '>'),
        lit2('-', '>'),
        lit2('<', '-'),
        lit2('+', '='),
        lit2('-', '='),
        lit2('*', '='),
        lit2('/', '='),
        lit2('%', '='),
        lit2('&', '='),
        lit2('|', '='),
        lit2('^', '='),
        lit2('<', '<'),
        lit2('>', '>'),
        lit2('.', '.'),
    ]
}

/// The length of the punctuation token at `i`: the longest listed operator
/// that begins there, else one character.
pub open spec fn punct_len(s: Seq<char>, i: int) -> int {
    if exists|k: int| 0 <= k < punct3().len() && occurs_at(s, i, #[trigger] punct3()[k]) {
        3
    } else if exists|k: int| 0 <= k < punct2().len() && occurs_at(s, i, #[trigger] punct2()[k]) {
        2
    } else {
        1
    }
}

/// End of an identifier or number that began before `i`: identifier
/// characters, and a `.` that a digit follows.
pub open spec fn word_end(s: Seq<char>, i: int) -> int
    decreases s.len() - i,
{
    if 0 <= i < s.len() && (ident_continue(s[i]) || (s[i] == '.' && i + 1 < s.len()
        && is_ascii_digit(s[i + 1]))) {
        word_end(s, i + 1)
    } else {
        i
    }
}

pub proof fn lemma_word_end(s: Seq<char>, i: int)
    requires
        0 <= i <= s.len(),
    ensures
        i <= word_end(s, i) <= s.len(),
    decreases s.len() - i,
{
    if i < s.len() && (ident_continue(s[i]) || (s[i] == '.' && i + 1 < s.len() && is_ascii_digit(
        s[i + 1],
    ))) {
        lemma_word_end(s, i + 1);
    }
}

/// "expected `{close}`"
pub open spec fn expected_message(close: char) -> Seq<char> {
    seq!['e', 'x', 'p', 'e', 'c', 't', 'e', 'd', ' ', '`'] + seq![close, '`']
}

/// "unexpected `{c}`"
pub open spec fn unexpected_message(c: char) -> Seq<char> {
    seq!['u', 'n', 'e', 'x', 'p', 'e', 'c', 't', 'e', 'd', ' ', '`'] + seq![c, '`']
}

/// Lexing from `index` until `expected` closes the group (or the text ends,
/// when `expected` is `None`), with `acc` the nodes already read: the nodes
/// and the index after the closer, or the offset and message of an error.
pub open spec fn lex_scan(s: Seq<char>, index: int, expected: Option<char>, acc: Seq<Tree>) -> Result<
    (Seq<Tree>, int),
    (int, Seq<char>),
>
    decreases s.len() - index,
{
    if index < 0 || index >= s.len() {
        match expected {
            Some(close) => Err((s.len() as int, expected_message(close))),
            None => Ok((acc, index)),
        }
    } else {
        let c = s[index];
        if is_ascii_ws(c) {
            lex_scan(s, index + 1, expected, acc)
        } else if occurs_at(s, index, lit2('/', '/')) {
            let end = first_of(s, index, '\n');
            proof {
                lemma_first_of_bounds(s, index, '\n');
                assert(s[index] == '/');
            }
            lex_scan(
                s,
                end,
                expected,
                acc.push(Tree::Comment { text: trim_end(s.subrange(index, end)), start: index }),
            )
        } else if occurs_at(s, index, lit2('/', '*')) {
            proof {
                lemma_literal_or_comment_end(s, index);
            }
            let end = match literal_or_comment_end(s, index) {
                Some(e) => e,
                None => s.len() as int,
            };
            lex_scan(
                s,
                end,
                expected,
                acc.push(Tree::Comment { text: s.subrange(index, end), start: index }),
            )
        } else if Some(c) == expected {
            Ok((acc, index + 1))
        } else if is_closer(c) {
            Err((index, unexpected_message(c)))
        } else if closer(c) is Some {
            match lex_scan(s, index + 1, closer(c), seq![]) {
                Err(e) => Err(e),
                Ok((inner, j)) => if j <= index || j > s.len() {
                    Err((index, unexpected_message(c)))
                } else {
                    lex_scan(
                        s,
                        j,
                        expected,
                        acc.push(
                            Tree::Group {
                                open: c,
                                close: closer(c)->0,
                                nodes: inner,
                                start: index,
                                end: j,
                            },
                        ),
                    )
                },
            }
        } else {
            match literal_or_comment_end(s, index) {
                Some(end) => {
                    proof {
                        lemma_literal_or_comment_end(s, index);
                    }
                    lex_scan(
                        s,
                        end,
                        expected,
                        acc.push(Tree::Token { text: s.subrange(index, end), start: index, end }),
                    )
                },
                None => if ident_start(c) || is_ascii_digit(c) {
                    let end = word_end(s, index + 1);
                    proof {
                        lemma_word_end(s, index + 1);
                    }
                    lex_scan(
                        s,
                        end,
                        expected,
                        acc.push(Tree::Token { text: s.subrange(index, end), start: index, end }),
                    )
                } else {
                    let end = index + punct_len(s, index);
                    lex_scan(
                        s,
                        end,
                        expected,
                        acc.push(Tree::Token { text: s.subrange(index, end), start: index, end }),
                    )
                },
            }
        }
    }
}

proof fn lemma_lex_group_step(
    s: Seq<char>,
    i: int,
    expected: Option<char>,
    acc: Seq<Tree>,
    inner: Seq<Tree>,
    j: int,
)
    requires
        0 <= i < j <= s.len(),
        !is_ascii_ws(s[i]),
        !occurs_at(s, i, lit2('/', '/')),
        !occurs_at(s, i, lit2('/', '*')),
        Some(s[i]) != expected,
        closer(s[i]) is Some,
        lex_scan(s, i + 1, closer(s[i]), seq![]) == Ok::<(Seq<Tree>, int), (int, Seq<char>)>((inner, j)),
    ensures
        lex_scan(s, i, expected, acc) == lex_scan(
            s,
            j,
            expected,
            acc.push(
                Tree::Group {
                    open: s[i],
                    close: closer(s[i])->0,
                    nodes: inner,
                    start: i,
                    end: j,
                },
            ),
        ),
{
    assert(!is_closer(s[i]));
}

/// The token tree of `s`, or the offset and message of a lexing error.
pub open spec fn lex(s: Seq<char>) -> Result<Seq<Tree>, (int, Seq<char>)> {
    match lex_scan(s, 0, None, seq![]) {
        Ok((nodes, _)) => Ok(nodes),
        Err(e) => Err(e),
    }
}

/// Whether `s[a..b]` is all ASCII whitespace.
pub open spec fn all_ws(s: Seq<char>, a: int, b: int) -> bool {
    forall|i: int| a <= i < b ==> is_ascii_ws(#[trigger] s[i])
}

/// Where a node ends in `s`: a line comment at its line's end, a block
/// comment after its text.
pub open spec fn node_end(s: Seq<char>, t: Tree) -> int {
    match t {
        Tree::Token { end, .. } => end,
        Tree::Comment { text, start } => if occurs_at(s, start, lit2('/', '/')) {
            first_of(s, start, '\n')
        } else {
            start + text.len()
        },
        Tree::Group { end, .. } => end,
    }
}

pub open spec fn node_start(t: Tree) -> int {
    match t {
        Tree::Token { start, .. } => start,
        Tree::Comment { start, .. } => start,
        Tree::Group { start, .. } => start,
    }
}

/// Whether node `t` is the text of `s` it spans: a token its characters, a
/// line comment its line without trailing whitespace, a block comment its
/// characters, a group its delimiters around nodes that cover what is
/// between them.
pub open spec fn node_in_text(s: Seq<char>, t: Tree) -> bool
    decreases t, 0int,
{
    match t {
        Tree::Token { text, start, end } => 0 <= start < end <= s.len() && text == s.subrange(start, end),
        Tree::Comment { text, start } => 0 <= start && if occurs_at(s, start, lit2('/', '/')) {
            start < first_of(s, start, '\n') <= s.len() && text == trim_end(
                s.subrange(start, first_of(s, start, '\n')),
            )
        } else {
            occurs_at(s, start, lit2('/', '*')) && start + text.len() <= s.len() && text == s.subrange(
                start,
                start + text.len(),
            )
        },
        Tree::Group { open, close, nodes, start, end } => 0 <= start && start + 2 <= end <= s.len()
            && s[start] == open && closer(open) == Some(close) && s[end - 1] == close && covers(
            s,
            nodes,
            start + 1,
            end - 1,
        ),
    }
}

/// Whether `nodes` lie in order in `s[a..b]`, each the text it spans, with
/// only ASCII whitespace before, between and after them.
pub open spec fn covers(s: Seq<char>, nodes: Seq<Tree>, a: int, b: int) -> bool
    decreases nodes, 1int,
{
    if nodes.len() == 0 {
        a <= b && all_ws(s, a, b)
    } else {
        let t = nodes[nodes.len() - 1];
        &&& node_in_text(s, t)
        &&& node_end(s, t) <= b
        &&& all_ws(s, node_end(s, t), b)
        &&& covers(s, nodes.subrange(0, nodes.len() - 1), a, node_start(t))
    }
}

proof fn lemma_covers_extend(s: Seq<char>, nodes: Seq<Tree>, a: int, b: int, c: int)
    requires
        covers(s, nodes, a, b),
        b <= c,
        all_ws(s, b, c),
    ensures
        covers(s, nodes, a, c),
{
}

proof fn lemma_covers_push(s: Seq<char>, nodes: Seq<Tree>, a: int, t: Tree, b: int)
    requires
        covers(s, nodes, a, node_start(t)),
        node_in_text(s, t),
        node_end(s, t) <= b,
        all_ws(s, node_end(s, t), b),
    ensures
        covers(s, nodes.push(t), a, b),
{
    assert(nodes.push(t).subrange(0, nodes.len() as int) =~= nodes);
}

proof fn lemma_trim_end_prefix(x: Seq<char>)
    ensures
        trim_end(x).len() <= x.len(),
        trim_end(x) == x.subrange(0, trim_end(x).len() as int),
    decreases x.len(),
{
    if x.len() > 0 && crate::text::unicode_whitespace(x.last()) {
        lemma_trim_end_prefix(x.drop_last());
        assert(trim_end(x.drop_last()) =~= x.subrange(0, trim_end(x.drop_last()).len() as int));
    } else {
        assert(x.subrange(0, x.len() as int) =~= x);
    }
}

pub proof fn lemma_punct_len(s: Seq<char>, i: int)
    requires
        0 <= i < s.len(),
    ensures
        1 <= punct_len(s, i),
        i + punct_len(s, i) <= s.len(),
{
    if exists|k: int| 0 <= k < punct3().len() && occurs_at(s, i, #[trigger] punct3()[k]) {
        let k = choose|k: int| 0 <= k < punct3().len() && occurs_at(s, i, #[trigger] punct3()[k]);
        assert(punct3()[k].len() == 3);
    } else if exists|k: int| 0 <= k < punct2().len() && occurs_at(s, i, #[trigger] punct2()[k]) {
        let k = choose|k: int| 0 <= k < punct2().len() && occurs_at(s, i, #[trigger] punct2()[k]);
        assert(punct2()[k].len() == 2);
    }
}

/// The lexing from `index` with `acc` covering `s[a..index]`: its nodes cover
/// the text up to the end (with no closer expected) or up to the closer
/// that ends the group.
proof fn lemma_lex_scan_covers(s: Seq<char>, index: int, expected: Option<char>, acc: Seq<Tree>, a: int)
    requires
        0 <= a <= index <= s.len(),
        covers(s, acc, a, index),
    ensures
        lex_scan(s, index, expected, acc) matches Ok((nodes, j)) ==> match expected {
            None => j == s.len() && covers(s, nodes, a, s.len() as int),
            Some(close) => a < j <= s.len() && s[j - 1] == close && covers(s, nodes, a, j - 1),
        },
    decreases s.len() - index,
{
    if index < s.len() {
        let c = s[index];
        if is_ascii_ws(c) {
            lemma_covers_extend(s, acc, a, index, index + 1);
            lemma_lex_scan_covers(s, index + 1, expected, acc, a);
        } else if occurs_at(s, index, lit2('/', '/')) {
            let end = first_of(s, index, '\n');
            lemma_first_of_bounds(s, index, '\n');
            assert(s[index] == '/');
            let x = s.subrange(index, end);
            let text = trim_end(x);
            lemma_trim_end_prefix(x);
            let t = Tree::Comment { text, start: index };
            assert(node_in_text(s, t));
            assert(node_end(s, t) == end);
            lemma_covers_push(s, acc, a, t, end);
            lemma_lex_scan_covers(s, end, expected, acc.push(t), a);
        } else if occurs_at(s, index, lit2('/', '*')) {
            lemma_literal_or_comment_end(s, index);
            let end = match literal_or_comment_end(s, index) {
                Some(e) => e,
                None => s.len() as int,
            };
            let t = Tree::Comment { text: s.subrange(index, end), start: index };
            assert(!occurs_at(s, index, lit2('/', '/'))) by {
                assert(s[index + 1] == '*');
            }
            assert(node_end(s, t) == end);
            assert(node_in_text(s, t));
            lemma_covers_push(s, acc, a, t, end);
            lemma_lex_scan_covers(s, end, expected, acc.push(t), a);
        } else if Some(c) == expected {
        } else if is_closer(c) {
        } else if closer(c) is Some {
            assert(covers(s, seq![], index + 1, index + 1));
            lemma_lex_scan_covers(s, index + 1, closer(c), seq![], index + 1);
            match lex_scan(s, index + 1, closer(c), seq![]) {
                Err(_) => {},
                Ok((inner, j)) => if j > index && j <= s.len() {
                    let t = Tree::Group { open: c, close: closer(c)->0, nodes: inner, start: index, end: j };
                    assert(node_in_text(s, t));
                    lemma_covers_push(s, acc, a, t, j);
                    lemma_lex_scan_covers(s, j, expected, acc.push(t), a);
                },
            }
        } else {
            match literal_or_comment_end(s, index) {
                Some(end) => {
                    lemma_literal_or_comment_end(s, index);
                    let t = Tree::Token { text: s.subrange(index, end), start: index, end };
                    lemma_covers_push(s, acc, a, t, end);
                    lemma_lex_scan_covers(s, end, expected, acc.push(t), a);
                },
                None => if ident_start(c) || is_ascii_digit(c) {
                    let end = word_end(s, index + 1);
                    lemma_word_end(s, index + 1);
                    let t = Tree::Token { text: s.subrange(index, end), start: index, end };
                    lemma_covers_push(s, acc, a, t, end);
                    lemma_lex_scan_covers(s, end, expected, acc.push(t), a);
                } else {
                    let end = index + punct_len(s, index);
                    assert(index < end <= s.len()) by {
                        lemma_punct_len(s, index);
                    }
                    let t = Tree::Token { text: s.subrange(index, end), start: index, end };
                    lemma_covers_push(s, acc, a, t, end);
                    lemma_lex_scan_covers(s, end, expected, acc.push(t), a);
                },
            }
        }
    }
}

/// The token tree is the text: lexing succeeds only with nodes that lie in
/// order, each the text it spans (tokens and block comments exactly, line
/// comments without trailing whitespace, groups between their delimiters),
/// with nothing but ASCII whitespace around and between them.
pub proof fn lemma_lex_covers(s: Seq<char>)
    ensures
        lex(s) matches Ok(nodes) ==> covers(s, nodes, 0, s.len() as int),
{
    assert(covers(s, seq![], 0, 0));
    lemma_lex_scan_covers(s, 0, None, seq![], 0);
}

fn punct_len_exec(s: &[char], i: usize) -> (r: usize)
    requires
        i < s@.len(),
    ensures
        r as int == punct_len(s@, i as int),
        i + r <= s@.len(),
{
    let three = occurs_at_exec(s, i, &['<', '<', '=']) || occurs_at_exec(s, i, &['>', '>', '='])
        || occurs_at_exec(s, i, &['.', '.', '=']);
    proof {
        assert(punct3()[0] == seq!['<', '<', '=']);
        assert(punct3()[1] == seq!['>', '>', '=']);
        assert(punct3()[2] == seq!['.', '.', '=']);
    }
    if three {
        return 3;
    }
    assert(forall|k: int| 0 <= k < punct3().len() ==> !occurs_at(s@, i as int, #[trigger] punct3()[k]));
    let pairs: [(char, char); 21] = [
        (':', ':'),
        ('=', '='),
        ('!', '='),
        ('<', '='),
        ('>', '='),
        ('&', '&'),
        ('|', '|'),
        ('=', '>'),
        ('-', '>'),
        ('<', '-'),
        ('+', '='),
        ('-', '='),
        ('*', '='),
        ('/', '='),
        ('%', '='),
        ('&', '='),
        ('|', '='),
        ('^', '='),
        ('<', '<'),
        ('>', '>'),
        ('.', '.'),
    ];
    let ghost p2 = punct2();
    assert(pairs@.len() == 21);
    assert(forall|k: int| 0 <= k < 21 ==> #[trigger] p2[k] == lit2(pairs@[k].0, pairs@[k].1));
    let mut k: usize = 0;
    while k < 21
        invariant
            k <= 21,
            i < s@.len(),
            p2 == punct2(),
            pairs@.len() == 21,
            forall|j: int| 0 <= j < 21 ==> #[trigger] p2[j] == lit2(pairs@[j].0, pairs@[j].1),
            forall|j: int| 0 <= j < k ==> !occurs_at(s@, i as int, #[trigger] p2[j]),
            forall|j: int|
                0 <= j < punct3().len() ==> !occurs_at(s@, i as int, #[trigger] punct3()[j]),
        decreases 21 - k,
    {
        let (a, b) = pairs[k];
        if occurs_at_exec(s, i, &[a, b]) {
            assert(seq![a, b] == p2[k as int]);
            assert(occurs_at(s@, i as int, punct2()[k as int]));
            return 2;
        }
        assert(seq![a, b] == p2[k as int]);
        k = k + 1;
    }
    1
}

fn word_end_exec(s: &[char], i: usize) -> (r: usize)
    requires
        i <= s@.len(),
    ensures
        r as int == word_end(s@, i as int),
        i <= r <= s@.len(),
{
    proof {
        lemma_word_end(s@, i as int);
    }
    let n = s.len();
    let mut k = i;
    while k < n && (is_ident_continue(s[k]) || (s[k] == '.' && n - k > 1 && ascii_digit(s[k + 1])))
        invariant
            n == s@.len(),
            i <= k <= n,
            word_end(s@, k as int) == word_end(s@, i as int),
        decreases n - k,
    {
        k = k + 1;
    }
    k
}

fn message_expected(close: char) -> (r: Vec<char>)
    ensures
        r@ == expected_message(close),
{
    let mut r: Vec<char> = Vec::new();
    push_all(&mut r, &['e', 'x', 'p', 'e', 'c', 't', 'e', 'd', ' ', '`']);
    r.push(close);
    r.push('`');
    assert(r@ =~= expected_message(close));
    r
}

fn message_unexpected(c: char) -> (r: Vec<char>)
    ensures
        r@ == unexpected_message(c),
{
    let mut r: Vec<char> = Vec::new();
    push_all(&mut r, &['u', 'n', 'e', 'x', 'p', 'e', 'c', 't', 'e', 'd', ' ', '`']);
    r.push(c);
    r.push('`');
    assert(r@ =~= unexpected_message(c));
    r
}

fn copy_range(s: &[char], a: usize, b: usize) -> (r: Vec<char>)
    requires
        a <= b <= s@.len(),
    ensures
        r@ == s@.subrange(a as int, b as int),
{
    let mut r: Vec<char> = Vec::new();
    push_all(&mut r, &s[a..b]);
    r
}

/// Lexes from `start` until `expected` closes the group, or to the end of the
/// text when `expected` is `None`; also gives the index after the group.
fn lex_from(s: &[char], start: usize, expected: Option<char>) -> (r: (
    Result<Vec<Node>, (usize, Vec<char>)>,
    usize,
))
    requires
        start <= s@.len(),
    ensures
        match (r.0, lex_scan(s@, start as int, expected, seq![])) {
            (Ok(v), Ok((t, j))) => view_nodes(v@) == t && r.1 as int == j,
            (Err((a, m)), Err((b, n))) => a as int == b && m@ == n,
            _ => false,
        },
        r.0 is Ok ==> start <= r.1 <= s@.len(),
        r.0 is Ok && expected is None ==> r.1 == s@.len(),
    decreases s@.len() - start,
{
    let n = s.len();
    let mut index = start;
    let mut nodes: Vec<Node> = Vec::new();
    proof {
        reveal(view_nodes);
        assert(view_nodes(nodes@) =~= Seq::<Tree>::empty());
    }
    while index < n
        invariant
            n == s@.len(),
            start <= index <= n,
            lex_scan(s@, index as int, expected, view_nodes(nodes@)) == lex_scan(
                s@,
                start as int,
                expected,
                seq![],
            ),
        decreases n - index,
    {
        let i = index;
        let c = s[i];
        if ascii_ws(c) {
            index = i + 1;
            continue ;
        }
        if occurs_at_exec(s, i, &['/', '/']) {
            assert(seq!['/', '/'] == lit2('/', '/'));
            proof {
                lemma_first_of_bounds(s@, i as int, '\n');
            }
            let end = find_char(s, i, '\n');
            let text = trim_end_of(&s[i..end]);
            let node = Node::Comment { text, start: i };
            proof {
                lemma_view_nodes_push(nodes@, node);
            }
            nodes.push(node);
            index = end;
            continue ;
        }
        assert(seq!['/', '/'] == lit2('/', '/'));
        if occurs_at_exec(s, i, &['/', '*']) {
            assert(seq!['/', '*'] == lit2('/', '*'));
            let end = match skip_literal_or_comment(s, i) {
                Some(e) => e,
                None => n,
            };
            let node = Node::Comment { text: copy_range(s, i, end), start: i };
            proof {
                lemma_view_nodes_push(nodes@, node);
            }
            nodes.push(node);
            index = end;
            continue ;
        }
        assert(seq!['/', '*'] == lit2('/', '*'));
        match expected {
            Some(e) => {
                if e == c {
                    assert(!is_ascii_ws(c));
                    assert(!occurs_at(s@, i as int, lit2('/', '/')));
                    assert(!occurs_at(s@, i as int, lit2('/', '*')));
                    assert(Some(c) == expected);
                    assert(lex_scan(s@, i as int, expected, view_nodes(nodes@)) == Ok::<(Seq<Tree>, int), (int, Seq<char>)>((view_nodes(nodes@), i + 1)));
                    return (Ok(nodes), i + 1);
                }
            },
            None => {},
        }
        if c == '}' || c == ')' || c == ']' {
            return (Err((i, message_unexpected(c))), i);
        }
        match closer_of(c) {
            Some(close) => {
                let (inner, j) = lex_from(s, i + 1, Some(close));
                let inner = match inner {
                    Ok(v) => v,
                    Err(e) => {
                        return (Err(e), j);
                    },
                };
                index = j;
                let node = Node::Group { open: c, close, nodes: inner, start: i, end: j };
                proof {
                    lemma_view_nodes_push(nodes@, node);
                    lemma_lex_group_step(s@, i as int, expected, view_nodes(nodes@), view_nodes(inner@), j as int);
                    assert(view_node(node) == Tree::Group { open: c, close, nodes: view_nodes(inner@), start: i as int, end: j as int }) by {
                        reveal(view_nodes);
                    }
                    assert(s@[i as int] == c);
                }
                nodes.push(node);
                continue ;
            },
            None => {},
        }
        match skip_literal_or_comment(s, i) {
            Some(end) => {
                let node = Node::Token { text: copy_range(s, i, end), start: i, end };
                proof {
                    lemma_view_nodes_push(nodes@, node);
                }
                nodes.push(node);
                index = end;
                continue ;
            },
            None => {},
        }
        let end = if is_ident_start(c) || ascii_digit(c) {
            word_end_exec(s, i + 1)
        } else {
            i + punct_len_exec(s, i)
        };
        let node = Node::Token { text: copy_range(s, i, end), start: i, end };
        proof {
            lemma_view_nodes_push(nodes@, node);
        }
        nodes.push(node);
        index = end;
    }
    match expected {
        Some(close) => (Err((n, message_expected(close))), n),
        None => (Ok(nodes), n),
    }
}

/// Lexes from `index` until `expected` closes the group, or to the end of the
/// text when `expected` is `None`, leaving `index` after what was read.
pub fn lex_until(s: &[char], index: &mut usize, expected: Option<char>) -> (r: Result<
    Vec<Node>,
    (usize, Vec<char>),
>)
    ensures
        match (r, lex_scan(s@, *old(index) as int, expected, seq![])) {
            (Ok(v), Ok((t, j))) => view_nodes(v@) == t && *final(index) as int == j,
            (Err((a, m)), Err((b, n))) => a as int == b && m@ == n,
            _ => false,
        },
        r is Ok ==> *old(index) <= *final(index),
        r is Ok && *old(index) <= s@.len() ==> *final(index) <= s@.len(),
        r is Ok && expected is None && *old(index) <= s@.len() ==> *final(index) == s@.len(),
{
    if *index > s.len() {
        return match expected {
            Some(close) => Err((s.len(), message_expected(close))),
            None => {
                let v: Vec<Node> = Vec::new();
                proof {
                    lemma_view_nodes_at(v@, 0);
                }
                assert(view_nodes(v@) =~= Seq::<Tree>::empty());
                Ok(v)
            },
        };
    }
    let (r, j) = lex_from(s, *index, expected);
    *index = j;
    r
}

/// The token tree of `s`, or the offset and message of a lexing error.
pub fn lex_nodes(s: &[char]) -> (r: Result<Vec<Node>, (usize, Vec<char>)>)
    ensures
        match (r, lex(s@)) {
            (Ok(v), Ok(t)) => view_nodes(v@) == t,
            (Err((a, m)), Err((b, n))) => a as int == b && m@ == n,
            _ => false,
        },
{
    let mut index: usize = 0;
    lex_until(s, &mut index, None)
}

} // verus!
