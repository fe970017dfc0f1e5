//! Scanning Rust source text: skipping comments and literals, matching
//! delimiters, finding the DSL macro invocations, and turning offsets into
//! `path:line:column` diagnostics.
use vstd::prelude::*;

use crate::text::{
    sat, ascii_ws, chars_eq, decimal, find_char, first_of, ident_continue, ident_start, is_ascii_ws,
    is_ident_continue, is_ident_start, lemma_first_of_bounds, occurs_at, occurs_at_exec, push_all,
    push_decimal,
};

verus! {

pub open spec fn get(s: Seq<char>, i: int) -> Option<char> {
    if 0 <= i < s.len() {
        Some(s[i])
    } else {
        None
    }
}

pub fn get_at(s: &[char], i: usize) -> (r: Option<char>)
    ensures
        r == get(s@, i as int),
{
    if i < s.len() {
        Some(s[i])
    } else {
        None
    }
}

pub open spec fn lit2(a: char, b: char) -> Seq<char> {
    seq![a, b]
}

/// End of a block comment whose text continues at `cursor`, at nesting `depth`.
pub open spec fn block_comment_end(s: Seq<char>, cursor: int, depth: int) -> int
    decreases s.len() - cursor,
{
    if cursor < 0 || cursor >= s.len() {
        s.len() as int
    } else if occurs_at(s, cursor, lit2('/', '*')) {
        block_comment_end(s, cursor + 2, depth + 1)
    } else if occurs_at(s, cursor, lit2('*', '/')) {
        if depth - 1 == 0 {
            cursor + 2
        } else {
            block_comment_end(s, cursor + 2, depth - 1)
        }
    } else {
        block_comment_end(s, cursor + 1, depth)
    }
}

/// Whether `s[at..at + n]` exists and holds only `#`.
pub open spec fn hashes_at(s: Seq<char>, at: int, n: int) -> bool {
    0 <= at && at + n <= s.len() && forall|j: int| at <= j < at + n ==> s[j] == '#'
}

/// End of a raw string whose text continues at `cursor` and that closes with
/// a quote and `hashes` hash signs.
pub open spec fn raw_end(s: Seq<char>, cursor: int, hashes: int) -> int
    decreases s.len() - cursor,
{
    if cursor < 0 || cursor >= s.len() {
        s.len() as int
    } else if s[cursor] == '"' && hashes_at(s, cursor + 1, hashes) {
        cursor + 1 + hashes
    } else {
        raw_end(s, cursor + 1, hashes)
    }
}

/// The first index at or after `i` that does not hold `#`.
pub open spec fn hash_run_end(s: Seq<char>, i: int) -> int
    decreases s.len() - i,
{
    if 0 <= i < s.len() && s[i] == '#' {
        hash_run_end(s, i + 1)
    } else {
        i
    }
}

/// End of a quoted literal whose text continues at `index`; a backslash
/// skips the next character.
pub open spec fn quoted_end(s: Seq<char>, index: int, quote: char) -> int
    decreases s.len() - index,
{
    if index < 0 || index >= s.len() {
        s.len() as int
    } else if s[index] == '\\' {
        quoted_end(s, if index + 2 < s.len() { index + 2 } else { s.len() as int }, quote)
    } else if s[index] == quote {
        index + 1
    } else {
        quoted_end(s, index + 1, quote)
    }
}

/// Whether the quote at `start` opens a character literal rather than a
/// lifetime.
pub open spec fn looks_like_char(s: Seq<char>, start: int) -> bool {
    let index = start + 1;
    let next = if get(s, index) == Some('\\') {
        index + 2
    } else if index < s.len() {
        index + 1
    } else {
        index
    };
    get(s, next) == Some('\'')
}

/// Where the comment or literal that begins at `index` ends, if one begins there.
pub open spec fn literal_or_comment_end(s: Seq<char>, index: int) -> Option<int> {
    if occurs_at(s, index, lit2('/', '/')) {
        Some(first_of(s, index, '\n'))
    } else if occurs_at(s, index, lit2('/', '*')) {
        Some(block_comment_end(s, index + 2, 1))
    } else {
        let prefix = if get(s, index) == Some('b') || get(s, index) == Some('c') {
            index + 1
        } else {
            index
        };
        let hashes_end = hash_run_end(s, prefix + 1);
        if get(s, prefix) == Some('r') && get(s, hashes_end) == Some('"') {
            Some(raw_end(s, hashes_end + 1, hashes_end - prefix - 1))
        } else if get(s, prefix) == Some('"') {
            Some(quoted_end(s, prefix + 1, '"'))
        } else if get(s, prefix) == Some('\'') && looks_like_char(s, prefix) {
            Some(quoted_end(s, prefix + 1, '\''))
        } else {
            None
        }
    }
}

pub proof fn lemma_block_comment_end(s: Seq<char>, cursor: int, depth: int)
    requires
        0 <= cursor <= s.len(),
    ensures
        cursor <= block_comment_end(s, cursor, depth) <= s.len(),
    decreases s.len() - cursor,
{
    if cursor < s.len() {
        if occurs_at(s, cursor, lit2('/', '*')) {
            lemma_block_comment_end(s, cursor + 2, depth + 1);
        } else if occurs_at(s, cursor, lit2('*', '/')) {
            if depth - 1 != 0 {
                lemma_block_comment_end(s, cursor + 2, depth - 1);
            }
        } else {
            lemma_block_comment_end(s, cursor + 1, depth);
        }
    }
}

pub proof fn lemma_raw_end(s: Seq<char>, cursor: int, hashes: int)
    requires
        0 <= cursor <= s.len(),
        0 <= hashes,
    ensures
        cursor <= raw_end(s, cursor, hashes) <= s.len(),
    decreases s.len() - cursor,
{
    if cursor < s.len() && !(s[cursor] == '"' && hashes_at(s, cursor + 1, hashes)) {
        lemma_raw_end(s, cursor + 1, hashes);
    }
}

pub proof fn lemma_hash_run_end(s: Seq<char>, i: int)
    requires
        0 <= i,
    ensures
        i <= hash_run_end(s, i),
        hash_run_end(s, i) <= s.len() || hash_run_end(s, i) == i,
    decreases s.len() - i,
{
    if 0 <= i < s.len() && s[i] == '#' {
        lemma_hash_run_end(s, i + 1);
    }
}

pub proof fn lemma_quoted_end(s: Seq<char>, index: int, quote: char)
    requires
        0 <= index <= s.len(),
    ensures
        index <= quoted_end(s, index, quote) <= s.len(),
    decreases s.len() - index,
{
    if index < s.len() {
        if s[index] == '\\' {
            lemma_quoted_end(
                s,
                if index + 2 < s.len() { index + 2 } else { s.len() as int },
                quote,
            );
        } else if s[index] != quote {
            lemma_quoted_end(s, index + 1, quote);
        }
    }
}

/// A comment or literal that begins inside the text ends after its start and
/// no later than the end of the text.
pub proof fn lemma_literal_or_comment_end(s: Seq<char>, index: int)
    requires
        0 <= index < s.len(),
    ensures
        literal_or_comment_end(s, index) matches Some(end) ==> index < end <= s.len(),
{
    if occurs_at(s, index, lit2('/', '/')) {
        lemma_first_of_bounds(s, index, '\n');
        assert(s[index] == '/');
    } else if occurs_at(s, index, lit2('/', '*')) {
        lemma_block_comment_end(s, index + 2, 1);
    } else {
        let prefix = if get(s, index) == Some('b') || get(s, index) == Some('c') {
            index + 1
        } else {
            index
        };
        lemma_hash_run_end(s, prefix + 1);
        let hashes_end = hash_run_end(s, prefix + 1);
        if get(s, prefix) == Some('r') && get(s, hashes_end) == Some('"') {
            lemma_raw_end(s, hashes_end + 1, hashes_end - prefix - 1);
        } else if get(s, prefix) == Some('"') {
            lemma_quoted_end(s, prefix + 1, '"');
        } else if get(s, prefix) == Some('\'') && looks_like_char(s, prefix) {
            lemma_quoted_end(s, prefix + 1, '\'');
        }
    }
}

fn block_comment_end_exec(s: &[char], start: usize) -> (r: usize)
    requires
        1 <= start <= s@.len(),
    ensures
        r as int == block_comment_end(s@, start as int, 1),
{
    let n = s.len();
    let mut depth: usize = 1;
    let mut cursor = start;
    while cursor < n
        invariant
            n == s@.len(),
            cursor <= n,
            1 <= depth <= cursor,
            block_comment_end(s@, cursor as int, depth as int) == block_comment_end(
                s@,
                start as int,
                1,
            ),
        decreases n - cursor,
    {
        if occurs_at_exec(s, cursor, &['/', '*']) {
            assert(seq!['/', '*'] == lit2('/', '*'));
            depth = depth + 1;
            cursor = cursor + 2;
        } else if occurs_at_exec(s, cursor, &['*', '/']) {
            assert(seq!['*', '/'] == lit2('*', '/'));
            assert(seq!['/', '*'] == lit2('/', '*'));
            if depth == 1 {
                return cursor + 2;
            }
            depth = depth - 1;
            cursor = cursor + 2;
        } else {
            assert(seq!['*', '/'] == lit2('*', '/'));
            assert(seq!['/', '*'] == lit2('/', '*'));
            cursor = cursor + 1;
        }
    }
    n
}

fn hashes_at_exec(s: &[char], at: usize, count: usize) -> (b: bool)
    ensures
        b == hashes_at(s@, at as int, count as int),
{
    let n = s.len();
    if at > n || count > n - at {
        return false;
    }
    let mut k: usize = 0;
    while k < count
        invariant
            n == s@.len(),
            k <= count,
            at + count <= n,
            forall|j: int| at <= j < at + k ==> s@[j] == '#',
        decreases count - k,
    {
        if s[at + k] != '#' {
            return false;
        }
        k = k + 1;
    }
    true
}

fn raw_end_exec(s: &[char], start: usize, hashes: usize) -> (r: usize)
    requires
        start <= s@.len(),
    ensures
        r as int == raw_end(s@, start as int, hashes as int),
{
    let n = s.len();
    let mut cursor = start;
    while cursor < n
        invariant
            n == s@.len(),
            cursor <= n,
            raw_end(s@, cursor as int, hashes as int) == raw_end(s@, start as int, hashes as int),
        decreases n - cursor,
    {
        if s[cursor] == '"' && hashes_at_exec(s, cursor + 1, hashes) {
            return cursor + 1 + hashes;
        }
        cursor = cursor + 1;
    }
    n
}

fn quoted_end_exec(s: &[char], start: usize, quote: char) -> (r: usize)
    requires
        start <= s@.len(),
    ensures
        r as int == quoted_end(s@, start as int, quote),
{
    let n = s.len();
    let mut index = start;
    while index < n
        invariant
            n == s@.len(),
            index <= n,
            quoted_end(s@, index as int, quote) == quoted_end(s@, start as int, quote),
        decreases n - index,
    {
        if s[index] == '\\' {
            index = if n - index > 2 {
                index + 2
            } else {
                n
            };
        } else if s[index] == quote {
            return index + 1;
        } else {
            index = index + 1;
        }
    }
    n
}

fn looks_like_char_exec(s: &[char], start: usize) -> (b: bool)
    requires
        start < s@.len(),
    ensures
        b == looks_like_char(s@, start as int),
{
    let n = s.len();
    let index = start + 1;
    if index < n && s[index] == '\\' {
        n - index > 2 && s[index + 2] == '\''
    } else if index < n {
        n - index > 1 && s[index + 1] == '\''
    } else {
        false
    }
}

/// Where the comment or literal beginning at `index` ends, if one begins there.
pub fn skip_literal_or_comment(s: &[char], index: usize) -> (r: Option<usize>)
    ensures
        r is None <==> literal_or_comment_end(s@, index as int) is None,
        r matches Some(e) ==> literal_or_comment_end(s@, index as int) == Some(e as int) && index
            < e <= s@.len(),
{
    let n = s.len();
    if index >= n {
        return None;
    }
    proof {
        lemma_literal_or_comment_end(s@, index as int);
        assert(seq!['/', '/'] == lit2('/', '/'));
        assert(seq!['/', '*'] == lit2('/', '*'));
    }
    if occurs_at_exec(s, index, &['/', '/']) {
        return Some(find_char(s, index, '\n'));
    }
    if occurs_at_exec(s, index, &['/', '*']) {
        return Some(block_comment_end_exec(s, index + 2));
    }
    let mut prefix = index;
    if s[index] == 'b' || s[index] == 'c' {
        prefix = prefix + 1;
    }
    proof {
        lemma_hash_run_end(s@, prefix + 1);
    }
    if get_at(s, prefix) == Some('r') {
        let mut cursor = prefix + 1;
        while cursor < n && s[cursor] == '#'
            invariant
                n == s@.len(),
                prefix < n,
                prefix + 1 <= cursor <= n,
                hash_run_end(s@, cursor as int) == hash_run_end(s@, prefix + 1),
            decreases n - cursor,
        {
            cursor = cursor + 1;
        }
        if get_at(s, cursor) == Some('"') {
            let hashes = cursor - prefix - 1;
            return Some(raw_end_exec(s, cursor + 1, hashes));
        }
    }
    if get_at(s, prefix) == Some('"') {
        return Some(quoted_end_exec(s, prefix + 1, '"'));
    }
    if get_at(s, prefix) == Some('\'') && looks_like_char_exec(s, prefix) {
        return Some(quoted_end_exec(s, prefix + 1, '\''));
    }
    None
}

/// The first index at or after `i` that is not ASCII whitespace.
pub open spec fn space_end(s: Seq<char>, i: int) -> int
    decreases s.len() - i,
{
    if 0 <= i < s.len() && is_ascii_ws(s[i]) {
        space_end(s, i + 1)
    } else {
        i
    }
}

pub proof fn lemma_space_end(s: Seq<char>, i: int)
    requires
        0 <= i,
    ensures
        i <= space_end(s, i),
        i <= s.len() ==> space_end(s, i) <= s.len(),
    decreases s.len() - i,
{
    if 0 <= i < s.len() && is_ascii_ws(s[i]) {
        lemma_space_end(s, i + 1);
    }
}

pub fn skip_space(s: &[char], i: usize) -> (r: usize)
    requires
        i <= s@.len(),
    ensures
        r as int == space_end(s@, i as int),
        i <= r <= s@.len(),
{
    proof {
        lemma_space_end(s@, i as int);
    }
    let n = s.len();
    let mut k = i;
    while k < n && ascii_ws(s[k])
        invariant
            n == s@.len(),
            i <= k <= n,
            space_end(s@, k as int) == space_end(s@, i as int),
        decreases n - k,
    {
        k = k + 1;
    }
    k
}

/// The closing delimiter that matches an opening one.
pub open spec fn closer(c: char) -> Option<char> {
    if c == '{' {
        Some('}')
    } else if c == '(' {
        Some(')')
    } else if c == '[' {
        Some(']')
    } else {
        None
    }
}

pub fn closer_of(c: char) -> (r: Option<char>)
    ensures
        r == closer(c),
{
    if c == '{' {
        Some('}')
    } else if c == '(' {
        Some(')')
    } else if c == '[' {
        Some(']')
    } else {
        None
    }
}

pub open spec fn is_closer(c: char) -> bool {
    c == '}' || c == ')' || c == ']'
}

pub open spec fn mismatched_message() -> Seq<char> {
    seq!['m','i','s','m','a','t','c','h','e','d',' ','d','e','l','i','m','i','t','e','r',' ','i','n',' ','l','a','y','o','u','t',' ','m','a','c','r','o']
}

/// "unclosed `{open}` delimiter in layout macro"
pub open spec fn unclosed_message(open: char) -> Seq<char> {
    seq!['u','n','c','l','o','s','e','d',' ','`'] + seq![open] + seq!['`',' ','d','e','l','i','m','i','t','e','r',' ','i','n',' ','l','a','y','o','u','t',' ','m','a','c','r','o']
}

/// The delimiter scan after an opening delimiter: `stack` holds the closers
/// still owed, innermost last.
pub open spec fn delimiter_scan(
    s: Seq<char>,
    index: int,
    stack: Seq<char>,
    open_at: int,
    open: char,
) -> Result<int, (int, Seq<char>)>
    decreases s.len() - index,
{
    if index < 0 || index >= s.len() {
        Err((open_at, unclosed_message(open)))
    } else {
        match literal_or_comment_end(s, index) {
            Some(end) => {
                proof {
                    lemma_literal_or_comment_end(s, index);
                }
                delimiter_scan(s, end, stack, open_at, open)
            },
            None => {
                let c = s[index];
                if closer(c) is Some {
                    delimiter_scan(s, index + 1, stack.push(closer(c)->0), open_at, open)
                } else if stack.len() > 0 && c == stack.last() {
                    if stack.len() == 1 {
                        Ok(index)
                    } else {
                        delimiter_scan(s, index + 1, stack.drop_last(), open_at, open)
                    }
                } else if is_closer(c) {
                    Err((index, mismatched_message()))
                } else {
                    delimiter_scan(s, index + 1, stack, open_at, open)
                }
            },
        }
    }
}

/// The index of the delimiter that closes the one opened at `open_at`.
pub open spec fn matching_delimiter(s: Seq<char>, open_at: int, open: char, close: char) -> Result<
    int,
    (int, Seq<char>),
> {
    delimiter_scan(s, open_at + 1, seq![close], open_at, open)
}

pub proof fn lemma_delimiter_scan(
    s: Seq<char>,
    index: int,
    stack: Seq<char>,
    open_at: int,
    open: char,
)
    requires
        0 <= index,
        0 <= open_at < index,
        stack.len() > 0,
    ensures
        delimiter_scan(s, index, stack, open_at, open) matches Ok(m) ==> index <= m < s.len() && s[m]
            == stack[0],
        delimiter_scan(s, index, stack, open_at, open) matches Err((at, _)) ==> 0 <= at < s.len()
            || at == open_at,
    decreases s.len() - index,
{
    if index < s.len() {
        lemma_literal_or_comment_end(s, index);
        match literal_or_comment_end(s, index) {
            Some(end) => {
                lemma_delimiter_scan(s, end, stack, open_at, open);
            },
            None => {
                let c = s[index];
                if closer(c) is Some {
                    lemma_delimiter_scan(s, index + 1, stack.push(closer(c)->0), open_at, open);
                    assert(stack.push(closer(c)->0)[0] == stack[0]);
                } else if stack.len() > 0 && c == stack.last() {
                    if stack.len() != 1 {
                        lemma_delimiter_scan(s, index + 1, stack.drop_last(), open_at, open);
                        assert(stack.drop_last()[0] == stack[0]);
                    }
                } else if !is_closer(c) {
                    lemma_delimiter_scan(s, index + 1, stack, open_at, open);
                }
            },
        }
    }
}

fn unclosed_message_exec(open: char) -> (r: Vec<char>)
    ensures
        r@ == unclosed_message(open),
{
    let mut r: Vec<char> = Vec::new();
    push_all(&mut r, &['u', 'n', 'c', 'l', 'o', 's', 'e', 'd', ' ', '`']);
    r.push(open);
    push_all(
        &mut r,
        &[
            '`',
            ' ',
            'd',
            'e',
            'l',
            'i',
            'm',
            'i',
            't',
            'e',
            'r',
            ' ',
            'i',
            'n',
            ' ',
            'l',
            'a',
            'y',
            'o',
            'u',
            't',
            ' ',
            'm',
            'a',
            'c',
            'r',
            'o',
        ],
    );
    assert(r@ =~= unclosed_message(open));
    r
}

fn mismatched_message_exec() -> (r: Vec<char>)
    ensures
        r@ == mismatched_message(),
{
    let mut r: Vec<char> = Vec::new();
    push_all(
        &mut r,
        &[
            'm',
            'i',
            's',
            'm',
            'a',
            't',
            'c',
            'h',
            'e',
            'd',
            ' ',
            'd',
            'e',
            'l',
            'i',
            'm',
            'i',
            't',
            'e',
            'r',
            ' ',
            'i',
            'n',
            ' ',
            'l',
            'a',
            'y',
            'o',
            'u',
            't',
            ' ',
            'm',
            'a',
            'c',
            'r',
            'o',
        ],
    );
    assert(r@ =~= mismatched_message());
    r
}

/// The index of the delimiter that closes the one opened at `open_at`, or the
/// offset and message of the error.
pub fn find_matching_delimiter(s: &[char], open_at: usize, open: char, close: char) -> (r: Result<
    usize,
    (usize, Vec<char>),
>)
    requires
        open_at < usize::MAX,
    ensures
        match (r, matching_delimiter(s@, open_at as int, open, close)) {
            (Ok(a), Ok(b)) => a as int == b,
            (Err((a, m)), Err((b, n))) => a as int == b && m@ == n,
            _ => false,
        },
        r matches Ok(m) ==> open_at < m < s@.len(),
        r matches Err((at, _)) ==> (open_at < s@.len() ==> at < s@.len()),
{
    if open_at >= s.len() {
        return Err((open_at, unclosed_message_exec(open)));
    }
    proof {
        lemma_delimiter_scan(s@, open_at + 1, seq![close], open_at as int, open);
    }
    let n = s.len();
    let mut stack: Vec<char> = Vec::new();
    stack.push(close);
    let mut index = open_at + 1;
    while index < n
        invariant
            n == s@.len(),
            open_at < index <= n,
            stack@.len() > 0,
            delimiter_scan(s@, index as int, stack@, open_at as int, open) == matching_delimiter(
                s@,
                open_at as int,
                open,
                close,
            ),
        decreases n - index,
    {
        match skip_literal_or_comment(s, index) {
            Some(end) => {
                index = end;
            },
            None => {
                let c = s[index];
                match closer_of(c) {
                    Some(k) => {
                        stack.push(k);
                    },
                    None => {
                        if c == stack[stack.len() - 1] {
                            if stack.len() == 1 {
                                return Ok(index);
                            }
                            stack.pop();
                        } else if c == '}' || c == ')' || c == ']' {
                            return Err((index, mismatched_message_exec()));
                        }
                    },
                }
                index = index + 1;
            },
        }
    }
    Err((open_at, unclosed_message_exec(open)))
}

/// The three DSL macros the formatter rewrites.
#[derive(Clone, Copy, PartialEq, Eq, Structural, Debug)]
pub enum MacroKind {
    Layout,
    Style,
    ComputedStyle,
}

/// A macro invocation found in source text: where its opening delimiter
/// stands and the range of its body.
#[derive(Clone, Copy, PartialEq, Eq, Structural, Debug)]
pub struct Invocation {
    pub kind: MacroKind,
    pub open_offset: usize,
    pub body_start: usize,
    pub body_end: usize,
}

pub open spec fn word_layout() -> Seq<char> {
    seq!['l', 'a', 'y', 'o', 'u', 't']
}

pub open spec fn word_style() -> Seq<char> {
    seq!['s', 't', 'y', 'l', 'e']
}

pub open spec fn word_computed_style() -> Seq<char> {
    seq!['c', 'o', 'm', 'p', 'u', 't', 'e', 'd', '_', 's', 't', 'y', 'l', 'e']
}

pub open spec fn word_quote() -> Seq<char> {
    seq!['q', 'u', 'o', 't', 'e']
}

pub open spec fn word_quote_spanned() -> Seq<char> {
    seq!['q', 'u', 'o', 't', 'e', '_', 's', 'p', 'a', 'n', 'n', 'e', 'd']
}

pub open spec fn macro_kind(name: Seq<char>) -> Option<MacroKind> {
    if name == word_layout() {
        Some(MacroKind::Layout)
    } else if name == word_style() {
        Some(MacroKind::Style)
    } else if name == word_computed_style() {
        Some(MacroKind::ComputedStyle)
    } else {
        None
    }
}

/// The first index at or after `i` that cannot continue an identifier.
pub open spec fn ident_end(s: Seq<char>, i: int) -> int
    decreases s.len() - i,
{
    if 0 <= i < s.len() && ident_continue(s[i]) {
        ident_end(s, i + 1)
    } else {
        i
    }
}

pub proof fn lemma_ident_end(s: Seq<char>, i: int)
    requires
        0 <= i <= s.len(),
    ensures
        i <= ident_end(s, i) <= s.len(),
    decreases s.len() - i,
{
    if i < s.len() && ident_continue(s[i]) {
        lemma_ident_end(s, i + 1);
    }
}

/// After a macro name ending at `e`: the offset, opening and closing
/// character of the delimiter that follows `!`, if one does.
pub open spec fn bang_delimiter(s: Seq<char>, e: int) -> Option<(int, char, char)> {
    let look = space_end(s, e);
    let open_at = space_end(s, look + 1);
    if get(s, look) == Some('!') && get(s, open_at) is Some && closer(s[open_at]) is Some {
        Some((open_at, s[open_at], closer(s[open_at])->0))
    } else {
        None
    }
}

pub proof fn lemma_bang_delimiter(s: Seq<char>, e: int)
    requires
        0 <= e <= s.len(),
    ensures
        bang_delimiter(s, e) matches Some((o, open, close)) ==> e < o < s.len() && closer(open)
            == Some(close) && s[o] == open,
{
    lemma_space_end(s, e);
    let look = space_end(s, e);
    lemma_space_end(s, look + 1);
}

/// The scan for macro invocations from `index`, with `found` those seen so far.
pub open spec fn layout_scan(s: Seq<char>, index: int, found: Seq<Invocation>) -> Result<
    Seq<Invocation>,
    (int, Seq<char>),
>
    decreases s.len() - index,
{
    if index < 0 || index >= s.len() {
        Ok(found)
    } else {
        match literal_or_comment_end(s, index) {
            Some(end) => {
                proof {
                    lemma_literal_or_comment_end(s, index);
                }
                layout_scan(s, end, found)
            },
            None => {
                if ident_start(s[index]) {
                    let e = ident_end(s, index + 1);
                    proof {
                        lemma_ident_end(s, index + 1);
                        lemma_bang_delimiter(s, e);
                    }
                    let name = s.subrange(index, e);
                    let quote = name == word_quote() || name == word_quote_spanned();
                    if !quote && macro_kind(name) is None {
                        layout_scan(s, e, found)
                    } else {
                        match bang_delimiter(s, e) {
                            None => layout_scan(s, e, found),
                            Some((open_at, open, close)) => match matching_delimiter(
                                s,
                                open_at,
                                open,
                                close,
                            ) {
                                Err(error) => Err(error),
                                Ok(m) => {
                                    proof {
                                        lemma_delimiter_scan(
                                            s,
                                            open_at + 1,
                                            seq![close],
                                            open_at,
                                            open,
                                        );
                                    }
                                    if quote {
                                        layout_scan(s, m + 1, found)
                                    } else {
                                        layout_scan(
                                            s,
                                            m + 1,
                                            found.push(
                                                Invocation {
                                                    kind: macro_kind(name)->0,
                                                    open_offset: open_at as usize,
                                                    body_start: (open_at + 1) as usize,
                                                    body_end: m as usize,
                                                },
                                            ),
                                        )
                                    }
                                },
                            },
                        }
                    }
                } else {
                    layout_scan(s, index + 1, found)
                }
            },
        }
    }
}

/// The `layout!`, `style!` and `computed_style!` invocations of `s`, in order,
/// outside comments, literals and `quote!`/`quote_spanned!` bodies.
pub open spec fn find_layouts(s: Seq<char>) -> Result<Seq<Invocation>, (int, Seq<char>)> {
    layout_scan(s, 0, seq![])
}

/// Whether `v` is introduced in `s` by its macro's name (an identifier that
/// ends there), then `!` and its opening delimiter, with only ASCII
/// whitespace between them.
pub open spec fn invocation_head(s: Seq<char>, v: Invocation) -> bool {
    exists|i: int, e: int|
        0 <= i < e <= v.open_offset && e == ident_end(s, i + 1) && #[trigger] macro_kind(
            s.subrange(i, e),
        ) == Some(v.kind) && bang_delimiter(s, e) is Some && bang_delimiter(s, e)->Some_0.0 == v.open_offset
}

/// Every invocation found lies inside the text, in order and apart, its body
/// between an opening delimiter and the delimiter that matches it (by the
/// scan that skips literals, comments and nested groups), after the macro's
/// name and `!`.
pub open spec fn invocations_ordered(s: Seq<char>, invs: Seq<Invocation>, from: int) -> bool {
    &&& forall|k: int|
        0 <= k < invs.len() ==> {
            let v = #[trigger] invs[k];
            &&& from <= v.open_offset
            &&& v.body_start == v.open_offset + 1
            &&& v.body_start <= v.body_end < s.len()
            &&& closer(s[v.open_offset as int]) == Some(s[v.body_end as int])
            &&& matching_delimiter(s, v.open_offset as int, s[v.open_offset as int], s[v.body_end as int])
                == Ok::<int, (int, Seq<char>)>(v.body_end as int)
            &&& invocation_head(s, v)
        }
    &&& forall|k: int|
        0 <= k < invs.len() - 1 ==> #[trigger] invs[k].body_end < invs[k + 1].open_offset
}

pub proof fn lemma_layout_scan(s: Seq<char>, index: int, found: Seq<Invocation>)
    requires
        0 <= index,
        s.len() <= usize::MAX,
        invocations_ordered(s, found, 0),
        found.len() > 0 ==> found.last().body_end < index,
    ensures
        layout_scan(s, index, found) matches Ok(r) ==> invocations_ordered(s, r, 0) && r.len()
            >= found.len() && r.subrange(0, found.len() as int) == found,
        layout_scan(s, index, found) matches Err((at, _)) ==> 0 <= at < s.len(),
    decreases s.len() - index, 1int,
{
    if index < s.len() {
        lemma_literal_or_comment_end(s, index);
        match literal_or_comment_end(s, index) {
            Some(end) => {
                lemma_layout_scan(s, end, found);
            },
            None => {
                if ident_start(s[index]) {
                    let e = ident_end(s, index + 1);
                    lemma_ident_end(s, index + 1);
                    lemma_bang_delimiter(s, e);
                    let name = s.subrange(index, e);
                    let quote = name == word_quote() || name == word_quote_spanned();
                    if !quote && macro_kind(name) is None {
                        lemma_layout_scan(s, e, found);
                    } else {
                        match bang_delimiter(s, e) {
                            None => lemma_layout_scan(s, e, found),
                            Some((open_at, open, close)) => {
                                lemma_delimiter_scan(s, open_at + 1, seq![close], open_at, open);
                                match matching_delimiter(s, open_at, open, close) {
                                    Err(_) => {},
                                    Ok(m) => {
                                        if quote {
                                            lemma_layout_scan(s, m + 1, found);
                                        } else {
                                            assert(macro_kind(s.subrange(index, e)) == Some(macro_kind(name)->0));
                                            lemma_layout_scan_push(s, found, open_at, m, macro_kind(name)->0, index);
                                        }
                                    },
                                }
                            },
                        }
                    }
                } else {
                    lemma_layout_scan(s, index + 1, found);
                }
            },
        }
    }
}

proof fn lemma_layout_scan_push(
    s: Seq<char>,
    found: Seq<Invocation>,
    open_at: int,
    m: int,
    kind: MacroKind,
    index: int,
)
    requires
        0 <= index < open_at < m < s.len(),
        s.len() <= usize::MAX,
        closer(s[open_at]) == Some(s[m]),
        matching_delimiter(s, open_at, s[open_at], s[m]) == Ok::<int, (int, Seq<char>)>(m),
        exists|e: int|
            index < e <= open_at && e == ident_end(s, index + 1) && #[trigger] macro_kind(
                s.subrange(index, e),
            ) == Some(kind) && bang_delimiter(s, e) is Some && bang_delimiter(s, e)->Some_0.0 == open_at,
        invocations_ordered(s, found, 0),
        found.len() > 0 ==> found.last().body_end < index,
    ensures
        ({
            let f2 = found.push(
                Invocation {
                    kind,
                    open_offset: open_at as usize,
                    body_start: (open_at + 1) as usize,
                    body_end: m as usize,
                },
            );
            layout_scan(s, m + 1, f2) matches Ok(r) ==> invocations_ordered(s, r, 0) && r.len()
                >= found.len() && r.subrange(0, found.len() as int) == found
        }),
        ({
            let f2 = found.push(
                Invocation {
                    kind,
                    open_offset: open_at as usize,
                    body_start: (open_at + 1) as usize,
                    body_end: m as usize,
                },
            );
            layout_scan(s, m + 1, f2) matches Err((at, _)) ==> 0 <= at < s.len()
        }),
    decreases s.len() - index, 0int,
{
    let inv = Invocation {
        kind,
        open_offset: open_at as usize,
        body_start: (open_at + 1) as usize,
        body_end: m as usize,
    };
    let f2 = found.push(inv);
    assert forall|k: int| 0 <= k < f2.len() - 1 implies #[trigger] f2[k].body_end < f2[k
        + 1].open_offset by {
        if k < found.len() - 1 {
            assert(f2[k] == found[k] && f2[k + 1] == found[k + 1]);
        } else {
            assert(f2[k] == found.last());
        }
    }
    assert forall|k: int| 0 <= k < f2.len() implies {
        let v = #[trigger] f2[k];
        &&& 0 <= v.open_offset
        &&& v.body_start == v.open_offset + 1
        &&& v.body_start <= v.body_end < s.len()
        &&& closer(s[v.open_offset as int]) == Some(s[v.body_end as int])
        &&& matching_delimiter(s, v.open_offset as int, s[v.open_offset as int], s[v.body_end as int])
            == Ok::<int, (int, Seq<char>)>(v.body_end as int)
        &&& invocation_head(s, v)
    } by {
        if k < found.len() {
            assert(f2[k] == found[k]);
        }
    }
    lemma_layout_scan(s, m + 1, f2);
    match layout_scan(s, m + 1, f2) {
        Ok(r) => {
            assert(r.subrange(0, found.len() as int) =~= f2.subrange(0, found.len() as int));
        },
        Err(_) => {},
    }
}

fn bang_delimiter_exec(s: &[char], e: usize) -> (r: Option<(usize, char, char)>)
    requires
        e <= s@.len(),
    ensures
        r is None <==> bang_delimiter(s@, e as int) is None,
        r matches Some((o, a, b)) ==> bang_delimiter(s@, e as int) == Some((o as int, a, b)),
{
    let n = s.len();
    proof {
        lemma_bang_delimiter(s@, e as int);
        lemma_space_end(s@, e as int);
    }
    let look = skip_space(s, e);
    match get_at(s, look) {
        Some('!') => {},
        _ => {
            return None;
        },
    }
    let open_at = skip_space(s, look + 1);
    let open = match get_at(s, open_at) {
        Some(c) => c,
        None => {
            return None;
        },
    };
    match closer_of(open) {
        Some(close) => Some((open_at, open, close)),
        None => None,
    }
}

fn word_eq(s: &[char], start: usize, end: usize, w: &[char]) -> (b: bool)
    requires
        start <= end <= s@.len(),
    ensures
        b == (s@.subrange(start as int, end as int) == w@),
{
    chars_eq(&s[start..end], w)
}

/// The `layout!`, `style!` and `computed_style!` invocations of `s`, or the
/// offset and message of a delimiter error in one of them.
pub fn find_invocations(s: &[char]) -> (r: Result<Vec<Invocation>, (usize, Vec<char>)>)
    ensures
        match (r, find_layouts(s@)) {
            (Ok(a), Ok(b)) => a@ == b,
            (Err((a, m)), Err((b, n))) => a as int == b && m@ == n,
            _ => false,
        },
        r matches Ok(v) ==> invocations_ordered(s@, v@, 0),
        r matches Err((at, _)) ==> at < s@.len(),
{
    let n = s.len();
    proof {
        lemma_layout_scan(s@, 0, seq![]);
    }
    let mut found: Vec<Invocation> = Vec::new();
    let mut index: usize = 0;
    while index < n
        invariant
            n == s@.len(),
            index <= n,
            layout_scan(s@, index as int, found@) == find_layouts(s@),
        decreases n - index,
    {
        match skip_literal_or_comment(s, index) {
            Some(end) => {
                index = end;
                continue ;
            },
            None => {},
        }
        if !is_ident_start(s[index]) {
            index = index + 1;
            continue ;
        }
        let start = index;
        proof {
            lemma_ident_end(s@, index + 1);
        }
        index = index + 1;
        while index < n && is_ident_continue(s[index])
            invariant
                n == s@.len(),
                start < index <= n,
                ident_end(s@, index as int) == ident_end(s@, start + 1),
            decreases n - index,
        {
            index = index + 1;
        }
        let e = index;
        let quote = word_eq(s, start, e, &['q', 'u', 'o', 't', 'e']) || word_eq(
            s,
            start,
            e,
            &['q', 'u', 'o', 't', 'e', '_', 's', 'p', 'a', 'n', 'n', 'e', 'd'],
        );
        proof {
            assert(seq!['q', 'u', 'o', 't', 'e'] == word_quote());
            assert(seq!['q', 'u', 'o', 't', 'e', '_', 's', 'p', 'a', 'n', 'n', 'e', 'd']
                == word_quote_spanned());
        }
        let kind = if word_eq(s, start, e, &['l', 'a', 'y', 'o', 'u', 't']) {
            Some(MacroKind::Layout)
        } else if word_eq(s, start, e, &['s', 't', 'y', 'l', 'e']) {
            Some(MacroKind::Style)
        } else if word_eq(
            s,
            start,
            e,
            &['c', 'o', 'm', 'p', 'u', 't', 'e', 'd', '_', 's', 't', 'y', 'l', 'e'],
        ) {
            Some(MacroKind::ComputedStyle)
        } else {
            None
        };
        proof {
            assert(seq!['l', 'a', 'y', 'o', 'u', 't'] == word_layout());
            assert(seq!['s', 't', 'y', 'l', 'e'] == word_style());
            assert(seq!['c', 'o', 'm', 'p', 'u', 't', 'e', 'd', '_', 's', 't', 'y', 'l', 'e']
                == word_computed_style());
            assert(kind == macro_kind(s@.subrange(start as int, e as int)));
            lemma_bang_delimiter(s@, e as int);
        }
        if !quote && kind.is_none() {
            continue ;
        }
        match bang_delimiter_exec(s, e) {
            None => {
                continue ;
            },
            Some((open_at, open, close)) => {
                let m = match find_matching_delimiter(s, open_at, open, close) {
                    Ok(m) => m,
                    Err(error) => {
                        return Err(error);
                    },
                };
                if !quote {
                    let k = match kind {
                        Some(k) => k,
                        None => MacroKind::Layout,
                    };
                    found.push(
                        Invocation { kind: k, open_offset: open_at, body_start: open_at + 1, body_end: m },
                    );
                }
                index = m + 1;
            },
        }
    }
    Ok(found)
}

/// Start of the line that holds offset `k`.
pub open spec fn line_start(s: Seq<char>, k: int) -> int
    decreases k,
{
    if k <= 0 {
        0
    } else if k - 1 < s.len() && s[k - 1] == '\n' {
        k
    } else {
        line_start(s, k - 1)
    }
}

pub proof fn lemma_line_start(s: Seq<char>, k: int)
    requires
        0 <= k <= s.len(),
    ensures
        0 <= line_start(s, k) <= k,
    decreases k,
{
    if k > 0 && s[k - 1] != '\n' {
        lemma_line_start(s, k - 1);
    }
}

fn line_start_exec(s: &[char], k: usize) -> (r: usize)
    requires
        k <= s@.len(),
    ensures
        r as int == line_start(s@, k as int),
        r <= k,
{
    proof {
        lemma_line_start(s@, k as int);
    }
    let mut j = k;
    while j > 0 && s[j - 1] != '\n'
        invariant
            j <= k <= s@.len(),
            line_start(s@, j as int) == line_start(s@, k as int),
        decreases j,
    {
        j = j - 1;
    }
    j
}

/// Width of the spaces and tabs that begin `s[i..end]`, a tab counting four.
pub open spec fn indent_width(s: Seq<char>, i: int, end: int) -> nat
    decreases end - i,
{
    if 0 <= i < end && i < s.len() && (s[i] == ' ' || s[i] == '\t') {
        (if s[i] == '\t' { 4nat } else { 1nat }) + indent_width(s, i + 1, end)
    } else {
        0
    }
}

/// The indentation of the line that holds `offset`.
pub open spec fn line_indent(s: Seq<char>, offset: int) -> nat {
    indent_width(s, line_start(s, offset), offset)
}

pub proof fn lemma_indent_width(s: Seq<char>, i: int, end: int)
    requires
        0 <= i <= end,
    ensures
        indent_width(s, i, end) <= 4 * (end - i),
    decreases end - i,
{
    if i < end && i < s.len() && (s[i] == ' ' || s[i] == '\t') {
        lemma_indent_width(s, i + 1, end);
    }
}

/// The indentation of the line that holds `offset`, saturated at `usize::MAX`.
pub fn line_indent_of(s: &[char], offset: usize) -> (r: usize)
    requires
        offset <= s@.len(),
    ensures
        r as nat == sat(line_indent(s@, offset as int) as int),
{
    let start = line_start_exec(s, offset);
    let mut i = start;
    let mut w: usize = 0;
    while i < offset && (s[i] == ' ' || s[i] == '\t')
        invariant
            start <= i <= offset <= s@.len(),
            sat(w + indent_width(s@, i as int, offset as int)) == sat(
                indent_width(s@, start as int, offset as int) as int,
            ),
        decreases offset - i,
    {
        w = w.saturating_add(
            if s[i] == '\t' {
                4
            } else {
                1
            },
        );
        i = i + 1;
    }
    w
}

/// The number of line feeds in `s[..k]`.
pub open spec fn newlines_before(s: Seq<char>, k: int) -> nat
    decreases k,
{
    if k <= 0 {
        0
    } else {
        newlines_before(s, k - 1) + if k - 1 < s.len() && s[k - 1] == '\n' {
            1nat
        } else {
            0nat
        }
    }
}

pub open spec fn stdin_name() -> Seq<char> {
    seq!['<', 's', 't', 'd', 'i', 'n', '>']
}

/// `{path}:{line}:{column}: {message}` for an offset into `s`, where a missing
/// path reads `<stdin>` and the offset is clamped to the text.
pub open spec fn diagnostic(path: Option<Seq<char>>, s: Seq<char>, offset: int, message: Seq<char>) -> Seq<
    char,
> {
    let offset = if offset < s.len() { offset } else { s.len() as int };
    let line = newlines_before(s, offset) + 1;
    let column = offset - line_start(s, offset) + 1;
    (match path {
        Some(p) => p,
        None => stdin_name(),
    }) + seq![':'] + decimal(line as nat) + seq![':'] + decimal(column as nat) + seq![':', ' ']
        + message
}

pub proof fn lemma_newlines_before(s: Seq<char>, k: int)
    requires
        0 <= k,
    ensures
        newlines_before(s, k) <= k,
    decreases k,
{
    if k > 0 {
        lemma_newlines_before(s, k - 1);
    }
}

/// The diagnostic for an offset into `s`.
pub fn make_diagnostic(path: Option<&[char]>, s: &[char], offset: usize, message: &[char]) -> (r: Vec<
    char,
>)
    ensures
        r@ == diagnostic(
            match path {
                Some(p) => Some(p@),
                None => None,
            },
            s@,
            offset as int,
            message@,
        ),
{
    let off = if offset < s.len() {
        offset
    } else {
        s.len()
    };
    proof {
        lemma_newlines_before(s@, off as int);
    }
    let mut count: usize = 0;
    let mut k: usize = 0;
    while k < off
        invariant
            k <= off <= s@.len(),
            count as nat == newlines_before(s@, k as int),
            newlines_before(s@, k as int) <= k,
        decreases off - k,
    {
        if s[k] == '\n' {
            count = count + 1;
        }
        k = k + 1;
    }
    let ls = line_start_exec(s, off);
    let mut r: Vec<char> = Vec::new();
    match path {
        Some(p) => push_all(&mut r, p),
        None => push_all(&mut r, &['<', 's', 't', 'd', 'i', 'n', '>']),
    }
    r.push(':');
    push_decimal(&mut r, count as u128 + 1);
    r.push(':');
    push_decimal(&mut r, (off - ls) as u128 + 1);
    r.push(':');
    r.push(' ');
    push_all(&mut r, message);
    proof {
        assert(seq!['<', 's', 't', 'd', 'i', 'n', '>'] == stdin_name());
    }
    assert(r@ =~= diagnostic(
        match path {
            Some(p) => Some(p@),
            None => None,
        },
        s@,
        offset as int,
        message@,
    ));
    r
}

} // verus!
