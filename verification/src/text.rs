//! Character classes, widths and small text builders shared by the scanner,
//! the lexer and the formatters. Text is modelled as `Seq<char>` and held as
//! `Vec<char>` in executable code.
use vstd::prelude::*;

verus! {

/// The fixed line width of the formatter.
pub const WIDTH: usize = 100;

/// The indentation step of the formatter.
pub const TAB: usize = 4;

pub assume_specification[ String::push ](s: &mut String, ch: char)
    ensures
        final(s)@ == old(s)@.push(ch),
;

/// The Unicode `White_Space` property, which `char::is_whitespace` answers:
/// tab through carriage return, space, next line, no-break space, ogham
/// space mark, the spaces from en quad to hair space, line and paragraph
/// separators, narrow no-break space, medium mathematical space and
/// ideographic space.
pub open spec fn unicode_whitespace(c: char) -> bool {
    let n = c as u32;
    (0x09 <= n <= 0x0D) || n == 0x20 || n == 0x85 || n == 0xA0 || n == 0x1680 || (0x2000 <= n
        <= 0x200A) || n == 0x2028 || n == 0x2029 || n == 0x202F || n == 0x205F || n == 0x3000
}

/// What `char::is_alphanumeric` answers (Unicode `Alphabetic` or `Numeric`).
pub uninterp spec fn unicode_alphanumeric(c: char) -> bool;

/// What `char::is_whitespace` answers: its documentation defines it by the
/// Unicode `White_Space` property, which `unicode_whitespace` states; of
/// ASCII it holds of exactly six characters: space, tab, line feed, vertical
/// tab, form feed and carriage return.
pub(crate) fn char_is_whitespace(c: char) -> (b: bool)
    ensures
        b == unicode_whitespace(c),
        (c as u32) < 0x80 ==> (b <==> (c == ' ' || c == '\t' || c == '\n' || c == '\x0B' || c
            == '\x0C' || c == '\r')),
{
    let n = c as u32;
    (0x09 <= n && n <= 0x0D) || n == 0x20 || n == 0x85 || n == 0xA0 || n == 0x1680 || (0x2000 <= n
        && n <= 0x200A) || n == 0x2028 || n == 0x2029 || n == 0x202F || n == 0x205F || n == 0x3000
}

/// Calls `char::is_alphanumeric`. For ASCII its documentation makes the answer
/// the ASCII letters and digits; the contract names the answer and states that
/// ASCII part, leaving the Unicode tables unsaid.
#[verifier::external_body]
pub(crate) fn char_is_alphanumeric(c: char) -> (b: bool)
    ensures
        b == unicode_alphanumeric(c),
        (c as u32) < 0x80 ==> (b <==> is_ascii_alphanumeric(c)),
{
    c.is_alphanumeric()
}

pub open spec fn is_ascii_digit(c: char) -> bool {
    '0' <= c <= '9'
}

pub open spec fn is_ascii_alphabetic(c: char) -> bool {
    ('a' <= c <= 'z') || ('A' <= c <= 'Z')
}

pub open spec fn is_ascii_alphanumeric(c: char) -> bool {
    is_ascii_digit(c) || is_ascii_alphabetic(c)
}

/// `u8::is_ascii_whitespace`: space, tab, line feed, form feed, carriage return.
pub open spec fn is_ascii_ws(c: char) -> bool {
    c == ' ' || c == '\t' || c == '\n' || c == '\x0C' || c == '\r'
}

/// A character that may begin an identifier: `_`, an ASCII letter, or any
/// character outside ASCII.
pub open spec fn ident_start(c: char) -> bool {
    c == '_' || is_ascii_alphabetic(c) || (c as u32) >= 0x80
}

pub open spec fn ident_continue(c: char) -> bool {
    ident_start(c) || is_ascii_digit(c)
}

pub fn ascii_digit(c: char) -> (b: bool)
    ensures
        b == is_ascii_digit(c),
{
    '0' <= c && c <= '9'
}

pub fn ascii_ws(c: char) -> (b: bool)
    ensures
        b == is_ascii_ws(c),
{
    c == ' ' || c == '\t' || c == '\n' || c == '\x0C' || c == '\r'
}

pub fn is_ident_start(c: char) -> (b: bool)
    ensures
        b == ident_start(c),
{
    c == '_' || ('a' <= c && c <= 'z') || ('A' <= c && c <= 'Z') || (c as u32) >= 0x80
}

pub fn is_ident_continue(c: char) -> (b: bool)
    ensures
        b == ident_continue(c),
{
    is_ident_start(c) || ascii_digit(c)
}

/// The number of bytes that UTF-8 takes for `c`.
pub open spec fn char_width(c: char) -> nat {
    if (c as u32) < 0x80 {
        1
    } else if (c as u32) < 0x800 {
        2
    } else if (c as u32) < 0x10000 {
        3
    } else {
        4
    }
}

/// The length in bytes of the UTF-8 encoding of `s`.
pub open spec fn byte_len(s: Seq<char>) -> nat
    decreases s.len(),
{
    if s.len() == 0 {
        0
    } else {
        byte_len(s.drop_last()) + char_width(s.last())
    }
}

/// `byte_len`, saturated at `usize::MAX`.
pub fn utf8_len(s: &[char]) -> (n: usize)
    ensures
        n as nat == if byte_len(s@) <= usize::MAX as nat { byte_len(s@) } else { usize::MAX as nat },
{
    let mut n: usize = 0;
    let mut i: usize = 0;
    while i < s.len()
        invariant
            i <= s@.len(),
            n as nat == if byte_len(s@.take(i as int)) <= usize::MAX as nat {
                byte_len(s@.take(i as int))
            } else {
                usize::MAX as nat
            },
        decreases s@.len() - i,
    {
        let c = s[i];
        let w: usize = if (c as u32) < 0x80 {
            1
        } else if (c as u32) < 0x800 {
            2
        } else if (c as u32) < 0x10000 {
            3
        } else {
            4
        };
        assert(s@.take(i + 1).drop_last() == s@.take(i as int));
        n = n.saturating_add(w);
        i = i + 1;
    }
    assert(s@.take(s@.len() as int) == s@);
    n
}

/// `n` clamped to the range of `usize`.
pub open spec fn sat(n: int) -> nat {
    if n < 0 {
        0
    } else if n > usize::MAX {
        usize::MAX as nat
    } else {
        n as nat
    }
}

/// `a + b` clamped to the range of `usize`.
pub open spec fn sat_add(a: nat, b: nat) -> nat {
    sat((a + b) as int)
}

pub open spec fn spaces(n: nat) -> Seq<char> {
    Seq::new(n, |_i: int| ' ')
}

pub fn make_spaces(n: usize) -> (r: Vec<char>)
    ensures
        r@ == spaces(n as nat),
{
    let mut r: Vec<char> = Vec::new();
    let mut i: usize = 0;
    while i < n
        invariant
            i <= n,
            r@ == spaces(i as nat),
        decreases n - i,
    {
        r.push(' ');
        i = i + 1;
        assert(r@ =~= spaces(i as nat));
    }
    r
}

pub fn push_all(out: &mut Vec<char>, s: &[char])
    ensures
        final(out)@ == old(out)@ + s@,
{
    let mut i: usize = 0;
    while i < s.len()
        invariant
            i <= s@.len(),
            out@ == old(out)@ + s@.take(i as int),
        decreases s@.len() - i,
    {
        out.push(s[i]);
        i = i + 1;
        assert(out@ =~= old(out)@ + s@.take(i as int));
    }
    assert(s@.take(s@.len() as int) == s@);
}

pub fn push_spaces(out: &mut Vec<char>, n: usize)
    ensures
        final(out)@ == old(out)@ + spaces(n as nat),
{
    let sp = make_spaces(n);
    push_all(out, sp.as_slice());
}

/// `s` with every trailing space removed.
pub open spec fn trim_spaces_end(s: Seq<char>) -> Seq<char>
    decreases s.len(),
{
    if s.len() > 0 && s.last() == ' ' {
        trim_spaces_end(s.drop_last())
    } else {
        s
    }
}

pub fn pop_spaces(out: &mut Vec<char>)
    ensures
        final(out)@ == trim_spaces_end(old(out)@),
{
    while out.len() > 0 && out[out.len() - 1] == ' '
        invariant
            trim_spaces_end(out@) == trim_spaces_end(old(out)@),
        decreases out@.len(),
    {
        out.pop();
    }
}

/// `s` with trailing Unicode whitespace removed (`str::trim_end`).
pub open spec fn trim_end(s: Seq<char>) -> Seq<char>
    decreases s.len(),
{
    if s.len() > 0 && unicode_whitespace(s.last()) {
        trim_end(s.drop_last())
    } else {
        s
    }
}

/// `s` with leading Unicode whitespace removed (`str::trim_start`).
pub open spec fn trim_start(s: Seq<char>) -> Seq<char>
    decreases s.len(),
{
    if s.len() > 0 && unicode_whitespace(s[0]) {
        trim_start(s.drop_first())
    } else {
        s
    }
}

/// `str::trim`.
pub open spec fn trim(s: Seq<char>) -> Seq<char> {
    trim_start(trim_end(s))
}

pub fn trim_end_of(s: &[char]) -> (r: Vec<char>)
    ensures
        r@ == trim_end(s@),
{
    let mut n = s.len();
    assert(s@.take(s@.len() as int) == s@);
    while n > 0 && char_is_whitespace(s[n - 1])
        invariant
            n <= s@.len(),
            trim_end(s@.take(n as int)) == trim_end(s@),
        decreases n,
    {
        assert(s@.take(n as int).drop_last() == s@.take(n - 1));
        n = n - 1;
    }
    assert(s@.take(s@.len() as int) == s@);
    let mut r: Vec<char> = Vec::new();
    push_all(&mut r, &s[0..n]);
    assert(r@ == s@.take(n as int));
    r
}

pub fn trim_of(s: &[char]) -> (r: Vec<char>)
    ensures
        r@ == trim(s@),
{
    let e = trim_end_of(s);
    let mut k: usize = 0;
    assert(e@.skip(0) == e@);
    while k < e.len() && char_is_whitespace(e[k])
        invariant
            k <= e@.len(),
            trim_start(e@.skip(k as int)) == trim_start(e@),
        decreases e@.len() - k,
    {
        assert(e@.skip(k as int).drop_first() == e@.skip(k + 1));
        k = k + 1;
    }
    let mut r: Vec<char> = Vec::new();
    push_all(&mut r, &e.as_slice()[k..e.len()]);
    assert(r@ == e@.skip(k as int));
    r
}

/// Whether `pat` occurs in `s` at `i`.
pub open spec fn occurs_at(s: Seq<char>, i: int, pat: Seq<char>) -> bool {
    0 <= i && i + pat.len() <= s.len() && s.subrange(i, i + pat.len()) == pat
}

pub fn occurs_at_exec(s: &[char], i: usize, pat: &[char]) -> (b: bool)
    ensures
        b == occurs_at(s@, i as int, pat@),
{
    if pat.len() > s.len() || i > s.len() - pat.len() {
        return false;
    }
    let sl = s.len();
    let mut k: usize = 0;
    while k < pat.len()
        invariant
            sl == s@.len(),
            k <= pat@.len(),
            i + pat@.len() <= s@.len(),
            forall|j: int| 0 <= j < k ==> s@[i + j] == pat@[j],
        decreases pat@.len() - k,
    {
        let at = i + k;
        if s[at] != pat[k] {
            assert(s@.subrange(i as int, i + pat@.len())[k as int] != pat@[k as int]);
            return false;
        }
        k = k + 1;
    }
    assert(s@.subrange(i as int, i + pat@.len()) =~= pat@);
    true
}

/// Whether `s` equals `lit`.
pub fn chars_eq(s: &[char], lit: &[char]) -> (b: bool)
    ensures
        b == (s@ == lit@),
{
    if s.len() != lit.len() {
        return false;
    }
    let b = occurs_at_exec(s, 0, lit);
    assert(s@.subrange(0, lit@.len() as int) == s@);
    b
}

/// Whether `s` reads `lit`.
pub fn word_is<const N: usize>(s: &[char], lit: [char; N]) -> (b: bool)
    ensures
        b == (s@ == lit@),
{
    chars_eq(s, lit.as_slice())
}

/// Appends the characters of `lit`.
pub fn push_word<const N: usize>(out: &mut Vec<char>, lit: [char; N])
    ensures
        final(out)@ == old(out)@ + lit@,
{
    push_all(out, lit.as_slice());
}

/// Whether `s` ends with `suffix`.
pub open spec fn ends_with(s: Seq<char>, suffix: Seq<char>) -> bool {
    suffix.len() <= s.len() && s.skip(s.len() - suffix.len()) == suffix
}

/// The lines of `s` as `str::lines` yields them: split at `\n`, a `\r` just
/// before the `\n` dropped, and no empty line after a final `\n`.
pub open spec fn lines(s: Seq<char>) -> Seq<Seq<char>>
    decreases s.len(),
{
    if s.len() == 0 {
        seq![]
    } else {
        let n = first_of(s, 0, '\n');
        proof {
            lemma_first_of_bounds(s, 0, '\n');
        }
        if n == s.len() {
            seq![s]
        } else {
            let line = s.take(n);
            let line = if line.len() > 0 && line.last() == '\r' {
                line.drop_last()
            } else {
                line
            };
            seq![line] + lines(s.skip(n + 1))
        }
    }
}

/// The first index at or after `i` that holds `c`, or `s.len()`.
pub open spec fn first_of(s: Seq<char>, i: int, c: char) -> int
    decreases s.len() - i,
{
    if i < 0 || i >= s.len() {
        if i < 0 { 0 } else { s.len() as int }
    } else if s[i] == c {
        i
    } else {
        first_of(s, i + 1, c)
    }
}

pub proof fn lemma_first_of_bounds(s: Seq<char>, i: int, c: char)
    requires
        0 <= i <= s.len(),
    ensures
        i <= first_of(s, i, c) <= s.len(),
        first_of(s, i, c) < s.len() ==> s[first_of(s, i, c)] == c,
        forall|j: int| i <= j < first_of(s, i, c) ==> s[j] != c,
    decreases s.len() - i,
{
    if i < s.len() && s[i] != c {
        lemma_first_of_bounds(s, i + 1, c);
    }
}

pub fn find_char(s: &[char], i: usize, c: char) -> (r: usize)
    requires
        i <= s@.len(),
    ensures
        r as int == first_of(s@, i as int, c),
{
    let mut k = i;
    while k < s.len() && s[k] != c
        invariant
            i <= k <= s@.len(),
            first_of(s@, k as int, c) == first_of(s@, i as int, c),
        decreases s@.len() - k,
    {
        k = k + 1;
    }
    k
}

pub fn split_lines(s: &[char]) -> (r: Vec<Vec<char>>)
    ensures
        r@.len() == lines(s@).len(),
        forall|k: int| 0 <= k < r@.len() ==> (#[trigger] r@[k])@ == lines(s@)[k],
{
    let mut r: Vec<Vec<char>> = Vec::new();
    let mut i: usize = 0;
    assert(s@.skip(0) == s@);
    assert(r@.map_values(|v: Vec<char>| v@) =~= Seq::<Seq<char>>::empty());
    while i < s.len()
        invariant
            i <= s@.len(),
            lines(s@) == r@.map_values(|v: Vec<char>| v@) + lines(s@.skip(i as int)),
        decreases s@.len() - i,
    {
        let ghost rest = s@.skip(i as int);
        let n = find_char(s, i, '\n');
        proof {
            lemma_first_of_bounds(s@, i as int, '\n');
            lemma_first_of_shift(s@, i as int, '\n');
        }
        let mut line: Vec<char> = Vec::new();
        if n == s.len() {
            push_all(&mut line, &s[i..n]);
            assert(line@ == rest);
            let ghost old_r = r@;
            r.push(line);
            assert(rest.len() > 0);
            assert(lines(rest) == seq![rest]);
            assert(r@.map_values(|v: Vec<char>| v@) =~= old_r.map_values(|v: Vec<char>| v@).push(rest));
            assert(s@.skip(s@.len() as int) =~= Seq::<char>::empty());
            i = n;
        } else {
            let end = if n > i && s[n - 1] == '\r' { n - 1 } else { n };
            push_all(&mut line, &s[i..end]);
            let ghost ln = rest.take(n - i);
            assert(line@ == if ln.len() > 0 && ln.last() == '\r' { ln.drop_last() } else { ln });
            let ghost old_r = r@;
            r.push(line);
            assert(rest.skip(n - i + 1) =~= s@.skip(n + 1));
            assert(r@.map_values(|v: Vec<char>| v@) =~= old_r.map_values(|v: Vec<char>| v@).push(
                line@,
            ));
            assert(lines(rest) == seq![line@] + lines(s@.skip(n + 1)));
            i = n + 1;
        }
    }
    assert(s@.skip(s@.len() as int) =~= Seq::<char>::empty());
    assert(lines(s@) == r@.map_values(|v: Vec<char>| v@));
    r
}

pub proof fn lemma_first_of_shift(s: Seq<char>, i: int, c: char)
    requires
        0 <= i <= s.len(),
    ensures
        first_of(s.skip(i), 0, c) == first_of(s, i, c) - i,
    decreases s.len() - i,
{
    lemma_first_of_shift_gen(s, i, 0, c);
}

proof fn lemma_first_of_shift_gen(s: Seq<char>, i: int, k: int, c: char)
    requires
        0 <= i <= s.len(),
        0 <= k <= s.len() - i,
    ensures
        first_of(s.skip(i), k, c) == first_of(s, i + k, c) - i,
    decreases s.len() - i - k,
{
    if k < s.len() - i && s[i + k] != c {
        lemma_first_of_shift_gen(s, i, k + 1, c);
    }
}

/// `xs` joined with `sep` between neighbours.
pub open spec fn join(xs: Seq<Seq<char>>, sep: Seq<char>) -> Seq<char>
    decreases xs.len(),
{
    if xs.len() == 0 {
        seq![]
    } else if xs.len() == 1 {
        xs[0]
    } else {
        join(xs.drop_last(), sep) + sep + xs.last()
    }
}

pub fn join_exec(xs: &Vec<Vec<char>>, sep: &[char]) -> (r: Vec<char>)
    ensures
        r@ == join(xs@.map_values(|v: Vec<char>| v@), sep@),
{
    let ghost m = xs@.map_values(|v: Vec<char>| v@);
    let mut r: Vec<char> = Vec::new();
    let mut i: usize = 0;
    while i < xs.len()
        invariant
            i <= xs@.len(),
            m == xs@.map_values(|v: Vec<char>| v@),
            r@ == join(m.take(i as int), sep@),
        decreases xs@.len() - i,
    {
        assert(m.take(i + 1).drop_last() == m.take(i as int));
        if i > 0 {
            push_all(&mut r, sep);
        }
        push_all(&mut r, xs[i].as_slice());
        i = i + 1;
    }
    assert(m.take(xs@.len() as int) == m);
    r
}

/// The decimal digits of `n`.
pub open spec fn decimal(n: nat) -> Seq<char>
    decreases n,
{
    if n < 10 {
        seq![digit_char(n)]
    } else {
        decimal(n / 10).push(digit_char(n % 10))
    }
}

pub open spec fn digit_char(d: nat) -> char {
    if d == 0 {
        '0'
    } else if d == 1 {
        '1'
    } else if d == 2 {
        '2'
    } else if d == 3 {
        '3'
    } else if d == 4 {
        '4'
    } else if d == 5 {
        '5'
    } else if d == 6 {
        '6'
    } else if d == 7 {
        '7'
    } else if d == 8 {
        '8'
    } else {
        '9'
    }
}

fn digit(d: u128) -> (c: char)
    requires
        d < 10,
    ensures
        c == digit_char(d as nat),
{
    if d == 0 {
        '0'
    } else if d == 1 {
        '1'
    } else if d == 2 {
        '2'
    } else if d == 3 {
        '3'
    } else if d == 4 {
        '4'
    } else if d == 5 {
        '5'
    } else if d == 6 {
        '6'
    } else if d == 7 {
        '7'
    } else if d == 8 {
        '8'
    } else {
        '9'
    }
}

pub fn push_decimal(out: &mut Vec<char>, n: u128)
    ensures
        final(out)@ == old(out)@ + decimal(n as nat),
    decreases n,
{
    if n < 10 {
        out.push(digit(n));
        assert(out@ =~= old(out)@ + decimal(n as nat));
    } else {
        push_decimal(out, n / 10);
        out.push(digit(n % 10));
        assert(out@ =~= old(out)@ + decimal(n as nat));
    }
}

pub fn chars_of(s: &str) -> (v: Vec<char>)
    ensures
        v@ == s@,
{
    let mut v: Vec<char> = Vec::new();
    for c in it: s.chars()
        invariant
            v@ == it.seq().take(it.index() as int),
    {
        v.push(c);
    }
    v
}

pub fn string_of(v: &[char]) -> (s: String)
    ensures
        s@ == v@,
{
    let mut s = String::new();
    let mut i: usize = 0;
    while i < v.len()
        invariant
            i <= v@.len(),
            s@ == v@.take(i as int),
        decreases v@.len() - i,
    {
        s.push(v[i]);
        assert(v@.take(i + 1) == v@.take(i as int).push(v@[i as int]));
        i = i + 1;
    }
    assert(v@.take(v@.len() as int) == v@);
    s
}

} // verus!
