//! Formatting of Rust source: every `layout!`, `style!` and `computed_style!`
//! body is laid out again, and the text around them is kept as it is.
use vstd::prelude::*;

use crate::format::{
    ctx_of, fmt_layout, format_layout, stop_of, text_result, Ctx, ExpressionAnswer, Halt, fresh_ask,
    lemma_fresh_fmt_layout, lemma_offline_fmt_layout, offline, expr_lookup,
    RustfmtAnswers, SourceAnswer, Stop,
};
use crate::comments::{lemma_kept_fmt_layout, lemma_kept_style_sheet, lemma_nodes_kept_moves_pub, nodes_kept};
use crate::lexer::{lex, lex_nodes, view_nodes, Node, Tree};
use crate::scan::{
    diagnostic, find_invocations, find_layouts, invocations_ordered, lemma_layout_scan, line_indent, line_indent_of,
    make_diagnostic, Invocation, MacroKind,
};
use crate::style::{format_style_sheet, style_sheet, lemma_fresh_style_sheet, lemma_offline_style_sheet};
use crate::style_syntax::{check_style, style_check};
use crate::syntax::{check_layout, layout_check};
use crate::text::{chars_of, push_all, push_spaces, push_word, sat, sat_add, spaces, string_of};

verus! {

// ---------------------------------------------------------------------------
// One macro body.
// ---------------------------------------------------------------------------

/// The grammar check for a body of the given kind.
pub open spec fn body_check(kind: MacroKind, text: Seq<char>) -> Result<(), (int, Seq<char>)> {
    match kind {
        MacroKind::Layout => layout_check(text),
        MacroKind::Style => style_check(text, false),
        MacroKind::ComputedStyle => style_check(text, true),
    }
}

/// The name of the grammar in messages.
pub open spec fn syntax_name(kind: MacroKind) -> Seq<char> {
    match kind {
        MacroKind::Layout => ['l', 'a', 'y', 'o', 'u', 't']@,
        _ => ['s', 't', 'y', 'l', 'e']@,
    }
}

/// The layout of a body's token tree at `indent`.
pub open spec fn format_body(kind: MacroKind, nodes: Seq<Tree>, indent: nat, ctx: Ctx) -> Result<
    Seq<char>,
    Stop,
> {
    match kind {
        MacroKind::Layout => fmt_layout(nodes, indent, ctx),
        MacroKind::Style => style_sheet(nodes, indent, false, ctx),
        MacroKind::ComputedStyle => style_sheet(nodes, indent, true, ctx),
    }
}

/// A failure reported at an offset of the source.
pub open spec fn fail_at(path: Option<Seq<char>>, s: Seq<char>, offset: int, message: Seq<char>) -> Stop {
    Stop::Fail(diagnostic(path, s, offset, message))
}

/// "invalid {grammar} syntax: {message}"
pub open spec fn invalid_message(kind: MacroKind, message: Seq<char>) -> Seq<char> {
    ['i', 'n', 'v', 'a', 'l', 'i', 'd', ' ']@ + syntax_name(kind) + [' ', 's', 'y', 'n', 't', 'a', 'x', ':', ' ']@ + message
}

/// "formatter produced invalid {grammar} syntax: {message}"
pub open spec fn produced_message(kind: MacroKind, message: Seq<char>) -> Seq<char> {
    ['f', 'o', 'r', 'm', 'a', 't', 't', 'e', 'r', ' ', 'p', 'r', 'o', 'd', 'u', 'c', 'e', 'd', ' ', 'i', 'n', 'v', 'a', 'l', 'i', 'd', ' ']@ + syntax_name(kind) + [' ', 's', 'y', 'n', 't', 'a', 'x', ':', ' ']@ + message
}

/// The replacement for one invocation's body, given its text with nested
/// invocations already formatted: the body is checked against its grammar,
/// laid out one level deeper than the line of the opening delimiter, checked
/// again, and framed by line breaks so that the closing delimiter returns to
/// that line's indentation.
pub open spec fn body_result(
    s: Seq<char>,
    path: Option<Seq<char>>,
    ctx: Ctx,
    inv: Invocation,
    nested: Seq<char>,
) -> Result<Seq<char>, Stop> {
    match body_check(inv.kind, nested) {
        Err((off, msg)) => Err(fail_at(path, s, inv.body_start + off, invalid_message(inv.kind, msg))),
        Ok(()) => match lex(nested) {
            Err((off, msg)) => Err(fail_at(path, s, inv.body_start + off, msg)),
            Ok(nodes) => {
                let base = sat(line_indent(s, inv.open_offset as int) as int);
                match format_body(inv.kind, nodes, sat_add(base, 4), ctx) {
                    Err(Stop::Fail(m)) => Err(fail_at(path, s, inv.body_start as int, m)),
                    Err(Stop::Ask(w, n)) => Err(Stop::Ask(w, n)),
                    Ok(formatted) => match body_check(inv.kind, formatted) {
                        Err((_, msg)) => Err(
                            fail_at(path, s, inv.body_start as int, produced_message(inv.kind, msg)),
                        ),
                        Ok(()) => Ok(seq!['\n'] + formatted + seq!['\n'] + spaces(base)),
                    },
                }
            },
        },
    }
}

// ---------------------------------------------------------------------------
// Whole texts.
// ---------------------------------------------------------------------------

/// The source with every invocation body (nested ones first) replaced by its
/// formatted text; a source without invocations comes back unchanged.
#[verifier::opaque]
pub open spec fn layouts_in_source(s: Seq<char>, path: Option<Seq<char>>, ctx: Ctx) -> Result<
    Seq<char>,
    Stop,
>
    decreases s.len(), 1int, 0int,
{
    match find_layouts(s) {
        Err((off, msg)) => Err(fail_at(path, s, off, msg)),
        Ok(invs) => if invs.len() == 0 {
            Ok(s)
        } else {
            splice(s, path, ctx, invs, 0, 0, seq![])
        },
    }
}

/// Whether invocation `k` lies after `cursor` with a body inside `s` shorter
/// than `s`.
pub open spec fn splice_ok(s: Seq<char>, invs: Seq<Invocation>, k: int, cursor: int) -> bool {
    &&& 0 <= k < invs.len()
    &&& 0 <= cursor <= invs[k].body_start <= invs[k].body_end <= s.len()
    &&& invs[k].body_end - invs[k].body_start < s.len()
}

/// The output from invocation `k` on, after `out`, where `cursor` is the
/// offset of the first source character not yet copied.
#[verifier::opaque]
pub open spec fn splice(
    s: Seq<char>,
    path: Option<Seq<char>>,
    ctx: Ctx,
    invs: Seq<Invocation>,
    k: int,
    cursor: int,
    out: Seq<char>,
) -> Result<Seq<char>, Stop>
    decreases s.len(), 0int, invs.len() - k,
{
    if k >= invs.len() {
        Ok(out + s.subrange(cursor, s.len() as int))
    } else if !splice_ok(s, invs, k, cursor) {
        Err(Stop::Fail(seq![]))
    } else {
        let inv = invs[k];
        match layouts_in_source(s.subrange(inv.body_start as int, inv.body_end as int), path, ctx) {
            Err(e) => Err(e),
            Ok(nested) => match body_result(s, path, ctx, inv, nested) {
                Err(e) => Err(e),
                Ok(piece) => splice(
                    s,
                    path,
                    ctx,
                    invs,
                    k + 1,
                    inv.body_end as int,
                    out + s.subrange(cursor, inv.body_start as int) + piece,
                ),
            },
        }
    }
}


pub proof fn lemma_layouts_in_source_unfold(s: Seq<char>, path: Option<Seq<char>>, ctx: Ctx)
    ensures
        layouts_in_source(s, path, ctx) == ({
            match find_layouts(s) {
                Err((off, msg)) => Err(fail_at(path, s, off, msg)),
                Ok(invs) => if invs.len() == 0 {
                    Ok(s)
                } else {
                    splice(s, path, ctx, invs, 0, 0, seq![])
                },
            }
        }),
{
    reveal(layouts_in_source);
    reveal(splice);
}

pub proof fn lemma_splice_unfold(s: Seq<char>,
    path: Option<Seq<char>>,
    ctx: Ctx,
    invs: Seq<Invocation>,
    k: int,
    cursor: int,
    out: Seq<char>,)
    ensures
        splice(s, path, ctx, invs, k, cursor, out) == ({
            if k >= invs.len() {
                Ok(out + s.subrange(cursor, s.len() as int))
            } else if !splice_ok(s, invs, k, cursor) {
                Err(Stop::Fail(seq![]))
            } else {
                let inv = invs[k];
                match layouts_in_source(s.subrange(inv.body_start as int, inv.body_end as int), path, ctx) {
                    Err(e) => Err(e),
                    Ok(nested) => match body_result(s, path, ctx, inv, nested) {
                        Err(e) => Err(e),
                        Ok(piece) => splice(
                            s,
                            path,
                            ctx,
                            invs,
                            k + 1,
                            inv.body_end as int,
                            out + s.subrange(cursor, inv.body_start as int) + piece,
                        ),
                    },
                }
            }
        }),
{
    reveal(splice);
    reveal(layouts_in_source);
}


pub proof fn lemma_fresh_format_body(kind: MacroKind, nodes: Seq<Tree>, indent: nat, ctx: Ctx)
    ensures
        fresh_ask(format_body(kind, nodes, indent, ctx), ctx),
{
    {
        match kind {
            MacroKind::Layout => {
                lemma_fresh_fmt_layout(nodes, indent, ctx);
            },
            MacroKind::Style => {
                lemma_fresh_style_sheet(nodes, indent, false, ctx);
            },
            MacroKind::ComputedStyle => {
                lemma_fresh_style_sheet(nodes, indent, true, ctx);
            },
        }
    }
}

pub proof fn lemma_fresh_body_result(s: Seq<char>,
    path: Option<Seq<char>>,
    ctx: Ctx,
    inv: Invocation,
    nested: Seq<char>,)
    ensures
        fresh_ask(body_result(s, path, ctx, inv, nested), ctx),
{
    {
        match body_check(inv.kind, nested) {
            Err((off, msg)) => {},
            Ok(()) => match lex(nested) {
                Err((off, msg)) => {},
                Ok(nodes) => {
                    let base = sat(line_indent(s, inv.open_offset as int) as int);
                    { lemma_fresh_format_body(inv.kind, nodes, sat_add(base, 4), ctx); }
                },
            },
        }
    }
}

pub proof fn lemma_fresh_layouts_in_source(s: Seq<char>, path: Option<Seq<char>>, ctx: Ctx)
    ensures
        fresh_ask(layouts_in_source(s, path, ctx), ctx),
    decreases s.len(), 1int, 0int,
{
    lemma_layouts_in_source_unfold(s, path, ctx);
    {
        match find_layouts(s) {
            Err((off, msg)) => {},
            Ok(invs) => if invs.len() == 0 {} else {
                {
                    lemma_fresh_splice(s, path, ctx, invs, 0, 0, seq![]);
                }
            },
        }
    }
}

pub proof fn lemma_fresh_splice(s: Seq<char>,
    path: Option<Seq<char>>,
    ctx: Ctx,
    invs: Seq<Invocation>,
    k: int,
    cursor: int,
    out: Seq<char>,)
    ensures
        fresh_ask(splice(s, path, ctx, invs, k, cursor, out), ctx),
    decreases s.len(), 0int, invs.len() - k,
{
    lemma_splice_unfold(s, path, ctx, invs, k, cursor, out);
    {
        if k >= invs.len() {} else if !splice_ok(s, invs, k, cursor) {} else {
            let inv = invs[k];
            {
                lemma_fresh_layouts_in_source(s.subrange(inv.body_start as int, inv.body_end as int), path, ctx);
                match layouts_in_source(s.subrange(inv.body_start as int, inv.body_end as int), path, ctx) {
                    Err(e) => {},
                    Ok(nested) => {
                        lemma_fresh_body_result(s, path, ctx, inv, nested);
                        match body_result(s, path, ctx, inv, nested) {
                            Err(e) => {},
                            Ok(piece) => {
                                lemma_fresh_splice(
                                    s,
                                    path,
                                    ctx,
                                    invs,
                                    k + 1,
                                    inv.body_end as int,
                                    out + s.subrange(cursor, inv.body_start as int) + piece,
                                );
                            },
                        }
                    },
                }
            }
        }
    }
}


pub proof fn lemma_offline_format_body(kind: MacroKind, nodes: Seq<Tree>, indent: nat, ctx: Ctx)
    requires
        !ctx.rustfmt,
    ensures
        format_body(kind, nodes, indent, ctx) == format_body(kind, nodes, indent, offline()),
{
    {
        match kind {
            MacroKind::Layout => {
                lemma_offline_fmt_layout(nodes, indent, ctx);
            },
            MacroKind::Style => {
                lemma_offline_style_sheet(nodes, indent, false, ctx);
            },
            MacroKind::ComputedStyle => {
                lemma_offline_style_sheet(nodes, indent, true, ctx);
            },
        }
    }
}

pub proof fn lemma_offline_body_result(s: Seq<char>,
    path: Option<Seq<char>>,
    ctx: Ctx,
    inv: Invocation,
    nested: Seq<char>,)
    requires
        !ctx.rustfmt,
    ensures
        body_result(s, path, ctx, inv, nested) == body_result(s, path, offline(), inv, nested),
{
    {
        match body_check(inv.kind, nested) {
            Err((off, msg)) => {},
            Ok(()) => match lex(nested) {
                Err((off, msg)) => {},
                Ok(nodes) => {
                    let base = sat(line_indent(s, inv.open_offset as int) as int);
                    { lemma_offline_format_body(inv.kind, nodes, sat_add(base, 4), ctx); }
                },
            },
        }
    }
}

pub proof fn lemma_offline_layouts_in_source(s: Seq<char>, path: Option<Seq<char>>, ctx: Ctx)
    requires
        !ctx.rustfmt,
    ensures
        layouts_in_source(s, path, ctx) == layouts_in_source(s, path, offline()),
    decreases s.len(), 1int, 0int,
{
    lemma_layouts_in_source_unfold(s, path, ctx);
    lemma_layouts_in_source_unfold(s, path, offline());
    {
        match find_layouts(s) {
            Err((off, msg)) => {},
            Ok(invs) => if invs.len() == 0 {} else {
                {
                    lemma_offline_splice(s, path, ctx, invs, 0, 0, seq![]);
                }
            },
        }
    }
}

pub proof fn lemma_offline_splice(s: Seq<char>,
    path: Option<Seq<char>>,
    ctx: Ctx,
    invs: Seq<Invocation>,
    k: int,
    cursor: int,
    out: Seq<char>,)
    requires
        !ctx.rustfmt,
    ensures
        splice(s, path, ctx, invs, k, cursor, out) == splice(s, path, offline(), invs, k, cursor, out),
    decreases s.len(), 0int, invs.len() - k,
{
    lemma_splice_unfold(s, path, ctx, invs, k, cursor, out);
    lemma_splice_unfold(s, path, offline(), invs, k, cursor, out);
    {
        if k >= invs.len() {} else if !splice_ok(s, invs, k, cursor) {} else {
            let inv = invs[k];
            {
                lemma_offline_layouts_in_source(s.subrange(inv.body_start as int, inv.body_end as int), path, ctx);
                match layouts_in_source(s.subrange(inv.body_start as int, inv.body_end as int), path, ctx) {
                    Err(e) => {},
                    Ok(nested) => {
                        lemma_offline_body_result(s, path, ctx, inv, nested);
                        match body_result(s, path, ctx, inv, nested) {
                            Err(e) => {},
                            Ok(piece) => {
                                lemma_offline_splice(
                                    s,
                                    path,
                                    ctx,
                                    invs,
                                    k + 1,
                                    inv.body_end as int,
                                    out + s.subrange(cursor, inv.body_start as int) + piece,
                                );
                            },
                        }
                    },
                }
            }
        }
    }
}

// ---------------------------------------------------------------------------
// The text around the bodies.
// ---------------------------------------------------------------------------

/// The source rebuilt from invocation `k` on, after offset `cursor`: its text
/// outside the invocation bodies, in order, with `pieces[j]` in place of the
/// body of invocation `j`.
pub open spec fn rebuild(s: Seq<char>, invs: Seq<Invocation>, pieces: Seq<Seq<char>>, k: int, cursor: int) -> Seq<
    char,
>
    decreases invs.len() - k,
{
    if k < 0 || k >= invs.len() {
        s.subrange(cursor, s.len() as int)
    } else {
        s.subrange(cursor, invs[k].body_start as int) + pieces[k] + rebuild(
            s,
            invs,
            pieces,
            k + 1,
            invs[k].body_end as int,
        )
    }
}

/// The text that replaces the body of `inv`.
pub open spec fn piece_of(s: Seq<char>, path: Option<Seq<char>>, ctx: Ctx, inv: Invocation) -> Seq<char> {
    match layouts_in_source(s.subrange(inv.body_start as int, inv.body_end as int), path, ctx) {
        Ok(nested) => match body_result(s, path, ctx, inv, nested) {
            Ok(p) => p,
            Err(_) => seq![],
        },
        Err(_) => seq![],
    }
}

pub open spec fn pieces_of(s: Seq<char>, path: Option<Seq<char>>, ctx: Ctx, invs: Seq<Invocation>) -> Seq<
    Seq<char>,
> {
    Seq::new(invs.len(), |j: int| piece_of(s, path, ctx, invs[j]))
}

/// Whether `piece` is a formatted body for `inv`: a line break, a text that
/// follows the body's grammar, a line break, and the indentation of the line
/// that opens the invocation.
pub open spec fn framed_body(s: Seq<char>, inv: Invocation, piece: Seq<char>) -> bool {
    let base = sat(line_indent(s, inv.open_offset as int) as int);
    let n = piece.len() as int;
    &&& n >= base + 2
    &&& piece[0] == '\n'
    &&& piece[n - base - 1] == '\n'
    &&& piece.subrange(n - base, n) == spaces(base)
    &&& body_check(inv.kind, piece.subrange(1, n - base - 1)) is Ok
}

proof fn lemma_body_result_framed(s: Seq<char>, path: Option<Seq<char>>, ctx: Ctx, inv: Invocation, nested: Seq<char>)
    ensures
        body_result(s, path, ctx, inv, nested) matches Ok(p) ==> framed_body(s, inv, p),
{
    match body_result(s, path, ctx, inv, nested) {
        Ok(p) => {
            let base = sat(line_indent(s, inv.open_offset as int) as int);
            match lex(nested) {
                Ok(nodes) => match format_body(inv.kind, nodes, sat_add(base, 4), ctx) {
                    Ok(f) => {
                        assert(p == seq!['\n'] + f + seq!['\n'] + spaces(base));
                        let n = p.len() as int;
                        assert(p.subrange(n - base, n) =~= spaces(base));
                        assert(p.subrange(1, n - base - 1) =~= f);
                        assert(p[n - base - 1] == '\n');
                    },
                    _ => {},
                },
                _ => {},
            }
        },
        _ => {},
    }
}

proof fn lemma_splice_rebuild(
    s: Seq<char>,
    path: Option<Seq<char>>,
    ctx: Ctx,
    invs: Seq<Invocation>,
    k: int,
    cursor: int,
    out: Seq<char>,
)
    requires
        0 <= k <= invs.len(),
        splice(s, path, ctx, invs, k, cursor, out) is Ok,
    ensures
        splice(s, path, ctx, invs, k, cursor, out)->Ok_0 == out + rebuild(
            s,
            invs,
            pieces_of(s, path, ctx, invs),
            k,
            cursor,
        ),
        forall|j: int| k <= j < invs.len() ==> framed_body(s, invs[j], #[trigger] pieces_of(s, path, ctx, invs)[j]),
    decreases invs.len() - k,
{
    lemma_splice_unfold(s, path, ctx, invs, k, cursor, out);
    if k < invs.len() {
        let inv = invs[k];
        let p = piece_of(s, path, ctx, inv);
        let nested = layouts_in_source(s.subrange(inv.body_start as int, inv.body_end as int), path, ctx)->Ok_0;
        lemma_body_result_framed(s, path, ctx, inv, nested);
        assert(framed_body(s, invs[k], pieces_of(s, path, ctx, invs)[k]));
        let out2 = out + s.subrange(cursor, inv.body_start as int) + p;
        lemma_splice_rebuild(s, path, ctx, invs, k + 1, inv.body_end as int, out2);
        assert(out2 + rebuild(s, invs, pieces_of(s, path, ctx, invs), k + 1, inv.body_end as int) =~= out
            + rebuild(s, invs, pieces_of(s, path, ctx, invs), k, cursor));
    } else {
        assert(out + s.subrange(cursor, s.len() as int) =~= out + rebuild(
            s,
            invs,
            pieces_of(s, path, ctx, invs),
            k,
            cursor,
        ));
    }
}

/// All Rust source outside the macro bodies is left unchanged: when the
/// bodies of a text are laid out successfully, the result is the text with
/// each invocation body replaced and every character around the bodies kept
/// in place and in order. Each replacement is framed by line breaks, follows
/// its grammar, and ends at the indentation of the line that opens the
/// invocation. A text without invocations comes back as it is.
pub proof fn lemma_outside_bodies_kept(s: Seq<char>, path: Option<Seq<char>>, ctx: Ctx)
    requires
        layouts_in_source(s, path, ctx) is Ok,
    ensures
        find_layouts(s) is Ok,
        exists|pieces: Seq<Seq<char>>|
            pieces.len() == find_layouts(s)->Ok_0.len() && layouts_in_source(s, path, ctx)->Ok_0
                == #[trigger] rebuild(s, find_layouts(s)->Ok_0, pieces, 0, 0) && forall|j: int|
                0 <= j < pieces.len() ==> framed_body(s, find_layouts(s)->Ok_0[j], #[trigger] pieces[j]),
        find_layouts(s)->Ok_0.len() == 0 ==> layouts_in_source(s, path, ctx)->Ok_0 == s,
{
    lemma_layouts_in_source_unfold(s, path, ctx);
    let invs = find_layouts(s)->Ok_0;
    let pieces = pieces_of(s, path, ctx, invs);
    if invs.len() == 0 {
        assert(s.subrange(0, s.len() as int) =~= s);
        assert(layouts_in_source(s, path, ctx)->Ok_0 == rebuild(s, invs, pieces, 0, 0));
    } else {
        lemma_splice_rebuild(s, path, ctx, invs, 0, 0, seq![]);
        assert(seq![] + rebuild(s, invs, pieces, 0, 0) =~= rebuild(s, invs, pieces, 0, 0));
    }
}

/// Without rustfmt, a successful formatting of a source text keeps all Rust
/// source outside the macro bodies unchanged.
pub proof fn lemma_format_source_keeps_outside(
    source: Seq<char>,
    path: Option<Seq<char>>,
    answers: &RustfmtAnswers,
)
    requires
        source_step(source, path, false, answers) is Done,
        source_step(source, path, false, answers)->Done_0 is Ok,
    ensures
        find_layouts(source) is Ok,
        exists|pieces: Seq<Seq<char>>|
            pieces.len() == find_layouts(source)->Ok_0.len() && source_step(source, path, false, answers)->Done_0->Ok_0
                == #[trigger] rebuild(source, find_layouts(source)->Ok_0, pieces, 0, 0) && forall|j: int|
                0 <= j < pieces.len() ==> framed_body(source, find_layouts(source)->Ok_0[j], #[trigger] pieces[j]),
{
    lemma_outside_bodies_kept(source, path, ctx_of(false, answers));
}

/// Whether formatting gives the body of `inv` back as it stands: its nested
/// invocations are laid out and the body laid out after them is the text it
/// replaces.
#[verifier::opaque]
pub open spec fn body_settled(s: Seq<char>, path: Option<Seq<char>>, ctx: Ctx, inv: Invocation) -> bool {
    let body = s.subrange(inv.body_start as int, inv.body_end as int);
    &&& layouts_in_source(body, path, ctx) is Ok
    &&& body_result(s, path, ctx, inv, layouts_in_source(body, path, ctx)->Ok_0) == Ok::<Seq<char>, Stop>(
        body,
    )
}

/// Whether the invocations lie in `s` in order and apart, each body right
/// after its opening delimiter.
spec fn invocations_apart(s: Seq<char>, invs: Seq<Invocation>) -> bool {
    &&& forall|j: int|
        0 <= j < invs.len() ==> 0 <= (#[trigger] invs[j]).open_offset && invs[j].body_start == invs[j].open_offset
            + 1 && invs[j].body_start <= invs[j].body_end < s.len()
    &&& forall|j: int| 0 <= j < invs.len() - 1 ==> #[trigger] invs[j].body_end < invs[j + 1].open_offset
}

proof fn lemma_settled_step(s: Seq<char>, path: Option<Seq<char>>, ctx: Ctx, invs: Seq<Invocation>, k: int, cursor: int, out: Seq<char>)
    requires
        0 <= k < invs.len(),
        splice_ok(s, invs, k, cursor),
        body_settled(s, path, ctx, invs[k]),
    ensures
        splice(s, path, ctx, invs, k, cursor, out) == splice(
            s,
            path,
            ctx,
            invs,
            k + 1,
            invs[k].body_end as int,
            out + s.subrange(cursor, invs[k].body_start as int) + s.subrange(
                invs[k].body_start as int,
                invs[k].body_end as int,
            ),
        ),
{
    reveal(body_settled);
    lemma_splice_unfold(s, path, ctx, invs, k, cursor, out);
}

proof fn lemma_settled_splice(s: Seq<char>, path: Option<Seq<char>>, ctx: Ctx, invs: Seq<Invocation>, k: int, out: Seq<char>)
    requires
        0 <= k <= invs.len(),
        invocations_apart(s, invs),
        forall|j: int| 0 <= j < invs.len() ==> body_settled(s, path, ctx, #[trigger] invs[j]),
    ensures
        ({
            let cursor = if k == 0 { 0 } else { invs[k - 1].body_end as int };
            splice(s, path, ctx, invs, k, cursor, out) == Ok::<Seq<char>, Stop>(out + s.subrange(cursor, s.len() as int))
        }),
    decreases invs.len() - k,
{
    let cursor = if k == 0 { 0 } else { invs[k - 1].body_end as int };
    if k < invs.len() {
        let inv = invs[k];
        assert(body_settled(s, path, ctx, invs[k]));
        assert(0 <= invs[k].open_offset);
        if k > 0 {
            assert(invs[k - 1].body_end < invs[k - 1 + 1].open_offset);
        }
        assert(splice_ok(s, invs, k, cursor));
        let body = s.subrange(inv.body_start as int, inv.body_end as int);
        let out2 = out + s.subrange(cursor, inv.body_start as int) + body;
        lemma_settled_step(s, path, ctx, invs, k, cursor, out);
        lemma_settled_splice(s, path, ctx, invs, k + 1, out2);
        assert(out2 + s.subrange(inv.body_end as int, s.len() as int) =~= out + s.subrange(cursor, s.len() as int));
    } else {
        lemma_splice_unfold(s, path, ctx, invs, k, cursor, out);
    }
}

/// A text whose invocation bodies each come back as they stand is left as it
/// is: laying out its bodies succeeds and gives the text itself. A second pass
/// over a formatted text therefore changes nothing when each of its bodies
/// comes back as it stands.
pub proof fn lemma_settled_bodies_keep_text(s: Seq<char>, path: Option<Seq<char>>, ctx: Ctx)
    requires
        s.len() <= usize::MAX,
        find_layouts(s) is Ok,
        forall|k: int|
            0 <= k < find_layouts(s)->Ok_0.len() ==> body_settled(s, path, ctx, #[trigger] find_layouts(s)->Ok_0[k]),
    ensures
        layouts_in_source(s, path, ctx) == Ok::<Seq<char>, Stop>(s),
{
    lemma_layouts_in_source_unfold(s, path, ctx);
    lemma_layout_scan(s, 0, seq![]);
    let invs = find_layouts(s)->Ok_0;
    if invs.len() > 0 {
        assert(invocations_apart(s, invs)) by {
            assert forall|j: int| 0 <= j < invs.len() - 1 implies #[trigger] invs[j].body_end < invs[j + 1].open_offset by {
                assert(invs[j].body_end < invs[j + 1].open_offset);
            }
            assert forall|j: int| 0 <= j < invs.len() implies 0 <= (#[trigger] invs[j]).open_offset && invs[j].body_start
                == invs[j].open_offset + 1 && invs[j].body_start <= invs[j].body_end < s.len() by {
                let v = invs[j];
            }
        }
        lemma_settled_splice(s, path, ctx, invs, 0, seq![]);
        assert(seq![] + s.subrange(0, s.len() as int) =~= s);
    }
}

/// Without rustfmt, formatting a source whose invocation bodies each come back
/// as they stand gives that source back: a check of it reports nothing to
/// change.
pub proof fn lemma_format_keeps_settled_source(source: Seq<char>, path: Option<Seq<char>>, answers: &RustfmtAnswers)
    requires
        source.len() <= usize::MAX,
        find_layouts(source) is Ok,
        forall|k: int|
            0 <= k < find_layouts(source)->Ok_0.len() ==> body_settled(
                source,
                path,
                ctx_of(false, answers),
                #[trigger] find_layouts(source)->Ok_0[k],
            ),
    ensures
        source_step(source, path, false, answers) == Step::Done(Ok::<Seq<char>, Seq<char>>(source)),
{
    lemma_settled_bodies_keep_text(source, path, ctx_of(false, answers));
}

/// Without rustfmt, a laid-out body keeps every comment of the body it was
/// laid out from: each line of each comment, at any depth of the body's token
/// tree, occurs trimmed in the piece that replaces the body. This holds for
/// `layout!`, `style!` and `computed_style!` bodies alike.
pub proof fn lemma_body_keeps_comments(
    s: Seq<char>,
    path: Option<Seq<char>>,
    ctx: Ctx,
    inv: Invocation,
    nested: Seq<char>,
)
    requires
        !ctx.rustfmt,
    ensures
        body_result(s, path, ctx, inv, nested) matches Ok(piece) ==> lex(nested) is Ok && nodes_kept(
            lex(nested)->Ok_0,
            piece,
        ),
{
    match lex(nested) {
        Ok(nodes) => {
            let base = sat(line_indent(s, inv.open_offset as int) as int);
            let ind = sat_add(base, 4);
            match inv.kind {
                MacroKind::Layout => lemma_kept_fmt_layout(nodes, ind, ctx),
                MacroKind::Style => lemma_kept_style_sheet(nodes, ind, false, ctx),
                MacroKind::ComputedStyle => lemma_kept_style_sheet(nodes, ind, true, ctx),
            }
            match format_body(inv.kind, nodes, ind, ctx) {
                Ok(f) => {
                    let piece = seq!['\n'] + f + seq!['\n'] + spaces(base);
                    assert(piece.subrange(1, (1 + f.len()) as int) =~= f);
                    lemma_nodes_kept_moves_pub(nodes, f, piece, 1);
                },
                _ => {},
            }
        },
        _ => {},
    }
}

proof fn lemma_splice_piece_ok(
    s: Seq<char>,
    path: Option<Seq<char>>,
    ctx: Ctx,
    invs: Seq<Invocation>,
    k: int,
    cursor: int,
    out: Seq<char>,
    m: int,
)
    requires
        0 <= k <= m < invs.len(),
        splice(s, path, ctx, invs, k, cursor, out) is Ok,
    ensures
        layouts_in_source(s.subrange(invs[m].body_start as int, invs[m].body_end as int), path, ctx) is Ok,
        body_result(
            s,
            path,
            ctx,
            invs[m],
            layouts_in_source(s.subrange(invs[m].body_start as int, invs[m].body_end as int), path, ctx)->Ok_0,
        ) == Ok::<Seq<char>, Stop>(piece_of(s, path, ctx, invs[m])),
    decreases m - k,
{
    lemma_splice_unfold(s, path, ctx, invs, k, cursor, out);
    if k < m {
        let inv = invs[k];
        let p = piece_of(s, path, ctx, inv);
        lemma_splice_piece_ok(
            s,
            path,
            ctx,
            invs,
            k + 1,
            inv.body_end as int,
            out + s.subrange(cursor, inv.body_start as int) + p,
            m,
        );
    }
}

proof fn lemma_rebuild_holds(s: Seq<char>, invs: Seq<Invocation>, pieces: Seq<Seq<char>>, j: int, cursor: int, m: int) -> (at: int)
    requires
        0 <= j <= m < invs.len(),
    ensures
        0 <= at,
        at + pieces[m].len() <= rebuild(s, invs, pieces, j, cursor).len(),
        rebuild(s, invs, pieces, j, cursor).subrange(at, at + pieces[m].len()) == pieces[m],
    decreases m - j,
{
    let a = s.subrange(cursor, invs[j].body_start as int);
    let rest = rebuild(s, invs, pieces, j + 1, invs[j].body_end as int);
    let r = rebuild(s, invs, pieces, j, cursor);
    assert(r == a + pieces[j] + rest);
    if j == m {
        assert(r.subrange(a.len() as int, (a.len() + pieces[m].len()) as int) =~= pieces[m]);
        a.len() as int
    } else {
        let at2 = lemma_rebuild_holds(s, invs, pieces, j + 1, invs[j].body_end as int, m);
        let at: int = a.len() + pieces[j].len() + at2;
        assert(r.subrange(at, at + pieces[m].len()) =~= rest.subrange(at2, at2 + pieces[m].len()));
        at
    }
}

/// Without rustfmt, formatting a source keeps the comments of its macro
/// bodies: for each invocation, every line of every comment in the token tree
/// of its body (with the invocations nested in it laid out first) occurs
/// trimmed in the result. A body without nested invocations is lexed as it
/// stands.
pub proof fn lemma_format_keeps_comments(
    source: Seq<char>,
    path: Option<Seq<char>>,
    answers: &RustfmtAnswers,
    k: int,
)
    requires
        source_step(source, path, false, answers) is Done,
        source_step(source, path, false, answers)->Done_0 is Ok,
        find_layouts(source) matches Ok(invs) && 0 <= k < invs.len(),
    ensures
        ({
            let ctx = ctx_of(false, answers);
            let inv = find_layouts(source)->Ok_0[k];
            let body = source.subrange(inv.body_start as int, inv.body_end as int);
            let nested = layouts_in_source(body, path, ctx)->Ok_0;
            &&& layouts_in_source(body, path, ctx) is Ok
            &&& lex(nested) is Ok
            &&& nodes_kept(lex(nested)->Ok_0, source_step(source, path, false, answers)->Done_0->Ok_0)
            &&& find_layouts(body) == Ok::<Seq<Invocation>, (int, Seq<char>)>(seq![]) ==> nested == body
        }),
{
    let ctx = ctx_of(false, answers);
    let invs = find_layouts(source)->Ok_0;
    let inv = invs[k];
    let body = source.subrange(inv.body_start as int, inv.body_end as int);
    let out = layouts_in_source(source, path, ctx)->Ok_0;
    lemma_layouts_in_source_unfold(source, path, ctx);
    lemma_layouts_in_source_unfold(body, path, ctx);
    lemma_splice_piece_ok(source, path, ctx, invs, 0, 0, seq![], k);
    lemma_splice_rebuild(source, path, ctx, invs, 0, 0, seq![]);
    let pieces = pieces_of(source, path, ctx, invs);
    assert(out == seq![] + rebuild(source, invs, pieces, 0, 0));
    assert(seq![] + rebuild(source, invs, pieces, 0, 0) =~= rebuild(source, invs, pieces, 0, 0));
    let nested = layouts_in_source(body, path, ctx)->Ok_0;
    lemma_body_keeps_comments(source, path, ctx, inv, nested);
    let at = lemma_rebuild_holds(source, invs, pieces, 0, 0, k);
    assert(pieces[k] == piece_of(source, path, ctx, inv));
    lemma_nodes_kept_moves_pub(lex(nested)->Ok_0, pieces[k], out, at);
}

/// Without rustfmt the answers play no part: formatting a source gives the
/// same step, whatever answers are passed.
pub proof fn lemma_offline_ignores_answers(
    source: Seq<char>,
    path: Option<Seq<char>>,
    answers: &RustfmtAnswers,
    others: &RustfmtAnswers,
)
    ensures
        source_step(source, path, false, answers) == source_step(source, path, false, others),
{
    lemma_offline_layouts_in_source(source, path, ctx_of(false, answers));
    lemma_offline_layouts_in_source(source, path, ctx_of(false, others));
}

/// Formatting asks rustfmt only for what it lacks: a step asks for the whole
/// text only while rustfmt is in use and has no answer for that text, and for
/// an expression wrapper only while rustfmt is in use and has no answer for
/// that wrapper and width. Without rustfmt, formatting is done in one step.
pub proof fn lemma_requests_are_new(
    source: Seq<char>,
    path: Option<Seq<char>>,
    use_rustfmt: bool,
    answers: &RustfmtAnswers,
)
    ensures
        source_step(source, path, use_rustfmt, answers) matches Step::AskSource(s) ==> use_rustfmt && s
            == source && source_lookup(answers.sources@, 0, s) is None,
        source_step(source, path, use_rustfmt, answers) matches Step::AskExpression(w, n) ==> use_rustfmt
            && expr_lookup(answers.expressions@, 0, w, n) is None,
        !use_rustfmt ==> source_step(source, path, use_rustfmt, answers) is Done,
{
    let ctx = ctx_of(use_rustfmt, answers);
    if use_rustfmt {
        match source_lookup(answers.sources@, 0, source) {
            Some(Ok(f)) => lemma_fresh_layouts_in_source(f, path, ctx),
            _ => {},
        }
    } else {
        lemma_fresh_layouts_in_source(source, path, ctx);
    }
}

// ---------------------------------------------------------------------------
// The executable formatting of texts.
// ---------------------------------------------------------------------------

pub open spec fn path_view(path: Option<&[char]>) -> Option<Seq<char>> {
    match path {
        Some(p) => Some(p@),
        None => None,
    }
}

proof fn lemma_diagnostic_clamp(path: Option<Seq<char>>, s: Seq<char>, a: int, b: int, m: Seq<char>)
    requires
        a == b || (a >= s.len() && b >= s.len()),
    ensures
        diagnostic(path, s, a, m) == diagnostic(path, s, b, m),
{
}

fn fail_at_exec(path: Option<&[char]>, s: &[char], offset: usize, message: &[char]) -> (h: Halt)
    ensures
        stop_of(h) == fail_at(path_view(path), s@, offset as int, message@),
{
    Halt::Fail(make_diagnostic(path, s, offset, message))
}

fn body_check_exec(kind: MacroKind, text: &[char]) -> (r: Result<(), (usize, Vec<char>)>)
    ensures
        match (r, body_check(kind, text@)) {
            (Ok(()), Ok(())) => true,
            (Err((a, m)), Err((b, n))) => a as int == b && m@ == n,
            _ => false,
        },
{
    match kind {
        MacroKind::Layout => check_layout(text),
        MacroKind::Style => check_style(text, false),
        MacroKind::ComputedStyle => check_style(text, true),
    }
}

fn message_with<const N: usize, const M: usize>(head: [char; N], kind: MacroKind, tail: [char; M], message: &[char]) -> (r: Vec<char>)
    ensures
        r@ == head@ + syntax_name(kind) + tail@ + message@,
{
    let mut r: Vec<char> = Vec::new();
    push_word(&mut r, head);
    match kind {
        MacroKind::Layout => push_word(&mut r, ['l', 'a', 'y', 'o', 'u', 't']),
        _ => push_word(&mut r, ['s', 't', 'y', 'l', 'e']),
    }
    push_word(&mut r, tail);
    push_all(&mut r, message);
    r
}

/// The replacement for one invocation's body.
fn body_result_exec(
    s: &[char],
    path: Option<&[char]>,
    rustfmt: bool,
    answers: &RustfmtAnswers,
    inv: Invocation,
    nested: &[char],
) -> (r: Result<Vec<char>, Halt>)
    requires
        inv.open_offset <= s@.len(),
    ensures
        text_result(r) == body_result(s@, path_view(path), ctx_of(rustfmt, answers), inv, nested@),
{
    let source_len = s.len();
    match body_check_exec(inv.kind, nested) {
        Err((off, msg)) => {
            let m = message_with(['i', 'n', 'v', 'a', 'l', 'i', 'd', ' '], inv.kind, [' ', 's', 'y', 'n', 't', 'a', 'x', ':', ' '], msg.as_slice());
            let at = inv.body_start.saturating_add(off);
            proof {
                lemma_diagnostic_clamp(path_view(path), s@, at as int, inv.body_start + off, m@);
            }
            return Err(fail_at_exec(path, s, at, m.as_slice()));
        },
        Ok(()) => {},
    }
    let nodes = match lex_nodes(nested) {
        Err((off, msg)) => {
            let at = inv.body_start.saturating_add(off);
            proof {
                lemma_diagnostic_clamp(path_view(path), s@, at as int, inv.body_start + off, msg@);
            }
            return Err(fail_at_exec(path, s, at, msg.as_slice()));
        },
        Ok(n) => n,
    };
    let base = line_indent_of(s, inv.open_offset);
    let indent = base.saturating_add(4);
    let formatted = match inv.kind {
        MacroKind::Layout => format_layout(nodes.as_slice(), indent, rustfmt, answers),
        MacroKind::Style => format_style_sheet(nodes.as_slice(), indent, false, rustfmt, answers),
        MacroKind::ComputedStyle => format_style_sheet(nodes.as_slice(), indent, true, rustfmt, answers),
    };
    let formatted = match formatted {
        Err(Halt::Fail(m)) => {
            return Err(fail_at_exec(path, s, inv.body_start, m.as_slice()));
        },
        Err(Halt::Ask(w, n)) => {
            return Err(Halt::Ask(w, n));
        },
        Ok(f) => f,
    };
    match body_check_exec(inv.kind, formatted.as_slice()) {
        Err((_, msg)) => {
            let m = message_with(['f', 'o', 'r', 'm', 'a', 't', 't', 'e', 'r', ' ', 'p', 'r', 'o', 'd', 'u', 'c', 'e', 'd', ' ', 'i', 'n', 'v', 'a', 'l', 'i', 'd', ' '], inv.kind, [' ', 's', 'y', 'n', 't', 'a', 'x', ':', ' '], msg.as_slice());
            return Err(fail_at_exec(path, s, inv.body_start, m.as_slice()));
        },
        Ok(()) => {},
    }
    let mut piece: Vec<char> = Vec::new();
    piece.push('\n');
    push_all(&mut piece, formatted.as_slice());
    piece.push('\n');
    push_spaces(&mut piece, base);
    assert(piece@ =~= seq!['\n'] + formatted@ + seq!['\n'] + spaces(base as nat));
    Ok(piece)
}

/// The source with every invocation body replaced by its formatted text.
pub fn format_layouts_in_source(
    s: &[char],
    path: Option<&[char]>,
    rustfmt: bool,
    answers: &RustfmtAnswers,
) -> (r: Result<Vec<char>, Halt>)
    ensures
        text_result(r) == layouts_in_source(s@, path_view(path), ctx_of(rustfmt, answers)),
    decreases s@.len(),
{
    let ghost ctx = ctx_of(rustfmt, answers);
    proof {
        lemma_layouts_in_source_unfold(s@, path_view(path), ctx);
    }
    let invs = match find_invocations(s) {
        Err((off, msg)) => {
            return Err(fail_at_exec(path, s, off, msg.as_slice()));
        },
        Ok(v) => v,
    };
    if invs.len() == 0 {
        let mut copy: Vec<char> = Vec::new();
        push_all(&mut copy, s);
        assert(copy@ =~= s@);
        return Ok(copy);
    }
    let mut out: Vec<char> = Vec::new();
    let mut cursor: usize = 0;
    let mut k: usize = 0;
    while k < invs.len()
        invariant
            invocations_ordered(s@, invs@, 0),
            ctx == ctx_of(rustfmt, answers),
            k <= invs@.len(),
            invs@.len() > 0,
            cursor <= s@.len(),
            k > 0 ==> cursor as int == invs@[k - 1].body_end,
            k == 0 ==> cursor == 0,
            layouts_in_source(s@, path_view(path), ctx) == splice(s@, path_view(path), ctx, invs@, 0, 0, seq![]),
            splice(s@, path_view(path), ctx, invs@, k as int, cursor as int, out@) == splice(
                s@,
                path_view(path),
                ctx,
                invs@,
                0,
                0,
                seq![],
            ),
        decreases invs@.len() - k,
    {
        let inv = invs[k];
        proof {
            assert(invs@[k as int] == inv);
            if k > 0 {
                assert(invs@[k - 1].body_end < invs@[k as int].open_offset);
            }
            assert(splice_ok(s@, invs@, k as int, cursor as int));
            lemma_splice_unfold(s@, path_view(path), ctx, invs@, k as int, cursor as int, out@);
        }
        let body = &s[inv.body_start..inv.body_end];
        let nested = match format_layouts_in_source(body, path, rustfmt, answers) {
            Err(e) => {
                return Err(e);
            },
            Ok(n) => n,
        };
        let piece = match body_result_exec(s, path, rustfmt, answers, inv, nested.as_slice()) {
            Err(e) => {
                return Err(e);
            },
            Ok(p) => p,
        };
        let ghost o0 = out@;
        push_all(&mut out, &s[cursor..inv.body_start]);
        push_all(&mut out, piece.as_slice());
        assert(out@ =~= o0 + s@.subrange(cursor as int, inv.body_start as int) + piece@);
        cursor = inv.body_end;
        k = k + 1;
    }
    proof {
        lemma_splice_unfold(s@, path_view(path), ctx, invs@, k as int, cursor as int, out@);
    }
    let ghost o0 = out@;
    push_all(&mut out, &s[cursor..s.len()]);
    assert(out@ =~= o0 + s@.subrange(cursor as int, s@.len() as int));
    Ok(out)
}

// ---------------------------------------------------------------------------
// The rustfmt protocol.
// ---------------------------------------------------------------------------

/// Work for rustfmt that the formatter needs done before it can go on.
pub enum RustfmtRequest {
    /// Format this whole source text.
    Source { source: String },
    /// Format this expression wrapper at this maximum width.
    Expression { wrapper: String, max_width: usize },
}

/// One step of formatting a source text: the result, or a request for rustfmt
/// whose answer the caller adds before it asks again.
pub enum FormatStep {
    Done(Result<String, String>),
    Rustfmt(RustfmtRequest),
}

/// A step of formatting, as a mathematical value.
pub enum Step {
    Done(Result<Seq<char>, Seq<char>>),
    AskSource(Seq<char>),
    AskExpression(Seq<char>, nat),
}

pub open spec fn step_of(f: FormatStep) -> Step {
    match f {
        FormatStep::Done(Ok(t)) => Step::Done(Ok(t@)),
        FormatStep::Done(Err(m)) => Step::Done(Err(m@)),
        FormatStep::Rustfmt(RustfmtRequest::Source { source }) => Step::AskSource(source@),
        FormatStep::Rustfmt(RustfmtRequest::Expression { wrapper, max_width }) => Step::AskExpression(
            wrapper@,
            max_width as nat,
        ),
    }
}

/// The first recorded rustfmt answer for the whole text `source`, scanning from `k`.
pub open spec fn source_lookup(sources: Seq<SourceAnswer>, k: int, source: Seq<char>) -> Option<
    Result<Seq<char>, Seq<char>>,
>
    decreases sources.len() - k,
{
    if k < 0 || k >= sources.len() {
        None
    } else if sources[k].source@ == source {
        Some(
            match sources[k].output {
                Ok(t) => Ok(t@),
                Err(m) => Err(m@),
            },
        )
    } else {
        source_lookup(sources, k + 1, source)
    }
}

/// The step after the whole-text pass: the invocation bodies of `t` laid out.
pub open spec fn finish(t: Seq<char>, path: Option<Seq<char>>, ctx: Ctx) -> Step {
    match layouts_in_source(t, path, ctx) {
        Ok(o) => Step::Done(Ok(o)),
        Err(Stop::Fail(m)) => Step::Done(Err(m)),
        Err(Stop::Ask(w, n)) => Step::AskExpression(w, n),
    }
}

/// Formatting `source`: with rustfmt, the whole text goes through rustfmt
/// first (its error is the result), then the invocation bodies are laid out.
pub open spec fn source_step(
    source: Seq<char>,
    path: Option<Seq<char>>,
    use_rustfmt: bool,
    answers: &RustfmtAnswers,
) -> Step {
    let ctx = ctx_of(use_rustfmt, answers);
    if use_rustfmt {
        match source_lookup(answers.sources@, 0, source) {
            None => Step::AskSource(source),
            Some(Err(e)) => Step::Done(Err(e)),
            Some(Ok(f)) => finish(f, path, ctx),
        }
    } else {
        finish(source, path, ctx)
    }
}

fn lookup_source<'a>(answers: &'a RustfmtAnswers, source: &str) -> (r: Option<&'a Result<String, String>>)
    ensures
        match (r, source_lookup(answers.sources@, 0, source@)) {
            (None, None) => true,
            (Some(Ok(t)), Some(Ok(u))) => t@ == u,
            (Some(Err(m)), Some(Err(n))) => m@ == n,
            _ => false,
        },
{
    let n = answers.sources.len();
    let wanted = string_of(chars_of(source).as_slice());
    let mut k: usize = 0;
    while k < n
        invariant
            n == answers.sources@.len(),
            wanted@ == source@,
            k <= n,
            source_lookup(answers.sources@, k as int, source@) == source_lookup(answers.sources@, 0, source@),
        decreases n - k,
    {
        let a = &answers.sources[k];
        if a.source == wanted {
            return Some(&a.output);
        }
        k = k + 1;
    }
    None
}

fn finish_exec(t: &[char], path: Option<&[char]>, rustfmt: bool, answers: &RustfmtAnswers) -> (r: FormatStep)
    ensures
        step_of(r) == finish(t@, path_view(path), ctx_of(rustfmt, answers)),
{
    match format_layouts_in_source(t, path, rustfmt, answers) {
        Ok(o) => FormatStep::Done(Ok(string_of(o.as_slice()))),
        Err(Halt::Fail(m)) => FormatStep::Done(Err(string_of(m.as_slice()))),
        Err(Halt::Ask(w, n)) => FormatStep::Rustfmt(
            RustfmtRequest::Expression { wrapper: string_of(w.as_slice()), max_width: n },
        ),
    }
}

/// Formats a Rust source text. With `use_rustfmt`, the text first goes
/// through rustfmt, and Rust expressions in the DSL are laid out by rustfmt;
/// each answer that the step needs and `answers` lacks comes back as a
/// request. `path` names the source in diagnostics (`<stdin>` when absent).
pub fn format_source(source: &str, path: Option<&str>, use_rustfmt: bool, answers: &RustfmtAnswers) -> (r:
    FormatStep)
    ensures
        step_of(r) == source_step(
            source@,
            match path {
                Some(p) => Some(p@),
                None => None,
            },
            use_rustfmt,
            answers,
        ),
{
    let p = match path {
        Some(p) => Some(chars_of(p)),
        None => None,
    };
    let pv: Option<&[char]> = match &p {
        Some(v) => Some(v.as_slice()),
        None => None,
    };
    if use_rustfmt {
        match lookup_source(answers, source) {
            None => FormatStep::Rustfmt(RustfmtRequest::Source { source: string_of(chars_of(source).as_slice()) }),
            Some(Err(e)) => FormatStep::Done(Err(string_of(chars_of(e.as_str()).as_slice()))),
            Some(Ok(f)) => {
                let text = chars_of(f.as_str());
                finish_exec(text.as_slice(), pv, use_rustfmt, answers)
            },
        }
    } else {
        let text = chars_of(source);
        finish_exec(text.as_slice(), pv, use_rustfmt, answers)
    }
}

} // verus!
