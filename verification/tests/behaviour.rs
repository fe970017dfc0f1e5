use nestix_fmt::lexer::{lex_nodes, lex_until, Node};
use nestix_fmt::format::{rust_expression_after_parse, ExpressionAnswer, Halt, RustfmtAnswers, SourceAnswer};
use nestix_fmt::source::{format_source, FormatStep, RustfmtRequest};

fn no_answers() -> RustfmtAnswers {
    RustfmtAnswers { sources: Vec::new(), expressions: Vec::new() }
}

fn format_plain(source: &str, path: Option<&str>) -> Result<String, String> {
    match format_source(source, path, false, &no_answers()) {
        FormatStep::Done(result) => result,
        FormatStep::Rustfmt(_) => panic!("rustfmt requested while it is disabled"),
    }
}

#[test]
fn source_without_invocations_is_returned_unchanged() {
    let input = "fn main() {\n    let x  =  layout;\n    println!(\"layout! {{ x }}\");\n}\n";
    assert_eq!(format_plain(input, None).unwrap(), input);
}

#[test]
fn text_around_bodies_is_kept() {
    let input = "fn  a( ){ let v = layout!{Root}; }   // end";
    let formatted = format_plain(input, None).unwrap();
    assert!(formatted.starts_with("fn  a( ){ let v = layout!{"));
    assert!(formatted.ends_with("}; }   // end"));
    assert_eq!(formatted, "fn  a( ){ let v = layout!{\n    Root\n}; }   // end");
}

#[test]
fn closing_delimiter_returns_to_the_line_indentation() {
    let input = "fn f() {\n\tlet v = layout!(Root);\n}";
    let formatted = format_plain(input, None).unwrap();
    assert_eq!(formatted, "fn f() {\n\tlet v = layout!(\n        Root\n    );\n}");
}

#[test]
fn rustfmt_is_asked_for_the_whole_source_first() {
    let input = "layout! { Root }";
    match format_source(input, None, true, &no_answers()) {
        FormatStep::Rustfmt(RustfmtRequest::Source { source }) => assert_eq!(source, input),
        _ => panic!("expected a request for the whole source"),
    }
}

#[test]
fn rustfmt_failure_is_the_result() {
    let input = "fn broken( {";
    let answers = RustfmtAnswers {
        sources: vec![SourceAnswer {
            source: input.to_string(),
            output: Err("<stdin>: rustfmt failed: error".to_string()),
        }],
        expressions: Vec::new(),
    };
    match format_source(input, None, true, &answers) {
        FormatStep::Done(Err(message)) => assert_eq!(message, "<stdin>: rustfmt failed: error"),
        _ => panic!("expected the rustfmt error"),
    }
}

#[test]
fn expression_request_names_wrapper_and_width() {
    let input = "layout! { if first_condition_with_a_long_name() && second_condition_with_a_long_name() && third_condition_with_a_long_name() { Ready } }";
    let answers = RustfmtAnswers {
        sources: vec![SourceAnswer { source: input.to_string(), output: Ok(input.to_string()) }],
        expressions: Vec::new(),
    };
    match format_source(input, None, true, &answers) {
        FormatStep::Rustfmt(RustfmtRequest::Expression { wrapper, max_width }) => {
            assert_eq!(
                wrapper,
                "fn __nestix_fmt() {\n    let __nestix_value = first_condition_with_a_long_name() && second_condition_with_a_long_name() && third_condition_with_a_long_name();\n}\n"
            );
            assert_eq!(max_width, 118);
        },
        _ => panic!("expected an expression request"),
    }
}

#[test]
fn failed_expression_answer_falls_back_to_tokens() {
    let input = "layout! { if first_condition_with_a_long_name() && second_condition_with_a_long_name() && third_condition_with_a_long_name() { Ready } }";
    let wrapper = "fn __nestix_fmt() {\n    let __nestix_value = first_condition_with_a_long_name() && second_condition_with_a_long_name() && third_condition_with_a_long_name();\n}\n";
    let answers = RustfmtAnswers {
        sources: vec![SourceAnswer { source: input.to_string(), output: Ok(input.to_string()) }],
        expressions: vec![ExpressionAnswer { wrapper: wrapper.to_string(), max_width: 118, output: None }],
    };
    match format_source(input, None, true, &answers) {
        FormatStep::Done(Ok(formatted)) => assert_eq!(
            formatted,
            "layout! {\n    if first_condition_with_a_long_name() && second_condition_with_a_long_name() && third_condition_with_a_long_name() {\n        Ready\n    }\n}"
        ),
        _ => panic!("expected a result"),
    }
}

#[test]
fn unclosed_delimiter_is_reported_with_position() {
    let error = format_plain("fn f() {\n  layout! { Root ( }\n", Some("src/view.rs")).unwrap_err();
    assert!(error.starts_with("src/view.rs:2:"), "{error}");
}

#[test]
fn invalid_layout_syntax_is_reported() {
    let error = format_plain("layout! { if ready }", None).unwrap_err();
    assert!(error.starts_with("<stdin>:1:"), "{error}");
    assert!(error.contains("invalid layout syntax: "), "{error}");
    assert!(error.contains("expected curly braces"), "{error}");
}

#[test]
fn invalid_rust_type_in_layout_is_reported_by_syn() {
    let error = format_plain("layout! { = }", None).unwrap_err();
    assert!(error.contains("invalid layout syntax: expected one of"), "{error}");
}

#[test]
fn for_binding_must_be_an_identifier() {
    let error = format_plain("layout! { for 1 in items { Row } }", None).unwrap_err();
    assert!(error.contains("invalid layout syntax: expected identifier"), "{error}");
}

#[test]
fn insertion_must_be_an_expression() {
    let error = format_plain("layout! { $(let) }", None).unwrap_err();
    assert!(error.contains("invalid layout syntax: "), "{error}");
}

#[test]
fn closure_parameters_are_checked() {
    let ok = format_plain("layout! { List |item: Item| { Row(.item = item) } }", None).unwrap();
    assert_eq!(ok, "layout! {\n    List |item: Item| {\n        Row(.item = item)\n    }\n}");
    let error = format_plain("layout! { List |1| { Row } }", None).unwrap_err();
    assert!(error.contains("invalid layout syntax: "), "{error}");
}

#[test]
fn captures_and_bindings_are_formatted() {
    let formatted = format_plain("layout!{yield row@Row[count,label:name.clone()]{Text}}", None).unwrap();
    assert_eq!(
        formatted,
        "layout!{\n    yield row @ Row [count,\n                      label: name.clone()] {\n        Text\n    }\n}"
    );
}

#[test]
fn unsupported_pseudo_selector_is_reported() {
    let error = format_plain("style! { .a:hover { gap: 1px; } }", None).unwrap_err();
    assert!(error.contains("invalid style syntax: unsupported pseudo selector"), "{error}");
}

#[test]
fn missing_colon_in_style_property_is_reported() {
    let error = format_plain("style! { .a { gap 1px; } }", None).unwrap_err();
    assert!(error.contains("invalid style syntax: expected `:`"), "{error}");
}

#[test]
fn empty_nth_child_is_reported() {
    let error = format_plain("style! { .a:nth_child() { gap: 1px; } }", None).unwrap_err();
    assert!(error.contains("expected an `An+B` expression in `nth_child()`"), "{error}");
}

#[test]
fn units_are_set_off_only_after_numbers() {
    let formatted = format_plain("style!{.a{width:10px;height:1.5em;font:px;margin:a1px;}}", None).unwrap();
    assert_eq!(
        formatted,
        "style!{\n    .a {\n        width: 10 px;\n        height: 1.5 em;\n        font: px;\n        margin: a1px;\n    }\n}"
    );
}

#[test]
fn empty_rule_is_kept_on_one_line() {
    let formatted = format_plain("style!{.a{}}", None).unwrap();
    assert_eq!(formatted, "style!{\n    .a {}\n}");
}

#[test]
fn layout_and_style_validate_directly() {
    assert!(nestix_fmt::syntax::validate("Root { Child }").is_ok());
    let error = nestix_fmt::syntax::validate("if x").unwrap_err();
    assert_eq!(error.offset, 4);
    assert!(nestix_fmt::style_syntax::validate(".a { gap: 1px; }", false).is_ok());
    assert!(nestix_fmt::style_syntax::validate("[a, b] .a { gap: $(a); }", true).is_ok());
    assert!(nestix_fmt::style_syntax::validate("[a, b] .a { gap: $(a); }", false).is_err());
}

#[test]
fn capture_must_be_an_expression() {
    let error = format_plain("layout! { Row[count, label: let] }", None).unwrap_err();
    assert!(error.contains("invalid layout syntax: "), "{error}");
}

#[test]
fn comment_lines_lose_trailing_unicode_whitespace() {
    let formatted = format_plain("layout! { // note\u{A0}\n Root }", None).unwrap();
    assert_eq!(formatted, "layout! {\n    // note\n    Root\n}");
}

#[test]
fn brace_after_a_non_ascii_letter_is_spaced() {
    let formatted = format_plain("style!{.a{m:$(Maß{x:1});}}", None).unwrap();
    assert_eq!(formatted, "style!{\n    .a {\n        m: $(Maß { x: 1 });\n    }\n}");
}

#[test]
fn answered_requests_are_not_asked_again() {
    let input = "layout! { if first_condition_with_a_long_name() && second_condition_with_a_long_name() && third_condition_with_a_long_name() { Ready } }";
    let mut answers = RustfmtAnswers { sources: Vec::new(), expressions: Vec::new() };
    let mut seen: Vec<String> = Vec::new();
    for _ in 0..10 {
        match format_source(input, None, true, &answers) {
            FormatStep::Done(result) => {
                assert!(result.is_ok());
                return;
            },
            FormatStep::Rustfmt(RustfmtRequest::Source { source }) => {
                assert!(!seen.contains(&source));
                seen.push(source.clone());
                answers.sources.push(SourceAnswer { source: source.clone(), output: Ok(source) });
            },
            FormatStep::Rustfmt(RustfmtRequest::Expression { wrapper, max_width }) => {
                let key = format!("{max_width}:{wrapper}");
                assert!(!seen.contains(&key));
                seen.push(key);
                answers.expressions.push(ExpressionAnswer { wrapper, max_width, output: None });
            },
        }
    }
    panic!("formatting did not finish");
}

#[test]
fn expression_answers_are_cut_out_and_indented() {
    let expression: Vec<char> = "call(a, b)".chars().collect();
    let none = no_answers();
    assert!(matches!(rust_expression_after_parse(&expression, false, 10, 4, true, &none), Ok(None)));
    assert!(matches!(rust_expression_after_parse(&expression, true, 10, 4, false, &none), Ok(None)));
    let wrapper = "fn __nestix_fmt() {\n    let __nestix_value = call(a, b);\n}\n".to_string();
    let answered = RustfmtAnswers {
        sources: Vec::new(),
        expressions: vec![ExpressionAnswer {
            wrapper: wrapper.clone(),
            max_width: 115,
            output: Some("fn __nestix_fmt() {\n    let __nestix_value = call(\n        a,\n        b,\n    );\n}\n".to_string()),
        }],
    };
    match rust_expression_after_parse(&expression, true, 10, 4, true, &answered) {
        Ok(Some(text)) => assert_eq!(text.into_iter().collect::<String>(), "call(\n        a,\n        b,\n    )"),
        _ => panic!("expected the answer"),
    }
    match rust_expression_after_parse(&expression, true, 12, 4, true, &answered) {
        Err(Halt::Ask(w, width)) => {
            assert_eq!(w.into_iter().collect::<String>(), wrapper);
            assert_eq!(width, 113);
        },
        _ => panic!("expected a request"),
    }
}

#[test]
fn layout_parse_reads_a_body() {
    assert!(nestix_fmt::syntax::Layout::parse("Root { if ready { Child } else { Other } }").is_ok());
    let error = nestix_fmt::syntax::Layout::parse("Root { for 1 in xs { Row } }").err().unwrap();
    assert_eq!(error.offset, 11);
    assert_eq!(error.message, "expected identifier");
}

#[test]
fn a_double_closing_angle_leaves_generic_arguments_open() {
    assert!(nestix_fmt::syntax::validate("Root<Vec<A>> { Child }").is_ok());
    let formatted = format_plain("layout! {Root<Vec<A>>{Child}}", None);
    assert_eq!(formatted, Err("<stdin>:1:10: could not format layout item beginning with `Root<Vec<`: unclosed generic arguments in component type".to_string()));
}

#[test]
fn token_tree_spans_the_text() {
    let text: Vec<char> = "Root { a>>b // note  \n }".chars().collect();
    let nodes = lex_nodes(&text).unwrap();
    assert_eq!(nodes.len(), 2);
    match &nodes[0] {
        Node::Token { text: t, start, end } => {
            assert_eq!(t.iter().collect::<String>(), "Root");
            assert_eq!((*start, *end), (0, 4));
        }
        _ => panic!("expected a token"),
    }
    match &nodes[1] {
        Node::Group { open, close, nodes: inner, start, end } => {
            assert_eq!((*open, *close, *start, *end), ('{', '}', 5, 24));
            let texts: Vec<String> = inner
                .iter()
                .map(|node| match node {
                    Node::Token { text, .. } | Node::Comment { text, .. } => text.iter().collect(),
                    Node::Group { .. } => String::new(),
                })
                .collect();
            assert_eq!(texts, vec!["a", ">>", "b", "// note"]);
        }
        _ => panic!("expected a group"),
    }
}

/// Formats without rustfmt, then formats the result again.
fn twice(source: &str) -> (String, String) {
    let once = format_plain(source, None).unwrap();
    let again = format_plain(&once, None).unwrap();
    (once, again)
}

#[test]
fn formatting_a_formatted_text_changes_nothing() {
    let inputs = [
        "layout! { Widget(.value = a // c\n + b) }",
        "layout! { if a // c\n && b { X } }",
        "layout! { Root { X } // trailing\n }",
        "layout! { Root(.a = 1, /* x */ .b = 2) }",
        "layout! { Root /* a */ /* b */ { X } }",
        "layout! { Root { X }, Y, }",
        "layout! { A(.x = \"very long string value that goes on and on and on and on and on and on and on and on and on\") }",
        "layout! { Root(.a = |x| x + 1) }",
        "layout! { Root(.a = { let x = 1; x }) }",
        "fn f() {\n    let v = layout! { Root { layout! { X } } };\n}",
        "layout! { Root[x, y: z] { X } }",
        "layout! { Root $(a) { X } }",
        "layout! { Root(.child = layout! { A { B } }) }",
        "layout! { Root { X(.c = layout! { A { B { C } } }) } }",
        "fn f() {\n        let v = layout! { Root { X(.c = layout! { A { B } }) } };\n}",
        "layout! { Root { X // c\n } }",
        "layout! { if a { X } /* c */ else { Y } }",
        "layout! { if a { X } else if b { Y } else { Z } }",
        "layout! { Root(.a = x.map(|v| v * 2).collect::<Vec<_>>()) }",
        "layout! { Root(.on_click = move |e| { handle(e); }) }",
        "style! { .a { color: red; } .b > .c { x: y; margin: $(m); } }",
        "computed_style! { [a, b: c] .x { y: $(a); } }",
        "style! { .a { transition: width 420ms ease_in_out, height 1px; } }",
        "layout! { Root { /* a\n   b */ X } }",
        "layout! { Root(.a = x /* a\n   b */ + y) }",
        "layout! {\n  // only a comment\n}",
        "layout! { Root(.value = \"a\nb\") }",
        "layout! { Root(.v = r#\"x\"#) { for a in b where key = |a| a.id { A } } }",
        "layout! { yield Root }",
        "layout! { slot @ Root { X } }",
        "layout! { Root(.a = some_function_with_a_long_name(argument_one, argument_two, argument_three, four)) }",
        "layout! { Root { A B C } }",
        "layout! { Root(.a = [1, 2, 3]) }",
        "style! { .a { } }",
        "layout! { Root() }",
        "layout! { Root {} }",
    ];
    for input in inputs {
        let (once, again) = twice(input);
        assert_eq!(once, again, "{input:?}");
    }
}

#[test]
fn separate_ampersands_join_into_one_token_on_a_second_pass() {
    let (once, again) = twice("layout! { Root(.f = &&x, .g = & &x) }");
    assert_eq!(once, "layout! {\n    Root(.f = && x,\n         .g = &&x)\n}");
    assert_eq!(again, "layout! {\n    Root(.f = && x,\n         .g = && x)\n}");
}

#[test]
fn a_line_comment_ending_a_prop_takes_the_comma_into_it() {
    let (once, again) = twice("layout! { Root(.a = x // c1\n // c2\n) }");
    assert_eq!(once, "layout! {\n    Root(\n        .a = x\n// c1\n        \n// c2,\n    )\n}");
    assert_eq!(again, "layout! {\n    Root(\n        .a = x\n// c1\n        \n// c2,,\n    )\n}");
}

#[test]
fn comments_in_every_position_survive() {
    let inputs = [
        "layout! { Root /* c1 */ :: X { A } }",
        "layout! { if /* c2 */ a { X } }",
        "layout! { if a /* c3 */ { X } }",
        "layout! { if a { X } /* c5 */ else if b { Y } }",
        "layout! { for /* c6 */ x in y { A } }",
        "layout! { for x /* c7 */ in y { A } }",
        "layout! { for x in y where key = /* c8 */ |x| x { A } }",
        "layout! { Root[a /* c9 */] { X } }",
        "layout! { Root(.a = |x /* c10 */| x) }",
        "layout! { Root $( /* c11 */ a) { X } }",
        "layout! { slot /* c12 */ @ Root { X } }",
        "layout! { Root(/* c14 */) }",
        "layout! { Root(.a /* c15 */ = 1) }",
        "layout! { Root(.a = 1 /* c16 */) }",
        "layout! { Root { A } /* c17 */ }",
        "layout! { Root /* c18 */ }",
        "layout! { Root(.a = 1) /* c19 */ { X } }",
        "layout! { Root(.a = 1) [b] /* c20 */ { X } }",
        "layout! { Root(.a = { /* c21 */ x }) }",
        "layout! { Root(.a = { x; /* c22 */ }) }",
        "layout! { Root(.a = { x; // c23\n y }) }",
        "style! { .a /* c24 */ .b { x: y; } }",
        "style! { .a { x: /* c25 */ y; } }",
        "style! { .a { /* c26 */ x: y; } }",
        "style! { /* c27 */ .a { x: y; } }",
        "style! { .a { x: y; } /* c28 */ }",
        "style! { .a { x: $( /* c29 */ y); } }",
        "style! { .a:nth_child(/* c30 */ 2) { x: y; } }",
        "computed_style! { [a /* c31 */] .x { y: z; } }",
        "style! { .a { .b { x: y; } /* c32 */ } }",
        "layout! { &/* c35 */ Root { A } }",
        "layout! { Root(.a = x, // c36\n .b = y) }",
        "layout! { Root(.a = x.y(/* c37 */)) }",
        "layout! { for x in y { /* c38 */ } }",
        "layout! { if a { } /* c39 */ }",
        "layout! { Root { // greeting\n Text(\"hello\") /* tail */ Button } }",
        "layout! { Root /* children follow */ { Text(\"hi\") } }",
        "layout! { Root { /* first line\n      second line */ X } }",
        "style! { .a { x: y; // c40\n } }",
        "style! { .aaaaaaaaaaaaaaaaaaaaaaaaaaaaaaaaaaaaaaaa /* c41 */, .bbbbbbbbbbbbbbbbbbbbbbbbbbbbbbbbbbbbbbbbbbbbbbbbbbbbbbbb, .cccccccccccccccccccccccccccc { x: y; } }",
        "style! { .a { x: y /* c42\n   more */; } }",
    ];
    for input in inputs {
        let out = format_plain(input, None).unwrap();
        let start = input.find("/*").or_else(|| input.find("//")).unwrap();
        let comment = if input[start..].starts_with("/*") {
            &input[start..start + input[start..].find("*/").unwrap() + 2]
        } else {
            &input[start..start + input[start..].find('\n').unwrap()]
        };
        for line in comment.lines() {
            assert!(out.contains(line.trim()), "{input:?} lost {line:?}: {out:?}");
        }
    }
}

#[test]
fn lexing_to_the_end_leaves_the_index_at_the_length() {
    let text: Vec<char> = "Root { a } // x  ".chars().collect();
    let mut index = 0usize;
    let nodes = lex_until(&text, &mut index, None).unwrap();
    assert_eq!(index, text.len());
    assert_eq!(nodes.len(), 3);
    let mut far = text.len() + 3;
    assert_eq!(lex_until(&text, &mut far, None).unwrap().len(), 0);
    assert_eq!(far, text.len() + 3);
    let error = lex_until(&text, &mut far, Some('}')).err().unwrap();
    assert_eq!(error.0, text.len());
    assert_eq!(error.1.iter().collect::<String>(), "expected `}`");
}
