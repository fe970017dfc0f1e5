use nestix_fmt::format::RustfmtAnswers;
use nestix_fmt::source::{format_source, FormatStep};

fn format_dsl(source: &str) -> Result<String, String> {
    let answers = RustfmtAnswers { sources: Vec::new(), expressions: Vec::new() };
    match format_source(source, None, false, &answers) {
        FormatStep::Done(result) => result,
        FormatStep::Rustfmt(_) => panic!("rustfmt requested while it is disabled"),
    }
}

#[test]
fn formats_style_rules_declarations_and_insertions() {
    let input = r#"let styles=style!{ // shared
$(base).app,.panel{padding:2 em;--label:$(format!("panel-{}",id));>.child{font_weight:semi-bold;}&:not(.disabled){bg_color:#EEF2F8;}}};"#;
    let expected = r#"let styles=style!{
    // shared
    $(base)

    .app, .panel {
        padding: 2 em;
        --label: $(format!("panel-{}", id));

        > .child {
            font_weight: semi-bold;
        }

        &:not(.disabled) {
            bg_color: #EEF2F8;
        }
    }
};"#;
    let formatted = format_dsl(input).unwrap();
    assert_eq!(formatted, expected);
    assert_eq!(format_dsl(&formatted).unwrap(), formatted);
}

#[test]
fn formats_computed_style_with_and_without_captures() {
    let captured = "computed_style!([color,count].counter{bg_color:$(color.get());gap:10px;})";
    let expected = "computed_style!(\n    [color, count]\n\n    .counter {\n        bg_color: $(color.get());\n        gap: 10 px;\n    }\n)";
    let formatted = format_dsl(captured).unwrap();
    assert_eq!(formatted, expected);
    assert_eq!(format_dsl(&formatted).unwrap(), formatted);

    let uncaptured = "computed_style!{.counter{bg_color:white;}}";
    let expected = "computed_style!{\n    .counter {\n        bg_color: white;\n    }\n}";
    assert_eq!(format_dsl(uncaptured).unwrap(), expected);
}

#[test]
fn formats_qualified_style_macros_and_ignores_them_inside_quote() {
    let input = "let a=nestix_native::style!(.a{gap:1px;}); let b=quote!{computed_style!{.b{gap:2px;}}};";
    let expected = "let a=nestix_native::style!(\n    .a {\n        gap: 1 px;\n    }\n); let b=quote!{computed_style!{.b{gap:2px;}}};";
    assert_eq!(format_dsl(input).unwrap(), expected);
}

#[test]
fn separates_numbers_from_style_units() {
    let input = "style!{.panel{width:1px;margin_left:-2px;transition:width 420ms ease;height:3;}}";
    let expected = "style!{\n    .panel {\n        width: 1 px;\n        margin_left: -2 px;\n        transition: width 420ms ease;\n        height: 3;\n    }\n}";
    let formatted = format_dsl(input).unwrap();
    assert_eq!(formatted, expected);
    assert_eq!(format_dsl(&formatted).unwrap(), formatted);
}

#[test]
fn reports_invalid_style_syntax() {
    let error = format_dsl("style! { .panel { gap: 10 px } }").unwrap_err();
    assert!(error.contains("invalid style syntax"));
    assert!(error.contains("expected `;`"));
}
