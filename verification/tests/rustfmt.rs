//! Formatting with rustfmt in the loop. No rustfmt runs here: the answers are
//! what rustfmt prints for these inputs, written out.
use nestix_fmt::format::{ExpressionAnswer, RustfmtAnswers, SourceAnswer};
use nestix_fmt::source::{format_source, FormatStep, RustfmtRequest};

const WIDTH: usize = 100;
const MARKER: &str = "    let __nestix_value = ";

/// What rustfmt prints for a whole source text: the known reformattings, else
/// the text itself with a final line feed.
fn rustfmt_source(text: &str) -> String {
    let known: [(&str, &str); 3] = [
        (
            "fn view(){layout! {Root{Child}}}",
            "fn view() {\n    layout! {Root{Child}}\n}\n",
        ),
        (
            "fn  view( ){let value=1+2;layout! {Root}}",
            "fn view() {\n    let value = 1 + 2;\n    layout! {Root}\n}\n",
        ),
        (
            r#"fn styles(){let sheet=style!{.panel{transition:width 420ms ease_in_out,height 420ms ease_in_out;margin:$({calls+=1;WithAuto::from(8.0)});}};}"#,
            "fn styles() {\n    let sheet = style!{.panel{transition:width 420ms ease_in_out,height 420ms ease_in_out;margin:$({calls+=1;WithAuto::from(8.0)});}};\n}\n",
        ),
    ];
    for (input, output) in known {
        if input == text {
            return output.to_string();
        }
    }
    if text.ends_with('\n') {
        text.to_string()
    } else {
        format!("{text}\n")
    }
}

/// What rustfmt prints for the expression wrapper: the expression unchanged
/// when its line fits, else the known layouts.
fn rustfmt_expression(wrapper: &str, max_width: usize) -> Option<String> {
    let start = wrapper.find(MARKER).unwrap() + MARKER.len();
    let end = wrapper.rfind(";\n}").unwrap();
    let expression = &wrapper[start..end];
    if let Some(body) = known_layout(expression) {
        return Some(format!("fn __nestix_fmt() {{\n{MARKER}{body};\n}}\n"));
    }
    if MARKER.len() + expression.len() + 1 <= max_width {
        return Some(wrapper.to_string());
    }
    panic!("no rustfmt layout known for {expression:?} at width {max_width}");
}

/// The multi-line layouts rustfmt gives the long expressions and the blocks
/// of these tests.
fn known_layout(expression: &str) -> Option<String> {
    let calls: [(&str, &str); 2] = [
        (
            "build_a_value_with_a_very_long_name",
            "build_a_value_with_a_very_long_name(\n        first_argument_with_a_long_name,\n        second_argument_with_a_long_name,\n        third_argument_with_a_long_name,\n    )",
        ),
        (
            "load_every_item_from_a_very_long_source_name",
            "load_every_item_from_a_very_long_source_name(\n        first_source_with_a_long_name,\n        second_source_with_a_long_name,\n        third_source_with_a_long_name,\n    )",
        ),
    ];
    for (callee, layout) in calls {
        if expression.starts_with(callee) {
            return Some(layout.to_string());
        }
    }
    if expression.starts_with("first_condition_with_a_long_name()") {
        return Some(
            "first_condition_with_a_long_name()\n        && second_condition_with_a_long_name()\n        && third_condition_with_a_long_name()"
                .to_string(),
        );
    }
    if expression.starts_with("callback!") {
        return Some(
            "callback!(\n        [state] || {\n            state.update(|value| *value += 1);\n            notify_every_interested_observer_with_a_long_name(\n                first_observer_with_a_long_name,\n                second_observer_with_a_long_name,\n            );\n        }\n    )"
                .to_string(),
        );
    }
    if expression.starts_with("[state] ||") {
        return Some(
            "[state] || {\n        state.update(|value| *value += 1);\n        notify_every_interested_observer_with_a_long_name(\n            first_observer_with_a_long_name,\n            second_observer_with_a_long_name,\n        );\n    }"
                .to_string(),
        );
    }
    if expression.starts_with("{") && expression.contains("calls") {
        return Some("{\n        calls += 1;\n        WithAuto::from(8.0)\n    }".to_string());
    }
    None
}

/// Formats with rustfmt, answering each request from the layouts above.
fn format_default(source: &str) -> Result<String, String> {
    let mut answers = RustfmtAnswers { sources: Vec::new(), expressions: Vec::new() };
    loop {
        match format_source(source, None, true, &answers) {
            FormatStep::Done(result) => return result,
            FormatStep::Rustfmt(RustfmtRequest::Source { source }) => {
                let output = Ok(rustfmt_source(&source));
                answers.sources.push(SourceAnswer { source, output });
            },
            FormatStep::Rustfmt(RustfmtRequest::Expression { wrapper, max_width }) => {
                let output = rustfmt_expression(&wrapper, max_width);
                answers.expressions.push(ExpressionAnswer { wrapper, max_width, output });
            },
        }
    }
}

#[test]
fn rustfmt_formats_complete_source_before_the_layout() {
    let input = "fn  view( ){let value=1+2;layout! {Root}}";
    let formatted = format_default(input).unwrap();
    assert!(formatted.starts_with("fn view() {\n    let value = 1 + 2;"));
    assert!(formatted.contains("layout! {\n        Root\n    }"));
    assert_eq!(format_default(&formatted).unwrap(), formatted);
}

#[test]
fn rustfmt_wraps_long_prop_expressions() {
    let input = r#"layout! { Widget(.value = build_a_value_with_a_very_long_name(first_argument_with_a_long_name, second_argument_with_a_long_name, third_argument_with_a_long_name)) }"#;
    let formatted = format_default(input).unwrap();
    assert!(formatted.contains("build_a_value_with_a_very_long_name(\n"));
    assert!(formatted.contains("first_argument_with_a_long_name,"));
    assert!(formatted.lines().all(|line| line.len() <= WIDTH));
    assert_eq!(format_default(&formatted).unwrap(), formatted);
}

#[test]
fn rustfmt_formats_blocks_inside_prop_macros() {
    let input = r#"layout! { Button(.on_click = callback!([state] || { state.update(|value| *value += 1); notify_every_interested_observer_with_a_long_name(first_observer_with_a_long_name, second_observer_with_a_long_name); })) }"#;
    let formatted = format_default(input).unwrap();
    assert!(formatted.contains("callback!(\n"));
    assert!(formatted.contains("state.update(|value| *value += 1);"));
    assert!(formatted.contains("notify_every_interested_observer_with_a_long_name(\n"));
    assert!(formatted.lines().all(|line| line.len() <= WIDTH));
    assert_eq!(format_default(&formatted).unwrap(), formatted);
}

#[test]
fn rustfmt_wraps_long_conditions_and_loop_expressions() {
    let input = r#"layout! { if first_condition_with_a_long_name() && second_condition_with_a_long_name() && third_condition_with_a_long_name() { Ready } for item in load_every_item_from_a_very_long_source_name(first_source_with_a_long_name, second_source_with_a_long_name, third_source_with_a_long_name) where key = |item| item.identifier_with_a_long_name().clone() { Row(.item = item) } }"#;
    let formatted = format_default(input).unwrap();
    assert!(formatted.contains("\n        && second_condition"));
    assert!(formatted.contains("load_every_item_from_a_very_long_source_name(\n"));
    assert!(formatted.lines().all(|line| line.len() <= WIDTH));
    assert_eq!(format_default(&formatted).unwrap(), formatted);
}

#[test]
fn formats_rust_blocks_and_comma_separated_style_values() {
    let input = r#"fn styles(){let sheet=style!{.panel{transition:width 420ms ease_in_out,height 420ms ease_in_out;margin:$({calls+=1;WithAuto::from(8.0)});}};}"#;
    let formatted = format_default(input).unwrap();
    assert!(formatted.contains("transition: width 420ms ease_in_out, height 420ms ease_in_out;"));
    assert!(formatted.contains("margin: $({\n"));
    assert!(formatted.contains("calls += 1;"));
    assert_eq!(format_default(&formatted).unwrap(), formatted);
}

#[test]
fn stdin_formats_to_stdout() {
    assert_eq!(
        format_default("fn view(){layout! {Root{Child}}}").unwrap(),
        "fn view() {\n    layout! {\n        Root {\n            Child\n        }\n    }\n}\n"
    );
}

#[test]
fn check_reports_then_in_place_formatting_fixes_a_file() {
    let source = "layout! {Root{Child}}";
    let formatted = format_default(source).unwrap();
    assert_eq!(nestix_fmt::cli::check_status(source, &formatted), 1);
    let again = format_default(&formatted).unwrap();
    assert_eq!(nestix_fmt::cli::check_status(&formatted, &again), 0);
}
