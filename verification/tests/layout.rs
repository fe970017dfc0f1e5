use nestix_fmt::format::RustfmtAnswers;
use nestix_fmt::source::{format_source, FormatStep};

fn format_dsl(source: &str) -> Result<String, String> {
    let answers = RustfmtAnswers { sources: Vec::new(), expressions: Vec::new() };
    match format_source(source, None, false, &answers) {
        FormatStep::Done(result) => result,
        FormatStep::Rustfmt(_) => panic!("rustfmt requested while it is disabled"),
    }
}

#[test]
fn formats_nested_layout() {
    let input = "fn view(){layout! {Root{Button(.title=\"Go\"){Text(\"Hi\")}if ready.get(){Ok}else{No}}}}";
    let expected = r#"fn view(){layout! {
    Root {
        Button(.title = "Go") {
            Text("Hi")
        }
        if ready.get() {
            Ok
        } else {
            No
        }
    }
}}"#;
    assert_eq!(format_dsl(input).unwrap(), expected);
}

#[test]
fn leaves_non_layout_source_untouched() {
    let input = "fn  odd_spacing( ) { let text = r#\"layout! { Nope }\"#; }\n";
    assert_eq!(format_dsl(input).unwrap(), input);
}

#[test]
fn preserves_comments() {
    let input = "layout! { Root { // greeting\n Text(\"hello\") /* tail */ Button } }";
    let formatted = format_dsl(input).unwrap();
    assert!(formatted.contains("// greeting"));
    assert!(formatted.contains("/* tail */"));
    assert_eq!(format_dsl(&formatted).unwrap(), formatted);
}

#[test]
fn preserves_comment_between_an_element_and_children() {
    let input = "layout! { Root /* children follow */ { Text(\"hi\") } }";
    let formatted = format_dsl(input).unwrap();
    assert!(formatted.contains("/* children follow */"));
    assert!(formatted.contains("Root {"));
    assert_eq!(format_dsl(&formatted).unwrap(), formatted);
}

#[test]
fn formats_qualified_and_alternate_delimiters() {
    let input = "let a=nestix::layout!(ui::Root<Model>{ui::Child});";
    let formatted = format_dsl(input).unwrap();
    assert_eq!(
        formatted,
        "let a=nestix::layout!(\n    ui::Root<Model> {\n        ui::Child\n    }\n);"
    );
}

#[test]
fn formats_nested_layout_macros() {
    let input = "layout! { $(layout! { Root{Child} }) }";
    let formatted = format_dsl(input).unwrap();
    assert!(formatted.contains("$(layout! {\n"));
    assert!(formatted.contains("Root {\n"));
    assert!(formatted.contains("Child\n"));
    assert_eq!(format_dsl(&formatted).unwrap(), formatted);
}

#[test]
fn ignores_layout_tokens_inside_quote() {
    let input = "quote! { layout! { #children } }";
    assert_eq!(format_dsl(input).unwrap(), input);
}
