use nestix_fmt::cli::{check_status, is_rust_file_name, plan_batch, read_metadata, roots_of_selection, select_package_roots, Package};
use nestix_fmt::format::RustfmtAnswers;
use nestix_fmt::source::{format_source, FormatStep};

fn package(id: &str, name: &str, manifest: &str, local: bool) -> Package {
    Package {
        id: id.to_string(),
        name: Some(name.to_string()),
        manifest_path: Some(manifest.to_string()),
        local,
    }
}

fn workspace() -> Vec<Package> {
    vec![
        package("app 0.1.0", "app", "/ws/app/Cargo.toml", true),
        package("core 0.1.0", "core", "/ws/app/core/Cargo.toml", true),
        package("serde 1.0.0", "serde", "/registry/serde/Cargo.toml", false),
        package("tool 0.1.0", "tool", "/ws/tool/Cargo.toml", true),
    ]
}

fn strings(items: &[&str]) -> Vec<String> {
    items.iter().map(|item| item.to_string()).collect()
}

#[test]
fn rust_files_are_recognised_by_extension() {
    assert!(is_rust_file_name("main.rs"));
    assert!(is_rust_file_name("a.b.rs"));
    assert!(!is_rust_file_name(".rs"));
    assert!(!is_rust_file_name("rs"));
    assert!(!is_rust_file_name("main.rsx"));
    assert!(!is_rust_file_name("main.r"));
    assert!(!is_rust_file_name("Cargo.toml"));
}

#[test]
fn check_status_reports_a_change() {
    assert_eq!(check_status("a", "a"), 0);
    assert_eq!(check_status("a", "b"), 1);
}

#[test]
fn batch_with_an_error_writes_nothing() {
    let sources = strings(&["a", "b"]);
    let results = vec![Ok("A".to_string()), Err("b.rs:1:1: bad".to_string())];
    let plan = plan_batch(&sources, &results, false, false);
    assert_eq!(plan.status, 2);
    assert!(!plan.write);
    assert_eq!(plan.errors, vec!["b.rs:1:1: bad".to_string()]);
    assert_eq!(plan.changed, vec![0]);
}

#[test]
fn batch_check_lists_changed_files() {
    let sources = strings(&["a", "b", "c"]);
    let results = vec![Ok("a".to_string()), Ok("B".to_string()), Ok("C".to_string())];
    let plan = plan_batch(&sources, &results, false, true);
    assert_eq!(plan.status, 1);
    assert!(!plan.write);
    assert_eq!(plan.changed, vec![1, 2]);
    let unchanged = plan_batch(&sources, &vec![Ok("a".into()), Ok("b".into()), Ok("c".into())], false, true);
    assert_eq!(unchanged.status, 0);
    assert!(unchanged.changed.is_empty());
}

#[test]
fn batch_writes_changed_files() {
    let sources = strings(&["a", "b"]);
    let results = vec![Ok("a".to_string()), Ok("B".to_string())];
    let plan = plan_batch(&sources, &results, false, false);
    assert_eq!(plan.status, 0);
    assert!(plan.write);
    assert_eq!(plan.changed, vec![1]);
    let failed_read = plan_batch(&sources, &results, true, false);
    assert_eq!(failed_read.status, 2);
    assert!(!failed_read.write);
}

#[test]
fn named_packages_must_be_single_members() {
    let members = strings(&["app 0.1.0", "core 0.1.0", "tool 0.1.0"]);
    let roots = select_package_roots(&workspace(), &members, &vec![], &strings(&["tool", "app"]), false, "/ws").unwrap();
    assert_eq!(roots, strings(&["/ws/app", "/ws/tool"]));
    let error = select_package_roots(&workspace(), &members, &vec![], &strings(&["serde"]), false, "/ws").unwrap_err();
    assert_eq!(error, "package `serde` is not a member of this workspace");
    let mut twice = workspace();
    twice.push(package("app 0.2.0", "app", "/ws/app2/Cargo.toml", true));
    let members = strings(&["app 0.1.0", "app 0.2.0"]);
    let error = select_package_roots(&twice, &members, &vec![], &strings(&["app"]), false, "/ws").unwrap_err();
    assert_eq!(error, "package specification `app` is ambiguous");
}

#[test]
fn all_selects_local_packages() {
    let members = strings(&["app 0.1.0"]);
    let roots = select_package_roots(&workspace(), &members, &vec![], &vec![], true, "/ws").unwrap();
    assert_eq!(roots, strings(&["/ws/app", "/ws/app/core", "/ws/tool"]));
}

#[test]
fn default_is_the_innermost_enclosing_member() {
    let members = strings(&["app 0.1.0", "core 0.1.0", "tool 0.1.0"]);
    let defaults = strings(&["tool 0.1.0"]);
    let roots = select_package_roots(&workspace(), &members, &defaults, &vec![], false, "/ws/app/core/src").unwrap();
    assert_eq!(roots, strings(&["/ws/app/core"]));
    let roots = select_package_roots(&workspace(), &members, &defaults, &vec![], false, "/ws/application").unwrap();
    assert_eq!(roots, strings(&["/ws/tool"]));
    let roots = select_package_roots(&workspace(), &members, &defaults, &vec![], false, "/ws/app").unwrap();
    assert_eq!(roots, strings(&["/ws/app"]));
}

#[test]
fn selection_goes_by_the_given_directories() {
    let members = strings(&["app 0.1.0", "core 0.1.0", "tool 0.1.0"]);
    let defaults = strings(&["tool 0.1.0"]);
    let dirs = vec![Some("/d/app".to_string()), Some("/d/core".to_string()), None, Some("/d/tool".to_string())];
    let holds = vec![true, false, false, true];
    let roots = roots_of_selection(&workspace(), &members, &defaults, &vec![], false, &dirs, &holds).unwrap();
    assert_eq!(roots, strings(&["/d/tool"]));
    let roots = roots_of_selection(&workspace(), &members, &defaults, &vec![], false, &dirs, &vec![false; 4]).unwrap();
    assert_eq!(roots, strings(&["/d/tool"]));
    let roots = roots_of_selection(&workspace(), &members, &defaults, &vec![], false, &dirs, &vec![true, false, false, false]).unwrap();
    assert_eq!(roots, strings(&["/d/app"]));
    let roots = roots_of_selection(&workspace(), &members, &defaults, &vec![], true, &dirs, &holds).unwrap();
    assert_eq!(roots, strings(&["/d/app", "/d/core", "/d/tool"]));
    let gap = vec![Some("/d/app".to_string()), None, None, Some("/d/tool".to_string())];
    let error = roots_of_selection(&workspace(), &members, &defaults, &vec![], true, &gap, &holds).unwrap_err();
    assert_eq!(error, "cargo metadata returned an invalid manifest path");
}

#[test]
fn missing_manifest_path_is_reported() {
    let packages = vec![Package { id: "x".into(), name: Some("x".into()), manifest_path: None, local: true }];
    let error = select_package_roots(&packages, &strings(&["x"]), &vec![], &strings(&["x"]), false, "/").unwrap_err();
    assert_eq!(error, "cargo metadata returned an invalid manifest path");
}

#[test]
fn an_empty_manifest_path_has_no_directory() {
    let packages = vec![Package { id: "x".into(), name: Some("x".into()), manifest_path: Some(String::new()), local: true }];
    let error = select_package_roots(&packages, &strings(&["x"]), &vec![], &strings(&["x"]), false, "/").unwrap_err();
    assert_eq!(error, "cargo metadata returned an invalid manifest path");
    let packages = vec![package("x", "x", "/w/x/Cargo.toml", true)];
    let roots = select_package_roots(&packages, &strings(&["x"]), &vec![], &strings(&["x"]), false, "/").unwrap();
    assert_eq!(roots, strings(&["/w/x"]));
}

fn format_plain(source: &str, path: &str) -> Result<String, String> {
    let answers = RustfmtAnswers { sources: Vec::new(), expressions: Vec::new() };
    match format_source(source, Some(path), false, &answers) {
        FormatStep::Done(result) => result,
        FormatStep::Rustfmt(_) => panic!("rustfmt requested while it is disabled"),
    }
}

#[test]
fn parse_error_prevents_all_batch_writes() {
    let sources = strings(&["layout! {Root}", "layout! {if broken}"]);
    let results = vec![format_plain(&sources[0], "dir/a.rs"), format_plain(&sources[1], "dir/b.rs")];
    assert_eq!(results[0], Ok("layout! {\n    Root\n}".to_string()));
    let plan = plan_batch(&sources, &results, false, false);
    assert_eq!(plan.status, 2);
    assert!(!plan.write);
    assert_eq!(plan.errors.len(), 1);
    assert!(plan.errors[0].contains("b.rs:1:"));
}

#[test]
fn no_rustfmt_preserves_outer_rust_and_disables_embedded_rustfmt() {
    let formatted =
        format_plain("fn view( ){layout! {Root{Widget(.value=long_call(first,second,third))}}}", "view.rs").unwrap();
    assert!(formatted.starts_with("fn view( ){layout! {"));
    assert!(formatted.contains("Widget(.value = long_call(first,"));
}

#[test]
fn package_formats_only_the_selected_workspace_member() {
    let packages = vec![package("one 0.1.0", "one", "/tmp/ws/one/Cargo.toml", true), package("two 0.1.0", "two", "/tmp/ws/two/Cargo.toml", true)];
    let members = strings(&["one 0.1.0", "two 0.1.0"]);
    let roots = select_package_roots(&packages, &members, &members, &strings(&["one"]), false, "/tmp/ws").unwrap();
    assert_eq!(roots, strings(&["/tmp/ws/one"]));
}

#[test]
fn all_includes_local_path_dependencies() {
    let packages = vec![
        package("app 0.1.0", "app", "/tmp/all/app/Cargo.toml", true),
        package("dependency 0.1.0", "dependency", "/tmp/all/dependency/Cargo.toml", true),
    ];
    let members = strings(&["app 0.1.0"]);
    let roots = select_package_roots(&packages, &members, &members, &vec![], true, "/tmp/all/app").unwrap();
    assert_eq!(roots, strings(&["/tmp/all/app", "/tmp/all/dependency"]));
}

#[test]
fn manifest_path_selects_a_manifest_outside_the_current_directory() {
    let packages = vec![package("app 0.1.0", "app", "/tmp/manifest/app/Cargo.toml", true)];
    let members = strings(&["app 0.1.0"]);
    let roots = select_package_roots(&packages, &members, &members, &vec![], false, "/tmp").unwrap();
    assert_eq!(roots, strings(&["/tmp/manifest/app"]));
}

#[test]
fn metadata_lists_packages_and_members() {
    let json = r#"{"packages":[
        {"id":"app 0.1.0","name":"app","manifest_path":"/ws/app/Cargo.toml","source":null},
        {"id":"serde 1.0.0","name":"serde","manifest_path":"/registry/serde/Cargo.toml","source":"registry+https://github.com/rust-lang/crates.io-index"},
        {"name":"no id"},
        {"id":"odd 0.1.0","name":7,"source":null}
    ],"workspace_members":["app 0.1.0", 3],"workspace_default_members":["app 0.1.0"]}"#;
    let metadata = read_metadata(json.as_bytes()).unwrap();
    assert_eq!(metadata.packages.len(), 3);
    assert_eq!(metadata.packages[0].id, "app 0.1.0");
    assert_eq!(metadata.packages[0].name, Some("app".to_string()));
    assert_eq!(metadata.packages[0].manifest_path, Some("/ws/app/Cargo.toml".to_string()));
    assert!(metadata.packages[0].local);
    assert_eq!(metadata.packages[1].id, "serde 1.0.0");
    assert!(!metadata.packages[1].local);
    assert_eq!(metadata.packages[2].id, "odd 0.1.0");
    assert_eq!(metadata.packages[2].name, None);
    assert_eq!(metadata.packages[2].manifest_path, None);
    assert!(metadata.packages[2].local);
    assert_eq!(metadata.members, strings(&["app 0.1.0"]));
    assert_eq!(metadata.default_members, strings(&["app 0.1.0"]));
    let roots = select_package_roots(
        &metadata.packages,
        &metadata.members,
        &metadata.default_members,
        &vec![],
        false,
        "/ws/app/src",
    )
    .unwrap();
    assert_eq!(roots, strings(&["/ws/app"]));
}

#[test]
fn metadata_without_members_has_none() {
    let metadata = read_metadata(br#"{"packages":[]}"#).unwrap();
    assert!(metadata.packages.is_empty());
    assert!(metadata.members.is_empty());
    assert!(metadata.default_members.is_empty());
}

#[test]
fn metadata_errors_are_reported() {
    let error = read_metadata(b"not json").err().unwrap();
    assert!(error.starts_with("invalid cargo metadata: "));
    assert!(error.len() > "invalid cargo metadata: ".len());
    let error = read_metadata(br#"{"packages":{}}"#).err().unwrap();
    assert_eq!(error, "cargo metadata did not return packages");
}

#[test]
fn package_directories_are_compared_by_path_components() {
    let packages = vec![package("app 0.1.0", "app", "/ws//app/./Cargo.toml", true)];
    let members = strings(&["app 0.1.0"]);
    let roots = select_package_roots(&packages, &members, &vec![], &vec![], false, "/ws/app/src/").unwrap();
    assert_eq!(roots, strings(&["/ws//app"]));
    let roots = select_package_roots(&packages, &members, &vec![], &vec![], false, "/ws/./app").unwrap();
    assert_eq!(roots, strings(&["/ws//app"]));
    let none = select_package_roots(&packages, &members, &vec![], &vec![], false, "/ws/application").unwrap();
    assert!(none.is_empty());
}

#[test]
fn a_manifest_without_a_directory_has_the_empty_directory() {
    let packages = vec![package("app 0.1.0", "app", "Cargo.toml", true)];
    let members = strings(&["app 0.1.0"]);
    let roots = select_package_roots(&packages, &members, &members, &strings(&["app"]), false, "/").unwrap();
    assert_eq!(roots, strings(&[""]));
    let root_only = vec![package("app 0.1.0", "app", "/", true)];
    let error = select_package_roots(&root_only, &members, &members, &strings(&["app"]), false, "/").unwrap_err();
    assert_eq!(error, "cargo metadata returned an invalid manifest path");
}
