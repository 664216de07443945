use poetry_udeps::ignore_list::{apply_ignore_list, parse_ignore_list};
use poetry_udeps::manifest::{build_table, dev_dependencies, main_dependencies};
use poetry_udeps::name_map::known_names;
use poetry_udeps::resolver::run_scan;
use poetry_udeps::table::AliasTable;

fn strings(items: &[&str]) -> Vec<String> {
    items.iter().map(|s| s.to_string()).collect()
}

const MANIFEST: &str = r#"
[tool.poetry]
name = "sample"

[tool.poetry.dependencies]
python = "^3.10"
numpy = "^1.0"
pandas = "^2.0"

[tool.poetry.dev-dependencies]
pytest = "^7.0"
"#;

const GROUP_MANIFEST: &str = r#"
[tool.poetry.dependencies]
python = "^3.10"
requests = "^2.0"

[tool.poetry.group.dev.dependencies]
mypy = "^1.0"
"#;

#[test]
fn manifest_main_group_is_read_in_order_without_python() {
    let table = main_dependencies(MANIFEST, &known_names()).unwrap();
    assert_eq!(table.remaining_unused(), strings(&["numpy", "pandas"]));
}

#[test]
fn manifest_dev_group_is_read() {
    let table = dev_dependencies(MANIFEST, &known_names()).unwrap();
    assert_eq!(table.remaining_unused(), strings(&["pytest"]));
}

#[test]
fn manifest_group_layout_is_read() {
    let table = dev_dependencies(GROUP_MANIFEST, &known_names()).unwrap();
    assert_eq!(table.remaining_unused(), strings(&["mypy"]));
}

#[test]
fn unreadable_manifest_yields_nothing() {
    assert!(main_dependencies("not [ valid toml", &known_names()).is_none());
    assert!(main_dependencies("[tool.poetry]\nname = \"x\"\n", &known_names()).is_none());
    assert!(dev_dependencies(GROUP_MANIFEST.replace("group", "grp").as_str(), &known_names())
        .is_none());
}

#[test]
fn scan_reports_the_unimported_dependency() {
    // required = {numpy, pandas}; one file imports numpy
    let main = build_table(&strings(&["numpy", "pandas"]), &known_names());
    let files = strings(&["import numpy\n"]);
    let report = run_scan(main, AliasTable::new(), &files, false);
    assert_eq!(report, strings(&["pandas"]));
}

#[test]
fn scan_resolves_through_the_override() {
    // required = {scikit-learn}; the file imports sklearn
    let main = build_table(&strings(&["scikit-learn"]), &known_names());
    let files = strings(&["from sklearn import svm\n"]);
    let report = run_scan(main, AliasTable::new(), &files, false);
    assert_eq!(report, Vec::<String>::new());
}

#[test]
fn scan_resolves_through_dotted_to_hyphen_derivation() {
    // required = {google-cloud-pubsub}; the file imports google.cloud.pubsub_v1
    let main = build_table(&strings(&["google-cloud-pubsub"]), &known_names());
    let files = strings(&["from google.cloud.pubsub_v1 import PublisherClient\n"]);
    let report = run_scan(main, AliasTable::new(), &files, false);
    assert_eq!(report, Vec::<String>::new());
}

#[test]
fn dev_checking_off_hides_unused_dev_dependencies() {
    let main = build_table(&strings(&["numpy"]), &known_names());
    let dev = build_table(&strings(&["pytest"]), &known_names());
    let files = strings(&["import numpy\n"]);
    let report = run_scan(main, dev, &files, false);
    assert_eq!(report, Vec::<String>::new());

    let main = build_table(&strings(&["numpy"]), &known_names());
    let dev = build_table(&strings(&["pytest"]), &known_names());
    let report = run_scan(main, dev, &files, true);
    assert_eq!(report, strings(&["pytest"]));
}

#[test]
fn scan_is_insensitive_to_file_order() {
    let files_one = strings(&["import numpy\n", "import pandas\nimport numpy\n"]);
    let files_two = strings(&["import pandas\nimport numpy\n", "import numpy\n"]);
    let deps = strings(&["numpy", "pandas", "requests"]);
    let main = build_table(&deps, &known_names());
    let one = run_scan(main, AliasTable::new(), &files_one, false);
    let main = build_table(&deps, &known_names());
    let two = run_scan(main, AliasTable::new(), &files_two, false);
    assert_eq!(one, strings(&["requests"]));
    assert_eq!(two, strings(&["requests"]));
}

#[test]
fn ignore_list_skips_blank_lines_and_comments() {
    let names = parse_ignore_list("# tools kept on purpose\n\nblack\n  # indented comment\nruff\r\n");
    assert_eq!(names, strings(&["black", "ruff"]));
}

#[test]
fn ignore_list_filters_the_report() {
    let report = strings(&["black", "pandas", "ruff"]);
    let ignored = strings(&["black", "ruff"]);
    assert_eq!(apply_ignore_list(report, &ignored), strings(&["pandas"]));
}

#[test]
fn empty_ignore_list_changes_nothing() {
    assert_eq!(parse_ignore_list(""), Vec::<String>::new());
    let report = strings(&["pandas"]);
    assert_eq!(apply_ignore_list(report, &Vec::new()), strings(&["pandas"]));
}
