use poetry_udeps::parser::{
    from_package_import, identifier, inline_comment, multiline_comment, parse_file,
    parse_python_file, simple_import,
};

#[test]
fn test_identifier() {
    assert_eq!(
        identifier("_something_for_nothing"),
        Some(("", "_something_for_nothing"))
    );
    assert_eq!(identifier("argon2"), Some(("", "argon2")));
    assert_eq!(identifier("pprint"), Some(("", "pprint")));
    assert_eq!(identifier("google.cloud"), Some(("", "google.cloud")));
}

#[test]
fn test_simple_import() {
    assert_eq!(simple_import("import numpy").unwrap().1.package, "numpy");
    assert_eq!(
        simple_import("import google.cloud").unwrap().1.package,
        "google.cloud"
    );
    assert_eq!(
        simple_import("import snowflake.connector")
            .unwrap()
            .1
            .package,
        "snowflake.connector"
    );
}

#[test]
fn test_simple_from() {
    let import = from_package_import("from google.cloud import bigquery")
        .unwrap()
        .1;
    assert_eq!(import.package, "google.cloud");
    assert_eq!(import.module, "bigquery");
    let import = from_package_import("from pprint import pprint").unwrap().1;
    assert_eq!(import.package, "pprint");
    assert_eq!(import.module, "pprint");
    let import = from_package_import(
        "from torchnlp.encoders.text.default_reserved_tokens import DEFAULT_COPY_TOKEN",
    )
    .unwrap()
    .1;
    assert_eq!(
        import.package,
        "torchnlp.encoders.text.default_reserved_tokens"
    );
    assert_eq!(import.module, "DEFAULT_COPY_TOKEN");
}

#[test]
fn test_multiline_comment() {
    assert_eq!(
        multiline_comment(r#""""from google.cloud import bigquery""""#),
        Some(("", ()))
    );
    assert_eq!(
        multiline_comment(
            r#""""Some function docstring.

        Some docstrings are really long.

        Args:
            something: a list of stuff

        Example:
            import pprint
            pprint("hello world")
        """"#
        ),
        Some(("", ()))
    );
}

#[test]
fn test_inline_comment() {
    assert_eq!(inline_comment("# something else"), Some(("", ())));
    assert_eq!(inline_comment("# ##### other stuff"), Some(("", ())));
}

#[test]
fn test_parse_file() {
    let file = r#"
    from pprint import pprint
    import numpy as np
    from torchnlp.encoders.text.default_reserved_tokens import DEFAULT_COPY_TOKEN

    def run() -> None:
        pprint(np.ones(10))

    if __name__ == "__main__":
        run()

            "#;
    let imports = parse_file(file).unwrap().1;
    assert_eq!(
        imports.iter().map(|i| &i.package).collect::<Vec<_>>(),
        [
            "pprint",
            "numpy",
            "torchnlp.encoders.text.default_reserved_tokens"
        ]
    );
    assert_eq!(
        imports.iter().map(|i| &i.module).collect::<Vec<_>>(),
        ["pprint", "", "DEFAULT_COPY_TOKEN"]
    );
}

#[test]
fn comment_text_is_never_an_import() {
    let imports = parse_python_file("# import nonexistent_pkg");
    assert!(imports.is_empty());
}

#[test]
fn docstring_text_is_never_an_import() {
    let imports = parse_python_file(r#""""import nonexistent_pkg""""#);
    assert!(imports.is_empty());
}

#[test]
fn extraction_is_a_pure_function_of_the_text() {
    let file = "from pprint import pprint\nimport numpy as np\n# import os\n";
    let first = parse_python_file(file);
    let second = parse_python_file(file);
    assert_eq!(first.len(), second.len());
    for (a, b) in first.iter().zip(second.iter()) {
        assert_eq!(a.package, b.package);
        assert_eq!(a.module, b.module);
    }
}

#[test]
fn unterminated_docstring_is_scanned_permissively() {
    // with no closing quote the block recognizer fails, the quotes are
    // skipped one by one, and the import inside is still found
    let imports = parse_python_file("\"\"\"\nimport numpy\n");
    assert_eq!(imports.len(), 1);
    assert_eq!(imports[0].package, "numpy");
}

#[test]
fn files_without_imports_yield_nothing() {
    assert!(parse_python_file("").is_empty());
    assert!(parse_python_file("x = 1 + 2\nprint(x)\n").is_empty());
}
