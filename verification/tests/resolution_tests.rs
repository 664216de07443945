use poetry_udeps::aliases::{derive_alias, derive_import_aliases};
use poetry_udeps::manifest::build_table;
use poetry_udeps::name_map::known_names;
use poetry_udeps::parser::ImportStatement;
use poetry_udeps::resolver::Resolver;
use poetry_udeps::table::AliasTable;

fn strings(items: &[&str]) -> Vec<String> {
    items.iter().map(|s| s.to_string()).collect()
}

fn import(package: &str, module: &str) -> ImportStatement {
    ImportStatement { package: package.to_string(), module: module.to_string() }
}

#[test]
fn known_names_are_sorted() {
    let table = known_names();
    let mut names = table.iter().map(|(name, _alias)| name);

    let Some(mut previous_name) = names.next() else {
        return;
    };

    for name in names {
        assert!(
            name > previous_name,
            r#""{name}" should be sorted before "{previous_name}" in `KNOWN_NAMES`"#,
        );

        previous_name = name;
    }
}

#[test]
fn untouched_table_reports_every_name_in_order() {
    let table = build_table(&strings(&["alpha", "beta", "gamma"]), &known_names());
    let resolver = Resolver::new(table, AliasTable::new());
    assert_eq!(resolver.report(false), strings(&["alpha", "beta", "gamma"]));
}

#[test]
fn plain_name_is_resolved_only_by_itself() {
    // no hyphen and no override: the exact name strikes it off
    let table = build_table(&strings(&["simplejson"]), &known_names());
    let mut resolver = Resolver::new(table, AliasTable::new());
    resolver.process_import(&import("simplejson", ""));
    assert_eq!(resolver.report(false), Vec::<String>::new());

    // near misses leave it in the report
    let table = build_table(&strings(&["simplejson"]), &known_names());
    let mut resolver = Resolver::new(table, AliasTable::new());
    resolver.process_import(&import("simplejsonx", ""));
    resolver.process_import(&import("simplejso", ""));
    assert_eq!(resolver.report(false), strings(&["simplejson"]));
}

#[test]
fn hyphen_becomes_underscore() {
    // "foo-bar" is confirmed by an import of foo_bar ...
    let table = build_table(&strings(&["foo-bar"]), &known_names());
    let mut resolver = Resolver::new(table, AliasTable::new());
    resolver.process_import(&import("foo_bar", ""));
    assert_eq!(resolver.report(false), Vec::<String>::new());

    // ... but not by foo or bar alone
    let table = build_table(&strings(&["foo-bar"]), &known_names());
    let mut resolver = Resolver::new(table, AliasTable::new());
    resolver.process_import(&import("foo", ""));
    resolver.process_import(&import("bar", ""));
    assert_eq!(resolver.report(false), strings(&["foo-bar"]));
}

#[test]
fn alias_derivation_lowercases_the_underscored_name() {
    let alias = derive_alias(&"Foo-Bar".to_string(), &known_names());
    assert_eq!(alias, Some("foo_bar".to_string()));
}

#[test]
fn alias_derivation_prefers_the_override() {
    let alias = derive_alias(&"scikit-learn".to_string(), &known_names());
    assert_eq!(alias, Some("sklearn".to_string()));
    let alias = derive_alias(&"jupyter".to_string(), &known_names());
    assert_eq!(alias, Some("IPython".to_string()));
}

#[test]
fn plain_names_derive_no_alias() {
    assert_eq!(derive_alias(&"numpy".to_string(), &known_names()), None);
}

#[test]
fn import_side_candidates_cover_the_conventions() {
    let aliases = derive_import_aliases(&import("google.cloud", "pubsub_v1"));
    assert!(aliases.contains(&"google-cloud-pubsub_v1".to_string()));
    assert!(aliases.contains(&"google".to_string()));
    assert!(aliases.contains(&"google-cloud".to_string()));
    assert!(aliases.contains(&"google.cloud".to_string()));

    let aliases = derive_import_aliases(&import("dbt.adapters.spark", ""));
    assert!(aliases.contains(&"dbt-spark".to_string()));

    let aliases = derive_import_aliases(&import("sqlalchemy.orm.session", ""));
    assert!(aliases.contains(&"sqlalchemy-orm-session".to_string()));

    let aliases = derive_import_aliases(&import("numpy", ""));
    assert_eq!(aliases, strings(&["numpy"]));
}

#[test]
fn resolution_is_set_idempotent() {
    // replaying the same import reference is a no-op
    let deps = strings(&["numpy", "pandas"]);
    let table = build_table(&deps, &known_names());
    let mut once = Resolver::new(table, AliasTable::new());
    once.process_import(&import("numpy", ""));

    let table = build_table(&deps, &known_names());
    let mut twice = Resolver::new(table, AliasTable::new());
    twice.process_import(&import("numpy", ""));
    twice.process_import(&import("numpy", ""));

    assert_eq!(once.report(false), strings(&["pandas"]));
    assert_eq!(twice.report(false), strings(&["pandas"]));
}

#[test]
fn matches_in_one_group_leave_the_other_alone() {
    // the required and development tables are independent
    let main = build_table(&strings(&["numpy"]), &known_names());
    let dev = build_table(&strings(&["numpy", "pytest"]), &known_names());
    let mut resolver = Resolver::new(main, dev);
    resolver.process_import(&import("pytest", ""));
    assert_eq!(resolver.report(true), strings(&["numpy", "numpy"]));
}

#[test]
fn shared_install_names_confirm_every_origin() {
    // faiss-cpu and faiss-gpu share the import name faiss
    let table = build_table(&strings(&["faiss-cpu", "faiss-gpu"]), &known_names());
    let mut resolver = Resolver::new(table, AliasTable::new());
    resolver.process_import(&import("faiss", ""));
    assert_eq!(resolver.report(false), Vec::<String>::new());
}
