use stackcut::config::{parse_config, unknown_key_warnings};
use stackcut::model::{PathFamilyRule, StackcutConfig};

fn strings(items: &[&str]) -> Vec<String> {
    items.iter().map(|s| s.to_string()).collect()
}

#[test]
fn parse_config_accepts_documented_sample() {
    let toml = r#"
version = 1
generated_prefixes = ["generated/"]
manifest_files = ["Cargo.toml"]
lock_files = ["Cargo.lock"]
test_prefixes = ["tests/"]
doc_prefixes = ["docs/"]
ops_prefixes = [".github/"]
review_budget = 20

[[path_families]]
prefix = "src/core/"
family = "core"
"#;
    let typed = StackcutConfig {
        version: 1,
        generated_prefixes: strings(&["generated/"]),
        manifest_files: strings(&["Cargo.toml"]),
        lock_files: strings(&["Cargo.lock"]),
        test_prefixes: strings(&["tests/"]),
        doc_prefixes: strings(&["docs/"]),
        ops_prefixes: strings(&[".github/"]),
        path_families: vec![PathFamilyRule {
            prefix: "src/core/".to_string(),
            family: "core".to_string(),
        }],
        review_budget: Some(20),
    };
    let (config, diagnostics) = parse_config(toml, Ok(typed)).unwrap();
    assert!(diagnostics.is_empty());
    assert_eq!(config.version, 1);
    assert_eq!(config.review_budget, Some(20));
    assert_eq!(config.generated_prefixes, vec!["generated/"]);
}

#[test]
fn parse_config_warns_on_unknown_keys() {
    let toml = r#"
version = 1
unknown_key = "hello"
another_bad_key = 42
"#;
    let typed = StackcutConfig { version: 1, ..StackcutConfig::default() };
    let (config, diagnostics) = parse_config(toml, Ok(typed)).unwrap();
    assert_eq!(config.version, 1);
    assert_eq!(diagnostics.len(), 2);
    assert!(diagnostics.iter().all(|d| d.code == "unknown-config-key"));
    assert!(diagnostics.iter().any(|d| d.message.contains("unknown_key")));
    assert!(diagnostics.iter().any(|d| d.message.contains("another_bad_key")));
}

#[test]
fn parse_config_rejects_unsupported_version() {
    let toml = "version = 99\n";
    let typed = StackcutConfig { version: 99, ..StackcutConfig::default() };
    let result = parse_config(toml, Ok(typed));
    assert!(result.is_err());
    let err_msg = result.unwrap_err();
    assert!(err_msg.contains("99"));
    assert!(err_msg.contains("not supported"));
    assert_eq!(err_msg, "stackcut.toml version 99 is not supported (max: 1)");
}

#[test]
fn parse_config_review_budget_defaults_to_none() {
    let toml = "version = 1\n";
    let (config, diagnostics) = parse_config(toml, Ok(StackcutConfig::default())).unwrap();
    assert!(diagnostics.is_empty());
    assert_eq!(config.review_budget, None);
}

#[test]
fn parse_config_empty_input_uses_defaults() {
    let (config, diagnostics) = parse_config("", Ok(StackcutConfig::default())).unwrap();
    assert!(diagnostics.is_empty());
    assert_eq!(config.version, 1);
    assert_eq!(config.review_budget, None);
}

#[test]
fn parse_config_rejects_invalid_toml() {
    let result = parse_config("{{bad toml", Ok(StackcutConfig::default()));
    assert!(result.is_err());
}

#[test]
fn parse_config_passes_on_typed_errors() {
    let result = parse_config("version = \"one\"\n", Err("invalid type".to_string()));
    assert_eq!(result, Err("invalid type".to_string()));
}

#[test]
fn unknown_key_warnings_keep_key_order() {
    let keys = strings(&["alpha", "version", "beta"]);
    let warnings = unknown_key_warnings(&keys);
    assert_eq!(warnings.len(), 2);
    assert_eq!(warnings[0].message, "Unknown key 'alpha' in stackcut.toml");
    assert_eq!(warnings[1].message, "Unknown key 'beta' in stackcut.toml");
}

#[test]
fn default_config_lists_documented_rules() {
    let config = StackcutConfig::default();
    assert_eq!(config.version, 1);
    assert_eq!(config.manifest_files, vec!["Cargo.toml", "package.json", "pyproject.toml"]);
    assert_eq!(config.path_families.len(), 3);
    assert_eq!(config.review_budget, None);
}
