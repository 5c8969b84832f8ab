use stackcut::docrefs::extract_path_references;

#[test]
fn extracts_backtick_paths_with_slash() {
    let content = "See `docs/ARCHITECTURE.md` for details.";
    let refs = extract_path_references(content);
    assert_eq!(refs, vec!["docs/ARCHITECTURE.md"]);
}

#[test]
fn extracts_backtick_paths_with_extension() {
    let content = "Edit `Cargo.toml` to configure.";
    let refs = extract_path_references(content);
    assert_eq!(refs, vec!["Cargo.toml"]);
}

#[test]
fn extracts_markdown_link_paths() {
    let content = "See [architecture](docs/ARCHITECTURE.md) for more.";
    let refs = extract_path_references(content);
    assert_eq!(refs, vec!["docs/ARCHITECTURE.md"]);
}

#[test]
fn filters_urls() {
    let content = "Visit [site](https://example.com) and `https://foo.bar`.";
    let refs = extract_path_references(content);
    assert!(refs.is_empty());
}

#[test]
fn filters_anchors() {
    let content = "See [section](#overview) and `#heading`.";
    let refs = extract_path_references(content);
    assert!(refs.is_empty());
}

#[test]
fn filters_code_identifiers() {
    let content = "Use `must_link` and `force_members` overrides.";
    let refs = extract_path_references(content);
    assert!(refs.is_empty());
}

#[test]
fn filters_shell_commands() {
    let content = "Run `cargo run -p xtask -- ci-fast` to check.";
    let refs = extract_path_references(content);
    assert!(refs.is_empty());
}

#[test]
fn skips_fenced_code_blocks() {
    let content = "Before\n```\nsome/path.rs\n`another/path.md`\n```\nAfter `real/path.md`.";
    let refs = extract_path_references(content);
    assert_eq!(refs, vec!["real/path.md"]);
}

#[test]
fn strips_trailing_slash_from_directories() {
    let content = "Files under `fixtures/cases/`.";
    let refs = extract_path_references(content);
    assert_eq!(refs, vec!["fixtures/cases"]);
}

#[test]
fn deduplicates_references() {
    let content = "See `README.md` and also `README.md` again.";
    let refs = extract_path_references(content);
    assert_eq!(refs, vec!["README.md"]);
}

#[test]
fn filters_version_strings() {
    let content = "This is `v0.1` of the tool.";
    let refs = extract_path_references(content);
    assert!(refs.is_empty());
}

#[test]
fn extracts_multiple_from_one_line() {
    let content = "See `README.md`, `TESTING.md`, and `RELEASE.md`.";
    let refs = extract_path_references(content);
    assert_eq!(refs, vec!["README.md", "RELEASE.md", "TESTING.md"]);
}

#[test]
fn filters_function_calls() {
    let content = "Call `plan()` and `validate()`.";
    let refs = extract_path_references(content);
    assert!(refs.is_empty());
}

#[test]
fn filters_runtime_output_paths() {
    let content = "Writes to `.stackcut/plan.json` and `.stackcut/summary.md`.";
    let refs = extract_path_references(content);
    assert!(refs.is_empty());
}

#[test]
fn filters_lowercase_bare_artifact_names() {
    let content = "Emits `plan.json`, `summary.md`, and `diagnostics.json`.";
    let refs = extract_path_references(content);
    assert!(refs.is_empty());
}

#[test]
fn keeps_uppercase_bare_filenames() {
    let content = "See `README.md` and `TESTING.md`.";
    let refs = extract_path_references(content);
    assert_eq!(refs, vec!["README.md", "TESTING.md"]);
}

#[test]
fn filters_glob_patterns() {
    let content = "Iterate `fixtures/cases/*/` for all cases.";
    let refs = extract_path_references(content);
    assert!(refs.is_empty());
}

#[test]
fn references_come_out_sorted_and_distinct() {
    let content = "`src/b.rs` then [x](src/a.rs) and `src/b.rs`\r\nand `src/c.rs/`\n";
    let refs = extract_path_references(content);
    assert_eq!(refs, vec!["src/a.rs", "src/b.rs", "src/c.rs"]);
}

#[test]
fn mail_links_and_unclosed_quotes_are_ignored() {
    let content = "Mail [me](mailto:a@b.c) about `docs/x.md and [y](docs/y.md";
    let refs = extract_path_references(content);
    assert!(refs.is_empty());
}

#[test]
fn uppercase_extension_counts_for_bare_names() {
    let content = "See `NOTES.MD` and `Makefile` and `CHANGES.txt`.";
    let refs = extract_path_references(content);
    assert_eq!(refs, vec!["CHANGES.txt", "NOTES.MD"]);
}

#[test]
fn comparisons_and_flags_are_not_paths() {
    let content = "`a/b==c` `--flag/x` `npm install/x` `git log/x`";
    let refs = extract_path_references(content);
    assert!(refs.is_empty());
}
