use stackcut::ingest::{
    collect_edit_units, discover_repo_root, is_binary_path, parse_name_status_line, parse_u32,
    patch_file_name, pathspecs_for_slice, validate_exact_recomposition, RecompositionResult, SliceApplyResult,
};
use stackcut::model::{
    new_slice, ChangeStatus, DiagnosticLevel, EditUnit, Overrides, Plan, PlanSource, SliceKind,
    StackcutConfig, UnitKind, PLAN_VERSION,
};
use stackcut::planner::plan;

fn chars(s: &str) -> Vec<char> {
    s.chars().collect()
}

fn parse_line(line: &str) -> Option<EditUnit> {
    parse_name_status_line(&chars(line), &StackcutConfig::default())
}

fn status_of(line: &str) -> ChangeStatus {
    parse_line(line).expect("line names a path").status
}

fn notes_of(line: &str) -> Vec<String> {
    parse_line(line).expect("line names a path").notes
}

fn empty_plan(head_tree: Option<&str>) -> Plan {
    Plan {
        version: PLAN_VERSION.to_string(),
        source: PlanSource {
            repo_root: None,
            base: "base".to_string(),
            head: "base".to_string(),
            head_tree: head_tree.map(|t| t.to_string()),
        },
        units: vec![],
        slices: vec![],
        ambiguities: vec![],
        diagnostics: vec![],
        fingerprint: None,
        override_fingerprint: None,
    }
}

fn applied(id: &str, ok: bool, error: Option<&str>) -> SliceApplyResult {
    SliceApplyResult {
        slice_id: id.to_string(),
        patch_sha256: "00".to_string(),
        apply_ok: ok,
        error: error.map(|e| e.to_string()),
    }
}

fn no_errors(p: &Plan) -> bool {
    p.diagnostics.iter().all(|d| d.level != DiagnosticLevel::Error)
}

#[test]
fn is_binary_path_detects_common_extensions() {
    assert!(is_binary_path("assets/logo.png"));
    assert!(is_binary_path("build/output.wasm"));
    assert!(is_binary_path("data/archive.zip"));
    assert!(is_binary_path("fonts/Inter.woff2"));
    assert!(is_binary_path("report.PDF"));
}

#[test]
fn is_binary_path_rejects_text_files() {
    assert!(!is_binary_path("src/main.rs"));
    assert!(!is_binary_path("README.md"));
    assert!(!is_binary_path("Cargo.toml"));
    assert!(!is_binary_path("src/lib.ts"));
}

#[test]
fn rename_with_full_similarity_is_renamed() {
    assert_eq!(status_of("R100\told.rs\tnew.rs"), ChangeStatus::Renamed);
}

#[test]
fn rename_with_partial_similarity_is_modified() {
    let unit = parse_line("R095\told.rs\tnew.rs").unwrap();
    assert_eq!(unit.status, ChangeStatus::Modified);
    assert!(unit.old_path.is_some());
}

#[test]
fn rename_with_low_similarity_is_modified() {
    assert_eq!(status_of("R050\told.rs\tnew.rs"), ChangeStatus::Modified);
}

#[test]
fn rename_bare_r_defaults_to_renamed() {
    assert_eq!(status_of("R\told.rs\tnew.rs"), ChangeStatus::Renamed);
}

#[test]
fn type_change_is_unknown() {
    assert_eq!(status_of("T\tsome/link"), ChangeStatus::Unknown);
}

#[test]
fn type_change_gets_unsupported_symlink_note() {
    assert_eq!(notes_of("T\tsome/link"), vec!["unsupported-symlink"]);
}

#[test]
fn binary_file_gets_unsupported_binary_note() {
    assert_eq!(notes_of("M\tassets/image.png"), vec!["unsupported-binary"]);
}

#[test]
fn gitmodules_gets_unsupported_submodule_note() {
    assert_eq!(notes_of("M\t.gitmodules"), vec!["unsupported-submodule"]);
}

#[test]
fn regular_file_gets_no_notes() {
    assert!(notes_of("M\tsrc/main.rs").is_empty());
}

#[test]
fn integration_simple_add() {
    let config = StackcutConfig::default();
    let (source, units) = collect_edit_units(
        "A\tsrc/core/added.rs\n",
        "/repo",
        "b1",
        "h1",
        "t1",
        &config,
    );
    assert!(!units.is_empty());
    assert_eq!(units[0].status, ChangeStatus::Added);
    let p = plan(source, units, &config, &Overrides::default(), b"");
    assert!(no_errors(&p));
    assert_eq!(p.slices.len(), 1);
}

#[test]
fn integration_simple_modify() {
    let config = StackcutConfig::default();
    let (source, units) =
        collect_edit_units("M\tsrc/core/module.rs\n", "/repo", "b1", "h1", "t1", &config);
    assert_eq!(units.len(), 1);
    assert_eq!(units[0].status, ChangeStatus::Modified);
    assert_eq!(units[0].kind, UnitKind::Behavior);
    let p = plan(source, units, &config, &Overrides::default(), b"");
    assert!(no_errors(&p));
    assert!(!p.slices.is_empty());
}

#[test]
fn integration_rename() {
    let config = StackcutConfig::default();
    let (source, units) = collect_edit_units(
        "R100\tsrc/core/old_name.rs\tsrc/core/new_name.rs\n",
        "/repo",
        "b1",
        "h1",
        "t1",
        &config,
    );
    assert_eq!(units.len(), 1);
    assert_eq!(units[0].status, ChangeStatus::Renamed);
    assert_eq!(units[0].kind, UnitKind::Mechanical);
    assert_eq!(units[0].old_path.as_deref(), Some("src/core/old_name.rs"));
    let p = plan(source, units, &config, &Overrides::default(), b"");
    assert!(no_errors(&p));
    let spec = pathspecs_for_slice(&p, &p.slices[0]);
    assert_eq!(spec, vec!["src/core/new_name.rs", "src/core/old_name.rs"]);
}

#[test]
fn integration_multi_family_split() {
    let config = StackcutConfig::default();
    let (source, units) = collect_edit_units(
        "M\tsrc/core/engine.rs\nM\tsrc/git/ingest.rs\n",
        "/repo",
        "b1",
        "h1",
        "t1",
        &config,
    );
    assert!(units.len() >= 2);
    assert!(units.iter().any(|u| u.family == "core"));
    assert!(units.iter().any(|u| u.family == "git"));
    let p = plan(source, units, &config, &Overrides::default(), b"");
    let behavior = p.slices.iter().filter(|s| s.kind == SliceKind::Behavior).count();
    assert!(behavior >= 2);
    assert!(no_errors(&p));
}

#[test]
fn integration_simple_delete() {
    let config = StackcutConfig::default();
    let (source, units) = collect_edit_units(
        "D\tsrc/core/to_delete.rs\n",
        "/repo",
        "b1",
        "h1",
        "t1",
        &config,
    );
    let deleted = units
        .iter()
        .find(|u| u.path == "src/core/to_delete.rs")
        .expect("a unit for the deleted file");
    assert_eq!(deleted.status, ChangeStatus::Deleted);
    let p = plan(source, units, &config, &Overrides::default(), b"");
    assert!(no_errors(&p));
}

#[test]
fn integration_type_change_produces_unknown_status() {
    let config = StackcutConfig::default();
    let (_, units) = collect_edit_units(
        "T\tsrc/core/changed.rs\n",
        "/repo",
        "b1",
        "h1",
        "t1",
        &config,
    );
    let changed = units.iter().find(|u| u.path == "src/core/changed.rs").unwrap();
    assert_eq!(changed.status, ChangeStatus::Unknown);
    assert!(changed.notes.iter().any(|n| n == "unsupported-symlink"));
}

#[test]
fn integration_validate_exact_recomposition_missing_head_tree() {
    let result = RecompositionResult { slice_results: vec![], recomposed_tree: "t".to_string() };
    let outcome = validate_exact_recomposition(&empty_plan(None), &result);
    let msg = outcome.unwrap_err();
    assert!(msg.contains("head_tree"));
}

#[test]
fn collect_edit_units_orders_by_path_and_records_source() {
    let config = StackcutConfig::default();
    let (source, units) = collect_edit_units(
        "M\tsrc/z.rs\n\nA\tsrc/a.rs\nM\t\n",
        "/repo",
        "base-sha",
        "head-sha",
        "tree-sha",
        &config,
    );
    assert_eq!(source.repo_root.as_deref(), Some("/repo"));
    assert_eq!(source.base, "base-sha");
    assert_eq!(source.head, "head-sha");
    assert_eq!(source.head_tree.as_deref(), Some("tree-sha"));
    let paths: Vec<&str> = units.iter().map(|u| u.path.as_str()).collect();
    assert_eq!(paths, vec!["src/a.rs", "src/z.rs"]);
    assert_eq!(units[0].id, "path:src/a.rs");
}

#[test]
fn copy_line_records_old_path() {
    let unit = parse_line("C075\tsrc/a.rs\tsrc/b.rs").unwrap();
    assert_eq!(unit.status, ChangeStatus::Copied);
    assert_eq!(unit.old_path.as_deref(), Some("src/a.rs"));
    assert_eq!(unit.path, "src/b.rs");
    assert_eq!(unit.kind, UnitKind::Mechanical);
}

#[test]
fn blank_and_pathless_lines_give_no_unit() {
    assert!(parse_line("   ").is_none());
    assert!(parse_line("M").is_none());
}

#[test]
fn parse_u32_reads_digits() {
    assert_eq!(parse_u32(&chars("095")), Some(95));
    assert_eq!(parse_u32(&chars("+7")), Some(7));
    assert_eq!(parse_u32(&chars("4294967295")), Some(4294967295));
    assert_eq!(parse_u32(&chars("4294967296")), None);
    assert_eq!(parse_u32(&chars("")), None);
    assert_eq!(parse_u32(&chars("1a")), None);
}

#[test]
fn discover_repo_root_trims_output() {
    assert_eq!(discover_repo_root("  /home/me/repo\n"), "/home/me/repo");
}

#[test]
fn unit_map_keys_units_by_id() {
    let config = StackcutConfig::default();
    let (source, units) =
        collect_edit_units("M\tsrc/b.rs\nM\tsrc/a.rs\n", "/r", "b", "h", "t", &config);
    let p = plan(source, units, &config, &Overrides::default(), b"");
    let map = p.unit_map();
    let keys: Vec<&str> = map.iter().map(|(k, _)| k.as_str()).collect();
    assert_eq!(keys, vec!["path:src/a.rs", "path:src/b.rs"]);
    assert_eq!(map[1].1.path, "src/b.rs");
}

#[test]
fn pathspecs_skip_unknown_members() {
    let mut p = empty_plan(Some("t"));
    p.slices.push(new_slice(
        "behavior-x",
        "Behavior: x",
        SliceKind::Behavior,
        vec![],
        vec!["path:nowhere".to_string()],
        vec![],
        vec![],
    ));
    assert!(pathspecs_for_slice(&p, &p.slices[0]).is_empty());
}

#[test]
fn exact_recomposition_reports_first_failed_slice() {
    let result = RecompositionResult {
        slice_results: vec![
            applied("one", true, None),
            applied("two", false, Some("conflict")),
            applied("three", false, None),
        ],
        recomposed_tree: "t".to_string(),
    };
    let err = validate_exact_recomposition(&empty_plan(Some("t")), &result).unwrap_err();
    assert_eq!(err, "exact recomposition failed: slice 'two' failed to apply: conflict");
}

#[test]
fn exact_recomposition_reports_unknown_error() {
    let result = RecompositionResult {
        slice_results: vec![applied("one", false, None)],
        recomposed_tree: "t".to_string(),
    };
    let err = validate_exact_recomposition(&empty_plan(Some("t")), &result).unwrap_err();
    assert_eq!(err, "exact recomposition failed: slice 'one' failed to apply: unknown error");
}

#[test]
fn exact_recomposition_compares_trees() {
    let result = RecompositionResult {
        slice_results: vec![applied("one", true, None)],
        recomposed_tree: "other".to_string(),
    };
    let err = validate_exact_recomposition(&empty_plan(Some("t")), &result).unwrap_err();
    assert_eq!(err, "exact recomposition failed: expected tree t but got other");
    let same = RecompositionResult {
        slice_results: vec![applied("one", true, None)],
        recomposed_tree: "t".to_string(),
    };
    assert_eq!(validate_exact_recomposition(&empty_plan(Some("t")), &same), Ok(()));
}

#[test]
fn patch_file_names_number_from_one_in_four_digits() {
    assert_eq!(patch_file_name(0, "behavior-core"), "0001-behavior-core.patch");
    assert_eq!(patch_file_name(41, "misc"), "0042-misc.patch");
    assert_eq!(patch_file_name(12344, "x"), "12345-x.patch");
}
