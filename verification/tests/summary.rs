use stackcut::model::{
    Ambiguity, ChangeStatus, Diagnostic, DiagnosticLevel, EditUnit, InclusionReason, Plan,
    PlanSource, ProofSurface, Slice, SliceKind, UnitKind,
};
use stackcut::summary::{
    compute_fingerprint, diagnostic_counts, diagnostics_envelope, render_summary,
};

use stackcut::model::{Overrides, StackcutConfig};
use ChangeStatus::{Added, Modified, Renamed};
use stackcut::planner::plan;

fn diag(level: DiagnosticLevel, code: &str, message: &str) -> Diagnostic {
    Diagnostic { level, code: code.to_string(), message: message.to_string() }
}

fn sample_plan() -> Plan {
    Plan {
        version: "0.1.0".to_string(),
        source: PlanSource {
            repo_root: None,
            base: "base".to_string(),
            head: "head".to_string(),
            head_tree: None,
        },
        units: vec![EditUnit {
            id: "path:src/core/planner.rs".to_string(),
            path: "src/core/planner.rs".to_string(),
            old_path: None,
            status: ChangeStatus::Modified,
            kind: UnitKind::Behavior,
            family: "core".to_string(),
            notes: Vec::new(),
        }],
        slices: vec![Slice {
            id: "behavior-core".to_string(),
            title: "Behavior: core".to_string(),
            kind: SliceKind::Behavior,
            families: vec!["core".to_string()],
            members: vec!["path:src/core/planner.rs".to_string()],
            depends_on: Vec::new(),
            reasons: Vec::new(),
            proof_surface: ProofSurface { scenario_ids: Vec::new(), expected_commands: Vec::new() },
        }],
        ambiguities: Vec::new(),
        diagnostics: vec![diag(DiagnosticLevel::Note, "ok", "summary smoke")],
        fingerprint: None,
        override_fingerprint: None,
    }
}

#[test]
fn summary_includes_slice_ids_and_diagnostics() {
    let rendered = render_summary(&sample_plan());
    assert!(rendered.contains("behavior-core"));
    assert!(rendered.contains("summary smoke"));
}

#[test]
fn summary_renders_exact_markdown() {
    let mut p = sample_plan();
    p.slices[0].depends_on = vec!["prep".to_string()];
    p.slices[0].reasons =
        vec![InclusionReason { code: "family".to_string(), message: "same family".to_string() }];
    p.ambiguities.push(Ambiguity {
        id: "amb-1".to_string(),
        message: "unclear".to_string(),
        affected_units: vec!["path:README.md".to_string()],
        candidate_slices: vec![],
        resolution: "kept apart".to_string(),
    });
    let expected = "# stackcut summary\n\n\
- base: `base`\n- head: `head`\n- slices: `1`\n- ambiguities: `1`\n\n\
## slices\n\n\
### `behavior-core` \u{2014} Behavior: core (Behavior)\n\n\
- families: core\n\
- depends on: prep\n\
- members:\n  - `path:src/core/planner.rs`\n\
- reasons:\n  - `family`: same family\n\n\
## ambiguities\n\n\
### `amb-1`\n\nunclear\n\n\
- affected: path:README.md\n\
- resolution: kept apart\n\n\
## diagnostics\n\n\
- `Note` `ok`: summary smoke\n\n";
    assert_eq!(render_summary(&p), expected);
}

#[test]
fn diagnostic_counts_count_each_level() {
    let ds = vec![
        diag(DiagnosticLevel::Error, "a", "x"),
        diag(DiagnosticLevel::Warning, "b", "y"),
        diag(DiagnosticLevel::Warning, "c", "z"),
    ];
    let c = diagnostic_counts(&ds);
    assert_eq!((c.errors, c.warnings, c.notes), (1, 2, 0));
    assert_eq!(c.errors + c.warnings + c.notes, ds.len());
}

#[test]
fn diagnostics_envelope_copies_plan_diagnostics() {
    let p = sample_plan();
    let env = diagnostics_envelope(&p, "2024-01-01T00:00:00+00:00".to_string());
    assert_eq!(env.source_base, "base");
    assert_eq!(env.source_head, "head");
    assert_eq!(env.generated_at, "2024-01-01T00:00:00+00:00");
    assert_eq!(env.counts.notes, 1);
    assert_eq!(env.diagnostics, p.diagnostics);
}

#[test]
fn compute_fingerprint_is_sha256_hex_of_the_bytes() {
    assert_eq!(
        compute_fingerprint(b"abc"),
        "ba7816bf8f01cfea414140de5dae2223b00361a396177a9cb410ff61f20015ad"
    );
    assert_ne!(compute_fingerprint(b"abc"), compute_fingerprint(b"abd"));
}

#[test]
fn without_fingerprint_clears_only_the_fingerprint() {
    let mut p = sample_plan();
    p.fingerprint = Some("abc".to_string());
    p.override_fingerprint = Some("def".to_string());
    let q = stackcut::summary::without_fingerprint(&p);
    assert_eq!(q.fingerprint, None);
    p.fingerprint = None;
    assert_eq!(q, p);
}

fn fixture_unit(
    path: &str,
    old_path: Option<&str>,
    status: ChangeStatus,
    kind: UnitKind,
    family: &str,
) -> EditUnit {
    EditUnit {
        id: format!("path:{}", path),
        path: path.to_string(),
        old_path: old_path.map(|p| p.to_string()),
        status,
        kind,
        family: family.to_string(),
        notes: Vec::new(),
    }
}

/// The canonical scenarios, one unit list each.
fn fixture_cases() -> Vec<(&'static str, Vec<EditUnit>)> {
    vec![
        (
            "01-feature-plus-refactor",
            vec![
                fixture_unit("src/core/engine.rs", Some("src/core/old_engine.rs"), Renamed, UnitKind::Mechanical, "core"),
                fixture_unit("config/app.yaml", None, Modified, UnitKind::OpsConfig, "config"),
                fixture_unit("src/core/feature.rs", None, Added, UnitKind::Behavior, "core"),
                fixture_unit("tests/core_feature.rs", None, Added, UnitKind::Test, "core"),
            ],
        ),
        (
            "02-generated-follows-source",
            vec![
                fixture_unit("src/api/schema.rs", None, Modified, UnitKind::Behavior, "api"),
                fixture_unit("generated/api/schema.rs", None, Modified, UnitKind::Generated, "api"),
            ],
        ),
        (
            "03-manifest-lockfile",
            vec![
                fixture_unit("Cargo.toml", None, Modified, UnitKind::Manifest, "root"),
                fixture_unit("Cargo.lock", None, Modified, UnitKind::Lockfile, "root"),
            ],
        ),
        (
            "04-docs-and-tests-attach",
            vec![
                fixture_unit("src/git/diff.rs", None, Modified, UnitKind::Behavior, "git"),
                fixture_unit("docs/git.md", None, Modified, UnitKind::Documentation, "git"),
                fixture_unit("tests/git_diff.rs", None, Modified, UnitKind::Test, "git"),
            ],
        ),
        (
            "05-ambiguous-root-doc",
            vec![
                fixture_unit("README.md", None, Modified, UnitKind::Documentation, "root"),
                fixture_unit("src/core/a.rs", None, Modified, UnitKind::Behavior, "core"),
                fixture_unit("src/git/b.rs", None, Modified, UnitKind::Behavior, "git"),
            ],
        ),
    ]
}

fn load_fixture_plan(units: Vec<EditUnit>) -> Plan {
    let source = PlanSource {
        repo_root: None,
        base: "fixture-base".to_string(),
        head: "fixture-head".to_string(),
        head_tree: None,
    };
    plan(source, units, &StackcutConfig::default(), &Overrides::default(), b"")
}

fn diagnostics_json(diagnostics: &[Diagnostic]) -> String {
    let list: Vec<serde_json::Value> = diagnostics
        .iter()
        .map(|d| {
            let mut m = serde_json::Map::new();
            m.insert("level".to_string(), serde_json::Value::String(format!("{:?}", d.level).to_lowercase()));
            m.insert("code".to_string(), serde_json::Value::String(d.code.clone()));
            m.insert("message".to_string(), serde_json::Value::String(d.message.clone()));
            serde_json::Value::Object(m)
        })
        .collect();
    serde_json::to_string_pretty(&serde_json::Value::Array(list)).unwrap()
}

#[test]
fn snapshot_render_summary_all_fixtures() {
    for (case_name, units) in fixture_cases() {
        let plan = load_fixture_plan(units);
        let summary = render_summary(&plan);
        assert!(!summary.is_empty(), "[{}] render_summary produced empty output", case_name);
        assert!(summary.contains("fixture-base"), "[{}] summary missing base ref", case_name);
        assert!(summary.contains("fixture-head"), "[{}] summary missing head ref", case_name);
        for slice in &plan.slices {
            assert!(
                summary.contains(&slice.id),
                "[{}] summary missing slice ID '{}'",
                case_name,
                slice.id
            );
        }
        assert!(
            summary.contains(&format!("`{}`", plan.slices.len())),
            "[{}] summary missing slice count",
            case_name
        );
        let summary2 = render_summary(&plan);
        assert_eq!(summary, summary2, "[{}] render_summary is not stable across calls", case_name);
    }
}

#[test]
fn snapshot_diagnostics_all_fixtures() {
    for (case_name, units) in fixture_cases() {
        let plan = load_fixture_plan(units);
        let json = diagnostics_json(&plan.diagnostics);
        let parsed: serde_json::Value = serde_json::from_str(&json)
            .unwrap_or_else(|e| panic!("[{}] Diagnostics JSON failed to round-trip: {}", case_name, e));
        let parsed = parsed.as_array().unwrap().clone();
        assert_eq!(
            parsed.len(),
            plan.diagnostics.len(),
            "[{}] diagnostics count mismatch after round-trip",
            case_name
        );
        for diag in &parsed {
            assert!(!diag["code"].as_str().unwrap().is_empty(), "[{}] diagnostic has empty code", case_name);
            assert!(
                !diag["message"].as_str().unwrap().is_empty(),
                "[{}] diagnostic has empty message",
                case_name
            );
        }
        let json2 = diagnostics_json(&plan.diagnostics);
        assert_eq!(json, json2, "[{}] diagnostics serialization is not stable", case_name);
    }
}
