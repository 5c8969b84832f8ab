use stackcut::cli::{
    check_codeowners, check_config_file, check_config_parse, check_git_repo,
    check_manifest_coverage, check_output_directory, check_override_file, check_path_families,
    doctor_outcome, has_errors, validation_exit_code, DoctorCheck, DoctorStatus, ExitCode,
};
use stackcut::config::parse_config;
use stackcut::model::{
    new_slice, Diagnostic, DiagnosticLevel, PathFamilyRule, Plan, PlanSource, SliceKind,
    StackcutConfig, PLAN_VERSION,
};

fn minimal_plan(version: &str) -> Plan {
    Plan {
        version: version.to_string(),
        source: PlanSource {
            repo_root: None,
            base: "b".to_string(),
            head: "h".to_string(),
            head_tree: None,
        },
        units: vec![],
        slices: vec![],
        ambiguities: vec![],
        diagnostics: vec![],
        fingerprint: None,
        override_fingerprint: None,
    }
}

fn diag(level: DiagnosticLevel) -> Diagnostic {
    Diagnostic { level, code: "c".to_string(), message: "m".to_string() }
}

#[test]
fn doctor_check_config_file_missing() {
    let check = check_config_file(false);
    assert_eq!(check.status, DoctorStatus::Warning);
    assert!(check.message.contains("not found"));
}

#[test]
fn doctor_check_config_file_present() {
    let check = check_config_file(true);
    assert_eq!(check.status, DoctorStatus::Pass);
}

#[test]
fn doctor_check_config_parse_valid() {
    let parsed = parse_config("version = 1\n", Ok(StackcutConfig::default()));
    let check = check_config_parse(&parsed);
    assert_eq!(check.status, DoctorStatus::Pass);
    assert!(check.message.contains("parses cleanly"));
    assert!(parsed.is_ok());
}

#[test]
fn doctor_check_config_parse_invalid() {
    let parsed = parse_config("{{bad toml", Ok(StackcutConfig::default()));
    let check = check_config_parse(&parsed);
    assert_eq!(check.status, DoctorStatus::Error);
    assert!(parsed.is_err());
}

#[test]
fn doctor_check_config_parse_unknown_keys() {
    let parsed = parse_config("version = 1\nfoo_unknown = true\n", Ok(StackcutConfig::default()));
    let check = check_config_parse(&parsed);
    assert_eq!(check.status, DoctorStatus::Warning);
    assert!(check.message.contains("warnings"));
    assert!(parsed.is_ok());
}

#[test]
fn doctor_check_path_families_empty() {
    let config = StackcutConfig { path_families: vec![], ..StackcutConfig::default() };
    let check = check_path_families(&config);
    assert_eq!(check.status, DoctorStatus::Warning);
    assert!(check.message.contains("no path_families"));
}

#[test]
fn doctor_check_path_families_present() {
    let config = StackcutConfig {
        path_families: vec![PathFamilyRule {
            prefix: "src/".to_string(),
            family: "core".to_string(),
        }],
        ..StackcutConfig::default()
    };
    let check = check_path_families(&config);
    assert_eq!(check.status, DoctorStatus::Pass);
    assert!(check.message.contains("1 path_families rule(s)"));
}

#[test]
fn doctor_check_override_file_present() {
    let check = check_override_file(true);
    assert_eq!(check.status, DoctorStatus::Pass);
    assert!(check.message.contains("override.toml found"));
}

#[test]
fn doctor_check_override_file_absent() {
    let check = check_override_file(false);
    assert_eq!(check.status, DoctorStatus::Pass);
    assert!(check.message.contains("not found"));
}

#[test]
fn doctor_check_output_directory_present() {
    let check = check_output_directory(true, true);
    assert_eq!(check.status, DoctorStatus::Pass);
    assert!(check.message.contains("exists"));
}

#[test]
fn doctor_check_output_directory_absent() {
    let check = check_output_directory(false, false);
    assert_eq!(check.status, DoctorStatus::Pass);
    assert!(check.message.contains("will be created"));
}

#[test]
fn doctor_check_output_directory_is_regular_file() {
    let check = check_output_directory(false, true);
    assert_eq!(check.status, DoctorStatus::Error);
    assert!(check.message.contains("not a directory"));
}

#[test]
fn doctor_check_manifest_coverage_found() {
    let config = StackcutConfig::default();
    let check = check_manifest_coverage(&config, &vec!["Cargo.toml".to_string()]);
    assert_eq!(check.status, DoctorStatus::Pass);
    assert!(check.message.contains("Cargo.toml"));
}

#[test]
fn doctor_check_manifest_coverage_none() {
    let config = StackcutConfig::default();
    let check = check_manifest_coverage(&config, &vec![]);
    assert_eq!(check.status, DoctorStatus::Warning);
    assert!(check.message.contains("no configured manifest files found"));
    assert_eq!(
        check.message,
        "no configured manifest files found (checked: Cargo.toml, package.json, pyproject.toml)"
    );
}

#[test]
fn doctor_check_codeowners_github() {
    let check = check_codeowners([false, true, false]);
    assert_eq!(check.status, DoctorStatus::Pass);
    assert!(check.message.contains(".github/CODEOWNERS"));
}

#[test]
fn doctor_check_codeowners_root() {
    let check = check_codeowners([true, true, false]);
    assert_eq!(check.status, DoctorStatus::Pass);
    assert_eq!(check.message, "CODEOWNERS found at CODEOWNERS");
}

#[test]
fn doctor_check_codeowners_docs() {
    let check = check_codeowners([false, false, true]);
    assert_eq!(check.status, DoctorStatus::Pass);
    assert!(check.message.contains("docs/CODEOWNERS"));
}

#[test]
fn doctor_check_codeowners_missing() {
    let check = check_codeowners([false, false, false]);
    assert_eq!(check.status, DoctorStatus::Warning);
    assert!(check.message.contains("no CODEOWNERS file found"));
}

#[test]
fn doctor_check_git_repo_not_found() {
    let check = check_git_repo(&None);
    assert_eq!(check.status, DoctorStatus::Error);
    assert!(check.message.contains("no git repository found"));
}

#[test]
fn doctor_check_git_repo_found() {
    let check = check_git_repo(&Some("/work/repo".to_string()));
    assert_eq!(check.status, DoctorStatus::Pass);
    assert_eq!(check.message, "git repository found at /work/repo");
}

#[test]
fn doctor_outcome_counts_and_fails_on_errors() {
    let checks: Vec<DoctorCheck> = vec![
        check_config_file(true),
        check_config_file(false),
        check_output_directory(false, true),
    ];
    let (ok, warn, err, code) = doctor_outcome(&checks);
    assert_eq!((ok, warn, err), (1, 1, 1));
    assert_eq!(code, ExitCode::StructuralError);
    let (_, _, _, clean) = doctor_outcome(&vec![check_config_file(true)]);
    assert_eq!(clean, ExitCode::Success);
}

#[test]
fn exit_codes_are_stable() {
    assert_eq!(ExitCode::Success.code(), 0);
    assert_eq!(ExitCode::StructuralError.code(), 1);
    assert_eq!(ExitCode::RecompositionFailure.code(), 2);
    assert_eq!(ExitCode::OverrideConflict.code(), 3);
    assert_eq!(ExitCode::UnsupportedSurface.code(), 4);
    assert_eq!(ExitCode::InternalBug.code(), 10);
}

#[test]
fn unsupported_plan_version_is_structural_error() {
    let p = minimal_plan("9.9.9");
    assert_eq!(validation_exit_code(&p, &None), ExitCode::StructuralError);
}

#[test]
fn validation_exit_code_follows_errors_and_recomposition() {
    let p = minimal_plan(PLAN_VERSION);
    assert_eq!(validation_exit_code(&p, &None), ExitCode::Success);
    let mut warned = minimal_plan(PLAN_VERSION);
    warned.slices = vec![new_slice("a", "A", SliceKind::Behavior, vec![], vec![], vec![], vec![])];
    assert_eq!(validation_exit_code(&warned, &Some(Ok(()))), ExitCode::Success);
    let mut broken = minimal_plan(PLAN_VERSION);
    broken.slices =
        vec![new_slice("a", "A", SliceKind::Behavior, vec![], vec![], vec!["a".to_string()], vec![])];
    assert_eq!(validation_exit_code(&broken, &None), ExitCode::StructuralError);
    assert_eq!(
        validation_exit_code(&broken, &Some(Err("mismatch".to_string()))),
        ExitCode::StructuralError
    );
    assert_eq!(
        validation_exit_code(&p, &Some(Err("mismatch".to_string()))),
        ExitCode::RecompositionFailure
    );
    assert!(has_errors(&vec![diag(DiagnosticLevel::Note), diag(DiagnosticLevel::Error)]));
    assert!(!has_errors(&vec![diag(DiagnosticLevel::Note)]));
}

#[test]
fn doctor_status_labels() {
    assert_eq!(DoctorStatus::Pass.label(), "ok");
    assert_eq!(DoctorStatus::Warning.label(), "warn");
    assert_eq!(DoctorStatus::Error.label(), "ERROR");
}

#[test]
fn doctor_check_manifest_coverage_matches_by_filename() {
    let config = StackcutConfig {
        manifest_files: vec!["Cargo.toml".to_string()],
        ..StackcutConfig::default()
    };
    let check = check_manifest_coverage(&config, &vec!["Cargo.toml".to_string()]);
    assert_eq!(check.status, DoctorStatus::Pass);
    assert!(check.message.contains("Cargo.toml"));
}
