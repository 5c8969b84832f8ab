//! The decisions behind the command line: exit codes, plan validation
//! outcomes and repository readiness checks.
use vstd::prelude::*;
use crate::model::{
    diags_view, lit, DiagView, Diagnostic, DiagnosticLevel, Plan, StackcutConfig, PLAN_VERSION,
};
use crate::model::{slices_view, units_view};
use crate::summary::join;
use crate::validate::{structural_diags, structural_validate};
use crate::text::{decimal, decimal_string, push_str, Str};

verus! {

/// Stable exit codes for the command line.
#[derive(Debug, Clone, Copy, PartialEq, Eq, Structural)]
pub enum ExitCode {
    Success,
    StructuralError,
    RecompositionFailure,
    OverrideConflict,
    UnsupportedSurface,
    InternalBug,
}

pub open spec fn exit_value(c: ExitCode) -> i32 {
    match c {
        ExitCode::Success => 0,
        ExitCode::StructuralError => 1,
        ExitCode::RecompositionFailure => 2,
        ExitCode::OverrideConflict => 3,
        ExitCode::UnsupportedSurface => 4,
        ExitCode::InternalBug => 10,
    }
}

impl ExitCode {
    /// The process exit status of this code.
    pub fn code(&self) -> (r: i32)
        ensures
            r == exit_value(*self),
    {
        match self {
            ExitCode::Success => 0,
            ExitCode::StructuralError => 1,
            ExitCode::RecompositionFailure => 2,
            ExitCode::OverrideConflict => 3,
            ExitCode::UnsupportedSurface => 4,
            ExitCode::InternalBug => 10,
        }
    }
}

/// Some diagnostic is an error.
pub open spec fn has_error(d: Seq<DiagView>) -> bool {
    exists|i: int| 0 <= i < d.len() && #[trigger] d[i].level == DiagnosticLevel::Error
}

/// Whether some diagnostic is an error.
pub fn has_errors(diagnostics: &Vec<Diagnostic>) -> (r: bool)
    ensures
        r == has_error(diags_view(diagnostics@)),
{
    let ghost dv = diags_view(diagnostics@);
    let mut i: usize = 0;
    while i < diagnostics.len()
        invariant
            dv == diags_view(diagnostics@),
            0 <= i <= diagnostics@.len(),
            forall|k: int| 0 <= k < i ==> dv[k].level != DiagnosticLevel::Error,
        decreases diagnostics@.len() - i,
    {
        proof {
            assert(dv[i as int] == diagnostics@[i as int]@);
        }
        if diagnostics[i].level == DiagnosticLevel::Error {
            return true;
        }
        i = i + 1;
    }
    false
}

/// The outcome of validating a stored plan: a plan of another version or
/// with structural errors fails structurally; a failed exact recomposition
/// fails as such; anything else succeeds.
pub open spec fn validation_outcome(
    version: Str,
    d: Seq<DiagView>,
    exact: Option<Result<(), Str>>,
) -> ExitCode {
    if version != PLAN_VERSION@ {
        ExitCode::StructuralError
    } else if has_error(d) {
        ExitCode::StructuralError
    } else {
        match exact {
            Some(Err(_)) => ExitCode::RecompositionFailure,
            _ => ExitCode::Success,
        }
    }
}

pub open spec fn result_view(r: Option<Result<(), String>>) -> Option<Result<(), Str>> {
    match r {
        Some(Ok(())) => Some(Ok(())),
        Some(Err(e)) => Some(Err(e@)),
        None => None,
    }
}

/// The exit code of validating a plan: its version and structural
/// diagnostics decide first, then, when exact recomposition was checked,
/// its outcome.
pub fn validation_exit_code(plan: &Plan, exact: &Option<Result<(), String>>) -> (r: ExitCode)
    ensures
        r == validation_outcome(
            plan.version@,
            structural_diags(units_view(plan.units@), slices_view(plan.slices@)),
            result_view(*exact),
        ),
{
    let version = lit(PLAN_VERSION);
    if !(plan.version == version) {
        return ExitCode::StructuralError;
    }
    let diagnostics = structural_validate(plan);
    if has_errors(&diagnostics) {
        return ExitCode::StructuralError;
    }
    match exact {
        Some(Err(_)) => ExitCode::RecompositionFailure,
        _ => ExitCode::Success,
    }
}

// ---------------------------------------------------------------------------
// Readiness checks
// ---------------------------------------------------------------------------

/// The outcome of one readiness check.
#[derive(Debug, Clone, Copy, PartialEq, Eq, Structural)]
pub enum DoctorStatus {
    Pass,
    Warning,
    Error,
}

/// How the readiness report prints a status.
pub open spec fn status_label(s: DoctorStatus) -> Str {
    match s {
        DoctorStatus::Pass => "ok"@,
        DoctorStatus::Warning => "warn"@,
        DoctorStatus::Error => "ERROR"@,
    }
}

impl DoctorStatus {
    /// The label the readiness report prints for this status.
    pub fn label(&self) -> (r: &'static str)
        ensures
            r@ == status_label(*self),
    {
        match self {
            DoctorStatus::Pass => "ok",
            DoctorStatus::Warning => "warn",
            DoctorStatus::Error => "ERROR",
        }
    }
}

/// One readiness check: its name, outcome and explanation.
#[derive(Debug, Clone, PartialEq, Eq)]
pub struct DoctorCheck {
    pub name: String,
    pub status: DoctorStatus,
    pub message: String,
}

/// The view of a check.
pub open spec fn check_view(c: DoctorCheck) -> (Str, DoctorStatus, Str) {
    (c.name@, c.status, c.message@)
}

fn check(name: &str, status: DoctorStatus, message: String) -> (r: DoctorCheck)
    ensures
        check_view(r) == (name@, status, message@),
{
    DoctorCheck { name: lit(name), status, message }
}

/// The repository check: where Git found the repository, or that it found none.
pub fn check_git_repo(root: &Option<String>) -> (r: DoctorCheck)
    ensures
        check_view(r) == (match root {
            Some(p) => ("git-repo"@, DoctorStatus::Pass, "git repository found at "@ + p@),
            None => ("git-repo"@, DoctorStatus::Error, "no git repository found"@),
        }),
{
    match root {
        Some(p) => {
            let mut m = lit("git repository found at ");
            push_str(&mut m, p.as_str());
            check("git-repo", DoctorStatus::Pass, m)
        },
        None => check("git-repo", DoctorStatus::Error, lit("no git repository found")),
    }
}

/// The configuration file check.
pub fn check_config_file(exists: bool) -> (r: DoctorCheck)
    ensures
        check_view(r) == (if exists {
            ("config-file"@, DoctorStatus::Pass, "stackcut.toml found"@)
        } else {
            (
                "config-file"@,
                DoctorStatus::Warning,
                "stackcut.toml not found \u{2014} defaults will be used"@,
            )
        }),
{
    if exists {
        check("config-file", DoctorStatus::Pass, lit("stackcut.toml found"))
    } else {
        check(
            "config-file",
            DoctorStatus::Warning,
            lit("stackcut.toml not found \u{2014} defaults will be used"),
        )
    }
}

/// The configuration parse check: clean, with warnings, or failed.
pub fn check_config_parse(parsed: &Result<(StackcutConfig, Vec<Diagnostic>), String>) -> (r: DoctorCheck)
    ensures
        check_view(r) == (match parsed {
            Ok((_, d)) => if d@.len() == 0 {
                ("config-parse"@, DoctorStatus::Pass, "config parses cleanly"@)
            } else {
                (
                    "config-parse"@,
                    DoctorStatus::Warning,
                    "config parsed with warnings: "@ + join(
                        diags_view(d@).map_values(|x: DiagView| x.message),
                        "; "@,
                    ),
                )
            },
            Err(e) => ("config-parse"@, DoctorStatus::Error, "config parse error: "@ + e@),
        }),
{
    match parsed {
        Ok((_, d)) => {
            if d.len() == 0 {
                check("config-parse", DoctorStatus::Pass, lit("config parses cleanly"))
            } else {
                let mut messages: Vec<String> = Vec::new();
                let mut i: usize = 0;
                while i < d.len()
                    invariant
                        0 <= i <= d@.len(),
                        messages.deep_view() == diags_view(d@).take(i as int).map_values(
                            |x: DiagView| x.message,
                        ),
                    decreases d@.len() - i,
                {
                    let ghost before = messages.deep_view();
                    messages.push(d[i].message.clone());
                    proof {
                        assert(messages.deep_view() =~= before.push(d@[i as int].message@));
                        assert(diags_view(d@)[i as int] == d@[i as int]@);
                        assert(messages.deep_view() =~= diags_view(d@).take(i + 1).map_values(
                            |x: DiagView| x.message,
                        ));
                    }
                    i = i + 1;
                }
                proof {
                    assert(diags_view(d@).take(d@.len() as int) =~= diags_view(d@));
                }
                let mut m = lit("config parsed with warnings: ");
                crate::summary::push_joined(&mut m, &messages, "; ");
                check("config-parse", DoctorStatus::Warning, m)
            }
        },
        Err(e) => {
            let mut m = lit("config parse error: ");
            push_str(&mut m, e.as_str());
            check("config-parse", DoctorStatus::Error, m)
        },
    }
}

/// The path-family check.
pub fn check_path_families(config: &StackcutConfig) -> (r: DoctorCheck)
    ensures
        check_view(r) == (if config.path_families@.len() == 0 {
            (
                "path-families"@,
                DoctorStatus::Warning,
                "no path_families configured \u{2014} family inference will use directory heuristics"@,
            )
        } else {
            (
                "path-families"@,
                DoctorStatus::Pass,
                decimal(config.path_families@.len()) + " path_families rule(s) configured"@,
            )
        }),
{
    if config.path_families.len() == 0 {
        check(
            "path-families",
            DoctorStatus::Warning,
            lit("no path_families configured \u{2014} family inference will use directory heuristics"),
        )
    } else {
        let mut m = decimal_string(config.path_families.len());
        push_str(&mut m, " path_families rule(s) configured");
        check("path-families", DoctorStatus::Pass, m)
    }
}

/// The override file check; a missing file is fine.
pub fn check_override_file(exists: bool) -> (r: DoctorCheck)
    ensures
        check_view(r) == (if exists {
            (
                "override-file"@,
                DoctorStatus::Pass,
                "override.toml found at .stackcut/override.toml"@,
            )
        } else {
            (
                "override-file"@,
                DoctorStatus::Pass,
                ".stackcut/override.toml not found \u{2014} no overrides active"@,
            )
        }),
{
    if exists {
        check("override-file", DoctorStatus::Pass, lit("override.toml found at .stackcut/override.toml"))
    } else {
        check(
            "override-file",
            DoctorStatus::Pass,
            lit(".stackcut/override.toml not found \u{2014} no overrides active"),
        )
    }
}

/// The output directory check: `.stackcut` may be a directory or absent,
/// not a file.
pub fn check_output_directory(is_dir: bool, exists: bool) -> (r: DoctorCheck)
    ensures
        check_view(r) == (if is_dir {
            ("output-dir"@, DoctorStatus::Pass, ".stackcut/ directory exists"@)
        } else if exists {
            (
                "output-dir"@,
                DoctorStatus::Error,
                ".stackcut exists but is not a directory \u{2014} this will block normal operation"@,
            )
        } else {
            (
                "output-dir"@,
                DoctorStatus::Pass,
                ".stackcut/ directory not found \u{2014} will be created on first plan"@,
            )
        }),
{
    if is_dir {
        check("output-dir", DoctorStatus::Pass, lit(".stackcut/ directory exists"))
    } else if exists {
        check(
            "output-dir",
            DoctorStatus::Error,
            lit(".stackcut exists but is not a directory \u{2014} this will block normal operation"),
        )
    } else {
        check(
            "output-dir",
            DoctorStatus::Pass,
            lit(".stackcut/ directory not found \u{2014} will be created on first plan"),
        )
    }
}

/// The manifest coverage check, given the configured manifest files found
/// in the repository.
pub fn check_manifest_coverage(config: &StackcutConfig, found: &Vec<String>) -> (r: DoctorCheck)
    ensures
        check_view(r) == (if found@.len() == 0 {
            (
                "manifest-coverage"@,
                DoctorStatus::Warning,
                "no configured manifest files found (checked: "@ + join(
                    config.manifest_files.deep_view(),
                    ", "@,
                ) + ")"@,
            )
        } else {
            (
                "manifest-coverage"@,
                DoctorStatus::Pass,
                "manifest files found: "@ + join(found.deep_view(), ", "@),
            )
        }),
{
    if found.len() == 0 {
        let mut m = lit("no configured manifest files found (checked: ");
        crate::summary::push_joined(&mut m, &config.manifest_files, ", ");
        push_str(&mut m, ")");
        check("manifest-coverage", DoctorStatus::Warning, m)
    } else {
        let mut m = lit("manifest files found: ");
        crate::summary::push_joined(&mut m, found, ", ");
        check("manifest-coverage", DoctorStatus::Pass, m)
    }
}

/// Where the code owners file may live, in the order they are looked for.
pub open spec fn codeowners_places() -> Seq<Str> {
    seq!["CODEOWNERS"@, ".github/CODEOWNERS"@, "docs/CODEOWNERS"@]
}

/// The code owners check, given which of the places hold the file.
pub fn check_codeowners(present: [bool; 3]) -> (r: DoctorCheck)
    ensures
        check_view(r) == (if present@[0] {
            ("codeowners"@, DoctorStatus::Pass, "CODEOWNERS found at "@ + codeowners_places()[0])
        } else if present@[1] {
            ("codeowners"@, DoctorStatus::Pass, "CODEOWNERS found at "@ + codeowners_places()[1])
        } else if present@[2] {
            ("codeowners"@, DoctorStatus::Pass, "CODEOWNERS found at "@ + codeowners_places()[2])
        } else {
            ("codeowners"@, DoctorStatus::Warning, "no CODEOWNERS file found"@)
        }),
{
    let places: [&str; 3] = ["CODEOWNERS", ".github/CODEOWNERS", "docs/CODEOWNERS"];
    let mut i: usize = 0;
    while i < 3
        invariant
            0 <= i <= 3,
            places@.len() == 3,
            places@[0]@ == codeowners_places()[0],
            places@[1]@ == codeowners_places()[1],
            places@[2]@ == codeowners_places()[2],
            forall|k: int| 0 <= k < i ==> !present@[k],
        decreases 3 - i,
    {
        if present[i] {
            let mut m = lit("CODEOWNERS found at ");
            push_str(&mut m, places[i]);
            return check("codeowners", DoctorStatus::Pass, m);
        }
        i = i + 1;
    }
    check("codeowners", DoctorStatus::Warning, lit("no CODEOWNERS file found"))
}

/// How many checks have the status.
pub open spec fn count_status(c: Seq<DoctorCheck>, s: DoctorStatus) -> nat
    decreases c.len(),
{
    if c.len() == 0 {
        0
    } else {
        count_status(c.drop_last(), s) + if c.last().status == s {
            1nat
        } else {
            0nat
        }
    }
}

/// The readiness report's counts (ok, warnings, errors) and exit code: a
/// structural error when any check failed.
pub fn doctor_outcome(checks: &Vec<DoctorCheck>) -> (r: (usize, usize, usize, ExitCode))
    ensures
        r.0 == count_status(checks@, DoctorStatus::Pass),
        r.1 == count_status(checks@, DoctorStatus::Warning),
        r.2 == count_status(checks@, DoctorStatus::Error),
        r.3 == (if r.2 > 0 {
            ExitCode::StructuralError
        } else {
            ExitCode::Success
        }),
{
    let mut ok: usize = 0;
    let mut warn: usize = 0;
    let mut err: usize = 0;
    let mut i: usize = 0;
    while i < checks.len()
        invariant
            0 <= i <= checks@.len(),
            ok == count_status(checks@.take(i as int), DoctorStatus::Pass),
            warn == count_status(checks@.take(i as int), DoctorStatus::Warning),
            err == count_status(checks@.take(i as int), DoctorStatus::Error),
            ok + warn + err == i,
        decreases checks@.len() - i,
    {
        proof {
            assert(checks@.take(i + 1).drop_last() =~= checks@.take(i as int));
            assert(checks@.take(i + 1).last() == checks@[i as int]);
        }
        match checks[i].status {
            DoctorStatus::Pass => {
                ok = ok + 1;
            },
            DoctorStatus::Warning => {
                warn = warn + 1;
            },
            DoctorStatus::Error => {
                err = err + 1;
            },
        }
        i = i + 1;
    }
    proof {
        assert(checks@.take(checks@.len() as int) =~= checks@);
    }
    let code = if err > 0 {
        ExitCode::StructuralError
    } else {
        ExitCode::Success
    };
    (ok, warn, err, code)
}

} // verus!
