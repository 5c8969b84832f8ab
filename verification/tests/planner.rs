use stackcut::model::{
    new_slice, ChangeStatus, Diagnostic, EditUnit, ForceMemberOverride, MustLinkOverride,
    MustOrderOverride, Overrides, Plan, PlanSource, RenameSliceOverride, SliceKind,
    StackcutConfig, UnitKind, PLAN_VERSION,
};
use stackcut::overrides::apply_overrides;
use stackcut::phases::build_misc_unassigned;
use stackcut::planner::plan;
use stackcut::validate::{structural_validate, validate_overrides};

fn unit(id: &str, path: &str, kind: UnitKind, family: &str) -> EditUnit {
    EditUnit {
        id: id.to_string(),
        path: path.to_string(),
        old_path: None,
        status: ChangeStatus::Modified,
        kind,
        family: family.to_string(),
        notes: Vec::new(),
    }
}

fn source() -> PlanSource {
    PlanSource {
        repo_root: None,
        base: "base".to_string(),
        head: "head".to_string(),
        head_tree: None,
    }
}

fn make_unit(id: &str, family: &str) -> EditUnit {
    EditUnit {
        id: id.to_string(),
        path: format!("src/{}.rs", id),
        old_path: None,
        status: ChangeStatus::Modified,
        kind: UnitKind::Behavior,
        family: family.to_string(),
        notes: Vec::new(),
    }
}

#[test]
fn build_misc_unassigned_returns_some_when_unassigned_units_exist() {
    let units = vec![
        make_unit("unit-assigned", "core"),
        make_unit("unit-free", "core"),
    ];
    let assigned = vec!["unit-assigned".to_string()];

    let result = build_misc_unassigned(&units, &assigned);

    let (slice, ids) = result.expect("should return Some when there are unassigned units");

    assert_eq!(slice.id, "misc-unassigned");

    assert!(
        slice.members.contains(&"unit-free".to_string()),
        "slice members should contain the unassigned unit; got: {:?}",
        slice.members
    );
    assert!(
        !slice.members.contains(&"unit-assigned".to_string()),
        "slice members must not contain the already-assigned unit"
    );

    assert!(
        slice.reasons.iter().any(|r| r.code == "misc-catchall"),
        "slice must carry the 'misc-catchall' reason code; reasons: {:?}",
        slice.reasons
    );

    assert!(
        ids.contains(&"unit-free".to_string()),
        "returned id list should contain the unassigned unit"
    );
}

#[test]
fn build_misc_unassigned_returns_none_when_all_assigned() {
    let units = vec![make_unit("unit-a", "core")];
    let assigned = vec!["unit-a".to_string()];

    let result = build_misc_unassigned(&units, &assigned);
    assert!(result.is_none(), "should return None when every unit is assigned");
}

#[test]
fn docs_and_tests_attach_to_behavior_family() {
    let units = vec![
        unit("path:src/core/planner.rs", "src/core/planner.rs", UnitKind::Behavior, "core"),
        unit("path:tests/planner.rs", "tests/planner.rs", UnitKind::Test, "core"),
        unit("path:docs/planner.md", "docs/planner.md", UnitKind::Documentation, "core"),
    ];

    let plan = plan(source(), units, &StackcutConfig::default(), &Overrides::default(), b"");
    assert_eq!(plan.slices.len(), 1);
    assert_eq!(plan.slices[0].id, "behavior-core");
    assert_eq!(plan.slices[0].members.len(), 3);
}

#[test]
fn ambiguity_is_surface_for_root_docs() {
    let units = vec![
        unit("path:src/core/a.rs", "src/core/a.rs", UnitKind::Behavior, "core"),
        unit("path:src/git/b.rs", "src/git/b.rs", UnitKind::Behavior, "git"),
        unit("path:README.md", "README.md", UnitKind::Documentation, "root"),
    ];

    let plan = plan(source(), units, &StackcutConfig::default(), &Overrides::default(), b"");
    assert_eq!(plan.ambiguities.len(), 1);
    assert!(plan.slices.iter().any(|slice| slice.id == "tests-docs-root"));
}

#[test]
fn structural_validation_catches_duplicate_member() {
    let plan = Plan {
        version: PLAN_VERSION.to_string(),
        source: PlanSource {
            repo_root: None,
            base: "a".to_string(),
            head: "b".to_string(),
            head_tree: None,
        },
        units: vec![unit("path:x", "x", UnitKind::Behavior, "root")],
        slices: vec![
            new_slice(
                "behavior-root",
                "Behavior: root",
                SliceKind::Behavior,
                vec!["root".to_string()],
                vec!["path:x".to_string()],
                Vec::new(),
                Vec::new(),
            ),
            new_slice(
                "tests-docs-root",
                "Docs/tests: root",
                SliceKind::TestsDocs,
                vec!["root".to_string()],
                vec!["path:x".to_string()],
                Vec::new(),
                Vec::new(),
            ),
        ],
        ambiguities: Vec::new(),
        diagnostics: Vec::new(),
        fingerprint: None,
        override_fingerprint: None,
    };

    let diagnostics = structural_validate(&plan);
    assert!(diagnostics
        .iter()
        .any(|diagnostic| diagnostic.code == "duplicate-member"));
}

#[test]
fn validate_overrides_unknown_must_link_member() {
    let unit_ids = vec!["path:a".to_string()];
    let slice_ids = vec!["behavior-core".to_string()];
    let overrides = Overrides {
        must_link: vec![MustLinkOverride {
            members: vec!["path:a".to_string(), "path:nonexistent".to_string()],
            reason: None,
        }],
        ..Overrides::default()
    };
    let diags = validate_overrides(&overrides, &unit_ids, &slice_ids);
    assert_eq!(
        diags
            .iter()
            .filter(|d| d.code == "unknown-override-member")
            .count(),
        1
    );
    assert!(diags[0].message.contains("nonexistent"));
}

#[test]
fn validate_overrides_must_link_too_few() {
    let unit_ids = vec!["path:a".to_string()];
    let slice_ids: Vec<String> = Vec::new();
    let overrides = Overrides {
        must_link: vec![MustLinkOverride {
            members: vec!["path:a".to_string()],
            reason: None,
        }],
        ..Overrides::default()
    };
    let diags = validate_overrides(&overrides, &unit_ids, &slice_ids);
    assert!(diags.iter().any(|d| d.code == "must-link-too-few"));
}

#[test]
fn validate_overrides_unknown_force_member() {
    let unit_ids: Vec<String> = Vec::new();
    let slice_ids = vec!["s1".to_string()];
    let overrides = Overrides {
        force_members: vec![ForceMemberOverride {
            member: "path:ghost".to_string(),
            slice: "s1".to_string(),
            reason: None,
        }],
        ..Overrides::default()
    };
    let diags = validate_overrides(&overrides, &unit_ids, &slice_ids);
    assert_eq!(
        diags
            .iter()
            .filter(|d| d.code == "unknown-override-member")
            .count(),
        1
    );
}

#[test]
fn validate_overrides_unknown_rename_slice() {
    let unit_ids: Vec<String> = Vec::new();
    let slice_ids: Vec<String> = Vec::new();
    let overrides = Overrides {
        rename_slices: vec![RenameSliceOverride {
            id: "no-such-slice".to_string(),
            title: "New Title".to_string(),
        }],
        ..Overrides::default()
    };
    let diags = validate_overrides(&overrides, &unit_ids, &slice_ids);
    assert_eq!(
        diags
            .iter()
            .filter(|d| d.code == "unknown-override-slice")
            .count(),
        1
    );
}

#[test]
fn validate_overrides_unknown_must_order_slices() {
    let unit_ids: Vec<String> = Vec::new();
    let slice_ids = vec!["s1".to_string()];
    let overrides = Overrides {
        must_order: vec![MustOrderOverride {
            before: "s1".to_string(),
            after: "s-missing".to_string(),
            reason: None,
        }],
        ..Overrides::default()
    };
    let diags = validate_overrides(&overrides, &unit_ids, &slice_ids);
    assert_eq!(
        diags
            .iter()
            .filter(|d| d.code == "unknown-override-slice")
            .count(),
        1
    );
    assert!(diags[0].message.contains("s-missing"));
}

#[test]
fn validate_overrides_clean_when_all_refs_valid() {
    let unit_ids = vec!["path:a".to_string(), "path:b".to_string()];
    let slice_ids = vec!["s1".to_string(), "s2".to_string()];
    let overrides = Overrides {
        must_link: vec![MustLinkOverride {
            members: vec!["path:a".to_string(), "path:b".to_string()],
            reason: None,
        }],
        force_members: vec![ForceMemberOverride {
            member: "path:a".to_string(),
            slice: "s1".to_string(),
            reason: None,
        }],
        rename_slices: vec![RenameSliceOverride {
            id: "s1".to_string(),
            title: "New".to_string(),
        }],
        must_order: vec![MustOrderOverride {
            before: "s1".to_string(),
            after: "s2".to_string(),
            reason: None,
        }],
        ..Overrides::default()
    };
    let diags = validate_overrides(&overrides, &unit_ids, &slice_ids);
    assert!(diags.is_empty(), "Expected no diagnostics, got: {:?}", diags);
}

#[test]
fn validate_overrides_wired_into_plan() {
    let units = vec![unit("path:src/core/a.rs", "src/core/a.rs", UnitKind::Behavior, "core")];
    let overrides = Overrides {
        must_link: vec![MustLinkOverride {
            members: vec!["path:ghost".to_string()],
            reason: None,
        }],
        rename_slices: vec![RenameSliceOverride {
            id: "no-such-slice".to_string(),
            title: "X".to_string(),
        }],
        ..Overrides::default()
    };
    let result = plan(source(), units, &StackcutConfig::default(), &overrides, b"{}");
    assert!(result.diagnostics.iter().any(|d| d.code == "unknown-override-member"));
    assert!(result.diagnostics.iter().any(|d| d.code == "must-link-too-few"));
    assert!(result.diagnostics.iter().any(|d| d.code == "unknown-override-slice"));
}

#[test]
fn review_budget_exceeded_emits_warning() {
    let units = vec![
        unit("path:src/core/a.rs", "src/core/a.rs", UnitKind::Behavior, "core"),
        unit("path:src/core/b.rs", "src/core/b.rs", UnitKind::Behavior, "core"),
        unit("path:src/core/c.rs", "src/core/c.rs", UnitKind::Behavior, "core"),
    ];
    let config = StackcutConfig {
        review_budget: Some(2),
        ..StackcutConfig::default()
    };

    let result = plan(source(), units, &config, &Overrides::default(), b"");
    let budget_diags: Vec<&Diagnostic> = result
        .diagnostics
        .iter()
        .filter(|d| d.code == "review-budget-exceeded")
        .collect();
    assert_eq!(budget_diags.len(), 1);
    assert!(budget_diags[0].message.contains("behavior-core"));
    assert!(budget_diags[0].message.contains("3 members"));
    assert!(budget_diags[0].message.contains("budget: 2"));
}

#[test]
fn review_budget_default_is_15() {
    let units: Vec<EditUnit> = (0..16)
        .map(|i| {
            unit(
                &format!("path:src/core/{}.rs", i),
                &format!("src/core/{}.rs", i),
                UnitKind::Behavior,
                "core",
            )
        })
        .collect();

    let result = plan(source(), units, &StackcutConfig::default(), &Overrides::default(), b"");
    assert!(result.diagnostics.iter().any(|d| d.code == "review-budget-exceeded"));
}

#[test]
fn review_budget_no_warning_when_within_budget() {
    let units = vec![
        unit("path:src/core/a.rs", "src/core/a.rs", UnitKind::Behavior, "core"),
        unit("path:src/core/b.rs", "src/core/b.rs", UnitKind::Behavior, "core"),
    ];
    let config = StackcutConfig {
        review_budget: Some(5),
        ..StackcutConfig::default()
    };

    let result = plan(source(), units, &config, &Overrides::default(), b"");
    assert!(!result.diagnostics.iter().any(|d| d.code == "review-budget-exceeded"));
}

#[test]
fn must_order_cycle_is_rejected() {
    let mut slices = vec![
        new_slice(
            "a",
            "Slice A",
            SliceKind::Behavior,
            vec![],
            vec!["path:a".to_string()],
            vec!["b".to_string()],
            Vec::new(),
        ),
        new_slice(
            "b",
            "Slice B",
            SliceKind::Behavior,
            vec![],
            vec!["path:b".to_string()],
            Vec::new(),
            Vec::new(),
        ),
    ];
    let overrides = Overrides {
        must_order: vec![MustOrderOverride {
            before: "a".to_string(),
            after: "b".to_string(),
            reason: Some("test cycle".to_string()),
        }],
        ..Overrides::default()
    };
    let diags = apply_overrides(&mut slices, &overrides);
    assert_eq!(diags.len(), 1);
    assert_eq!(diags[0].code, "override-cycle");
    assert!(diags[0].message.contains("a -> b"));
    let slice_b = slices.iter().find(|s| s.id == "b").unwrap();
    assert!(!slice_b.depends_on.contains(&"a".to_string()));
    assert!(!slice_b.reasons.iter().any(|r| r.code == "override-must-order"));
}

#[test]
fn must_order_non_cycle_is_accepted() {
    let mut slices = vec![
        new_slice(
            "a",
            "Slice A",
            SliceKind::Behavior,
            vec![],
            vec!["path:a".to_string()],
            Vec::new(),
            Vec::new(),
        ),
        new_slice(
            "b",
            "Slice B",
            SliceKind::Behavior,
            vec![],
            vec!["path:b".to_string()],
            Vec::new(),
            Vec::new(),
        ),
    ];
    let overrides = Overrides {
        must_order: vec![MustOrderOverride {
            before: "a".to_string(),
            after: "b".to_string(),
            reason: None,
        }],
        ..Overrides::default()
    };
    let diags = apply_overrides(&mut slices, &overrides);
    assert!(diags.is_empty());
    let slice_b = slices.iter().find(|s| s.id == "b").unwrap();
    assert!(slice_b.depends_on.contains(&"a".to_string()));
    assert!(slice_b.reasons.iter().any(|r| r.code == "override-must-order"));
}

#[test]
fn must_order_cycle_in_plan_emits_diagnostic() {
    let units = vec![
        unit("path:src/core/a.rs", "src/core/a.rs", UnitKind::Behavior, "core"),
        unit("path:src/git/b.rs", "src/git/b.rs", UnitKind::Behavior, "git"),
    ];
    let overrides = Overrides {
        must_order: vec![
            MustOrderOverride {
                before: "behavior-git".to_string(),
                after: "behavior-core".to_string(),
                reason: None,
            },
            MustOrderOverride {
                before: "behavior-core".to_string(),
                after: "behavior-git".to_string(),
                reason: None,
            },
        ],
        ..Overrides::default()
    };
    let result = plan(source(), units, &StackcutConfig::default(), &overrides, b"{}");
    assert!(
        result.diagnostics.iter().any(|d| d.code == "override-cycle"),
        "Expected override-cycle diagnostic, got: {:?}",
        result.diagnostics
    );
    let core_slice = result.slices.iter().find(|s| s.id == "behavior-core").unwrap();
    assert!(core_slice.depends_on.contains(&"behavior-git".to_string()));
    let git_slice = result.slices.iter().find(|s| s.id == "behavior-git").unwrap();
    assert!(!git_slice.depends_on.contains(&"behavior-core".to_string()));
}

#[test]
fn unsupported_notes_emit_warning_diagnostics() {
    let units = vec![
        EditUnit {
            id: "path:image.png".to_string(),
            path: "image.png".to_string(),
            old_path: None,
            status: ChangeStatus::Modified,
            kind: UnitKind::Behavior,
            family: "root".to_string(),
            notes: vec!["unsupported-binary".to_string()],
        },
        EditUnit {
            id: "path:.gitmodules".to_string(),
            path: ".gitmodules".to_string(),
            old_path: None,
            status: ChangeStatus::Modified,
            kind: UnitKind::Behavior,
            family: "root".to_string(),
            notes: vec!["unsupported-submodule".to_string()],
        },
    ];
    let result = plan(source(), units, &StackcutConfig::default(), &Overrides::default(), b"");

    let unsupported_diags: Vec<&Diagnostic> = result
        .diagnostics
        .iter()
        .filter(|d| d.code.starts_with("unsupported-"))
        .collect();
    assert_eq!(unsupported_diags.len(), 2);
    assert!(unsupported_diags.iter().any(|d| d.code == "unsupported-binary"));
    assert!(unsupported_diags.iter().any(|d| d.code == "unsupported-submodule"));

    let all_members: Vec<String> = result
        .slices
        .iter()
        .flat_map(|s| s.members.clone())
        .collect();
    assert!(all_members.contains(&"path:image.png".to_string()));
    assert!(all_members.contains(&"path:.gitmodules".to_string()));
}

#[test]
fn unsupported_unit_assigned_to_behavior_still_gets_diagnostic() {
    let units = vec![EditUnit {
        id: "path:src/core/lib.rs".to_string(),
        path: "src/core/lib.rs".to_string(),
        old_path: None,
        status: ChangeStatus::Modified,
        kind: UnitKind::Behavior,
        family: "core".to_string(),
        notes: vec!["unsupported-symlink".to_string()],
    }];
    let result = plan(source(), units, &StackcutConfig::default(), &Overrides::default(), b"");

    let behavior_slice = result.slices.iter().find(|s| s.id == "behavior-core");
    assert!(behavior_slice.is_some());
    assert!(behavior_slice
        .unwrap()
        .members
        .contains(&"path:src/core/lib.rs".to_string()));
    assert!(result.diagnostics.iter().any(|d| d.code == "unsupported-symlink"));
}

fn app_unit() -> Vec<EditUnit> {
    vec![unit("path:src/main.rs", "src/main.rs", UnitKind::Behavior, "app")]
}

fn src_source() -> PlanSource {
    PlanSource {
        repo_root: None,
        base: "aaa".to_string(),
        head: "bbb".to_string(),
        head_tree: None,
    }
}

#[test]
fn empty_overrides_produce_no_override_fingerprint() {
    let config = StackcutConfig::default();
    let overrides = Overrides::default();
    let json = br#"{"version":1,"must_link":[],"force_members":[],"rename_slices":[],"must_order":[]}"#;
    let result = plan(src_source(), app_unit(), &config, &overrides, json);
    assert_eq!(result.override_fingerprint, None);
}

#[test]
fn non_empty_overrides_produce_some_override_fingerprint() {
    let config = StackcutConfig::default();
    let overrides = Overrides {
        must_link: vec![MustLinkOverride {
            members: vec!["path:a".to_string(), "path:b".to_string()],
            reason: None,
        }],
        ..Overrides::default()
    };
    let json = br#"{"version":1,"must_link":[{"members":["path:a","path:b"]}],"force_members":[],"rename_slices":[],"must_order":[]}"#;
    let result = plan(src_source(), app_unit(), &config, &overrides, json);
    assert!(result.override_fingerprint.is_some());
    assert!(!result.override_fingerprint.as_ref().unwrap().is_empty());
}

#[test]
fn override_fingerprint_is_deterministic() {
    let make_plan = || {
        let config = StackcutConfig::default();
        let overrides = Overrides {
            force_members: vec![ForceMemberOverride {
                member: "path:src/main.rs".to_string(),
                slice: "behavior-app".to_string(),
                reason: Some("test".to_string()),
            }],
            ..Overrides::default()
        };
        let json = br#"{"version":1,"must_link":[],"force_members":[{"member":"path:src/main.rs","slice":"behavior-app","reason":"test"}],"rename_slices":[],"must_order":[]}"#;
        plan(src_source(), app_unit(), &config, &overrides, json)
    };

    let fp1 = make_plan().override_fingerprint;
    let fp2 = make_plan().override_fingerprint;
    assert_eq!(fp1, fp2);
}

#[test]
fn different_overrides_produce_different_fingerprints() {
    let config = StackcutConfig::default();
    let overrides_a = Overrides {
        must_link: vec![MustLinkOverride {
            members: vec!["path:a".to_string(), "path:b".to_string()],
            reason: None,
        }],
        ..Overrides::default()
    };
    let overrides_b = Overrides {
        must_link: vec![MustLinkOverride {
            members: vec!["path:c".to_string(), "path:d".to_string()],
            reason: None,
        }],
        ..Overrides::default()
    };
    let json_a = br#"{"version":1,"must_link":[{"members":["path:a","path:b"]}],"force_members":[],"rename_slices":[],"must_order":[]}"#;
    let json_b = br#"{"version":1,"must_link":[{"members":["path:c","path:d"]}],"force_members":[],"rename_slices":[],"must_order":[]}"#;

    let plan_a = plan(src_source(), app_unit(), &config, &overrides_a, json_a);
    let plan_b = plan(src_source(), app_unit(), &config, &overrides_b, json_b);
    assert_ne!(plan_a.override_fingerprint, plan_b.override_fingerprint);
}

#[test]
fn override_fingerprint_is_sha256_hex_of_the_serialized_overrides() {
    let overrides = Overrides {
        rename_slices: vec![RenameSliceOverride {
            id: "behavior-app".to_string(),
            title: "App logic".to_string(),
        }],
        ..Overrides::default()
    };
    let result = plan(src_source(), app_unit(), &StackcutConfig::default(), &overrides, b"abc");
    assert_eq!(
        result.override_fingerprint.as_deref(),
        Some("ba7816bf8f01cfea414140de5dae2223b00361a396177a9cb410ff61f20015ad")
    );
    assert_eq!(result.slices[0].title, "App logic");
}

#[test]
fn every_unit_lands_in_exactly_one_slice() {
    let units = vec![
        unit("path:Cargo.toml", "Cargo.toml", UnitKind::Manifest, "root"),
        unit("path:Cargo.lock", "Cargo.lock", UnitKind::Lockfile, "root"),
        unit("path:.github/ci.yml", ".github/ci.yml", UnitKind::OpsConfig, "github"),
        unit("path:src/core/a.rs", "src/core/a.rs", UnitKind::Behavior, "core"),
        unit("path:src/git/b.rs", "src/git/b.rs", UnitKind::Behavior, "git"),
        unit("path:tests/core.rs", "tests/core.rs", UnitKind::Test, "core"),
        unit("path:docs/git/x.md", "docs/git/x.md", UnitKind::Documentation, "x"),
        unit("path:README.md", "README.md", UnitKind::Documentation, "root"),
        unit("path:generated/out.rs", "generated/out.rs", UnitKind::Generated, "gen"),
    ];
    let result = plan(source(), units, &StackcutConfig::default(), &Overrides::default(), b"");
    for u in &result.units {
        let count: usize = result
            .slices
            .iter()
            .map(|s| s.members.iter().filter(|m| **m == u.id).count())
            .sum();
        assert_eq!(count, 1, "unit {} appears {} times", u.id, count);
    }
    assert!(structural_validate(&result).is_empty());
    let ids: Vec<&str> = result.slices.iter().map(|s| s.id.as_str()).collect();
    assert_eq!(
        ids,
        vec![
            "api-schema-workspace",
            "ops-config",
            "behavior-core",
            "behavior-git",
            "tests-docs-root",
            "generated-gen"
        ]
    );
    let git = &result.slices[3];
    assert!(git.members.contains(&"path:docs/git/x.md".to_string()));
    assert_eq!(git.depends_on, vec!["api-schema-workspace"]);
    assert_eq!(result.ambiguities.len(), 1);
    assert_eq!(result.ambiguities[0].id, "ambiguity-readme-md");
}

#[test]
fn units_are_ordered_by_path() {
    let units = vec![
        unit("path:b.rs", "b.rs", UnitKind::Behavior, "b"),
        unit("path:a.rs", "a.rs", UnitKind::Behavior, "a"),
    ];
    let result = plan(source(), units, &StackcutConfig::default(), &Overrides::default(), b"");
    assert_eq!(result.units[0].path, "a.rs");
    assert_eq!(result.units[1].path, "b.rs");
}

#[test]
fn renames_only_make_a_prep_refactor_slice() {
    let mut renamed = unit("path:src/x/new.rs", "src/x/new.rs", UnitKind::Mechanical, "x");
    renamed.status = ChangeStatus::Renamed;
    renamed.old_path = Some("src/x/old.rs".to_string());
    let behavior = unit("path:src/x/lib.rs", "src/x/lib.rs", UnitKind::Behavior, "x");
    let result = plan(
        source(),
        vec![renamed, behavior],
        &StackcutConfig::default(),
        &Overrides::default(),
        b"",
    );
    assert_eq!(result.slices[0].id, "mechanical-renames");
    assert_eq!(result.slices[0].kind, SliceKind::PrepRefactor);
    assert_eq!(result.slices[1].id, "behavior-x");
    assert_eq!(result.slices[1].depends_on, vec!["mechanical-renames"]);
}

#[test]
fn must_link_gathers_members_in_the_first_owner() {
    let units = vec![
        unit("path:src/core/a.rs", "src/core/a.rs", UnitKind::Behavior, "core"),
        unit("path:src/git/b.rs", "src/git/b.rs", UnitKind::Behavior, "git"),
    ];
    let overrides = Overrides {
        must_link: vec![MustLinkOverride {
            members: vec!["path:src/git/b.rs".to_string(), "path:src/core/a.rs".to_string()],
            reason: Some("together".to_string()),
        }],
        ..Overrides::default()
    };
    let result = plan(source(), units, &StackcutConfig::default(), &overrides, b"{}");
    let git = result.slices.iter().find(|s| s.id == "behavior-git").unwrap();
    assert_eq!(git.members, vec!["path:src/core/a.rs", "path:src/git/b.rs"]);
    assert!(git.reasons.iter().any(|r| r.code == "override-must-link" && r.message == "together"));
    let core = result.slices.iter().find(|s| s.id == "behavior-core").unwrap();
    assert!(core.members.is_empty());
    assert!(result.diagnostics.iter().any(|d| d.code == "empty-slice"));
}

#[test]
fn force_members_creates_the_named_slice() {
    let units = vec![unit("path:src/core/a.rs", "src/core/a.rs", UnitKind::Behavior, "core")];
    let overrides = Overrides {
        force_members: vec![ForceMemberOverride {
            member: "path:src/core/a.rs".to_string(),
            slice: "hotfix".to_string(),
            reason: None,
        }],
        ..Overrides::default()
    };
    let result = plan(source(), units, &StackcutConfig::default(), &overrides, b"{}");
    let hot = result.slices.iter().find(|s| s.id == "hotfix").unwrap();
    assert_eq!(hot.kind, SliceKind::Misc);
    assert_eq!(hot.members, vec!["path:src/core/a.rs"]);
    assert_eq!(hot.families, vec!["override"]);
    assert!(hot
        .reasons
        .iter()
        .any(|r| r.message == "Member was forced into this slice by override."));
}

fn mixed_units() -> Vec<EditUnit> {
    vec![
        unit("path:src/core/a.rs", "src/core/a.rs", UnitKind::Behavior, "core"),
        unit("path:Cargo.lock", "Cargo.lock", UnitKind::Lockfile, "root"),
        unit("path:tests/core.rs", "tests/core.rs", UnitKind::Test, "core"),
        unit("path:generated/core.rs", "generated/core.rs", UnitKind::Generated, "core"),
        unit("path:Cargo.toml", "Cargo.toml", UnitKind::Manifest, "root"),
        unit("path:src/git/b.rs", "src/git/b.rs", UnitKind::Behavior, "git"),
        unit("path:README.md", "README.md", UnitKind::Documentation, "root"),
    ]
}

fn count_member(p: &Plan, id: &str) -> usize {
    p.slices.iter().map(|s| s.members.iter().filter(|m| m.as_str() == id).count()).sum()
}

#[test]
fn manifest_and_lockfile_share_the_first_slice() {
    let result = plan(source(), mixed_units(), &StackcutConfig::default(), &Overrides::default(), b"");
    let first = &result.slices[0];
    assert_eq!(first.id, "api-schema-workspace");
    assert_eq!(first.members, vec!["path:Cargo.lock", "path:Cargo.toml"]);
}

#[test]
fn tests_and_generated_files_follow_their_family() {
    let result = plan(source(), mixed_units(), &StackcutConfig::default(), &Overrides::default(), b"");
    let core = result.slices.iter().find(|s| s.id == "behavior-core").unwrap();
    assert!(core.members.contains(&"path:tests/core.rs".to_string()));
    assert!(core.members.contains(&"path:generated/core.rs".to_string()));
}

#[test]
fn root_docs_among_families_are_reported_as_ambiguous() {
    let result = plan(source(), mixed_units(), &StackcutConfig::default(), &Overrides::default(), b"");
    assert_eq!(result.ambiguities.len(), 1);
    assert_eq!(result.ambiguities[0].affected_units, vec!["path:README.md"]);
    assert!(result.diagnostics.iter().any(|d| d.code == "ambiguity-present"));
}

#[test]
fn unit_order_does_not_change_the_plan() {
    let forward = mixed_units();
    let mut backward = mixed_units();
    backward.reverse();
    let a = plan(source(), forward, &StackcutConfig::default(), &Overrides::default(), b"");
    let b = plan(source(), backward, &StackcutConfig::default(), &Overrides::default(), b"");
    assert_eq!(a, b);
}

#[test]
fn overridden_plans_keep_every_unit_once_and_validate() {
    let overrides = Overrides {
        must_link: vec![MustLinkOverride {
            members: vec!["path:src/git/b.rs".to_string(), "path:README.md".to_string()],
            reason: None,
        }],
        force_members: vec![ForceMemberOverride {
            member: "path:tests/core.rs".to_string(),
            slice: "late-tests".to_string(),
            reason: None,
        }],
        rename_slices: vec![],
        must_order: vec![MustOrderOverride {
            before: "behavior-core".to_string(),
            after: "behavior-git".to_string(),
            reason: None,
        }],
        version: 1,
    };
    let result = plan(source(), mixed_units(), &StackcutConfig::default(), &overrides, b"{}");
    for u in &result.units {
        assert_eq!(count_member(&result, &u.id), 1, "unit {}", u.id);
    }
    let structural = structural_validate(&result);
    assert!(structural.iter().all(|d| d.level != stackcut::model::DiagnosticLevel::Error));
    for (i, s) in result.slices.iter().enumerate() {
        for d in &s.depends_on {
            assert!(result.slices[..i].iter().any(|e| &e.id == d), "{} depends on later {}", s.id, d);
        }
    }
}

#[test]
fn overrides_keep_an_acyclic_stack_acyclic() {
    let mut slices = vec![
        new_slice("a", "A", SliceKind::Behavior, vec![], vec!["path:a".to_string()], vec![], vec![]),
        new_slice("b", "B", SliceKind::Behavior, vec![], vec!["path:b".to_string()], vec!["a".to_string()], vec![]),
        new_slice("c", "C", SliceKind::Behavior, vec![], vec!["path:c".to_string()], vec!["b".to_string()], vec![]),
    ];
    assert!(!stackcut::graph::has_cycle(&slices));
    let overrides = Overrides {
        must_order: vec![
            MustOrderOverride { before: "c".to_string(), after: "a".to_string(), reason: None },
            MustOrderOverride { before: "a".to_string(), after: "c".to_string(), reason: None },
        ],
        force_members: vec![ForceMemberOverride {
            member: "path:b".to_string(),
            slice: "d".to_string(),
            reason: None,
        }],
        ..Overrides::default()
    };
    let diags = apply_overrides(&mut slices, &overrides);
    assert!(diags.iter().any(|d| d.code == "override-cycle"));
    assert!(!stackcut::graph::has_cycle(&slices));
    assert_eq!(slices.len(), 4);
}

#[test]
fn plan_members_are_input_units_and_units_are_by_path() {
    let input = mixed_units();
    let result = plan(source(), input.clone(), &StackcutConfig::default(), &Overrides::default(), b"");
    for s in &result.slices {
        for m in &s.members {
            assert!(input.iter().any(|u| &u.id == m), "member {} is not a unit", m);
        }
    }
    assert_eq!(result.units.len(), input.len());
    for w in result.units.windows(2) {
        assert!(w[0].path <= w[1].path);
    }
    for u in &input {
        assert!(result.units.contains(u));
    }
}

#[test]
fn units_sharing_a_path_keep_their_given_order() {
    let input = vec![
        unit("hunk:src/z.rs#2", "src/z.rs", UnitKind::Behavior, "z"),
        unit("path:src/a.rs", "src/a.rs", UnitKind::Behavior, "a"),
        unit("hunk:src/z.rs#1", "src/z.rs", UnitKind::Behavior, "z"),
    ];
    let result = plan(source(), input, &StackcutConfig::default(), &Overrides::default(), b"");
    let ids: Vec<&str> = result.units.iter().map(|u| u.id.as_str()).collect();
    assert_eq!(ids, vec!["path:src/a.rs", "hunk:src/z.rs#2", "hunk:src/z.rs#1"]);
}

#[test]
fn override_fingerprint_is_64_lowercase_hex() {
    let overrides = Overrides {
        rename_slices: vec![RenameSliceOverride { id: "x".to_string(), title: "y".to_string() }],
        ..Overrides::default()
    };
    let result = plan(source(), mixed_units(), &StackcutConfig::default(), &overrides, b"{}");
    let fp = result.override_fingerprint.unwrap();
    assert_eq!(fp.len(), 64);
    assert!(fp.chars().all(|c| c.is_ascii_digit() || ('a'..='f').contains(&c)));
}

#[test]
fn applying_overrides_twice_changes_only_reasons() {
    let mut slices = vec![
        new_slice("a", "A", SliceKind::Behavior, vec![], vec!["path:a".to_string()], vec![], vec![]),
        new_slice("b", "B", SliceKind::Behavior, vec![], vec!["path:b".to_string()], vec!["a".to_string()], vec![]),
        new_slice("c", "C", SliceKind::Behavior, vec![], vec!["path:c".to_string(), "path:d".to_string()], vec![], vec![]),
    ];
    let overrides = Overrides {
        must_link: vec![
            MustLinkOverride { members: vec!["path:d".to_string(), "path:a".to_string()], reason: None },
            MustLinkOverride { members: vec!["path:x".to_string(), "path:y".to_string()], reason: None },
        ],
        rename_slices: vec![RenameSliceOverride { id: "c".to_string(), title: "Renamed".to_string() }],
        must_order: vec![
            MustOrderOverride { before: "c".to_string(), after: "b".to_string(), reason: None },
            MustOrderOverride { before: "b".to_string(), after: "a".to_string(), reason: None },
        ],
        ..Overrides::default()
    };
    apply_overrides(&mut slices, &overrides);
    let once = slices.clone();
    assert_eq!(once[1].depends_on, vec!["a".to_string(), "c".to_string()]);
    assert!(once[0].depends_on.is_empty());
    apply_overrides(&mut slices, &overrides);
    assert_eq!(once.len(), slices.len());
    for (a, b) in once.iter().zip(slices.iter()) {
        assert_eq!(a.id, b.id);
        assert_eq!(a.title, b.title);
        assert_eq!(a.members, b.members);
        assert_eq!(a.depends_on, b.depends_on);
    }
}
