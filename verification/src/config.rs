//! Repository configuration (`stackcut.toml`) and override defaults.
use vstd::prelude::*;
use crate::model::{
    diags_view, lit, ConfigView, DiagView, Diagnostic, DiagnosticLevel, Overrides, OverridesView,
    PathFamilyRule, RuleView, StackcutConfig, SUPPORTED_CONFIG_VERSION,
};
use crate::text::{decimal, decimal_string, push_str, Str};

verus! {

/// The `toml` crate's parse error, `toml::de::Error`, carried through as an
/// opaque value.
#[verifier::external_type_specification]
#[verifier::external_body]
pub struct ExTomlError(toml::de::Error);

/// The top-level keys of a TOML document, in the order the parsed table
/// lists them; `None` when the text is not valid TOML.
pub uninterp spec fn toml_table_keys(contents: Seq<char>) -> Option<Seq<Seq<char>>>;

/// Calls `toml::from_str::<toml::Value>` and lists the keys of the
/// top-level table. Claimed: the result is `toml_table_keys(contents)`,
/// with the parse error handed back when the text is not valid TOML.
#[verifier::external_body]
fn top_level_keys(contents: &str) -> (r: Result<Vec<String>, toml::de::Error>)
    ensures
        match r {
            Ok(keys) => toml_table_keys(contents@) == Some(keys.deep_view()),
            Err(_) => toml_table_keys(contents@) is None,
        },
{
    match toml::from_str::<toml::Value>(contents) {
        Ok(toml::Value::Table(table)) => Ok(table.keys().cloned().collect()),
        Ok(_) => Ok(Vec::new()),
        Err(e) => Err(e),
    }
}

/// Calls `to_string` on a `toml::de::Error` (its `Display` text). Nothing is
/// claimed of the text.
#[verifier::external_body]
fn toml_error_text(e: &toml::de::Error) -> (r: String) {
    e.to_string()
}

/// The keys `stackcut.toml` knows.
pub open spec fn known_keys() -> Seq<Str> {
    seq![
        "version"@,
        "generated_prefixes"@,
        "manifest_files"@,
        "lock_files"@,
        "test_prefixes"@,
        "doc_prefixes"@,
        "ops_prefixes"@,
        "path_families"@,
        "review_budget"@,
    ]
}

pub open spec fn unknown_key_diag(key: Str) -> DiagView {
    DiagView {
        level: DiagnosticLevel::Warning,
        code: "unknown-config-key"@,
        message: "Unknown key '"@ + key + "' in stackcut.toml"@,
    }
}

/// One warning per key that `stackcut.toml` does not know, in key order.
pub open spec fn unknown_key_diags(keys: Seq<Str>) -> Seq<DiagView>
    decreases keys.len(),
{
    if keys.len() == 0 {
        seq![]
    } else {
        unknown_key_diags(keys.drop_last()) + if known_keys().contains(keys.last()) {
            seq![]
        } else {
            seq![unknown_key_diag(keys.last())]
        }
    }
}

pub open spec fn unsupported_version_message(v: u32) -> Str {
    "stackcut.toml version "@ + decimal(v as nat) + " is not supported (max: "@ + decimal(
        SUPPORTED_CONFIG_VERSION as nat,
    ) + ")"@
}

fn is_known_key(key: &String) -> (r: bool)
    ensures
        r == known_keys().contains(key@),
{
    let names: [&str; 9] = [
        "version",
        "generated_prefixes",
        "manifest_files",
        "lock_files",
        "test_prefixes",
        "doc_prefixes",
        "ops_prefixes",
        "path_families",
        "review_budget",
    ];
    proof {
        assert(names@.map_values(|e: &str| e@) =~= known_keys());
    }
    let mut i: usize = 0;
    while i < 9
        invariant
            0 <= i <= 9,
            names@.len() == 9,
            names@.map_values(|e: &str| e@) == known_keys(),
            forall|k: int| 0 <= k < i ==> known_keys()[k] != key@,
        decreases 9 - i,
    {
        proof {
            assert(names@.map_values(|e: &str| e@)[i as int] == names@[i as int]@);
        }
        let candidate = lit(names[i]);
        if *key == candidate {
            proof {
                assert(known_keys()[i as int] == key@);
            }
            return true;
        }
        proof {
            assert(known_keys()[i as int] != key@);
        }
        i = i + 1;
    }
    false
}

/// Warnings for the keys `stackcut.toml` does not know.
pub fn unknown_key_warnings(keys: &Vec<String>) -> (r: Vec<Diagnostic>)
    ensures
        diags_view(r@) == unknown_key_diags(keys.deep_view()),
{
    let ghost kv = keys.deep_view();
    let mut out: Vec<Diagnostic> = Vec::new();
    let mut i: usize = 0;
    while i < keys.len()
        invariant
            kv == keys.deep_view(),
            0 <= i <= keys@.len(),
            diags_view(out@) == unknown_key_diags(kv.take(i as int)),
        decreases keys@.len() - i,
    {
        proof {
            assert(kv.take(i + 1).drop_last() =~= kv.take(i as int));
            assert(kv.take(i + 1).last() == keys@[i as int]@);
        }
        let ghost before = diags_view(out@);
        if !is_known_key(&keys[i]) {
            let mut m = lit("Unknown key '");
            push_str(&mut m, keys[i].as_str());
            push_str(&mut m, "' in stackcut.toml");
            let d = Diagnostic::new(DiagnosticLevel::Warning, "unknown-config-key", m);
            out.push(d);
            proof {
                assert(diags_view(out@) =~= before + seq![d@]);
            }
        } else {
            proof {
                assert(diags_view(out@) =~= before + seq![]);
            }
        }
        i = i + 1;
    }
    proof {
        assert(kv.take(keys@.len() as int) =~= kv);
    }
    out
}

/// Parses `stackcut.toml`: warnings for unknown top-level keys, and the
/// configuration when its version is supported. `typed` is the text read as
/// a configuration, or the reason it could not be; it is consulted only
/// when the text is valid TOML.
pub fn parse_config(contents: &str, typed: Result<StackcutConfig, String>) -> (r: Result<
    (StackcutConfig, Vec<Diagnostic>),
    String,
>)
    ensures
        toml_table_keys(contents@) is None ==> r is Err,
        match toml_table_keys(contents@) {
            None => true,
            Some(keys) => match typed {
                Err(msg) => r == Err::<(StackcutConfig, Vec<Diagnostic>), String>(msg),
                Ok(config) => if config.version > SUPPORTED_CONFIG_VERSION {
                    r matches Err(m) && m@ == unsupported_version_message(config.version)
                } else {
                    r matches Ok((c, d)) && c == config && diags_view(d@) == unknown_key_diags(
                        keys,
                    )
                },
            },
        },
{
    let keys = match top_level_keys(contents) {
        Ok(k) => k,
        Err(e) => {
            return Err(toml_error_text(&e));
        },
    };
    let diagnostics = unknown_key_warnings(&keys);
    match typed {
        Err(msg) => Err(msg),
        Ok(config) => {
            if config.version > SUPPORTED_CONFIG_VERSION {
                let mut m = lit("stackcut.toml version ");
                let v = decimal_string(config.version as usize);
                push_str(&mut m, v.as_str());
                push_str(&mut m, " is not supported (max: ");
                let mx = decimal_string(SUPPORTED_CONFIG_VERSION as usize);
                push_str(&mut m, mx.as_str());
                push_str(&mut m, ")");
                Err(m)
            } else {
                Ok((config, diagnostics))
            }
        },
    }
}

// ---------------------------------------------------------------------------
// Defaults
// ---------------------------------------------------------------------------

/// The default configuration.
pub open spec fn default_config_view() -> ConfigView {
    ConfigView {
        version: 1,
        generated_prefixes: seq!["generated/"@, "dist/"@, "fixtures/generated/"@],
        manifest_files: seq!["Cargo.toml"@, "package.json"@, "pyproject.toml"@],
        lock_files: seq!["Cargo.lock"@, "package-lock.json"@, "pnpm-lock.yaml"@],
        test_prefixes: seq!["tests/"@, "specs/"@],
        doc_prefixes: seq!["docs/"@, "adr/"@],
        ops_prefixes: seq![".github/"@, "ci/"@, ".circleci/"@],
        path_families: seq![
            RuleView { prefix: "src/core/"@, family: "core"@ },
            RuleView { prefix: "src/git/"@, family: "git"@ },
            RuleView { prefix: "src/cli/"@, family: "cli"@ },
        ],
        review_budget: None,
    }
}

fn strings2(a: &str, b: &str) -> (r: Vec<String>)
    ensures
        r.deep_view() == seq![a@, b@],
{
    let mut v: Vec<String> = Vec::new();
    v.push(lit(a));
    v.push(lit(b));
    proof {
        assert(v.deep_view() =~= seq![a@, b@]);
    }
    v
}

fn strings3(a: &str, b: &str, c: &str) -> (r: Vec<String>)
    ensures
        r.deep_view() == seq![a@, b@, c@],
{
    let mut v: Vec<String> = Vec::new();
    v.push(lit(a));
    v.push(lit(b));
    v.push(lit(c));
    proof {
        assert(v.deep_view() =~= seq![a@, b@, c@]);
    }
    v
}

impl Default for StackcutConfig {
    fn default() -> (r: StackcutConfig)
        ensures
            r@ == default_config_view(),
    {
        let mut families: Vec<PathFamilyRule> = Vec::new();
        families.push(PathFamilyRule { prefix: lit("src/core/"), family: lit("core") });
        families.push(PathFamilyRule { prefix: lit("src/git/"), family: lit("git") });
        families.push(PathFamilyRule { prefix: lit("src/cli/"), family: lit("cli") });
        let r = StackcutConfig {
            version: 1,
            generated_prefixes: strings3("generated/", "dist/", "fixtures/generated/"),
            manifest_files: strings3("Cargo.toml", "package.json", "pyproject.toml"),
            lock_files: strings3("Cargo.lock", "package-lock.json", "pnpm-lock.yaml"),
            test_prefixes: strings2("tests/", "specs/"),
            doc_prefixes: strings2("docs/", "adr/"),
            ops_prefixes: strings3(".github/", "ci/", ".circleci/"),
            path_families: families,
            review_budget: None,
        };
        proof {
            assert(r@.path_families =~= default_config_view().path_families);
            assert(r@ =~= default_config_view());
        }
        r
    }
}

impl Default for Overrides {
    fn default() -> (r: Overrides)
        ensures
            r@ == (OverridesView {
                version: 1,
                must_link: seq![],
                force_members: seq![],
                rename_slices: seq![],
                must_order: seq![],
            }),
    {
        let r = Overrides {
            version: 1,
            must_link: Vec::new(),
            force_members: Vec::new(),
            rename_slices: Vec::new(),
            must_order: Vec::new(),
        };
        proof {
            assert(r@ =~= (OverridesView {
                version: 1,
                must_link: seq![],
                force_members: seq![],
                rename_slices: seq![],
                must_order: seq![],
            }));
        }
        r
    }
}

} // verus!
