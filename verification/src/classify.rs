//! Path classification and family inference.
use vstd::prelude::*;
use crate::model::{lit, ConfigView, PathFamilyRule, RuleView, StackcutConfig, ChangeStatus, UnitKind};
use crate::text::{
    chars_eq, chars_of, contains_chars, ends_with, has_infix, has_prefix, has_suffix, starts_with,
    string_of, Str,
};

verus! {

// ---------------------------------------------------------------------------
// Splitting
// ---------------------------------------------------------------------------

/// The pieces of `s` between occurrences of `c` (never empty).
pub open spec fn split_on(s: Str, c: char) -> Seq<Str>
    decreases s.len(),
{
    if s.len() == 0 {
        seq![Seq::empty()]
    } else {
        let r = split_on(s.drop_last(), c);
        if s.last() == c {
            r.push(Seq::empty())
        } else {
            r.update(r.len() - 1, r.last().push(s.last()))
        }
    }
}

pub proof fn lemma_split_nonempty(s: Str, c: char)
    ensures
        split_on(s, c).len() >= 1,
    decreases s.len(),
{
    if s.len() > 0 {
        lemma_split_nonempty(s.drop_last(), c);
    }
}

/// The views of a list of character vectors.
pub open spec fn pieces_view(r: Seq<Vec<char>>) -> Seq<Str> {
    r.map_values(|v: Vec<char>| v@)
}

/// The pieces of `s` between occurrences of `c`.
pub fn split_chars(s: &[char], c: char) -> (r: Vec<Vec<char>>)
    ensures
        pieces_view(r@) == split_on(s@, c),
        r@.len() >= 1,
{
    let mut r: Vec<Vec<char>> = Vec::new();
    r.push(Vec::new());
    let mut i: usize = 0;
    proof {
        assert(s@.take(0) =~= Seq::<char>::empty());
        assert(pieces_view(r@) =~= split_on(s@.take(0), c));
    }
    while i < s.len()
        invariant
            0 <= i <= s@.len(),
            r@.len() >= 1,
            pieces_view(r@) == split_on(s@.take(i as int), c),
        decreases s@.len() - i,
    {
        let ch = s[i];
        let ghost prev = pieces_view(r@);
        proof {
            assert(s@.take(i + 1).drop_last() =~= s@.take(i as int));
            assert(s@.take(i + 1).last() == ch);
        }
        if ch == c {
            r.push(Vec::new());
            proof {
                assert(pieces_view(r@) =~= prev.push(Seq::empty()));
            }
        } else {
            let last = r.len() - 1;
            let mut seg = r.remove(last);
            seg.push(ch);
            r.push(seg);
            proof {
                assert(pieces_view(r@) =~= prev.update(prev.len() - 1, prev.last().push(ch)));
            }
        }
        i = i + 1;
    }
    proof {
        assert(s@.take(s@.len() as int) =~= s@);
    }
    r
}

/// The part of `s` after its last `/` (all of `s` when it has none).
pub open spec fn file_name_of(s: Str) -> Str {
    split_on(s, '/').last()
}

/// The part of `s` before its first `.` (all of `s` when it has none).
pub open spec fn strip_extension_spec(s: Str) -> Str {
    split_on(s, '.')[0]
}

/// The part of a name before its first `.`.
pub fn strip_extension(value: &[char]) -> (r: Vec<char>)
    ensures
        r@ == strip_extension_spec(value@),
{
    let parts = split_chars(value, '.');
    let first = &parts[0];
    let mut r: Vec<char> = Vec::new();
    let mut i: usize = 0;
    while i < first.len()
        invariant
            0 <= i <= first@.len(),
            r@ == first@.take(i as int),
        decreases first@.len() - i,
    {
        r.push(first[i]);
        proof {
            assert(first@.take(i + 1) =~= first@.take(i as int).push(first@[i as int]));
        }
        i = i + 1;
    }
    proof {
        assert(first@.take(first@.len() as int) =~= first@);
        assert(pieces_view(parts@)[0] == first@);
    }
    r
}

/// Copies the last segment of a split.
pub(crate) fn last_piece(parts: &Vec<Vec<char>>) -> (r: Vec<char>)
    requires
        parts@.len() >= 1,
    ensures
        r@ == pieces_view(parts@).last(),
{
    let p = &parts[parts.len() - 1];
    let mut r: Vec<char> = Vec::new();
    let mut i: usize = 0;
    while i < p.len()
        invariant
            0 <= i <= p@.len(),
            r@ == p@.take(i as int),
        decreases p@.len() - i,
    {
        r.push(p[i]);
        proof {
            assert(p@.take(i + 1) =~= p@.take(i as int).push(p@[i as int]));
        }
        i = i + 1;
    }
    proof {
        assert(p@.take(p@.len() as int) =~= p@);
    }
    r
}

// ---------------------------------------------------------------------------
// Classification
// ---------------------------------------------------------------------------

/// Some entry of `list` equals `a` or `b`.
pub open spec fn listed_as(list: Seq<Str>, a: Str, b: Str) -> bool {
    exists|i: int| 0 <= i < list.len() && (list[i] == a || list[i] == b)
}

/// Some entry of `list` is a prefix of `s`.
pub open spec fn any_prefix(list: Seq<Str>, s: Str) -> bool {
    exists|i: int| 0 <= i < list.len() && has_prefix(s, #[trigger] list[i])
}

/// The kind a path has under a configuration.
pub open spec fn classify_spec(path: Str, status: ChangeStatus, config: ConfigView) -> UnitKind {
    let file_name = file_name_of(path);
    if status == ChangeStatus::Renamed || status == ChangeStatus::Copied {
        UnitKind::Mechanical
    } else if listed_as(config.manifest_files, file_name, path) {
        UnitKind::Manifest
    } else if listed_as(config.lock_files, file_name, path) {
        UnitKind::Lockfile
    } else if any_prefix(config.generated_prefixes, path) || has_suffix(path, ".snap"@)
        || has_suffix(path, ".generated.rs"@) {
        UnitKind::Generated
    } else if any_prefix(config.test_prefixes, path) || has_infix(path, "/tests/"@) || has_suffix(
        path,
        "_test.rs"@,
    ) || has_suffix(path, ".spec.ts"@) {
        UnitKind::Test
    } else if any_prefix(config.doc_prefixes, path) || has_suffix(path, ".md"@) || has_suffix(
        path,
        ".mdx"@,
    ) {
        UnitKind::Documentation
    } else if any_prefix(config.ops_prefixes, path) || file_name == "Dockerfile"@ || file_name
        == "docker-compose.yml"@ {
        UnitKind::OpsConfig
    } else {
        UnitKind::Behavior
    }
}

/// Whether some entry of `list` equals `a` or `b`.
fn is_listed(list: &Vec<String>, a: &[char], b: &[char]) -> (r: bool)
    ensures
        r == listed_as(list.deep_view(), a@, b@),
{
    let mut i: usize = 0;
    while i < list.len()
        invariant
            0 <= i <= list@.len(),
            forall|j: int| 0 <= j < i ==> !(list.deep_view()[j] == a@ || list.deep_view()[j] == b@),
        decreases list@.len() - i,
    {
        let e = chars_of(list[i].as_str());
        proof {
            assert(list.deep_view()[i as int] == e@);
        }
        if chars_eq(e.as_slice(), a) || chars_eq(e.as_slice(), b) {
            return true;
        }
        i = i + 1;
    }
    false
}

/// Whether some entry of `list` is a prefix of `s`.
pub fn has_any_prefix(list: &Vec<String>, s: &[char]) -> (r: bool)
    ensures
        r == any_prefix(list.deep_view(), s@),
{
    let mut i: usize = 0;
    while i < list.len()
        invariant
            0 <= i <= list@.len(),
            forall|j: int| 0 <= j < i ==> !has_prefix(s@, #[trigger] list.deep_view()[j]),
        decreases list@.len() - i,
    {
        let e = chars_of(list[i].as_str());
        proof {
            assert(list.deep_view()[i as int] == e@);
        }
        if starts_with(s, e.as_slice()) {
            return true;
        }
        i = i + 1;
    }
    false
}

pub(crate) fn ends_with_str(s: &[char], suffix: &str) -> (r: bool)
    ensures
        r == has_suffix(s@, suffix@),
{
    let p = chars_of(suffix);
    ends_with(s, p.as_slice())
}

pub(crate) fn eq_str(s: &[char], other: &str) -> (r: bool)
    ensures
        r == (s@ == other@),
{
    let p = chars_of(other);
    chars_eq(s, p.as_slice())
}

/// Classifies a changed path.
pub fn classify_path(path: &str, status: &ChangeStatus, config: &StackcutConfig) -> (r: UnitKind)
    ensures
        r == classify_spec(path@, *status, config@),
{
    let p = chars_of(path);
    let parts = split_chars(p.as_slice(), '/');
    let file_name = last_piece(&parts);
    let pv = p.as_slice();
    let fv = file_name.as_slice();
    if *status == ChangeStatus::Renamed || *status == ChangeStatus::Copied {
        return UnitKind::Mechanical;
    }
    if is_listed(&config.manifest_files, fv, pv) {
        return UnitKind::Manifest;
    }
    if is_listed(&config.lock_files, fv, pv) {
        return UnitKind::Lockfile;
    }
    if has_any_prefix(&config.generated_prefixes, pv) || ends_with_str(pv, ".snap")
        || ends_with_str(pv, ".generated.rs") {
        return UnitKind::Generated;
    }
    let tests_dir = chars_of("/tests/");
    if has_any_prefix(&config.test_prefixes, pv) || contains_chars(pv, tests_dir.as_slice())
        || ends_with_str(pv, "_test.rs") || ends_with_str(pv, ".spec.ts") {
        return UnitKind::Test;
    }
    if has_any_prefix(&config.doc_prefixes, pv) || ends_with_str(pv, ".md") || ends_with_str(
        pv,
        ".mdx",
    ) {
        return UnitKind::Documentation;
    }
    if has_any_prefix(&config.ops_prefixes, pv) || eq_str(fv, "Dockerfile") || eq_str(
        fv,
        "docker-compose.yml",
    ) {
        return UnitKind::OpsConfig;
    }
    UnitKind::Behavior
}

// ---------------------------------------------------------------------------
// Families
// ---------------------------------------------------------------------------

/// The family given by the first path-family rule whose prefix the path has.
pub open spec fn rule_family(rules: Seq<RuleView>, path: Str) -> Option<Str>
    decreases rules.len(),
{
    if rules.len() == 0 {
        None
    } else if has_prefix(path, rules[0].prefix) {
        Some(rules[0].family)
    } else {
        rule_family(rules.drop_first(), path)
    }
}

/// The family inferred from the directory layout of a path.
pub open spec fn layout_family(parts: Seq<Str>) -> Str {
    if parts.len() >= 2 && (parts[0] == "src"@ || parts[0] == "crates"@ || parts[0] == "tests"@
        || parts[0] == "docs"@) {
        parts[1]
    } else if parts.len() == 1 {
        if has_suffix(parts[0], ".md"@) {
            "root"@
        } else {
            strip_extension_spec(parts[0])
        }
    } else {
        strip_extension_spec(parts[0])
    }
}

/// The family of a path under a configuration.
pub open spec fn family_spec(path: Str, config: ConfigView) -> Str {
    match rule_family(config.path_families, path) {
        Some(f) => f,
        None => layout_family(split_on(path, '/')),
    }
}

fn copy_chars(v: &Vec<char>) -> (r: Vec<char>)
    ensures
        r@ == v@,
{
    let mut r: Vec<char> = Vec::new();
    let mut i: usize = 0;
    while i < v.len()
        invariant
            0 <= i <= v@.len(),
            r@ == v@.take(i as int),
        decreases v@.len() - i,
    {
        r.push(v[i]);
        proof {
            assert(v@.take(i + 1) =~= v@.take(i as int).push(v@[i as int]));
        }
        i = i + 1;
    }
    proof {
        assert(v@.take(v@.len() as int) =~= v@);
    }
    r
}

/// Infers the family of a changed path.
pub fn infer_family(path: &str, config: &StackcutConfig) -> (r: String)
    ensures
        r@ == family_spec(path@, config@),
{
    let p = chars_of(path);
    let rules = &config.path_families;
    let ghost rv = config@.path_families;
    let mut i: usize = 0;
    proof {
        assert(rv.skip(0) =~= rv);
    }
    while i < rules.len()
        invariant
            0 <= i <= rules@.len(),
            rules@.len() == rv.len(),
            rv == config@.path_families,
            rules == &config.path_families,
            p@ == path@,
            rule_family(rv, path@) == rule_family(rv.skip(i as int), path@),
        decreases rules@.len() - i,
    {
        let prefix = chars_of(rules[i].prefix.as_str());
        proof {
            assert(rv[i as int] == rules@[i as int]@);
            assert(rv.skip(i as int)[0] == rv[i as int]);
            assert(rv.skip(i as int).drop_first() =~= rv.skip(i + 1));
        }
        let hit = starts_with(p.as_slice(), prefix.as_slice());
        proof {
            assert(prefix@ == rv[i as int].prefix);
            assert(p@ == path@);
            assert(hit == has_prefix(path@, rv.skip(i as int)[0].prefix));
        }
        if hit {
            let fam = rules[i].family.clone();
            proof {
                assert(fam@ == rv[i as int].family);
                assert(rule_family(rv.skip(i as int), path@) == Some(rv[i as int].family));
            }
            return fam;
        }
        proof {
            assert(rule_family(rv.skip(i as int), path@) == rule_family(rv.skip(i as int).drop_first(), path@));
        }
        i = i + 1;
    }
    proof {
        assert(rv.skip(i as int) =~= Seq::<RuleView>::empty());
    }
    let parts = split_chars(p.as_slice(), '/');
    let ghost pv = pieces_view(parts@);
    let first = &parts[0];
    if parts.len() >= 2 && (eq_str(first.as_slice(), "src") || eq_str(first.as_slice(), "crates")
        || eq_str(first.as_slice(), "tests") || eq_str(first.as_slice(), "docs")) {
        let second = copy_chars(&parts[1]);
        proof {
            assert(pv[1] == second@);
            assert(pv[0] == first@);
        }
        return string_of(second.as_slice());
    }
    if parts.len() == 1 {
        if ends_with_str(first.as_slice(), ".md") {
            return lit("root");
        }
    }
    let stem = strip_extension(first.as_slice());
    string_of(stem.as_slice())
}

/// A file name without a known source extension; empty when it has none.
pub open spec fn stem_spec(name: Str) -> Str {
    if has_suffix(name, ".rs"@) {
        name.take(name.len() - 3)
    } else if has_suffix(name, ".ts"@) {
        name.take(name.len() - 3)
    } else if has_suffix(name, ".js"@) {
        name.take(name.len() - 3)
    } else if has_suffix(name, ".md"@) {
        name.take(name.len() - 3)
    } else if has_suffix(name, ".json"@) {
        name.take(name.len() - 5)
    } else {
        Seq::empty()
    }
}

/// Describes a unit kind in words.
pub open spec fn describe_kind_spec(kind: UnitKind) -> Str {
    match kind {
        UnitKind::Generated => "generated output"@,
        UnitKind::Test => "test"@,
        UnitKind::Documentation => "documentation"@,
        UnitKind::Manifest => "manifest"@,
        UnitKind::Lockfile => "lock file"@,
        UnitKind::OpsConfig => "ops config"@,
        UnitKind::Mechanical => "mechanical change"@,
        UnitKind::Behavior => "behavior change"@,
    }
}

/// Describes a unit kind in words.
pub fn describe_kind(kind: &UnitKind) -> (r: &'static str)
    ensures
        r@ == describe_kind_spec(*kind),
{
    match kind {
        UnitKind::Generated => "generated output",
        UnitKind::Test => "test",
        UnitKind::Documentation => "documentation",
        UnitKind::Manifest => "manifest",
        UnitKind::Lockfile => "lock file",
        UnitKind::OpsConfig => "ops config",
        UnitKind::Mechanical => "mechanical change",
        UnitKind::Behavior => "behavior change",
    }
}

} // verus!
