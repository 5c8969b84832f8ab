//! What the classifier, the family inference, the validator, the summary and
//! the behavior phase promise, stated over the text of paths, the members of
//! slices and the rendered output.
use vstd::prelude::*;
use crate::classify::{classify_spec, family_spec, file_name_of, lemma_split_nonempty, split_on};
use crate::counting::{
    lemma_member_count_absent, lemma_member_count_part, lemma_occ_present,
};
use crate::attach::{
    attach_all, behavior_deps, behavior_families, behavior_family_list, behavior_id, behavior_ids,
    behavior_view, behavior_views, family_map, family_overlap, standalone_views, AttachView,
};
use crate::counting::lemma_sort_by_path;
use crate::laws::lemma_attach_skeleton;
use crate::model::{OverridesView, SourceView};
use crate::overrides::apply_spec;
use crate::phases::sort_by_path;
use crate::planner::{plan_spec, planned};
use crate::counting::ids_unique;
use crate::graph::acyclic;
use crate::order::{lemma_sort_dedup, sort_dedup};
use crate::overrides::first_with_id;
use crate::phases::{accepts, families_of, member_families, phase_view, pick_ids, KindFilter};
use crate::planner::{after, early, phase_slices};
use crate::summary::{ambiguities_text, ambiguity_text, diags_text, join, slices_text, summary_text};
use crate::text::decimal;
use crate::model::{
    AmbiguityView, ChangeStatus, ConfigView, DiagnosticLevel, PlanView, RuleView, SliceView, UnitKind,
    UnitView,
};
use crate::validate::{
    capped, cycle_diag, duplicate_diag, duplicate_diags, empty_slice_diags, member_count,
    missing_dep_diags, missing_member_diag, missing_member_diags, occurrences, self_dep_diags,
    structural_diags,
};
use crate::text::{has_infix, has_prefix, has_suffix, occurs_at, Str};

verus! {

// ---------------------------------------------------------------------------
// Test files
// ---------------------------------------------------------------------------

/// A path that is no rename or copy, no listed manifest or lock file and not
/// generated, and that runs through a `tests` directory, is a test.
pub proof fn law_tests_directory_is_test(path: Str, status: ChangeStatus, config: ConfigView)
    requires
        status != ChangeStatus::Renamed,
        status != ChangeStatus::Copied,
        forall|k: int|
            0 <= k < config.manifest_files.len() ==> config.manifest_files[k] != file_name_of(path)
                && config.manifest_files[k] != path,
        forall|k: int|
            0 <= k < config.lock_files.len() ==> config.lock_files[k] != file_name_of(path)
                && config.lock_files[k] != path,
        forall|k: int|
            0 <= k < config.generated_prefixes.len() ==> !has_prefix(path, #[trigger] config.generated_prefixes[k]),
        !has_suffix(path, ".snap"@),
        !has_suffix(path, ".generated.rs"@),
        exists|i: int| 0 <= i && i + 7 <= path.len() && #[trigger] path.subrange(i, i + 7) == "/tests/"@,
    ensures
        classify_spec(path, status, config) == UnitKind::Test,
{
    reveal_strlit("/tests/");
    let i = choose|i: int| 0 <= i && i + 7 <= path.len() && #[trigger] path.subrange(i, i + 7) == "/tests/"@;
    assert(occurs_at(path, "/tests/"@, i));
    assert(has_infix(path, "/tests/"@));
}

/// Some entry of `list` is the path or its file name.
pub open spec fn names_path(list: Seq<Str>, path: Str) -> bool {
    exists|k: int| 0 <= k < list.len() && (list[k] == file_name_of(path) || list[k] == path)
}

/// Some entry of `list` is a prefix of the path.
pub open spec fn under_any(list: Seq<Str>, path: Str) -> bool {
    exists|k: int| 0 <= k < list.len() && has_prefix(path, #[trigger] list[k])
}

/// The kind of a path, rule by rule in order: renames and copies are
/// mechanical; then listed manifests, listed lock files, generated output,
/// tests, documentation and ops configuration; everything else is behavior.
pub proof fn law_kind_rules_in_order(path: Str, status: ChangeStatus, c: ConfigView)
    ensures
        ({
            let kind = classify_spec(path, status, c);
            let moved = status == ChangeStatus::Renamed || status == ChangeStatus::Copied;
            let manifest = names_path(c.manifest_files, path);
            let lock = names_path(c.lock_files, path);
            let generated = under_any(c.generated_prefixes, path) || has_suffix(path, ".snap"@)
                || has_suffix(path, ".generated.rs"@);
            let test = under_any(c.test_prefixes, path) || has_infix(path, "/tests/"@) || has_suffix(
                path,
                "_test.rs"@,
            ) || has_suffix(path, ".spec.ts"@);
            let doc = under_any(c.doc_prefixes, path) || has_suffix(path, ".md"@) || has_suffix(
                path,
                ".mdx"@,
            );
            let ops = under_any(c.ops_prefixes, path) || file_name_of(path) == "Dockerfile"@
                || file_name_of(path) == "docker-compose.yml"@;
            &&& moved ==> kind == UnitKind::Mechanical
            &&& !moved && manifest ==> kind == UnitKind::Manifest
            &&& !moved && !manifest && lock ==> kind == UnitKind::Lockfile
            &&& !moved && !manifest && !lock && generated ==> kind == UnitKind::Generated
            &&& !moved && !manifest && !lock && !generated && test ==> kind == UnitKind::Test
            &&& !moved && !manifest && !lock && !generated && !test && doc ==> kind
                == UnitKind::Documentation
            &&& !moved && !manifest && !lock && !generated && !test && !doc && ops ==> kind
                == UnitKind::OpsConfig
            &&& !moved && !manifest && !lock && !generated && !test && !doc && !ops ==> kind
                == UnitKind::Behavior
        }),
{
}

// ---------------------------------------------------------------------------
// Families from the directory layout
// ---------------------------------------------------------------------------

proof fn lemma_split_plain(p: Str, c: char)
    requires
        !p.contains(c),
    ensures
        split_on(p, c) == seq![p],
    decreases p.len(),
{
    if p.len() == 0 {
        assert(p =~= Seq::<char>::empty());
    } else {
        let t = p.drop_last();
        if t.contains(c) {
            let q = choose|q: int| 0 <= q < t.len() && t[q] == c;
            assert(p[q] == c);
        }
        lemma_split_plain(t, c);
        assert(p[p.len() - 1] == p.last());
        assert(t.push(p.last()) =~= p);
        assert(seq![t].update(0, t.push(p.last())) =~= seq![p]);
    }
}

/// Splitting at a first separator gives the part before it, then the pieces
/// of the rest.
proof fn lemma_split_sep(p: Str, q: Str, c: char)
    requires
        !p.contains(c),
    ensures
        split_on(p + seq![c] + q, c) == seq![p] + split_on(q, c),
    decreases q.len(),
{
    let s = p + seq![c] + q;
    if q.len() == 0 {
        assert(s.drop_last() =~= p);
        assert(s.last() == c);
        lemma_split_plain(p, c);
        assert(seq![p].push(Seq::<char>::empty()) =~= seq![p] + seq![Seq::<char>::empty()]);
    } else {
        let q0 = q.drop_last();
        assert(s.drop_last() =~= p + seq![c] + q0);
        assert(s.last() == q.last());
        lemma_split_sep(p, q0, c);
        lemma_split_nonempty(q0, c);
        let x = split_on(q0, c);
        let r = seq![p] + x;
        if q.last() == c {
            assert(r.push(Seq::<char>::empty()) =~= seq![p] + x.push(Seq::<char>::empty()));
        } else {
            assert(r.last() == x.last());
            assert(r.update(r.len() - 1, r.last().push(q.last())) =~= seq![p] + x.update(
                x.len() - 1,
                x.last().push(q.last()),
            ));
        }
    }
}

proof fn lemma_no_rule(rules: Seq<RuleView>, path: Str)
    requires
        forall|k: int| 0 <= k < rules.len() ==> !has_prefix(path, #[trigger] rules[k].prefix),
    ensures
        crate::classify::rule_family(rules, path) is None,
    decreases rules.len(),
{
    if rules.len() > 0 {
        let t = rules.drop_first();
        assert forall|k: int| 0 <= k < t.len() implies !has_prefix(path, #[trigger] t[k].prefix) by {
            assert(t[k] == rules[k + 1]);
        }
        assert(!has_prefix(path, rules[0].prefix));
        lemma_no_rule(t, path);
    }
}

/// With no path-family rule for it, a path `root/name/...` whose root is
/// `src`, `crates`, `tests` or `docs` belongs to the family `name`, its
/// second segment.
pub proof fn law_layout_family_is_second_segment(
    path: Str,
    root: Str,
    name: Str,
    tail: Str,
    config: ConfigView,
)
    requires
        root == "src"@ || root == "crates"@ || root == "tests"@ || root == "docs"@,
        path == root + seq!['/'] + name + tail,
        !name.contains('/'),
        tail.len() == 0 || tail[0] == '/',
        forall|k: int|
            0 <= k < config.path_families.len() ==> !has_prefix(path, #[trigger] config.path_families[k].prefix),
    ensures
        family_spec(path, config) == name,
{
    reveal_strlit("src");
    reveal_strlit("crates");
    reveal_strlit("tests");
    reveal_strlit("docs");
    lemma_no_rule(config.path_families, path);
    assert(!root.contains('/')) by {
        if root.contains('/') {
            let q = choose|q: int| 0 <= q < root.len() && root[q] == '/';
        }
    }
    let rest = name + tail;
    assert(path =~= root + seq!['/'] + rest);
    lemma_split_sep(root, rest, '/');
    if tail.len() == 0 {
        assert(rest =~= name);
        lemma_split_plain(name, '/');
    } else {
        let more = tail.drop_first();
        assert(rest =~= name + seq!['/'] + more);
        lemma_split_sep(name, more, '/');
    }
    let parts = split_on(path, '/');
    assert(parts[0] == root);
    assert(parts[1] == name);
}

proof fn lemma_first_rule(rules: Seq<RuleView>, path: Str, k: int)
    requires
        0 <= k < rules.len(),
        has_prefix(path, rules[k].prefix),
        forall|j: int| 0 <= j < k ==> !has_prefix(path, #[trigger] rules[j].prefix),
    ensures
        crate::classify::rule_family(rules, path) == Some(rules[k].family),
    decreases k,
{
    if k > 0 {
        let t = rules.drop_first();
        assert(!has_prefix(path, rules[0].prefix));
        assert forall|j: int| 0 <= j < k - 1 implies !has_prefix(path, #[trigger] t[j].prefix) by {
            assert(t[j] == rules[j + 1]);
        }
        assert(t[k - 1] == rules[k]);
        lemma_first_rule(t, path, k - 1);
    }
}

/// The first path-family rule whose prefix the path has gives its family.
pub proof fn law_first_matching_rule_gives_family(path: Str, config: ConfigView, k: int)
    requires
        0 <= k < config.path_families.len(),
        has_prefix(path, config.path_families[k].prefix),
        forall|j: int| 0 <= j < k ==> !has_prefix(path, #[trigger] config.path_families[j].prefix),
    ensures
        family_spec(path, config) == config.path_families[k].family,
{
    lemma_first_rule(config.path_families, path, k);
}

/// With no rule for it, a file at the top level belongs to `root` when it is
/// Markdown, and otherwise to the part of its name before the first dot.
pub proof fn law_top_level_family(path: Str, stem: Str, rest: Str, config: ConfigView)
    requires
        !path.contains('/'),
        path == stem + rest,
        !stem.contains('.'),
        rest.len() == 0 || rest[0] == '.',
        forall|k: int|
            0 <= k < config.path_families.len() ==> !has_prefix(path, #[trigger] config.path_families[k].prefix),
    ensures
        has_suffix(path, ".md"@) ==> family_spec(path, config) == "root"@,
        !has_suffix(path, ".md"@) ==> family_spec(path, config) == stem,
{
    lemma_no_rule(config.path_families, path);
    lemma_split_plain(path, '/');
    if rest.len() == 0 {
        assert(path =~= stem);
        lemma_split_plain(stem, '.');
    } else {
        assert(path =~= stem + seq!['.'] + rest.drop_first());
        lemma_split_sep(stem, rest.drop_first(), '.');
    }
}

// ---------------------------------------------------------------------------
// Structural validation is sound
// ---------------------------------------------------------------------------

proof fn lemma_in_concat<A>(a: Seq<A>, b: Seq<A>, x: A)
    ensures
        a.contains(x) ==> (a + b).contains(x),
        b.contains(x) ==> (a + b).contains(x),
{
    if a.contains(x) {
        let k = choose|k: int| 0 <= k < a.len() && a[k] == x;
        assert((a + b)[k] == x);
    }
    if b.contains(x) {
        let k = choose|k: int| 0 <= k < b.len() && b[k] == x;
        assert((a + b)[a.len() + k] == x);
    }
}

proof fn lemma_missing_reported(u: Seq<UnitView>, s: Seq<SliceView>, i: int)
    requires
        0 <= i < u.len(),
        member_count(s, u[i].id) == 0,
    ensures
        missing_member_diags(u, s).contains(missing_member_diag(u[i].id)),
    decreases u.len(),
{
    let t = u.drop_last();
    let d = missing_member_diag(u[i].id);
    if i == u.len() - 1 {
        lemma_in_concat(missing_member_diags(t, s), seq![d], d);
        assert(seq![d][0] == d);
    } else {
        assert(t[i] == u[i]);
        lemma_missing_reported(t, s, i);
        lemma_in_concat(
            missing_member_diags(t, s),
            if member_count(s, u.last().id) == 0 {
                seq![missing_member_diag(u.last().id)]
            } else {
                seq![]
            },
            d,
        );
    }
}

proof fn lemma_duplicate_reported(u: Seq<UnitView>, s: Seq<SliceView>, i: int)
    requires
        0 <= i < u.len(),
        member_count(s, u[i].id) > 1,
    ensures
        duplicate_diags(u, s).contains(duplicate_diag(u[i].id, capped(member_count(s, u[i].id)))),
    decreases u.len(),
{
    let t = u.drop_last();
    let d = duplicate_diag(u[i].id, capped(member_count(s, u[i].id)));
    if i == u.len() - 1 {
        lemma_in_concat(duplicate_diags(t, s), seq![d], d);
        assert(seq![d][0] == d);
    } else {
        assert(t[i] == u[i]);
        lemma_duplicate_reported(t, s, i);
        lemma_in_concat(
            duplicate_diags(t, s),
            if member_count(s, u.last().id) > 1 {
                seq![duplicate_diag(u.last().id, capped(member_count(s, u.last().id)))]
            } else {
                seq![]
            },
            d,
        );
    }
}

/// Two different slices holding `x` make it count at least twice.
proof fn lemma_member_count_two(s: Seq<SliceView>, j1: int, j2: int, x: Str)
    requires
        0 <= j1 < j2 < s.len(),
    ensures
        occurrences(s[j1].members, x) + occurrences(s[j2].members, x) <= member_count(s, x),
    decreases s.len(),
{
    let t = s.drop_last();
    if j2 == s.len() - 1 {
        lemma_member_count_part(t, j1, x);
        assert(t[j1] == s[j1]);
    } else {
        assert(t[j1] == s[j1] && t[j2] == s[j2]);
        lemma_member_count_two(t, j1, j2, x);
    }
}

/// Validation is sound: when it reports no error, the dependency graph is
/// acyclic and every unit sits in exactly one slice, and only once there.
pub proof fn law_no_error_means_each_unit_once(u: Seq<UnitView>, s: Seq<SliceView>)
    requires
        forall|k: int|
            0 <= k < structural_diags(u, s).len() ==> #[trigger] structural_diags(u, s)[k].level
                != DiagnosticLevel::Error,
    ensures
        acyclic(s),
        forall|i: int|
            #![trigger u[i]]
            0 <= i < u.len() ==> exists|j: int| 0 <= j < s.len() && #[trigger] s[j].members.contains(u[i].id),
        forall|i: int, j1: int, j2: int|
            0 <= i < u.len() && 0 <= j1 < s.len() && 0 <= j2 < s.len() && #[trigger] s[j1].members.contains(u[i].id)
                && #[trigger] s[j2].members.contains(u[i].id) ==> j1 == j2,
        forall|i: int, j: int|
            0 <= i < u.len() && 0 <= j < s.len() && #[trigger] s[j].members.contains(u[i].id)
                ==> occurrences(s[j].members, u[i].id) == 1,
{
    let all = structural_diags(u, s);
    let c = if acyclic(s) {
        seq![]
    } else {
        seq![cycle_diag()]
    };
    let p1 = c + duplicate_diags(u, s);
    let p2 = p1 + empty_slice_diags(s);
    let p3 = p2 + missing_dep_diags(s, s);
    let p4 = p3 + missing_member_diags(u, s);
    assert(all == p4 + self_dep_diags(s));
    if !acyclic(s) {
        lemma_in_concat(c, duplicate_diags(u, s), cycle_diag());
        lemma_in_concat(p1, empty_slice_diags(s), cycle_diag());
        lemma_in_concat(p2, missing_dep_diags(s, s), cycle_diag());
        lemma_in_concat(p3, missing_member_diags(u, s), cycle_diag());
        lemma_in_concat(p4, self_dep_diags(s), cycle_diag());
        assert(c[0] == cycle_diag());
        let k = choose|k: int| 0 <= k < all.len() && all[k] == cycle_diag();
        assert(all[k].level == DiagnosticLevel::Error);
    }
    assert forall|i: int| 0 <= i < u.len() implies member_count(s, #[trigger] u[i].id) == 1 by {
        let x = u[i].id;
        if member_count(s, x) == 0 {
            let d = missing_member_diag(x);
            lemma_missing_reported(u, s, i);
            lemma_in_concat(p3, missing_member_diags(u, s), d);
            lemma_in_concat(p4, self_dep_diags(s), d);
            let k = choose|k: int| 0 <= k < all.len() && all[k] == d;
            assert(all[k].level == DiagnosticLevel::Error);
        }
        if member_count(s, x) > 1 {
            let d = duplicate_diag(x, capped(member_count(s, x)));
            lemma_duplicate_reported(u, s, i);
            lemma_in_concat(c, duplicate_diags(u, s), d);
            lemma_in_concat(p1, empty_slice_diags(s), d);
            lemma_in_concat(p2, missing_dep_diags(s, s), d);
            lemma_in_concat(p3, missing_member_diags(u, s), d);
            lemma_in_concat(p4, self_dep_diags(s), d);
            let k = choose|k: int| 0 <= k < all.len() && all[k] == d;
            assert(all[k].level == DiagnosticLevel::Error);
        }
    }
    assert forall|i: int| #![trigger u[i]] 0 <= i < u.len() implies exists|j: int| 0 <= j < s.len() && #[trigger] s[j].members.contains(u[i].id) by {
        assert(member_count(s, u[i].id) == 1);
        if !exists|j: int| 0 <= j < s.len() && #[trigger] s[j].members.contains(u[i].id) {
            lemma_member_count_absent(s, u[i].id);
        }
    }
    assert forall|i: int, j1: int, j2: int|
        0 <= i < u.len() && 0 <= j1 < s.len() && 0 <= j2 < s.len() && #[trigger] s[j1].members.contains(u[i].id)
            && #[trigger] s[j2].members.contains(u[i].id) implies j1 == j2 by {
        assert(member_count(s, u[i].id) == 1);
        lemma_occ_present(s[j1].members, u[i].id);
        lemma_occ_present(s[j2].members, u[i].id);
        if j1 < j2 {
            lemma_member_count_two(s, j1, j2, u[i].id);
        } else if j2 < j1 {
            lemma_member_count_two(s, j2, j1, u[i].id);
        }
    }
    assert forall|i: int, j: int|
        0 <= i < u.len() && 0 <= j < s.len() && #[trigger] s[j].members.contains(u[i].id)
            implies occurrences(s[j].members, u[i].id) == 1 by {
        assert(member_count(s, u[i].id) == 1);
        lemma_occ_present(s[j].members, u[i].id);
        lemma_member_count_part(s, j, u[i].id);
    }
}

// ---------------------------------------------------------------------------
// The summary lists each ambiguity's units and candidate slices
// ---------------------------------------------------------------------------

/// The items in order, each after the first preceded by `sep`.
pub open spec fn separated(items: Seq<Str>, sep: Str) -> Str
    decreases items.len(),
{
    if items.len() == 0 {
        seq![]
    } else if items.len() == 1 {
        items[0]
    } else {
        items[0] + sep + separated(items.drop_first(), sep)
    }
}

proof fn lemma_join_separated(items: Seq<Str>, sep: Str)
    ensures
        join(items, sep) == separated(items, sep),
    decreases items.len(),
{
    if items.len() == 2 {
        let d = items.drop_first();
        assert(d.len() == 1 && d[0] == items[1]);
        assert(items.drop_last().len() == 1 && items.drop_last()[0] == items[0]);
        assert(join(items.drop_last(), sep) == items[0]);
        assert(items.last() == items[1]);
        assert(separated(d, sep) == items[1]);
        assert(join(items, sep) =~= items[0] + sep + items[1]);
        assert(separated(items, sep) =~= items[0] + sep + items[1]);
    } else if items.len() > 2 {
        let dl = items.drop_last();
        let df = items.drop_first();
        lemma_join_separated(dl, sep);
        lemma_join_separated(df, sep);
        lemma_join_separated(dl.drop_first(), sep);
        assert(df.drop_last() =~= dl.drop_first());
        assert(df.last() == items.last());
        assert(dl[0] == items[0]);
        assert(dl.len() > 1);
        assert(df.len() > 1);
        assert(join(items, sep) =~= items[0] + sep + (separated(dl.drop_first(), sep) + sep + items.last()));
        assert(join(df, sep) == join(df.drop_last(), sep) + sep + df.last());
        assert(separated(items, sep) =~= items[0] + sep + (separated(dl.drop_first(), sep) + sep + items.last()));
    } else if items.len() == 1 {
    } else {
    }
}

proof fn lemma_infix_self(x: Str)
    ensures
        has_infix(x, x),
{
    assert(x.subrange(0, x.len() as int) =~= x);
    assert(occurs_at(x, x, 0));
}

proof fn lemma_infix_concat(a: Str, b: Str, p: Str)
    ensures
        has_infix(a, p) ==> has_infix(a + b, p),
        has_infix(b, p) ==> has_infix(a + b, p),
{
    if has_infix(a, p) {
        let i = choose|i: int| occurs_at(a, p, i);
        assert((a + b).subrange(i, i + p.len()) =~= a.subrange(i, i + p.len()));
        assert(occurs_at(a + b, p, i));
    }
    if has_infix(b, p) {
        let i = choose|i: int| occurs_at(b, p, i);
        assert((a + b).subrange(a.len() + i, a.len() + i + p.len()) =~= b.subrange(i, i + p.len()));
        assert(occurs_at(a + b, p, a.len() + i));
    }
}

proof fn lemma_infix_trans(s: Str, m: Str, p: Str)
    requires
        has_infix(s, m),
        has_infix(m, p),
    ensures
        has_infix(s, p),
{
    let i = choose|i: int| occurs_at(s, m, i);
    let j = choose|j: int| occurs_at(m, p, j);
    assert(s.subrange(i + j, i + j + p.len()) =~= m.subrange(j, j + p.len()));
    assert(occurs_at(s, p, i + j));
}

proof fn lemma_ambiguity_lines(a: AmbiguityView)
    ensures
        a.affected_units.len() > 0 ==> has_infix(
            ambiguity_text(a),
            "- affected: "@ + separated(a.affected_units, ", "@) + "\n"@,
        ),
        a.candidate_slices.len() > 0 ==> has_infix(
            ambiguity_text(a),
            "- candidates: "@ + separated(a.candidate_slices, ", "@) + "\n"@,
        ),
{
    lemma_join_separated(a.affected_units, ", "@);
    lemma_join_separated(a.candidate_slices, ", "@);
    let head = "### `"@ + a.id + "`\n\n"@ + a.message + "\n\n"@;
    let aff = if a.affected_units.len() > 0 {
        "- affected: "@ + join(a.affected_units, ", "@) + "\n"@
    } else {
        seq![]
    };
    let cand = if a.candidate_slices.len() > 0 {
        "- candidates: "@ + join(a.candidate_slices, ", "@) + "\n"@
    } else {
        seq![]
    };
    let r1 = "- resolution: "@;
    let r2 = a.resolution;
    let r3 = "\n\n"@;
    assert(ambiguity_text(a) == head + aff + cand + r1 + r2 + r3);
    lemma_infix_self(aff);
    lemma_infix_self(cand);
    lemma_infix_concat(head, aff, aff);
    lemma_infix_concat(head + aff, cand, aff);
    lemma_infix_concat(head + aff, cand, cand);
    lemma_infix_concat(head + aff + cand, r1, aff);
    lemma_infix_concat(head + aff + cand, r1, cand);
    lemma_infix_concat(head + aff + cand + r1, r2, aff);
    lemma_infix_concat(head + aff + cand + r1, r2, cand);
    lemma_infix_concat(head + aff + cand + r1 + r2, r3, aff);
    lemma_infix_concat(head + aff + cand + r1 + r2, r3, cand);
}

proof fn lemma_ambiguities_contain(a: Seq<AmbiguityView>, i: int)
    requires
        0 <= i < a.len(),
    ensures
        has_infix(ambiguities_text(a), ambiguity_text(a[i])),
    decreases a.len(),
{
    let t = a.drop_last();
    lemma_infix_self(ambiguity_text(a[i]));
    if i == a.len() - 1 {
        lemma_infix_concat(ambiguities_text(t), ambiguity_text(a.last()), ambiguity_text(a[i]));
    } else {
        assert(t[i] == a[i]);
        lemma_ambiguities_contain(t, i);
        lemma_infix_concat(ambiguities_text(t), ambiguity_text(a.last()), ambiguity_text(a[i]));
    }
}

/// The summary of a plan carries, for every ambiguity, a line listing its
/// affected units and a line listing its candidate slices, each separated
/// by ", ", whenever the list is not empty.
pub proof fn law_summary_lists_ambiguity_candidates(p: PlanView)
    ensures
        forall|i: int|
            0 <= i < p.ambiguities.len() && p.ambiguities[i].candidate_slices.len() > 0 ==> has_infix(
                summary_text(p),
                "- candidates: "@ + separated(#[trigger] p.ambiguities[i].candidate_slices, ", "@)
                    + "\n"@,
            ),
        forall|i: int|
            0 <= i < p.ambiguities.len() && p.ambiguities[i].affected_units.len() > 0 ==> has_infix(
                summary_text(p),
                "- affected: "@ + separated(#[trigger] p.ambiguities[i].affected_units, ", "@)
                    + "\n"@,
            ),
{
    let head = "# stackcut summary\n\n"@ + "- base: `"@ + p.source.base + "`\n- head: `"@
        + p.source.head + "`\n- slices: `"@ + decimal(p.slices.len()) + "`\n- ambiguities: `"@
        + decimal(p.ambiguities.len()) + "`\n\n"@ + "## slices\n\n"@ + slices_text(p.slices);
    let amb = if p.ambiguities.len() > 0 {
        "## ambiguities\n\n"@ + ambiguities_text(p.ambiguities)
    } else {
        seq![]
    };
    let tail = if p.diagnostics.len() > 0 {
        "## diagnostics\n\n"@ + diags_text(p.diagnostics) + "\n"@
    } else {
        seq![]
    };
    assert(summary_text(p) == head + amb + tail);
    assert forall|i: int| 0 <= i < p.ambiguities.len() implies has_infix(
        summary_text(p),
        ambiguity_text(#[trigger] p.ambiguities[i]),
    ) by {
        let x = ambiguity_text(p.ambiguities[i]);
        lemma_ambiguities_contain(p.ambiguities, i);
        lemma_infix_concat("## ambiguities\n\n"@, ambiguities_text(p.ambiguities), x);
        lemma_infix_concat(head, amb, x);
        lemma_infix_concat(head + amb, tail, x);
    }
    assert forall|i: int|
        0 <= i < p.ambiguities.len() && p.ambiguities[i].candidate_slices.len() > 0 implies has_infix(
            summary_text(p),
            "- candidates: "@ + separated(#[trigger] p.ambiguities[i].candidate_slices, ", "@) + "\n"@,
        ) by {
        let a = p.ambiguities[i];
        assert(has_infix(summary_text(p), ambiguity_text(a)));
        lemma_ambiguity_lines(a);
        lemma_infix_trans(summary_text(p), ambiguity_text(a), "- candidates: "@ + separated(a.candidate_slices, ", "@) + "\n"@);
    }
    assert forall|i: int|
        0 <= i < p.ambiguities.len() && p.ambiguities[i].affected_units.len() > 0 implies has_infix(
            summary_text(p),
            "- affected: "@ + separated(#[trigger] p.ambiguities[i].affected_units, ", "@) + "\n"@,
        ) by {
        let a = p.ambiguities[i];
        assert(has_infix(summary_text(p), ambiguity_text(a)));
        lemma_ambiguity_lines(a);
        lemma_infix_trans(summary_text(p), ambiguity_text(a), "- affected: "@ + separated(a.affected_units, ", "@) + "\n"@);
    }
}

// ---------------------------------------------------------------------------
// A behavior slice waits for the renames of its own family
// ---------------------------------------------------------------------------

proof fn lemma_families_of(u: Seq<UnitView>, ids: Seq<Str>, f: Str)
    ensures
        families_of(u, ids).contains(f) <==> exists|i: int|
            0 <= i < u.len() && ids.contains(#[trigger] u[i].id) && u[i].family == f,
    decreases u.len(),
{
    if u.len() > 0 {
        let t = u.drop_last();
        lemma_families_of(t, ids, f);
        let tail = if ids.contains(u.last().id) {
            seq![u.last().family]
        } else {
            seq![]
        };
        lemma_in_concat(families_of(t, ids), tail, f);
        if families_of(u, ids).contains(f) {
            let k = choose|k: int| 0 <= k < families_of(u, ids).len() && families_of(u, ids)[k] == f;
            if k < families_of(t, ids).len() {
                assert(families_of(t, ids).contains(f));
                let i = choose|i: int| 0 <= i < t.len() && ids.contains(#[trigger] t[i].id) && t[i].family == f;
                assert(u[i] == t[i]);
            } else {
                assert(u[u.len() - 1] == u.last());
            }
        }
        if exists|i: int| 0 <= i < u.len() && ids.contains(#[trigger] u[i].id) && u[i].family == f {
            let i = choose|i: int| 0 <= i < u.len() && ids.contains(#[trigger] u[i].id) && u[i].family == f;
            if i < u.len() - 1 {
                assert(t[i] == u[i]);
            } else {
                assert(tail[0] == f);
            }
        }
    }
}

proof fn lemma_member_families(u: Seq<UnitView>, ids: Seq<Str>, f: Str)
    ensures
        member_families(u, ids).contains(f) <==> exists|i: int|
            0 <= i < u.len() && ids.contains(#[trigger] u[i].id) && u[i].family == f,
{
    lemma_families_of(u, ids, f);
    lemma_sort_dedup(families_of(u, ids));
}

proof fn lemma_behavior_ids(u: Seq<UnitView>, a: Set<Str>, f: Str, x: Str)
    ensures
        behavior_ids(u, a, f).contains(x) <==> exists|k: int|
            0 <= k < u.len() && #[trigger] u[k].id == x && !a.contains(x) && u[k].kind
                == UnitKind::Behavior && u[k].family == f,
    decreases u.len(),
{
    if u.len() > 0 {
        let t = u.drop_last();
        lemma_behavior_ids(t, a, f, x);
        let l = u.last();
        let tail = if !a.contains(l.id) && l.kind == UnitKind::Behavior && l.family == f {
            seq![l.id]
        } else {
            seq![]
        };
        lemma_in_concat(behavior_ids(t, a, f), tail, x);
        let b = behavior_ids(u, a, f);
        if b.contains(x) {
            let q = choose|q: int| 0 <= q < b.len() && b[q] == x;
            if q < behavior_ids(t, a, f).len() {
                assert(behavior_ids(t, a, f).contains(x));
                let k = choose|k: int|
                    0 <= k < t.len() && #[trigger] t[k].id == x && !a.contains(x) && t[k].kind
                        == UnitKind::Behavior && t[k].family == f;
                assert(u[k] == t[k]);
            } else {
                assert(u[u.len() - 1] == l);
            }
        }
        if exists|k: int|
            0 <= k < u.len() && #[trigger] u[k].id == x && !a.contains(x) && u[k].kind
                == UnitKind::Behavior && u[k].family == f {
            let k = choose|k: int|
                0 <= k < u.len() && #[trigger] u[k].id == x && !a.contains(x) && u[k].kind
                    == UnitKind::Behavior && u[k].family == f;
            if k < u.len() - 1 {
                assert(t[k] == u[k]);
            } else {
                assert(tail[0] == x);
            }
        }
    }
}

proof fn lemma_behavior_family_list(u: Seq<UnitView>, a: Set<Str>, f: Str)
    ensures
        behavior_family_list(u, a).contains(f) <==> exists|k: int|
            0 <= k < u.len() && !a.contains(#[trigger] u[k].id) && u[k].kind == UnitKind::Behavior
                && u[k].family == f,
    decreases u.len(),
{
    if u.len() > 0 {
        let t = u.drop_last();
        lemma_behavior_family_list(t, a, f);
        let l = u.last();
        let tail = if !a.contains(l.id) && l.kind == UnitKind::Behavior {
            seq![l.family]
        } else {
            seq![]
        };
        let b = behavior_family_list(u, a);
        if b.contains(f) {
            let q = choose|q: int| 0 <= q < b.len() && b[q] == f;
            if q < behavior_family_list(t, a).len() {
                assert(behavior_family_list(t, a).contains(f));
                let k = choose|k: int|
                    0 <= k < t.len() && !a.contains(#[trigger] t[k].id) && t[k].kind
                        == UnitKind::Behavior && t[k].family == f;
                assert(u[k] == t[k]);
            } else {
                assert(u[u.len() - 1] == l);
            }
        }
        lemma_in_concat(behavior_family_list(t, a), tail, f);
        if exists|k: int|
            0 <= k < u.len() && !a.contains(#[trigger] u[k].id) && u[k].kind == UnitKind::Behavior
                && u[k].family == f {
            let k = choose|k: int|
                0 <= k < u.len() && !a.contains(#[trigger] u[k].id) && u[k].kind == UnitKind::Behavior
                    && u[k].family == f;
            if k < u.len() - 1 {
                assert(t[k] == u[k]);
            } else {
                assert(tail[0] == f);
            }
        }
    }
}

proof fn lemma_pick_ids(u: Seq<UnitView>, a: Set<Str>, f: KindFilter, x: Str)
    ensures
        pick_ids(u, a, f).contains(x) <==> exists|k: int|
            0 <= k < u.len() && #[trigger] u[k].id == x && !a.contains(x) && accepts(f, u[k].kind),
    decreases u.len(),
{
    if u.len() > 0 {
        let t = u.drop_last();
        lemma_pick_ids(t, a, f, x);
        let l = u.last();
        let tail = if !a.contains(l.id) && accepts(f, l.kind) {
            seq![l.id]
        } else {
            seq![]
        };
        lemma_in_concat(pick_ids(t, a, f), tail, x);
        let b = pick_ids(u, a, f);
        if b.contains(x) {
            let q = choose|q: int| 0 <= q < b.len() && b[q] == x;
            if q < pick_ids(t, a, f).len() {
                assert(pick_ids(t, a, f).contains(x));
                let k = choose|k: int|
                    0 <= k < t.len() && #[trigger] t[k].id == x && !a.contains(x) && accepts(f, t[k].kind);
                assert(u[k] == t[k]);
            } else {
                assert(u[u.len() - 1] == l);
            }
        }
        if exists|k: int| 0 <= k < u.len() && #[trigger] u[k].id == x && !a.contains(x) && accepts(f, u[k].kind) {
            let k = choose|k: int|
                0 <= k < u.len() && #[trigger] u[k].id == x && !a.contains(x) && accepts(f, u[k].kind);
            if k < u.len() - 1 {
                assert(t[k] == u[k]);
            } else {
                assert(tail[0] == x);
            }
        }
    }
}

/// With distinct ids, the mechanical phase takes exactly the mechanical units.
proof fn lemma_mechanical_ids(u: Seq<UnitView>, i: int)
    requires
        ids_unique(u),
        0 <= i < u.len(),
    ensures
        pick_ids(u, before_mechanical(u), KindFilter::Mechanical).contains(u[i].id) <==> u[i].kind
            == UnitKind::Mechanical,
{
    let x = u[i].id;
    let a0 = Set::<Str>::empty();
    let a1 = after(u, a0, KindFilter::ManifestOrLock);
    let a2 = before_mechanical(u);
    assert forall|k: int| 0 <= k < u.len() && #[trigger] u[k].id == x implies k == i by {
        if k < i {
            assert(u[k].id != u[i].id);
        } else if i < k {
            assert(u[i].id != u[k].id);
        }
    }
    lemma_pick_ids(u, a0, KindFilter::ManifestOrLock, x);
    lemma_pick_ids(u, a1, KindFilter::Ops, x);
    lemma_pick_ids(u, a2, KindFilter::Mechanical, x);
    if u[i].kind == UnitKind::Mechanical {
        assert(!pick_ids(u, a0, KindFilter::ManifestOrLock).to_set().contains(x));
        assert(!pick_ids(u, a1, KindFilter::Ops).to_set().contains(x));
        assert(!a2.contains(x));
    }
}

/// The assigned ids before the mechanical phase.
pub open spec fn before_mechanical(u: Seq<UnitView>) -> Set<Str> {
    after(u, after(u, Set::<Str>::empty(), KindFilter::ManifestOrLock), KindFilter::Ops)
}

/// The only early slice named `mechanical-renames` is the mechanical phase's.
proof fn lemma_early_mechanical(u: Seq<UnitView>, j: int)
    requires
        0 <= j < early(u).0.len(),
        early(u).0[j].id == "mechanical-renames"@,
    ensures
        early(u).0[j] == phase_view(
            u,
            KindFilter::Mechanical,
            pick_ids(u, before_mechanical(u), KindFilter::Mechanical),
        ),
{
    reveal_strlit("mechanical-renames");
    reveal_strlit("api-schema-workspace");
    reveal_strlit("ops-config");
    let a0 = Set::<Str>::empty();
    let s1 = phase_slices(u, a0, KindFilter::ManifestOrLock);
    let a1 = after(u, a0, KindFilter::ManifestOrLock);
    let s2 = s1 + phase_slices(u, a1, KindFilter::Ops);
    let a2 = after(u, a1, KindFilter::Ops);
    let sm = phase_slices(u, a2, KindFilter::Mechanical);
    assert(early(u).0 == s2 + sm);
    let s3 = s2 + sm;
    if j < s1.len() {
        assert(s3[j] == s1[j]);
        assert(s1[j].id == "api-schema-workspace"@);
    } else if j < s2.len() {
        assert(s3[j] == s2[j]);
        assert(s2[j] == phase_slices(u, a1, KindFilter::Ops)[j - s1.len()]);
        assert(s2[j].id == "ops-config"@);
    } else {
        assert(s3[j] == sm[j - s2.len()]);
    }
}

proof fn lemma_fwi_hit(s: Seq<SliceView>, id: Str)
    ensures
        first_with_id(s, id) <= s.len(),
        first_with_id(s, id) >= 0,
        first_with_id(s, id) < s.len() ==> s[first_with_id(s, id)].id == id,
        (exists|j: int| 0 <= j < s.len() && #[trigger] s[j].id == id) ==> first_with_id(s, id) < s.len(),
    decreases s.len(),
{
    if s.len() > 0 && s[0].id != id {
        let t = s.drop_first();
        lemma_fwi_hit(t, id);
        if exists|j: int| 0 <= j < s.len() && #[trigger] s[j].id == id {
            let j = choose|j: int| 0 <= j < s.len() && #[trigger] s[j].id == id;
            assert(t[j - 1] == s[j]);
        }
        if first_with_id(t, id) < t.len() {
            assert(t[first_with_id(t, id)] == s[first_with_id(t, id) + 1]);
        }
    }
}

/// Without overrides, the behavior slice of a family depends on the rename
/// slice exactly when the rename slice holds a unit of that family, that is
/// when some mechanical unit has that family (for units with distinct ids).
pub proof fn law_behavior_waits_for_renames_of_its_family(u: Seq<UnitView>, f: Str)
    requires
        ids_unique(u),
        behavior_families(u, early(u).1).contains(f),
    ensures
        behavior_view(u, early(u).1, early(u).0, f).families == seq![f],
        behavior_view(u, early(u).1, early(u).0, f).depends_on.contains("mechanical-renames"@)
            <==> exists|j: int, i: int|
            0 <= j < early(u).0.len() && early(u).0[j].id == "mechanical-renames"@ && 0 <= i < u.len()
                && #[trigger] early(u).0[j].members.contains(#[trigger] u[i].id) && u[i].family == f,
        behavior_view(u, early(u).1, early(u).0, f).depends_on.contains("mechanical-renames"@)
            <==> exists|i: int|
            0 <= i < u.len() && #[trigger] u[i].kind == UnitKind::Mechanical && u[i].family == f,
{
    reveal_strlit("mechanical-renames");
    reveal_strlit("api-schema-workspace");
    let s3 = early(u).0;
    let a3 = early(u).1;
    let mech = "mechanical-renames"@;
    let ids = behavior_ids(u, a3, f);
    let bv = behavior_view(u, a3, s3, f);
    let deps = behavior_deps(u, ids, s3);
    lemma_sort_dedup(deps);
    lemma_sort_dedup(seq![f]);
    assert(sort_dedup(seq![f]) =~= seq![f]) by {
        assert(seq![f].drop_last() =~= Seq::<Str>::empty());
        assert(sort_dedup(Seq::<Str>::empty()) =~= Seq::<Str>::empty());
    }
    let api_part = if first_with_id(s3, "api-schema-workspace"@) < s3.len() {
        seq!["api-schema-workspace"@]
    } else {
        seq![]
    };
    let mech_part = if family_overlap(u, ids, s3, mech) {
        seq![mech]
    } else {
        seq![]
    };
    assert(deps == api_part + mech_part);
    lemma_in_concat(api_part, mech_part, mech);
    if deps.contains(mech) {
        let q = choose|q: int| 0 <= q < deps.len() && deps[q] == mech;
        if q < api_part.len() {
            assert(api_part[q] == "api-schema-workspace"@);
        }
    }
    assert(bv.depends_on.contains(mech) <==> family_overlap(u, ids, s3, mech));
    // The behavior slice's units are exactly the units of family `f` it takes.
    lemma_sort_dedup(behavior_family_list(u, a3));
    lemma_behavior_family_list(u, a3, f);
    let k0 = choose|k: int|
        0 <= k < u.len() && !a3.contains(#[trigger] u[k].id) && u[k].kind == UnitKind::Behavior
            && u[k].family == f;
    lemma_behavior_ids(u, a3, f, u[k0].id);
    assert forall|g: Str| member_families(u, ids).contains(g) <==> g == f by {
        lemma_member_families(u, ids, g);
        if member_families(u, ids).contains(g) {
            let i = choose|i: int| 0 <= i < u.len() && ids.contains(#[trigger] u[i].id) && u[i].family == g;
            lemma_behavior_ids(u, a3, f, u[i].id);
            let k = choose|k: int|
                0 <= k < u.len() && #[trigger] u[k].id == u[i].id && !a3.contains(u[i].id) && u[k].kind
                    == UnitKind::Behavior && u[k].family == f;
            if k != i {
                if k < i {
                    assert(u[k].id != u[i].id);
                } else {
                    assert(u[i].id != u[k].id);
                }
            }
        }
        if g == f {
            assert(ids.contains(u[k0].id));
        }
    }
    let k = first_with_id(s3, mech);
    lemma_fwi_hit(s3, mech);
    let mids = pick_ids(u, before_mechanical(u), KindFilter::Mechanical);
    let exists_rhs = exists|j: int, i: int|
        0 <= j < s3.len() && s3[j].id == mech && 0 <= i < u.len()
            && #[trigger] s3[j].members.contains(#[trigger] u[i].id) && u[i].family == f;
    lemma_member_families(u, mids, f);
    lemma_sort_dedup(member_families(u, mids));
    lemma_sort_dedup(mids);
    if family_overlap(u, ids, s3, mech) {
        let g = choose|g: Str| s3[k].families.contains(g) && member_families(u, ids).contains(g);
        assert(g == f);
        lemma_early_mechanical(u, k);
        assert(member_families(u, mids).contains(f));
        let i = choose|i: int| 0 <= i < u.len() && mids.contains(#[trigger] u[i].id) && u[i].family == f;
        assert(s3[k].members.contains(u[i].id));
        assert(exists_rhs);
    }
    if exists_rhs {
        let (j, i) = choose|j: int, i: int|
            0 <= j < s3.len() && s3[j].id == mech && 0 <= i < u.len()
                && #[trigger] s3[j].members.contains(#[trigger] u[i].id) && u[i].family == f;
        lemma_early_mechanical(u, j);
        lemma_early_mechanical(u, k);
        assert(mids.contains(u[i].id));
        assert(member_families(u, mids).contains(f));
        assert(s3[k].families.contains(f));
        assert(member_families(u, ids).contains(f));
        assert(family_overlap(u, ids, s3, mech));
    }
    if exists|i: int| 0 <= i < u.len() && #[trigger] u[i].kind == UnitKind::Mechanical && u[i].family == f {
        let i = choose|i: int| 0 <= i < u.len() && #[trigger] u[i].kind == UnitKind::Mechanical && u[i].family == f;
        lemma_mechanical_ids(u, i);
        assert(member_families(u, mids).contains(f));
        assert(mids.len() > 0);
        assert(mids.contains(mids[0]));
        assert(phase_slices(u, before_mechanical(u), KindFilter::Mechanical).len() == 1);
        let a0 = Set::<Str>::empty();
        let s1 = phase_slices(u, a0, KindFilter::ManifestOrLock);
        let a1 = after(u, a0, KindFilter::ManifestOrLock);
        let s2 = s1 + phase_slices(u, a1, KindFilter::Ops);
        let sm = phase_slices(u, before_mechanical(u), KindFilter::Mechanical);
        assert(s3 == s2 + sm);
        assert(s3[s2.len() as int] == sm[0]);
        assert(s3[s2.len() as int].id == mech);
        assert(s3[s2.len() as int].members.contains(u[i].id));
    }
    if bv.depends_on.contains(mech) {
        let (j, i) = choose|j: int, i: int|
            0 <= j < s3.len() && s3[j].id == mech && 0 <= i < u.len()
                && #[trigger] s3[j].members.contains(#[trigger] u[i].id) && u[i].family == f;
        lemma_early_mechanical(u, j);
        assert(mids.contains(u[i].id));
        lemma_mechanical_ids(u, i);
    }
}

/// In a plan without override rules, for units with distinct ids, each
/// family with a behavior unit gets a behavior slice, and that slice depends
/// on the rename slice exactly when some mechanical unit has its family.
pub proof fn law_plan_behavior_waits_for_renames(
    source: SourceView,
    units: Seq<UnitView>,
    c: ConfigView,
    o: OverridesView,
    overrides_json: Seq<u8>,
    f: Str,
)
    requires
        o.must_link.len() == 0,
        o.force_members.len() == 0,
        o.rename_slices.len() == 0,
        o.must_order.len() == 0,
        ids_unique(units),
        exists|k: int| 0 <= k < units.len() && #[trigger] units[k].kind == UnitKind::Behavior && units[k].family == f,
    ensures
        exists|j: int|
            0 <= j < plan_spec(source, units, c, o, overrides_json).slices.len()
                && #[trigger] plan_spec(source, units, c, o, overrides_json).slices[j].id == behavior_id(f)
                && (plan_spec(source, units, c, o, overrides_json).slices[j].depends_on.contains(
                "mechanical-renames"@,
            ) <==> exists|i: int|
                0 <= i < units.len() && #[trigger] units[i].kind == UnitKind::Mechanical && units[i].family
                    == f),
{
    let u = sort_by_path(units);
    lemma_sort_by_path(units);
    let (s3, a3) = early(u);
    // A behavior unit of the family is still unassigned after the early phases.
    let k0 = choose|k: int| 0 <= k < units.len() && #[trigger] units[k].kind == UnitKind::Behavior && units[k].family == f;
    assert(u.contains(units[k0]));
    let kb = choose|kb: int| 0 <= kb < u.len() && u[kb] == units[k0];
    let x = u[kb].id;
    assert forall|k: int| 0 <= k < u.len() && #[trigger] u[k].id == x implies k == kb by {
        if k < kb {
            assert(u[k].id != u[kb].id);
        } else if kb < k {
            assert(u[kb].id != u[k].id);
        }
    }
    let a0 = Set::<Str>::empty();
    let a1 = after(u, a0, KindFilter::ManifestOrLock);
    let a2 = before_mechanical(u);
    lemma_pick_ids(u, a0, KindFilter::ManifestOrLock, x);
    lemma_pick_ids(u, a1, KindFilter::Ops, x);
    lemma_pick_ids(u, a2, KindFilter::Mechanical, x);
    assert(!pick_ids(u, a0, KindFilter::ManifestOrLock).to_set().contains(x));
    assert(!pick_ids(u, a1, KindFilter::Ops).to_set().contains(x));
    assert(!pick_ids(u, a2, KindFilter::Mechanical).to_set().contains(x));
    assert(a3 == after(u, a2, KindFilter::Mechanical));
    assert(!a3.contains(x));
    lemma_behavior_family_list(u, a3, f);
    lemma_sort_dedup(behavior_family_list(u, a3));
    let fams = behavior_families(u, a3);
    assert(fams.contains(f));
    let q = choose|q: int| 0 <= q < fams.len() && fams[q] == f;
    // Mechanical units of the family, in the given order or sorted.
    law_behavior_waits_for_renames_of_its_family(u, f);
    assert((exists|i: int| 0 <= i < u.len() && #[trigger] u[i].kind == UnitKind::Mechanical && u[i].family == f)
        <==> (exists|i: int| 0 <= i < units.len() && #[trigger] units[i].kind == UnitKind::Mechanical && units[i].family == f)) by {
        if exists|i: int| 0 <= i < u.len() && #[trigger] u[i].kind == UnitKind::Mechanical && u[i].family == f {
            let i = choose|i: int| 0 <= i < u.len() && #[trigger] u[i].kind == UnitKind::Mechanical && u[i].family == f;
            assert(u.contains(u[i]));
            assert(units.contains(u[i]));
            let i2 = choose|i2: int| 0 <= i2 < units.len() && units[i2] == u[i];
            assert(units[i2].kind == UnitKind::Mechanical);
        }
        if exists|i: int| 0 <= i < units.len() && #[trigger] units[i].kind == UnitKind::Mechanical && units[i].family == f {
            let i = choose|i: int| 0 <= i < units.len() && #[trigger] units[i].kind == UnitKind::Mechanical && units[i].family == f;
            assert(units.contains(units[i]));
            assert(u.contains(units[i]));
            let i2 = choose|i2: int| 0 <= i2 < u.len() && u[i2] == units[i];
            assert(u[i2].kind == UnitKind::Mechanical);
        }
    }
    // The behavior slice keeps its id and dependencies through attachment,
    // the later phases and the (empty) overrides.
    let bv = behavior_views(u, a3, s3);
    let s4 = s3 + bv;
    let j = s3.len() + q;
    assert(s4[j] == bv[q]);
    assert(bv[q] == behavior_view(u, a3, s3, f));
    let m = family_map(u, a3);
    let a4 = after(u, a3, KindFilter::Behavior);
    let init = AttachView { slices: s4, ambiguities: seq![], loose: seq![], taken: seq![] };
    let ids = pick_ids(u, a4, KindFilter::Attachable);
    let st = attach_all(u, m, init, ids);
    lemma_attach_skeleton(u, m, init, ids);
    assert(st.slices[j].id == s4[j].id && st.slices[j].depends_on == s4[j].depends_on);
    let a5 = a4.union(st.taken.to_set());
    let s6 = st.slices + standalone_views(u, m, st.loose);
    let pre = s6 + phase_slices(u, a5, KindFilter::Any);
    assert(planned(u).0 == pre);
    assert(pre[j] == st.slices[j]);
    let p = plan_spec(source, units, c, o, overrides_json);
    assert(apply_spec(pre, o).0 == pre);
    assert(p.slices == pre);
    assert(behavior_id(f) == behavior_view(u, a3, s3, f).id);
    assert(p.slices[j].id == behavior_id(f));
}

} // verus!
