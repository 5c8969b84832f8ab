//! Structural validation of plans.
//!
//! A plan is structurally sound when every unit sits in exactly one slice,
//! every dependency names another slice of the plan, no slice is empty and
//! the dependency graph is acyclic. Findings come out grouped by code, in
//! code order, and in plan order within a code.
use vstd::prelude::*;
use crate::graph::{acyclic, has_cycle, is_slice_id};
use crate::model::{
    diags_view, slices_view, units_view, DiagView, Diagnostic, DiagnosticLevel, ForceView,
    MustLinkView, OrderView, Overrides, OverridesView, Plan, RenameView, Slice, SliceView,
    UnitView, lit,
};
use crate::order::contains_string;
use crate::text::{decimal, decimal_string, push_str, Str};

verus! {

/// How often `id` occurs in a list.
pub open spec fn occurrences(s: Seq<Str>, id: Str) -> nat
    decreases s.len(),
{
    if s.len() == 0 {
        0
    } else {
        occurrences(s.drop_last(), id) + if s.last() == id {
            1nat
        } else {
            0nat
        }
    }
}

/// How often `id` occurs among the members of all slices.
pub open spec fn member_count(s: Seq<SliceView>, id: Str) -> nat
    decreases s.len(),
{
    if s.len() == 0 {
        0
    } else {
        member_count(s.drop_last(), id) + occurrences(s.last().members, id)
    }
}

/// A count as a machine word can hold it.
pub open spec fn capped(n: nat) -> nat {
    if n > usize::MAX {
        usize::MAX as nat
    } else {
        n
    }
}

pub open spec fn empty_slice_diag(id: Str) -> DiagView {
    DiagView {
        level: DiagnosticLevel::Warning,
        code: "empty-slice"@,
        message: "Slice "@ + id + " has no members."@,
    }
}

pub open spec fn self_dep_diag(id: Str) -> DiagView {
    DiagView {
        level: DiagnosticLevel::Error,
        code: "self-dependency"@,
        message: "Slice "@ + id + " depends on itself."@,
    }
}

pub open spec fn missing_dep_diag(id: Str, dep: Str) -> DiagView {
    DiagView {
        level: DiagnosticLevel::Error,
        code: "missing-dependency"@,
        message: "Slice "@ + id + " depends on unknown slice "@ + dep + "."@,
    }
}

pub open spec fn duplicate_diag(id: Str, count: nat) -> DiagView {
    DiagView {
        level: DiagnosticLevel::Error,
        code: "duplicate-member"@,
        message: "Unit "@ + id + " appears "@ + decimal(count) + " times across slices."@,
    }
}

pub open spec fn missing_member_diag(id: Str) -> DiagView {
    DiagView {
        level: DiagnosticLevel::Error,
        code: "missing-member"@,
        message: "Unit "@ + id + " is not assigned to any slice."@,
    }
}

pub open spec fn cycle_diag() -> DiagView {
    DiagView {
        level: DiagnosticLevel::Error,
        code: "cycle"@,
        message: "Slice dependency graph contains a cycle."@,
    }
}

/// One finding per slice without members.
pub open spec fn empty_slice_diags(s: Seq<SliceView>) -> Seq<DiagView>
    decreases s.len(),
{
    if s.len() == 0 {
        seq![]
    } else {
        empty_slice_diags(s.drop_last()) + if s.last().members.len() == 0 {
            seq![empty_slice_diag(s.last().id)]
        } else {
            seq![]
        }
    }
}

/// One finding per dependency of slice `id` on itself.
pub open spec fn self_dep_diags_of(id: Str, deps: Seq<Str>) -> Seq<DiagView>
    decreases deps.len(),
{
    if deps.len() == 0 {
        seq![]
    } else {
        self_dep_diags_of(id, deps.drop_last()) + if deps.last() == id {
            seq![self_dep_diag(id)]
        } else {
            seq![]
        }
    }
}

pub open spec fn self_dep_diags(s: Seq<SliceView>) -> Seq<DiagView>
    decreases s.len(),
{
    if s.len() == 0 {
        seq![]
    } else {
        self_dep_diags(s.drop_last()) + self_dep_diags_of(s.last().id, s.last().depends_on)
    }
}

/// One finding per dependency of slice `id` on a slice that `all` lacks.
pub open spec fn missing_dep_diags_of(all: Seq<SliceView>, id: Str, deps: Seq<Str>) -> Seq<
    DiagView,
>
    decreases deps.len(),
{
    if deps.len() == 0 {
        seq![]
    } else {
        missing_dep_diags_of(all, id, deps.drop_last()) + if deps.last() != id && !is_slice_id(
            all,
            deps.last(),
        ) {
            seq![missing_dep_diag(id, deps.last())]
        } else {
            seq![]
        }
    }
}

pub open spec fn missing_dep_diags(all: Seq<SliceView>, s: Seq<SliceView>) -> Seq<DiagView>
    decreases s.len(),
{
    if s.len() == 0 {
        seq![]
    } else {
        missing_dep_diags(all, s.drop_last()) + missing_dep_diags_of(
            all,
            s.last().id,
            s.last().depends_on,
        )
    }
}

/// One finding per unit that sits in more than one place.
pub open spec fn duplicate_diags(u: Seq<UnitView>, s: Seq<SliceView>) -> Seq<DiagView>
    decreases u.len(),
{
    if u.len() == 0 {
        seq![]
    } else {
        duplicate_diags(u.drop_last(), s) + if member_count(s, u.last().id) > 1 {
            seq![duplicate_diag(u.last().id, capped(member_count(s, u.last().id)))]
        } else {
            seq![]
        }
    }
}

/// One finding per unit that sits in no slice.
pub open spec fn missing_member_diags(u: Seq<UnitView>, s: Seq<SliceView>) -> Seq<DiagView>
    decreases u.len(),
{
    if u.len() == 0 {
        seq![]
    } else {
        missing_member_diags(u.drop_last(), s) + if member_count(s, u.last().id) == 0 {
            seq![missing_member_diag(u.last().id)]
        } else {
            seq![]
        }
    }
}

/// The structural findings on units and slices, grouped by code in code order.
pub open spec fn structural_diags(u: Seq<UnitView>, s: Seq<SliceView>) -> Seq<DiagView> {
    (if acyclic(s) {
        seq![]
    } else {
        seq![cycle_diag()]
    }) + duplicate_diags(u, s) + empty_slice_diags(s) + missing_dep_diags(s, s)
        + missing_member_diags(u, s) + self_dep_diags(s)
}

proof fn lemma_diags_push(v: Seq<Diagnostic>, d: Diagnostic)
    ensures
        diags_view(v.push(d)) == diags_view(v) + seq![d@],
{
    assert(diags_view(v.push(d)) =~= diags_view(v) + seq![d@]);
}

proof fn lemma_diags_add(a: Seq<Diagnostic>, b: Seq<Diagnostic>)
    ensures
        diags_view(a + b) == diags_view(a) + diags_view(b),
{
    assert(diags_view(a + b) =~= diags_view(a) + diags_view(b));
}

/// How often `id` occurs in a list of strings.
fn count_in(v: &Vec<String>, id: &String) -> (r: usize)
    ensures
        r == occurrences(v.deep_view(), id@),
{
    let mut c: usize = 0;
    let mut i: usize = 0;
    while i < v.len()
        invariant
            0 <= i <= v@.len(),
            c == occurrences(v.deep_view().take(i as int), id@),
            c <= i,
        decreases v@.len() - i,
    {
        proof {
            assert(v.deep_view().take(i + 1).drop_last() =~= v.deep_view().take(i as int));
        }
        if v[i] == *id {
            c = c + 1;
        }
        i = i + 1;
    }
    proof {
        assert(v.deep_view().take(v@.len() as int) =~= v.deep_view());
    }
    c
}

/// How often `id` occurs among the members of all slices, capped at the
/// largest machine word.
pub fn count_members(slices: &Vec<Slice>, id: &String) -> (r: usize)
    ensures
        r == capped(member_count(slices_view(slices@), id@)),
{
    let ghost sv = slices_view(slices@);
    let mut total: usize = 0;
    let mut i: usize = 0;
    while i < slices.len()
        invariant
            sv == slices_view(slices@),
            0 <= i <= slices@.len(),
            total == capped(member_count(sv.take(i as int), id@)),
        decreases slices@.len() - i,
    {
        let c = count_in(&slices[i].members, id);
        proof {
            assert(sv.take(i + 1).drop_last() =~= sv.take(i as int));
            assert(sv.take(i + 1).last() == slices@[i as int]@);
        }
        if total > usize::MAX - c {
            total = usize::MAX;
        } else {
            total = total + c;
        }
        i = i + 1;
    }
    proof {
        assert(sv.take(slices@.len() as int) =~= sv);
    }
    total
}

/// Structural findings on a plan: duplicate and missing members, dependencies
/// on unknown slices or on the slice itself, empty slices, and cycles.
pub fn structural_validate(plan: &Plan) -> (r: Vec<Diagnostic>)
    ensures
        diags_view(r@) == structural_diags(units_view(plan.units@), slices_view(plan.slices@)),
{
    let slices = &plan.slices;
    let units = &plan.units;
    let ghost sv = slices_view(slices@);
    let ghost uv = units_view(units@);
    // Slices: empty slices, self-dependencies, unknown dependencies.
    let mut empty: Vec<Diagnostic> = Vec::new();
    let mut selfdep: Vec<Diagnostic> = Vec::new();
    let mut missing: Vec<Diagnostic> = Vec::new();
    let mut i: usize = 0;
    while i < slices.len()
        invariant
            sv == slices_view(slices@),
            0 <= i <= slices@.len(),
            diags_view(empty@) == empty_slice_diags(sv.take(i as int)),
            diags_view(selfdep@) == self_dep_diags(sv.take(i as int)),
            diags_view(missing@) == missing_dep_diags(sv, sv.take(i as int)),
        decreases slices@.len() - i,
    {
        let slice = &slices[i];
        proof {
            assert(sv.take(i + 1).drop_last() =~= sv.take(i as int));
            assert(sv.take(i + 1).last() == slice@);
        }
        if slice.members.len() == 0 {
            let mut m = lit("Slice ");
            push_str(&mut m, slice.id.as_str());
            push_str(&mut m, " has no members.");
            let d = Diagnostic::new(DiagnosticLevel::Warning, "empty-slice", m);
            proof {
                lemma_diags_push(empty@, d);
            }
            empty.push(d);
        }
        let ghost self_before = diags_view(selfdep@);
        let ghost missing_before = diags_view(missing@);
        let deps = &slice.depends_on;
        let mut k: usize = 0;
        while k < deps.len()
            invariant
                sv == slices_view(slices@),
                *slice == slices@[i as int],
                *deps == slice.depends_on,
                0 <= k <= deps@.len(),
                diags_view(selfdep@) == self_before + self_dep_diags_of(
                    slice.id@,
                    deps.deep_view().take(k as int),
                ),
                diags_view(missing@) == missing_before + missing_dep_diags_of(
                    sv,
                    slice.id@,
                    deps.deep_view().take(k as int),
                ),
            decreases deps@.len() - k,
        {
            let dep = &deps[k];
            proof {
                assert(deps.deep_view().take(k + 1).drop_last() =~= deps.deep_view().take(k as int));
                assert(deps.deep_view().take(k + 1).last() == dep@);
            }
            if *dep == slice.id {
                let mut m = lit("Slice ");
                push_str(&mut m, slice.id.as_str());
                push_str(&mut m, " depends on itself.");
                let d = Diagnostic::new(DiagnosticLevel::Error, "self-dependency", m);
                proof {
                    lemma_diags_push(selfdep@, d);
                }
                selfdep.push(d);
            } else {
                let found = crate::graph::find_slice_index(slices, dep);
                if found.is_none() {
                    let mut m = lit("Slice ");
                    push_str(&mut m, slice.id.as_str());
                    push_str(&mut m, " depends on unknown slice ");
                    push_str(&mut m, dep.as_str());
                    push_str(&mut m, ".");
                    let d = Diagnostic::new(DiagnosticLevel::Error, "missing-dependency", m);
                    proof {
                        lemma_diags_push(missing@, d);
                    }
                    missing.push(d);
                } else {
                    proof {
                        let j = found.unwrap();
                        assert(sv[j as int].id == dep@);
                    }
                }
            }
            k = k + 1;
        }
        proof {
            assert(deps.deep_view().take(deps@.len() as int) =~= deps.deep_view());
        }
        i = i + 1;
    }
    proof {
        assert(sv.take(slices@.len() as int) =~= sv);
    }
    // Units: duplicate and missing members.
    let mut dup: Vec<Diagnostic> = Vec::new();
    let mut absent: Vec<Diagnostic> = Vec::new();
    let mut i: usize = 0;
    while i < units.len()
        invariant
            sv == slices_view(slices@),
            uv == units_view(units@),
            0 <= i <= units@.len(),
            diags_view(dup@) == duplicate_diags(uv.take(i as int), sv),
            diags_view(absent@) == missing_member_diags(uv.take(i as int), sv),
        decreases units@.len() - i,
    {
        let unit = &units[i];
        proof {
            assert(uv.take(i + 1).drop_last() =~= uv.take(i as int));
            assert(uv.take(i + 1).last() == unit@);
        }
        let count = count_members(slices, &unit.id);
        if count == 0 {
            let mut m = lit("Unit ");
            push_str(&mut m, unit.id.as_str());
            push_str(&mut m, " is not assigned to any slice.");
            let d = Diagnostic::new(DiagnosticLevel::Error, "missing-member", m);
            proof {
                lemma_diags_push(absent@, d);
            }
            absent.push(d);
        } else if count > 1 {
            let mut m = lit("Unit ");
            push_str(&mut m, unit.id.as_str());
            push_str(&mut m, " appears ");
            let n = decimal_string(count);
            push_str(&mut m, n.as_str());
            push_str(&mut m, " times across slices.");
            let d = Diagnostic::new(DiagnosticLevel::Error, "duplicate-member", m);
            proof {
                lemma_diags_push(dup@, d);
            }
            dup.push(d);
        }
        i = i + 1;
    }
    proof {
        assert(uv.take(units@.len() as int) =~= uv);
    }
    // Assemble in code order.
    let mut out: Vec<Diagnostic> = Vec::new();
    if has_cycle(slices) {
        let d = Diagnostic::new(
            DiagnosticLevel::Error,
            "cycle",
            lit("Slice dependency graph contains a cycle."),
        );
        out.push(d);
        proof {
            assert(diags_view(out@) =~= seq![cycle_diag()]);
        }
    } else {
        proof {
            assert(diags_view(out@) =~= seq![]);
        }
    }
    proof {
        lemma_diags_add(out@, dup@);
    }
    out.append(&mut dup);
    proof {
        lemma_diags_add(out@, empty@);
    }
    out.append(&mut empty);
    proof {
        lemma_diags_add(out@, missing@);
    }
    out.append(&mut missing);
    proof {
        lemma_diags_add(out@, absent@);
    }
    out.append(&mut absent);
    proof {
        lemma_diags_add(out@, selfdep@);
    }
    out.append(&mut selfdep);
    out
}

pub open spec fn unknown_member_diag(lead: Str, m: Str) -> DiagView {
    DiagView {
        level: DiagnosticLevel::Warning,
        code: "unknown-override-member"@,
        message: lead + m + "'"@,
    }
}

pub open spec fn unknown_slice_diag(lead: Str, id: Str) -> DiagView {
    DiagView {
        level: DiagnosticLevel::Warning,
        code: "unknown-override-slice"@,
        message: lead + id + "'"@,
    }
}

pub open spec fn too_few_diag() -> DiagView {
    DiagView {
        level: DiagnosticLevel::Warning,
        code: "must-link-too-few"@,
        message: "must_link group has fewer than 2 members"@,
    }
}

/// One finding per member that names no known unit.
pub open spec fn unknown_members(ms: Seq<Str>, units: Seq<Str>) -> Seq<DiagView>
    decreases ms.len(),
{
    if ms.len() == 0 {
        seq![]
    } else {
        unknown_members(ms.drop_last(), units) + if units.contains(ms.last()) {
            seq![]
        } else {
            seq![unknown_member_diag("must_link references unknown member '"@, ms.last())]
        }
    }
}

pub open spec fn must_link_diags(rules: Seq<MustLinkView>, units: Seq<Str>) -> Seq<DiagView>
    decreases rules.len(),
{
    if rules.len() == 0 {
        seq![]
    } else {
        must_link_diags(rules.drop_last(), units) + (if rules.last().members.len() < 2 {
            seq![too_few_diag()]
        } else {
            seq![]
        }) + unknown_members(rules.last().members, units)
    }
}

pub open spec fn force_diags(rules: Seq<ForceView>, units: Seq<Str>) -> Seq<DiagView>
    decreases rules.len(),
{
    if rules.len() == 0 {
        seq![]
    } else {
        force_diags(rules.drop_last(), units) + if units.contains(rules.last().member) {
            seq![]
        } else {
            seq![unknown_member_diag("force_members references unknown member '"@, rules.last().member)]
        }
    }
}

pub open spec fn rename_diags(rules: Seq<RenameView>, slices: Seq<Str>) -> Seq<DiagView>
    decreases rules.len(),
{
    if rules.len() == 0 {
        seq![]
    } else {
        rename_diags(rules.drop_last(), slices) + if slices.contains(rules.last().id) {
            seq![]
        } else {
            seq![unknown_slice_diag("rename_slices references unknown slice '"@, rules.last().id)]
        }
    }
}

pub open spec fn order_diags(rules: Seq<OrderView>, slices: Seq<Str>) -> Seq<DiagView>
    decreases rules.len(),
{
    if rules.len() == 0 {
        seq![]
    } else {
        order_diags(rules.drop_last(), slices) + (if slices.contains(rules.last().before) {
            seq![]
        } else {
            seq![
                unknown_slice_diag(
                    "must_order references unknown 'before' slice '"@,
                    rules.last().before,
                ),
            ]
        }) + if slices.contains(rules.last().after) {
            seq![]
        } else {
            seq![unknown_slice_diag("must_order references unknown 'after' slice '"@, rules.last().after)]
        }
    }
}

/// The findings on overrides that name unknown units or slices, or link fewer
/// than two members: must_link rules first, then force_members,
/// rename_slices and must_order, each in rule order.
pub open spec fn override_diags(o: OverridesView, units: Seq<Str>, slices: Seq<Str>) -> Seq<
    DiagView,
> {
    must_link_diags(o.must_link, units) + force_diags(o.force_members, units) + rename_diags(
        o.rename_slices,
        slices,
    ) + order_diags(o.must_order, slices)
}

fn warning(code: &str, prefix: &str, name: &String, suffix: &str) -> (d: Diagnostic)
    ensures
        d@ == (DiagView {
            level: DiagnosticLevel::Warning,
            code: code@,
            message: prefix@ + name@ + suffix@,
        }),
{
    let mut m = lit(prefix);
    push_str(&mut m, name.as_str());
    push_str(&mut m, suffix);
    Diagnostic::new(DiagnosticLevel::Warning, code, m)
}

/// Warnings for overrides that reference unknown units or slices, and for
/// must_link groups with fewer than two members.
pub fn validate_overrides(overrides: &Overrides, unit_ids: &Vec<String>, slice_ids: &Vec<String>) -> (r: Vec<Diagnostic>)
    ensures
        diags_view(r@) == override_diags(overrides@, unit_ids.deep_view(), slice_ids.deep_view()),
{
    let ghost uids = unit_ids.deep_view();
    let ghost sids = slice_ids.deep_view();
    let ghost ov = overrides@;
    let mut out: Vec<Diagnostic> = Vec::new();
    let mut i: usize = 0;
    while i < overrides.must_link.len()
        invariant
            uids == unit_ids.deep_view(),
            ov == overrides@,
            0 <= i <= overrides.must_link@.len(),
            diags_view(out@) == must_link_diags(ov.must_link.take(i as int), uids),
        decreases overrides.must_link@.len() - i,
    {
        let rule = &overrides.must_link[i];
        proof {
            assert(ov.must_link.take(i + 1).drop_last() =~= ov.must_link.take(i as int));
            assert(ov.must_link.take(i + 1).last() == rule@);
        }
        if rule.members.len() < 2 {
            let d = Diagnostic::new(
                DiagnosticLevel::Warning,
                "must-link-too-few",
                lit("must_link group has fewer than 2 members"),
            );
            proof {
                lemma_diags_push(out@, d);
            }
            out.push(d);
        }
        let ghost before = diags_view(out@);
        proof {
            assert(diags_view(out@) =~= before + unknown_members(
                rule.members.deep_view().take(0),
                uids,
            ));
        }
        let mut k: usize = 0;
        while k < rule.members.len()
            invariant
                uids == unit_ids.deep_view(),
                0 <= i < overrides.must_link@.len(),
                *rule == overrides.must_link@[i as int],
                0 <= k <= rule.members@.len(),
                diags_view(out@) == before + unknown_members(
                    rule.members.deep_view().take(k as int),
                    uids,
                ),
            decreases rule.members@.len() - k,
        {
            let m = &rule.members[k];
            proof {
                assert(rule.members.deep_view().take(k + 1).drop_last() =~= rule.members.deep_view().take(k as int));
                assert(rule.members.deep_view().take(k + 1).last() == m@);
            }
            if !contains_string(unit_ids, m) {
                let d = warning(
                    "unknown-override-member",
                    "must_link references unknown member '",
                    m,
                    "'",
                );
                proof {
                    lemma_diags_push(out@, d);
                }
                out.push(d);
            }
            proof {
                assert(diags_view(out@) =~= before + unknown_members(
                    rule.members.deep_view().take(k + 1),
                    uids,
                ));
            }
            k = k + 1;
        }
        proof {
            assert(rule.members.deep_view().take(rule.members@.len() as int) =~= rule.members.deep_view());
            assert(diags_view(out@) =~= must_link_diags(ov.must_link.take(i + 1), uids));
        }
        i = i + 1;
    }
    proof {
        assert(ov.must_link.take(overrides.must_link@.len() as int) =~= ov.must_link);
    }
    let ghost after_link = diags_view(out@);
    let mut i: usize = 0;
    while i < overrides.force_members.len()
        invariant
            uids == unit_ids.deep_view(),
            ov == overrides@,
            0 <= i <= overrides.force_members@.len(),
            diags_view(out@) == after_link + force_diags(ov.force_members.take(i as int), uids),
        decreases overrides.force_members@.len() - i,
    {
        let rule = &overrides.force_members[i];
        proof {
            assert(ov.force_members.take(i + 1).drop_last() =~= ov.force_members.take(i as int));
            assert(ov.force_members.take(i + 1).last() == rule@);
        }
        if !contains_string(unit_ids, &rule.member) {
            let d = warning(
                "unknown-override-member",
                "force_members references unknown member '",
                &rule.member,
                "'",
            );
            proof {
                lemma_diags_push(out@, d);
            }
            out.push(d);
        }
        proof {
            assert(diags_view(out@) =~= after_link + force_diags(ov.force_members.take(i + 1), uids));
        }
        i = i + 1;
    }
    proof {
        assert(ov.force_members.take(overrides.force_members@.len() as int) =~= ov.force_members);
    }
    let ghost after_force = diags_view(out@);
    let mut i: usize = 0;
    while i < overrides.rename_slices.len()
        invariant
            sids == slice_ids.deep_view(),
            ov == overrides@,
            0 <= i <= overrides.rename_slices@.len(),
            diags_view(out@) == after_force + rename_diags(ov.rename_slices.take(i as int), sids),
        decreases overrides.rename_slices@.len() - i,
    {
        let rule = &overrides.rename_slices[i];
        proof {
            assert(ov.rename_slices.take(i + 1).drop_last() =~= ov.rename_slices.take(i as int));
            assert(ov.rename_slices.take(i + 1).last() == rule@);
        }
        if !contains_string(slice_ids, &rule.id) {
            let d = warning(
                "unknown-override-slice",
                "rename_slices references unknown slice '",
                &rule.id,
                "'",
            );
            proof {
                lemma_diags_push(out@, d);
            }
            out.push(d);
        }
        proof {
            assert(diags_view(out@) =~= after_force + rename_diags(ov.rename_slices.take(i + 1), sids));
        }
        i = i + 1;
    }
    proof {
        assert(ov.rename_slices.take(overrides.rename_slices@.len() as int) =~= ov.rename_slices);
    }
    let ghost after_rename = diags_view(out@);
    let mut i: usize = 0;
    while i < overrides.must_order.len()
        invariant
            sids == slice_ids.deep_view(),
            ov == overrides@,
            0 <= i <= overrides.must_order@.len(),
            diags_view(out@) == after_rename + order_diags(ov.must_order.take(i as int), sids),
        decreases overrides.must_order@.len() - i,
    {
        let rule = &overrides.must_order[i];
        let ghost start = diags_view(out@);
        proof {
            assert(ov.must_order.take(i + 1).drop_last() =~= ov.must_order.take(i as int));
            assert(ov.must_order.take(i + 1).last() == rule@);
        }
        if !contains_string(slice_ids, &rule.before) {
            let d = warning(
                "unknown-override-slice",
                "must_order references unknown 'before' slice '",
                &rule.before,
                "'",
            );
            proof {
                lemma_diags_push(out@, d);
            }
            out.push(d);
        }
        if !contains_string(slice_ids, &rule.after) {
            let d = warning(
                "unknown-override-slice",
                "must_order references unknown 'after' slice '",
                &rule.after,
                "'",
            );
            proof {
                lemma_diags_push(out@, d);
            }
            out.push(d);
        }
        proof {
            assert(diags_view(out@) =~= after_rename + order_diags(ov.must_order.take(i + 1), sids));
        }
        i = i + 1;
    }
    proof {
        assert(ov.must_order.take(overrides.must_order@.len() as int) =~= ov.must_order);
    }
    out
}

} // verus!
