//! The planner: from edit units to a validated stack plan.
use vstd::prelude::*;
use crate::attach::{
    attach_all, behavior_views, build_behavior, build_standalone_slices, family_map, pairs_view,
    run_attachment, standalone_views, AttachView,
};
use crate::digest::{fingerprint_of, hex, sha256_of};
use crate::model::{
    ambiguities_view, diags_view, lit, slices_view, units_view, AmbiguityView, ConfigView,
    DiagView, Diagnostic, DiagnosticLevel, EditUnit, Overrides, OverridesView, Plan, PlanSource,
    PlanView, Slice, SliceView, SourceView, StackcutConfig, UnitView, PLAN_VERSION, copy_slices,
    copy_units,
};
use crate::overrides::{apply_overrides, apply_spec};
use crate::phases::{
    build_misc_unassigned, build_phase, collect_ids, mark_assigned, phase_view, pick_ids,
    sort_by_path, sort_units_by_path, KindFilter,
};
use crate::text::{chars_of, decimal, decimal_string, has_prefix, push_str, starts_with, Str};
use crate::validate::{override_diags, structural_diags, structural_validate, validate_overrides};

verus! {

/// A single-slice phase's slice, when it takes any unit.
pub open spec fn phase_slices(u: Seq<UnitView>, a: Set<Str>, f: KindFilter) -> Seq<SliceView> {
    let ids = pick_ids(u, a, f);
    if ids.len() > 0 {
        seq![phase_view(u, f, ids)]
    } else {
        seq![]
    }
}

/// The assigned ids after a phase takes its units.
pub open spec fn after(u: Seq<UnitView>, a: Set<Str>, f: KindFilter) -> Set<Str> {
    a.union(pick_ids(u, a, f).to_set())
}

/// The manifest, ops and mechanical slices, and the ids they take.
pub open spec fn early(u: Seq<UnitView>) -> (Seq<SliceView>, Set<Str>) {
    let a0 = Set::<Str>::empty();
    let s1 = phase_slices(u, a0, KindFilter::ManifestOrLock);
    let a1 = after(u, a0, KindFilter::ManifestOrLock);
    let s2 = s1 + phase_slices(u, a1, KindFilter::Ops);
    let a2 = after(u, a1, KindFilter::Ops);
    (s2 + phase_slices(u, a2, KindFilter::Mechanical), after(u, a2, KindFilter::Mechanical))
}

/// The slices before overrides, and the ambiguities found, for units in
/// path order.
pub open spec fn planned(u: Seq<UnitView>) -> (Seq<SliceView>, Seq<AmbiguityView>) {
    let (s3, a3) = early(u);
    late(u, s3, a3)
}

/// The behavior, attached, standalone and catch-all slices after the early
/// phases, and the ambiguities found.
pub open spec fn late(u: Seq<UnitView>, s3: Seq<SliceView>, a3: Set<Str>) -> (Seq<SliceView>, Seq<AmbiguityView>) {
    let fmap = family_map(u, a3);
    let s4 = s3 + behavior_views(u, a3, s3);
    let a4 = after(u, a3, KindFilter::Behavior);
    let st = attach_all(
        u,
        fmap,
        AttachView { slices: s4, ambiguities: seq![], loose: seq![], taken: seq![] },
        pick_ids(u, a4, KindFilter::Attachable),
    );
    let a5 = a4.union(st.taken.to_set());
    let s6 = st.slices + standalone_views(u, fmap, st.loose);
    (s6 + phase_slices(u, a5, KindFilter::Any), st.ambiguities)
}

/// The review budget: the configured one, or fifteen members.
pub open spec fn budget_of(c: ConfigView) -> nat {
    match c.review_budget {
        Some(b) => b as nat,
        None => 15,
    }
}

pub open spec fn budget_diag(id: Str, n: nat, budget: nat) -> DiagView {
    DiagView {
        level: DiagnosticLevel::Warning,
        code: "review-budget-exceeded"@,
        message: "Slice '"@ + id + "' has "@ + decimal(n) + " members (budget: "@ + decimal(budget)
            + ")"@,
    }
}

/// One warning per slice with more members than the budget.
pub open spec fn budget_diags(s: Seq<SliceView>, budget: nat) -> Seq<DiagView>
    decreases s.len(),
{
    if s.len() == 0 {
        seq![]
    } else {
        budget_diags(s.drop_last(), budget) + if s.last().members.len() > budget {
            seq![budget_diag(s.last().id, s.last().members.len(), budget)]
        } else {
            seq![]
        }
    }
}

pub open spec fn unsupported_diag(code: Str, path: Str) -> DiagView {
    DiagView {
        level: DiagnosticLevel::Warning,
        code,
        message: path + " is an unsupported change type in v0.1"@,
    }
}

/// One warning per note of a unit that marks an unsupported change.
pub open spec fn note_diags(path: Str, notes: Seq<Str>) -> Seq<DiagView>
    decreases notes.len(),
{
    if notes.len() == 0 {
        seq![]
    } else {
        note_diags(path, notes.drop_last()) + if has_prefix(notes.last(), "unsupported-"@) {
            seq![unsupported_diag(notes.last(), path)]
        } else {
            seq![]
        }
    }
}

pub open spec fn unsupported_diags(u: Seq<UnitView>) -> Seq<DiagView>
    decreases u.len(),
{
    if u.len() == 0 {
        seq![]
    } else {
        unsupported_diags(u.drop_last()) + note_diags(u.last().path, u.last().notes)
    }
}

pub open spec fn ambiguity_diag() -> DiagView {
    DiagView {
        level: DiagnosticLevel::Warning,
        code: "ambiguity-present"@,
        message: "Plan contains one or more explicit ambiguities."@,
    }
}

/// The slices after overrides and the plan's diagnostics: structural
/// findings, the ambiguity warning, override findings, rolled-back
/// orderings, review-budget warnings and unsupported-change warnings.
pub open spec fn gathered(
    u: Seq<UnitView>,
    pre: Seq<SliceView>,
    amb: Seq<AmbiguityView>,
    o: OverridesView,
    c: ConfigView,
) -> (Seq<SliceView>, Seq<DiagView>) {
    let od = override_diags(
        o,
        u.map_values(|x: UnitView| x.id),
        pre.map_values(|x: SliceView| x.id),
    );
    let (post, ad) = apply_spec(pre, o);
    (
        post,
        structural_diags(u, post) + (if amb.len() > 0 {
            seq![ambiguity_diag()]
        } else {
            seq![]
        }) + od + ad + budget_diags(post, budget_of(c)) + unsupported_diags(u),
    )
}

/// Whether any override rule is given.
pub open spec fn has_overrides(o: OverridesView) -> bool {
    o.must_link.len() > 0 || o.force_members.len() > 0 || o.rename_slices.len() > 0
        || o.must_order.len() > 0
}

/// The plan for a change: units in path order, planned slices with the
/// overrides applied, ambiguities and diagnostics; the override fingerprint
/// is the digest of the serialized overrides when any rule is given.
pub open spec fn plan_spec(
    source: SourceView,
    units: Seq<UnitView>,
    c: ConfigView,
    o: OverridesView,
    overrides_json: Seq<u8>,
) -> PlanView {
    let u = sort_by_path(units);
    let (pre, amb) = planned(u);
    let (post, d) = gathered(u, pre, amb, o, c);
    PlanView {
        version: PLAN_VERSION@,
        source,
        units: u,
        slices: post,
        ambiguities: amb,
        diagnostics: d,
        fingerprint: None,
        override_fingerprint: if has_overrides(o) {
            Some(hex(sha256_of(overrides_json)))
        } else {
            None
        },
    }
}

/// Warnings for slices over the review budget.
pub fn review_budget_warnings(slices: &Vec<Slice>, config: &StackcutConfig) -> (r: Vec<Diagnostic>)
    ensures
        diags_view(r@) == budget_diags(slices_view(slices@), budget_of(config@)),
{
    let budget: usize = match config.review_budget {
        Some(b) => b as usize,
        None => 15,
    };
    let ghost sv = slices_view(slices@);
    let mut out: Vec<Diagnostic> = Vec::new();
    let mut i: usize = 0;
    while i < slices.len()
        invariant
            sv == slices_view(slices@),
            budget as nat == budget_of(config@),
            0 <= i <= slices@.len(),
            diags_view(out@) == budget_diags(sv.take(i as int), budget as nat),
        decreases slices@.len() - i,
    {
        let slice = &slices[i];
        proof {
            assert(sv.take(i + 1).drop_last() =~= sv.take(i as int));
            assert(sv.take(i + 1).last() == slice@);
        }
        if slice.members.len() > budget {
            let mut m = lit("Slice '");
            push_str(&mut m, slice.id.as_str());
            push_str(&mut m, "' has ");
            let n = decimal_string(slice.members.len());
            push_str(&mut m, n.as_str());
            push_str(&mut m, " members (budget: ");
            let b = decimal_string(budget);
            push_str(&mut m, b.as_str());
            push_str(&mut m, ")");
            let d = Diagnostic::new(DiagnosticLevel::Warning, "review-budget-exceeded", m);
            let ghost before = diags_view(out@);
            out.push(d);
            proof {
                assert(diags_view(out@) =~= before + seq![d@]);
            }
        } else {
            proof {
                assert(diags_view(out@) =~= diags_view(out@) + seq![]);
            }
        }
        i = i + 1;
    }
    proof {
        assert(sv.take(slices@.len() as int) =~= sv);
    }
    out
}

/// Warnings for units whose notes mark an unsupported change.
pub fn unsupported_note_warnings(units: &Vec<EditUnit>) -> (r: Vec<Diagnostic>)
    ensures
        diags_view(r@) == unsupported_diags(units_view(units@)),
{
    let ghost uv = units_view(units@);
    let prefix = chars_of("unsupported-");
    let mut out: Vec<Diagnostic> = Vec::new();
    let mut i: usize = 0;
    while i < units.len()
        invariant
            uv == units_view(units@),
            prefix@ == "unsupported-"@,
            0 <= i <= units@.len(),
            diags_view(out@) == unsupported_diags(uv.take(i as int)),
        decreases units@.len() - i,
    {
        let unit = &units[i];
        proof {
            assert(uv.take(i + 1).drop_last() =~= uv.take(i as int));
            assert(uv.take(i + 1).last() == unit@);
        }
        let ghost start = diags_view(out@);
        let mut k: usize = 0;
        while k < unit.notes.len()
            invariant
                prefix@ == "unsupported-"@,
                0 <= k <= unit.notes@.len(),
                diags_view(out@) == start + note_diags(unit.path@, unit.notes.deep_view().take(k as int)),
            decreases unit.notes@.len() - k,
        {
            let note = &unit.notes[k];
            proof {
                assert(unit.notes.deep_view().take(k + 1).drop_last() =~= unit.notes.deep_view().take(k as int));
                assert(unit.notes.deep_view().take(k + 1).last() == note@);
            }
            let nc = chars_of(note.as_str());
            if starts_with(nc.as_slice(), prefix.as_slice()) {
                let mut m = unit.path.clone();
                push_str(&mut m, " is an unsupported change type in v0.1");
                let d = Diagnostic::new(DiagnosticLevel::Warning, note.as_str(), m);
                let ghost before = diags_view(out@);
                out.push(d);
                proof {
                    assert(diags_view(out@) =~= before + seq![d@]);
                }
            }
            proof {
                assert(diags_view(out@) =~= start + note_diags(unit.path@, unit.notes.deep_view().take(k + 1)));
            }
            k = k + 1;
        }
        proof {
            assert(unit.notes.deep_view().take(unit.notes@.len() as int) =~= unit.notes.deep_view());
        }
        i = i + 1;
    }
    proof {
        assert(uv.take(units@.len() as int) =~= uv);
    }
    out
}

/// The ids of the units, in order.
fn unit_ids(units: &Vec<EditUnit>) -> (r: Vec<String>)
    ensures
        r.deep_view() == units_view(units@).map_values(|x: UnitView| x.id),
{
    let mut out: Vec<String> = Vec::new();
    let mut i: usize = 0;
    while i < units.len()
        invariant
            0 <= i <= units@.len(),
            out.deep_view() == units_view(units@).take(i as int).map_values(|x: UnitView| x.id),
        decreases units@.len() - i,
    {
        let ghost before = out.deep_view();
        out.push(units[i].id.clone());
        proof {
            assert(out.deep_view() =~= before.push(units@[i as int].id@));
            assert(units_view(units@)[i as int] == units@[i as int]@);
            assert(out.deep_view() =~= units_view(units@).take(i + 1).map_values(|x: UnitView| x.id));
        }
        i = i + 1;
    }
    proof {
        assert(units_view(units@).take(units@.len() as int) =~= units_view(units@));
    }
    out
}

/// The ids of the slices, in order.
fn slice_ids(slices: &Vec<Slice>) -> (r: Vec<String>)
    ensures
        r.deep_view() == slices_view(slices@).map_values(|x: SliceView| x.id),
{
    let mut out: Vec<String> = Vec::new();
    let mut i: usize = 0;
    while i < slices.len()
        invariant
            0 <= i <= slices@.len(),
            out.deep_view() == slices_view(slices@).take(i as int).map_values(|x: SliceView| x.id),
        decreases slices@.len() - i,
    {
        let ghost before = out.deep_view();
        out.push(slices[i].id.clone());
        proof {
            assert(out.deep_view() =~= before.push(slices@[i as int].id@));
            assert(slices_view(slices@)[i as int] == slices@[i as int]@);
            assert(out.deep_view() =~= slices_view(slices@).take(i + 1).map_values(|x: SliceView| x.id));
        }
        i = i + 1;
    }
    proof {
        assert(slices_view(slices@).take(slices@.len() as int) =~= slices_view(slices@));
    }
    out
}

/// Applies the overrides to the planned slices and gathers the plan's
/// diagnostics.
pub fn gather(
    source: &PlanSource,
    units: &Vec<EditUnit>,
    slices: &mut Vec<Slice>,
    ambiguities: &Vec<crate::model::Ambiguity>,
    overrides: &Overrides,
    config: &StackcutConfig,
) -> (r: Vec<Diagnostic>)
    ensures
        (slices_view(final(slices)@), diags_view(r@)) == gathered(
            units_view(units@),
            slices_view(old(slices)@),
            ambiguities_view(ambiguities@),
            overrides@,
            config@,
        ),
{
    let uids = unit_ids(units);
    let sids = slice_ids(slices);
    let mut od = validate_overrides(overrides, &uids, &sids);
    let mut ad = apply_overrides(slices, overrides);
    let check = Plan {
        version: lit(PLAN_VERSION),
        source: source.duplicate(),
        units: copy_units(units),
        slices: copy_slices(slices),
        ambiguities: Vec::new(),
        diagnostics: Vec::new(),
        fingerprint: None,
        override_fingerprint: None,
    };
    let mut out = structural_validate(&check);
    let ghost d0 = diags_view(out@);
    if ambiguities.len() > 0 {
        out.push(Diagnostic::new(
            DiagnosticLevel::Warning,
            "ambiguity-present",
            lit("Plan contains one or more explicit ambiguities."),
        ));
    }
    let ghost d1 = diags_view(out@);
    proof {
        assert(d1 =~= d0 + if ambiguities@.len() > 0 {
            seq![ambiguity_diag()]
        } else {
            seq![]
        });
    }
    let ghost odv = diags_view(od@);
    out.append(&mut od);
    let ghost d2 = diags_view(out@);
    proof {
        assert(d2 =~= d1 + odv);
    }
    let ghost adv = diags_view(ad@);
    out.append(&mut ad);
    let ghost d3 = diags_view(out@);
    proof {
        assert(d3 =~= d2 + adv);
    }
    let mut bd = review_budget_warnings(slices, config);
    let ghost bdv = diags_view(bd@);
    out.append(&mut bd);
    let ghost d4 = diags_view(out@);
    proof {
        assert(d4 =~= d3 + bdv);
    }
    let mut ud = unsupported_note_warnings(units);
    let ghost udv = diags_view(ud@);
    out.append(&mut ud);
    proof {
        assert(diags_view(out@) =~= d4 + udv);
    }
    out
}

/// Runs a single-slice phase over the slices and assigned ids.
fn run_phase(units: &Vec<EditUnit>, slices: &mut Vec<Slice>, assigned: &mut Vec<String>, f: KindFilter)
    requires
        f != KindFilter::Behavior,
        f != KindFilter::Attachable,
    ensures
        slices_view(final(slices)@) == slices_view(old(slices)@) + phase_slices(
            units_view(units@),
            old(assigned).deep_view().to_set(),
            f,
        ),
        final(assigned).deep_view().to_set() == after(
            units_view(units@),
            old(assigned).deep_view().to_set(),
            f,
        ),
{
    let ghost s0 = slices_view(slices@);
    let ghost a0 = assigned.deep_view().to_set();
    match build_phase(units, assigned, f) {
        Some((slice, ids)) => {
            mark_assigned(assigned, &ids);
            slices.push(slice);
            proof {
                assert(slices_view(slices@) =~= s0 + seq![slice@]);
            }
        },
        None => {
            proof {
                assert(slices_view(slices@) =~= s0 + seq![]);
                assert(assigned.deep_view().to_set() =~= a0.union(
                    pick_ids(units_view(units@), a0, f).to_set(),
                ));
            }
        },
    }
}

/// The manifest, ops and mechanical slices, and the ids they take.
fn plan_early(units: &Vec<EditUnit>) -> (r: (Vec<Slice>, Vec<String>))
    ensures
        (slices_view(r.0@), r.1.deep_view().to_set()) == early(units_view(units@)),
{
    let mut slices: Vec<Slice> = Vec::new();
    let mut assigned: Vec<String> = Vec::new();
    proof {
        assert(assigned.deep_view().to_set() =~= Set::<Str>::empty());
        assert(slices_view(slices@) =~= seq![]);
    }
    run_phase(units, &mut slices, &mut assigned, KindFilter::ManifestOrLock);
    run_phase(units, &mut slices, &mut assigned, KindFilter::Ops);
    run_phase(units, &mut slices, &mut assigned, KindFilter::Mechanical);
    proof {
        let u = units_view(units@);
        let a0 = Set::<Str>::empty();
        let s1 = phase_slices(u, a0, KindFilter::ManifestOrLock);
        assert(seq![] + s1 =~= s1);
    }
    (slices, assigned)
}

/// The behavior, attached, standalone and catch-all slices, and the
/// ambiguities found.
fn plan_late(units: &Vec<EditUnit>, slices: Vec<Slice>, assigned: Vec<String>) -> (r: (
    Vec<Slice>,
    Vec<crate::model::Ambiguity>,
))
    ensures
        (slices_view(r.0@), ambiguities_view(r.1@)) == late(
            units_view(units@),
            slices_view(slices@),
            assigned.deep_view().to_set(),
        ),
{
    let ghost u = units_view(units@);
    let ghost s3 = slices_view(slices@);
    let ghost a3 = assigned.deep_view().to_set();
    let mut slices = slices;
    let mut assigned = assigned;
    let (mut behavior, map) = build_behavior(units, &slices, &assigned);
    let behavior_ids = collect_ids(units, &assigned, KindFilter::Behavior);
    mark_assigned(&mut assigned, &behavior_ids);
    slices.append(&mut behavior);
    let ghost a4 = after(u, a3, KindFilter::Behavior);
    proof {
        assert(assigned.deep_view().to_set() =~= a4);
        assert(slices_view(slices@) =~= s3 + behavior_views(u, a3, s3));
    }
    let attachable = collect_ids(units, &assigned, KindFilter::Attachable);
    let (ambiguities, loose, taken) = run_attachment(units, &mut slices, &attachable, &map);
    mark_assigned(&mut assigned, &taken);
    let mut standalone = build_standalone_slices(units, &map, &loose);
    let ghost stv = slices_view(standalone@);
    let ghost s5 = slices_view(slices@);
    slices.append(&mut standalone);
    proof {
        assert(slices_view(slices@) =~= s5 + stv);
    }
    let ghost s6 = slices_view(slices@);
    match build_misc_unassigned(units, &assigned) {
        Some((slice, ids)) => {
            slices.push(slice);
            proof {
                assert(slices_view(slices@) =~= s6 + seq![slice@]);
            }
        },
        None => {
            proof {
                assert(slices_view(slices@) =~= s6 + seq![]);
            }
        },
    }
    (slices, ambiguities)
}

/// Builds the stack plan for a change. `overrides_json` is the serialized
/// form of `overrides`; its digest becomes the override fingerprint when any
/// override rule is given.
pub fn plan(
    source: PlanSource,
    units: Vec<EditUnit>,
    config: &StackcutConfig,
    overrides: &Overrides,
    overrides_json: &[u8],
) -> (r: Plan)
    ensures
        r@ == plan_spec(source@, units_view(units@), config@, overrides@, overrides_json@),
        r@.override_fingerprint matches Some(f) ==> f.len() == 64 && forall|i: int|
            0 <= i < f.len() ==> crate::digest::is_hex_char(#[trigger] f[i]),
{
    let units = sort_units_by_path(&units);
    let (slices, assigned) = plan_early(&units);
    let (mut slices, ambiguities) = plan_late(&units, slices, assigned);
    let diagnostics = gather(&source, &units, &mut slices, &ambiguities, overrides, config);
    let has_rules = overrides.must_link.len() > 0 || overrides.force_members.len() > 0
        || overrides.rename_slices.len() > 0 || overrides.must_order.len() > 0;
    let override_fingerprint = if has_rules {
        Some(fingerprint_of(overrides_json))
    } else {
        None
    };
    let r = Plan {
        version: lit(PLAN_VERSION),
        source,
        units,
        slices,
        ambiguities,
        diagnostics,
        fingerprint: None,
        override_fingerprint,
    };
    r
}

} // verus!
