//! The Markdown summary of a plan, diagnostic counts and plan fingerprints.
use vstd::prelude::*;
use crate::digest::{fingerprint_of, hex, sha256_of};
use crate::model::{
    lit, copy_opt, AmbiguityView, Ambiguity, DiagView, Diagnostic, DiagnosticLevel, Plan,
    PlanView, ReasonView, Slice, SliceKind, SliceView, InclusionReason, diags_view,
    ambiguities_view, slices_view, reasons_view,
};
use crate::text::{decimal, decimal_string, push_str, Str};

verus! {

/// The name of a slice kind as the summary prints it.
pub open spec fn kind_name(k: SliceKind) -> Str {
    match k {
        SliceKind::PrepRefactor => "PrepRefactor"@,
        SliceKind::Behavior => "Behavior"@,
        SliceKind::TestsDocs => "TestsDocs"@,
        SliceKind::Generated => "Generated"@,
        SliceKind::Mechanical => "Mechanical"@,
        SliceKind::OpsConfig => "OpsConfig"@,
        SliceKind::ApiSchema => "ApiSchema"@,
        SliceKind::Misc => "Misc"@,
    }
}

/// The name of a diagnostic level as the summary prints it.
pub open spec fn level_name(l: DiagnosticLevel) -> Str {
    match l {
        DiagnosticLevel::Error => "Error"@,
        DiagnosticLevel::Warning => "Warning"@,
        DiagnosticLevel::Note => "Note"@,
    }
}

pub fn slice_kind_name(k: SliceKind) -> (r: &'static str)
    ensures
        r@ == kind_name(k),
{
    match k {
        SliceKind::PrepRefactor => "PrepRefactor",
        SliceKind::Behavior => "Behavior",
        SliceKind::TestsDocs => "TestsDocs",
        SliceKind::Generated => "Generated",
        SliceKind::Mechanical => "Mechanical",
        SliceKind::OpsConfig => "OpsConfig",
        SliceKind::ApiSchema => "ApiSchema",
        SliceKind::Misc => "Misc",
    }
}

pub fn diagnostic_level_name(l: DiagnosticLevel) -> (r: &'static str)
    ensures
        r@ == level_name(l),
{
    match l {
        DiagnosticLevel::Error => "Error",
        DiagnosticLevel::Warning => "Warning",
        DiagnosticLevel::Note => "Note",
    }
}

/// The items separated by `sep`.
pub open spec fn join(items: Seq<Str>, sep: Str) -> Str
    decreases items.len(),
{
    if items.len() == 0 {
        seq![]
    } else if items.len() == 1 {
        items[0]
    } else {
        join(items.drop_last(), sep) + sep + items.last()
    }
}

/// Appends the items separated by `sep`.
pub(crate) fn push_joined(out: &mut String, items: &Vec<String>, sep: &str)
    ensures
        final(out)@ == old(out)@ + join(items.deep_view(), sep@),
{
    let ghost start = out@;
    let ghost dv = items.deep_view();
    let mut i: usize = 0;
    proof {
        assert(out@ =~= start + join(dv.take(0), sep@));
    }
    while i < items.len()
        invariant
            dv == items.deep_view(),
            0 <= i <= items@.len(),
            out@ == start + join(dv.take(i as int), sep@),
        decreases items@.len() - i,
    {
        let ghost before = out@;
        if i > 0 {
            push_str(out, sep);
        }
        push_str(out, items[i].as_str());
        proof {
            assert(dv.take(i + 1).drop_last() =~= dv.take(i as int));
            assert(dv.take(i + 1).last() == items@[i as int]@);
            if i == 0 {
                assert(dv.take(1) =~= seq![dv[0]]);
                assert(out@ =~= start + join(dv.take(i + 1), sep@));
            } else {
                assert(out@ =~= start + join(dv.take(i + 1), sep@));
            }
        }
        i = i + 1;
    }
    proof {
        assert(dv.take(items@.len() as int) =~= dv);
    }
}

/// Appends the items separated by `sep`.
pub open spec fn members_text(m: Seq<Str>) -> Str
    decreases m.len(),
{
    if m.len() == 0 {
        seq![]
    } else {
        members_text(m.drop_last()) + "  - `"@ + m.last() + "`\n"@
    }
}

pub open spec fn reasons_text(r: Seq<ReasonView>) -> Str
    decreases r.len(),
{
    if r.len() == 0 {
        seq![]
    } else {
        reasons_text(r.drop_last()) + "  - `"@ + r.last().code + "`: "@ + r.last().message + "\n"@
    }
}

/// A labelled, comma-separated list line; nothing when the list is empty.
pub open spec fn list_line(label: Str, items: Seq<Str>) -> Str {
    if items.len() > 0 {
        label + join(items, ", "@) + "\n"@
    } else {
        seq![]
    }
}

pub open spec fn slice_head(s: SliceView) -> Str {
    "### `"@ + s.id + "` \u{2014} "@ + s.title + " ("@ + kind_name(s.kind) + ")\n\n"@
}

pub open spec fn reasons_part(r: Seq<ReasonView>) -> Str {
    if r.len() > 0 {
        "- reasons:\n"@ + reasons_text(r)
    } else {
        seq![]
    }
}

/// The summary section of one slice.
pub open spec fn slice_text(s: SliceView) -> Str {
    slice_head(s) + list_line("- families: "@, s.families) + list_line("- depends on: "@, s.depends_on)
        + ("- members:\n"@ + members_text(s.members)) + reasons_part(s.reasons) + "\n"@
}

pub open spec fn slices_text(s: Seq<SliceView>) -> Str
    decreases s.len(),
{
    if s.len() == 0 {
        seq![]
    } else {
        slices_text(s.drop_last()) + slice_text(s.last())
    }
}

/// The summary section of one ambiguity.
pub open spec fn ambiguity_text(a: AmbiguityView) -> Str {
    "### `"@ + a.id + "`\n\n"@ + a.message + "\n\n"@ + (if a.affected_units.len() > 0 {
        "- affected: "@ + join(a.affected_units, ", "@) + "\n"@
    } else {
        seq![]
    }) + (if a.candidate_slices.len() > 0 {
        "- candidates: "@ + join(a.candidate_slices, ", "@) + "\n"@
    } else {
        seq![]
    }) + "- resolution: "@ + a.resolution + "\n\n"@
}

pub open spec fn ambiguities_text(a: Seq<AmbiguityView>) -> Str
    decreases a.len(),
{
    if a.len() == 0 {
        seq![]
    } else {
        ambiguities_text(a.drop_last()) + ambiguity_text(a.last())
    }
}

pub open spec fn diag_text(d: DiagView) -> Str {
    "- `"@ + level_name(d.level) + "` `"@ + d.code + "`: "@ + d.message + "\n"@
}

pub open spec fn diags_text(d: Seq<DiagView>) -> Str
    decreases d.len(),
{
    if d.len() == 0 {
        seq![]
    } else {
        diags_text(d.drop_last()) + diag_text(d.last())
    }
}

/// The Markdown summary of a plan: its source and counts, each slice with
/// its families, dependencies, members and reasons, then the ambiguities
/// and the diagnostics when there are any.
pub open spec fn summary_text(p: PlanView) -> Str {
    "# stackcut summary\n\n"@ + "- base: `"@ + p.source.base + "`\n- head: `"@ + p.source.head
        + "`\n- slices: `"@ + decimal(p.slices.len()) + "`\n- ambiguities: `"@ + decimal(
        p.ambiguities.len(),
    ) + "`\n\n"@ + "## slices\n\n"@ + slices_text(p.slices) + (if p.ambiguities.len() > 0 {
        "## ambiguities\n\n"@ + ambiguities_text(p.ambiguities)
    } else {
        seq![]
    }) + (if p.diagnostics.len() > 0 {
        "## diagnostics\n\n"@ + diags_text(p.diagnostics) + "\n"@
    } else {
        seq![]
    })
}

fn push_list_line(out: &mut String, label: &str, items: &Vec<String>)
    ensures
        final(out)@ == old(out)@ + list_line(label@, items.deep_view()),
{
    let ghost start = out@;
    if items.len() > 0 {
        push_str(out, label);
        push_joined(out, items, ", ");
        push_str(out, "\n");
        proof {
            assert(out@ =~= start + list_line(label@, items.deep_view()));
        }
    } else {
        proof {
            assert(out@ =~= start + list_line(label@, items.deep_view()));
        }
    }
}

fn push_members(out: &mut String, members: &Vec<String>)
    ensures
        final(out)@ == old(out)@ + ("- members:\n"@ + members_text(members.deep_view())),
{
    let ghost start = out@;
    push_str(out, "- members:\n");
    let ghost d0 = out@;
    let ghost mv = members.deep_view();
    let mut i: usize = 0;
    while i < members.len()
        invariant
            mv == members.deep_view(),
            0 <= i <= members@.len(),
            out@ == d0 + members_text(mv.take(i as int)),
        decreases members@.len() - i,
    {
        push_str(out, "  - `");
        push_str(out, members[i].as_str());
        push_str(out, "`\n");
        proof {
            assert(mv.take(i + 1).drop_last() =~= mv.take(i as int));
            assert(mv.take(i + 1).last() == members@[i as int]@);
            assert(out@ =~= d0 + members_text(mv.take(i + 1)));
        }
        i = i + 1;
    }
    proof {
        assert(mv.take(members@.len() as int) =~= mv);
        assert(out@ =~= start + ("- members:\n"@ + members_text(mv)));
    }
}

fn push_reasons(out: &mut String, reasons: &Vec<InclusionReason>)
    ensures
        final(out)@ == old(out)@ + reasons_part(reasons_view(reasons@)),
{
    let ghost start = out@;
    let ghost rv = reasons_view(reasons@);
    if reasons.len() > 0 {
        push_str(out, "- reasons:\n");
        let ghost r0 = out@;
        let mut k: usize = 0;
        while k < reasons.len()
            invariant
                rv == reasons_view(reasons@),
                0 <= k <= reasons@.len(),
                out@ == r0 + reasons_text(rv.take(k as int)),
            decreases reasons@.len() - k,
        {
            push_str(out, "  - `");
            push_str(out, reasons[k].code.as_str());
            push_str(out, "`: ");
            push_str(out, reasons[k].message.as_str());
            push_str(out, "\n");
            proof {
                assert(rv.take(k + 1).drop_last() =~= rv.take(k as int));
                assert(rv.take(k + 1).last() == reasons@[k as int]@);
                assert(out@ =~= r0 + reasons_text(rv.take(k + 1)));
            }
            k = k + 1;
        }
        proof {
            assert(rv.take(reasons@.len() as int) =~= rv);
            assert(out@ =~= start + reasons_part(rv));
        }
    } else {
        proof {
            assert(out@ =~= start + reasons_part(rv));
        }
    }
}

fn push_slice_text(out: &mut String, s: &Slice)
    ensures
        final(out)@ == old(out)@ + slice_text(s@),
{
    let ghost start = out@;
    push_str(out, "### `");
    push_str(out, s.id.as_str());
    push_str(out, "` \u{2014} ");
    push_str(out, s.title.as_str());
    push_str(out, " (");
    push_str(out, slice_kind_name(s.kind));
    push_str(out, ")\n\n");
    let ghost h = out@;
    proof {
        assert(h =~= start + slice_head(s@));
    }
    push_list_line(out, "- families: ", &s.families);
    let ghost f = out@;
    push_list_line(out, "- depends on: ", &s.depends_on);
    let ghost d = out@;
    push_members(out, &s.members);
    let ghost m = out@;
    push_reasons(out, &s.reasons);
    let ghost r = out@;
    push_str(out, "\n");
    proof {
        let sv = s@;
        let p1 = slice_head(sv);
        let p2 = list_line("- families: "@, sv.families);
        let p3 = list_line("- depends on: "@, sv.depends_on);
        let p4 = "- members:\n"@ + members_text(sv.members);
        let p5 = reasons_part(sv.reasons);
        let p6 = "\n"@;
        assert(out@ =~= start + (p1 + p2 + p3 + p4 + p5 + p6));
    }
}

fn push_ambiguity_text(out: &mut String, a: &Ambiguity)
    ensures
        final(out)@ == old(out)@ + ambiguity_text(a@),
{
    let ghost start = out@;
    push_str(out, "### `");
    push_str(out, a.id.as_str());
    push_str(out, "`\n\n");
    push_str(out, a.message.as_str());
    push_str(out, "\n\n");
    if a.affected_units.len() > 0 {
        push_str(out, "- affected: ");
        push_joined(out, &a.affected_units, ", ");
        push_str(out, "\n");
    }
    if a.candidate_slices.len() > 0 {
        push_str(out, "- candidates: ");
        push_joined(out, &a.candidate_slices, ", ");
        push_str(out, "\n");
    }
    push_str(out, "- resolution: ");
    push_str(out, a.resolution.as_str());
    push_str(out, "\n\n");
    proof {
        assert(out@ =~= start + ambiguity_text(a@));
    }
}

fn push_slices_section(out: &mut String, slices: &Vec<Slice>)
    ensures
        final(out)@ == old(out)@ + slices_text(slices_view(slices@)),
{
    let ghost s0 = out@;
    let ghost sv = slices_view(slices@);
    let mut i: usize = 0;
    proof {
        assert(sv.take(0) =~= Seq::<SliceView>::empty());
        assert(out@ =~= s0 + slices_text(sv.take(0)));
    }
    while i < slices.len()
        invariant
            sv == slices_view(slices@),
            0 <= i <= slices@.len(),
            out@ == s0 + slices_text(sv.take(i as int)),
        decreases slices@.len() - i,
    {
        push_slice_text(out, &slices[i]);
        proof {
            assert(sv.take(i + 1).drop_last() =~= sv.take(i as int));
            assert(sv.take(i + 1).last() == slices@[i as int]@);
            assert(out@ =~= s0 + slices_text(sv.take(i + 1)));
        }
        i = i + 1;
    }
    proof {
        assert(sv.take(slices@.len() as int) =~= sv);
    }
}

fn push_ambiguities_section(out: &mut String, ambiguities: &Vec<Ambiguity>)
    ensures
        final(out)@ == old(out)@ + (if ambiguities@.len() > 0 {
            "## ambiguities\n\n"@ + ambiguities_text(ambiguities_view(ambiguities@))
        } else {
            seq![]
        }),
{
    let ghost s0 = out@;
    if ambiguities.len() > 0 {
        push_str(out, "## ambiguities\n\n");
        let ghost a0 = out@;
        let ghost av = ambiguities_view(ambiguities@);
        let mut i: usize = 0;
        proof {
            assert(av.take(0) =~= Seq::<AmbiguityView>::empty());
            assert(out@ =~= a0 + ambiguities_text(av.take(0)));
        }
        while i < ambiguities.len()
            invariant
                av == ambiguities_view(ambiguities@),
                0 <= i <= ambiguities@.len(),
                out@ == a0 + ambiguities_text(av.take(i as int)),
            decreases ambiguities@.len() - i,
        {
            push_ambiguity_text(out, &ambiguities[i]);
            proof {
                assert(av.take(i + 1).drop_last() =~= av.take(i as int));
                assert(av.take(i + 1).last() == ambiguities@[i as int]@);
                assert(out@ =~= a0 + ambiguities_text(av.take(i + 1)));
            }
            i = i + 1;
        }
        proof {
            assert(av.take(ambiguities@.len() as int) =~= av);
            assert(out@ =~= s0 + ("## ambiguities\n\n"@ + ambiguities_text(av)));
        }
    } else {
        proof {
            assert(out@ =~= s0 + Seq::<char>::empty());
        }
    }
}

fn push_diagnostics_section(out: &mut String, diagnostics: &Vec<Diagnostic>)
    ensures
        final(out)@ == old(out)@ + (if diagnostics@.len() > 0 {
            "## diagnostics\n\n"@ + diags_text(diags_view(diagnostics@)) + "\n"@
        } else {
            seq![]
        }),
{
    let ghost s0 = out@;
    if diagnostics.len() > 0 {
        push_str(out, "## diagnostics\n\n");
        let ghost d0 = out@;
        let ghost dv = diags_view(diagnostics@);
        let mut i: usize = 0;
        proof {
            assert(dv.take(0) =~= Seq::<DiagView>::empty());
            assert(out@ =~= d0 + diags_text(dv.take(0)));
        }
        while i < diagnostics.len()
            invariant
                dv == diags_view(diagnostics@),
                0 <= i <= diagnostics@.len(),
                out@ == d0 + diags_text(dv.take(i as int)),
            decreases diagnostics@.len() - i,
        {
            let d = &diagnostics[i];
            push_str(out, "- `");
            push_str(out, diagnostic_level_name(d.level));
            push_str(out, "` `");
            push_str(out, d.code.as_str());
            push_str(out, "`: ");
            push_str(out, d.message.as_str());
            push_str(out, "\n");
            proof {
                assert(dv.take(i + 1).drop_last() =~= dv.take(i as int));
                assert(dv.take(i + 1).last() == d@);
                assert(out@ =~= d0 + diags_text(dv.take(i + 1)));
            }
            i = i + 1;
        }
        proof {
            assert(dv.take(diagnostics@.len() as int) =~= dv);
        }
        push_str(out, "\n");
        proof {
            assert(out@ =~= s0 + ("## diagnostics\n\n"@ + diags_text(dv) + "\n"@));
        }
    } else {
        proof {
            assert(out@ =~= s0 + Seq::<char>::empty());
        }
    }
}

/// Renders a plan as a Markdown summary.
pub fn render_summary(plan: &Plan) -> (r: String)
    ensures
        r@ == summary_text(plan@),
{
    let mut out = lit("# stackcut summary\n\n");
    push_str(&mut out, "- base: `");
    push_str(&mut out, plan.source.base.as_str());
    push_str(&mut out, "`\n- head: `");
    push_str(&mut out, plan.source.head.as_str());
    push_str(&mut out, "`\n- slices: `");
    let n = decimal_string(plan.slices.len());
    push_str(&mut out, n.as_str());
    push_str(&mut out, "`\n- ambiguities: `");
    let m = decimal_string(plan.ambiguities.len());
    push_str(&mut out, m.as_str());
    push_str(&mut out, "`\n\n");
    push_str(&mut out, "## slices\n\n");
    push_slices_section(&mut out, &plan.slices);
    push_ambiguities_section(&mut out, &plan.ambiguities);
    push_diagnostics_section(&mut out, &plan.diagnostics);
    proof {
        assert(out@ =~= summary_text(plan@));
    }
    out
}

// ---------------------------------------------------------------------------
// Diagnostic counts
// ---------------------------------------------------------------------------

/// How many diagnostics have each level.
#[derive(Debug, Clone, Copy, PartialEq, Eq, Structural)]
pub struct DiagnosticCounts {
    pub errors: usize,
    pub warnings: usize,
    pub notes: usize,
}

/// How many of the diagnostics have the level.
pub open spec fn count_level(d: Seq<DiagView>, l: DiagnosticLevel) -> nat
    decreases d.len(),
{
    if d.len() == 0 {
        0
    } else {
        count_level(d.drop_last(), l) + if d.last().level == l {
            1nat
        } else {
            0nat
        }
    }
}

proof fn lemma_count_level_bound(d: Seq<DiagView>, l: DiagnosticLevel)
    ensures
        count_level(d, l) <= d.len(),
    decreases d.len(),
{
    if d.len() > 0 {
        lemma_count_level_bound(d.drop_last(), l);
    }
}

/// Counts the diagnostics of each level.
pub fn diagnostic_counts(diagnostics: &Vec<Diagnostic>) -> (r: DiagnosticCounts)
    ensures
        r.errors == count_level(diags_view(diagnostics@), DiagnosticLevel::Error),
        r.warnings == count_level(diags_view(diagnostics@), DiagnosticLevel::Warning),
        r.notes == count_level(diags_view(diagnostics@), DiagnosticLevel::Note),
{
    let ghost dv = diags_view(diagnostics@);
    let mut errors: usize = 0;
    let mut warnings: usize = 0;
    let mut notes: usize = 0;
    let mut i: usize = 0;
    while i < diagnostics.len()
        invariant
            dv == diags_view(diagnostics@),
            0 <= i <= diagnostics@.len(),
            errors == count_level(dv.take(i as int), DiagnosticLevel::Error),
            warnings == count_level(dv.take(i as int), DiagnosticLevel::Warning),
            notes == count_level(dv.take(i as int), DiagnosticLevel::Note),
        decreases diagnostics@.len() - i,
    {
        proof {
            assert(dv.take(i + 1).drop_last() =~= dv.take(i as int));
            assert(dv.take(i + 1).last() == diagnostics@[i as int]@);
            lemma_count_level_bound(dv.take(i as int), DiagnosticLevel::Error);
            lemma_count_level_bound(dv.take(i as int), DiagnosticLevel::Warning);
            lemma_count_level_bound(dv.take(i as int), DiagnosticLevel::Note);
        }
        match diagnostics[i].level {
            DiagnosticLevel::Error => {
                errors = errors + 1;
            },
            DiagnosticLevel::Warning => {
                warnings = warnings + 1;
            },
            DiagnosticLevel::Note => {
                notes = notes + 1;
            },
        }
        i = i + 1;
    }
    proof {
        assert(dv.take(diagnostics@.len() as int) =~= dv);
    }
    DiagnosticCounts { errors, warnings, notes }
}

/// Every diagnostic has exactly one level, so the counts add up to the
/// number of diagnostics.
pub proof fn law_counts_add_up(d: Seq<DiagView>)
    ensures
        count_level(d, DiagnosticLevel::Error) + count_level(d, DiagnosticLevel::Warning)
            + count_level(d, DiagnosticLevel::Note) == d.len(),
    decreases d.len(),
{
    if d.len() > 0 {
        law_counts_add_up(d.drop_last());
    }
}

/// The diagnostics of a plan, with where they came from, when they were
/// written and how many there are of each level.
#[derive(Debug, Clone, PartialEq, Eq)]
pub struct DiagnosticsEnvelope {
    pub source_base: String,
    pub source_head: String,
    pub generated_at: String,
    pub counts: DiagnosticCounts,
    pub diagnostics: Vec<Diagnostic>,
}

/// The diagnostics envelope of a plan, stamped with `generated_at`.
pub fn diagnostics_envelope(plan: &Plan, generated_at: String) -> (r: DiagnosticsEnvelope)
    ensures
        r.source_base@ == plan.source.base@,
        r.source_head@ == plan.source.head@,
        r.generated_at@ == generated_at@,
        r.counts.errors == count_level(diags_view(plan.diagnostics@), DiagnosticLevel::Error),
        r.counts.warnings == count_level(diags_view(plan.diagnostics@), DiagnosticLevel::Warning),
        r.counts.notes == count_level(diags_view(plan.diagnostics@), DiagnosticLevel::Note),
        diags_view(r.diagnostics@) == diags_view(plan.diagnostics@),
{
    let counts = diagnostic_counts(&plan.diagnostics);
    let mut diagnostics: Vec<Diagnostic> = Vec::new();
    let mut i: usize = 0;
    while i < plan.diagnostics.len()
        invariant
            0 <= i <= plan.diagnostics@.len(),
            diags_view(diagnostics@) == diags_view(plan.diagnostics@).take(i as int),
        decreases plan.diagnostics@.len() - i,
    {
        let d = &plan.diagnostics[i];
        let x = Diagnostic::new(d.level, d.code.as_str(), d.message.clone());
        let ghost before = diags_view(diagnostics@);
        diagnostics.push(x);
        proof {
            assert(x@ == d@);
            assert(diags_view(diagnostics@) =~= before.push(x@));
            assert(diags_view(plan.diagnostics@)[i as int] == d@);
            assert(diags_view(diagnostics@) =~= diags_view(plan.diagnostics@).take(i + 1));
        }
        i = i + 1;
    }
    proof {
        assert(diags_view(plan.diagnostics@).take(plan.diagnostics@.len() as int) =~= diags_view(plan.diagnostics@));
    }
    DiagnosticsEnvelope {
        source_base: plan.source.base.clone(),
        source_head: plan.source.head.clone(),
        generated_at,
        counts,
        diagnostics,
    }
}

/// The plan with its fingerprint cleared: the form whose serialization
/// the fingerprint is computed from.
pub fn without_fingerprint(plan: &Plan) -> (r: Plan)
    ensures
        r@ == (PlanView { fingerprint: None, ..plan@ }),
{
    let r = Plan {
        version: plan.version.clone(),
        source: plan.source.duplicate(),
        units: crate::model::copy_units(&plan.units),
        slices: crate::model::copy_slices(&plan.slices),
        ambiguities: crate::model::copy_ambiguities(&plan.ambiguities),
        diagnostics: crate::model::copy_diagnostics(&plan.diagnostics),
        fingerprint: None,
        override_fingerprint: copy_opt(&plan.override_fingerprint),
    };
    proof {
        assert(r@ =~= (PlanView { fingerprint: None, ..plan@ }));
    }
    r
}

/// The fingerprint of a plan, from its serialized form without a
/// fingerprint: the SHA-256 digest in lowercase hex.
pub fn compute_fingerprint(plan_json: &[u8]) -> (r: String)
    ensures
        r@ == hex(sha256_of(plan_json@)),
        r@.len() == 64,
        forall|i: int| 0 <= i < r@.len() ==> crate::digest::is_hex_char(#[trigger] r@[i]),
{
    fingerprint_of(plan_json)
}

} // verus!
