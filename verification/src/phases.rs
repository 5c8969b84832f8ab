//! The planning phases that turn edit units into slices.
//!
//! Units are first ordered by path. Manifest and lock files, ops
//! configuration and mechanical changes each form one slice; behavior changes
//! form one slice per family; generated files, tests and docs attach to a
//! behavior slice of their family when one exists and otherwise stand alone;
//! whatever is left forms a catch-all slice.
use vstd::prelude::*;
use crate::model::{
    lit, new_slice, new_slice_view, reason, reason_view, units_view, ChangeStatus, EditUnit,
    InclusionReason, Slice, SliceKind, SliceView, UnitKind, UnitView,
};
use crate::order::{contains_string, dedup_and_sort, sort_dedup, string_lt, str_lt};
use crate::text::Str;

verus! {

/// Which unit kinds a planning phase takes.
#[derive(Debug, Clone, Copy, PartialEq, Eq, Structural)]
pub enum KindFilter {
    ManifestOrLock,
    Ops,
    Mechanical,
    Behavior,
    Attachable,
    Any,
}

pub open spec fn accepts(f: KindFilter, k: UnitKind) -> bool {
    match f {
        KindFilter::ManifestOrLock => k == UnitKind::Manifest || k == UnitKind::Lockfile,
        KindFilter::Ops => k == UnitKind::OpsConfig,
        KindFilter::Mechanical => k == UnitKind::Mechanical,
        KindFilter::Behavior => k == UnitKind::Behavior,
        KindFilter::Attachable => k == UnitKind::Generated || k == UnitKind::Test || k
            == UnitKind::Documentation,
        KindFilter::Any => true,
    }
}

fn accepts_kind(f: KindFilter, k: UnitKind) -> (r: bool)
    ensures
        r == accepts(f, k),
{
    match f {
        KindFilter::ManifestOrLock => k == UnitKind::Manifest || k == UnitKind::Lockfile,
        KindFilter::Ops => k == UnitKind::OpsConfig,
        KindFilter::Mechanical => k == UnitKind::Mechanical,
        KindFilter::Behavior => k == UnitKind::Behavior,
        KindFilter::Attachable => k == UnitKind::Generated || k == UnitKind::Test || k
            == UnitKind::Documentation,
        KindFilter::Any => true,
    }
}

// ---------------------------------------------------------------------------
// Ordering units by path
// ---------------------------------------------------------------------------

/// `x` placed after every unit whose path does not sort after its own.
pub open spec fn insert_by_path(s: Seq<UnitView>, x: UnitView) -> Seq<UnitView>
    decreases s.len(),
{
    if s.len() == 0 {
        seq![x]
    } else if str_lt(x.path, s[0].path) {
        seq![x] + s
    } else {
        seq![s[0]] + insert_by_path(s.drop_first(), x)
    }
}

/// The units ordered by path; units with equal paths keep their order.
pub open spec fn sort_by_path(u: Seq<UnitView>) -> Seq<UnitView>
    decreases u.len(),
{
    if u.len() == 0 {
        seq![]
    } else {
        insert_by_path(sort_by_path(u.drop_last()), u.last())
    }
}

proof fn lemma_insert_by_path_at(s: Seq<UnitView>, x: UnitView, j: int)
    requires
        0 <= j <= s.len(),
        forall|k: int| 0 <= k < j ==> !str_lt(x.path, #[trigger] s[k].path),
        j < s.len() ==> str_lt(x.path, s[j].path),
    ensures
        insert_by_path(s, x) == s.insert(j, x),
    decreases s.len(),
{
    if j == 0 {
        if s.len() == 0 {
            assert(s.insert(0, x) =~= seq![x]);
        } else {
            assert(s.insert(0, x) =~= seq![x] + s);
        }
    } else {
        assert(!str_lt(x.path, s[0].path));
        let t = s.drop_first();
        assert forall|k: int| 0 <= k < j - 1 implies !str_lt(x.path, #[trigger] t[k].path) by {
            assert(t[k] == s[k + 1]);
        }
        lemma_insert_by_path_at(t, x, j - 1);
        assert(s.insert(j, x) =~= seq![s[0]] + t.insert(j - 1, x));
    }
}

/// The units ordered by path, stably.
pub fn sort_units_by_path(units: &Vec<EditUnit>) -> (r: Vec<EditUnit>)
    ensures
        units_view(r@) == sort_by_path(units_view(units@)),
{
    let ghost uv = units_view(units@);
    let mut out: Vec<EditUnit> = Vec::new();
    let mut i: usize = 0;
    while i < units.len()
        invariant
            uv == units_view(units@),
            0 <= i <= units@.len(),
            units_view(out@) == sort_by_path(uv.take(i as int)),
        decreases units@.len() - i,
    {
        let x = units[i].duplicate();
        let ghost ov = units_view(out@);
        let mut j: usize = 0;
        while j < out.len() && !string_lt(x.path.as_str(), out[j].path.as_str())
            invariant
                ov == units_view(out@),
                0 <= j <= out@.len(),
                forall|k: int| 0 <= k < j ==> !str_lt(x@.path, #[trigger] ov[k].path),
            decreases out@.len() - j,
        {
            proof {
                assert(ov[j as int] == out@[j as int]@);
            }
            j = j + 1;
        }
        proof {
            if j < out@.len() {
                assert(ov[j as int] == out@[j as int]@);
            }
            lemma_insert_by_path_at(ov, x@, j as int);
            assert(uv.take(i + 1).drop_last() =~= uv.take(i as int));
            assert(uv.take(i + 1).last() == x@);
        }
        out.insert(j, x);
        proof {
            assert(units_view(out@) =~= ov.insert(j as int, x@));
        }
        i = i + 1;
    }
    proof {
        assert(uv.take(units@.len() as int) =~= uv);
    }
    out
}

// ---------------------------------------------------------------------------
// Picking units
// ---------------------------------------------------------------------------

/// The ids of the units not yet assigned whose kind the filter takes, in
/// unit order.
pub open spec fn pick_ids(u: Seq<UnitView>, assigned: Set<Str>, f: KindFilter) -> Seq<Str>
    decreases u.len(),
{
    if u.len() == 0 {
        seq![]
    } else {
        pick_ids(u.drop_last(), assigned, f) + if !assigned.contains(u.last().id) && accepts(
            f,
            u.last().kind,
        ) {
            seq![u.last().id]
        } else {
            seq![]
        }
    }
}

/// The families of the units whose id is listed, in unit order.
pub open spec fn families_of(u: Seq<UnitView>, ids: Seq<Str>) -> Seq<Str>
    decreases u.len(),
{
    if u.len() == 0 {
        seq![]
    } else {
        families_of(u.drop_last(), ids) + if ids.contains(u.last().id) {
            seq![u.last().family]
        } else {
            seq![]
        }
    }
}

/// The families of the listed members, sorted and distinct.
pub open spec fn member_families(u: Seq<UnitView>, ids: Seq<Str>) -> Seq<Str> {
    sort_dedup(families_of(u, ids))
}

/// The ids of the units not yet assigned whose kind the filter takes.
pub fn collect_ids(units: &Vec<EditUnit>, assigned: &Vec<String>, f: KindFilter) -> (r: Vec<String>)
    ensures
        r.deep_view() == pick_ids(units_view(units@), assigned.deep_view().to_set(), f),
{
    let ghost uv = units_view(units@);
    let ghost a = assigned.deep_view().to_set();
    let mut out: Vec<String> = Vec::new();
    let mut i: usize = 0;
    while i < units.len()
        invariant
            uv == units_view(units@),
            a == assigned.deep_view().to_set(),
            0 <= i <= units@.len(),
            out.deep_view() == pick_ids(uv.take(i as int), a, f),
        decreases units@.len() - i,
    {
        let unit = &units[i];
        proof {
            assert(uv.take(i + 1).drop_last() =~= uv.take(i as int));
            assert(uv.take(i + 1).last() == unit@);
        }
        if !contains_string(assigned, &unit.id) && accepts_kind(f, unit.kind) {
            let ghost before = out.deep_view();
            out.push(unit.id.clone());
            proof {
                assert(out.deep_view() =~= before.push(unit.id@));
                assert(before.push(unit.id@) =~= before + seq![unit.id@]);
            }
        } else {
            proof {
                assert(out.deep_view() =~= out.deep_view() + seq![]);
            }
        }
        i = i + 1;
    }
    proof {
        assert(uv.take(units@.len() as int) =~= uv);
    }
    out
}

/// The families of the listed members, sorted and distinct.
pub fn family_list_for_members(units: &Vec<EditUnit>, member_ids: &Vec<String>) -> (r: Vec<String>)
    ensures
        r.deep_view() == member_families(units_view(units@), member_ids.deep_view()),
{
    let ghost uv = units_view(units@);
    let mut out: Vec<String> = Vec::new();
    let mut i: usize = 0;
    while i < units.len()
        invariant
            uv == units_view(units@),
            0 <= i <= units@.len(),
            out.deep_view() == families_of(uv.take(i as int), member_ids.deep_view()),
        decreases units@.len() - i,
    {
        let unit = &units[i];
        proof {
            assert(uv.take(i + 1).drop_last() =~= uv.take(i as int));
            assert(uv.take(i + 1).last() == unit@);
        }
        if contains_string(member_ids, &unit.id) {
            let ghost before = out.deep_view();
            out.push(unit.family.clone());
            proof {
                assert(out.deep_view() =~= before + seq![unit.family@]);
            }
        } else {
            proof {
                assert(out.deep_view() =~= out.deep_view() + seq![]);
            }
        }
        i = i + 1;
    }
    proof {
        assert(uv.take(units@.len() as int) =~= uv);
    }
    dedup_and_sort(&mut out);
    out
}

/// Records the listed ids as assigned.
pub fn mark_assigned(assigned: &mut Vec<String>, member_ids: &Vec<String>)
    ensures
        final(assigned).deep_view().to_set() == old(assigned).deep_view().to_set().union(
            member_ids.deep_view().to_set(),
        ),
{
    let ghost a0 = assigned.deep_view();
    let mut i: usize = 0;
    while i < member_ids.len()
        invariant
            0 <= i <= member_ids@.len(),
            assigned.deep_view() == a0 + member_ids.deep_view().take(i as int),
        decreases member_ids@.len() - i,
    {
        let ghost before = assigned.deep_view();
        assigned.push(member_ids[i].clone());
        proof {
            assert(assigned.deep_view() =~= before.push(member_ids.deep_view()[i as int]));
            assert(member_ids.deep_view().take(i + 1) =~= member_ids.deep_view().take(i as int).push(
                member_ids.deep_view()[i as int],
            ));
            assert(assigned.deep_view() =~= a0 + member_ids.deep_view().take(i + 1));
        }
        i = i + 1;
    }
    proof {
        let m = member_ids.deep_view();
        assert(m.take(m.len() as int) =~= m);
        assert forall|x: Str| (a0 + m).contains(x) <==> a0.contains(x) || m.contains(x) by {
            if (a0 + m).contains(x) {
                let q = choose|q: int| 0 <= q < (a0 + m).len() && (a0 + m)[q] == x;
                if q < a0.len() {
                    assert(a0[q] == x);
                } else {
                    assert(m[q - a0.len()] == x);
                }
            }
            if a0.contains(x) {
                let q = choose|q: int| 0 <= q < a0.len() && a0[q] == x;
                assert((a0 + m)[q] == x);
            }
            if m.contains(x) {
                let q = choose|q: int| 0 <= q < m.len() && m[q] == x;
                assert((a0 + m)[q + a0.len()] == x);
            }
        }
        assert((a0 + m).to_set() =~= a0.to_set().union(m.to_set()));
    }
}

// ---------------------------------------------------------------------------
// Single-slice phases
// ---------------------------------------------------------------------------

/// The first unit with the given id.
pub open spec fn first_unit(u: Seq<UnitView>, id: Str) -> Option<UnitView>
    decreases u.len(),
{
    if u.len() == 0 {
        None
    } else if u[0].id == id {
        Some(u[0])
    } else {
        first_unit(u.drop_first(), id)
    }
}

/// Every listed id belongs to a unit whose first occurrence is a pure rename.
pub open spec fn all_renamed(u: Seq<UnitView>, ids: Seq<Str>) -> bool {
    forall|i: int|
        0 <= i < ids.len() ==> match #[trigger] first_unit(u, ids[i]) {
            Some(x) => x.status == ChangeStatus::Renamed,
            None => false,
        }
}

/// The slice a single-slice phase builds from the listed members.
pub open spec fn phase_view(u: Seq<UnitView>, f: KindFilter, ids: Seq<Str>) -> SliceView {
    match f {
        KindFilter::ManifestOrLock => new_slice_view(
            "api-schema-workspace"@,
            "Manifest and lockstep package metadata"@,
            SliceKind::ApiSchema,
            member_families(u, ids),
            ids,
            seq![],
            seq![reason_view("lockstep-metadata"@, "Manifest and lock files move together in v0.1."@)],
        ),
        KindFilter::Ops => new_slice_view(
            "ops-config"@,
            "Ops and configuration"@,
            SliceKind::OpsConfig,
            member_families(u, ids),
            ids,
            seq![],
            seq![
                reason_view(
                    "ops-isolation"@,
                    "Operational configuration is isolated from behavior changes."@,
                ),
            ],
        ),
        KindFilter::Mechanical => new_slice_view(
            "mechanical-renames"@,
            "Mechanical rename-only changes"@,
            if all_renamed(u, ids) {
                SliceKind::PrepRefactor
            } else {
                SliceKind::Mechanical
            },
            member_families(u, ids),
            ids,
            seq![],
            seq![
                reason_view(
                    "mechanical-split"@,
                    "Rename-only changes peel off as a prep slice when independent."@,
                ),
            ],
        ),
        _ => new_slice_view(
            "misc-unassigned"@,
            "Misc: unassigned changes"@,
            SliceKind::Misc,
            member_families(u, ids),
            ids,
            seq![],
            seq![reason_view("misc-catchall"@, "Unassigned units collected into misc slice."@)],
        ),
    }
}

/// Whether the first unit with the id is a pure rename.
fn first_is_renamed(units: &Vec<EditUnit>, id: &String) -> (r: bool)
    ensures
        r == match first_unit(units_view(units@), id@) {
            Some(x) => x.status == ChangeStatus::Renamed,
            None => false,
        },
{
    let ghost uv = units_view(units@);
    let mut i: usize = 0;
    proof {
        assert(uv.skip(0) =~= uv);
    }
    while i < units.len()
        invariant
            uv == units_view(units@),
            0 <= i <= units@.len(),
            first_unit(uv, id@) == first_unit(uv.skip(i as int), id@),
        decreases units@.len() - i,
    {
        proof {
            assert(uv.skip(i as int)[0] == units@[i as int]@);
            assert(uv.skip(i as int).drop_first() =~= uv.skip(i + 1));
        }
        if units[i].id == *id {
            return units[i].status == ChangeStatus::Renamed;
        }
        i = i + 1;
    }
    false
}

/// Whether every listed id belongs to a pure rename.
fn all_renames(units: &Vec<EditUnit>, ids: &Vec<String>) -> (r: bool)
    ensures
        r == all_renamed(units_view(units@), ids.deep_view()),
{
    let mut i: usize = 0;
    while i < ids.len()
        invariant
            0 <= i <= ids@.len(),
            forall|k: int|
                0 <= k < i ==> match #[trigger] first_unit(units_view(units@), ids.deep_view()[k]) {
                    Some(x) => x.status == ChangeStatus::Renamed,
                    None => false,
                },
        decreases ids@.len() - i,
    {
        if !first_is_renamed(units, &ids[i]) {
            proof {
                assert(ids.deep_view()[i as int] == ids@[i as int]@);
                let ok = match first_unit(units_view(units@), ids.deep_view()[i as int]) {
                    Some(x) => x.status == ChangeStatus::Renamed,
                    None => false,
                };
                assert(!ok);
            }
            return false;
        }
        i = i + 1;
    }
    true
}

/// The slice of a single-slice phase, with the ids it took; `None` when the
/// phase takes no unit.
pub fn build_phase(units: &Vec<EditUnit>, assigned: &Vec<String>, f: KindFilter) -> (r: Option<
    (Slice, Vec<String>),
>)
    requires
        f != KindFilter::Behavior,
        f != KindFilter::Attachable,
    ensures
        match r {
            Some((s, ids)) => ids.deep_view() == pick_ids(
                units_view(units@),
                assigned.deep_view().to_set(),
                f,
            ) && ids@.len() > 0 && s@ == phase_view(units_view(units@), f, ids.deep_view()),
            None => pick_ids(units_view(units@), assigned.deep_view().to_set(), f).len() == 0,
        },
{
    let ids = collect_ids(units, assigned, f);
    if ids.len() == 0 {
        return None;
    }
    let families = family_list_for_members(units, &ids);
    let members = crate::model::copy_strings(&ids);
    let mut why: Vec<InclusionReason> = Vec::new();
    let slice = match f {
        KindFilter::ManifestOrLock => {
            why.push(reason("lockstep-metadata", "Manifest and lock files move together in v0.1."));
            new_slice(
                "api-schema-workspace",
                "Manifest and lockstep package metadata",
                SliceKind::ApiSchema,
                families,
                members,
                Vec::new(),
                why,
            )
        },
        KindFilter::Ops => {
            why.push(
                reason(
                    "ops-isolation",
                    "Operational configuration is isolated from behavior changes.",
                ),
            );
            new_slice(
                "ops-config",
                "Ops and configuration",
                SliceKind::OpsConfig,
                families,
                members,
                Vec::new(),
                why,
            )
        },
        KindFilter::Mechanical => {
            let kind = if all_renames(units, &ids) {
                SliceKind::PrepRefactor
            } else {
                SliceKind::Mechanical
            };
            why.push(
                reason(
                    "mechanical-split",
                    "Rename-only changes peel off as a prep slice when independent.",
                ),
            );
            new_slice(
                "mechanical-renames",
                "Mechanical rename-only changes",
                kind,
                families,
                members,
                Vec::new(),
                why,
            )
        },
        _ => {
            why.push(reason("misc-catchall", "Unassigned units collected into misc slice."));
            new_slice(
                "misc-unassigned",
                "Misc: unassigned changes",
                SliceKind::Misc,
                families,
                members,
                Vec::new(),
                why,
            )
        },
    };
    proof {
        assert(crate::model::reasons_view(why@) =~= phase_view(units_view(units@), f, ids.deep_view()).reasons);
        assert(slice@ =~= phase_view(units_view(units@), f, ids.deep_view()));
    }
    Some((slice, ids))
}

/// The catch-all slice of the units nobody took, with their ids; `None`
/// when every unit is assigned.
pub fn build_misc_unassigned(units: &Vec<EditUnit>, assigned: &Vec<String>) -> (r: Option<
    (Slice, Vec<String>),
>)
    ensures
        match r {
            Some((s, ids)) => ids.deep_view() == pick_ids(
                units_view(units@),
                assigned.deep_view().to_set(),
                KindFilter::Any,
            ) && ids@.len() > 0 && s@ == phase_view(
                units_view(units@),
                KindFilter::Any,
                ids.deep_view(),
            ),
            None => pick_ids(units_view(units@), assigned.deep_view().to_set(), KindFilter::Any).len()
                == 0,
        },
{
    build_phase(units, assigned, KindFilter::Any)
}

} // verus!
