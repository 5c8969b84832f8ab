//! Behavior slices per family, attachment of generated files, tests and docs
//! to them, and standalone slices for what no family owns.
use vstd::prelude::*;
use crate::classify::{ends_with_str, last_piece, pieces_view, split_chars, split_on, stem_spec};
use crate::model::{
    lit, new_slice, new_slice_view, reason, reason_view, reasons_view, slices_view, units_view,
    AmbiguityView, Ambiguity, EditUnit, InclusionReason, Slice, SliceKind, SliceView, UnitKind,
    UnitView, ambiguities_view, copy_strings,
};
use crate::order::{contains_string, dedup_and_sort, sort_dedup};
use crate::overrides::{first_index, first_with_id};
use crate::phases::{family_list_for_members, member_families};
use crate::classify::{describe_kind, describe_kind_spec};
use crate::slug::{slug, slugify};
use crate::text::{chars_eq, chars_of, has_suffix, push_str, string_of, Str};

verus! {

// ---------------------------------------------------------------------------
// Behavior slices
// ---------------------------------------------------------------------------

/// The families of the unassigned behavior units, in unit order.
pub open spec fn behavior_family_list(u: Seq<UnitView>, a: Set<Str>) -> Seq<Str>
    decreases u.len(),
{
    if u.len() == 0 {
        seq![]
    } else {
        behavior_family_list(u.drop_last(), a) + if !a.contains(u.last().id) && u.last().kind
            == UnitKind::Behavior {
            seq![u.last().family]
        } else {
            seq![]
        }
    }
}

/// The families of the unassigned behavior units, sorted and distinct.
pub open spec fn behavior_families(u: Seq<UnitView>, a: Set<Str>) -> Seq<Str> {
    sort_dedup(behavior_family_list(u, a))
}

/// The ids of the unassigned behavior units of a family, in unit order.
pub open spec fn behavior_ids(u: Seq<UnitView>, a: Set<Str>, f: Str) -> Seq<Str>
    decreases u.len(),
{
    if u.len() == 0 {
        seq![]
    } else {
        behavior_ids(u.drop_last(), a, f) + if !a.contains(u.last().id) && u.last().kind
            == UnitKind::Behavior && u.last().family == f {
            seq![u.last().id]
        } else {
            seq![]
        }
    }
}

/// The id of the behavior slice of a family.
pub open spec fn behavior_id(f: Str) -> Str {
    "behavior-"@ + slug(f)
}

/// The first slice named `id` shares a family with the listed members.
pub open spec fn family_overlap(u: Seq<UnitView>, ids: Seq<Str>, s: Seq<SliceView>, id: Str) -> bool {
    let k = first_with_id(s, id);
    k < s.len() && exists|f: Str| s[k].families.contains(f) && member_families(u, ids).contains(f)
}

/// What a behavior slice depends on: the manifest slice when there is one,
/// and the mechanical slice when it touches one of its families.
pub open spec fn behavior_deps(u: Seq<UnitView>, ids: Seq<Str>, prior: Seq<SliceView>) -> Seq<Str> {
    (if first_with_id(prior, "api-schema-workspace"@) < prior.len() {
        seq!["api-schema-workspace"@]
    } else {
        seq![]
    }) + if family_overlap(u, ids, prior, "mechanical-renames"@) {
        seq!["mechanical-renames"@]
    } else {
        seq![]
    }
}

pub open spec fn behavior_view(u: Seq<UnitView>, a: Set<Str>, prior: Seq<SliceView>, f: Str) -> SliceView {
    let ids = behavior_ids(u, a, f);
    new_slice_view(
        behavior_id(f),
        "Behavior: "@ + f,
        SliceKind::Behavior,
        seq![f],
        ids,
        behavior_deps(u, ids, prior),
        seq![reason_view("family-grouping"@, "Behavioral edits group by inferred path family."@)],
    )
}

/// One behavior slice per family, in family order.
pub open spec fn behavior_views(u: Seq<UnitView>, a: Set<Str>, prior: Seq<SliceView>) -> Seq<SliceView> {
    behavior_families(u, a).map_values(|f: Str| behavior_view(u, a, prior, f))
}

/// Each family with a behavior slice, paired with that slice's id.
pub open spec fn family_map(u: Seq<UnitView>, a: Set<Str>) -> Seq<(Str, Str)> {
    behavior_families(u, a).map_values(|f: Str| (f, behavior_id(f)))
}

/// The views of a list of string pairs.
pub open spec fn pairs_view(v: Seq<(String, String)>) -> Seq<(Str, Str)> {
    v.map_values(|p: (String, String)| (p.0@, p.1@))
}

/// Whether the first slice named `id` shares a family with the members.
fn has_family_overlap(units: &Vec<EditUnit>, member_ids: &Vec<String>, slices: &Vec<Slice>, id: &String) -> (r: bool)
    ensures
        r == family_overlap(units_view(units@), member_ids.deep_view(), slices_view(slices@), id@),
{
    let fams = family_list_for_members(units, member_ids);
    let k = first_index(slices, id);
    if k == slices.len() {
        return false;
    }
    let ghost sv = slices_view(slices@);
    let sf = &slices[k].families;
    let mut i: usize = 0;
    while i < sf.len()
        invariant
            sv == slices_view(slices@),
            k < slices@.len(),
            k == first_with_id(sv, id@),
            fams.deep_view() == member_families(units_view(units@), member_ids.deep_view()),
            *sf == slices@[k as int].families,
            0 <= i <= sf@.len(),
            forall|q: int| 0 <= q < i ==> !fams.deep_view().contains(#[trigger] sf.deep_view()[q]),
        decreases sf@.len() - i,
    {
        if contains_string(&fams, &sf[i]) {
            proof {
                let w = sf.deep_view()[i as int];
                assert(sv[k as int] == slices@[k as int]@);
                assert(sv[k as int].families == sf.deep_view());
                assert(sv[k as int].families[i as int] == w);
                assert(sv[k as int].families.contains(w) && fams.deep_view().contains(w));
                assert(first_with_id(sv, id@) == k as int);
                assert(exists|f: Str| sv[k as int].families.contains(f) && fams.deep_view().contains(f));
            }
            return true;
        }
        i = i + 1;
    }
    proof {
        assert(sv[k as int] == slices@[k as int]@);
        assert forall|f: Str| !(sv[k as int].families.contains(f) && fams.deep_view().contains(f)) by {
            if sv[k as int].families.contains(f) {
                let q = choose|q: int| 0 <= q < sv[k as int].families.len() && sv[k as int].families[q] == f;
                assert(sf.deep_view()[q] == f);
            }
        }
    }
    false
}

/// The ids of the unassigned behavior units of a family.
fn behavior_member_ids(units: &Vec<EditUnit>, assigned: &Vec<String>, f: &String) -> (r: Vec<String>)
    ensures
        r.deep_view() == behavior_ids(units_view(units@), assigned.deep_view().to_set(), f@),
{
    let ghost uv = units_view(units@);
    let ghost a = assigned.deep_view().to_set();
    let mut out: Vec<String> = Vec::new();
    let mut i: usize = 0;
    while i < units.len()
        invariant
            uv == units_view(units@),
            a == assigned.deep_view().to_set(),
            0 <= i <= units@.len(),
            out.deep_view() == behavior_ids(uv.take(i as int), a, f@),
        decreases units@.len() - i,
    {
        let unit = &units[i];
        proof {
            assert(uv.take(i + 1).drop_last() =~= uv.take(i as int));
            assert(uv.take(i + 1).last() == unit@);
        }
        if !contains_string(assigned, &unit.id) && unit.kind == UnitKind::Behavior && unit.family
            == *f {
            let ghost before = out.deep_view();
            out.push(unit.id.clone());
            proof {
                assert(out.deep_view() =~= before + seq![unit.id@]);
            }
        } else {
            proof {
                assert(out.deep_view() =~= out.deep_view() + seq![]);
            }
        }
        i = i + 1;
    }
    proof {
        assert(uv.take(units@.len() as int) =~= uv);
    }
    out
}

/// The families of the unassigned behavior units, sorted and distinct.
fn behavior_family_names(units: &Vec<EditUnit>, assigned: &Vec<String>) -> (r: Vec<String>)
    ensures
        r.deep_view() == behavior_families(units_view(units@), assigned.deep_view().to_set()),
{
    let ghost uv = units_view(units@);
    let ghost a = assigned.deep_view().to_set();
    let mut out: Vec<String> = Vec::new();
    let mut i: usize = 0;
    while i < units.len()
        invariant
            uv == units_view(units@),
            a == assigned.deep_view().to_set(),
            0 <= i <= units@.len(),
            out.deep_view() == behavior_family_list(uv.take(i as int), a),
        decreases units@.len() - i,
    {
        let unit = &units[i];
        proof {
            assert(uv.take(i + 1).drop_last() =~= uv.take(i as int));
            assert(uv.take(i + 1).last() == unit@);
        }
        if !contains_string(assigned, &unit.id) && unit.kind == UnitKind::Behavior {
            let ghost before = out.deep_view();
            out.push(unit.family.clone());
            proof {
                assert(out.deep_view() =~= before + seq![unit.family@]);
            }
        } else {
            proof {
                assert(out.deep_view() =~= out.deep_view() + seq![]);
            }
        }
        i = i + 1;
    }
    proof {
        assert(uv.take(units@.len() as int) =~= uv);
    }
    dedup_and_sort(&mut out);
    out
}

/// The behavior slices, one per family of the unassigned behavior units, and
/// the family-to-slice pairs.
pub fn build_behavior(units: &Vec<EditUnit>, prior: &Vec<Slice>, assigned: &Vec<String>) -> (r: (
    Vec<Slice>,
    Vec<(String, String)>,
))
    ensures
        slices_view(r.0@) == behavior_views(
            units_view(units@),
            assigned.deep_view().to_set(),
            slices_view(prior@),
        ),
        pairs_view(r.1@) == family_map(units_view(units@), assigned.deep_view().to_set()),
{
    let ghost uv = units_view(units@);
    let ghost a = assigned.deep_view().to_set();
    let ghost pv = slices_view(prior@);
    let fams = behavior_family_names(units, assigned);
    let ghost fv = fams.deep_view();
    let mut out: Vec<Slice> = Vec::new();
    let mut map: Vec<(String, String)> = Vec::new();
    let schema = lit("api-schema-workspace");
    let mech = lit("mechanical-renames");
    let has_schema = first_index(prior, &schema) < prior.len();
    let mut i: usize = 0;
    while i < fams.len()
        invariant
            uv == units_view(units@),
            a == assigned.deep_view().to_set(),
            pv == slices_view(prior@),
            fv == fams.deep_view(),
            fv == behavior_families(uv, a),
            schema@ == "api-schema-workspace"@,
            mech@ == "mechanical-renames"@,
            has_schema == (first_with_id(pv, "api-schema-workspace"@) < pv.len()),
            0 <= i <= fams@.len(),
            slices_view(out@) == fv.take(i as int).map_values(|f: Str| behavior_view(uv, a, pv, f)),
            pairs_view(map@) == fv.take(i as int).map_values(|f: Str| (f, behavior_id(f))),
        decreases fams@.len() - i,
    {
        let f = &fams[i];
        let ids = behavior_member_ids(units, assigned, f);
        let mut id = lit("behavior-");
        let sl = slugify(f.as_str());
        push_str(&mut id, sl.as_str());
        let mut title = lit("Behavior: ");
        push_str(&mut title, f.as_str());
        let mut deps: Vec<String> = Vec::new();
        if has_schema {
            deps.push(lit("api-schema-workspace"));
        }
        let overlap = has_family_overlap(units, &ids, prior, &mech);
        if overlap {
            deps.push(lit("mechanical-renames"));
        }
        proof {
            assert(deps.deep_view() =~= behavior_deps(uv, ids.deep_view(), pv));
        }
        let mut families: Vec<String> = Vec::new();
        families.push(f.clone());
        let mut why: Vec<InclusionReason> = Vec::new();
        why.push(reason("family-grouping", "Behavioral edits group by inferred path family."));
        let slice = new_slice(id.as_str(), title.as_str(), SliceKind::Behavior, families, ids, deps, why);
        proof {
            assert(fv[i as int] == f@);
            assert(families.deep_view() =~= seq![f@]);
            assert(reasons_view(why@) =~= seq![reason_view("family-grouping"@, "Behavioral edits group by inferred path family."@)]);
            assert(slice@ == behavior_view(uv, a, pv, f@));
        }
        let ghost before = slices_view(out@);
        out.push(slice);
        let ghost before_map = pairs_view(map@);
        map.push((f.clone(), id));
        proof {
            assert(fv.take(i + 1) =~= fv.take(i as int).push(f@));
            assert(slices_view(out@) =~= before.push(behavior_view(uv, a, pv, f@)));
            assert(fv.take(i + 1).map_values(|f: Str| behavior_view(uv, a, pv, f)) =~= fv.take(
                i as int,
            ).map_values(|f: Str| behavior_view(uv, a, pv, f)).push(behavior_view(uv, a, pv, f@)));
            assert(pairs_view(map@) =~= before_map.push((f@, behavior_id(f@))));
            assert(fv.take(i + 1).map_values(|f: Str| (f, behavior_id(f))) =~= fv.take(
                i as int,
            ).map_values(|f: Str| (f, behavior_id(f))).push((f@, behavior_id(f@))));
        }
        i = i + 1;
    }
    proof {
        assert(fv.take(fams@.len() as int) =~= fv);
    }
    (out, map)
}

// ---------------------------------------------------------------------------
// Attachment
// ---------------------------------------------------------------------------

/// The last unit with the given id.
pub open spec fn lookup_unit(u: Seq<UnitView>, id: Str) -> Option<UnitView>
    decreases u.len(),
{
    if u.len() == 0 {
        None
    } else if u.last().id == id {
        Some(u.last())
    } else {
        lookup_unit(u.drop_last(), id)
    }
}

/// The slice id paired with a family.
pub open spec fn lookup_family(m: Seq<(Str, Str)>, f: Str) -> Option<Str>
    decreases m.len(),
{
    if m.len() == 0 {
        None
    } else if m[0].0 == f {
        Some(m[0].1)
    } else {
        lookup_family(m.drop_first(), f)
    }
}

/// The slice ids of the families that a path segment or the file stem names.
pub open spec fn owner_candidates(m: Seq<(Str, Str)>, segs: Seq<Str>, stem: Str) -> Seq<Str>
    decreases m.len(),
{
    if m.len() == 0 {
        seq![]
    } else {
        owner_candidates(m.drop_last(), segs, stem) + if segs.contains(m.last().0) || stem
            == m.last().0 {
            seq![m.last().1]
        } else {
            seq![]
        }
    }
}

/// The one slice whose family the path names, if exactly one does.
pub open spec fn owner_by_segment(path: Str, m: Seq<(Str, Str)>) -> Option<Str> {
    let segs = split_on(path, '/');
    let c = owner_candidates(m, segs, stem_spec(segs.last()));
    if c.len() == 1 {
        Some(c[0])
    } else {
        None
    }
}

/// The first slice named `sid` takes the unit as a member, the unit's family
/// and a reason.
pub open spec fn attach_spec(s: Seq<SliceView>, sid: Str, x: UnitView, msg: Str) -> Seq<SliceView> {
    let k = first_with_id(s, sid);
    if k < s.len() {
        s.update(
            k,
            SliceView {
                members: sort_dedup(s[k].members.push(x.id)),
                reasons: s[k].reasons.push(reason_view("family-attachment"@, msg)),
                families: if s[k].families.contains(x.family) {
                    s[k].families
                } else {
                    sort_dedup(s[k].families.push(x.family))
                },
                ..s[k]
            },
        )
    } else {
        s
    }
}

/// The kind of standalone slice a unit of a given kind goes to.
pub open spec fn standalone_kind(k: UnitKind) -> SliceKind {
    match k {
        UnitKind::Generated => SliceKind::Generated,
        UnitKind::Test | UnitKind::Documentation => SliceKind::TestsDocs,
        _ => SliceKind::Misc,
    }
}

pub open spec fn root_ambiguity(x: UnitView, m: Seq<(Str, Str)>) -> AmbiguityView {
    AmbiguityView {
        id: "ambiguity-"@ + slug(x.path),
        message: x.path
            + " changed with multiple behavior families and cannot be attached confidently in v0.1."@,
        affected_units: seq![x.id],
        candidate_slices: m.map_values(|p: (Str, Str)| p.1),
        resolution: "Left as a standalone docs/tests slice. Use override.toml to attach explicitly."@,
    }
}

/// Where attachment stands: the slices, the ambiguities found, the units
/// left for standalone slices (kind, family, id), and the ids taken.
pub struct AttachView {
    pub slices: Seq<SliceView>,
    pub ambiguities: Seq<AmbiguityView>,
    pub loose: Seq<(SliceKind, Str, Str)>,
    pub taken: Seq<Str>,
}

/// Attaches one unit: to the behavior slice of its family, else to the one
/// slice whose family its path names, else it is left for a standalone slice
/// (and reported as ambiguous when it is a root unit among several families).
pub open spec fn attach_step(u: Seq<UnitView>, m: Seq<(Str, Str)>, st: AttachView, id: Str) -> AttachView {
    match lookup_unit(u, id) {
        None => st,
        Some(x) => match lookup_family(m, x.family) {
            Some(sid) => AttachView {
                slices: attach_spec(
                    st.slices,
                    sid,
                    x,
                    describe_kind_spec(x.kind) + " stays with the "@ + x.family
                        + " family when ownership is clear."@,
                ),
                taken: st.taken.push(x.id),
                ..st
            },
            None => match owner_by_segment(x.path, m) {
                Some(sid) => AttachView {
                    slices: attach_spec(
                        st.slices,
                        sid,
                        x,
                        describe_kind_spec(x.kind) + " attached to "@ + x.path
                            + " via path-segment inference."@,
                    ),
                    taken: st.taken.push(x.id),
                    ..st
                },
                None => AttachView {
                    ambiguities: if x.family == "root"@ && m.len() > 1 {
                        st.ambiguities.push(root_ambiguity(x, m))
                    } else {
                        st.ambiguities
                    },
                    loose: st.loose.push((standalone_kind(x.kind), x.family, x.id)),
                    taken: st.taken.push(x.id),
                    ..st
                },
            },
        },
    }
}

pub open spec fn attach_all(u: Seq<UnitView>, m: Seq<(Str, Str)>, st: AttachView, ids: Seq<Str>) -> AttachView
    decreases ids.len(),
{
    if ids.len() == 0 {
        st
    } else {
        attach_step(u, m, attach_all(u, m, st, ids.drop_last()), ids.last())
    }
}

/// The views of standalone leftovers.
pub open spec fn loose_view(l: Seq<(SliceKind, String, String)>) -> Seq<(SliceKind, Str, Str)> {
    l.map_values(|t: (SliceKind, String, String)| (t.0, t.1@, t.2@))
}

/// The index of the last unit with the id.
pub(crate) fn lookup_unit_index(units: &Vec<EditUnit>, id: &String) -> (r: Option<usize>)
    ensures
        match r {
            Some(j) => j < units@.len() && lookup_unit(units_view(units@), id@) == Some(
                units@[j as int]@,
            ),
            None => lookup_unit(units_view(units@), id@) is None,
        },
{
    let ghost uv = units_view(units@);
    let mut i: usize = units.len();
    proof {
        assert(uv.take(uv.len() as int) =~= uv);
    }
    while i > 0
        invariant
            uv == units_view(units@),
            0 <= i <= units@.len(),
            lookup_unit(uv, id@) == lookup_unit(uv.take(i as int), id@),
        decreases i,
    {
        proof {
            assert(uv.take(i as int).drop_last() =~= uv.take(i - 1));
            assert(uv.take(i as int).last() == units@[i - 1]@);
        }
        if units[i - 1].id == *id {
            return Some(i - 1);
        }
        i = i - 1;
    }
    None
}

/// The slice id paired with a family.
fn find_family(map: &Vec<(String, String)>, f: &String) -> (r: Option<String>)
    ensures
        crate::model::opt_view(r) == lookup_family(pairs_view(map@), f@),
{
    let ghost mv = pairs_view(map@);
    let mut i: usize = 0;
    proof {
        assert(mv.skip(0) =~= mv);
    }
    while i < map.len()
        invariant
            mv == pairs_view(map@),
            0 <= i <= map@.len(),
            lookup_family(mv, f@) == lookup_family(mv.skip(i as int), f@),
        decreases map@.len() - i,
    {
        proof {
            assert(mv.skip(i as int)[0] == (map@[i as int].0@, map@[i as int].1@));
            assert(mv.skip(i as int).drop_first() =~= mv.skip(i + 1));
        }
        if map[i].0 == *f {
            return Some(map[i].1.clone());
        }
        i = i + 1;
    }
    None
}

/// A file name without a known source extension; empty when it has none.
fn stem_chars(name: &[char]) -> (r: Vec<char>)
    ensures
        r@ == stem_spec(name@),
{
    let n = name.len();
    let cut: usize = if ends_with_str(name, ".rs") {
        3
    } else if ends_with_str(name, ".ts") {
        3
    } else if ends_with_str(name, ".js") {
        3
    } else if ends_with_str(name, ".md") {
        3
    } else if ends_with_str(name, ".json") {
        5
    } else {
        return Vec::new();
    };
    proof {
        reveal_strlit(".rs");
        reveal_strlit(".ts");
        reveal_strlit(".js");
        reveal_strlit(".md");
        reveal_strlit(".json");
    }
    let mut r: Vec<char> = Vec::new();
    let mut i: usize = 0;
    while i < n - cut
        invariant
            n == name@.len(),
            cut <= n,
            0 <= i <= n - cut,
            r@ == name@.take(i as int),
        decreases n - cut - i,
    {
        r.push(name[i]);
        proof {
            assert(name@.take(i + 1) =~= name@.take(i as int).push(name@[i as int]));
        }
        i = i + 1;
    }
    r
}

/// Whether one of the pieces equals `x`.
fn pieces_contain(parts: &Vec<Vec<char>>, x: &[char]) -> (r: bool)
    ensures
        r == pieces_view(parts@).contains(x@),
{
    let ghost pv = pieces_view(parts@);
    let mut i: usize = 0;
    while i < parts.len()
        invariant
            pv == pieces_view(parts@),
            0 <= i <= parts@.len(),
            forall|q: int| 0 <= q < i ==> pv[q] != x@,
        decreases parts@.len() - i,
    {
        if chars_eq(parts[i].as_slice(), x) {
            proof {
                assert(pv[i as int] == x@);
            }
            return true;
        }
        i = i + 1;
    }
    false
}

/// The one slice whose family a path segment or the file stem names, if
/// exactly one does.
pub fn infer_owner_by_path_segment(path: &String, map: &Vec<(String, String)>) -> (r: Option<String>)
    ensures
        crate::model::opt_view(r) == owner_by_segment(path@, pairs_view(map@)),
{
    let ghost mv = pairs_view(map@);
    let p = chars_of(path.as_str());
    let parts = split_chars(p.as_slice(), '/');
    let last = last_piece(&parts);
    let stem = stem_chars(last.as_slice());
    let ghost segs = pieces_view(parts@);
    let mut cands: Vec<String> = Vec::new();
    let mut i: usize = 0;
    while i < map.len()
        invariant
            mv == pairs_view(map@),
            segs == split_on(path@, '/'),
            stem@ == stem_spec(segs.last()),
            segs == pieces_view(parts@),
            0 <= i <= map@.len(),
            cands.deep_view() == owner_candidates(mv.take(i as int), segs, stem@),
        decreases map@.len() - i,
    {
        proof {
            assert(mv.take(i + 1).drop_last() =~= mv.take(i as int));
            assert(mv.take(i + 1).last() == (map@[i as int].0@, map@[i as int].1@));
        }
        let fam = chars_of(map[i].0.as_str());
        if pieces_contain(&parts, fam.as_slice()) || chars_eq(stem.as_slice(), fam.as_slice()) {
            let ghost before = cands.deep_view();
            cands.push(map[i].1.clone());
            proof {
                assert(cands.deep_view() =~= before + seq![map@[i as int].1@]);
            }
        } else {
            proof {
                assert(cands.deep_view() =~= cands.deep_view() + seq![]);
            }
        }
        i = i + 1;
    }
    proof {
        assert(mv.take(map@.len() as int) =~= mv);
    }
    if cands.len() == 1 {
        Some(cands[0].clone())
    } else {
        None
    }
}

/// The first slice named `slice_id` takes the unit as a member, with the
/// unit's family and a reason.
pub fn attach_member(slices: &mut Vec<Slice>, slice_id: &String, unit: &EditUnit, message: &String)
    ensures
        slices_view(final(slices)@) == attach_spec(slices_view(old(slices)@), slice_id@, unit@, message@),
{
    let ghost s0 = slices_view(slices@);
    let k = first_index(slices, slice_id);
    if k < slices.len() {
        let mut sl = slices[k].duplicate();
        let ghost m0 = sl.members.deep_view();
        let ghost r0 = reasons_view(sl.reasons@);
        let ghost f0 = sl.families.deep_view();
        sl.members.push(unit.id.clone());
        proof {
            assert(sl.members.deep_view() =~= m0.push(unit.id@));
        }
        let why = reason("family-attachment", message.as_str());
        sl.reasons.push(why);
        proof {
            assert(reasons_view(sl.reasons@) =~= r0.push(why@));
        }
        if !contains_string(&sl.families, &unit.family) {
            sl.families.push(unit.family.clone());
            proof {
                assert(sl.families.deep_view() =~= f0.push(unit.family@));
            }
            dedup_and_sort(&mut sl.families);
        }
        dedup_and_sort(&mut sl.members);
        let ghost slv = sl@;
        slices.set(k, sl);
        proof {
            assert(slices_view(slices@) =~= s0.update(k as int, slv));
            assert(slices_view(slices@) =~= attach_spec(s0, slice_id@, unit@, message@));
        }
    }
}

/// The message for a unit attached by family.
fn family_message(unit: &EditUnit) -> (r: String)
    ensures
        r@ == describe_kind_spec(unit.kind) + " stays with the "@ + unit.family@
            + " family when ownership is clear."@,
{
    let mut m = lit(describe_kind(&unit.kind));
    push_str(&mut m, " stays with the ");
    push_str(&mut m, unit.family.as_str());
    push_str(&mut m, " family when ownership is clear.");
    m
}

/// The message for a unit attached by a path segment.
fn segment_message(unit: &EditUnit) -> (r: String)
    ensures
        r@ == describe_kind_spec(unit.kind) + " attached to "@ + unit.path@
            + " via path-segment inference."@,
{
    let mut m = lit(describe_kind(&unit.kind));
    push_str(&mut m, " attached to ");
    push_str(&mut m, unit.path.as_str());
    push_str(&mut m, " via path-segment inference.");
    m
}

/// The ambiguity reported for a root unit among several families.
fn make_root_ambiguity(unit: &EditUnit, map: &Vec<(String, String)>) -> (r: Ambiguity)
    ensures
        r@ == root_ambiguity(unit@, pairs_view(map@)),
{
    let mut id = lit("ambiguity-");
    let sl = slugify(unit.path.as_str());
    push_str(&mut id, sl.as_str());
    let mut message = unit.path.clone();
    push_str(
        &mut message,
        " changed with multiple behavior families and cannot be attached confidently in v0.1.",
    );
    let mut affected: Vec<String> = Vec::new();
    affected.push(unit.id.clone());
    let mut candidates: Vec<String> = Vec::new();
    let mut i: usize = 0;
    while i < map.len()
        invariant
            0 <= i <= map@.len(),
            candidates.deep_view() == pairs_view(map@).take(i as int).map_values(|p: (Str, Str)| p.1),
        decreases map@.len() - i,
    {
        let ghost before = candidates.deep_view();
        candidates.push(map[i].1.clone());
        proof {
            assert(candidates.deep_view() =~= before.push(map@[i as int].1@));
            assert(pairs_view(map@)[i as int] == (map@[i as int].0@, map@[i as int].1@));
            assert(pairs_view(map@).take(i + 1) =~= pairs_view(map@).take(i as int).push(pairs_view(map@)[i as int]));
            assert(candidates.deep_view() =~= pairs_view(map@).take(i + 1).map_values(|p: (Str, Str)| p.1));
        }
        i = i + 1;
    }
    proof {
        assert(pairs_view(map@).take(map@.len() as int) =~= pairs_view(map@));
        assert(affected.deep_view() =~= seq![unit.id@]);
    }
    Ambiguity {
        id,
        message,
        affected_units: affected,
        candidate_slices: candidates,
        resolution: lit("Left as a standalone docs/tests slice. Use override.toml to attach explicitly."),
    }
}

fn standalone_kind_of(k: UnitKind) -> (r: SliceKind)
    ensures
        r == standalone_kind(k),
{
    match k {
        UnitKind::Generated => SliceKind::Generated,
        UnitKind::Test | UnitKind::Documentation => SliceKind::TestsDocs,
        _ => SliceKind::Misc,
    }
}

/// Attaches each listed unit in turn; returns the ambiguities found, the
/// units left for standalone slices and the ids taken.
pub fn run_attachment(
    units: &Vec<EditUnit>,
    slices: &mut Vec<Slice>,
    ids: &Vec<String>,
    map: &Vec<(String, String)>,
) -> (r: (Vec<Ambiguity>, Vec<(SliceKind, String, String)>, Vec<String>))
    ensures
        attach_all(
            units_view(units@),
            pairs_view(map@),
            AttachView { slices: slices_view(old(slices)@), ambiguities: seq![], loose: seq![], taken: seq![] },
            ids.deep_view(),
        ) == (AttachView {
            slices: slices_view(final(slices)@),
            ambiguities: ambiguities_view(r.0@),
            loose: loose_view(r.1@),
            taken: r.2.deep_view(),
        }),
{
    let ghost uv = units_view(units@);
    let ghost mv = pairs_view(map@);
    let ghost st0 = AttachView { slices: slices_view(slices@), ambiguities: seq![], loose: seq![], taken: seq![] };
    let mut ambiguities: Vec<Ambiguity> = Vec::new();
    let mut loose: Vec<(SliceKind, String, String)> = Vec::new();
    let mut taken: Vec<String> = Vec::new();
    let mut i: usize = 0;
    proof {
        assert(ambiguities_view(ambiguities@) =~= seq![]);
        assert(loose_view(loose@) =~= seq![]);
        assert(taken.deep_view() =~= seq![]);
    }
    while i < ids.len()
        invariant
            uv == units_view(units@),
            mv == pairs_view(map@),
            0 <= i <= ids@.len(),
            attach_all(uv, mv, st0, ids.deep_view().take(i as int)) == (AttachView {
                slices: slices_view(slices@),
                ambiguities: ambiguities_view(ambiguities@),
                loose: loose_view(loose@),
                taken: taken.deep_view(),
            }),
        decreases ids@.len() - i,
    {
        proof {
            assert(ids.deep_view().take(i + 1).drop_last() =~= ids.deep_view().take(i as int));
            assert(ids.deep_view().take(i + 1).last() == ids@[i as int]@);
        }
        let ghost st = AttachView {
            slices: slices_view(slices@),
            ambiguities: ambiguities_view(ambiguities@),
            loose: loose_view(loose@),
            taken: taken.deep_view(),
        };
        let ghost id = ids.deep_view()[i as int];
        proof {
            assert(attach_all(uv, mv, st0, ids.deep_view().take(i + 1)) == attach_step(uv, mv, st, id));
        }
        match lookup_unit_index(units, &ids[i]) {
            None => {},
            Some(j) => {
                let unit = &units[j];
                match find_family(map, &unit.family) {
                    Some(sid) => {
                        let msg = family_message(unit);
                        attach_member(slices, &sid, unit, &msg);
                        let ghost tb = taken.deep_view();
                        taken.push(unit.id.clone());
                        proof {
                            assert(taken.deep_view() =~= tb.push(unit.id@));
                        }
                    },
                    None => {
                        match infer_owner_by_path_segment(&unit.path, map) {
                            Some(sid) => {
                                let msg = segment_message(unit);
                                attach_member(slices, &sid, unit, &msg);
                                let ghost tb = taken.deep_view();
                                taken.push(unit.id.clone());
                                proof {
                                    assert(taken.deep_view() =~= tb.push(unit.id@));
                                }
                            },
                            None => {
                                let root = lit("root");
                                if unit.family == root && map.len() > 1 {
                                    let a = make_root_ambiguity(unit, map);
                                    let ghost ab = ambiguities_view(ambiguities@);
                                    ambiguities.push(a);
                                    proof {
                                        assert(ambiguities_view(ambiguities@) =~= ab.push(a@));
                                    }
                                }
                                let ghost lb = loose_view(loose@);
                                loose.push((standalone_kind_of(unit.kind), unit.family.clone(), unit.id.clone()));
                                proof {
                                    assert(loose_view(loose@) =~= lb.push((standalone_kind(unit@.kind), unit@.family, unit@.id)));
                                }
                                let ghost tb = taken.deep_view();
                                taken.push(unit.id.clone());
                                proof {
                                    assert(taken.deep_view() =~= tb.push(unit.id@));
                                }
                            },
                        }
                    },
                }
            },
        }
        proof {
            assert(attach_step(uv, mv, st, id) == (AttachView {
                slices: slices_view(slices@),
                ambiguities: ambiguities_view(ambiguities@),
                loose: loose_view(loose@),
                taken: taken.deep_view(),
            }));
        }
        i = i + 1;
    }
    proof {
        assert(ids.deep_view().take(ids@.len() as int) =~= ids.deep_view());
    }
    (ambiguities, loose, taken)
}

// ---------------------------------------------------------------------------
// Standalone slices
// ---------------------------------------------------------------------------

/// The families of the leftovers of a kind, in encounter order.
pub open spec fn loose_family_list(l: Seq<(SliceKind, Str, Str)>, k: SliceKind) -> Seq<Str>
    decreases l.len(),
{
    if l.len() == 0 {
        seq![]
    } else {
        loose_family_list(l.drop_last(), k) + if l.last().0 == k {
            seq![l.last().1]
        } else {
            seq![]
        }
    }
}

/// The ids of the leftovers of a kind and family, in encounter order.
pub open spec fn loose_ids(l: Seq<(SliceKind, Str, Str)>, k: SliceKind, f: Str) -> Seq<Str>
    decreases l.len(),
{
    if l.len() == 0 {
        seq![]
    } else {
        loose_ids(l.drop_last(), k, f) + if l.last().0 == k && l.last().1 == f {
            seq![l.last().2]
        } else {
            seq![]
        }
    }
}

pub open spec fn standalone_id(k: SliceKind, f: Str) -> Str {
    match k {
        SliceKind::Generated => "generated-"@ + slug(f),
        SliceKind::TestsDocs => "tests-docs-"@ + slug(f),
        _ => "misc-"@ + slug(f),
    }
}

pub open spec fn standalone_title(k: SliceKind, f: Str) -> Str {
    match k {
        SliceKind::Generated => "Generated: "@ + f,
        SliceKind::TestsDocs => "Docs/tests: "@ + f,
        _ => "Misc: "@ + f,
    }
}

pub open spec fn standalone_view(
    u: Seq<UnitView>,
    m: Seq<(Str, Str)>,
    l: Seq<(SliceKind, Str, Str)>,
    k: SliceKind,
    f: Str,
) -> SliceView {
    let ids = loose_ids(l, k, f);
    new_slice_view(
        standalone_id(k, f),
        standalone_title(k, f),
        k,
        member_families(u, ids),
        ids,
        match lookup_family(m, f) {
            Some(sid) => seq![sid],
            None => seq![],
        },
        seq![
            reason_view(
                "standalone-attachment"@,
                "No single behavior owner was available, so the material stays explicit."@,
            ),
        ],
    )
}

/// The standalone slices of one kind, one per family in family order.
pub open spec fn kind_views(
    u: Seq<UnitView>,
    m: Seq<(Str, Str)>,
    l: Seq<(SliceKind, Str, Str)>,
    k: SliceKind,
) -> Seq<SliceView> {
    sort_dedup(loose_family_list(l, k)).map_values(|f: Str| standalone_view(u, m, l, k, f))
}

/// The standalone slices: docs and tests first, then generated files, then
/// anything else, each kind by family.
pub open spec fn standalone_views(u: Seq<UnitView>, m: Seq<(Str, Str)>, l: Seq<(SliceKind, Str, Str)>) -> Seq<SliceView> {
    kind_views(u, m, l, SliceKind::TestsDocs) + kind_views(u, m, l, SliceKind::Generated)
        + kind_views(u, m, l, SliceKind::Misc)
}

fn loose_families_of(loose: &Vec<(SliceKind, String, String)>, k: SliceKind) -> (r: Vec<String>)
    ensures
        r.deep_view() == sort_dedup(loose_family_list(loose_view(loose@), k)),
{
    let ghost lv = loose_view(loose@);
    let mut out: Vec<String> = Vec::new();
    let mut i: usize = 0;
    while i < loose.len()
        invariant
            lv == loose_view(loose@),
            0 <= i <= loose@.len(),
            out.deep_view() == loose_family_list(lv.take(i as int), k),
        decreases loose@.len() - i,
    {
        proof {
            assert(lv.take(i + 1).drop_last() =~= lv.take(i as int));
            assert(lv.take(i + 1).last() == (loose@[i as int].0, loose@[i as int].1@, loose@[i as int].2@));
        }
        if loose[i].0 == k {
            let ghost before = out.deep_view();
            out.push(loose[i].1.clone());
            proof {
                assert(out.deep_view() =~= before + seq![loose@[i as int].1@]);
            }
        } else {
            proof {
                assert(out.deep_view() =~= out.deep_view() + seq![]);
            }
        }
        i = i + 1;
    }
    proof {
        assert(lv.take(loose@.len() as int) =~= lv);
    }
    dedup_and_sort(&mut out);
    out
}

fn loose_ids_of(loose: &Vec<(SliceKind, String, String)>, k: SliceKind, f: &String) -> (r: Vec<String>)
    ensures
        r.deep_view() == loose_ids(loose_view(loose@), k, f@),
{
    let ghost lv = loose_view(loose@);
    let mut out: Vec<String> = Vec::new();
    let mut i: usize = 0;
    while i < loose.len()
        invariant
            lv == loose_view(loose@),
            0 <= i <= loose@.len(),
            out.deep_view() == loose_ids(lv.take(i as int), k, f@),
        decreases loose@.len() - i,
    {
        proof {
            assert(lv.take(i + 1).drop_last() =~= lv.take(i as int));
            assert(lv.take(i + 1).last() == (loose@[i as int].0, loose@[i as int].1@, loose@[i as int].2@));
        }
        if loose[i].0 == k && loose[i].1 == *f {
            let ghost before = out.deep_view();
            out.push(loose[i].2.clone());
            proof {
                assert(out.deep_view() =~= before + seq![loose@[i as int].2@]);
            }
        } else {
            proof {
                assert(out.deep_view() =~= out.deep_view() + seq![]);
            }
        }
        i = i + 1;
    }
    proof {
        assert(lv.take(loose@.len() as int) =~= lv);
    }
    out
}

/// The standalone slice of a kind and family.
fn build_standalone_slice(
    units: &Vec<EditUnit>,
    map: &Vec<(String, String)>,
    loose: &Vec<(SliceKind, String, String)>,
    k: SliceKind,
    f: &String,
) -> (r: Slice)
    ensures
        r@ == standalone_view(units_view(units@), pairs_view(map@), loose_view(loose@), k, f@),
{
    let ids = loose_ids_of(loose, k, f);
    let sl = slugify(f.as_str());
    let (mut id, mut title) = match k {
        SliceKind::Generated => (lit("generated-"), lit("Generated: ")),
        SliceKind::TestsDocs => (lit("tests-docs-"), lit("Docs/tests: ")),
        _ => (lit("misc-"), lit("Misc: ")),
    };
    push_str(&mut id, sl.as_str());
    push_str(&mut title, f.as_str());
    let mut deps: Vec<String> = Vec::new();
    match find_family(map, f) {
        Some(sid) => {
            deps.push(sid);
        },
        None => {},
    }
    let families = family_list_for_members(units, &ids);
    let mut why: Vec<InclusionReason> = Vec::new();
    why.push(
        reason(
            "standalone-attachment",
            "No single behavior owner was available, so the material stays explicit.",
        ),
    );
    let r = new_slice(id.as_str(), title.as_str(), k, families, ids, deps, why);
    proof {
        assert(deps.deep_view() =~= match lookup_family(pairs_view(map@), f@) {
            Some(sid) => seq![sid],
            None => seq![],
        });
        assert(reasons_view(why@) =~= seq![
            reason_view(
                "standalone-attachment"@,
                "No single behavior owner was available, so the material stays explicit."@,
            ),
        ]);
    }
    r
}

/// Appends the standalone slices of one kind.
fn append_kind(
    units: &Vec<EditUnit>,
    map: &Vec<(String, String)>,
    loose: &Vec<(SliceKind, String, String)>,
    k: SliceKind,
    out: &mut Vec<Slice>,
)
    ensures
        slices_view(final(out)@) == slices_view(old(out)@) + kind_views(
            units_view(units@),
            pairs_view(map@),
            loose_view(loose@),
            k,
        ),
{
    let ghost uv = units_view(units@);
    let ghost mv = pairs_view(map@);
    let ghost lv = loose_view(loose@);
    let fams = loose_families_of(loose, k);
    let ghost start = slices_view(out@);
    let mut i: usize = 0;
    proof {
        assert(slices_view(out@) =~= start + fams.deep_view().take(0).map_values(
            |f: Str| standalone_view(uv, mv, lv, k, f),
        ));
    }
    while i < fams.len()
        invariant
            uv == units_view(units@),
            mv == pairs_view(map@),
            lv == loose_view(loose@),
            fams.deep_view() == sort_dedup(loose_family_list(lv, k)),
            0 <= i <= fams@.len(),
            slices_view(out@) == start + fams.deep_view().take(i as int).map_values(
                |f: Str| standalone_view(uv, mv, lv, k, f),
            ),
        decreases fams@.len() - i,
    {
        let slice = build_standalone_slice(units, map, loose, k, &fams[i]);
        let ghost before = slices_view(out@);
        out.push(slice);
        proof {
            let fv = fams.deep_view();
            assert(fv.take(i + 1) =~= fv.take(i as int).push(fv[i as int]));
            assert(slices_view(out@) =~= before.push(slice@));
            assert(slices_view(out@) =~= start + fv.take(i + 1).map_values(
                |f: Str| standalone_view(uv, mv, lv, k, f),
            ));
        }
        i = i + 1;
    }
    proof {
        assert(fams.deep_view().take(fams@.len() as int) =~= fams.deep_view());
    }
}

/// The standalone slices of the leftovers.
pub fn build_standalone_slices(
    units: &Vec<EditUnit>,
    map: &Vec<(String, String)>,
    loose: &Vec<(SliceKind, String, String)>,
) -> (r: Vec<Slice>)
    ensures
        slices_view(r@) == standalone_views(units_view(units@), pairs_view(map@), loose_view(loose@)),
{
    let mut out: Vec<Slice> = Vec::new();
    proof {
        assert(slices_view(out@) =~= seq![]);
    }
    append_kind(units, map, loose, SliceKind::TestsDocs, &mut out);
    append_kind(units, map, loose, SliceKind::Generated, &mut out);
    append_kind(units, map, loose, SliceKind::Misc, &mut out);
    proof {
        let uv = units_view(units@);
        let mv = pairs_view(map@);
        let lv = loose_view(loose@);
        assert(slices_view(out@) =~= standalone_views(uv, mv, lv));
    }
    out
}

} // verus!
