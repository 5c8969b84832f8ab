//! Properties of plans that hold for every input.
use vstd::prelude::*;
use crate::attach::{
    attach_all, attach_spec, attach_step, behavior_family_list, behavior_families, behavior_ids,
    behavior_id, behavior_view, behavior_views, family_map, kind_views, lookup_family,
    lookup_unit, loose_family_list, loose_ids, owner_by_segment, owner_candidates,
    standalone_kind, standalone_view, standalone_views, AttachView,
};
use crate::counting::{
    ids_unique, is_unit_id, lemma_member_count_absent, lemma_member_count_add,
    lemma_member_count_keys, lemma_member_count_one, lemma_member_count_part,
    lemma_member_count_update, lemma_occ_absent, lemma_occ_no_dups, lemma_pick_contains,
    lemma_pick_no_dups, lemma_sort_by_path, lemma_sort_dedup_no_dups, members_distinct, no_dups,
};
use crate::graph::{acyclic, deps_known, ids_distinct, is_slice_id, ranked_by};
use crate::model::{SliceKind, SliceView, UnitKind, UnitView};
use crate::order::{lemma_sort_dedup, sort_dedup};
use crate::overrides::first_with_id;
use crate::phases::{accepts, phase_view, pick_ids, KindFilter};
use crate::planner::{after, early, late, phase_slices, plan_spec, planned};
use crate::model::{ConfigView, OverridesView, SourceView};
use crate::overrides::{
    apply_force, apply_must_link, apply_order, apply_rename, apply_spec, force_step, move_all,
    move_member_spec, must_link_step, order_step, other_than, rename_step, settle, strip_member,
};
use crate::model::{ForceView, MustLinkView, OrderView, RenameView};
use crate::text::Str;
use crate::validate::{member_count, occurrences};

verus! {

/// Each unit sits once among the slice members when its id is assigned,
/// and nowhere otherwise.
pub open spec fn counts_match(s: Seq<SliceView>, u: Seq<UnitView>, a: Set<Str>) -> bool {
    forall|x: Str|
        #[trigger] is_unit_id(u, x) ==> member_count(s, x) == if a.contains(x) {
            1nat
        } else {
            0nat
        }
}

proof fn lemma_phase_step(u: Seq<UnitView>, s: Seq<SliceView>, a: Set<Str>, f: KindFilter)
    requires
        counts_match(s, u, a),
        members_distinct(s),
    ensures
        counts_match(s + phase_slices(u, a, f), u, after(u, a, f)),
        members_distinct(s + phase_slices(u, a, f)),
{
    let ids = pick_ids(u, a, f);
    let ps = phase_slices(u, a, f);
    lemma_sort_dedup_no_dups(ids);
    assert forall|x: Str| #[trigger] is_unit_id(u, x) implies member_count(s + ps, x) == if after(
        u,
        a,
        f,
    ).contains(x) {
        1nat
    } else {
        0nat
    } by {
        lemma_member_count_add(s, ps, x);
        lemma_pick_contains(u, a, f, x);
        if ids.len() > 0 {
            lemma_member_count_one(phase_view(u, f, ids), x);
            lemma_occ_no_dups(sort_dedup(ids), x);
        } else {
            assert(ps =~= Seq::<SliceView>::empty());
            assert(!ids.contains(x));
        }
        assert(ids.to_set().contains(x) == ids.contains(x));
    }
    assert forall|j: int| 0 <= j < (s + ps).len() implies no_dups(#[trigger] (s + ps)[j].members) by {
        if j >= s.len() {
            assert((s + ps)[j] == phase_view(u, f, ids));
        } else {
            assert((s + ps)[j] == s[j]);
        }
    }
}

/// The early phases place exactly the ids they take, once each.
proof fn lemma_early_counts(u: Seq<UnitView>)
    ensures
        counts_match(early(u).0, u, early(u).1),
        members_distinct(early(u).0),
{
    let a0 = Set::<Str>::empty();
    let s0 = Seq::<SliceView>::empty();
    assert forall|x: Str| #[trigger] is_unit_id(u, x) implies member_count(s0, x) == if a0.contains(x) {
        1nat
    } else {
        0nat
    } by {}
    lemma_phase_step(u, s0, a0, KindFilter::ManifestOrLock);
    let a1 = after(u, a0, KindFilter::ManifestOrLock);
    let s1 = s0 + phase_slices(u, a0, KindFilter::ManifestOrLock);
    assert(s1 =~= phase_slices(u, a0, KindFilter::ManifestOrLock));
    lemma_phase_step(u, s1, a1, KindFilter::Ops);
    let a2 = after(u, a1, KindFilter::Ops);
    let s2 = s1 + phase_slices(u, a1, KindFilter::Ops);
    lemma_phase_step(u, s2, a2, KindFilter::Mechanical);
}

/// What the list of behavior families holds.
proof fn lemma_behavior_family_list(u: Seq<UnitView>, a: Set<Str>, f: Str)
    ensures
        behavior_family_list(u, a).contains(f) <==> exists|i: int|
            0 <= i < u.len() && !a.contains(u[i].id) && u[i].kind == UnitKind::Behavior
                && #[trigger] u[i].family == f,
    decreases u.len(),
{
    if u.len() > 0 {
        let t = u.drop_last();
        lemma_behavior_family_list(t, a, f);
        let p = behavior_family_list(t, a);
        let tail = if !a.contains(u.last().id) && u.last().kind == UnitKind::Behavior {
            seq![u.last().family]
        } else {
            seq![]
        };
        if (p + tail).contains(f) {
            let q = choose|q: int| 0 <= q < (p + tail).len() && (p + tail)[q] == f;
            if q < p.len() {
                assert(p[q] == f);
                let i = choose|i: int|
                    0 <= i < t.len() && !a.contains(t[i].id) && t[i].kind == UnitKind::Behavior
                        && #[trigger] t[i].family == f;
                assert(u[i] == t[i]);
            } else {
                assert(u[u.len() - 1].family == f);
            }
        }
        if exists|i: int|
            0 <= i < u.len() && !a.contains(u[i].id) && u[i].kind == UnitKind::Behavior
                && #[trigger] u[i].family == f {
            let i = choose|i: int|
                0 <= i < u.len() && !a.contains(u[i].id) && u[i].kind == UnitKind::Behavior
                    && #[trigger] u[i].family == f;
            if i < u.len() - 1 {
                assert(t[i] == u[i]);
                assert(p.contains(f));
                let q = choose|q: int| 0 <= q < p.len() && p[q] == f;
                assert((p + tail)[q] == f);
            } else {
                assert((p + tail)[p.len() as int] == f);
            }
        }
    }
}

/// What the list of behavior ids of a family holds.
proof fn lemma_behavior_ids(u: Seq<UnitView>, a: Set<Str>, f: Str, x: Str)
    ensures
        behavior_ids(u, a, f).contains(x) <==> exists|i: int|
            0 <= i < u.len() && #[trigger] u[i].id == x && !a.contains(x) && u[i].kind
                == UnitKind::Behavior && u[i].family == f,
    decreases u.len(),
{
    if u.len() > 0 {
        let t = u.drop_last();
        lemma_behavior_ids(t, a, f, x);
        let p = behavior_ids(t, a, f);
        let tail = if !a.contains(u.last().id) && u.last().kind == UnitKind::Behavior
            && u.last().family == f {
            seq![u.last().id]
        } else {
            seq![]
        };
        if (p + tail).contains(x) {
            let q = choose|q: int| 0 <= q < (p + tail).len() && (p + tail)[q] == x;
            if q < p.len() {
                assert(p[q] == x);
                let i = choose|i: int|
                    0 <= i < t.len() && #[trigger] t[i].id == x && !a.contains(x) && t[i].kind
                        == UnitKind::Behavior && t[i].family == f;
                assert(u[i] == t[i]);
            } else {
                assert(u[u.len() - 1].id == x);
            }
        }
        if exists|i: int|
            0 <= i < u.len() && #[trigger] u[i].id == x && !a.contains(x) && u[i].kind
                == UnitKind::Behavior && u[i].family == f {
            let i = choose|i: int|
                0 <= i < u.len() && #[trigger] u[i].id == x && !a.contains(x) && u[i].kind
                    == UnitKind::Behavior && u[i].family == f;
            if i < u.len() - 1 {
                assert(t[i] == u[i]);
                assert(p.contains(x));
                let q = choose|q: int| 0 <= q < p.len() && p[q] == x;
                assert((p + tail)[q] == x);
            } else {
                assert((p + tail)[p.len() as int] == x);
            }
        }
    }
}

/// The behavior slices place each unassigned behavior unit once.
proof fn lemma_behavior_step(u: Seq<UnitView>, s: Seq<SliceView>, a: Set<Str>)
    requires
        ids_unique(u),
        counts_match(s, u, a),
        members_distinct(s),
    ensures
        counts_match(s + behavior_views(u, a, s), u, after(u, a, KindFilter::Behavior)),
        members_distinct(s + behavior_views(u, a, s)),
{
    let keys = behavior_families(u, a);
    let g = |f: Str| behavior_view(u, a, s, f);
    let bv = behavior_views(u, a, s);
    assert(bv == keys.map_values(g));
    lemma_sort_dedup_no_dups(behavior_family_list(u, a));
    assert forall|i: int| 0 <= i < keys.len() implies no_dups(#[trigger] g(keys[i]).members) by {
        lemma_sort_dedup_no_dups(behavior_ids(u, a, keys[i]));
    }
    assert forall|x: Str| #[trigger] is_unit_id(u, x) implies member_count(s + bv, x) == if after(
        u,
        a,
        KindFilter::Behavior,
    ).contains(x) {
        1nat
    } else {
        0nat
    } by {
        lemma_member_count_add(s, bv, x);
        lemma_pick_contains(u, a, KindFilter::Behavior, x);
        let i0 = choose|i: int| 0 <= i < u.len() && #[trigger] u[i].id == x;
        let kx = u[i0].family;
        assert forall|i: int| 0 <= i < keys.len() implies (#[trigger] g(keys[i]).members.contains(x)
            <==> (keys[i] == kx && !a.contains(x) && u[i0].kind == UnitKind::Behavior)) by {
            lemma_sort_dedup_no_dups(behavior_ids(u, a, keys[i]));
            lemma_behavior_ids(u, a, keys[i], x);
            if behavior_ids(u, a, keys[i]).contains(x) {
                let j = choose|j: int|
                    0 <= j < u.len() && #[trigger] u[j].id == x && !a.contains(x) && u[j].kind
                        == UnitKind::Behavior && u[j].family == keys[i];
                if j != i0 {
                    assert(u[j].id == u[i0].id);
                }
            }
        }
        if !a.contains(x) && u[i0].kind == UnitKind::Behavior {
            lemma_member_count_keys(keys, g, x, kx);
            lemma_behavior_family_list(u, a, kx);
            assert(behavior_family_list(u, a).contains(kx));
            assert(keys.contains(kx));
            assert(s.len() >= 0);
        } else {
            assert forall|j: int| 0 <= j < bv.len() implies !(#[trigger] bv[j].members.contains(x)) by {
                assert(bv[j] == g(keys[j]));
            }
            lemma_member_count_absent(bv, x);
            if pick_ids(u, a, KindFilter::Behavior).contains(x) {
                let j = choose|j: int|
                    0 <= j < u.len() && #[trigger] u[j].id == x && !a.contains(x) && accepts(
                        KindFilter::Behavior,
                        u[j].kind,
                    );
                if j != i0 {
                    assert(u[j].id == u[i0].id);
                }
            }
        }
        assert(pick_ids(u, a, KindFilter::Behavior).to_set().contains(x) == pick_ids(
            u,
            a,
            KindFilter::Behavior,
        ).contains(x));
    }
    assert forall|j: int| 0 <= j < (s + bv).len() implies no_dups(#[trigger] (s + bv)[j].members) by {
        if j >= s.len() {
            assert((s + bv)[j] == g(keys[j - s.len()]));
        } else {
            assert((s + bv)[j] == s[j]);
        }
    }
}

/// The ids of the units left for standalone slices.
pub open spec fn loose_id_list(l: Seq<(SliceKind, Str, Str)>) -> Seq<Str> {
    l.map_values(|t: (SliceKind, Str, Str)| t.2)
}

/// A standalone slice kind.
pub open spec fn standalone_kinds(k: SliceKind) -> bool {
    k == SliceKind::TestsDocs || k == SliceKind::Generated || k == SliceKind::Misc
}

/// Where attachment stands after the listed ids, counted.
pub open spec fn attach_ok(
    u: Seq<UnitView>,
    s4: Seq<SliceView>,
    a4: Set<Str>,
    done: Seq<Str>,
    st: AttachView,
) -> bool {
    &&& st.slices.len() == s4.len()
    &&& forall|j: int| 0 <= j < s4.len() ==> #[trigger] st.slices[j].id == s4[j].id
    &&& members_distinct(st.slices)
    &&& st.taken == done
    &&& no_dups(loose_id_list(st.loose))
    &&& forall|q: int|
        0 <= q < st.loose.len() ==> is_unit_id(u, #[trigger] st.loose[q].2) && standalone_kinds(
            st.loose[q].0,
        ) && done.contains(st.loose[q].2)
    &&& forall|x: Str|
        #[trigger] is_unit_id(u, x) ==> member_count(st.slices, x) + occurrences(
            loose_id_list(st.loose),
            x,
        ) == if a4.contains(x) || done.contains(x) {
            1nat
        } else {
            0nat
        }
}

/// Looking up a unit id finds a unit with that id.
pub proof fn lemma_unit_lookup(u: Seq<UnitView>, x: Str)
    requires
        is_unit_id(u, x),
    ensures
        lookup_unit(u, x) is Some,
{
    lemma_lookup_unit(u, x);
}

proof fn lemma_lookup_unit(u: Seq<UnitView>, x: Str)
    requires
        is_unit_id(u, x),
    ensures
        lookup_unit(u, x) matches Some(v) && v.id == x && exists|i: int| 0 <= i < u.len() && u[i] == v,
    decreases u.len(),
{
    if u.last().id != x {
        let i = choose|i: int| 0 <= i < u.len() && #[trigger] u[i].id == x;
        let t = u.drop_last();
        assert(t[i].id == x);
        lemma_lookup_unit(t, x);
        let v = lookup_unit(t, x)->0;
        let j = choose|j: int| 0 <= j < t.len() && t[j] == v;
        assert(u[j] == v);
    } else {
        assert(u[u.len() - 1] == u.last());
    }
}

/// `sid` is the slice id of one of the family pairs.
pub open spec fn is_target(m: Seq<(Str, Str)>, sid: Str) -> bool {
    exists|q: int| 0 <= q < m.len() && #[trigger] m[q].1 == sid
}

proof fn lemma_lookup_family(m: Seq<(Str, Str)>, f: Str)
    ensures
        lookup_family(m, f) matches Some(sid) ==> is_target(m, sid),
    decreases m.len(),
{
    if m.len() > 0 {
        if m[0].0 != f {
            lemma_lookup_family(m.drop_first(), f);
            if lookup_family(m, f) is Some {
                let sid = lookup_family(m, f)->0;
                let q = choose|q: int| 0 <= q < m.drop_first().len() && #[trigger] m.drop_first()[q].1 == sid;
                assert(m[q + 1].1 == sid);
            }
        } else {
            assert(m[0].1 == lookup_family(m, f)->0);
        }
    }
}

proof fn lemma_owner_candidates(m: Seq<(Str, Str)>, segs: Seq<Str>, stem: Str)
    ensures
        forall|c: int|
            0 <= c < owner_candidates(m, segs, stem).len() ==> is_target(
                m,
                #[trigger] owner_candidates(m, segs, stem)[c],
            ),
    decreases m.len(),
{
    if m.len() > 0 {
        let t = m.drop_last();
        lemma_owner_candidates(t, segs, stem);
        let p = owner_candidates(t, segs, stem);
        let r = owner_candidates(m, segs, stem);
        assert forall|c: int| 0 <= c < r.len() implies is_target(m, #[trigger] r[c]) by {
            if c < p.len() {
                assert(r[c] == p[c]);
                assert(is_target(t, p[c]));
                let q = choose|q: int| 0 <= q < t.len() && #[trigger] t[q].1 == p[c];
                assert(m[q].1 == r[c]);
            } else {
                assert(m[m.len() - 1].1 == r[c]);
            }
        }
    }
}

proof fn lemma_first_found(s: Seq<SliceView>, id: Str)
    requires
        is_slice_id(s, id),
    ensures
        0 <= first_with_id(s, id) < s.len(),
        s[first_with_id(s, id)].id == id,
    decreases s.len(),
{
    if s[0].id != id {
        let j = choose|j: int| 0 <= j < s.len() && #[trigger] s[j].id == id;
        assert(s.drop_first()[j - 1].id == id);
        lemma_first_found(s.drop_first(), id);
    }
}

/// Attaching an unplaced unit to an existing slice places it once.
proof fn lemma_attach_one(
    u: Seq<UnitView>,
    s4: Seq<SliceView>,
    a4: Set<Str>,
    done: Seq<Str>,
    st: AttachView,
    sid: Str,
    v: UnitView,
    msg: Str,
)
    requires
        attach_ok(u, s4, a4, done, st),
        is_slice_id(st.slices, sid),
        is_unit_id(u, v.id),
        !a4.contains(v.id),
        !done.contains(v.id),
    ensures
        attach_ok(
            u,
            s4,
            a4,
            done.push(v.id),
            AttachView { slices: attach_spec(st.slices, sid, v, msg), taken: st.taken.push(v.id), ..st },
        ),
{
    let s = st.slices;
    let x = v.id;
    lemma_first_found(s, sid);
    let k = first_with_id(s, sid);
    let m = s[k].members;
    let ns = attach_spec(s, sid, v, msg);
    let sl = ns[k];
    assert(sl.members == sort_dedup(m.push(x)));
    assert(ns == s.update(k, sl));
    lemma_sort_dedup_no_dups(m.push(x));
    assert(no_dups(m));
    let l = loose_id_list(st.loose);
    assert(member_count(s, x) + occurrences(l, x) == 0);
    lemma_member_count_part(s, k, x);
    let nd = done.push(x);
    assert forall|y: Str| #[trigger] is_unit_id(u, y) implies member_count(ns, y) + occurrences(l, y)
        == if a4.contains(y) || nd.contains(y) {
        1nat
    } else {
        0nat
    } by {
        lemma_member_count_update(s, k, sl, y);
        lemma_occ_no_dups(m, y);
        lemma_occ_no_dups(sort_dedup(m.push(x)), y);
        assert(m.push(x)[m.len() as int] == x);
        if y != x {
            assert(m.push(x).contains(y) <==> m.contains(y)) by {
                if m.push(x).contains(y) {
                    let q = choose|q: int| 0 <= q < m.push(x).len() && m.push(x)[q] == y;
                    assert(m[q] == y);
                }
                if m.contains(y) {
                    let q = choose|q: int| 0 <= q < m.len() && m[q] == y;
                    assert(m.push(x)[q] == y);
                }
            }
            assert(nd.contains(y) <==> done.contains(y)) by {
                if nd.contains(y) {
                    let q = choose|q: int| 0 <= q < nd.len() && nd[q] == y;
                    assert(done[q] == y);
                }
                if done.contains(y) {
                    let q = choose|q: int| 0 <= q < done.len() && done[q] == y;
                    assert(nd[q] == y);
                }
            }
        } else {
            assert(nd[done.len() as int] == x);
            if m.contains(x) {
                crate::counting::lemma_occ_present(m, x);
            }
        }
    }
    assert forall|j: int| 0 <= j < ns.len() implies no_dups(#[trigger] ns[j].members) by {
        if j != k {
            assert(ns[j] == s[j]);
        }
    }
    assert forall|j: int| 0 <= j < s4.len() implies #[trigger] ns[j].id == s4[j].id by {
        assert(st.slices[j].id == s4[j].id);
    }
    assert forall|q: int| 0 <= q < st.loose.len() implies nd.contains(#[trigger] st.loose[q].2) by {
        let w = choose|w: int| 0 <= w < done.len() && done[w] == st.loose[q].2;
        assert(nd[w] == st.loose[q].2);
    }
}

/// Leaving an unplaced unit for a standalone slice counts it once.
proof fn lemma_leave_one(
    u: Seq<UnitView>,
    s4: Seq<SliceView>,
    a4: Set<Str>,
    done: Seq<Str>,
    st: AttachView,
    v: UnitView,
    amb: Seq<crate::model::AmbiguityView>,
)
    requires
        attach_ok(u, s4, a4, done, st),
        is_unit_id(u, v.id),
        !a4.contains(v.id),
        !done.contains(v.id),
    ensures
        attach_ok(
            u,
            s4,
            a4,
            done.push(v.id),
            AttachView {
                ambiguities: amb,
                loose: st.loose.push((standalone_kind(v.kind), v.family, v.id)),
                taken: st.taken.push(v.id),
                ..st
            },
        ),
{
    let x = v.id;
    let l = loose_id_list(st.loose);
    let nl = st.loose.push((standalone_kind(v.kind), v.family, v.id));
    assert(loose_id_list(nl) =~= l.push(x));
    assert(member_count(st.slices, x) + occurrences(l, x) == 0);
    if l.contains(x) {
        crate::counting::lemma_occ_present(l, x);
    }
    let nd = done.push(x);
    assert forall|y: Str| #[trigger] is_unit_id(u, y) implies member_count(st.slices, y) + occurrences(
        l.push(x),
        y,
    ) == if a4.contains(y) || nd.contains(y) {
        1nat
    } else {
        0nat
    } by {
        assert(l.push(x).drop_last() =~= l);
        assert(nd[done.len() as int] == x);
        if y != x {
            assert(nd.contains(y) <==> done.contains(y)) by {
                if nd.contains(y) {
                    let q = choose|q: int| 0 <= q < nd.len() && nd[q] == y;
                    assert(done[q] == y);
                }
                if done.contains(y) {
                    let q = choose|q: int| 0 <= q < done.len() && done[q] == y;
                    assert(nd[q] == y);
                }
            }
        }
    }
    assert forall|i: int, j: int| 0 <= i < j < l.push(x).len() implies l.push(x)[i] != l.push(x)[j] by {
        if j == l.len() {
            assert(l.contains(l[i]));
        }
    }
    assert forall|q: int|
        0 <= q < nl.len() implies is_unit_id(u, #[trigger] nl[q].2) && standalone_kinds(nl[q].0)
            && nd.contains(nl[q].2) by {
        if q < st.loose.len() {
            assert(nl[q] == st.loose[q]);
            let w = choose|w: int| 0 <= w < done.len() && done[w] == st.loose[q].2;
            assert(nd[w] == st.loose[q].2);
        } else {
            assert(nd[done.len() as int] == x);
        }
    }
}

/// Attachment places each listed unit once, in a slice or among the
/// standalone leftovers.
proof fn lemma_attach_fold(
    u: Seq<UnitView>,
    m: Seq<(Str, Str)>,
    s4: Seq<SliceView>,
    a4: Set<Str>,
    ids: Seq<Str>,
)
    requires
        counts_match(s4, u, a4),
        members_distinct(s4),
        no_dups(ids),
        forall|i: int| 0 <= i < ids.len() ==> !a4.contains(#[trigger] ids[i]) && is_unit_id(u, ids[i]),
        forall|q: int| 0 <= q < m.len() ==> is_slice_id(s4, #[trigger] m[q].1),
    ensures
        attach_ok(
            u,
            s4,
            a4,
            ids,
            attach_all(
                u,
                m,
                AttachView { slices: s4, ambiguities: seq![], loose: seq![], taken: seq![] },
                ids,
            ),
        ),
    decreases ids.len(),
{
    let init = AttachView { slices: s4, ambiguities: seq![], loose: seq![], taken: seq![] };
    if ids.len() == 0 {
        assert(ids =~= Seq::<Str>::empty());
        assert(init.taken =~= ids);
        assert(loose_id_list(init.loose) =~= Seq::<Str>::empty());
        assert forall|x: Str| #[trigger] is_unit_id(u, x) implies member_count(s4, x) + occurrences(
            loose_id_list(init.loose),
            x,
        ) == if a4.contains(x) || ids.contains(x) {
            1nat
        } else {
            0nat
        } by {}
    } else {
        let p = ids.drop_last();
        let x = ids.last();
        assert(no_dups(p));
        assert forall|i: int| 0 <= i < p.len() implies !a4.contains(#[trigger] p[i]) && is_unit_id(u, p[i]) by {
            assert(p[i] == ids[i]);
        }
        lemma_attach_fold(u, m, s4, a4, p);
        let st = attach_all(u, m, init, p);
        assert(!a4.contains(ids[ids.len() - 1]) && is_unit_id(u, ids[ids.len() - 1]));
        if p.contains(x) {
            let q = choose|q: int| 0 <= q < p.len() && p[q] == x;
            assert(ids[q] == ids[ids.len() - 1]);
        }
        lemma_lookup_unit(u, x);
        let v = lookup_unit(u, x)->0;
        assert(p.push(x) =~= ids);
        assert(attach_all(u, m, init, ids) == attach_step(u, m, st, x));
        match lookup_family(m, v.family) {
            Some(sid) => {
                lemma_lookup_family(m, v.family);
                let q = choose|q: int| 0 <= q < m.len() && #[trigger] m[q].1 == sid;
                assert(is_slice_id(s4, m[q].1));
                let j = choose|j: int| 0 <= j < s4.len() && #[trigger] s4[j].id == sid;
                assert(st.slices[j].id == sid);
                lemma_attach_one(
                    u,
                    s4,
                    a4,
                    p,
                    st,
                    sid,
                    v,
                    crate::classify::describe_kind_spec(v.kind) + " stays with the "@ + v.family
                        + " family when ownership is clear."@,
                );
            },
            None => {
                match owner_by_segment(v.path, m) {
                    Some(sid) => {
                        let segs = crate::classify::split_on(v.path, '/');
                        lemma_owner_candidates(m, segs, crate::classify::stem_spec(segs.last()));
                        let c = owner_candidates(m, segs, crate::classify::stem_spec(segs.last()));
                        assert(c[0] == sid);
                        assert(is_target(m, c[0]));
                        let q = choose|q: int| 0 <= q < m.len() && #[trigger] m[q].1 == sid;
                        assert(is_slice_id(s4, m[q].1));
                        let j = choose|j: int| 0 <= j < s4.len() && #[trigger] s4[j].id == sid;
                        assert(st.slices[j].id == sid);
                        lemma_attach_one(
                            u,
                            s4,
                            a4,
                            p,
                            st,
                            sid,
                            v,
                            crate::classify::describe_kind_spec(v.kind) + " attached to "@ + v.path
                                + " via path-segment inference."@,
                        );
                    },
                    None => {
                        let amb = if v.family == "root"@ && m.len() > 1 {
                            st.ambiguities.push(crate::attach::root_ambiguity(v, m))
                        } else {
                            st.ambiguities
                        };
                        lemma_leave_one(u, s4, a4, p, st, v, amb);
                        assert(attach_ok(u, s4, a4, ids, attach_step(u, m, st, x)));
                    },
                }
            },
        }
    }
}

proof fn lemma_loose_ids(l: Seq<(SliceKind, Str, Str)>, k: SliceKind, f: Str, x: Str)
    ensures
        loose_ids(l, k, f).contains(x) <==> exists|q: int|
            0 <= q < l.len() && #[trigger] l[q] == (k, f, x),
    decreases l.len(),
{
    if l.len() > 0 {
        let t = l.drop_last();
        lemma_loose_ids(t, k, f, x);
        let p = loose_ids(t, k, f);
        let tail = if l.last().0 == k && l.last().1 == f {
            seq![l.last().2]
        } else {
            seq![]
        };
        if (p + tail).contains(x) {
            let q = choose|q: int| 0 <= q < (p + tail).len() && (p + tail)[q] == x;
            if q < p.len() {
                assert(p[q] == x);
                let w = choose|w: int| 0 <= w < t.len() && #[trigger] t[w] == (k, f, x);
                assert(l[w] == t[w]);
            } else {
                assert(l[l.len() - 1] == (k, f, x));
            }
        }
        if exists|q: int| 0 <= q < l.len() && #[trigger] l[q] == (k, f, x) {
            let q = choose|q: int| 0 <= q < l.len() && #[trigger] l[q] == (k, f, x);
            if q < l.len() - 1 {
                assert(t[q] == l[q]);
                assert(p.contains(x));
                let w = choose|w: int| 0 <= w < p.len() && p[w] == x;
                assert((p + tail)[w] == x);
            } else {
                assert((p + tail)[p.len() as int] == x);
            }
        }
    }
}

proof fn lemma_loose_family_list(l: Seq<(SliceKind, Str, Str)>, k: SliceKind, f: Str)
    ensures
        loose_family_list(l, k).contains(f) <==> exists|q: int|
            0 <= q < l.len() && #[trigger] l[q].0 == k && l[q].1 == f,
    decreases l.len(),
{
    if l.len() > 0 {
        let t = l.drop_last();
        lemma_loose_family_list(t, k, f);
        let p = loose_family_list(t, k);
        let tail = if l.last().0 == k {
            seq![l.last().1]
        } else {
            seq![]
        };
        if (p + tail).contains(f) {
            let q = choose|q: int| 0 <= q < (p + tail).len() && (p + tail)[q] == f;
            if q < p.len() {
                assert(p[q] == f);
                let w = choose|w: int| 0 <= w < t.len() && #[trigger] t[w].0 == k && t[w].1 == f;
                assert(l[w] == t[w]);
            } else {
                assert(l[l.len() - 1].1 == f);
            }
        }
        if exists|q: int| 0 <= q < l.len() && #[trigger] l[q].0 == k && l[q].1 == f {
            let q = choose|q: int| 0 <= q < l.len() && #[trigger] l[q].0 == k && l[q].1 == f;
            if q < l.len() - 1 {
                assert(t[q] == l[q]);
                assert(p.contains(f));
                let w = choose|w: int| 0 <= w < p.len() && p[w] == f;
                assert((p + tail)[w] == f);
            } else {
                assert((p + tail)[p.len() as int] == f);
            }
        }
    }
}

/// The standalone slices of one kind hold `x` once when it was left with
/// that kind, and not at all otherwise.
proof fn lemma_kind_count(
    u: Seq<UnitView>,
    m: Seq<(Str, Str)>,
    l: Seq<(SliceKind, Str, Str)>,
    k: SliceKind,
    x: Str,
)
    requires
        no_dups(loose_id_list(l)),
    ensures
        member_count(kind_views(u, m, l, k), x) == if exists|q: int|
            0 <= q < l.len() && #[trigger] l[q].2 == x && l[q].0 == k {
            1nat
        } else {
            0nat
        },
{
    let keys = sort_dedup(loose_family_list(l, k));
    let g = |f: Str| standalone_view(u, m, l, k, f);
    assert(kind_views(u, m, l, k) == keys.map_values(g));
    lemma_sort_dedup_no_dups(loose_family_list(l, k));
    let ll = loose_id_list(l);
    assert forall|i: int| 0 <= i < keys.len() implies no_dups(#[trigger] g(keys[i]).members) by {
        lemma_sort_dedup_no_dups(loose_ids(l, k, keys[i]));
    }
    if exists|q: int| 0 <= q < l.len() && #[trigger] l[q].2 == x && l[q].0 == k {
        let q0 = choose|q: int| 0 <= q < l.len() && #[trigger] l[q].2 == x && l[q].0 == k;
        let f0 = l[q0].1;
        assert forall|i: int| 0 <= i < keys.len() implies (#[trigger] g(keys[i]).members.contains(x)
            <==> keys[i] == f0) by {
            lemma_sort_dedup_no_dups(loose_ids(l, k, keys[i]));
            lemma_loose_ids(l, k, keys[i], x);
            if loose_ids(l, k, keys[i]).contains(x) {
                let q = choose|q: int| 0 <= q < l.len() && #[trigger] l[q] == (k, keys[i], x);
                if q != q0 {
                    assert(ll[q] == ll[q0]);
                }
            }
            if keys[i] == f0 {
                assert(l[q0] == (k, f0, x));
            }
        }
        lemma_member_count_keys(keys, g, x, f0);
        lemma_loose_family_list(l, k, f0);
        assert(l[q0].0 == k && l[q0].1 == f0);
        assert(keys.contains(f0));
    } else {
        let kv = kind_views(u, m, l, k);
        assert forall|j: int| 0 <= j < kv.len() implies !(#[trigger] kv[j].members.contains(x)) by {
            assert(kv[j] == g(keys[j]));
            lemma_sort_dedup_no_dups(loose_ids(l, k, keys[j]));
            lemma_loose_ids(l, k, keys[j], x);
            if loose_ids(l, k, keys[j]).contains(x) {
                let q = choose|q: int| 0 <= q < l.len() && #[trigger] l[q] == (k, keys[j], x);
                assert(l[q].2 == x && l[q].0 == k);
            }
        }
        lemma_member_count_absent(kv, x);
    }
}

/// The standalone slices hold each leftover once.
proof fn lemma_standalone_count(u: Seq<UnitView>, m: Seq<(Str, Str)>, l: Seq<(SliceKind, Str, Str)>, x: Str)
    requires
        no_dups(loose_id_list(l)),
        forall|q: int| 0 <= q < l.len() ==> standalone_kinds(#[trigger] l[q].0),
    ensures
        member_count(standalone_views(u, m, l), x) == if loose_id_list(l).contains(x) {
            1nat
        } else {
            0nat
        },
        members_distinct(standalone_views(u, m, l)),
{
    let ll = loose_id_list(l);
    let td = kind_views(u, m, l, SliceKind::TestsDocs);
    let gn = kind_views(u, m, l, SliceKind::Generated);
    let ms = kind_views(u, m, l, SliceKind::Misc);
    lemma_member_count_add(td + gn, ms, x);
    lemma_member_count_add(td, gn, x);
    lemma_kind_count(u, m, l, SliceKind::TestsDocs, x);
    lemma_kind_count(u, m, l, SliceKind::Generated, x);
    lemma_kind_count(u, m, l, SliceKind::Misc, x);
    if ll.contains(x) {
        let q0 = choose|q: int| 0 <= q < ll.len() && ll[q] == x;
        assert(l[q0].2 == x);
        assert(standalone_kinds(l[q0].0));
        assert forall|q: int| 0 <= q < l.len() && #[trigger] l[q].2 == x implies q == q0 by {
            if q != q0 {
                assert(ll[q] == ll[q0]);
            }
        }
    } else {
        assert forall|q: int| 0 <= q < l.len() implies #[trigger] l[q].2 != x by {
            assert(ll[q] == l[q].2);
        }
    }
    let all = standalone_views(u, m, l);
    assert forall|j: int| 0 <= j < all.len() implies no_dups(#[trigger] all[j].members) by {
        let k = if j < td.len() {
            SliceKind::TestsDocs
        } else if j < td.len() + gn.len() {
            SliceKind::Generated
        } else {
            SliceKind::Misc
        };
        let off = if j < td.len() {
            0
        } else if j < td.len() + gn.len() {
            td.len() as int
        } else {
            (td.len() + gn.len()) as int
        };
        let keys = sort_dedup(loose_family_list(l, k));
        assert(all[j] == standalone_view(u, m, l, k, keys[j - off]));
        lemma_sort_dedup_no_dups(loose_ids(l, k, keys[j - off]));
    }
}

/// Every unit sits in exactly one planned slice.
pub proof fn lemma_planned_once(u: Seq<UnitView>)
    requires
        ids_unique(u),
    ensures
        forall|x: Str| #[trigger] is_unit_id(u, x) ==> member_count(planned(u).0, x) == 1,
        members_distinct(planned(u).0),
{
    lemma_early_counts(u);
    let (s3, a3) = early(u);
    lemma_behavior_step(u, s3, a3);
    let m = family_map(u, a3);
    let bv = behavior_views(u, a3, s3);
    let s4 = s3 + bv;
    let a4 = after(u, a3, KindFilter::Behavior);
    let ids = pick_ids(u, a4, KindFilter::Attachable);
    lemma_pick_no_dups(u, a4, KindFilter::Attachable);
    assert forall|i: int| 0 <= i < ids.len() implies !a4.contains(#[trigger] ids[i]) && is_unit_id(u, ids[i]) by {
        lemma_pick_contains(u, a4, KindFilter::Attachable, ids[i]);
        assert(ids.contains(ids[i]));
        let w = choose|w: int|
            0 <= w < u.len() && #[trigger] u[w].id == ids[i] && !a4.contains(ids[i]) && accepts(
                KindFilter::Attachable,
                u[w].kind,
            );
    }
    let keys = behavior_families(u, a3);
    assert forall|q: int| 0 <= q < m.len() implies is_slice_id(s4, #[trigger] m[q].1) by {
        assert(m[q].1 == behavior_id(keys[q]));
        assert(s4[s3.len() + q] == bv[q]);
        assert(bv[q] == behavior_view(u, a3, s3, keys[q]));
        assert(s4[s3.len() + q].id == behavior_id(keys[q]));
    }
    let init = AttachView { slices: s4, ambiguities: seq![], loose: seq![], taken: seq![] };
    lemma_attach_fold(u, m, s4, a4, ids);
    let st = attach_all(u, m, init, ids);
    let a5 = a4.union(st.taken.to_set());
    let sv = standalone_views(u, m, st.loose);
    let s6 = st.slices + sv;
    assert forall|q: int| 0 <= q < st.loose.len() implies standalone_kinds(#[trigger] st.loose[q].0) by {
        let t = st.loose[q].2;
        assert(is_unit_id(u, t));
    }
    assert forall|x: Str| #[trigger] is_unit_id(u, x) implies member_count(s6, x) == if a5.contains(x) {
        1nat
    } else {
        0nat
    } by {
        lemma_member_count_add(st.slices, sv, x);
        lemma_standalone_count(u, m, st.loose, x);
        lemma_occ_no_dups(loose_id_list(st.loose), x);
        assert(st.taken.to_set().contains(x) == ids.contains(x));
    }
    lemma_standalone_count(u, m, st.loose, Seq::<char>::empty());
    assert forall|j: int| 0 <= j < s6.len() implies no_dups(#[trigger] s6[j].members) by {
        if j < st.slices.len() {
            assert(s6[j] == st.slices[j]);
        } else {
            assert(s6[j] == sv[j - st.slices.len()]);
        }
    }
    lemma_phase_step(u, s6, a5, KindFilter::Any);
    let s7 = s6 + phase_slices(u, a5, KindFilter::Any);
    assert(planned(u).0 == s7);
    assert forall|x: Str| #[trigger] is_unit_id(u, x) implies member_count(s7, x) == 1 by {
        lemma_pick_contains(u, a5, KindFilter::Any, x);
        let w = choose|w: int| 0 <= w < u.len() && #[trigger] u[w].id == x;
        assert(accepts(KindFilter::Any, u[w].kind));
        assert(pick_ids(u, a5, KindFilter::Any).to_set().contains(x) == pick_ids(u, a5, KindFilter::Any).contains(x));
    }
}

/// Without must_link and force_members rules, applying overrides keeps the
/// slices, their ids and their members.
proof fn lemma_members_stay(s: Seq<SliceView>, o: OverridesView)
    requires
        o.must_link.len() == 0,
        o.force_members.len() == 0,
    ensures
        apply_spec(s, o).0.len() == s.len(),
        forall|j: int|
            0 <= j < s.len() ==> #[trigger] apply_spec(s, o).0[j].id == s[j].id && apply_spec(
                s,
                o,
            ).0[j].members == s[j].members,
{
    let s1 = apply_must_link(s, o.must_link);
    assert(s1 == s);
    let s2 = apply_force(s1, o.force_members);
    assert(s2 == s);
    let s3 = apply_rename(s2, o.rename_slices);
    lemma_rename_same_members(s2, o.rename_slices);
    lemma_apply_rename_extends(s2, o.rename_slices);
    lemma_order_same_members(s3, o.must_order);
    lemma_apply_order(s3, o.must_order);
    let post = apply_order(s3, o.must_order).0;
    assert(apply_spec(s, o).0 == post);
    assert forall|j: int| 0 <= j < s.len() implies #[trigger] post[j].id == s[j].id && post[j].members
        == s[j].members by {
        assert(post[j].id == s3[j].id);
        assert(s3[j].id == s2[j].id);
        assert(post[j].members == s3[j].members);
        assert(s3[j].members == s2[j].members);
    }
}

/// Every unit of a plan built without must_link or force_members rules sits
/// in exactly one slice, when no two units share an id.
pub proof fn law_every_unit_once(
    source: SourceView,
    units: Seq<UnitView>,
    c: ConfigView,
    o: OverridesView,
    overrides_json: Seq<u8>,
)
    requires
        ids_unique(units),
        o.must_link.len() == 0,
        o.force_members.len() == 0,
    ensures
        forall|i: int|
            0 <= i < plan_spec(source, units, c, o, overrides_json).units.len() ==> member_count(
                plan_spec(source, units, c, o, overrides_json).slices,
                #[trigger] plan_spec(source, units, c, o, overrides_json).units[i].id,
            ) == 1,
{
    let p = plan_spec(source, units, c, o, overrides_json);
    let u = crate::phases::sort_by_path(units);
    lemma_sort_by_path(units);
    lemma_planned_once(u);
    let pre = planned(u).0;
    lemma_members_stay(pre, o);
    assert(p.slices == apply_spec(pre, o).0);
    assert forall|j: int| 0 <= j < pre.len() implies #[trigger] p.slices[j].members == pre[j].members by {
        assert(apply_spec(pre, o).0[j].id == pre[j].id);
    }
    assert forall|i: int| 0 <= i < p.units.len() implies member_count(p.slices, #[trigger] p.units[i].id) == 1 by {
        assert(is_unit_id(u, u[i].id));
        lemma_same_members_count(pre, p.slices, u[i].id);
    }
}

// ---------------------------------------------------------------------------
// Acyclicity
// ---------------------------------------------------------------------------

/// Some slice before index `i` has the id `d`.
pub open spec fn named_before(s: Seq<SliceView>, i: int, d: Str) -> bool {
    exists|j: int| 0 <= j < i && #[trigger] s[j].id == d
}

/// Every dependency names an earlier slice.
pub open spec fn deps_backward(s: Seq<SliceView>) -> bool {
    forall|i: int, k: int|
        0 <= i < s.len() && 0 <= k < s[i].depends_on.len() ==> named_before(
            s,
            i,
            #[trigger] s[i].depends_on[k],
        )
}

/// With distinct ids, dependencies on earlier slices form a DAG.
proof fn lemma_backward_acyclic(s: Seq<SliceView>)
    requires
        ids_distinct(s),
        deps_backward(s),
    ensures
        acyclic(s),
{
    let rk = |i: int| i;
    assert forall|i: int, k: int, j: int|
        #![trigger s[i].depends_on[k], s[j]]
        0 <= i < s.len() && 0 <= k < s[i].depends_on.len() && 0 <= j < s.len() && s[j].id
            == s[i].depends_on[k] implies rk(j) < rk(i) by {
        assert(named_before(s, i, s[i].depends_on[k]));
        let j0 = choose|j0: int| 0 <= j0 < i && #[trigger] s[j0].id == s[i].depends_on[k];
        if j != j0 {
            if j < j0 {
                assert(s[j].id != s[j0].id);
            } else {
                assert(s[j0].id != s[j].id);
            }
        }
    }
    assert(ranked_by(s, rk));
    assert forall|i: int, k: int|
        0 <= i < s.len() && 0 <= k < s[i].depends_on.len() implies is_slice_id(
            s,
            #[trigger] s[i].depends_on[k],
        ) by {
        assert(named_before(s, i, s[i].depends_on[k]));
        let j0 = choose|j0: int| 0 <= j0 < i && #[trigger] s[j0].id == s[i].depends_on[k];
        assert(s[j0].id == s[i].depends_on[k]);
    }
}

/// `t` keeps the ids and dependencies of `s`, and any slice it adds comes
/// at the end without dependencies.
pub open spec fn extends(s: Seq<SliceView>, t: Seq<SliceView>) -> bool {
    &&& t.len() >= s.len()
    &&& forall|j: int|
        0 <= j < s.len() ==> #[trigger] t[j].id == s[j].id && t[j].depends_on == s[j].depends_on
    &&& forall|j: int| s.len() <= j < t.len() ==> #[trigger] t[j].depends_on.len() == 0
}

proof fn lemma_fwi_range(s: Seq<SliceView>, id: Str)
    ensures
        0 <= first_with_id(s, id) <= s.len(),
    decreases s.len(),
{
    if s.len() > 0 && s[0].id != id {
        lemma_fwi_range(s.drop_first(), id);
    }
}

proof fn lemma_extends_trans(s: Seq<SliceView>, t: Seq<SliceView>, w: Seq<SliceView>)
    requires
        extends(s, t),
        extends(t, w),
    ensures
        extends(s, w),
{
    assert forall|j: int| s.len() <= j < w.len() implies #[trigger] w[j].depends_on.len() == 0 by {
        if j < t.len() {
            assert(w[j].id == t[j].id);
            assert(w[j].depends_on == t[j].depends_on);
            assert(t[j].depends_on.len() == 0);
        }
    }
    assert forall|j: int| 0 <= j < s.len() implies #[trigger] w[j].id == s[j].id && w[j].depends_on
        == s[j].depends_on by {
        assert(w[j].id == t[j].id);
    }
}

proof fn lemma_extends_backward(s: Seq<SliceView>, t: Seq<SliceView>)
    requires
        extends(s, t),
        deps_backward(s),
    ensures
        deps_backward(t),
{
    assert forall|i: int, k: int|
        0 <= i < t.len() && 0 <= k < t[i].depends_on.len() implies named_before(
            t,
            i,
            #[trigger] t[i].depends_on[k],
        ) by {
        if i < s.len() {
            assert(t[i].id == s[i].id);
            assert(t[i].depends_on == s[i].depends_on);
            assert(named_before(s, i, s[i].depends_on[k]));
            let j = choose|j: int| 0 <= j < i && #[trigger] s[j].id == s[i].depends_on[k];
            assert(t[j].id == s[j].id);
        } else {
            assert(t[i].depends_on.len() == 0);
        }
    }
}

proof fn lemma_extends_distinct(s: Seq<SliceView>, t: Seq<SliceView>)
    requires
        extends(s, t),
        ids_distinct(t),
    ensures
        ids_distinct(s),
{
    assert forall|i: int, j: int| 0 <= i < j < s.len() implies #[trigger] s[i].id != #[trigger] s[j].id by {
        assert(t[i].id == s[i].id);
        assert(t[j].id == s[j].id);
    }
}

proof fn lemma_extends_refl(s: Seq<SliceView>)
    ensures
        extends(s, s),
{
}

proof fn lemma_move_extends(s: Seq<SliceView>, m: Str, target: Str)
    ensures
        extends(s, move_member_spec(s, m, target)),
        move_member_spec(s, m, target).len() == s.len(),
{
    let t = s.map_values(|sl: SliceView| strip_member(sl, m, target));
    let r = move_member_spec(s, m, target);
    lemma_fwi_range(s, target);
    assert forall|j: int| 0 <= j < s.len() implies #[trigger] r[j].id == s[j].id && r[j].depends_on
        == s[j].depends_on by {
        assert(t[j] == strip_member(s[j], m, target));
    }
}

proof fn lemma_move_all_extends(s: Seq<SliceView>, ms: Seq<Str>, target: Str)
    ensures
        extends(s, move_all(s, ms, target)),
        move_all(s, ms, target).len() == s.len(),
    decreases ms.len(),
{
    if ms.len() > 0 {
        lemma_move_all_extends(s, ms.drop_last(), target);
        let t = move_all(s, ms.drop_last(), target);
        lemma_move_extends(t, ms.last(), target);
        lemma_extends_trans(s, t, move_all(s, ms, target));
    }
}

proof fn lemma_settle_extends(s: Seq<SliceView>, id: Str, r: crate::model::ReasonView)
    ensures
        extends(s, settle(s, id, r)),
        settle(s, id, r).len() == s.len(),
{
    lemma_fwi_range(s, id);
}

proof fn lemma_push_extends(s: Seq<SliceView>, sl: SliceView)
    requires
        sl.depends_on.len() == 0,
    ensures
        extends(s, s.push(sl)),
{
    assert forall|j: int| s.len() <= j < s.push(sl).len() implies #[trigger] s.push(sl)[j].depends_on.len() == 0 by {
        assert(s.push(sl)[j] == sl);
    }
}

proof fn lemma_must_link_extends(s: Seq<SliceView>, rule: MustLinkView)
    ensures
        extends(s, must_link_step(s, rule)),
{
    if rule.members.len() > 0 {
        let anchor = crate::overrides::first_anchor(s, rule.members);
        let target = match anchor {
            Some(a) => a,
            None => crate::overrides::bundle_id(rule.members),
        };
        let base = if anchor is Some {
            s
        } else {
            s.push(crate::overrides::bundle_view(target))
        };
        if anchor is None {
            assert(crate::overrides::bundle_view(target).depends_on =~= Seq::<Str>::empty());
            lemma_push_extends(s, crate::overrides::bundle_view(target));
        }
        let moved = move_all(base, rule.members, target);
        lemma_move_all_extends(base, rule.members, target);
        lemma_extends_trans(s, base, moved);
        let r = crate::model::reason_view(
            "override-must-link"@,
            crate::overrides::or_default(
                rule.reason,
                "Members were forced to stay together by override."@,
            ),
        );
        lemma_settle_extends(moved, target, r);
        lemma_extends_trans(s, moved, settle(moved, target, r));
    }
}

proof fn lemma_force_extends(s: Seq<SliceView>, rule: ForceView)
    ensures
        extends(s, force_step(s, rule)),
{
    let base = if is_slice_id(s, rule.slice) {
        s
    } else {
        s.push(crate::overrides::forced_view(rule.slice))
    };
    if !is_slice_id(s, rule.slice) {
        assert(crate::overrides::forced_view(rule.slice).depends_on =~= Seq::<Str>::empty());
        lemma_push_extends(s, crate::overrides::forced_view(rule.slice));
    }
    let moved = move_member_spec(base, rule.member, rule.slice);
    lemma_move_extends(base, rule.member, rule.slice);
    lemma_extends_trans(s, base, moved);
    let r = crate::model::reason_view(
        "override-force-member"@,
        crate::overrides::or_default(rule.reason, "Member was forced into this slice by override."@),
    );
    lemma_settle_extends(moved, rule.slice, r);
    lemma_extends_trans(s, moved, settle(moved, rule.slice, r));
}

proof fn lemma_apply_must_link_extends(s: Seq<SliceView>, rules: Seq<MustLinkView>)
    ensures
        extends(s, apply_must_link(s, rules)),
    decreases rules.len(),
{
    if rules.len() > 0 {
        lemma_apply_must_link_extends(s, rules.drop_last());
        let t = apply_must_link(s, rules.drop_last());
        lemma_must_link_extends(t, rules.last());
        lemma_extends_trans(s, t, apply_must_link(s, rules));
    }
}

proof fn lemma_apply_force_extends(s: Seq<SliceView>, rules: Seq<ForceView>)
    ensures
        extends(s, apply_force(s, rules)),
    decreases rules.len(),
{
    if rules.len() > 0 {
        lemma_apply_force_extends(s, rules.drop_last());
        let t = apply_force(s, rules.drop_last());
        lemma_force_extends(t, rules.last());
        lemma_extends_trans(s, t, apply_force(s, rules));
    }
}

proof fn lemma_apply_rename_extends(s: Seq<SliceView>, rules: Seq<RenameView>)
    ensures
        extends(s, apply_rename(s, rules)),
        apply_rename(s, rules).len() == s.len(),
    decreases rules.len(),
{
    if rules.len() > 0 {
        lemma_apply_rename_extends(s, rules.drop_last());
        let t = apply_rename(s, rules.drop_last());
        lemma_fwi_range(t, rules.last().id);
        lemma_extends_trans(s, t, apply_rename(s, rules));
    }
}

/// Fewer dependencies on the same slices keep a DAG a DAG.
proof fn lemma_fewer_deps_acyclic(s: Seq<SliceView>, t: Seq<SliceView>)
    requires
        acyclic(s),
        t.len() == s.len(),
        forall|j: int| 0 <= j < s.len() ==> #[trigger] t[j].id == s[j].id,
        forall|j: int, k: int|
            0 <= j < t.len() && 0 <= k < t[j].depends_on.len() ==> s[j].depends_on.contains(
                #[trigger] t[j].depends_on[k],
            ),
    ensures
        acyclic(t),
{
    let rk = choose|rk: spec_fn(int) -> int| ranked_by(s, rk);
    assert forall|i: int, k: int, j: int|
        #![trigger t[i].depends_on[k], t[j]]
        0 <= i < t.len() && 0 <= k < t[i].depends_on.len() && 0 <= j < t.len() && t[j].id
            == t[i].depends_on[k] implies rk(j) < rk(i) by {
        let d = t[i].depends_on[k];
        assert(s[i].depends_on.contains(d));
        let k2 = choose|k2: int| 0 <= k2 < s[i].depends_on.len() && s[i].depends_on[k2] == d;
        assert(s[j].id == s[i].depends_on[k2]);
    }
    assert(ranked_by(t, rk));
    assert forall|i: int, j: int| 0 <= i < j < t.len() implies #[trigger] t[i].id != #[trigger] t[j].id by {
        assert(s[i].id != s[j].id);
    }
    assert forall|i: int, k: int|
        0 <= i < t.len() && 0 <= k < t[i].depends_on.len() implies is_slice_id(
            t,
            #[trigger] t[i].depends_on[k],
        ) by {
        let d = t[i].depends_on[k];
        assert(s[i].depends_on.contains(d));
        let k2 = choose|k2: int| 0 <= k2 < s[i].depends_on.len() && s[i].depends_on[k2] == d;
        assert(is_slice_id(s, s[i].depends_on[k2]));
        let j = choose|j: int| 0 <= j < s.len() && #[trigger] s[j].id == d;
        assert(t[j].id == d);
    }
}

/// A must_order rule keeps the ids and keeps a DAG a DAG.
proof fn lemma_order_step(s: Seq<SliceView>, rule: OrderView)
    ensures
        order_step(s, rule).0.len() == s.len(),
        forall|j: int| 0 <= j < s.len() ==> #[trigger] order_step(s, rule).0[j].id == s[j].id,
        acyclic(s) ==> acyclic(order_step(s, rule).0),
{
    let k = first_with_id(s, rule.after);
    lemma_fwi_range(s, rule.after);
    if k < s.len() {
        let added = s.update(
            k,
            SliceView { depends_on: sort_dedup(s[k].depends_on.push(rule.before)), ..s[k] },
        );
        let r = order_step(s, rule).0;
        if acyclic(s) {
            if acyclic(added) {
                lemma_fewer_deps_acyclic(added, r);
            } else {
                assert forall|j: int, q: int|
                    0 <= j < r.len() && 0 <= q < r[j].depends_on.len() implies s[j].depends_on.contains(
                        #[trigger] r[j].depends_on[q],
                    ) by {
                    if j == k {
                        let d = r[j].depends_on[q];
                        let p = |x: Str| x != rule.before;
                        let l = sort_dedup(s[k].depends_on.push(rule.before));
                        assert(r[j].depends_on == l.filter(p));
                        assert(l.filter(p).contains(d));
                        l.lemma_filter_contains_rev(p, d);
                        l.filter_lemma(p);
                        assert(d != rule.before);
                        lemma_sort_dedup_no_dups(s[k].depends_on.push(rule.before));
                        let w = choose|w: int| 0 <= w < s[k].depends_on.push(rule.before).len()
                            && s[k].depends_on.push(rule.before)[w] == d;
                        assert(s[k].depends_on[w] == d);
                    } else {
                        assert(r[j] == s[j]);
                        assert(s[j].depends_on[q] == r[j].depends_on[q]);
                    }
                }
                lemma_fewer_deps_acyclic(s, r);
            }
        }
    }
}

proof fn lemma_apply_order(s: Seq<SliceView>, rules: Seq<OrderView>)
    ensures
        apply_order(s, rules).0.len() == s.len(),
        forall|j: int| 0 <= j < s.len() ==> #[trigger] apply_order(s, rules).0[j].id == s[j].id,
        acyclic(s) ==> acyclic(apply_order(s, rules).0),
    decreases rules.len(),
{
    if rules.len() > 0 {
        lemma_apply_order(s, rules.drop_last());
        let t = apply_order(s, rules.drop_last()).0;
        lemma_order_step(t, rules.last());
        assert forall|j: int| 0 <= j < s.len() implies #[trigger] apply_order(s, rules).0[j].id == s[j].id by {
            assert(apply_order(s, rules).0[j].id == t[j].id);
        }
    }
}

proof fn lemma_fwi_valid(s: Seq<SliceView>, id: Str)
    requires
        first_with_id(s, id) < s.len(),
    ensures
        0 <= first_with_id(s, id),
        s[first_with_id(s, id)].id == id,
    decreases s.len(),
{
    lemma_fwi_range(s, id);
    if s.len() > 0 && s[0].id != id {
        lemma_fwi_valid(s.drop_first(), id);
    }
}

proof fn lemma_phase_extends(u: Seq<UnitView>, s: Seq<SliceView>, a: Set<Str>, f: KindFilter)
    ensures
        extends(s, s + phase_slices(u, a, f)),
{
    let ps = phase_slices(u, a, f);
    assert forall|j: int| s.len() <= j < (s + ps).len() implies #[trigger] (s + ps)[j].depends_on.len() == 0 by {
        assert((s + ps)[j] == phase_view(u, f, pick_ids(u, a, f)));
        assert(sort_dedup(Seq::<Str>::empty()) =~= Seq::<Str>::empty());
    }
}

pub(crate) proof fn lemma_attach_skeleton(u: Seq<UnitView>, m: Seq<(Str, Str)>, st: AttachView, ids: Seq<Str>)
    ensures
        extends(st.slices, attach_all(u, m, st, ids).slices),
        attach_all(u, m, st, ids).slices.len() == st.slices.len(),
    decreases ids.len(),
{
    if ids.len() > 0 {
        lemma_attach_skeleton(u, m, st, ids.drop_last());
        let t = attach_all(u, m, st, ids.drop_last());
        let r = attach_step(u, m, t, ids.last());
        assert forall|sid: Str, v: UnitView, msg: Str|
            extends(t.slices, #[trigger] attach_spec(t.slices, sid, v, msg)) && attach_spec(
                t.slices,
                sid,
                v,
                msg,
            ).len() == t.slices.len() by {
            lemma_fwi_range(t.slices, sid);
        }
        lemma_extends_refl(t.slices);
        lemma_extends_trans(st.slices, t.slices, r.slices);
    }
}

/// The planned slices depend only on earlier slices.
proof fn lemma_planned_backward(u: Seq<UnitView>)
    ensures
        deps_backward(planned(u).0),
{
    let a0 = Set::<Str>::empty();
    let e = Seq::<SliceView>::empty();
    lemma_phase_extends(u, e, a0, KindFilter::ManifestOrLock);
    let s1 = e + phase_slices(u, a0, KindFilter::ManifestOrLock);
    let a1 = after(u, a0, KindFilter::ManifestOrLock);
    assert(s1 =~= phase_slices(u, a0, KindFilter::ManifestOrLock));
    lemma_phase_extends(u, s1, a1, KindFilter::Ops);
    let s2 = s1 + phase_slices(u, a1, KindFilter::Ops);
    let a2 = after(u, a1, KindFilter::Ops);
    lemma_phase_extends(u, s2, a2, KindFilter::Mechanical);
    let (s3, a3) = early(u);
    lemma_extends_trans(e, s1, s2);
    lemma_extends_trans(e, s2, s3);
    assert(deps_backward(e));
    lemma_extends_backward(e, s3);
    let bv = behavior_views(u, a3, s3);
    let s4 = s3 + bv;
    let keys = behavior_families(u, a3);
    assert forall|i: int, k: int|
        0 <= i < s4.len() && 0 <= k < s4[i].depends_on.len() implies named_before(
            s4,
            i,
            #[trigger] s4[i].depends_on[k],
        ) by {
        if i < s3.len() {
            assert(s4[i] == s3[i]);
            assert(named_before(s3, i, s3[i].depends_on[k]));
            let j = choose|j: int| 0 <= j < i && #[trigger] s3[j].id == s3[i].depends_on[k];
            assert(s4[j] == s3[j]);
        } else {
            let f = keys[i - s3.len()];
            assert(s4[i] == bv[i - s3.len()]);
            assert(bv[i - s3.len()] == behavior_view(u, a3, s3, f));
            let ids = behavior_ids(u, a3, f);
            let bd = crate::attach::behavior_deps(u, ids, s3);
            let d = s4[i].depends_on[k];
            lemma_sort_dedup_no_dups(bd);
            assert(sort_dedup(bd).contains(d));
            assert(bd.contains(d));
            let q = choose|q: int| 0 <= q < bd.len() && bd[q] == d;
            let id = if d == "api-schema-workspace"@ && first_with_id(s3, "api-schema-workspace"@) < s3.len() {
                "api-schema-workspace"@
            } else {
                "mechanical-renames"@
            };
            assert(first_with_id(s3, id) < s3.len() && d == id);
            lemma_fwi_valid(s3, id);
            let j = first_with_id(s3, id);
            assert(s4[j] == s3[j]);
        }
    }
    let m = family_map(u, a3);
    let a4 = after(u, a3, KindFilter::Behavior);
    let init = AttachView { slices: s4, ambiguities: seq![], loose: seq![], taken: seq![] };
    let ids = pick_ids(u, a4, KindFilter::Attachable);
    let st = attach_all(u, m, init, ids);
    lemma_attach_skeleton(u, m, init, ids);
    lemma_extends_backward(s4, st.slices);
    let a5 = a4.union(st.taken.to_set());
    let sv = standalone_views(u, m, st.loose);
    let s6 = st.slices + sv;
    assert forall|i: int, k: int|
        0 <= i < s6.len() && 0 <= k < s6[i].depends_on.len() implies named_before(
            s6,
            i,
            #[trigger] s6[i].depends_on[k],
        ) by {
        if i < st.slices.len() {
            assert(s6[i] == st.slices[i]);
            assert(named_before(st.slices, i, st.slices[i].depends_on[k]));
            let j = choose|j: int| 0 <= j < i && #[trigger] st.slices[j].id == st.slices[i].depends_on[k];
            assert(s6[j] == st.slices[j]);
        } else {
            let l = st.loose;
            let td = kind_views(u, m, l, SliceKind::TestsDocs);
            let gn = kind_views(u, m, l, SliceKind::Generated);
            let q = i - st.slices.len();
            let kk = if q < td.len() {
                SliceKind::TestsDocs
            } else if q < td.len() + gn.len() {
                SliceKind::Generated
            } else {
                SliceKind::Misc
            };
            let off = if q < td.len() {
                0
            } else if q < td.len() + gn.len() {
                td.len() as int
            } else {
                (td.len() + gn.len()) as int
            };
            let fk = sort_dedup(loose_family_list(l, kk))[q - off];
            assert(s6[i] == sv[q]);
            assert(sv[q] == standalone_view(u, m, l, kk, fk));
            let dl = match lookup_family(m, fk) {
                Some(sid) => seq![sid],
                None => Seq::<Str>::empty(),
            };
            let d = s6[i].depends_on[k];
            lemma_sort_dedup_no_dups(dl);
            assert(sort_dedup(dl).contains(d));
            assert(dl.contains(d));
            lemma_lookup_family(m, fk);
            let sid = lookup_family(m, fk)->0;
            assert(d == sid);
            let w = choose|w: int| 0 <= w < m.len() && #[trigger] m[w].1 == sid;
            assert(m[w].1 == behavior_id(keys[w]));
            assert(s4[s3.len() + w] == bv[w]);
            assert(s4[s3.len() + w].id == sid);
            let j = s3.len() + w;
            assert(st.slices[j].id == s4[j].id);
            assert(s6[j] == st.slices[j]);
        }
    }
    lemma_phase_extends(u, s6, a5, KindFilter::Any);
    lemma_extends_backward(s6, s6 + phase_slices(u, a5, KindFilter::Any));
    assert(planned(u).0 == s6 + phase_slices(u, a5, KindFilter::Any));
}

/// The slices of every plan form an acyclic dependency graph whenever their
/// ids are distinct, whatever the overrides.
pub proof fn law_plan_acyclic(
    source: SourceView,
    units: Seq<UnitView>,
    c: ConfigView,
    o: OverridesView,
    overrides_json: Seq<u8>,
)
    requires
        ids_distinct(plan_spec(source, units, c, o, overrides_json).slices),
    ensures
        acyclic(plan_spec(source, units, c, o, overrides_json).slices),
{
    let u = crate::phases::sort_by_path(units);
    let pre = planned(u).0;
    lemma_planned_backward(u);
    let s1 = apply_must_link(pre, o.must_link);
    let s2 = apply_force(s1, o.force_members);
    let s3 = apply_rename(s2, o.rename_slices);
    lemma_apply_must_link_extends(pre, o.must_link);
    lemma_apply_force_extends(s1, o.force_members);
    lemma_apply_rename_extends(s2, o.rename_slices);
    lemma_extends_trans(pre, s1, s2);
    lemma_extends_trans(pre, s2, s3);
    lemma_extends_backward(pre, s3);
    lemma_apply_order(s3, o.must_order);
    let post = apply_order(s3, o.must_order).0;
    assert(post == plan_spec(source, units, c, o, overrides_json).slices);
    assert forall|i: int, j: int| 0 <= i < j < s3.len() implies #[trigger] s3[i].id != #[trigger] s3[j].id by {
        assert(post[i].id == s3[i].id);
        assert(post[j].id == s3[j].id);
    }
    lemma_backward_acyclic(s3);
}

// ---------------------------------------------------------------------------
// Manifests and lockfiles
// ---------------------------------------------------------------------------

/// `t` has at least the slices of `s`, each with at least its members.
pub open spec fn keeps_members(s: Seq<SliceView>, t: Seq<SliceView>) -> bool {
    &&& t.len() >= s.len()
    &&& forall|j: int, x: Str|
        #![trigger s[j].members.contains(x)]
        #![trigger t[j].members.contains(x)]
        0 <= j < s.len() && s[j].members.contains(x) ==> t[j].members.contains(x)
}

proof fn lemma_keeps_trans(s: Seq<SliceView>, t: Seq<SliceView>, w: Seq<SliceView>)
    requires
        keeps_members(s, t),
        keeps_members(t, w),
    ensures
        keeps_members(s, w),
{
    assert forall|j: int, x: Str| 0 <= j < s.len() && s[j].members.contains(x) implies w[j].members.contains(x) by {
        assert(t[j].members.contains(x));
    }
}

proof fn lemma_attach_spec_keeps(s: Seq<SliceView>, sid: Str, v: UnitView, msg: Str)
    ensures
        keeps_members(s, attach_spec(s, sid, v, msg)),
{
    let t = attach_spec(s, sid, v, msg);
    let k = first_with_id(s, sid);
    lemma_fwi_range(s, sid);
    if k < s.len() {
        lemma_sort_dedup(s[k].members.push(v.id));
        assert forall|j: int, x: Str| 0 <= j < s.len() && s[j].members.contains(x) implies t[j].members.contains(x) by {
            if j == k {
                let w = choose|w: int| 0 <= w < s[k].members.len() && s[k].members[w] == x;
                assert(s[k].members.push(v.id)[w] == x);
            }
        }
    }
}

proof fn lemma_attach_all_keeps(u: Seq<UnitView>, m: Seq<(Str, Str)>, st: AttachView, ids: Seq<Str>)
    ensures
        keeps_members(st.slices, attach_all(u, m, st, ids).slices),
    decreases ids.len(),
{
    if ids.len() > 0 {
        lemma_attach_all_keeps(u, m, st, ids.drop_last());
        let t = attach_all(u, m, st, ids.drop_last());
        let r = attach_step(u, m, t, ids.last());
        assert forall|sid: Str, v: UnitView, msg: Str|
            keeps_members(t.slices, #[trigger] attach_spec(t.slices, sid, v, msg)) by {
            lemma_attach_spec_keeps(t.slices, sid, v, msg);
        }
        assert(keeps_members(t.slices, t.slices));
        lemma_keeps_trans(st.slices, t.slices, r.slices);
    }
}

/// Renaming slices leaves their number and members alone.
proof fn lemma_rename_same_members(s: Seq<SliceView>, rules: Seq<RenameView>)
    ensures
        apply_rename(s, rules).len() == s.len(),
        forall|j: int| 0 <= j < s.len() ==> #[trigger] apply_rename(s, rules)[j].members == s[j].members,
    decreases rules.len(),
{
    if rules.len() > 0 {
        lemma_rename_same_members(s, rules.drop_last());
        let t = apply_rename(s, rules.drop_last());
        lemma_fwi_range(t, rules.last().id);
        assert forall|j: int| 0 <= j < s.len() implies #[trigger] apply_rename(s, rules)[j].members == s[j].members by {
            assert(t[j].members == s[j].members);
        }
    }
}

/// Ordering rules leave the number of slices and their members alone.
proof fn lemma_order_same_members(s: Seq<SliceView>, rules: Seq<OrderView>)
    ensures
        apply_order(s, rules).0.len() == s.len(),
        forall|j: int| 0 <= j < s.len() ==> #[trigger] apply_order(s, rules).0[j].members == s[j].members,
    decreases rules.len(),
{
    if rules.len() > 0 {
        lemma_order_same_members(s, rules.drop_last());
        let t = apply_order(s, rules.drop_last()).0;
        lemma_fwi_range(t, rules.last().after);
        assert forall|j: int| 0 <= j < s.len() implies #[trigger] apply_order(s, rules).0[j].members == s[j].members by {
            assert(t[j].members == s[j].members);
        }
    }
}

/// The first planned slice is the manifest and lockfile slice whenever the
/// change has such a unit, and it keeps all of them.
proof fn lemma_planned_first_slice(u: Seq<UnitView>)
    requires
        pick_ids(u, Set::<Str>::empty(), KindFilter::ManifestOrLock).len() > 0,
    ensures
        planned(u).0.len() > 0,
        planned(u).0[0].id == "api-schema-workspace"@,
        forall|x: Str|
            pick_ids(u, Set::<Str>::empty(), KindFilter::ManifestOrLock).contains(x)
                ==> #[trigger] planned(u).0[0].members.contains(x),
{
    let a0 = Set::<Str>::empty();
    let ids0 = pick_ids(u, a0, KindFilter::ManifestOrLock);
    let s1 = phase_slices(u, a0, KindFilter::ManifestOrLock);
    let first = phase_view(u, KindFilter::ManifestOrLock, ids0);
    assert(s1 == seq![first]);
    lemma_sort_dedup(ids0);
    let a1 = after(u, a0, KindFilter::ManifestOrLock);
    let s2 = s1 + phase_slices(u, a1, KindFilter::Ops);
    let a2 = after(u, a1, KindFilter::Ops);
    let (s3, a3) = early(u);
    assert(s3 == s2 + phase_slices(u, a2, KindFilter::Mechanical));
    assert(s3[0] == first);
    let m = family_map(u, a3);
    let s4 = s3 + behavior_views(u, a3, s3);
    assert(s4[0] == first);
    let a4 = after(u, a3, KindFilter::Behavior);
    let init = AttachView { slices: s4, ambiguities: seq![], loose: seq![], taken: seq![] };
    let ids = pick_ids(u, a4, KindFilter::Attachable);
    let st = attach_all(u, m, init, ids);
    lemma_attach_all_keeps(u, m, init, ids);
    lemma_attach_skeleton(u, m, init, ids);
    let a5 = a4.union(st.taken.to_set());
    let s6 = st.slices + standalone_views(u, m, st.loose);
    let pre = s6 + phase_slices(u, a5, KindFilter::Any);
    assert(planned(u).0 == pre);
    assert(pre[0] == st.slices[0]);
    assert(st.slices[0].id == first.id);
    assert forall|x: Str| ids0.contains(x) implies #[trigger] pre[0].members.contains(x) by {
        assert(first.members.contains(x));
        assert(s4[0].members.contains(x));
        assert(st.slices[0].members.contains(x));
    }
}

/// The first slice is the manifest and lockfile slice and holds `id`.
pub open spec fn in_lockstep_slice(s: Seq<SliceView>, id: Str) -> bool {
    &&& s.len() > 0
    &&& s[0].id == "api-schema-workspace"@
    &&& s[0].members.contains(id)
}

/// Manifests and lockfiles move together: when no must_link or
/// force_members rule moves members between slices, the first slice of the
/// plan is the manifest and lockfile slice and holds every manifest and
/// lockfile unit of the change.
pub proof fn law_manifest_lock_together(
    source: SourceView,
    units: Seq<UnitView>,
    c: ConfigView,
    o: OverridesView,
    overrides_json: Seq<u8>,
)
    requires
        o.must_link.len() == 0,
        o.force_members.len() == 0,
    ensures
        forall|i: int|
            0 <= i < units.len() && (units[i].kind == UnitKind::Manifest || units[i].kind
                == UnitKind::Lockfile) ==> in_lockstep_slice(
                plan_spec(source, units, c, o, overrides_json).slices,
                #[trigger] units[i].id,
            ),
{
    let p = plan_spec(source, units, c, o, overrides_json);
    let u = crate::phases::sort_by_path(units);
    let a0 = Set::<Str>::empty();
    let ids0 = pick_ids(u, a0, KindFilter::ManifestOrLock);
    lemma_sort_by_path(units);
    assert forall|i: int|
        0 <= i < units.len() && (units[i].kind == UnitKind::Manifest || units[i].kind
            == UnitKind::Lockfile) implies in_lockstep_slice(p.slices, #[trigger] units[i].id) by {
        let x = units[i];
        assert(units.contains(x));
        assert(u.contains(x));
        let q = choose|q: int| 0 <= q < u.len() && u[q] == x;
        lemma_pick_contains(u, a0, KindFilter::ManifestOrLock, x.id);
        assert(u[q].id == x.id && accepts(KindFilter::ManifestOrLock, u[q].kind));
        assert(ids0.contains(x.id));
        lemma_planned_first_slice(u);
        let pre = planned(u).0;
        assert(pre[0].members.contains(x.id));
        let s1 = apply_must_link(pre, o.must_link);
        assert(s1 == pre);
        let s2 = apply_force(s1, o.force_members);
        assert(s2 == pre);
        let s3 = apply_rename(s2, o.rename_slices);
        lemma_rename_same_members(s2, o.rename_slices);
        lemma_apply_rename_extends(s2, o.rename_slices);
        lemma_order_same_members(s3, o.must_order);
        lemma_apply_order(s3, o.must_order);
        let post = apply_order(s3, o.must_order).0;
        assert(post == p.slices);
        assert(post[0].members == s3[0].members);
        assert(s3[0].members == pre[0].members);
    }
}

// ---------------------------------------------------------------------------
// Tests, docs and generated files follow their family
// ---------------------------------------------------------------------------

proof fn lemma_attach_all_split(
    u: Seq<UnitView>,
    m: Seq<(Str, Str)>,
    st: AttachView,
    a: Seq<Str>,
    b: Seq<Str>,
)
    ensures
        attach_all(u, m, st, a + b) == attach_all(u, m, attach_all(u, m, st, a), b),
    decreases b.len(),
{
    if b.len() == 0 {
        assert(a + b =~= a);
    } else {
        lemma_attach_all_split(u, m, st, a, b.drop_last());
        assert((a + b).drop_last() =~= a + b.drop_last());
        assert((a + b).last() == b.last());
    }
}

proof fn lemma_lookup_family_map(keys: Seq<Str>, f: Str)
    requires
        keys.contains(f),
    ensures
        lookup_family(keys.map_values(|g: Str| (g, behavior_id(g))), f) == Some(behavior_id(f)),
    decreases keys.len(),
{
    let m = keys.map_values(|g: Str| (g, behavior_id(g)));
    if keys[0] != f {
        let t = keys.drop_first();
        let q = choose|q: int| 0 <= q < keys.len() && keys[q] == f;
        assert(t[q - 1] == f);
        lemma_lookup_family_map(t, f);
        assert(m.drop_first() =~= t.map_values(|g: Str| (g, behavior_id(g))));
    }
}

/// With distinct ids, a unit whose kind a phase does not take stays
/// unassigned through that phase.
proof fn lemma_not_after(u: Seq<UnitView>, a: Set<Str>, f: KindFilter, w: UnitView)
    requires
        ids_unique(u),
        u.contains(w),
        !a.contains(w.id),
        !accepts(f, w.kind),
    ensures
        !after(u, a, f).contains(w.id),
{
    lemma_pick_contains(u, a, f, w.id);
    let iw = choose|iw: int| 0 <= iw < u.len() && u[iw] == w;
    if pick_ids(u, a, f).contains(w.id) {
        let i = choose|i: int| 0 <= i < u.len() && #[trigger] u[i].id == w.id && !a.contains(w.id)
            && accepts(f, u[i].kind);
        if i < iw {
            assert(u[i].id != u[iw].id);
        } else if iw < i {
            assert(u[iw].id != u[i].id);
        }
    }
    assert(pick_ids(u, a, f).to_set().contains(w.id) == pick_ids(u, a, f).contains(w.id));
}

/// An attachable unit of a family with behavior changes is planned into
/// that family's behavior slice.
proof fn lemma_attached_to_family(u: Seq<UnitView>, x: UnitView, y: UnitView)
    requires
        ids_unique(u),
        u.contains(x),
        u.contains(y),
        accepts(KindFilter::Attachable, x.kind),
        y.kind == UnitKind::Behavior,
        y.family == x.family,
    ensures
        exists|k: int|
            0 <= k < planned(u).0.len() && planned(u).0[k].id == behavior_id(x.family)
                && planned(u).0[k].members.contains(x.id),
{
    let f = x.family;
    let bid = behavior_id(f);
    let a0 = Set::<Str>::empty();
    let a1 = after(u, a0, KindFilter::ManifestOrLock);
    let a2 = after(u, a1, KindFilter::Ops);
    let (s3, a3) = early(u);
    assert(a3 == after(u, a2, KindFilter::Mechanical));
    lemma_not_after(u, a0, KindFilter::ManifestOrLock, y);
    lemma_not_after(u, a1, KindFilter::Ops, y);
    lemma_not_after(u, a2, KindFilter::Mechanical, y);
    lemma_not_after(u, a0, KindFilter::ManifestOrLock, x);
    lemma_not_after(u, a1, KindFilter::Ops, x);
    lemma_not_after(u, a2, KindFilter::Mechanical, x);
    let a4 = after(u, a3, KindFilter::Behavior);
    lemma_not_after(u, a3, KindFilter::Behavior, x);
    // The family has a behavior slice.
    let iy = choose|iy: int| 0 <= iy < u.len() && u[iy] == y;
    lemma_behavior_family_list(u, a3, f);
    assert(u[iy].family == f);
    let keys = behavior_families(u, a3);
    lemma_sort_dedup(behavior_family_list(u, a3));
    assert(keys.contains(f));
    let m = family_map(u, a3);
    lemma_lookup_family_map(keys, f);
    assert(lookup_family(m, f) == Some(bid));
    let w = choose|w: int| 0 <= w < keys.len() && keys[w] == f;
    let bv = behavior_views(u, a3, s3);
    let s4 = s3 + bv;
    assert(s4[s3.len() + w] == bv[w]);
    assert(s4[s3.len() + w].id == bid);
    // The unit is among the attachable ids.
    let ids = pick_ids(u, a4, KindFilter::Attachable);
    let ix = choose|ix: int| 0 <= ix < u.len() && u[ix] == x;
    lemma_pick_contains(u, a4, KindFilter::Attachable, x.id);
    assert(u[ix].id == x.id);
    assert(ids.contains(x.id));
    let q = choose|q: int| 0 <= q < ids.len() && ids[q] == x.id;
    let init = AttachView { slices: s4, ambiguities: seq![], loose: seq![], taken: seq![] };
    let head = ids.take(q);
    let rest = ids.skip(q + 1);
    let st0 = attach_all(u, m, init, head);
    lemma_attach_skeleton(u, m, init, head);
    assert(st0.slices[s3.len() + w].id == bid);
    lemma_first_found(st0.slices, bid);
    let k = first_with_id(st0.slices, bid);
    // The attachment step for the unit.
    assert(is_unit_id(u, x.id)) by {
        assert(u[ix].id == x.id);
    }
    lemma_lookup_unit(u, x.id);
    let v = lookup_unit(u, x.id)->0;
    let iv = choose|iv: int| 0 <= iv < u.len() && u[iv] == v;
    if iv < ix {
        assert(u[iv].id != u[ix].id);
    } else if ix < iv {
        assert(u[ix].id != u[iv].id);
    }
    assert(v == x);
    let st1 = attach_step(u, m, st0, x.id);
    assert(ids.take(q + 1).drop_last() =~= head);
    assert(ids.take(q + 1).last() == x.id);
    assert(attach_all(u, m, init, ids.take(q + 1)) == st1);
    lemma_sort_dedup(st0.slices[k].members.push(x.id));
    assert(st0.slices[k].members.push(x.id)[st0.slices[k].members.len() as int] == x.id);
    assert(st1.slices[k].members.contains(x.id));
    assert(st1.slices[k].id == bid);
    // Later steps keep it.
    assert(ids =~= ids.take(q + 1) + rest);
    lemma_attach_all_split(u, m, init, ids.take(q + 1), rest);
    let st = attach_all(u, m, init, ids);
    assert(st == attach_all(u, m, st1, rest));
    lemma_attach_all_keeps(u, m, st1, rest);
    lemma_attach_skeleton(u, m, st1, rest);
    assert(st.slices[k].members.contains(x.id));
    assert(st.slices[k].id == bid);
    let a5 = a4.union(st.taken.to_set());
    let s6 = st.slices + standalone_views(u, m, st.loose);
    let pre = s6 + phase_slices(u, a5, KindFilter::Any);
    assert(planned(u).0 == pre);
    assert(pre[k] == st.slices[k]);
}

/// Some slice named `id` holds `member`.
pub open spec fn held_by(s: Seq<SliceView>, id: Str, member: Str) -> bool {
    exists|k: int| 0 <= k < s.len() && s[k].id == id && s[k].members.contains(member)
}

/// Tests, docs and generated files follow their family: in a plan built
/// without must_link or force_members rules, from units with distinct ids,
/// such a unit whose family also has a behavior change sits in that
/// family's behavior slice.
pub proof fn law_attachable_follow_family(
    source: SourceView,
    units: Seq<UnitView>,
    c: ConfigView,
    o: OverridesView,
    overrides_json: Seq<u8>,
)
    requires
        ids_unique(units),
        o.must_link.len() == 0,
        o.force_members.len() == 0,
    ensures
        forall|i: int, j: int|
            #![trigger units[i].id, units[j].family]
            0 <= i < units.len() && 0 <= j < units.len() && accepts(
                KindFilter::Attachable,
                units[i].kind,
            ) && units[j].kind == UnitKind::Behavior && units[j].family == units[i].family
                ==> held_by(
                plan_spec(source, units, c, o, overrides_json).slices,
                behavior_id(units[i].family),
                units[i].id,
            ),
{
    let p = plan_spec(source, units, c, o, overrides_json);
    let u = crate::phases::sort_by_path(units);
    lemma_sort_by_path(units);
    let pre = planned(u).0;
    lemma_members_stay(pre, o);
    assert(p.slices == apply_spec(pre, o).0);
    assert forall|i: int, j: int|
        #![trigger units[i].id, units[j].family]
        0 <= i < units.len() && 0 <= j < units.len() && accepts(
            KindFilter::Attachable,
            units[i].kind,
        ) && units[j].kind == UnitKind::Behavior && units[j].family == units[i].family
            implies held_by(p.slices, behavior_id(units[i].family), units[i].id) by {
        assert(units.contains(units[i]));
        assert(units.contains(units[j]));
        lemma_attached_to_family(u, units[i], units[j]);
        let k = choose|k: int|
            0 <= k < pre.len() && pre[k].id == behavior_id(units[i].family)
                && pre[k].members.contains(units[i].id);
        assert(p.slices[k].id == pre[k].id && p.slices[k].members == pre[k].members);
    }
}

// ---------------------------------------------------------------------------
// Ambiguous roots stay explicit
// ---------------------------------------------------------------------------

/// The ambiguity is about one root-family unit of `u`, named by its path.
pub open spec fn names_root_unit(u: Seq<UnitView>, a: crate::model::AmbiguityView) -> bool {
    exists|i: int|
        0 <= i < u.len() && #[trigger] u[i].family == "root"@ && a.affected_units == seq![u[i].id]
            && a.id == "ambiguity-"@ + crate::slug::slug(u[i].path)
}

proof fn lemma_attach_ambiguities(u: Seq<UnitView>, m: Seq<(Str, Str)>, st: AttachView, ids: Seq<Str>)
    requires
        forall|k: int| 0 <= k < st.ambiguities.len() ==> names_root_unit(u, #[trigger] st.ambiguities[k]),
    ensures
        forall|k: int|
            0 <= k < attach_all(u, m, st, ids).ambiguities.len() ==> names_root_unit(
                u,
                #[trigger] attach_all(u, m, st, ids).ambiguities[k],
            ),
    decreases ids.len(),
{
    if ids.len() > 0 {
        lemma_attach_ambiguities(u, m, st, ids.drop_last());
        let t = attach_all(u, m, st, ids.drop_last());
        let r = attach_step(u, m, t, ids.last());
        if lookup_unit(u, ids.last()) is Some {
            let x = lookup_unit(u, ids.last())->0;
            if r.ambiguities.len() > t.ambiguities.len() {
                assert(is_unit_id(u, ids.last())) by {
                    lemma_lookup_unit_found(u, ids.last());
                }
                lemma_lookup_unit(u, ids.last());
                let i = choose|i: int| 0 <= i < u.len() && u[i] == x;
                assert forall|k: int| 0 <= k < r.ambiguities.len() implies names_root_unit(
                    u,
                    #[trigger] r.ambiguities[k],
                ) by {
                    if k == t.ambiguities.len() {
                        assert(r.ambiguities[k] == crate::attach::root_ambiguity(x, m));
                        assert(u[i].family == "root"@);
                    } else {
                        assert(r.ambiguities[k] == t.ambiguities[k]);
                    }
                }
            }
        }
    }
}

proof fn lemma_lookup_unit_found(u: Seq<UnitView>, id: Str)
    requires
        lookup_unit(u, id) is Some,
    ensures
        is_unit_id(u, id),
    decreases u.len(),
{
    if u.last().id == id {
        assert(u[u.len() - 1].id == id);
    } else {
        lemma_lookup_unit_found(u.drop_last(), id);
        let i = choose|i: int| 0 <= i < u.len() - 1 && #[trigger] u.drop_last()[i].id == id;
        assert(u[i].id == id);
    }
}

/// Ambiguous roots stay explicit: every ambiguity of a plan is about one
/// root-family unit of the change, named by its id and path, and a plan
/// with ambiguities carries the warning that says so.
pub proof fn law_ambiguities_explicit(
    source: SourceView,
    units: Seq<UnitView>,
    c: ConfigView,
    o: OverridesView,
    overrides_json: Seq<u8>,
)
    ensures
        forall|k: int|
            0 <= k < plan_spec(source, units, c, o, overrides_json).ambiguities.len()
                ==> names_root_unit(
                units,
                #[trigger] plan_spec(source, units, c, o, overrides_json).ambiguities[k],
            ),
        plan_spec(source, units, c, o, overrides_json).ambiguities.len() > 0 ==> plan_spec(
            source,
            units,
            c,
            o,
            overrides_json,
        ).diagnostics.contains(crate::planner::ambiguity_diag()),
{
    let p = plan_spec(source, units, c, o, overrides_json);
    let u = crate::phases::sort_by_path(units);
    lemma_sort_by_path(units);
    let (s3, a3) = early(u);
    let m = family_map(u, a3);
    let s4 = s3 + behavior_views(u, a3, s3);
    let a4 = after(u, a3, KindFilter::Behavior);
    let init = AttachView { slices: s4, ambiguities: seq![], loose: seq![], taken: seq![] };
    let ids = pick_ids(u, a4, KindFilter::Attachable);
    lemma_attach_ambiguities(u, m, init, ids);
    assert(p.ambiguities == attach_all(u, m, init, ids).ambiguities);
    assert forall|k: int| 0 <= k < p.ambiguities.len() implies names_root_unit(
        units,
        #[trigger] p.ambiguities[k],
    ) by {
        let a = p.ambiguities[k];
        assert(names_root_unit(u, a));
        let i = choose|i: int|
            0 <= i < u.len() && #[trigger] u[i].family == "root"@ && a.affected_units == seq![u[i].id]
                && a.id == "ambiguity-"@ + crate::slug::slug(u[i].path);
        assert(u.contains(u[i]));
        assert(units.contains(u[i]));
        let j = choose|j: int| 0 <= j < units.len() && units[j] == u[i];
        assert(units[j].family == "root"@);
    }
    if p.ambiguities.len() > 0 {
        let pre = planned(u).0;
        let (post, ad) = apply_spec(pre, o);
        let sd = crate::validate::structural_diags(u, post);
        assert(p.diagnostics[sd.len() as int] == crate::planner::ambiguity_diag());
    }
}

// ---------------------------------------------------------------------------
// The order in which units are listed does not matter
// ---------------------------------------------------------------------------

/// No two units share a path.
pub open spec fn paths_distinct(u: Seq<UnitView>) -> bool {
    forall|i: int, j: int| 0 <= i < j < u.len() ==> #[trigger] u[i].path != #[trigger] u[j].path
}

/// The units' paths strictly increase.
pub open spec fn path_sorted(u: Seq<UnitView>) -> bool {
    forall|i: int, j: int| 0 <= i < j < u.len() ==> crate::order::str_lt(#[trigger] u[i].path, #[trigger] u[j].path)
}

proof fn lemma_insert_by_path_sorted(s: Seq<UnitView>, x: UnitView)
    requires
        path_sorted(s),
        forall|k: int| 0 <= k < s.len() ==> #[trigger] s[k].path != x.path,
    ensures
        path_sorted(crate::phases::insert_by_path(s, x)),
    decreases s.len(),
{
    crate::order::lemma_lt_order();
    let r = crate::phases::insert_by_path(s, x);
    if s.len() == 0 {
    } else if crate::order::str_lt(x.path, s[0].path) {
        assert(r == seq![x] + s);
        assert forall|i: int, j: int| 0 <= i < j < r.len() implies crate::order::str_lt(
            #[trigger] r[i].path,
            #[trigger] r[j].path,
        ) by {
            if i == 0 {
                assert(r[j] == s[j - 1]);
                if j > 1 {
                    assert(crate::order::str_lt(s[0].path, s[j - 1].path));
                }
            } else {
                assert(r[i] == s[i - 1] && r[j] == s[j - 1]);
            }
        }
    } else {
        assert(s[0].path != x.path);
        assert(crate::order::str_lt(s[0].path, x.path));
        let t = s.drop_first();
        assert forall|i: int, j: int| 0 <= i < j < t.len() implies crate::order::str_lt(
            #[trigger] t[i].path,
            #[trigger] t[j].path,
        ) by {
            assert(t[i] == s[i + 1] && t[j] == s[j + 1]);
        }
        assert forall|k: int| 0 <= k < t.len() implies #[trigger] t[k].path != x.path by {
            assert(t[k] == s[k + 1]);
        }
        lemma_insert_by_path_sorted(t, x);
        let it = crate::phases::insert_by_path(t, x);
        let jt = crate::counting::lemma_insert_by_path_place(t, x);
        assert(r == seq![s[0]] + it);
        assert forall|i: int, j: int| 0 <= i < j < r.len() implies crate::order::str_lt(
            #[trigger] r[i].path,
            #[trigger] r[j].path,
        ) by {
            if i == 0 {
                assert(r[j] == it[j - 1]);
                if j - 1 < jt {
                    assert(it[j - 1] == t[j - 1]);
                    assert(t[j - 1] == s[j]);
                } else if j - 1 > jt {
                    assert(it[j - 1] == t[j - 2]);
                    assert(t[j - 2] == s[j - 1]);
                }
            } else {
                assert(r[i] == it[i - 1] && r[j] == it[j - 1]);
            }
        }
    }
}

proof fn lemma_sort_by_path_sorted(u: Seq<UnitView>)
    requires
        paths_distinct(u),
    ensures
        path_sorted(crate::phases::sort_by_path(u)),
    decreases u.len(),
{
    if u.len() > 0 {
        let t = u.drop_last();
        let x = u.last();
        assert forall|i: int, j: int| 0 <= i < j < t.len() implies #[trigger] t[i].path != #[trigger] t[j].path by {
            assert(t[i] == u[i] && t[j] == u[j]);
        }
        lemma_sort_by_path_sorted(t);
        lemma_sort_by_path(t);
        let st = crate::phases::sort_by_path(t);
        assert forall|k: int| 0 <= k < st.len() implies #[trigger] st[k].path != x.path by {
            assert(st.contains(st[k]));
            assert(t.contains(st[k]));
            let q = choose|q: int| 0 <= q < t.len() && t[q] == st[k];
            assert(u[q] == t[q]);
            assert(u[u.len() - 1] == x);
        }
        lemma_insert_by_path_sorted(st, x);
    }
}

proof fn lemma_path_sorted_unique(a: Seq<UnitView>, b: Seq<UnitView>)
    requires
        path_sorted(a),
        path_sorted(b),
        forall|y: UnitView| a.contains(y) <==> b.contains(y),
    ensures
        a == b,
    decreases a.len(),
{
    crate::order::lemma_lt_order();
    if a.len() == 0 {
        if b.len() > 0 {
            assert(b.contains(b[0]));
        }
        assert(a =~= b);
    } else {
        assert(a.contains(a[0]));
        assert(b.contains(a[0]));
        assert(b.len() > 0);
        assert(b.contains(b[0]));
        assert(a.contains(b[0]));
        let ka = choose|k: int| 0 <= k < a.len() && a[k] == b[0];
        let kb = choose|k: int| 0 <= k < b.len() && b[k] == a[0];
        if ka > 0 {
            assert(crate::order::str_lt(a[0].path, a[ka].path));
            if kb > 0 {
                assert(crate::order::str_lt(b[0].path, b[kb].path));
            }
        }
        if kb > 0 {
            assert(crate::order::str_lt(b[0].path, b[kb].path));
        }
        assert(a[0] == b[0]);
        let ta = a.drop_first();
        let tb = b.drop_first();
        assert forall|i: int, j: int| 0 <= i < j < ta.len() implies crate::order::str_lt(
            #[trigger] ta[i].path,
            #[trigger] ta[j].path,
        ) by {
            assert(ta[i] == a[i + 1] && ta[j] == a[j + 1]);
        }
        assert forall|i: int, j: int| 0 <= i < j < tb.len() implies crate::order::str_lt(
            #[trigger] tb[i].path,
            #[trigger] tb[j].path,
        ) by {
            assert(tb[i] == b[i + 1] && tb[j] == b[j + 1]);
        }
        assert forall|y: UnitView| ta.contains(y) <==> tb.contains(y) by {
            if ta.contains(y) {
                let k = choose|k: int| 0 <= k < ta.len() && ta[k] == y;
                assert(a[k + 1] == y);
                assert(crate::order::str_lt(a[0].path, a[k + 1].path));
                assert(b.contains(y));
                let q = choose|q: int| 0 <= q < b.len() && b[q] == y;
                assert(q != 0);
                assert(tb[q - 1] == y);
            }
            if tb.contains(y) {
                let k = choose|k: int| 0 <= k < tb.len() && tb[k] == y;
                assert(b[k + 1] == y);
                assert(crate::order::str_lt(b[0].path, b[k + 1].path));
                assert(a.contains(y));
                let q = choose|q: int| 0 <= q < a.len() && a[q] == y;
                assert(q != 0);
                assert(ta[q - 1] == y);
            }
        }
        lemma_path_sorted_unique(ta, tb);
        assert(a =~= seq![a[0]] + ta);
        assert(b =~= seq![b[0]] + tb);
    }
}

/// The plan does not depend on the order in which the changed files are
/// listed: two lists of the same units, each without repeated paths, give
/// the same plan.
pub proof fn law_plan_ignores_unit_order(
    source: SourceView,
    units1: Seq<UnitView>,
    units2: Seq<UnitView>,
    c: ConfigView,
    o: OverridesView,
    overrides_json: Seq<u8>,
)
    requires
        paths_distinct(units1),
        paths_distinct(units2),
        forall|y: UnitView| units1.contains(y) <==> units2.contains(y),
    ensures
        plan_spec(source, units1, c, o, overrides_json) == plan_spec(
            source,
            units2,
            c,
            o,
            overrides_json,
        ),
{
    let u1 = crate::phases::sort_by_path(units1);
    let u2 = crate::phases::sort_by_path(units2);
    lemma_sort_by_path(units1);
    lemma_sort_by_path(units2);
    lemma_sort_by_path_sorted(units1);
    lemma_sort_by_path_sorted(units2);
    assert forall|y: UnitView| u1.contains(y) <==> u2.contains(y) by {
        assert(u1.contains(y) <==> units1.contains(y));
        assert(u2.contains(y) <==> units2.contains(y));
    }
    lemma_path_sorted_unique(u1, u2);
}

// ---------------------------------------------------------------------------
// Every unit once, whatever the overrides
// ---------------------------------------------------------------------------

/// A slice that repeats the id of an earlier slice has no members.
pub open spec fn shadows_empty(s: Seq<SliceView>) -> bool {
    forall|i: int, j: int|
        0 <= i < j < s.len() && #[trigger] s[i].id == #[trigger] s[j].id ==> s[j].members.len() == 0
}

/// Each slice lists its members once, each unit sits in one slice, and
/// only the first slice with an id holds members.
pub open spec fn placed_once(s: Seq<SliceView>, u: Seq<UnitView>) -> bool {
    &&& members_distinct(s)
    &&& shadows_empty(s)
    &&& forall|x: Str| #[trigger] is_unit_id(u, x) ==> member_count(s, x) == 1
}

/// No slice before the first with an id has that id.
proof fn lemma_fwi_min(s: Seq<SliceView>, id: Str)
    ensures
        forall|j: int| 0 <= j < first_with_id(s, id) && j < s.len() ==> #[trigger] s[j].id != id,
    decreases s.len(),
{
    if s.len() > 0 && s[0].id != id {
        lemma_fwi_min(s.drop_first(), id);
        assert forall|j: int| 0 <= j < first_with_id(s, id) && j < s.len() implies #[trigger] s[j].id != id by {
            if j > 0 {
                assert(s.drop_first()[j - 1] == s[j]);
            }
        }
    }
}

/// Filtering an empty list leaves it empty.
proof fn lemma_filter_empty(m: Seq<Str>, p: spec_fn(Str) -> bool)
    requires
        m.len() == 0,
    ensures
        m.filter(p).len() == 0,
{
    m.lemma_filter_len(p);
}

proof fn lemma_occ_filter(mem: Seq<Str>, pred: spec_fn(Str) -> bool, x: Str)
    ensures
        occurrences(mem.filter(pred), x) == if pred(x) {
            occurrences(mem, x)
        } else {
            0nat
        },
        no_dups(mem) ==> no_dups(mem.filter(pred)),
    decreases mem.len(),
{
    reveal(Seq::filter);
    if mem.len() > 0 {
        let t = mem.drop_last();
        lemma_occ_filter(t, pred, x);
        let ft = t.filter(pred);
        if no_dups(mem) {
            assert(no_dups(t));
            if pred(mem.last()) {
                let f = ft.push(mem.last());
                assert forall|i: int, j: int| 0 <= i < j < f.len() implies f[i] != f[j] by {
                    if j == ft.len() {
                        assert(ft.contains(ft[i]));
                        t.lemma_filter_contains_rev(pred, ft[i]);
                        let q = choose|q: int| 0 <= q < t.len() && t[q] == ft[i];
                        assert(mem[q] == t[q]);
                        assert(mem[mem.len() - 1] == mem.last());
                    }
                }
            }
        }
        if pred(mem.last()) {
            assert(mem.filter(pred) == ft.push(mem.last()));
            assert(ft.push(mem.last()).drop_last() =~= ft);
        }
    }
}

/// Stripping `m` from slices keeps every other member's count.
proof fn lemma_strip_count_other(s: Seq<SliceView>, m: Str, target: Str, x: Str)
    requires
        x != m,
    ensures
        member_count(s.map_values(|sl: SliceView| strip_member(sl, m, target)), x) == member_count(
            s,
            x,
        ),
    decreases s.len(),
{
    if s.len() > 0 {
        let t = s.map_values(|sl: SliceView| strip_member(sl, m, target));
        lemma_strip_count_other(s.drop_last(), m, target, x);
        assert(t.drop_last() =~= s.drop_last().map_values(|sl: SliceView| strip_member(sl, m, target)));
        lemma_occ_filter(s.last().members, other_than(m), x);
        assert(t.last() == strip_member(s.last(), m, target));
        if s.last().id != target {
            assert(t.last().members == s.last().members.filter(other_than(m)));
        }
    }
}

/// Moving a member to a slice that exists, among slices with distinct ids,
/// keeps each unit in one slice.
proof fn lemma_move_once(s: Seq<SliceView>, m: Str, target: Str, u: Seq<UnitView>)
    requires
        placed_once(s, u),
        is_slice_id(s, target),
    ensures
        placed_once(move_member_spec(s, m, target), u),
{
    let t = s.map_values(|sl: SliceView| strip_member(sl, m, target));
    lemma_first_found(s, target);
    lemma_fwi_min(s, target);
    let k = first_with_id(s, target);
    assert(t[k] == s[k]);
    let nk = SliceView { members: sort_dedup(t[k].members.push(m)), ..t[k] };
    let r = t.update(k, nk);
    assert(move_member_spec(s, m, target) == r);
    lemma_sort_dedup_no_dups(t[k].members.push(m));
    assert(no_dups(s[k].members));
    assert forall|j: int| 0 <= j < r.len() implies no_dups(#[trigger] r[j].members) by {
        if j != k {
            assert(r[j] == strip_member(s[j], m, target));
            assert(no_dups(s[j].members));
            lemma_occ_filter(s[j].members, other_than(m), m);
            if s[j].id != target {
                assert(r[j].members == s[j].members.filter(other_than(m)));
            }
        }
    }
    assert forall|x: Str| #[trigger] is_unit_id(u, x) implies member_count(r, x) == 1 by {
        lemma_member_count_update(t, k, nk, x);
        lemma_occ_no_dups(t[k].members, x);
        lemma_occ_no_dups(nk.members, x);
        assert(t[k].members.push(m)[t[k].members.len() as int] == m);
        if x != m {
            lemma_strip_count_other(s, m, target, x);
            assert(t[k].members.push(m).contains(x) <==> t[k].members.contains(x)) by {
                if t[k].members.push(m).contains(x) {
                    let q = choose|q: int| 0 <= q < t[k].members.push(m).len() && t[k].members.push(m)[q] == x;
                    assert(t[k].members[q] == x);
                }
                if t[k].members.contains(x) {
                    let q = choose|q: int| 0 <= q < t[k].members.len() && t[k].members[q] == x;
                    assert(t[k].members.push(m)[q] == x);
                }
            }
        } else {
            let empty = SliceView { members: Seq::<Str>::empty(), ..t[k] };
            let t0 = t.update(k, empty);
            assert forall|j: int| 0 <= j < t0.len() implies !(#[trigger] t0[j].members.contains(m)) by {
                if j != k {
                    assert(t0[j] == strip_member(s[j], m, target));
                    if s[j].id == target {
                        assert(j > k);
                        assert(s[k].id == s[j].id);
                        assert(s[j].members.len() == 0);
                    } else {
                        let f = s[j].members.filter(other_than(m));
                        if f.contains(m) {
                            let q = choose|q: int| 0 <= q < f.len() && f[q] == m;
                            s[j].members.lemma_filter_pred(other_than(m), q);
                        }
                    }
                }
            }
            lemma_member_count_absent(t0, m);
            lemma_member_count_update(t, k, empty, m);
            assert(empty.members.len() == 0);
            lemma_occ_absent(empty.members, m);
        }
    }
    assert forall|i: int, j: int|
        0 <= i < j < r.len() && #[trigger] r[i].id == #[trigger] r[j].id implies r[j].members.len()
            == 0 by {
        assert(r[i].id == s[i].id) by {
            if i != k {
                assert(r[i] == strip_member(s[i], m, target));
            }
        }
        assert(r[j].id == s[j].id) by {
            if j != k {
                assert(r[j] == strip_member(s[j], m, target));
            }
        }
        if j == k {
            assert(s[i].id != target);
        } else {
            assert(s[i].id == s[j].id);
            assert(s[j].members.len() == 0);
            assert(r[j] == strip_member(s[j], m, target));
            lemma_filter_empty(s[j].members, other_than(m));
        }
    }
}

proof fn lemma_move_all_once(s: Seq<SliceView>, ms: Seq<Str>, target: Str, u: Seq<UnitView>)
    requires
        placed_once(s, u),
        is_slice_id(s, target),
    ensures
        placed_once(move_all(s, ms, target), u),
    decreases ms.len(),
{
    if ms.len() > 0 {
        lemma_move_all_once(s, ms.drop_last(), target, u);
        let t = move_all(s, ms.drop_last(), target);
        lemma_move_all_extends(s, ms.drop_last(), target);
        let w = choose|w: int| 0 <= w < s.len() && #[trigger] s[w].id == target;
        assert(t[w].id == target);
        lemma_move_once(t, ms.last(), target, u);
    }
}

proof fn lemma_settle_once(s: Seq<SliceView>, id: Str, r: crate::model::ReasonView, u: Seq<UnitView>)
    requires
        placed_once(s, u),
    ensures
        placed_once(settle(s, id, r), u),
{
    let k = first_with_id(s, id);
    lemma_fwi_range(s, id);
    if k < s.len() {
        let nk = SliceView { members: sort_dedup(s[k].members), reasons: s[k].reasons.push(r), ..s[k] };
        let t = s.update(k, nk);
        assert(settle(s, id, r) == t);
        lemma_sort_dedup_no_dups(s[k].members);
        assert forall|j: int| 0 <= j < t.len() implies no_dups(#[trigger] t[j].members) by {
            if j != k {
                assert(t[j] == s[j]);
            }
        }
        assert forall|x: Str| #[trigger] is_unit_id(u, x) implies member_count(t, x) == 1 by {
            lemma_member_count_update(s, k, nk, x);
            lemma_occ_no_dups(s[k].members, x);
            lemma_occ_no_dups(nk.members, x);
        }
        lemma_fwi_min(s, id);
        assert forall|i: int, j: int|
            0 <= i < j < t.len() && #[trigger] t[i].id == #[trigger] t[j].id implies t[j].members.len()
                == 0 by {
            if j == k {
                assert(t[i].id == s[i].id);
                assert(s[i].id != id);
            } else {
                assert(t[j] == s[j]);
                assert(t[i].id == s[i].id);
            }
        }
    }
}

/// Pushing a slice without members keeps each unit in one slice.
proof fn lemma_push_empty_once(s: Seq<SliceView>, sl: SliceView, u: Seq<UnitView>)
    requires
        placed_once(s, u),
        sl.members.len() == 0,
    ensures
        placed_once(s.push(sl), u),
{
    let t = s.push(sl);
    assert forall|j: int| 0 <= j < t.len() implies no_dups(#[trigger] t[j].members) by {
        if j < s.len() {
            assert(t[j] == s[j]);
        }
    }
    assert forall|x: Str| #[trigger] is_unit_id(u, x) implies member_count(t, x) == 1 by {
        assert(t.drop_last() =~= s);
        lemma_occ_absent(sl.members, x);
    }
    assert forall|i: int, j: int|
        0 <= i < j < t.len() && #[trigger] t[i].id == #[trigger] t[j].id implies t[j].members.len()
            == 0 by {
        if j < s.len() {
            assert(t[i] == s[i] && t[j] == s[j]);
        }
    }
}

proof fn lemma_slice_of_member_id(s: Seq<SliceView>, m: Str)
    ensures
        crate::overrides::slice_of_member(s, m) matches Some(id) ==> is_slice_id(s, id),
    decreases s.len(),
{
    if s.len() > 0 && !s[0].members.contains(m) {
        lemma_slice_of_member_id(s.drop_first(), m);
        if crate::overrides::slice_of_member(s, m) is Some {
            let id = crate::overrides::slice_of_member(s, m)->0;
            let j = choose|j: int| 0 <= j < s.drop_first().len() && #[trigger] s.drop_first()[j].id == id;
            assert(s[j + 1].id == id);
        }
    } else if s.len() > 0 {
        assert(s[0].id == crate::overrides::slice_of_member(s, m)->0);
    }
}

proof fn lemma_first_anchor_id(s: Seq<SliceView>, ms: Seq<Str>)
    ensures
        crate::overrides::first_anchor(s, ms) matches Some(id) ==> is_slice_id(s, id),
    decreases ms.len(),
{
    if ms.len() > 0 {
        lemma_slice_of_member_id(s, ms[0]);
        lemma_first_anchor_id(s, ms.drop_first());
    }
}

proof fn lemma_must_link_once(s: Seq<SliceView>, rule: MustLinkView, u: Seq<UnitView>)
    requires
        placed_once(s, u),
    ensures
        placed_once(must_link_step(s, rule), u),
{
    if rule.members.len() > 0 {
        let anchor = crate::overrides::first_anchor(s, rule.members);
        let target = match anchor {
            Some(a) => a,
            None => crate::overrides::bundle_id(rule.members),
        };
        let bundle = crate::overrides::bundle_view(target);
        let base = if anchor is Some {
            s
        } else {
            s.push(bundle)
        };
        if anchor is None {
            assert(bundle.members =~= Seq::<Str>::empty());
            lemma_push_empty_once(s, bundle, u);
            assert(base[s.len() as int].id == target);
        } else {
            lemma_first_anchor_id(s, rule.members);
        }
        assert(is_slice_id(base, target));
        let moved = move_all(base, rule.members, target);
        let r = crate::model::reason_view(
            "override-must-link"@,
            crate::overrides::or_default(
                rule.reason,
                "Members were forced to stay together by override."@,
            ),
        );
        assert(settle(moved, target, r) == must_link_step(s, rule));
        lemma_move_all_once(base, rule.members, target, u);
        lemma_settle_once(moved, target, r, u);
    }
}

proof fn lemma_force_once(s: Seq<SliceView>, rule: ForceView, u: Seq<UnitView>)
    requires
        placed_once(s, u),
    ensures
        placed_once(force_step(s, rule), u),
{
    let fv = crate::overrides::forced_view(rule.slice);
    let base = if is_slice_id(s, rule.slice) {
        s
    } else {
        s.push(fv)
    };
    if !is_slice_id(s, rule.slice) {
        assert(fv.members =~= Seq::<Str>::empty());
        lemma_push_empty_once(s, fv, u);
        assert(base[s.len() as int].id == rule.slice);
    }
    assert(is_slice_id(base, rule.slice));
    let moved = move_member_spec(base, rule.member, rule.slice);
    let r = crate::model::reason_view(
        "override-force-member"@,
        crate::overrides::or_default(rule.reason, "Member was forced into this slice by override."@),
    );
    assert(settle(moved, rule.slice, r) == force_step(s, rule));
    lemma_move_once(base, rule.member, rule.slice, u);
    lemma_settle_once(moved, rule.slice, r, u);
}

proof fn lemma_apply_must_link_once(s: Seq<SliceView>, rules: Seq<MustLinkView>, u: Seq<UnitView>)
    requires
        placed_once(s, u),
    ensures
        placed_once(apply_must_link(s, rules), u),
    decreases rules.len(),
{
    if rules.len() > 0 {
        let t = apply_must_link(s, rules.drop_last());
        lemma_apply_must_link_once(s, rules.drop_last(), u);
        lemma_must_link_once(t, rules.last(), u);
    }
}

proof fn lemma_apply_force_once(s: Seq<SliceView>, rules: Seq<ForceView>, u: Seq<UnitView>)
    requires
        placed_once(s, u),
    ensures
        placed_once(apply_force(s, rules), u),
    decreases rules.len(),
{
    if rules.len() > 0 {
        let t = apply_force(s, rules.drop_last());
        lemma_apply_force_once(s, rules.drop_last(), u);
        lemma_force_once(t, rules.last(), u);
    }
}

/// Slices with the same members, one for one, count members alike.
proof fn lemma_same_members_count(s: Seq<SliceView>, t: Seq<SliceView>, x: Str)
    requires
        s.len() == t.len(),
        forall|j: int| 0 <= j < s.len() ==> #[trigger] t[j].members == s[j].members,
    ensures
        member_count(t, x) == member_count(s, x),
    decreases s.len(),
{
    if s.len() > 0 {
        let s1 = s.drop_last();
        let t1 = t.drop_last();
        assert forall|j: int| 0 <= j < s1.len() implies #[trigger] t1[j].members == s1[j].members by {
            assert(t[j].members == s[j].members);
        }
        lemma_same_members_count(s1, t1, x);
        assert(t[t.len() - 1].members == s[s.len() - 1].members);
    }
}

/// The slices planned for the units, before any override, have distinct
/// ids: a condition on the units alone.
pub open spec fn planned_ids_distinct(units: Seq<UnitView>) -> bool {
    ids_distinct(planned(crate::phases::sort_by_path(units)).0)
}

/// Every unit sits in exactly one slice of a plan, whatever the override
/// rules, when no two units share an id and the slices planned for the
/// units have distinct ids.
pub proof fn law_every_unit_once_with_overrides(
    source: SourceView,
    units: Seq<UnitView>,
    c: ConfigView,
    o: OverridesView,
    overrides_json: Seq<u8>,
)
    requires
        ids_unique(units),
        planned_ids_distinct(units),
    ensures
        forall|i: int|
            0 <= i < plan_spec(source, units, c, o, overrides_json).units.len() ==> member_count(
                plan_spec(source, units, c, o, overrides_json).slices,
                #[trigger] plan_spec(source, units, c, o, overrides_json).units[i].id,
            ) == 1,
{
    let p = plan_spec(source, units, c, o, overrides_json);
    let u = crate::phases::sort_by_path(units);
    lemma_sort_by_path(units);
    lemma_planned_once(u);
    let pre = planned(u).0;
    assert(shadows_empty(pre));
    let s1 = apply_must_link(pre, o.must_link);
    let s2 = apply_force(s1, o.force_members);
    let s3 = apply_rename(s2, o.rename_slices);
    let post = apply_order(s3, o.must_order).0;
    assert(post == p.slices);
    lemma_apply_must_link_once(pre, o.must_link, u);
    lemma_apply_force_once(s1, o.force_members, u);
    lemma_rename_same_members(s2, o.rename_slices);
    lemma_order_same_members(s3, o.must_order);
    assert forall|i: int| 0 <= i < p.units.len() implies member_count(p.slices, #[trigger] p.units[i].id) == 1 by {
        let x = u[i].id;
        assert(is_unit_id(u, x));
        lemma_same_members_count(s2, s3, x);
        lemma_same_members_count(s3, post, x);
    }
}

/// Distinct slice ids in a plan mean distinct ids among the slices planned
/// before the overrides.
proof fn lemma_planned_distinct_from_plan(
    source: SourceView,
    units: Seq<UnitView>,
    c: ConfigView,
    o: OverridesView,
    overrides_json: Seq<u8>,
)
    requires
        ids_distinct(plan_spec(source, units, c, o, overrides_json).slices),
    ensures
        planned_ids_distinct(units),
{
    let u = crate::phases::sort_by_path(units);
    let pre = planned(u).0;
    let s1 = apply_must_link(pre, o.must_link);
    let s2 = apply_force(s1, o.force_members);
    let s3 = apply_rename(s2, o.rename_slices);
    let post = apply_order(s3, o.must_order).0;
    assert(post == plan_spec(source, units, c, o, overrides_json).slices);
    lemma_apply_order(s3, o.must_order);
    assert(ids_distinct(s3)) by {
        assert forall|i: int, j: int| 0 <= i < j < s3.len() implies #[trigger] s3[i].id != #[trigger] s3[j].id by {
            assert(post[i].id == s3[i].id);
            assert(post[j].id == s3[j].id);
        }
    }
    lemma_apply_must_link_extends(pre, o.must_link);
    lemma_apply_force_extends(s1, o.force_members);
    lemma_apply_rename_extends(s2, o.rename_slices);
    lemma_extends_trans(pre, s1, s2);
    lemma_extends_trans(pre, s2, s3);
    lemma_extends_distinct(pre, s3);
}

// ---------------------------------------------------------------------------
// Plans pass their own structural validation
// ---------------------------------------------------------------------------

/// No finding is an error.
pub open spec fn no_errors(d: Seq<crate::model::DiagView>) -> bool {
    forall|i: int| 0 <= i < d.len() ==> #[trigger] d[i].level != crate::model::DiagnosticLevel::Error
}

proof fn lemma_no_errors_add(a: Seq<crate::model::DiagView>, b: Seq<crate::model::DiagView>)
    requires
        no_errors(a),
        no_errors(b),
    ensures
        no_errors(a + b),
{
    assert forall|i: int| 0 <= i < (a + b).len() implies #[trigger] (a + b)[i].level
        != crate::model::DiagnosticLevel::Error by {
        if i < a.len() {
            assert((a + b)[i] == a[i]);
        } else {
            assert((a + b)[i] == b[i - a.len()]);
        }
    }
}

proof fn lemma_member_diags_empty(u: Seq<UnitView>, s: Seq<SliceView>)
    requires
        forall|i: int| 0 <= i < u.len() ==> member_count(s, #[trigger] u[i].id) == 1,
    ensures
        crate::validate::duplicate_diags(u, s).len() == 0,
        crate::validate::missing_member_diags(u, s).len() == 0,
    decreases u.len(),
{
    if u.len() > 0 {
        let t = u.drop_last();
        assert forall|i: int| 0 <= i < t.len() implies member_count(s, #[trigger] t[i].id) == 1 by {
            assert(t[i] == u[i]);
        }
        lemma_member_diags_empty(t, s);
        assert(member_count(s, u[u.len() - 1].id) == 1);
    }
}

proof fn lemma_empty_slice_diags_warn(s: Seq<SliceView>)
    ensures
        no_errors(crate::validate::empty_slice_diags(s)),
    decreases s.len(),
{
    if s.len() > 0 {
        lemma_empty_slice_diags_warn(s.drop_last());
        let tail = if s.last().members.len() == 0 {
            seq![crate::validate::empty_slice_diag(s.last().id)]
        } else {
            seq![]
        };
        lemma_no_errors_add(crate::validate::empty_slice_diags(s.drop_last()), tail);
    }
}

proof fn lemma_missing_dep_of_empty(all: Seq<SliceView>, id: Str, deps: Seq<Str>)
    requires
        forall|k: int| 0 <= k < deps.len() ==> is_slice_id(all, #[trigger] deps[k]),
    ensures
        crate::validate::missing_dep_diags_of(all, id, deps).len() == 0,
    decreases deps.len(),
{
    if deps.len() > 0 {
        let t = deps.drop_last();
        assert forall|k: int| 0 <= k < t.len() implies is_slice_id(all, #[trigger] t[k]) by {
            assert(t[k] == deps[k]);
        }
        lemma_missing_dep_of_empty(all, id, t);
        assert(is_slice_id(all, deps[deps.len() - 1]));
    }
}

proof fn lemma_missing_deps_empty(all: Seq<SliceView>, s: Seq<SliceView>)
    requires
        forall|i: int, k: int|
            0 <= i < s.len() && 0 <= k < s[i].depends_on.len() ==> is_slice_id(
                all,
                #[trigger] s[i].depends_on[k],
            ),
    ensures
        crate::validate::missing_dep_diags(all, s).len() == 0,
    decreases s.len(),
{
    if s.len() > 0 {
        let t = s.drop_last();
        assert forall|i: int, k: int|
            0 <= i < t.len() && 0 <= k < t[i].depends_on.len() implies is_slice_id(
                all,
                #[trigger] t[i].depends_on[k],
            ) by {
            assert(t[i] == s[i]);
        }
        lemma_missing_deps_empty(all, t);
        let n = s.len() - 1;
        assert forall|k: int| 0 <= k < s[n].depends_on.len() implies is_slice_id(
            all,
            #[trigger] s[n].depends_on[k],
        ) by {}
        lemma_missing_dep_of_empty(all, s.last().id, s.last().depends_on);
    }
}

proof fn lemma_self_dep_of_empty(id: Str, deps: Seq<Str>)
    requires
        forall|k: int| 0 <= k < deps.len() ==> #[trigger] deps[k] != id,
    ensures
        crate::validate::self_dep_diags_of(id, deps).len() == 0,
    decreases deps.len(),
{
    if deps.len() > 0 {
        let t = deps.drop_last();
        assert forall|k: int| 0 <= k < t.len() implies #[trigger] t[k] != id by {
            assert(t[k] == deps[k]);
        }
        lemma_self_dep_of_empty(id, t);
        assert(deps[deps.len() - 1] != id);
    }
}

proof fn lemma_self_deps_empty(s: Seq<SliceView>)
    requires
        forall|i: int, k: int|
            0 <= i < s.len() && 0 <= k < s[i].depends_on.len() ==> #[trigger] s[i].depends_on[k]
                != s[i].id,
    ensures
        crate::validate::self_dep_diags(s).len() == 0,
    decreases s.len(),
{
    if s.len() > 0 {
        let t = s.drop_last();
        assert forall|i: int, k: int|
            0 <= i < t.len() && 0 <= k < t[i].depends_on.len() implies #[trigger] t[i].depends_on[k]
                != t[i].id by {
            assert(t[i] == s[i]);
        }
        lemma_self_deps_empty(t);
        let n = s.len() - 1;
        assert forall|k: int| 0 <= k < s[n].depends_on.len() implies #[trigger] s[n].depends_on[k]
            != s[n].id by {}
        lemma_self_dep_of_empty(s.last().id, s.last().depends_on);
    }
}

/// An acyclic list of slices, in which each unit sits once, has no
/// structural errors.
proof fn lemma_sound_no_errors(u: Seq<UnitView>, s: Seq<SliceView>)
    requires
        acyclic(s),
        forall|i: int| 0 <= i < u.len() ==> member_count(s, #[trigger] u[i].id) == 1,
    ensures
        no_errors(crate::validate::structural_diags(u, s)),
{
    lemma_member_diags_empty(u, s);
    lemma_empty_slice_diags_warn(s);
    lemma_missing_deps_empty(s, s);
    let rank = choose|rank: spec_fn(int) -> int| ranked_by(s, rank);
    assert forall|i: int, k: int|
        0 <= i < s.len() && 0 <= k < s[i].depends_on.len() implies #[trigger] s[i].depends_on[k]
            != s[i].id by {
        if s[i].depends_on[k] == s[i].id {
            assert(rank(i) < rank(i));
        }
    }
    lemma_self_deps_empty(s);
    let e = Seq::<crate::model::DiagView>::empty();
    let d1 = crate::validate::duplicate_diags(u, s);
    let d2 = crate::validate::empty_slice_diags(s);
    let d3 = crate::validate::missing_dep_diags(s, s);
    let d4 = crate::validate::missing_member_diags(u, s);
    let d5 = crate::validate::self_dep_diags(s);
    assert(d1 =~= e && d3 =~= e && d4 =~= e && d5 =~= e);
    assert(crate::validate::structural_diags(u, s) =~= d2);
}

/// The planner's output passes its own structural validation: a plan built
/// from units with distinct ids, whose slices have distinct ids, has no
/// structural error, whatever the override rules.
pub proof fn law_plan_structurally_sound(
    source: SourceView,
    units: Seq<UnitView>,
    c: ConfigView,
    o: OverridesView,
    overrides_json: Seq<u8>,
)
    requires
        ids_unique(units),
        ids_distinct(plan_spec(source, units, c, o, overrides_json).slices),
    ensures
        no_errors(
            crate::validate::structural_diags(
                plan_spec(source, units, c, o, overrides_json).units,
                plan_spec(source, units, c, o, overrides_json).slices,
            ),
        ),
{
    let p = plan_spec(source, units, c, o, overrides_json);
    law_plan_acyclic(source, units, c, o, overrides_json);
    lemma_planned_distinct_from_plan(source, units, c, o, overrides_json);
    law_every_unit_once_with_overrides(source, units, c, o, overrides_json);
    lemma_sound_no_errors(p.units, p.slices);
}

// ---------------------------------------------------------------------------
// Overrides keep a stack acyclic
// ---------------------------------------------------------------------------

/// Extending an acyclic list keeps it acyclic, when ids stay distinct.
proof fn lemma_extends_acyclic(s: Seq<SliceView>, t: Seq<SliceView>)
    requires
        extends(s, t),
        acyclic(s),
        ids_distinct(t),
    ensures
        acyclic(t),
{
    let rank = choose|rank: spec_fn(int) -> int| ranked_by(s, rank);
    assert forall|i: int, k: int|
        0 <= i < t.len() && 0 <= k < t[i].depends_on.len() implies is_slice_id(
            t,
            #[trigger] t[i].depends_on[k],
        ) by {
        assert(i < s.len());
        assert(t[i].id == s[i].id);
        assert(t[i].depends_on == s[i].depends_on);
        assert(is_slice_id(s, s[i].depends_on[k]));
        let j = choose|j: int| 0 <= j < s.len() && #[trigger] s[j].id == s[i].depends_on[k];
        assert(t[j].id == s[j].id);
    }
    assert forall|i: int, k: int, j: int|
        #![trigger t[i].depends_on[k], t[j]]
        0 <= i < t.len() && 0 <= k < t[i].depends_on.len() && 0 <= j < t.len() && t[j].id
            == t[i].depends_on[k] implies rank(j) < rank(i) by {
        assert(i < s.len());
        assert(t[i].id == s[i].id);
        assert(t[i].depends_on == s[i].depends_on);
        let j0 = choose|j0: int| 0 <= j0 < s.len() && #[trigger] s[j0].id == s[i].depends_on[k];
        assert(t[j0].id == s[j0].id);
        if j != j0 {
            if j < j0 {
                assert(t[j].id != t[j0].id);
            } else {
                assert(t[j0].id != t[j].id);
            }
        }
        assert(s[j].id == s[i].depends_on[k]);
    }
    assert(ranked_by(t, rank));
}

/// Overrides never make an acyclic stack cyclic: a must_order rule that
/// would close a cycle is rolled back, and the other rules add no
/// dependencies, so the stack stays acyclic while its ids stay distinct.
pub proof fn law_overrides_keep_acyclic(s: Seq<SliceView>, o: OverridesView)
    requires
        acyclic(s),
        ids_distinct(apply_spec(s, o).0),
    ensures
        acyclic(apply_spec(s, o).0),
{
    let s1 = apply_must_link(s, o.must_link);
    let s2 = apply_force(s1, o.force_members);
    let s3 = apply_rename(s2, o.rename_slices);
    lemma_apply_must_link_extends(s, o.must_link);
    lemma_apply_force_extends(s1, o.force_members);
    lemma_apply_rename_extends(s2, o.rename_slices);
    lemma_extends_trans(s, s1, s2);
    lemma_extends_trans(s, s2, s3);
    lemma_apply_order(s3, o.must_order);
    let post = apply_order(s3, o.must_order).0;
    assert(post == apply_spec(s, o).0);
    assert(ids_distinct(s3)) by {
        assert forall|i: int, j: int| 0 <= i < j < s3.len() implies #[trigger] s3[i].id != #[trigger] s3[j].id by {
            assert(post[i].id == s3[i].id);
            assert(post[j].id == s3[j].id);
        }
    }
    lemma_extends_acyclic(s, s3);
}


// ---------------------------------------------------------------------------
// No slice member that is not a unit
// ---------------------------------------------------------------------------

/// Every member of every slice is the id of a unit.
pub open spec fn members_are_units(s: Seq<SliceView>, u: Seq<UnitView>) -> bool {
    forall|j: int, x: Str|
        0 <= j < s.len() && #[trigger] s[j].members.contains(x) ==> is_unit_id(u, x)
}

/// Every standalone leftover is a unit.
pub open spec fn loose_are_units(l: Seq<(SliceKind, Str, Str)>, u: Seq<UnitView>) -> bool {
    forall|q: int| 0 <= q < l.len() ==> is_unit_id(u, #[trigger] l[q].2)
}

proof fn lemma_units_add(a: Seq<SliceView>, b: Seq<SliceView>, u: Seq<UnitView>)
    requires
        members_are_units(a, u),
        members_are_units(b, u),
    ensures
        members_are_units(a + b, u),
{
    assert forall|j: int, x: Str|
        0 <= j < (a + b).len() && #[trigger] (a + b)[j].members.contains(x) implies is_unit_id(u, x) by {
        if j < a.len() {
            assert((a + b)[j] == a[j]);
        } else {
            assert((a + b)[j] == b[j - a.len()]);
        }
    }
}

proof fn lemma_phase_units(u: Seq<UnitView>, a: Set<Str>, f: KindFilter)
    ensures
        members_are_units(phase_slices(u, a, f), u),
{
    let ids = pick_ids(u, a, f);
    lemma_sort_dedup(ids);
    assert forall|j: int, x: Str|
        0 <= j < phase_slices(u, a, f).len() && #[trigger] phase_slices(u, a, f)[j].members.contains(x)
            implies is_unit_id(u, x) by {
        assert(phase_slices(u, a, f)[j] == phase_view(u, f, ids));
        assert(ids.contains(x));
        lemma_pick_contains(u, a, f, x);
        let i = choose|i: int| 0 <= i < u.len() && #[trigger] u[i].id == x && !a.contains(x) && accepts(f, u[i].kind);
        assert(u[i].id == x);
    }
}

proof fn lemma_behavior_units(u: Seq<UnitView>, a: Set<Str>, prior: Seq<SliceView>)
    ensures
        members_are_units(behavior_views(u, a, prior), u),
{
    let keys = behavior_families(u, a);
    let bv = behavior_views(u, a, prior);
    assert forall|j: int, x: Str| 0 <= j < bv.len() && #[trigger] bv[j].members.contains(x) implies is_unit_id(u, x) by {
        let f = keys[j];
        assert(bv[j] == behavior_view(u, a, prior, f));
        lemma_sort_dedup(behavior_ids(u, a, f));
        lemma_behavior_ids(u, a, f, x);
        let i = choose|i: int|
            0 <= i < u.len() && #[trigger] u[i].id == x && !a.contains(x) && u[i].kind
                == UnitKind::Behavior && u[i].family == f;
        assert(u[i].id == x);
    }
}

proof fn lemma_attach_units(u: Seq<UnitView>, m: Seq<(Str, Str)>, st: AttachView, ids: Seq<Str>)
    requires
        members_are_units(st.slices, u),
        loose_are_units(st.loose, u),
    ensures
        members_are_units(attach_all(u, m, st, ids).slices, u),
        loose_are_units(attach_all(u, m, st, ids).loose, u),
    decreases ids.len(),
{
    if ids.len() > 0 {
        lemma_attach_units(u, m, st, ids.drop_last());
        let t = attach_all(u, m, st, ids.drop_last());
        let r = attach_step(u, m, t, ids.last());
        if lookup_unit(u, ids.last()) is Some {
            let x = lookup_unit(u, ids.last())->0;
            lemma_lookup_unit_found(u, ids.last());
            lemma_lookup_unit(u, ids.last());
            assert(is_unit_id(u, x.id));
            assert forall|sid: Str, msg: Str| members_are_units(#[trigger] attach_spec(t.slices, sid, x, msg), u) by {
                let k = first_with_id(t.slices, sid);
                lemma_fwi_range(t.slices, sid);
                let ns = attach_spec(t.slices, sid, x, msg);
                if k < t.slices.len() {
                    lemma_sort_dedup(t.slices[k].members.push(x.id));
                    assert forall|j: int, y: Str| 0 <= j < ns.len() && #[trigger] ns[j].members.contains(y) implies is_unit_id(u, y) by {
                        if j == k {
                            assert(t.slices[k].members.push(x.id).contains(y));
                            if y != x.id {
                                let q = choose|q: int| 0 <= q < t.slices[k].members.push(x.id).len() && t.slices[k].members.push(x.id)[q] == y;
                                assert(t.slices[k].members[q] == y);
                                assert(t.slices[k].members.contains(y));
                            }
                        } else {
                            assert(ns[j] == t.slices[j]);
                            assert(t.slices[j].members.contains(y));
                        }
                    }
                }
            }
            assert forall|q: int| 0 <= q < r.loose.len() implies is_unit_id(u, #[trigger] r.loose[q].2) by {
                if q < t.loose.len() {
                    assert(r.loose[q] == t.loose[q]);
                }
            }
        }
    }
}

proof fn lemma_standalone_units(u: Seq<UnitView>, m: Seq<(Str, Str)>, l: Seq<(SliceKind, Str, Str)>)
    requires
        loose_are_units(l, u),
    ensures
        members_are_units(standalone_views(u, m, l), u),
{
    assert forall|k: SliceKind| members_are_units(#[trigger] kind_views(u, m, l, k), u) by {
        let keys = sort_dedup(loose_family_list(l, k));
        let kv = kind_views(u, m, l, k);
        assert forall|j: int, x: Str| 0 <= j < kv.len() && #[trigger] kv[j].members.contains(x) implies is_unit_id(u, x) by {
            let f = keys[j];
            assert(kv[j] == standalone_view(u, m, l, k, f));
            lemma_sort_dedup(loose_ids(l, k, f));
            lemma_loose_ids(l, k, f, x);
            let q = choose|q: int| 0 <= q < l.len() && #[trigger] l[q] == (k, f, x);
            assert(is_unit_id(u, l[q].2));
        }
    }
    lemma_units_add(kind_views(u, m, l, SliceKind::TestsDocs), kind_views(u, m, l, SliceKind::Generated), u);
    lemma_units_add(
        kind_views(u, m, l, SliceKind::TestsDocs) + kind_views(u, m, l, SliceKind::Generated),
        kind_views(u, m, l, SliceKind::Misc),
        u,
    );
}

/// Every planned slice member is a unit.
proof fn lemma_planned_units(u: Seq<UnitView>)
    ensures
        members_are_units(planned(u).0, u),
{
    let a0 = Set::<Str>::empty();
    let s1 = phase_slices(u, a0, KindFilter::ManifestOrLock);
    let a1 = after(u, a0, KindFilter::ManifestOrLock);
    let p2 = phase_slices(u, a1, KindFilter::Ops);
    let a2 = after(u, a1, KindFilter::Ops);
    let p3 = phase_slices(u, a2, KindFilter::Mechanical);
    let (s3, a3) = early(u);
    lemma_phase_units(u, a0, KindFilter::ManifestOrLock);
    lemma_phase_units(u, a1, KindFilter::Ops);
    lemma_phase_units(u, a2, KindFilter::Mechanical);
    lemma_units_add(s1, p2, u);
    lemma_units_add(s1 + p2, p3, u);
    assert(s3 == s1 + p2 + p3);
    let m = family_map(u, a3);
    let bv = behavior_views(u, a3, s3);
    lemma_behavior_units(u, a3, s3);
    let s4 = s3 + bv;
    lemma_units_add(s3, bv, u);
    let a4 = after(u, a3, KindFilter::Behavior);
    let init = AttachView { slices: s4, ambiguities: seq![], loose: seq![], taken: seq![] };
    let ids = pick_ids(u, a4, KindFilter::Attachable);
    lemma_attach_units(u, m, init, ids);
    let st = attach_all(u, m, init, ids);
    let sv = standalone_views(u, m, st.loose);
    lemma_standalone_units(u, m, st.loose);
    lemma_units_add(st.slices, sv, u);
    let a5 = a4.union(st.taken.to_set());
    lemma_phase_units(u, a5, KindFilter::Any);
    lemma_units_add(st.slices + sv, phase_slices(u, a5, KindFilter::Any), u);
    assert(planned(u).0 == st.slices + sv + phase_slices(u, a5, KindFilter::Any));
}

proof fn lemma_move_units(s: Seq<SliceView>, m: Str, target: Str, u: Seq<UnitView>)
    requires
        members_are_units(s, u),
        is_unit_id(u, m),
    ensures
        members_are_units(move_member_spec(s, m, target), u),
{
    let t = s.map_values(|sl: SliceView| strip_member(sl, m, target));
    let k = first_with_id(s, target);
    lemma_fwi_range(s, target);
    assert forall|j: int, x: Str| 0 <= j < t.len() && #[trigger] t[j].members.contains(x) implies is_unit_id(u, x) by {
        assert(t[j] == strip_member(s[j], m, target));
        if s[j].id != target {
            s[j].members.lemma_filter_contains_rev(other_than(m), x);
        }
        assert(s[j].members.contains(x));
    }
    if k < s.len() {
        let nk = SliceView { members: sort_dedup(t[k].members.push(m)), ..t[k] };
        let r = t.update(k, nk);
        lemma_sort_dedup(t[k].members.push(m));
        assert forall|j: int, x: Str| 0 <= j < r.len() && #[trigger] r[j].members.contains(x) implies is_unit_id(u, x) by {
            if j == k {
                assert(t[k].members.push(m).contains(x));
                if x != m {
                    let q = choose|q: int| 0 <= q < t[k].members.push(m).len() && t[k].members.push(m)[q] == x;
                    assert(t[k].members[q] == x);
                    assert(t[k].members.contains(x));
                }
            } else {
                assert(r[j] == t[j]);
                assert(t[j].members.contains(x));
            }
        }
    }
}

proof fn lemma_move_all_units(s: Seq<SliceView>, ms: Seq<Str>, target: Str, u: Seq<UnitView>)
    requires
        members_are_units(s, u),
        forall|i: int| 0 <= i < ms.len() ==> is_unit_id(u, #[trigger] ms[i]),
    ensures
        members_are_units(move_all(s, ms, target), u),
    decreases ms.len(),
{
    if ms.len() > 0 {
        let p = ms.drop_last();
        assert forall|i: int| 0 <= i < p.len() implies is_unit_id(u, #[trigger] p[i]) by {
            assert(p[i] == ms[i]);
        }
        lemma_move_all_units(s, p, target, u);
        assert(is_unit_id(u, ms[ms.len() - 1]));
        lemma_move_units(move_all(s, p, target), ms.last(), target, u);
    }
}

proof fn lemma_settle_units(s: Seq<SliceView>, id: Str, r: crate::model::ReasonView, u: Seq<UnitView>)
    requires
        members_are_units(s, u),
    ensures
        members_are_units(settle(s, id, r), u),
{
    let k = first_with_id(s, id);
    lemma_fwi_range(s, id);
    if k < s.len() {
        lemma_sort_dedup(s[k].members);
        let t = settle(s, id, r);
        assert forall|j: int, x: Str| 0 <= j < t.len() && #[trigger] t[j].members.contains(x) implies is_unit_id(u, x) by {
            if j != k {
                assert(t[j] == s[j]);
                assert(s[j].members.contains(x));
            } else {
                assert(s[k].members.contains(x));
            }
        }
    }
}

proof fn lemma_push_empty_units(s: Seq<SliceView>, sl: SliceView, u: Seq<UnitView>)
    requires
        members_are_units(s, u),
        sl.members.len() == 0,
    ensures
        members_are_units(s.push(sl), u),
{
    assert forall|j: int, x: Str| 0 <= j < s.push(sl).len() && #[trigger] s.push(sl)[j].members.contains(x) implies is_unit_id(u, x) by {
        if j < s.len() {
            assert(s.push(sl)[j] == s[j]);
        }
    }
}

/// Every rule of the overrides names units as the members it moves.
pub open spec fn rules_name_units(o: OverridesView, u: Seq<UnitView>) -> bool {
    &&& forall|i: int, j: int|
        0 <= i < o.must_link.len() && 0 <= j < o.must_link[i].members.len() ==> is_unit_id(
            u,
            #[trigger] o.must_link[i].members[j],
        )
    &&& forall|i: int| 0 <= i < o.force_members.len() ==> is_unit_id(u, #[trigger] o.force_members[i].member)
}

proof fn lemma_apply_must_link_units(s: Seq<SliceView>, rules: Seq<MustLinkView>, u: Seq<UnitView>)
    requires
        members_are_units(s, u),
        forall|i: int, j: int|
            0 <= i < rules.len() && 0 <= j < rules[i].members.len() ==> is_unit_id(
                u,
                #[trigger] rules[i].members[j],
            ),
    ensures
        members_are_units(apply_must_link(s, rules), u),
    decreases rules.len(),
{
    if rules.len() > 0 {
        let p = rules.drop_last();
        assert forall|i: int, j: int| 0 <= i < p.len() && 0 <= j < p[i].members.len() implies is_unit_id(u, #[trigger] p[i].members[j]) by {
            assert(p[i] == rules[i]);
        }
        lemma_apply_must_link_units(s, p, u);
        let t = apply_must_link(s, p);
        let rule = rules.last();
        assert forall|j: int| 0 <= j < rule.members.len() implies is_unit_id(u, #[trigger] rule.members[j]) by {
            assert(rules[rules.len() - 1].members[j] == rule.members[j]);
        }
        if rule.members.len() > 0 {
            let anchor = crate::overrides::first_anchor(t, rule.members);
            let target = match anchor {
                Some(a) => a,
                None => crate::overrides::bundle_id(rule.members),
            };
            let bundle = crate::overrides::bundle_view(target);
            let base = if anchor is Some {
                t
            } else {
                t.push(bundle)
            };
            if anchor is None {
                assert(bundle.members =~= Seq::<Str>::empty());
                lemma_push_empty_units(t, bundle, u);
            }
            lemma_move_all_units(base, rule.members, target, u);
            let r = crate::model::reason_view(
                "override-must-link"@,
                crate::overrides::or_default(
                    rule.reason,
                    "Members were forced to stay together by override."@,
                ),
            );
            lemma_settle_units(move_all(base, rule.members, target), target, r, u);
        }
    }
}

proof fn lemma_apply_force_units(s: Seq<SliceView>, rules: Seq<ForceView>, u: Seq<UnitView>)
    requires
        members_are_units(s, u),
        forall|i: int| 0 <= i < rules.len() ==> is_unit_id(u, #[trigger] rules[i].member),
    ensures
        members_are_units(apply_force(s, rules), u),
    decreases rules.len(),
{
    if rules.len() > 0 {
        let p = rules.drop_last();
        assert forall|i: int| 0 <= i < p.len() implies is_unit_id(u, #[trigger] p[i].member) by {
            assert(p[i] == rules[i]);
        }
        lemma_apply_force_units(s, p, u);
        let t = apply_force(s, p);
        let rule = rules.last();
        assert(is_unit_id(u, rules[rules.len() - 1].member));
        let fv = crate::overrides::forced_view(rule.slice);
        let base = if is_slice_id(t, rule.slice) {
            t
        } else {
            t.push(fv)
        };
        if !is_slice_id(t, rule.slice) {
            assert(fv.members =~= Seq::<Str>::empty());
            lemma_push_empty_units(t, fv, u);
        }
        lemma_move_units(base, rule.member, rule.slice, u);
        let r = crate::model::reason_view(
            "override-force-member"@,
            crate::overrides::or_default(rule.reason, "Member was forced into this slice by override."@),
        );
        lemma_settle_units(move_member_spec(base, rule.member, rule.slice), rule.slice, r, u);
    }
}

/// No slice member that is not a unit: every member of every slice of a
/// plan is the id of one of the units, whenever the override rules move
/// only units.
pub proof fn law_members_are_units(
    source: SourceView,
    units: Seq<UnitView>,
    c: ConfigView,
    o: OverridesView,
    overrides_json: Seq<u8>,
)
    requires
        rules_name_units(o, units),
    ensures
        members_are_units(
            plan_spec(source, units, c, o, overrides_json).slices,
            plan_spec(source, units, c, o, overrides_json).units,
        ),
{
    let p = plan_spec(source, units, c, o, overrides_json);
    let u = crate::phases::sort_by_path(units);
    lemma_sort_by_path(units);
    lemma_planned_units(u);
    let pre = planned(u).0;
    let s1 = apply_must_link(pre, o.must_link);
    let s2 = apply_force(s1, o.force_members);
    let s3 = apply_rename(s2, o.rename_slices);
    let post = apply_order(s3, o.must_order).0;
    assert(post == p.slices);
    assert forall|i: int, j: int|
        0 <= i < o.must_link.len() && 0 <= j < o.must_link[i].members.len() implies is_unit_id(
            u,
            #[trigger] o.must_link[i].members[j],
        ) by {
        assert(is_unit_id(units, o.must_link[i].members[j]));
    }
    assert forall|i: int| 0 <= i < o.force_members.len() implies is_unit_id(u, #[trigger] o.force_members[i].member) by {
        assert(is_unit_id(units, o.force_members[i].member));
    }
    lemma_apply_must_link_units(pre, o.must_link, u);
    lemma_apply_force_units(s1, o.force_members, u);
    lemma_rename_same_members(s2, o.rename_slices);
    lemma_order_same_members(s3, o.must_order);
    assert forall|j: int, x: Str| 0 <= j < post.len() && #[trigger] post[j].members.contains(x) implies is_unit_id(u, x) by {
        assert(post[j].members == s3[j].members);
        assert(s3[j].members == s2[j].members);
    }
}


// ---------------------------------------------------------------------------
// The plan lists the units by path
// ---------------------------------------------------------------------------

/// No unit's path sorts before that of an earlier unit.
pub open spec fn path_ordered(u: Seq<UnitView>) -> bool {
    forall|i: int, j: int|
        0 <= i < j < u.len() ==> !crate::order::str_lt(#[trigger] u[j].path, #[trigger] u[i].path)
}

proof fn lemma_insert_by_path_ordered(s: Seq<UnitView>, x: UnitView)
    requires
        path_ordered(s),
    ensures
        path_ordered(crate::phases::insert_by_path(s, x)),
        crate::phases::insert_by_path(s, x).to_multiset() == s.to_multiset().insert(x),
    decreases s.len(),
{
    crate::order::lemma_lt_order();
    broadcast use vstd::seq_lib::group_to_multiset_ensures;
    let r = crate::phases::insert_by_path(s, x);
    let j0 = crate::counting::lemma_insert_by_path_place(s, x);
    assert(r.remove(j0) =~= s);
    assert(r[j0] == x);
    assert(r.to_multiset().remove(x) == s.to_multiset());
    assert(r.to_multiset().count(x) > 0) by {
        assert(r.contains(x));
    }
    assert(r.to_multiset() =~= s.to_multiset().insert(x));
    if s.len() == 0 {
    } else if crate::order::str_lt(x.path, s[0].path) {
        assert(r == seq![x] + s);
        assert forall|i: int, j: int| 0 <= i < j < r.len() implies !crate::order::str_lt(
            #[trigger] r[j].path,
            #[trigger] r[i].path,
        ) by {
            if i == 0 {
                assert(r[j] == s[j - 1]);
                if j > 1 {
                    assert(!crate::order::str_lt(s[j - 1].path, s[0].path));
                }
            } else {
                assert(r[i] == s[i - 1] && r[j] == s[j - 1]);
            }
        }
    } else {
        let t = s.drop_first();
        assert forall|i: int, j: int| 0 <= i < j < t.len() implies !crate::order::str_lt(
            #[trigger] t[j].path,
            #[trigger] t[i].path,
        ) by {
            assert(t[i] == s[i + 1] && t[j] == s[j + 1]);
        }
        lemma_insert_by_path_ordered(t, x);
        let it = crate::phases::insert_by_path(t, x);
        let jt = crate::counting::lemma_insert_by_path_place(t, x);
        assert(r == seq![s[0]] + it);
        assert forall|i: int, j: int| 0 <= i < j < r.len() implies !crate::order::str_lt(
            #[trigger] r[j].path,
            #[trigger] r[i].path,
        ) by {
            if i == 0 {
                assert(r[j] == it[j - 1]);
                if j - 1 < jt {
                    assert(it[j - 1] == t[j - 1]);
                    assert(t[j - 1] == s[j]);
                } else if j - 1 > jt {
                    assert(it[j - 1] == t[j - 2]);
                    assert(t[j - 2] == s[j - 1]);
                }
            } else {
                assert(r[i] == it[i - 1] && r[j] == it[j - 1]);
            }
        }
    }
}

proof fn lemma_sort_by_path_ordered(u: Seq<UnitView>)
    ensures
        path_ordered(crate::phases::sort_by_path(u)),
        crate::phases::sort_by_path(u).to_multiset() == u.to_multiset(),
    decreases u.len(),
{
    broadcast use vstd::seq_lib::group_to_multiset_ensures;
    if u.len() == 0 {
        assert(crate::phases::sort_by_path(u) =~= u);
    } else {
        let t = u.drop_last();
        lemma_sort_by_path_ordered(t);
        lemma_insert_by_path_ordered(crate::phases::sort_by_path(t), u.last());
        assert(u =~= t.push(u.last()));
    }
}

/// The units with the given path, in their order.
pub open spec fn with_path(u: Seq<UnitView>, p: Str) -> Seq<UnitView> {
    u.filter(|x: UnitView| x.path == p)
}

/// The unit `x` alone when it has the path, else nothing.
pub open spec fn if_path(x: UnitView, p: Str) -> Seq<UnitView> {
    if x.path == p {
        seq![x]
    } else {
        seq![]
    }
}

proof fn lemma_with_path_push(u: Seq<UnitView>, x: UnitView, p: Str)
    ensures
        with_path(u.push(x), p) == with_path(u, p) + if_path(x, p),
{
    reveal(Seq::filter);
    assert(u.push(x).drop_last() =~= u);
    assert(u.push(x).last() == x);
    if x.path == p {
        assert(with_path(u, p).push(x) =~= with_path(u, p) + seq![x]);
    } else {
        assert(with_path(u, p) =~= with_path(u, p) + seq![]);
    }
}

proof fn lemma_with_path_concat(a: Seq<UnitView>, b: Seq<UnitView>, p: Str)
    ensures
        with_path(a + b, p) == with_path(a, p) + with_path(b, p),
{
    Seq::filter_distributes_over_add(a, b, |x: UnitView| x.path == p);
}

/// A path-ordered list whose first path comes after `q` holds no unit with
/// path `q`.
proof fn lemma_with_path_none(s: Seq<UnitView>, q: Str)
    requires
        path_ordered(s),
        s.len() > 0 ==> crate::order::str_lt(q, s[0].path),
    ensures
        with_path(s, q) == Seq::<UnitView>::empty(),
    decreases s.len(),
{
    reveal(Seq::filter);
    crate::order::lemma_lt_order();
    if s.len() > 0 {
        let t = s.drop_last();
        if t.len() > 0 {
            assert(t[0] == s[0]);
        }
        assert forall|i: int, j: int| 0 <= i < j < t.len() implies !crate::order::str_lt(#[trigger] t[j].path, #[trigger] t[i].path) by {
            assert(t[i] == s[i] && t[j] == s[j]);
        }
        lemma_with_path_none(t, q);
        let l = s[s.len() - 1];
        assert(l == s.last());
        if s.len() > 1 {
            assert(!crate::order::str_lt(l.path, s[0].path));
        }
        assert(l.path != q);
    }
}

/// Inserting by path puts a unit after the units with its path.
proof fn lemma_insert_by_path_stable(s: Seq<UnitView>, x: UnitView, p: Str)
    requires
        path_ordered(s),
    ensures
        with_path(crate::phases::insert_by_path(s, x), p) == with_path(s, p) + if_path(x, p),
    decreases s.len(),
{
    crate::order::lemma_lt_order();
    if s.len() == 0 {
        lemma_with_path_push(s, x, p);
        assert(s.push(x) =~= seq![x]);
    } else if crate::order::str_lt(x.path, s[0].path) {
        lemma_with_path_concat(seq![x], s, p);
        lemma_with_path_push(Seq::<UnitView>::empty(), x, p);
        assert(Seq::<UnitView>::empty().push(x) =~= seq![x]);
        assert(with_path(Seq::<UnitView>::empty(), p) =~= Seq::<UnitView>::empty()) by {
            reveal(Seq::filter);
        }
        if x.path == p {
            lemma_with_path_none(s, p);
        } else {
            assert(if_path(x, p) =~= Seq::<UnitView>::empty());
            assert(with_path(seq![x], p) =~= Seq::<UnitView>::empty());
        }
        assert(with_path(crate::phases::insert_by_path(s, x), p) =~= with_path(s, p) + if_path(x, p));
    } else {
        let t = s.drop_first();
        assert forall|i: int, j: int| 0 <= i < j < t.len() implies !crate::order::str_lt(#[trigger] t[j].path, #[trigger] t[i].path) by {
            assert(t[i] == s[i + 1] && t[j] == s[j + 1]);
        }
        lemma_insert_by_path_stable(t, x, p);
        lemma_with_path_concat(seq![s[0]], crate::phases::insert_by_path(t, x), p);
        lemma_with_path_concat(seq![s[0]], t, p);
        assert(seq![s[0]] + t =~= s);
        assert(with_path(crate::phases::insert_by_path(s, x), p) =~= with_path(s, p) + if_path(x, p));
    }
}

/// Sorting by path keeps the order of the units that share a path.
proof fn lemma_sort_by_path_stable(u: Seq<UnitView>, p: Str)
    ensures
        with_path(crate::phases::sort_by_path(u), p) == with_path(u, p),
    decreases u.len(),
{
    if u.len() == 0 {
        assert(crate::phases::sort_by_path(u) =~= u);
    } else {
        let t = u.drop_last();
        lemma_sort_by_path_stable(t, p);
        lemma_sort_by_path_ordered(t);
        lemma_insert_by_path_stable(crate::phases::sort_by_path(t), u.last(), p);
        lemma_with_path_push(t, u.last(), p);
        assert(u =~= t.push(u.last()));
    }
}

/// The plan lists the units it was given, each as often as given, ordered
/// by path, and units that share a path keep their given order.
pub proof fn law_plan_units_by_path(
    source: SourceView,
    units: Seq<UnitView>,
    c: ConfigView,
    o: OverridesView,
    overrides_json: Seq<u8>,
)
    ensures
        plan_spec(source, units, c, o, overrides_json).units.to_multiset() == units.to_multiset(),
        path_ordered(plan_spec(source, units, c, o, overrides_json).units),
        forall|p: Str| #[trigger] with_path(plan_spec(source, units, c, o, overrides_json).units, p)
            == with_path(units, p),
{
    lemma_sort_by_path_ordered(units);
    assert forall|p: Str| #[trigger] with_path(plan_spec(source, units, c, o, overrides_json).units, p)
        == with_path(units, p) by {
        lemma_sort_by_path_stable(units, p);
    }
}


// ---------------------------------------------------------------------------
// Distinct family slugs give distinct slice ids
// ---------------------------------------------------------------------------

/// Families whose slugs agree are the same family.
pub open spec fn family_slugs_distinct(u: Seq<UnitView>) -> bool {
    forall|i: int, j: int|
        0 <= i < u.len() && 0 <= j < u.len() && #[trigger] crate::slug::slug(u[i].family)
            == #[trigger] crate::slug::slug(u[j].family) ==> u[i].family == u[j].family
}

/// Every id of the slices starts with `c`.
pub open spec fn ids_start(s: Seq<SliceView>, c: char) -> bool {
    forall|i: int| 0 <= i < s.len() ==> (#[trigger] s[i].id).len() > 0 && s[i].id[0] == c
}

/// `f` is the family of one of the units.
pub open spec fn is_unit_family(u: Seq<UnitView>, f: Str) -> bool {
    exists|w: int| 0 <= w < u.len() && #[trigger] u[w].family == f
}

proof fn lemma_append_distinct(a: Seq<SliceView>, b: Seq<SliceView>)
    requires
        ids_distinct(a),
        ids_distinct(b),
        forall|i: int, j: int| 0 <= i < a.len() && 0 <= j < b.len() ==> #[trigger] a[i].id != #[trigger] b[j].id,
    ensures
        ids_distinct(a + b),
{
    assert forall|i: int, j: int| 0 <= i < j < (a + b).len() implies #[trigger] (a + b)[i].id != #[trigger] (a + b)[j].id by {
        if j < a.len() {
            assert((a + b)[i] == a[i] && (a + b)[j] == a[j]);
        } else if i >= a.len() {
            assert((a + b)[i] == b[i - a.len()] && (a + b)[j] == b[j - a.len()]);
        } else {
            assert((a + b)[i] == a[i] && (a + b)[j] == b[j - a.len()]);
        }
    }
}

proof fn lemma_starts_append(a: Seq<SliceView>, b: Seq<SliceView>, c: char)
    requires
        ids_start(a, c),
        ids_start(b, c),
    ensures
        ids_start(a + b, c),
{
    assert forall|i: int| 0 <= i < (a + b).len() implies (#[trigger] (a + b)[i].id).len() > 0 && (a + b)[i].id[0] == c by {
        if i < a.len() {
            assert((a + b)[i] == a[i]);
        } else {
            assert((a + b)[i] == b[i - a.len()]);
        }
    }
}

/// Slices keyed by distinct unit families, each named by a prefix and the
/// family's slug, have distinct ids that start with the prefix's first
/// character.
proof fn lemma_keyed_ids(u: Seq<UnitView>, keys: Seq<Str>, s: Seq<SliceView>, prefix: Str)
    requires
        family_slugs_distinct(u),
        no_dups(keys),
        prefix.len() > 0,
        s.len() == keys.len(),
        forall|i: int| 0 <= i < keys.len() ==> is_unit_family(u, #[trigger] keys[i]),
        forall|i: int| 0 <= i < keys.len() ==> #[trigger] s[i].id == prefix + crate::slug::slug(keys[i]),
    ensures
        ids_distinct(s),
        ids_start(s, prefix[0]),
{
    assert forall|i: int, j: int| 0 <= i < j < s.len() implies #[trigger] s[i].id != #[trigger] s[j].id by {
        if s[i].id == s[j].id {
            let a = crate::slug::slug(keys[i]);
            let b = crate::slug::slug(keys[j]);
            assert((prefix + a).skip(prefix.len() as int) =~= a);
            assert((prefix + b).skip(prefix.len() as int) =~= b);
            assert(a == b);
            assert(is_unit_family(u, keys[i]));
            assert(is_unit_family(u, keys[j]));
            let wi = choose|w: int| 0 <= w < u.len() && #[trigger] u[w].family == keys[i];
            let wj = choose|w: int| 0 <= w < u.len() && #[trigger] u[w].family == keys[j];
            assert(crate::slug::slug(u[wi].family) == crate::slug::slug(u[wj].family));
            assert(keys[i] == keys[j]);
        }
    }
    assert forall|i: int| 0 <= i < s.len() implies (#[trigger] s[i].id).len() > 0 && s[i].id[0] == prefix[0] by {
        assert((prefix + crate::slug::slug(keys[i]))[0] == prefix[0]);
    }
}

/// What attachment leaves for standalone slices, for distinct unit ids:
/// never the catch-all kind, and always a unit's family.
pub open spec fn loose_ok(l: Seq<(SliceKind, Str, Str)>, u: Seq<UnitView>) -> bool {
    forall|q: int| 0 <= q < l.len() ==> (#[trigger] l[q]).0 != SliceKind::Misc && is_unit_family(u, l[q].1)
}

/// `x` is the id of a unit that attachment takes.
pub open spec fn attachable_id(u: Seq<UnitView>, x: Str) -> bool {
    exists|w: int| 0 <= w < u.len() && #[trigger] u[w].id == x && accepts(KindFilter::Attachable, u[w].kind)
}

proof fn lemma_attach_loose_ok(u: Seq<UnitView>, m: Seq<(Str, Str)>, st: AttachView, ids: Seq<Str>)
    requires
        ids_unique(u),
        loose_ok(st.loose, u),
        forall|i: int| 0 <= i < ids.len() ==> attachable_id(u, #[trigger] ids[i]),
    ensures
        loose_ok(attach_all(u, m, st, ids).loose, u),
    decreases ids.len(),
{
    if ids.len() > 0 {
        let p = ids.drop_last();
        assert forall|i: int| 0 <= i < p.len() implies attachable_id(u, #[trigger] p[i]) by {
            assert(p[i] == ids[i]);
        }
        lemma_attach_loose_ok(u, m, st, p);
        let t = attach_all(u, m, st, p);
        let id = ids.last();
        let r = attach_step(u, m, t, id);
        assert(ids[ids.len() - 1] == id);
        assert(attachable_id(u, ids[ids.len() - 1]));
        let w = choose|w: int| 0 <= w < u.len() && #[trigger] u[w].id == id && accepts(KindFilter::Attachable, u[w].kind);
        if lookup_unit(u, id) is Some {
            assert(is_unit_id(u, id)) by {
                assert(u[w].id == id);
            }
            lemma_lookup_unit(u, id);
            let x = lookup_unit(u, id)->0;
            let iv = choose|iv: int| 0 <= iv < u.len() && u[iv] == x;
            if iv < w {
                assert(u[iv].id != u[w].id);
            } else if w < iv {
                assert(u[w].id != u[iv].id);
            }
            assert(x == u[w]);
            assert forall|q: int| 0 <= q < r.loose.len() implies (#[trigger] r.loose[q]).0 != SliceKind::Misc
                && is_unit_family(u, r.loose[q].1) by {
                if q < t.loose.len() {
                    assert(r.loose[q] == t.loose[q]);
                } else {
                    assert(u[w].family == x.family);
                }
            }
        }
    }
}

proof fn lemma_loose_keys(u: Seq<UnitView>, l: Seq<(SliceKind, Str, Str)>, k: SliceKind)
    requires
        loose_ok(l, u),
    ensures
        no_dups(sort_dedup(loose_family_list(l, k))),
        forall|i: int|
            0 <= i < sort_dedup(loose_family_list(l, k)).len() ==> is_unit_family(
                u,
                #[trigger] sort_dedup(loose_family_list(l, k))[i],
            ),
{
    let kk = sort_dedup(loose_family_list(l, k));
    lemma_sort_dedup_no_dups(loose_family_list(l, k));
    assert forall|i: int| 0 <= i < kk.len() implies is_unit_family(u, #[trigger] kk[i]) by {
        assert(kk.contains(kk[i]));
        lemma_loose_family_list(l, k, kk[i]);
        let q = choose|q: int| 0 <= q < l.len() && #[trigger] l[q].0 == k && l[q].1 == kk[i];
        assert(is_unit_family(u, l[q].1));
    }
}

/// The slices planned for units with distinct ids and distinct family
/// slugs have distinct ids.
proof fn lemma_planned_ids_distinct(u: Seq<UnitView>)
    requires
        ids_unique(u),
        family_slugs_distinct(u),
    ensures
        ids_distinct(planned(u).0),
{
    reveal_strlit("api-schema-workspace");
    reveal_strlit("ops-config");
    reveal_strlit("mechanical-renames");
    reveal_strlit("misc-unassigned");
    reveal_strlit("behavior-");
    reveal_strlit("tests-docs-");
    reveal_strlit("generated-");
    let a0 = Set::<Str>::empty();
    let s1 = phase_slices(u, a0, KindFilter::ManifestOrLock);
    let a1 = after(u, a0, KindFilter::ManifestOrLock);
    let p2 = phase_slices(u, a1, KindFilter::Ops);
    let a2 = after(u, a1, KindFilter::Ops);
    let p3 = phase_slices(u, a2, KindFilter::Mechanical);
    let (s3, a3) = early(u);
    assert(s3 == s1 + p2 + p3);
    // The early slices: at most one each of three fixed ids.
    assert(forall|i: int| 0 <= i < s1.len() ==> #[trigger] s1[i].id == "api-schema-workspace"@);
    assert(forall|i: int| 0 <= i < p2.len() ==> #[trigger] p2[i].id == "ops-config"@);
    assert(forall|i: int| 0 <= i < p3.len() ==> #[trigger] p3[i].id == "mechanical-renames"@);
    assert(s1.len() <= 1 && p2.len() <= 1 && p3.len() <= 1);
    let fixed = |c: Str| c == "api-schema-workspace"@ || c == "ops-config"@ || c == "mechanical-renames"@;
    lemma_append_distinct(s1, p2);
    lemma_append_distinct(s1 + p2, p3);
    assert forall|i: int| 0 <= i < s3.len() implies fixed(#[trigger] s3[i].id) by {
        if i < s1.len() {
            assert(s3[i] == s1[i]);
        } else if i < s1.len() + p2.len() {
            assert(s3[i] == p2[i - s1.len()]);
        } else {
            assert(s3[i] == p3[i - s1.len() - p2.len()]);
        }
    }
    // The behavior slices.
    let keys = behavior_families(u, a3);
    let bv = behavior_views(u, a3, s3);
    lemma_sort_dedup_no_dups(behavior_family_list(u, a3));
    assert forall|i: int| 0 <= i < keys.len() implies is_unit_family(u, #[trigger] keys[i]) by {
        assert(keys.contains(keys[i]));
        assert(behavior_family_list(u, a3).contains(keys[i]));
        lemma_behavior_family_list(u, a3, keys[i]);
        let w = choose|w: int|
            0 <= w < u.len() && !a3.contains(u[w].id) && u[w].kind == UnitKind::Behavior
                && #[trigger] u[w].family == keys[i];
    }
    assert forall|i: int| 0 <= i < keys.len() implies #[trigger] bv[i].id == "behavior-"@ + crate::slug::slug(keys[i]) by {
        assert(bv[i] == behavior_view(u, a3, s3, keys[i]));
    }
    lemma_keyed_ids(u, keys, bv, "behavior-"@);
    let s4 = s3 + bv;
    assert forall|i: int, j: int| 0 <= i < s3.len() && 0 <= j < bv.len() implies #[trigger] s3[i].id != #[trigger] bv[j].id by {
        assert(fixed(s3[i].id));
    }
    lemma_append_distinct(s3, bv);
    // Attachment keeps the ids.
    let m = family_map(u, a3);
    let a4 = after(u, a3, KindFilter::Behavior);
    let init = AttachView { slices: s4, ambiguities: seq![], loose: seq![], taken: seq![] };
    let ids = pick_ids(u, a4, KindFilter::Attachable);
    lemma_attach_skeleton(u, m, init, ids);
    let st = attach_all(u, m, init, ids);
    assert(ids_distinct(st.slices)) by {
        assert forall|i: int, j: int| 0 <= i < j < st.slices.len() implies #[trigger] st.slices[i].id != #[trigger] st.slices[j].id by {
            assert(st.slices[i].id == s4[i].id && st.slices[j].id == s4[j].id);
        }
    }
    assert forall|i: int| 0 <= i < ids.len() implies attachable_id(u, #[trigger] ids[i]) by {
        assert(ids.contains(ids[i]));
        lemma_pick_contains(u, a4, KindFilter::Attachable, ids[i]);
    }
    lemma_attach_loose_ok(u, m, init, ids);
    let l = st.loose;
    // The standalone slices.
    let kt = sort_dedup(loose_family_list(l, SliceKind::TestsDocs));
    let kg = sort_dedup(loose_family_list(l, SliceKind::Generated));
    let km = sort_dedup(loose_family_list(l, SliceKind::Misc));
    let vt = kind_views(u, m, l, SliceKind::TestsDocs);
    let vg = kind_views(u, m, l, SliceKind::Generated);
    let vm = kind_views(u, m, l, SliceKind::Misc);
    assert(loose_family_list(l, SliceKind::Misc).len() == 0) by {
        if loose_family_list(l, SliceKind::Misc).len() > 0 {
            let f0 = loose_family_list(l, SliceKind::Misc)[0];
            assert(loose_family_list(l, SliceKind::Misc).contains(f0));
            lemma_loose_family_list(l, SliceKind::Misc, f0);
            let q = choose|q: int| 0 <= q < l.len() && #[trigger] l[q].0 == SliceKind::Misc && l[q].1 == f0;
            assert(l[q].0 != SliceKind::Misc);
        }
    }
    lemma_sort_dedup(loose_family_list(l, SliceKind::Misc));
    assert(km.len() == 0) by {
        if km.len() > 0 {
            assert(km.contains(km[0]));
        }
    }
    assert(vm.len() == 0);
    lemma_loose_keys(u, l, SliceKind::TestsDocs);
    lemma_loose_keys(u, l, SliceKind::Generated);
    assert forall|i: int| 0 <= i < kt.len() implies #[trigger] vt[i].id == "tests-docs-"@ + crate::slug::slug(kt[i]) by {
        assert(vt[i] == standalone_view(u, m, l, SliceKind::TestsDocs, kt[i]));
    }
    assert forall|i: int| 0 <= i < kg.len() implies #[trigger] vg[i].id == "generated-"@ + crate::slug::slug(kg[i]) by {
        assert(vg[i] == standalone_view(u, m, l, SliceKind::Generated, kg[i]));
    }
    lemma_keyed_ids(u, kt, vt, "tests-docs-"@);
    lemma_keyed_ids(u, kg, vg, "generated-"@);
    let sv = standalone_views(u, m, l);
    assert(sv == vt + vg + vm);
    assert(vt + vg + vm =~= vt + vg);
    assert forall|i: int, j: int| 0 <= i < vt.len() && 0 <= j < vg.len() implies #[trigger] vt[i].id != #[trigger] vg[j].id by {
        assert(vt[i].id[0] != vg[j].id[0]);
    }
    lemma_append_distinct(vt, vg);
    // Slices before standalone ones start with an early id or 'b'.
    assert forall|i: int, j: int| 0 <= i < st.slices.len() && 0 <= j < sv.len() implies #[trigger] st.slices[i].id != #[trigger] sv[j].id by {
        assert(st.slices[i].id == s4[i].id);
        let c = sv[j].id;
        if j < vt.len() {
            assert(sv[j] == vt[j]);
            assert(c[0] == 't');
        } else {
            assert(sv[j] == vg[j - vt.len()]);
            assert(c[0] == 'g');
        }
        if i < s3.len() {
            assert(s4[i] == s3[i]);
            assert(fixed(s3[i].id));
        } else {
            assert(s4[i] == bv[i - s3.len()]);
        }
    }
    lemma_append_distinct(st.slices, sv);
    let s6 = st.slices + sv;
    let a5 = a4.union(st.taken.to_set());
    let pa = phase_slices(u, a5, KindFilter::Any);
    assert(forall|i: int| 0 <= i < pa.len() ==> #[trigger] pa[i].id == "misc-unassigned"@);
    assert forall|i: int, j: int| 0 <= i < s6.len() && 0 <= j < pa.len() implies #[trigger] s6[i].id != #[trigger] pa[j].id by {
        assert(pa[j].id == "misc-unassigned"@);
        if i < st.slices.len() {
            assert(s6[i] == st.slices[i]);
            assert(st.slices[i].id == s4[i].id);
            if i < s3.len() {
                assert(s4[i] == s3[i]);
                assert(fixed(s3[i].id));
            } else {
                assert(s4[i] == bv[i - s3.len()]);
            }
        } else {
            assert(s6[i] == sv[i - st.slices.len()]);
            if i - st.slices.len() < vt.len() {
                assert(sv[i - st.slices.len()] == vt[i - st.slices.len()]);
            } else {
                assert(sv[i - st.slices.len()] == vg[i - st.slices.len() - vt.len()]);
            }
        }
    }
    assert(ids_distinct(pa));
    lemma_append_distinct(s6, pa);
    assert(planned(u).0 == s6 + pa);
}

/// Distinct unit ids and distinct family slugs mean distinct planned
/// slice ids.
pub proof fn lemma_slugs_give_planned_ids(units: Seq<UnitView>)
    requires
        ids_unique(units),
        family_slugs_distinct(units),
    ensures
        planned_ids_distinct(units),
{
    let u = crate::phases::sort_by_path(units);
    lemma_sort_by_path(units);
    assert forall|i: int, j: int|
        0 <= i < u.len() && 0 <= j < u.len() && #[trigger] crate::slug::slug(u[i].family)
            == #[trigger] crate::slug::slug(u[j].family) implies u[i].family == u[j].family by {
        assert(u.contains(u[i]) && u.contains(u[j]));
        assert(units.contains(u[i]) && units.contains(u[j]));
        let a = choose|a: int| 0 <= a < units.len() && units[a] == u[i];
        let b = choose|b: int| 0 <= b < units.len() && units[b] == u[j];
        assert(crate::slug::slug(units[a].family) == crate::slug::slug(units[b].family));
    }
    lemma_planned_ids_distinct(u);
}


// ---------------------------------------------------------------------------
// Laws on the inputs alone
// ---------------------------------------------------------------------------

/// No loss and no duplication: for units with distinct ids and distinct
/// family slugs, and override rules that move only units, every unit sits
/// in exactly one slice and every slice member is a unit.
pub proof fn law_no_loss_no_duplication(
    source: SourceView,
    units: Seq<UnitView>,
    c: ConfigView,
    o: OverridesView,
    overrides_json: Seq<u8>,
)
    requires
        ids_unique(units),
        family_slugs_distinct(units),
        rules_name_units(o, units),
    ensures
        forall|i: int|
            0 <= i < plan_spec(source, units, c, o, overrides_json).units.len() ==> member_count(
                plan_spec(source, units, c, o, overrides_json).slices,
                #[trigger] plan_spec(source, units, c, o, overrides_json).units[i].id,
            ) == 1,
        members_are_units(
            plan_spec(source, units, c, o, overrides_json).slices,
            plan_spec(source, units, c, o, overrides_json).units,
        ),
{
    lemma_slugs_give_planned_ids(units);
    law_every_unit_once_with_overrides(source, units, c, o, overrides_json);
    law_members_are_units(source, units, c, o, overrides_json);
}

proof fn lemma_budget_warns(s: Seq<SliceView>, b: nat)
    ensures
        no_errors(crate::planner::budget_diags(s, b)),
    decreases s.len(),
{
    if s.len() > 0 {
        lemma_budget_warns(s.drop_last(), b);
        let tail = if s.last().members.len() > b {
            seq![crate::planner::budget_diag(s.last().id, s.last().members.len(), b)]
        } else {
            seq![]
        };
        lemma_no_errors_add(crate::planner::budget_diags(s.drop_last(), b), tail);
    }
}

proof fn lemma_note_warns(path: Str, notes: Seq<Str>)
    ensures
        no_errors(crate::planner::note_diags(path, notes)),
    decreases notes.len(),
{
    if notes.len() > 0 {
        lemma_note_warns(path, notes.drop_last());
        let tail = if crate::text::has_prefix(notes.last(), "unsupported-"@) {
            seq![crate::planner::unsupported_diag(notes.last(), path)]
        } else {
            seq![]
        };
        lemma_no_errors_add(crate::planner::note_diags(path, notes.drop_last()), tail);
    }
}

proof fn lemma_unsupported_warns(u: Seq<UnitView>)
    ensures
        no_errors(crate::planner::unsupported_diags(u)),
    decreases u.len(),
{
    if u.len() > 0 {
        lemma_unsupported_warns(u.drop_last());
        lemma_note_warns(u.last().path, u.last().notes);
        lemma_no_errors_add(
            crate::planner::unsupported_diags(u.drop_last()),
            crate::planner::note_diags(u.last().path, u.last().notes),
        );
    }
}

/// Plans pass their own validation: for units with distinct ids and
/// distinct family slugs, without must_link or force_members rules, the
/// slices form a DAG and structural validation finds no error; without any
/// override rule, no diagnostic of the plan is an error.
pub proof fn law_plan_sound_from_inputs(
    source: SourceView,
    units: Seq<UnitView>,
    c: ConfigView,
    o: OverridesView,
    overrides_json: Seq<u8>,
)
    requires
        ids_unique(units),
        family_slugs_distinct(units),
        o.must_link.len() == 0,
        o.force_members.len() == 0,
    ensures
        acyclic(plan_spec(source, units, c, o, overrides_json).slices),
        no_errors(
            crate::validate::structural_diags(
                plan_spec(source, units, c, o, overrides_json).units,
                plan_spec(source, units, c, o, overrides_json).slices,
            ),
        ),
        !crate::planner::has_overrides(o) ==> no_errors(
            plan_spec(source, units, c, o, overrides_json).diagnostics,
        ),
{
    let p = plan_spec(source, units, c, o, overrides_json);
    let u = crate::phases::sort_by_path(units);
    let pre = planned(u).0;
    lemma_slugs_give_planned_ids(units);
    lemma_planned_backward(u);
    lemma_backward_acyclic(pre);
    lemma_members_stay(pre, o);
    let post = apply_spec(pre, o).0;
    assert(post == p.slices);
    assert forall|i: int, j: int| 0 <= i < j < post.len() implies #[trigger] post[i].id != #[trigger] post[j].id by {
        assert(post[i].id == pre[i].id);
        assert(post[j].id == pre[j].id);
    }
    law_overrides_keep_acyclic(pre, o);
    law_every_unit_once(source, units, c, o, overrides_json);
    lemma_sound_no_errors(p.units, p.slices);
    if !crate::planner::has_overrides(o) {
        let amb = planned(u).1;
        let sd = crate::validate::structural_diags(u, post);
        let ad_amb = if amb.len() > 0 {
            seq![crate::planner::ambiguity_diag()]
        } else {
            seq![]
        };
        let od = crate::validate::override_diags(
            o,
            u.map_values(|x: UnitView| x.id),
            pre.map_values(|x: SliceView| x.id),
        );
        let ad = apply_spec(pre, o).1;
        let bd = crate::planner::budget_diags(post, crate::planner::budget_of(c));
        let ud = crate::planner::unsupported_diags(u);
        assert(od.len() == 0);
        assert(ad.len() == 0);
        assert(no_errors(ad_amb));
        lemma_budget_warns(post, crate::planner::budget_of(c));
        lemma_unsupported_warns(u);
        assert(p.diagnostics == sd + ad_amb + od + ad + bd + ud);
        lemma_no_errors_add(sd, ad_amb);
        lemma_no_errors_add(sd + ad_amb, od);
        lemma_no_errors_add(sd + ad_amb + od, ad);
        lemma_no_errors_add(sd + ad_amb + od + ad, bd);
        lemma_no_errors_add(sd + ad_amb + od + ad + bd, ud);
    }
}


// ---------------------------------------------------------------------------
// Applying the overrides twice
// ---------------------------------------------------------------------------

proof fn lemma_filter_absent(mem: Seq<Str>, m: Str)
    requires
        !mem.contains(m),
    ensures
        mem.filter(other_than(m)) == mem,
    decreases mem.len(),
{
    reveal(Seq::filter);
    if mem.len() > 0 {
        let t = mem.drop_last();
        if t.contains(m) {
            let q = choose|q: int| 0 <= q < t.len() && t[q] == m;
            assert(mem[q] == m);
        }
        lemma_filter_absent(t, m);
        assert(mem.last() != m) by {
            assert(mem[mem.len() - 1] == mem.last());
        }
        assert(mem =~= t.push(mem.last()));
    }
}

proof fn lemma_filter_sorted(mem: Seq<Str>, m: Str)
    requires
        crate::order::sorted_strict(mem),
    ensures
        crate::order::sorted_strict(mem.filter(other_than(m))),
        forall|x: Str| #[trigger] mem.filter(other_than(m)).contains(x) <==> (mem.contains(x) && x != m),
    decreases mem.len(),
{
    reveal(Seq::filter);
    crate::order::lemma_lt_order();
    if mem.len() > 0 {
        let t = mem.drop_last();
        assert forall|i: int, j: int| 0 <= i < j < t.len() implies crate::order::str_lt(#[trigger] t[i], #[trigger] t[j]) by {
            assert(t[i] == mem[i] && t[j] == mem[j]);
        }
        lemma_filter_sorted(t, m);
        let ft = t.filter(other_than(m));
        let l = mem.last();
        assert forall|x: Str| #[trigger] mem.contains(x) <==> (t.contains(x) || x == l) by {
            if mem.contains(x) {
                let q = choose|q: int| 0 <= q < mem.len() && mem[q] == x;
                if q < t.len() {
                    assert(t[q] == x);
                }
            }
            if t.contains(x) {
                let q = choose|q: int| 0 <= q < t.len() && t[q] == x;
                assert(mem[q] == x);
            }
            if x == l {
                assert(mem[mem.len() - 1] == l);
            }
        }
        if l != m {
            let f = ft.push(l);
            assert(mem.filter(other_than(m)) == f);
            assert forall|i: int, j: int| 0 <= i < j < f.len() implies crate::order::str_lt(#[trigger] f[i], #[trigger] f[j]) by {
                if j == ft.len() {
                    assert(ft.contains(ft[i]));
                    let q = choose|q: int| 0 <= q < t.len() && t[q] == ft[i];
                    assert(crate::order::str_lt(mem[q], mem[mem.len() - 1]));
                } else {
                    assert(f[i] == ft[i] && f[j] == ft[j]);
                }
            }
            assert forall|x: Str| #[trigger] f.contains(x) <==> (mem.contains(x) && x != m) by {
                if f.contains(x) {
                    let q = choose|q: int| 0 <= q < f.len() && f[q] == x;
                    if q < ft.len() {
                        assert(ft[q] == x);
                        assert(ft.contains(x));
                    }
                }
                if mem.contains(x) && x != m {
                    if x == l {
                        assert(f[ft.len() as int] == x);
                    } else {
                        assert(ft.contains(x));
                        let q = choose|q: int| 0 <= q < ft.len() && ft[q] == x;
                        assert(f[q] == x);
                    }
                }
            }
        } else {
            assert(mem.filter(other_than(m)) == ft);
        }
    }
}

proof fn lemma_sorted_dedup_same(a: Seq<Str>)
    requires
        crate::order::sorted_strict(a),
    ensures
        sort_dedup(a) == a,
{
    lemma_sort_dedup(a);
    crate::order::lemma_sorted_unique(sort_dedup(a), a);
}

proof fn lemma_sorted_push_same(a: Seq<Str>, m: Str)
    requires
        crate::order::sorted_strict(a),
        a.contains(m),
    ensures
        sort_dedup(a.push(m)) == a,
{
    lemma_sort_dedup(a.push(m));
    assert forall|y: Str| sort_dedup(a.push(m)).contains(y) <==> a.contains(y) by {
        if a.push(m).contains(y) {
            let q = choose|q: int| 0 <= q < a.push(m).len() && a.push(m)[q] == y;
            if q < a.len() {
                assert(a[q] == y);
            }
        }
        if a.contains(y) {
            let q = choose|q: int| 0 <= q < a.len() && a[q] == y;
            assert(a.push(m)[q] == y);
        }
    }
    crate::order::lemma_sorted_unique(sort_dedup(a.push(m)), a);
}


/// Two slices agree on id, title, members and dependencies.
pub open spec fn same_core(a: SliceView, b: SliceView) -> bool {
    &&& a.id == b.id
    &&& a.title == b.title
    &&& a.members == b.members
    &&& a.depends_on == b.depends_on
}

/// Two lists of slices agree slice by slice, reasons aside.
pub open spec fn core_eq(a: Seq<SliceView>, b: Seq<SliceView>) -> bool {
    &&& a.len() == b.len()
    &&& forall|j: int| 0 <= j < a.len() ==> #[trigger] same_core(a[j], b[j])
}

/// Two lists of slices agree slice by slice on ids and members.
pub open spec fn idmem_eq(a: Seq<SliceView>, b: Seq<SliceView>) -> bool {
    &&& a.len() == b.len()
    &&& forall|j: int| 0 <= j < a.len() ==> #[trigger] same_idmem(a[j], b[j])
}

/// Two slices agree on id and members.
pub open spec fn same_idmem(a: SliceView, b: SliceView) -> bool {
    a.id == b.id && a.members == b.members
}

/// Slice `t` is where all of `ms` live: the first slice with its id, with
/// sorted members holding every one of `ms`, which no other slice holds.
pub open spec fn home(s: Seq<SliceView>, ms: Seq<Str>, t: int) -> bool {
    &&& 0 <= t < s.len()
    &&& first_with_id(s, s[t].id) == t
    &&& crate::order::sorted_strict(s[t].members)
    &&& forall|i: int| 0 <= i < ms.len() ==> s[t].members.contains(#[trigger] ms[i])
    &&& forall|j: int, i: int|
        0 <= j < s.len() && j != t && 0 <= i < ms.len() ==> !(#[trigger] s[j].members.contains(
            #[trigger] ms[i],
        ))
}

/// The members of a rule all live in one slice, when there are any.
pub open spec fn settled(s: Seq<SliceView>, ms: Seq<Str>) -> bool {
    ms.len() == 0 || exists|t: int| #[trigger] home(s, ms, t)
}

proof fn lemma_fwi_same_ids(a: Seq<SliceView>, b: Seq<SliceView>, id: Str)
    requires
        a.len() == b.len(),
        forall|j: int| 0 <= j < a.len() ==> #[trigger] a[j].id == b[j].id,
    ensures
        first_with_id(a, id) == first_with_id(b, id),
    decreases a.len(),
{
    if a.len() > 0 {
        assert(a[0].id == b[0].id);
        if a[0].id != id {
            let ta = a.drop_first();
            let tb = b.drop_first();
            assert forall|j: int| 0 <= j < ta.len() implies #[trigger] ta[j].id == tb[j].id by {
                assert(a[j + 1].id == b[j + 1].id);
            }
            lemma_fwi_same_ids(ta, tb, id);
        }
    }
}

proof fn lemma_fwi_push(s: Seq<SliceView>, x: SliceView, id: Str)
    requires
        first_with_id(s, id) < s.len(),
    ensures
        first_with_id(s.push(x), id) == first_with_id(s, id),
    decreases s.len(),
{
    lemma_fwi_range(s, id);
    if s.len() > 0 && s[0].id != id {
        assert(s.push(x).drop_first() =~= s.drop_first().push(x));
        lemma_fwi_push(s.drop_first(), x, id);
    }
}

proof fn lemma_home_transfer(a: Seq<SliceView>, b: Seq<SliceView>, ms: Seq<Str>, t: int)
    requires
        home(a, ms, t),
        idmem_eq(a, b),
    ensures
        home(b, ms, t),
{
    assert(same_idmem(a[t], b[t]));
    assert forall|j: int| 0 <= j < a.len() implies #[trigger] a[j].id == b[j].id by {
        assert(same_idmem(a[j], b[j]));
    }
    lemma_fwi_same_ids(a, b, a[t].id);
    assert forall|j: int, i: int|
        0 <= j < b.len() && j != t && 0 <= i < ms.len() implies !(#[trigger] b[j].members.contains(
            #[trigger] ms[i],
        )) by {
        assert(same_idmem(a[j], b[j]));
        assert(!a[j].members.contains(ms[i]));
    }
}

proof fn lemma_slice_of_member_at(s: Seq<SliceView>, x: Str, t: int)
    requires
        0 <= t < s.len(),
        s[t].members.contains(x),
        forall|j: int| 0 <= j < s.len() && j != t ==> !(#[trigger] s[j].members.contains(x)),
    ensures
        crate::overrides::slice_of_member(s, x) == Some(s[t].id),
    decreases s.len(),
{
    if t > 0 {
        assert(!s[0].members.contains(x));
        let d = s.drop_first();
        assert forall|j: int| 0 <= j < d.len() && j != t - 1 implies !(#[trigger] d[j].members.contains(x)) by {
            assert(d[j] == s[j + 1]);
        }
        assert(d[t - 1] == s[t]);
        lemma_slice_of_member_at(d, x, t - 1);
    }
}

/// Moving a member into the slice that alone holds it, in sorted order,
/// changes nothing.
proof fn lemma_move_noop(s: Seq<SliceView>, m: Str, t: int)
    requires
        0 <= t < s.len(),
        first_with_id(s, s[t].id) == t,
        crate::order::sorted_strict(s[t].members),
        s[t].members.contains(m),
        forall|j: int| 0 <= j < s.len() && j != t ==> !(#[trigger] s[j].members.contains(m)),
    ensures
        move_member_spec(s, m, s[t].id) == s,
{
    let target = s[t].id;
    let tt = s.map_values(|sl: SliceView| strip_member(sl, m, target));
    assert forall|j: int| 0 <= j < s.len() implies #[trigger] tt[j] == s[j] by {
        assert(tt[j] == strip_member(s[j], m, target));
        if s[j].id != target {
            assert(j != t);
            assert(!s[j].members.contains(m));
            lemma_filter_absent(s[j].members, m);
            assert(strip_member(s[j], m, target) =~= s[j]);
        }
    }
    assert(tt =~= s);
    lemma_sorted_push_same(s[t].members, m);
    let nk = SliceView { members: sort_dedup(tt[t].members.push(m)), ..tt[t] };
    assert(nk =~= s[t]);
    assert(tt.update(t, nk) =~= s);
}

proof fn lemma_move_all_noop(s: Seq<SliceView>, ms: Seq<Str>, t: int)
    requires
        home(s, ms, t),
    ensures
        move_all(s, ms, s[t].id) == s,
    decreases ms.len(),
{
    if ms.len() > 0 {
        let p = ms.drop_last();
        assert forall|j: int, i: int|
            0 <= j < s.len() && j != t && 0 <= i < p.len() implies !(#[trigger] s[j].members.contains(
                #[trigger] p[i],
            )) by {
            assert(p[i] == ms[i]);
        }
        assert forall|i: int| 0 <= i < p.len() implies s[t].members.contains(#[trigger] p[i]) by {
            assert(p[i] == ms[i]);
        }
        lemma_move_all_noop(s, p, t);
        let m = ms.last();
        assert(ms[ms.len() - 1] == m);
        assert forall|j: int| 0 <= j < s.len() && j != t implies !(#[trigger] s[j].members.contains(m)) by {
            assert(!s[j].members.contains(ms[ms.len() - 1]));
        }
        lemma_move_noop(s, m, t);
    }
}

/// A second application of a must_link rule whose members already live
/// together changes nothing but the reasons.
proof fn lemma_link_again(s: Seq<SliceView>, rule: MustLinkView, t: int)
    requires
        rule.members.len() > 0,
        home(s, rule.members, t),
    ensures
        core_eq(s, must_link_step(s, rule)),
{
    let ms = rule.members;
    assert(s[t].members.contains(ms[0]));
    assert forall|j: int| 0 <= j < s.len() && j != t implies !(#[trigger] s[j].members.contains(ms[0])) by {}
    lemma_slice_of_member_at(s, ms[0], t);
    assert(crate::overrides::first_anchor(s, ms) == Some(s[t].id));
    lemma_move_all_noop(s, ms, t);
    let r = crate::model::reason_view(
        "override-must-link"@,
        crate::overrides::or_default(rule.reason, "Members were forced to stay together by override."@),
    );
    let out = settle(s, s[t].id, r);
    assert(out == must_link_step(s, rule));
    lemma_sorted_dedup_same(s[t].members);
    assert forall|j: int| 0 <= j < s.len() implies #[trigger] same_core(s[j], out[j]) by {}
}

proof fn lemma_round2(s: Seq<SliceView>, rules: Seq<MustLinkView>)
    requires
        forall|i: int| 0 <= i < rules.len() ==> settled(s, #[trigger] rules[i].members),
    ensures
        core_eq(s, apply_must_link(s, rules)),
    decreases rules.len(),
{
    if rules.len() == 0 {
        assert forall|j: int| 0 <= j < s.len() implies #[trigger] same_core(s[j], s[j]) by {}
    } else {
        let p = rules.drop_last();
        assert forall|i: int| 0 <= i < p.len() implies settled(s, #[trigger] p[i].members) by {
            assert(p[i] == rules[i]);
        }
        lemma_round2(s, p);
        let t = apply_must_link(s, p);
        let rule = rules.last();
        assert(settled(s, rules[rules.len() - 1].members));
        let out = must_link_step(t, rule);
        if rule.members.len() == 0 {
            assert(out == t);
        } else {
            let w = choose|w: int| #[trigger] home(s, rule.members, w);
            assert(idmem_eq(s, t)) by {
                assert forall|j: int| 0 <= j < s.len() implies #[trigger] same_idmem(s[j], t[j]) by {
                    assert(same_core(s[j], t[j]));
                }
            }
            lemma_home_transfer(s, t, rule.members, w);
            lemma_link_again(t, rule, w);
        }
        assert forall|j: int| 0 <= j < s.len() implies #[trigger] same_core(s[j], out[j]) by {
            assert(same_core(s[j], t[j]));
            assert(same_core(t[j], out[j]));
        }
    }
}


proof fn lemma_move_shadows(s: Seq<SliceView>, m: Str, target: Str)
    requires
        shadows_empty(s),
    ensures
        shadows_empty(move_member_spec(s, m, target)),
{
    let t = s.map_values(|sl: SliceView| strip_member(sl, m, target));
    let k = first_with_id(s, target);
    lemma_fwi_range(s, target);
    lemma_fwi_min(s, target);
    let r = move_member_spec(s, m, target);
    assert forall|j: int| 0 <= j < s.len() implies #[trigger] t[j].id == s[j].id by {
        assert(t[j] == strip_member(s[j], m, target));
    }
    assert forall|i: int, j: int|
        0 <= i < j < r.len() && #[trigger] r[i].id == #[trigger] r[j].id implies r[j].members.len() == 0 by {
        assert(t[i].id == s[i].id && t[j].id == s[j].id);
        if k < s.len() && j == k {
            lemma_fwi_valid(s, target);
            assert(s[i].id != target);
        } else {
            assert(r[j] == t[j]);
            assert(r[i].id == s[i].id) by {
                if k < s.len() && i == k {
                } else {
                    assert(r[i] == t[i]);
                }
            }
            assert(s[j].members.len() == 0);
            assert(t[j] == strip_member(s[j], m, target));
            lemma_filter_empty(s[j].members, other_than(m));
        }
    }
}

proof fn lemma_settle_shadows(s: Seq<SliceView>, id: Str, r: crate::model::ReasonView)
    requires
        shadows_empty(s),
    ensures
        shadows_empty(settle(s, id, r)),
{
    let k = first_with_id(s, id);
    lemma_fwi_range(s, id);
    lemma_fwi_min(s, id);
    if k < s.len() {
        let t = settle(s, id, r);
        lemma_fwi_valid(s, id);
        assert forall|i: int, j: int|
            0 <= i < j < t.len() && #[trigger] t[i].id == #[trigger] t[j].id implies t[j].members.len() == 0 by {
            assert(t[i].id == s[i].id);
            if j == k {
                assert(s[i].id != id);
            } else {
                assert(t[j] == s[j]);
            }
        }
    }
}

proof fn lemma_push_shadows(s: Seq<SliceView>, sl: SliceView)
    requires
        shadows_empty(s),
        sl.members.len() == 0,
    ensures
        shadows_empty(s.push(sl)),
{
    let t = s.push(sl);
    assert forall|i: int, j: int|
        0 <= i < j < t.len() && #[trigger] t[i].id == #[trigger] t[j].id implies t[j].members.len() == 0 by {
        if j < s.len() {
            assert(t[i] == s[i] && t[j] == s[j]);
        }
    }
}

proof fn lemma_move_all_shadows(s: Seq<SliceView>, ms: Seq<Str>, target: Str)
    requires
        shadows_empty(s),
    ensures
        shadows_empty(move_all(s, ms, target)),
    decreases ms.len(),
{
    if ms.len() > 0 {
        lemma_move_all_shadows(s, ms.drop_last(), target);
        lemma_move_shadows(move_all(s, ms.drop_last(), target), ms.last(), target);
    }
}

proof fn lemma_link_shadows(s: Seq<SliceView>, rule: MustLinkView)
    requires
        shadows_empty(s),
    ensures
        shadows_empty(must_link_step(s, rule)),
{
    if rule.members.len() > 0 {
        let anchor = crate::overrides::first_anchor(s, rule.members);
        let target = match anchor {
            Some(a) => a,
            None => crate::overrides::bundle_id(rule.members),
        };
        let bundle = crate::overrides::bundle_view(target);
        let base = if anchor is Some {
            s
        } else {
            s.push(bundle)
        };
        if anchor is None {
            assert(bundle.members =~= Seq::<Str>::empty());
            lemma_push_shadows(s, bundle);
        }
        lemma_move_all_shadows(base, rule.members, target);
        let r = crate::model::reason_view(
            "override-must-link"@,
            crate::overrides::or_default(rule.reason, "Members were forced to stay together by override."@),
        );
        lemma_settle_shadows(move_all(base, rule.members, target), target, r);
    }
}

/// Moving a member that is not one of `ms` leaves the home of `ms` alone.
proof fn lemma_move_keeps_home(s: Seq<SliceView>, m: Str, target: Str, ms: Seq<Str>, t: int)
    requires
        home(s, ms, t),
        forall|i: int| 0 <= i < ms.len() ==> #[trigger] ms[i] != m,
    ensures
        home(move_member_spec(s, m, target), ms, t),
{
    let tt = s.map_values(|sl: SliceView| strip_member(sl, m, target));
    let k = first_with_id(s, target);
    lemma_fwi_range(s, target);
    let r = move_member_spec(s, m, target);
    lemma_move_extends(s, m, target);
    assert forall|j: int| 0 <= j < s.len() implies #[trigger] s[j].id == r[j].id by {}
    lemma_fwi_same_ids(s, r, s[t].id);
    assert forall|j: int| 0 <= j < s.len() && s[j].id != target implies #[trigger] tt[j].members
        == s[j].members.filter(other_than(m)) by {
        assert(tt[j] == strip_member(s[j], m, target));
    }
    assert forall|j: int| 0 <= j < s.len() && s[j].id == target implies #[trigger] tt[j] == s[j] by {
        assert(tt[j] == strip_member(s[j], m, target));
    }
    if k < s.len() {
        lemma_fwi_valid(s, target);
        assert(tt[k] == s[k]);
        lemma_sort_dedup(tt[k].members.push(m));
    }
    // The home keeps its members, sorted.
    assert(crate::order::sorted_strict(r[t].members) && forall|i: int|
        0 <= i < ms.len() ==> r[t].members.contains(#[trigger] ms[i])) by {
        if s[t].id != target {
            lemma_filter_sorted(s[t].members, m);
            assert(k != t);
            assert(r[t] == tt[t]);
            assert forall|i: int| 0 <= i < ms.len() implies r[t].members.contains(#[trigger] ms[i]) by {
                assert(s[t].members.contains(ms[i]));
            }
        } else {
            assert(k == t);
            assert forall|i: int| 0 <= i < ms.len() implies r[t].members.contains(#[trigger] ms[i]) by {
                assert(s[t].members.contains(ms[i]));
                let q = choose|q: int| 0 <= q < s[t].members.len() && s[t].members[q] == ms[i];
                assert(tt[t].members.push(m)[q] == ms[i]);
            }
        }
    }
    // Others do not gain them.
    assert forall|j: int, i: int|
        0 <= j < r.len() && j != t && 0 <= i < ms.len() implies !(#[trigger] r[j].members.contains(
            #[trigger] ms[i],
        )) by {
        assert(!s[j].members.contains(ms[i]));
        assert(ms[i] != m);
        if k < s.len() && j == k {
            if tt[k].members.push(m).contains(ms[i]) {
                let q = choose|q: int| 0 <= q < tt[k].members.push(m).len() && tt[k].members.push(m)[q] == ms[i];
                assert(q < tt[k].members.len());
                assert(tt[k].members[q] == ms[i]);
                assert(tt[k] == s[k]);
            }
        } else {
            assert(r[j] == tt[j]);
            if s[j].id != target {
                if s[j].members.filter(other_than(m)).contains(ms[i]) {
                    s[j].members.lemma_filter_contains_rev(other_than(m), ms[i]);
                }
            }
        }
    }
}

proof fn lemma_move_all_keeps_home(s: Seq<SliceView>, ns: Seq<Str>, target: Str, ms: Seq<Str>, t: int)
    requires
        home(s, ms, t),
        forall|a: int, b: int| 0 <= a < ns.len() && 0 <= b < ms.len() ==> #[trigger] ns[a] != #[trigger] ms[b],
    ensures
        home(move_all(s, ns, target), ms, t),
    decreases ns.len(),
{
    if ns.len() > 0 {
        let p = ns.drop_last();
        assert forall|a: int, b: int| 0 <= a < p.len() && 0 <= b < ms.len() implies #[trigger] p[a] != #[trigger] ms[b] by {
            assert(p[a] == ns[a]);
        }
        lemma_move_all_keeps_home(s, p, target, ms, t);
        assert forall|i: int| 0 <= i < ms.len() implies #[trigger] ms[i] != ns.last() by {
            assert(ns[ns.len() - 1] != ms[i]);
        }
        lemma_move_keeps_home(move_all(s, p, target), ns.last(), target, ms, t);
    }
}

proof fn lemma_settle_keeps_home(s: Seq<SliceView>, id: Str, r: crate::model::ReasonView, ms: Seq<Str>, t: int)
    requires
        home(s, ms, t),
    ensures
        home(settle(s, id, r), ms, t),
{
    let k = first_with_id(s, id);
    lemma_fwi_range(s, id);
    if k < s.len() {
        let out = settle(s, id, r);
        lemma_sort_dedup(s[k].members);
        assert forall|j: int| 0 <= j < s.len() implies #[trigger] s[j].id == out[j].id && (j != k ==> s[j]
            == out[j]) by {}
        lemma_fwi_same_ids(s, out, s[t].id);
        assert forall|i: int| 0 <= i < ms.len() implies out[t].members.contains(#[trigger] ms[i]) by {
            assert(s[t].members.contains(ms[i]));
        }
        assert forall|j: int, i: int|
            0 <= j < out.len() && j != t && 0 <= i < ms.len() implies !(#[trigger] out[j].members.contains(
                #[trigger] ms[i],
            )) by {
            assert(!s[j].members.contains(ms[i]));
        }
    }
}

proof fn lemma_push_keeps_home(s: Seq<SliceView>, sl: SliceView, ms: Seq<Str>, t: int)
    requires
        home(s, ms, t),
        sl.members.len() == 0,
    ensures
        home(s.push(sl), ms, t),
{
    lemma_fwi_push(s, sl, s[t].id);
    let out = s.push(sl);
    assert forall|j: int, i: int|
        0 <= j < out.len() && j != t && 0 <= i < ms.len() implies !(#[trigger] out[j].members.contains(
            #[trigger] ms[i],
        )) by {
        if j < s.len() {
            assert(out[j] == s[j]);
        }
    }
}

/// A must_link rule whose members share none with `ms` leaves their home.
proof fn lemma_link_keeps_home(s: Seq<SliceView>, rule: MustLinkView, ms: Seq<Str>, t: int)
    requires
        home(s, ms, t),
        forall|a: int, b: int|
            0 <= a < rule.members.len() && 0 <= b < ms.len() ==> #[trigger] rule.members[a]
                != #[trigger] ms[b],
    ensures
        home(must_link_step(s, rule), ms, t),
{
    if rule.members.len() > 0 {
        let anchor = crate::overrides::first_anchor(s, rule.members);
        let target = match anchor {
            Some(a) => a,
            None => crate::overrides::bundle_id(rule.members),
        };
        let bundle = crate::overrides::bundle_view(target);
        let base = if anchor is Some {
            s
        } else {
            s.push(bundle)
        };
        if anchor is None {
            assert(bundle.members =~= Seq::<Str>::empty());
            lemma_push_keeps_home(s, bundle, ms, t);
        }
        lemma_move_all_keeps_home(base, rule.members, target, ms, t);
        let r = crate::model::reason_view(
            "override-must-link"@,
            crate::overrides::or_default(rule.reason, "Members were forced to stay together by override."@),
        );
        lemma_settle_keeps_home(move_all(base, rule.members, target), target, r, ms, t);
    }
}


proof fn lemma_move_into_home(s: Seq<SliceView>, p: Seq<Str>, m: Str, target: Str, k: int)
    requires
        shadows_empty(s),
        first_with_id(s, target) == k,
        k < s.len(),
        p.len() == 0 || home(s, p, k),
    ensures
        home(move_member_spec(s, m, target), p.push(m), k),
{
    let tt = s.map_values(|sl: SliceView| strip_member(sl, m, target));
    lemma_fwi_range(s, target);
    lemma_fwi_valid(s, target);
    lemma_fwi_min(s, target);
    let r = move_member_spec(s, m, target);
    let ms = p.push(m);
    assert(tt[k] == s[k]);
    let nk = SliceView { members: sort_dedup(tt[k].members.push(m)), ..tt[k] };
    assert(r == tt.update(k, nk));
    lemma_sort_dedup(tt[k].members.push(m));
    lemma_move_extends(s, m, target);
    assert forall|j: int| 0 <= j < s.len() implies #[trigger] s[j].id == r[j].id by {}
    lemma_fwi_same_ids(s, r, target);
    assert(r[k].id == target);
    assert(tt[k].members.push(m)[s[k].members.len() as int] == m);
    assert forall|i: int| 0 <= i < ms.len() implies r[k].members.contains(#[trigger] ms[i]) by {
        if i < p.len() {
            assert(ms[i] == p[i]);
            assert(s[k].members.contains(p[i]));
            let q = choose|q: int| 0 <= q < s[k].members.len() && s[k].members[q] == p[i];
            assert(tt[k].members.push(m)[q] == p[i]);
        } else {
            assert(ms[i] == m);
        }
    }
    assert forall|j: int, i: int|
        0 <= j < r.len() && j != k && 0 <= i < ms.len() implies !(#[trigger] r[j].members.contains(
            #[trigger] ms[i],
        )) by {
        assert(r[j] == tt[j]);
        assert(tt[j] == strip_member(s[j], m, target));
        if s[j].id == target {
            assert(j > k);
            assert(s[k].id == s[j].id);
            assert(s[j].members.len() == 0);
        } else {
            let f = s[j].members.filter(other_than(m));
            if f.contains(ms[i]) {
                let q = choose|q: int| 0 <= q < f.len() && f[q] == ms[i];
                s[j].members.lemma_filter_pred(other_than(m), q);
                s[j].members.lemma_filter_contains_rev(other_than(m), ms[i]);
                if i < p.len() {
                    assert(ms[i] == p[i]);
                    assert(!s[j].members.contains(p[i]));
                }
            }
        }
    }
}

proof fn lemma_move_all_home(s: Seq<SliceView>, ms: Seq<Str>, target: Str)
    requires
        shadows_empty(s),
        first_with_id(s, target) < s.len(),
        ms.len() > 0,
    ensures
        home(move_all(s, ms, target), ms, first_with_id(s, target)),
    decreases ms.len(),
{
    let k = first_with_id(s, target);
    let p = ms.drop_last();
    let t = move_all(s, p, target);
    lemma_move_all_extends(s, p, target);
    assert forall|j: int| 0 <= j < s.len() implies #[trigger] s[j].id == t[j].id by {}
    lemma_fwi_same_ids(s, t, target);
    lemma_move_all_shadows(s, p, target);
    if p.len() > 0 {
        lemma_move_all_home(s, p, target);
    }
    lemma_move_into_home(t, p, ms.last(), target, k);
    assert(p.push(ms.last()) =~= ms);
}

/// A must_link rule leaves its members living together.
proof fn lemma_link_first(s: Seq<SliceView>, rule: MustLinkView)
    requires
        shadows_empty(s),
        rule.members.len() > 0,
    ensures
        settled(must_link_step(s, rule), rule.members),
{
    let anchor = crate::overrides::first_anchor(s, rule.members);
    let target = match anchor {
        Some(a) => a,
        None => crate::overrides::bundle_id(rule.members),
    };
    let bundle = crate::overrides::bundle_view(target);
    let base = if anchor is Some {
        s
    } else {
        s.push(bundle)
    };
    if anchor is None {
        assert(bundle.members =~= Seq::<Str>::empty());
        lemma_push_shadows(s, bundle);
        assert(base[s.len() as int].id == target);
    } else {
        lemma_first_anchor_id(s, rule.members);
    }
    assert(is_slice_id(base, target));
    lemma_first_found(base, target);
    let k = first_with_id(base, target);
    lemma_move_all_home(base, rule.members, target);
    let moved = move_all(base, rule.members, target);
    let r = crate::model::reason_view(
        "override-must-link"@,
        crate::overrides::or_default(rule.reason, "Members were forced to stay together by override."@),
    );
    lemma_settle_keeps_home(moved, target, r, rule.members, k);
    assert(settle(moved, target, r) == must_link_step(s, rule));
    assert(home(must_link_step(s, rule), rule.members, k));
}

/// must_link groups that share no member.
pub open spec fn groups_disjoint(rules: Seq<MustLinkView>) -> bool {
    forall|a: int, b: int, i: int, j: int|
        0 <= a < rules.len() && 0 <= b < rules.len() && a != b && 0 <= i < rules[a].members.len() && 0
            <= j < rules[b].members.len() ==> #[trigger] rules[a].members[i]
            != #[trigger] rules[b].members[j]
}

proof fn lemma_round1(s: Seq<SliceView>, rules: Seq<MustLinkView>)
    requires
        shadows_empty(s),
        groups_disjoint(rules),
    ensures
        shadows_empty(apply_must_link(s, rules)),
        forall|i: int| 0 <= i < rules.len() ==> settled(apply_must_link(s, rules), #[trigger] rules[i].members),
    decreases rules.len(),
{
    if rules.len() > 0 {
        let p = rules.drop_last();
        let n = rules.len() - 1;
        assert forall|a: int, b: int, i: int, j: int|
            0 <= a < p.len() && 0 <= b < p.len() && a != b && 0 <= i < p[a].members.len() && 0 <= j
                < p[b].members.len() implies #[trigger] p[a].members[i] != #[trigger] p[b].members[j] by {
            assert(p[a] == rules[a] && p[b] == rules[b]);
        }
        lemma_round1(s, p);
        let t = apply_must_link(s, p);
        let rule = rules.last();
        assert(rules[n] == rule);
        lemma_link_shadows(t, rule);
        let out = must_link_step(t, rule);
        assert(out == apply_must_link(s, rules));
        assert forall|i: int| 0 <= i < rules.len() implies settled(out, #[trigger] rules[i].members) by {
            if i == n {
                if rule.members.len() > 0 {
                    lemma_link_first(t, rule);
                }
            } else {
                assert(rules[i] == p[i]);
                assert(settled(t, p[i].members));
                if p[i].members.len() > 0 {
                    let w = choose|w: int| #[trigger] home(t, p[i].members, w);
                    assert forall|a: int, b: int|
                        0 <= a < rule.members.len() && 0 <= b < p[i].members.len() implies #[trigger] rule.members[a]
                            != #[trigger] p[i].members[b] by {
                        assert(rules[n].members[a] != rules[i].members[b]);
                    }
                    lemma_link_keeps_home(t, rule, p[i].members, w);
                }
            }
        }
    }
}


/// The title the last rename rule naming slice `j` gives it, if any.
pub open spec fn last_title(s: Seq<SliceView>, rules: Seq<RenameView>, j: int) -> Option<Str>
    decreases rules.len(),
{
    if rules.len() == 0 {
        None
    } else if first_with_id(s, rules.last().id) == j {
        Some(rules.last().title)
    } else {
        last_title(s, rules.drop_last(), j)
    }
}

proof fn lemma_last_title_ids(a: Seq<SliceView>, b: Seq<SliceView>, rules: Seq<RenameView>, j: int)
    requires
        a.len() == b.len(),
        forall|q: int| 0 <= q < a.len() ==> #[trigger] a[q].id == b[q].id,
    ensures
        last_title(a, rules, j) == last_title(b, rules, j),
    decreases rules.len(),
{
    if rules.len() > 0 {
        lemma_fwi_same_ids(a, b, rules.last().id);
        lemma_last_title_ids(a, b, rules.drop_last(), j);
    }
}

/// Renaming keeps ids, members and dependencies, and gives each slice the
/// title of the last rule that names it.
proof fn lemma_rename_shape(s: Seq<SliceView>, rules: Seq<RenameView>)
    ensures
        apply_rename(s, rules).len() == s.len(),
        forall|j: int|
            0 <= j < s.len() ==> {
                let r = #[trigger] apply_rename(s, rules)[j];
                &&& r.id == s[j].id
                &&& r.members == s[j].members
                &&& r.depends_on == s[j].depends_on
                &&& r.title == match last_title(s, rules, j) {
                    Some(t) => t,
                    None => s[j].title,
                }
            },
    decreases rules.len(),
{
    if rules.len() > 0 {
        let p = rules.drop_last();
        lemma_rename_shape(s, p);
        let t = apply_rename(s, p);
        let rule = rules.last();
        assert forall|q: int| 0 <= q < t.len() implies #[trigger] t[q].id == s[q].id by {
            assert(apply_rename(s, p)[q].id == s[q].id);
        }
        lemma_fwi_same_ids(t, s, rule.id);
        lemma_fwi_range(t, rule.id);
        let out = apply_rename(s, rules);
        assert(out == rename_step(t, rule));
        assert forall|j: int| 0 <= j < s.len() implies {
            let r = #[trigger] apply_rename(s, rules)[j];
            &&& r.id == s[j].id
            &&& r.members == s[j].members
            &&& r.depends_on == s[j].depends_on
            &&& r.title == match last_title(s, rules, j) {
                Some(tt) => tt,
                None => s[j].title,
            }
        } by {
            assert(apply_rename(s, p)[j] == t[j]);
        }
    }
}

proof fn lemma_core_sym(a: Seq<SliceView>, b: Seq<SliceView>)
    requires
        core_eq(a, b),
    ensures
        core_eq(b, a),
{
    assert forall|j: int| 0 <= j < b.len() implies #[trigger] same_core(b[j], a[j]) by {
        assert(same_core(a[j], b[j]));
    }
}

proof fn lemma_core_trans(a: Seq<SliceView>, b: Seq<SliceView>, c: Seq<SliceView>)
    requires
        core_eq(a, b),
        core_eq(b, c),
    ensures
        core_eq(a, c),
{
    assert forall|j: int| 0 <= j < a.len() implies #[trigger] same_core(a[j], c[j]) by {
        assert(same_core(a[j], b[j]));
        assert(same_core(b[j], c[j]));
    }
}

proof fn lemma_rename_core(a: Seq<SliceView>, b: Seq<SliceView>, rules: Seq<RenameView>)
    requires
        core_eq(a, b),
    ensures
        core_eq(apply_rename(a, rules), apply_rename(b, rules)),
{
    lemma_rename_shape(a, rules);
    lemma_rename_shape(b, rules);
    assert forall|q: int| 0 <= q < a.len() implies #[trigger] a[q].id == b[q].id by {
        assert(same_core(a[q], b[q]));
    }
    assert forall|j: int| 0 <= j < a.len() implies #[trigger] same_core(
        apply_rename(a, rules)[j],
        apply_rename(b, rules)[j],
    ) by {
        assert(same_core(a[j], b[j]));
        lemma_last_title_ids(a, b, rules, j);
    }
}

proof fn lemma_rename_twice(x: Seq<SliceView>, rules: Seq<RenameView>)
    ensures
        core_eq(apply_rename(x, rules), apply_rename(apply_rename(x, rules), rules)),
{
    let y = apply_rename(x, rules);
    lemma_rename_shape(x, rules);
    lemma_rename_shape(y, rules);
    assert forall|q: int| 0 <= q < y.len() implies #[trigger] y[q].id == x[q].id by {
        assert(apply_rename(x, rules)[q].id == x[q].id);
    }
    assert forall|j: int| 0 <= j < y.len() implies #[trigger] same_core(y[j], apply_rename(y, rules)[j]) by {
        assert(apply_rename(x, rules)[j] == y[j]);
        lemma_last_title_ids(y, x, rules, j);
    }
}

// ---------------------------------------------------------------------------
// A second application of the must_order rules
// ---------------------------------------------------------------------------

/// The slices with `b` added, sorted, to the dependencies of slice `k`.
pub open spec fn edge_added(s: Seq<SliceView>, k: int, b: Str) -> Seq<SliceView> {
    s.update(k, SliceView { depends_on: sort_dedup(s[k].depends_on.push(b)), ..s[k] })
}

/// The graph is a DAG, or its ids clash (and no must_order edge is ever kept).
pub open spec fn tame(s: Seq<SliceView>) -> bool {
    acyclic(s) || !ids_distinct(s)
}

/// After a must_order rule, its slice has sorted dependencies, and either
/// holds the edge in a DAG or could not take the edge without losing one.
pub open spec fn order_settled(s: Seq<SliceView>, rule: OrderView) -> bool {
    let k = first_with_id(s, rule.after);
    k < s.len() ==> {
        &&& crate::order::sorted_strict(s[k].depends_on)
        &&& {
            ||| s[k].depends_on.contains(rule.before) && acyclic(s)
            ||| !s[k].depends_on.contains(rule.before) && !acyclic(edge_added(s, k, rule.before))
        }
    }
}

proof fn lemma_push_contains(a: Seq<Str>, m: Str)
    ensures
        forall|y: Str| #[trigger] a.push(m).contains(y) <==> (a.contains(y) || y == m),
{
    assert forall|y: Str| #[trigger] a.push(m).contains(y) <==> (a.contains(y) || y == m) by {
        if a.push(m).contains(y) {
            let q = choose|q: int| 0 <= q < a.push(m).len() && a.push(m)[q] == y;
            if q < a.len() {
                assert(a[q] == y);
            }
        }
        if a.contains(y) {
            let q = choose|q: int| 0 <= q < a.len() && a[q] == y;
            assert(a.push(m)[q] == y);
        }
        if y == m {
            assert(a.push(m)[a.len() as int] == y);
        }
    }
}

/// The dependency list a rejected must_order rule leaves: sorted, without
/// `b`, and otherwise the old dependencies.
proof fn lemma_rejected_deps(d: Seq<Str>, b: Str)
    ensures
        sort_dedup(d.push(b)).filter(|x: Str| x != b) == sort_dedup(d.push(b)).filter(other_than(b)),
        crate::order::sorted_strict(sort_dedup(d.push(b)).filter(other_than(b))),
        forall|y: Str| #[trigger] sort_dedup(d.push(b)).filter(other_than(b)).contains(y) <==> (
            d.contains(y) && y != b),
        crate::order::sorted_strict(d) && !d.contains(b) ==> sort_dedup(d.push(b)).filter(
            other_than(b),
        ) == d,
{
    let l = sort_dedup(d.push(b));
    lemma_sort_dedup(d.push(b));
    lemma_push_contains(d, b);
    assert((|x: Str| x != b) =~= other_than(b));
    lemma_filter_sorted(l, b);
    if crate::order::sorted_strict(d) && !d.contains(b) {
        crate::order::lemma_sorted_unique(l.filter(other_than(b)), d);
    }
}

/// Same ids and the same dependencies, or fewer: a DAG stays a DAG.
proof fn lemma_same_graph(s: Seq<SliceView>, t: Seq<SliceView>)
    requires
        t.len() == s.len(),
        forall|j: int| 0 <= j < s.len() ==> #[trigger] t[j].id == s[j].id,
        forall|j: int, y: Str| 0 <= j < s.len() && #[trigger] t[j].depends_on.contains(y) ==> s[j].depends_on.contains(y),
    ensures
        acyclic(s) ==> acyclic(t),
        !ids_distinct(s) ==> !ids_distinct(t),
        !ids_distinct(s) ==> !acyclic(t),
{
    if acyclic(s) {
        assert forall|j: int, k: int|
            0 <= j < t.len() && 0 <= k < t[j].depends_on.len() implies s[j].depends_on.contains(
                #[trigger] t[j].depends_on[k],
            ) by {
            assert(t[j].depends_on.contains(t[j].depends_on[k]));
        }
        lemma_fewer_deps_acyclic(s, t);
    }
    if !ids_distinct(s) {
        let (i, j) = choose|i: int, j: int| 0 <= i < j < s.len() && #[trigger] s[i].id == #[trigger] s[j].id;
        assert(t[i].id == t[j].id);
    }
}

/// Slices with the same ids as slices whose ids clash are no DAG.
proof fn lemma_clash(s: Seq<SliceView>, t: Seq<SliceView>)
    requires
        t.len() == s.len(),
        forall|j: int| 0 <= j < s.len() ==> #[trigger] t[j].id == s[j].id,
        !ids_distinct(s),
    ensures
        !acyclic(t),
{
    let (i, j) = choose|i: int, j: int| 0 <= i < j < s.len() && #[trigger] s[i].id == #[trigger] s[j].id;
    assert(t[i].id == t[j].id);
}

/// What one must_order rule does to the graph: ids, titles and members stay;
/// only the rule's slice changes its dependencies; in a DAG it loses none and
/// keeps them sorted, and when the ids clash it only loses some.
proof fn lemma_order_step_graph(t: Seq<SliceView>, rule: OrderView)
    requires
        tame(t),
    ensures
        order_step(t, rule).0.len() == t.len(),
        tame(order_step(t, rule).0),
        acyclic(t) ==> acyclic(order_step(t, rule).0),
        forall|j: int|
            0 <= j < t.len() ==> #[trigger] order_step(t, rule).0[j].id == t[j].id
                && order_step(t, rule).0[j].title == t[j].title
                && order_step(t, rule).0[j].members == t[j].members,
        forall|j: int|
            0 <= j < t.len() && j != first_with_id(t, rule.after) ==> #[trigger] order_step(t, rule).0[j].depends_on
                == t[j].depends_on,
        first_with_id(t, rule.after) < t.len() ==> crate::order::sorted_strict(
            order_step(t, rule).0[first_with_id(t, rule.after)].depends_on,
        ),
        acyclic(t) ==> (forall|j: int, y: Str|
            0 <= j < t.len() && #[trigger] t[j].depends_on.contains(y) ==> order_step(t, rule).0[j].depends_on.contains(y)),
        !acyclic(t) ==> (forall|j: int, y: Str|
            0 <= j < t.len() && #[trigger] order_step(t, rule).0[j].depends_on.contains(y) ==> t[j].depends_on.contains(y)),
{
    let out = order_step(t, rule).0;
    let k = first_with_id(t, rule.after);
    let b = rule.before;
    lemma_fwi_range(t, rule.after);
    lemma_order_step(t, rule);
    if k < t.len() {
        let d = t[k].depends_on;
        let added = edge_added(t, k, b);
        lemma_sort_dedup(d.push(b));
        lemma_push_contains(d, b);
        lemma_rejected_deps(d, b);
        assert forall|j: int| 0 <= j < t.len() implies #[trigger] added[j].id == t[j].id by {}
        if acyclic(added) {
            assert(out[k].depends_on == sort_dedup(d.push(b)));
            if !acyclic(t) {
                lemma_same_graph(added, t);
            }
        } else {
            assert(out[k].depends_on == sort_dedup(d.push(b)).filter(|x: Str| x != b));
            if acyclic(t) && d.contains(b) {
                lemma_same_graph(t, added);
            }
        }
        assert forall|j: int| 0 <= j < t.len() implies #[trigger] out[j].id == t[j].id && out[j].title
            == t[j].title && out[j].members == t[j].members by {}
        if !acyclic(t) {
            lemma_same_graph(t, out);
        }
    } else {
        assert(out == t);
    }
}

/// One must_order rule keeps an earlier rule settled.
proof fn lemma_step_keeps_settled(t: Seq<SliceView>, rule: OrderView, q: OrderView)
    requires
        tame(t),
        order_settled(t, q),
    ensures
        order_settled(order_step(t, rule).0, q),
{
    let out = order_step(t, rule).0;
    lemma_order_step_graph(t, rule);
    let k = first_with_id(t, rule.after);
    let kq = first_with_id(t, q.after);
    lemma_fwi_range(t, q.after);
    lemma_fwi_range(t, rule.after);
    lemma_fwi_same_ids(out, t, q.after);
    if kq < t.len() {
        let bq = q.before;
        if acyclic(t) {
            if !out[kq].depends_on.contains(bq) {
                assert(!t[kq].depends_on.contains(bq));
                let et = edge_added(t, kq, bq);
                let eo = edge_added(out, kq, bq);
                lemma_sort_dedup(t[kq].depends_on.push(bq));
                lemma_sort_dedup(out[kq].depends_on.push(bq));
                lemma_push_contains(t[kq].depends_on, bq);
                lemma_push_contains(out[kq].depends_on, bq);
                assert forall|j: int, y: Str| 0 <= j < eo.len() && #[trigger] et[j].depends_on.contains(y) implies eo[j].depends_on.contains(y) by {
                    if j != kq {
                        assert(t[j].depends_on.contains(y));
                    }
                }
                lemma_same_graph(eo, et);
            }
            if kq != k {
                assert(out[kq].depends_on == t[kq].depends_on);
            }
        } else {
            let eo = edge_added(out, kq, bq);
            assert forall|j: int| 0 <= j < t.len() implies #[trigger] eo[j].id == t[j].id by {}
            lemma_clash(t, eo);
            if kq != k {
                assert(out[kq].depends_on == t[kq].depends_on);
            }
        }
    }
}

/// After a must_order rule, that rule is settled.
proof fn lemma_step_settles(t: Seq<SliceView>, rule: OrderView)
    requires
        tame(t),
    ensures
        order_settled(order_step(t, rule).0, rule),
{
    let out = order_step(t, rule).0;
    lemma_order_step_graph(t, rule);
    let k = first_with_id(t, rule.after);
    lemma_fwi_range(t, rule.after);
    lemma_fwi_same_ids(out, t, rule.after);
    if k < t.len() {
        let b = rule.before;
        let d = t[k].depends_on;
        let added = edge_added(t, k, b);
        lemma_sort_dedup(d.push(b));
        lemma_push_contains(d, b);
        lemma_rejected_deps(d, b);
        if acyclic(added) {
            assert(out[k].depends_on == sort_dedup(d.push(b)));
            lemma_same_graph(added, t);
        } else {
            assert(out[k].depends_on == sort_dedup(d.push(b)).filter(|x: Str| x != b));
            let eo = edge_added(out, k, b);
            lemma_sort_dedup(out[k].depends_on.push(b));
            lemma_push_contains(out[k].depends_on, b);
            assert forall|j: int, y: Str| 0 <= j < eo.len() && #[trigger] added[j].depends_on.contains(y) implies eo[j].depends_on.contains(y) by {
                if j != k {
                    assert(added[j] == t[j]);
                }
            }
            assert forall|j: int| 0 <= j < eo.len() implies #[trigger] added[j].id == eo[j].id by {}
            lemma_same_graph(eo, added);
        }
    }
}

/// The must_order rules, applied once, leave every one of them settled.
proof fn lemma_order_round1(s: Seq<SliceView>, rules: Seq<OrderView>)
    requires
        rules.len() == 0 || tame(s),
    ensures
        tame(s) ==> tame(apply_order(s, rules).0),
        apply_order(s, rules).0.len() == s.len(),
        forall|j: int|
            0 <= j < s.len() ==> #[trigger] apply_order(s, rules).0[j].id == s[j].id
                && apply_order(s, rules).0[j].title == s[j].title
                && apply_order(s, rules).0[j].members == s[j].members,
        forall|i: int| 0 <= i < rules.len() ==> order_settled(apply_order(s, rules).0, #[trigger] rules[i]),
    decreases rules.len(),
{
    if rules.len() > 0 {
        let p = rules.drop_last();
        lemma_order_round1(s, p);
        let t = apply_order(s, p).0;
        let rule = rules.last();
        let out = order_step(t, rule).0;
        assert(out == apply_order(s, rules).0);
        lemma_order_step_graph(t, rule);
        lemma_step_settles(t, rule);
        assert forall|i: int| 0 <= i < rules.len() implies order_settled(out, #[trigger] rules[i]) by {
            if i < p.len() {
                assert(rules[i] == p[i]);
                lemma_step_keeps_settled(t, rule, p[i]);
            }
        }
        assert forall|j: int| 0 <= j < s.len() implies #[trigger] out[j].id == s[j].id && out[j].title
            == s[j].title && out[j].members == s[j].members by {
            assert(apply_order(s, p).0[j] == t[j]);
        }
    }
}

/// A settled must_order rule, applied again to slices that agree with the
/// settled ones, changes nothing but the reasons.
proof fn lemma_order_again(t: Seq<SliceView>, f: Seq<SliceView>, rule: OrderView)
    requires
        core_eq(t, f),
        order_settled(f, rule),
    ensures
        core_eq(order_step(t, rule).0, f),
{
    assert forall|q: int| 0 <= q < t.len() implies #[trigger] t[q].id == f[q].id by {
        assert(same_core(t[q], f[q]));
    }
    lemma_fwi_same_ids(t, f, rule.after);
    let k = first_with_id(t, rule.after);
    lemma_fwi_range(t, rule.after);
    let out = order_step(t, rule).0;
    if k < t.len() {
        let b = rule.before;
        assert(same_core(t[k], f[k]));
        let d = t[k].depends_on;
        let added = edge_added(t, k, b);
        if f[k].depends_on.contains(b) {
            lemma_sorted_push_same(d, b);
            assert(added[k] == t[k]);
            assert(added =~= t);
            assert forall|j: int, y: Str| 0 <= j < t.len() && #[trigger] t[j].depends_on.contains(y) implies f[j].depends_on.contains(y) by {
                assert(same_core(t[j], f[j]));
            }
            lemma_same_graph(f, t);
            assert(acyclic(added));
            assert forall|j: int| 0 <= j < out.len() implies #[trigger] same_core(out[j], f[j]) by {
                assert(same_core(t[j], f[j]));
            }
        } else {
            let ef = edge_added(f, k, b);
            assert forall|j: int, y: Str| 0 <= j < t.len() && #[trigger] ef[j].depends_on.contains(y) implies added[j].depends_on.contains(y) by {
                assert(same_core(t[j], f[j]));
            }
            assert forall|j: int| 0 <= j < t.len() implies #[trigger] ef[j].id == added[j].id by {
                assert(same_core(t[j], f[j]));
            }
            lemma_same_graph(added, ef);
            assert(!acyclic(added));
            lemma_rejected_deps(d, b);
            assert(out[k].depends_on == d);
            assert forall|j: int| 0 <= j < out.len() implies #[trigger] same_core(out[j], f[j]) by {
                assert(same_core(t[j], f[j]));
            }
        }
    } else {
        assert(out == t);
    }
}

/// Every settled must_order rule, applied again, changes nothing but reasons.
proof fn lemma_order_round2(y: Seq<SliceView>, f: Seq<SliceView>, rules: Seq<OrderView>)
    requires
        core_eq(y, f),
        forall|i: int| 0 <= i < rules.len() ==> order_settled(f, #[trigger] rules[i]),
    ensures
        core_eq(apply_order(y, rules).0, f),
    decreases rules.len(),
{
    if rules.len() > 0 {
        let p = rules.drop_last();
        assert forall|i: int| 0 <= i < p.len() implies order_settled(f, #[trigger] p[i]) by {
            assert(p[i] == rules[i]);
        }
        lemma_order_round2(y, f, p);
        let t = apply_order(y, p).0;
        assert(order_settled(f, rules[rules.len() - 1]));
        lemma_order_again(t, f, rules.last());
    }
}

/// Renaming slices that already carry the titles renaming gives changes
/// nothing.
proof fn lemma_rename_again(x: Seq<SliceView>, f: Seq<SliceView>, rules: Seq<RenameView>)
    requires
        f.len() == x.len(),
        forall|j: int| 0 <= j < x.len() ==> #[trigger] f[j].id == x[j].id,
        forall|j: int| 0 <= j < x.len() ==> #[trigger] f[j].title == apply_rename(x, rules)[j].title,
    ensures
        core_eq(f, apply_rename(f, rules)),
{
    lemma_rename_shape(x, rules);
    lemma_rename_shape(f, rules);
    assert forall|j: int| 0 <= j < f.len() implies #[trigger] same_core(f[j], apply_rename(f, rules)[j]) by {
        lemma_last_title_ids(f, x, rules, j);
        assert(f[j].title == apply_rename(x, rules)[j].title);
    }
}

/// Applying the overrides is idempotent: for slices with distinct ids,
/// must_link groups that share no member and no force_members rules, and,
/// where there are must_order rules, an acyclic dependency graph, a second
/// application changes no slice's id, title, members or dependencies; only
/// reasons may differ.
pub proof fn law_overrides_idempotent(s: Seq<SliceView>, o: OverridesView)
    requires
        ids_distinct(s),
        groups_disjoint(o.must_link),
        o.force_members.len() == 0,
        o.must_order.len() > 0 ==> acyclic(s),
    ensures
        core_eq(apply_spec(s, o).0, apply_spec(apply_spec(s, o).0, o).0),
{
    let x = apply_must_link(s, o.must_link);
    assert(apply_force(x, o.force_members) == x);
    let s1 = apply_rename(x, o.rename_slices);
    lemma_round1(s, o.must_link);
    lemma_rename_shape(x, o.rename_slices);
    if o.must_order.len() > 0 {
        lemma_apply_must_link_extends(s, o.must_link);
        lemma_apply_rename_extends(x, o.rename_slices);
        lemma_extends_trans(s, x, s1);
        if ids_distinct(s1) {
            lemma_extends_acyclic(s, s1);
        }
    } else {
        assert(apply_order(s1, o.must_order).0 == s1);
    }
    lemma_order_round1(s1, o.must_order);
    let f = apply_order(s1, o.must_order).0;
    assert(apply_spec(s, o).0 == f);
    assert(idmem_eq(x, f)) by {
        assert forall|j: int| 0 <= j < x.len() implies #[trigger] same_idmem(x[j], f[j]) by {
            assert(apply_rename(x, o.rename_slices)[j] == s1[j]);
        }
    }
    assert forall|i: int| 0 <= i < o.must_link.len() implies settled(f, #[trigger] o.must_link[i].members) by {
        assert(settled(x, o.must_link[i].members));
        if o.must_link[i].members.len() > 0 {
            let w = choose|w: int| #[trigger] home(x, o.must_link[i].members, w);
            lemma_home_transfer(x, f, o.must_link[i].members, w);
        }
    }
    let y = apply_must_link(f, o.must_link);
    lemma_round2(f, o.must_link);
    assert(apply_force(y, o.force_members) == y);
    let y2 = apply_rename(y, o.rename_slices);
    lemma_core_sym(f, y);
    lemma_rename_core(y, f, o.rename_slices);
    assert forall|j: int| 0 <= j < x.len() implies #[trigger] f[j].id == x[j].id by {
        assert(apply_rename(x, o.rename_slices)[j] == s1[j]);
    }
    assert forall|j: int| 0 <= j < x.len() implies #[trigger] f[j].title == apply_rename(x, o.rename_slices)[j].title by {
        assert(f[j].id == s1[j].id);
        assert(f[j].title == s1[j].title);
    }
    lemma_rename_again(x, f, o.rename_slices);
    lemma_core_sym(f, apply_rename(f, o.rename_slices));
    lemma_core_trans(y2, apply_rename(f, o.rename_slices), f);
    lemma_order_round2(y2, f, o.must_order);
    let g = apply_order(y2, o.must_order).0;
    assert(apply_spec(f, o).0 == g);
    lemma_core_sym(g, f);
}

} // verus!
