//! Facts about how often ids occur in lists and among slice members.
use vstd::prelude::*;
use crate::model::{SliceView, UnitView};
use crate::order::{lemma_lt_irreflexive, lemma_sort_dedup, sort_dedup, sorted_strict};
use crate::phases::{accepts, insert_by_path, pick_ids, sort_by_path, KindFilter};
use crate::text::Str;
use crate::validate::{member_count, occurrences};

verus! {

/// No element occurs twice.
pub open spec fn no_dups(s: Seq<Str>) -> bool {
    forall|i: int, j: int| 0 <= i < j < s.len() ==> s[i] != s[j]
}

/// No two units share an id.
pub open spec fn ids_unique(u: Seq<UnitView>) -> bool {
    forall|i: int, j: int| 0 <= i < j < u.len() ==> u[i].id != u[j].id
}

/// `x` is the id of one of the units.
pub open spec fn is_unit_id(u: Seq<UnitView>, x: Str) -> bool {
    exists|i: int| 0 <= i < u.len() && #[trigger] u[i].id == x
}

/// Every slice lists each member once.
pub open spec fn members_distinct(s: Seq<SliceView>) -> bool {
    forall|j: int| 0 <= j < s.len() ==> no_dups(#[trigger] s[j].members)
}

pub proof fn lemma_sorted_no_dups(s: Seq<Str>)
    requires
        sorted_strict(s),
    ensures
        no_dups(s),
{
    assert forall|i: int, j: int| 0 <= i < j < s.len() implies s[i] != s[j] by {
        lemma_lt_irreflexive(s[i]);
    }
}

pub proof fn lemma_sort_dedup_no_dups(s: Seq<Str>)
    ensures
        no_dups(sort_dedup(s)),
        forall|y: Str| #[trigger] sort_dedup(s).contains(y) <==> s.contains(y),
{
    lemma_sort_dedup(s);
    lemma_sorted_no_dups(sort_dedup(s));
}

/// In a list without duplicates an element occurs once or not at all.
pub proof fn lemma_occ_no_dups(s: Seq<Str>, x: Str)
    requires
        no_dups(s),
    ensures
        occurrences(s, x) == if s.contains(x) {
            1nat
        } else {
            0nat
        },
    decreases s.len(),
{
    if s.len() > 0 {
        let t = s.drop_last();
        assert(no_dups(t));
        lemma_occ_no_dups(t, x);
        if t.contains(x) {
            let q = choose|q: int| 0 <= q < t.len() && t[q] == x;
            assert(s[q] == x);
            assert(s.last() != x);
        }
        if s.contains(x) && s.last() != x {
            let q = choose|q: int| 0 <= q < s.len() && s[q] == x;
            assert(t[q] == x);
        }
        if s.last() == x {
            assert(s[s.len() - 1] == x);
        }
    }
}

/// Counting members distributes over concatenation.
pub proof fn lemma_member_count_add(s: Seq<SliceView>, t: Seq<SliceView>, x: Str)
    ensures
        member_count(s + t, x) == member_count(s, x) + member_count(t, x),
    decreases t.len(),
{
    if t.len() == 0 {
        assert(s + t =~= s);
    } else {
        assert((s + t).drop_last() =~= s + t.drop_last());
        lemma_member_count_add(s, t.drop_last(), x);
    }
}

pub proof fn lemma_member_count_one(sl: SliceView, x: Str)
    ensures
        member_count(seq![sl], x) == occurrences(sl.members, x),
{
    assert(seq![sl].drop_last() =~= Seq::<SliceView>::empty());
    assert(member_count(Seq::<SliceView>::empty(), x) == 0);
    assert(seq![sl].last() == sl);
}

/// Slices built from distinct keys, where `x` sits in the slice of key
/// `kx` only, hold `x` once if `kx` is a key and not at all otherwise.
pub proof fn lemma_member_count_keys(
    keys: Seq<Str>,
    g: spec_fn(Str) -> SliceView,
    x: Str,
    kx: Str,
)
    requires
        no_dups(keys),
        forall|i: int| 0 <= i < keys.len() ==> no_dups(#[trigger] g(keys[i]).members),
        forall|i: int|
            0 <= i < keys.len() ==> (#[trigger] g(keys[i]).members.contains(x) <==> keys[i] == kx),
    ensures
        member_count(keys.map_values(g), x) == if keys.contains(kx) {
            1nat
        } else {
            0nat
        },
    decreases keys.len(),
{
    if keys.len() > 0 {
        let t = keys.drop_last();
        assert(no_dups(t));
        assert forall|i: int| 0 <= i < t.len() implies no_dups(#[trigger] g(t[i]).members) by {
            assert(t[i] == keys[i]);
        }
        assert forall|i: int| 0 <= i < t.len() implies (#[trigger] g(t[i]).members.contains(x) <==> t[i] == kx) by {
            assert(t[i] == keys[i]);
        }
        lemma_member_count_keys(t, g, x, kx);
        assert(keys.map_values(g).drop_last() =~= t.map_values(g));
        let n = keys.len() - 1;
        assert(keys.map_values(g).last() == g(keys[n]));
        assert(no_dups(g(keys[n]).members));
        lemma_occ_no_dups(g(keys[n]).members, x);
        if t.contains(kx) {
            let q = choose|q: int| 0 <= q < t.len() && t[q] == kx;
            assert(keys[q] == kx);
            assert(keys[n] != kx);
        }
        if keys.contains(kx) && keys[n] != kx {
            let q = choose|q: int| 0 <= q < keys.len() && keys[q] == kx;
            assert(t[q] == kx);
        }
        if keys[n] == kx {
            assert(keys.contains(kx));
        }
    }
}

/// What `pick_ids` holds.
pub proof fn lemma_pick_contains(u: Seq<UnitView>, a: Set<Str>, f: KindFilter, x: Str)
    ensures
        pick_ids(u, a, f).contains(x) <==> exists|i: int|
            0 <= i < u.len() && #[trigger] u[i].id == x && !a.contains(x) && accepts(f, u[i].kind),
    decreases u.len(),
{
    if u.len() > 0 {
        let t = u.drop_last();
        lemma_pick_contains(t, a, f, x);
        let p = pick_ids(t, a, f);
        let tail = if !a.contains(u.last().id) && accepts(f, u.last().kind) {
            seq![u.last().id]
        } else {
            seq![]
        };
        if pick_ids(u, a, f).contains(x) {
            let q = choose|q: int| 0 <= q < (p + tail).len() && (p + tail)[q] == x;
            if q < p.len() {
                assert(p[q] == x);
                let i = choose|i: int|
                    0 <= i < t.len() && #[trigger] t[i].id == x && !a.contains(x) && accepts(f, t[i].kind);
                assert(u[i] == t[i]);
            } else {
                assert(u[u.len() - 1].id == x);
            }
        }
        if exists|i: int|
            0 <= i < u.len() && #[trigger] u[i].id == x && !a.contains(x) && accepts(f, u[i].kind) {
            let i = choose|i: int|
                0 <= i < u.len() && #[trigger] u[i].id == x && !a.contains(x) && accepts(f, u[i].kind);
            if i < u.len() - 1 {
                assert(t[i] == u[i]);
                assert(p.contains(x));
                let q = choose|q: int| 0 <= q < p.len() && p[q] == x;
                assert((p + tail)[q] == x);
            } else {
                assert((p + tail)[p.len() as int] == x);
            }
        }
    }
}

/// With distinct unit ids, `pick_ids` lists each id once.
pub proof fn lemma_pick_no_dups(u: Seq<UnitView>, a: Set<Str>, f: KindFilter)
    requires
        ids_unique(u),
    ensures
        no_dups(pick_ids(u, a, f)),
    decreases u.len(),
{
    if u.len() > 0 {
        let t = u.drop_last();
        assert(ids_unique(t));
        lemma_pick_no_dups(t, a, f);
        let p = pick_ids(t, a, f);
        if !a.contains(u.last().id) && accepts(f, u.last().kind) {
            lemma_pick_contains(t, a, f, u.last().id);
            if p.contains(u.last().id) {
                let i = choose|i: int|
                    0 <= i < t.len() && #[trigger] t[i].id == u.last().id && !a.contains(u.last().id)
                        && accepts(f, t[i].kind);
                assert(u[i].id == u[u.len() - 1].id);
            }
            let r = p + seq![u.last().id];
            assert forall|i: int, j: int| 0 <= i < j < r.len() implies r[i] != r[j] by {
                if j == r.len() - 1 {
                    assert(r[i] == p[i]);
                    assert(p.contains(p[i]));
                }
            }
        } else {
            assert(p + seq![] =~= p);
        }
    }
}

/// `insert_by_path` puts `x` at some place and keeps the rest in order.
pub proof fn lemma_insert_by_path_place(s: Seq<UnitView>, x: UnitView) -> (j: int)
    ensures
        0 <= j <= s.len(),
        insert_by_path(s, x) == s.insert(j, x),
    decreases s.len(),
{
    if s.len() == 0 {
        assert(s.insert(0, x) =~= seq![x]);
        0
    } else if crate::order::str_lt(x.path, s[0].path) {
        assert(s.insert(0, x) =~= seq![x] + s);
        0
    } else {
        let t = s.drop_first();
        let j0 = lemma_insert_by_path_place(t, x);
        assert(s.insert(j0 + 1, x) =~= seq![s[0]] + t.insert(j0, x));
        j0 + 1
    }
}

/// Sorting by path keeps the units, their number and the uniqueness of ids.
pub proof fn lemma_sort_by_path(u: Seq<UnitView>)
    ensures
        sort_by_path(u).len() == u.len(),
        forall|y: UnitView| #[trigger] sort_by_path(u).contains(y) <==> u.contains(y),
        ids_unique(u) ==> ids_unique(sort_by_path(u)),
        forall|x: Str| is_unit_id(sort_by_path(u), x) <==> is_unit_id(u, x),
    decreases u.len(),
{
    if u.len() > 0 {
        let t = u.drop_last();
        let x = u.last();
        lemma_sort_by_path(t);
        let st = sort_by_path(t);
        let j = lemma_insert_by_path_place(st, x);
        let r = st.insert(j, x);
        assert(sort_by_path(u) == r);
        assert forall|y: UnitView| #[trigger] r.contains(y) <==> u.contains(y) by {
            if r.contains(y) {
                let q = choose|q: int| 0 <= q < r.len() && r[q] == y;
                if q < j {
                    assert(st[q] == y);
                    assert(st.contains(y));
                    let q2 = choose|q2: int| 0 <= q2 < t.len() && t[q2] == y;
                    assert(u[q2] == y);
                } else if q == j {
                    assert(u[u.len() - 1] == y);
                } else {
                    assert(st[q - 1] == y);
                    assert(st.contains(y));
                    let q2 = choose|q2: int| 0 <= q2 < t.len() && t[q2] == y;
                    assert(u[q2] == y);
                }
            }
            if u.contains(y) {
                let q = choose|q: int| 0 <= q < u.len() && u[q] == y;
                if q < u.len() - 1 {
                    assert(t[q] == y);
                    assert(t.contains(y));
                    assert(st.contains(y));
                    let q2 = choose|q2: int| 0 <= q2 < st.len() && st[q2] == y;
                    if q2 < j {
                        assert(r[q2] == y);
                    } else {
                        assert(r[q2 + 1] == y);
                    }
                } else {
                    assert(r[j] == y);
                }
            }
        }
        assert forall|x2: Str| is_unit_id(r, x2) <==> is_unit_id(u, x2) by {
            if is_unit_id(r, x2) {
                let q = choose|q: int| 0 <= q < r.len() && #[trigger] r[q].id == x2;
                assert(r.contains(r[q]));
                assert(u.contains(r[q]));
                let q2 = choose|q2: int| 0 <= q2 < u.len() && u[q2] == r[q];
                assert(u[q2].id == x2);
            }
            if is_unit_id(u, x2) {
                let q = choose|q: int| 0 <= q < u.len() && #[trigger] u[q].id == x2;
                assert(u.contains(u[q]));
                assert(r.contains(u[q]));
                let q2 = choose|q2: int| 0 <= q2 < r.len() && r[q2] == u[q];
                assert(r[q2].id == x2);
            }
        }
        if ids_unique(u) {
            assert(ids_unique(t));
            assert(ids_unique(st));
            assert forall|p: int, q: int| 0 <= p < q < r.len() implies r[p].id != r[q].id by {
                if p != j && q != j {
                    let pp = if p < j { p } else { p - 1 };
                    let qq = if q < j { q } else { q - 1 };
                    assert(r[p] == st[pp]);
                    assert(r[q] == st[qq]);
                } else {
                    let o = if p == j { q } else { p };
                    let oo = if o < j { o } else { o - 1 };
                    assert(r[o] == st[oo]);
                    assert(st.contains(st[oo]));
                    assert(t.contains(st[oo]));
                    let w = choose|w: int| 0 <= w < t.len() && t[w] == st[oo];
                    assert(u[w] == t[w]);
                    assert(u[w].id != u[u.len() - 1].id);
                }
            }
        }
    }
}

pub proof fn lemma_occ_absent(s: Seq<Str>, x: Str)
    requires
        !s.contains(x),
    ensures
        occurrences(s, x) == 0,
    decreases s.len(),
{
    if s.len() > 0 {
        let t = s.drop_last();
        if t.contains(x) {
            let q = choose|q: int| 0 <= q < t.len() && t[q] == x;
            assert(s[q] == x);
        }
        lemma_occ_absent(t, x);
        if s.last() == x {
            assert(s[s.len() - 1] == x);
        }
    }
}

/// Slices that never hold `x` hold it zero times.
pub proof fn lemma_member_count_absent(s: Seq<SliceView>, x: Str)
    requires
        forall|j: int| 0 <= j < s.len() ==> !(#[trigger] s[j].members.contains(x)),
    ensures
        member_count(s, x) == 0,
    decreases s.len(),
{
    if s.len() > 0 {
        let t = s.drop_last();
        assert forall|j: int| 0 <= j < t.len() implies !(#[trigger] t[j].members.contains(x)) by {
            assert(t[j] == s[j]);
        }
        lemma_member_count_absent(t, x);
        assert(!s[s.len() - 1].members.contains(x));
        lemma_occ_absent(s.last().members, x);
    }
}

/// A slice of a list holds no more of `x` than the whole list.
pub proof fn lemma_member_count_part(s: Seq<SliceView>, k: int, x: Str)
    requires
        0 <= k < s.len(),
    ensures
        occurrences(s[k].members, x) <= member_count(s, x),
    decreases s.len(),
{
    if k < s.len() - 1 {
        lemma_member_count_part(s.drop_last(), k, x);
    }
}

/// Replacing one slice changes the count by the difference of its counts.
pub proof fn lemma_member_count_update(s: Seq<SliceView>, k: int, sl: SliceView, x: Str)
    requires
        0 <= k < s.len(),
    ensures
        member_count(s.update(k, sl), x) + occurrences(s[k].members, x) == member_count(s, x)
            + occurrences(sl.members, x),
    decreases s.len(),
{
    let t = s.update(k, sl);
    if k == s.len() - 1 {
        assert(t.drop_last() =~= s.drop_last());
    } else {
        assert(t.drop_last() =~= s.drop_last().update(k, sl));
        lemma_member_count_update(s.drop_last(), k, sl, x);
    }
}

pub proof fn lemma_occ_present(s: Seq<Str>, x: Str)
    requires
        s.contains(x),
    ensures
        occurrences(s, x) >= 1,
    decreases s.len(),
{
    let t = s.drop_last();
    if s.last() != x {
        let q = choose|q: int| 0 <= q < s.len() && s[q] == x;
        assert(t[q] == x);
        lemma_occ_present(t, x);
    }
}

} // verus!
