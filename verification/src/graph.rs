//! The slice dependency graph: lookup by id and cycle detection.
//!
//! A list of slices is acyclic when slice ids are distinct, every dependency
//! names a slice of the list, and some ranking of the slices decreases along
//! every dependency edge.
use vstd::prelude::*;
use crate::model::{Slice, SliceView, slices_view};
use crate::text::Str;

verus! {

/// `d` is the id of one of the slices.
pub open spec fn is_slice_id(s: Seq<SliceView>, d: Str) -> bool {
    exists|j: int| 0 <= j < s.len() && #[trigger] s[j].id == d
}

/// No two slices share an id.
pub open spec fn ids_distinct(s: Seq<SliceView>) -> bool {
    forall|i: int, j: int| 0 <= i < j < s.len() ==> #[trigger] s[i].id != #[trigger] s[j].id
}

/// Every dependency names a slice of the list.
pub open spec fn deps_known(s: Seq<SliceView>) -> bool {
    forall|i: int, k: int|
        0 <= i < s.len() && 0 <= k < s[i].depends_on.len() ==> is_slice_id(
            s,
            #[trigger] s[i].depends_on[k],
        )
}

/// `rank` is smaller on a dependency than on the slice that depends on it.
pub open spec fn ranked_by(s: Seq<SliceView>, rank: spec_fn(int) -> int) -> bool {
    forall|i: int, k: int, j: int|
        #![trigger s[i].depends_on[k], s[j]]
        0 <= i < s.len() && 0 <= k < s[i].depends_on.len() && 0 <= j < s.len() && s[j].id
            == s[i].depends_on[k] ==> rank(j) < rank(i)
}

/// The dependency graph of the slices is a well-formed DAG.
pub open spec fn acyclic(s: Seq<SliceView>) -> bool {
    &&& ids_distinct(s)
    &&& deps_known(s)
    &&& exists|rank: spec_fn(int) -> int| ranked_by(s, rank)
}

/// The index of the first slice with the given id.
pub fn find_slice_index(slices: &Vec<Slice>, id: &String) -> (r: Option<usize>)
    ensures
        match r {
            Some(j) => j < slices@.len() && slices@[j as int].id@ == id@ && forall|k: int|
                0 <= k < j ==> slices@[k].id@ != id@,
            None => !is_slice_id(slices_view(slices@), id@),
        },
{
    let mut j: usize = 0;
    while j < slices.len()
        invariant
            0 <= j <= slices@.len(),
            forall|k: int| 0 <= k < j ==> slices@[k].id@ != id@,
        decreases slices@.len() - j,
    {
        if slices[j].id == *id {
            return Some(j);
        }
        j = j + 1;
    }
    proof {
        let sv = slices_view(slices@);
        assert forall|k: int| 0 <= k < sv.len() implies #[trigger] sv[k].id != id@ by {
            assert(sv[k] == slices@[k]@);
        }
    }
    None
}

/// The number of slices not yet placed.
spec fn undone(d: Seq<bool>) -> nat
    decreases d.len(),
{
    if d.len() == 0 {
        0
    } else {
        undone(d.drop_last()) + if d.last() {
            0nat
        } else {
            1nat
        }
    }
}

proof fn lemma_undone_update(d: Seq<bool>, i: int)
    requires
        0 <= i < d.len(),
        !d[i],
    ensures
        undone(d.update(i, true)) + 1 == undone(d),
    decreases d.len(),
{
    if i < d.len() - 1 {
        lemma_undone_update(d.drop_last(), i);
        assert(d.update(i, true).drop_last() =~= d.drop_last().update(i, true));
    } else {
        assert(d.update(i, true).drop_last() =~= d.drop_last());
    }
}

proof fn lemma_undone_all(d: Seq<bool>)
    requires
        forall|i: int| 0 <= i < d.len() ==> !d[i],
    ensures
        undone(d) == d.len(),
    decreases d.len(),
{
    if d.len() > 0 {
        lemma_undone_all(d.drop_last());
    }
}

proof fn lemma_undone_zero(d: Seq<bool>, i: int)
    requires
        0 <= i < d.len(),
        !d[i],
    ensures
        undone(d) > 0,
    decreases d.len(),
{
    if i < d.len() - 1 {
        lemma_undone_zero(d.drop_last(), i);
    }
}

/// An unplaced slice of least rank among the first `n`.
proof fn lemma_min_rank(done: Seq<bool>, rank: spec_fn(int) -> int, n: int) -> (m: int)
    requires
        0 < n <= done.len(),
        exists|i: int| 0 <= i < n && !done[i],
    ensures
        0 <= m < n,
        !done[m],
        forall|i: int| 0 <= i < n && !done[i] ==> rank(m) <= rank(i),
    decreases n,
{
    if exists|i: int| 0 <= i < n - 1 && !done[i] {
        let m0 = lemma_min_rank(done, rank, n - 1);
        if !done[n - 1] && rank(n - 1) < rank(m0) {
            n - 1
        } else {
            m0
        }
    } else {
        n - 1
    }
}

/// Placing a slice whose dependencies are placed keeps the ranking facts.
proof fn lemma_place(slices: Seq<Slice>, done: Seq<bool>, rank: Seq<int>, a: int, step: int)
    requires
        done.len() == slices.len(),
        rank.len() == slices.len(),
        0 <= a < slices.len(),
        !done[a],
        forall|b: int| 0 <= b < slices.len() && done[b] ==> rank[b] < step,
        forall|k: int, j: int|
            0 <= k < slices[a].depends_on@.len() && 0 <= j < slices.len()
                && slices[j].id@ == slices[a].depends_on@[k]@ ==> done[j],
        forall|b: int, k: int, j: int|
            #![trigger slices_view(slices)[b].depends_on[k], slices_view(slices)[j]]
            0 <= b < slices.len() && done[b] && 0 <= k < slices_view(slices)[b].depends_on.len()
                && 0 <= j < slices.len() && slices_view(slices)[j].id == slices_view(slices)[b].depends_on[k]
                ==> done[j] && rank[j] < rank[b],
    ensures
        forall|b: int| 0 <= b < slices.len() && done.update(a, true)[b] ==> rank.update(a, step)[b] < step + 1,
        forall|b: int, k: int, j: int|
            #![trigger slices_view(slices)[b].depends_on[k], slices_view(slices)[j]]
            0 <= b < slices.len() && done.update(a, true)[b] && 0 <= k < slices_view(slices)[b].depends_on.len()
                && 0 <= j < slices.len() && slices_view(slices)[j].id == slices_view(slices)[b].depends_on[k]
                ==> done.update(a, true)[j] && rank.update(a, step)[j] < rank.update(a, step)[b],
{
    let sv = slices_view(slices);
    assert forall|b: int, k: int, j: int|
        #![trigger sv[b].depends_on[k], sv[j]]
        0 <= b < slices.len() && done.update(a, true)[b] && 0 <= k < sv[b].depends_on.len()
            && 0 <= j < slices.len() && sv[j].id == sv[b].depends_on[k]
            implies done.update(a, true)[j] && rank.update(a, step)[j] < rank.update(a, step)[b] by {
        if b == a {
            assert(sv[a].depends_on[k] == slices[a].depends_on@[k]@);
            assert(sv[j].id == slices[j].id@);
            assert(done[j]);
        }
    }
}

/// When every unplaced slice waits on an unplaced slice, no ranking exists.
proof fn lemma_stuck(sv: Seq<SliceView>, done: Seq<bool>)
    requires
        done.len() == sv.len(),
        exists|b: int| 0 <= b < sv.len() && !done[b],
        forall|b: int|
            0 <= b < sv.len() && !done[b] ==> exists|k: int, j: int|
                0 <= k < sv[b].depends_on.len() && 0 <= j < sv.len() && sv[j].id
                    == sv[b].depends_on[k] && !done[j],
    ensures
        forall|rk: spec_fn(int) -> int| !ranked_by(sv, rk),
{
    assert forall|rk: spec_fn(int) -> int| !ranked_by(sv, rk) by {
        if ranked_by(sv, rk) {
            let m = lemma_min_rank(done, rk, sv.len() as int);
            let (k, j) = choose|k: int, j: int|
                0 <= k < sv[m].depends_on.len() && 0 <= j < sv.len() && sv[j].id
                    == sv[m].depends_on[k] && !done[j];
            assert(rk(j) < rk(m));
        }
    }
}

/// When every slice is placed, the placing order ranks the graph.
proof fn lemma_all_placed(sv: Seq<SliceView>, done: Seq<bool>, rank: Seq<int>)
    requires
        done.len() == sv.len(),
        rank.len() == sv.len(),
        !exists|b: int| 0 <= b < sv.len() && !done[b],
        forall|a: int, k: int, j: int|
            #![trigger sv[a].depends_on[k], sv[j]]
            0 <= a < sv.len() && done[a] && 0 <= k < sv[a].depends_on.len() && 0 <= j < sv.len()
                && sv[j].id == sv[a].depends_on[k] ==> done[j] && rank[j] < rank[a],
    ensures
        exists|rk: spec_fn(int) -> int| ranked_by(sv, rk),
{
    let rk = |a: int| rank[a];
    assert forall|a: int, k: int, j: int|
        #![trigger sv[a].depends_on[k], sv[j]]
        0 <= a < sv.len() && 0 <= k < sv[a].depends_on.len() && 0 <= j < sv.len()
            && sv[j].id == sv[a].depends_on[k] implies rk(j) < rk(a) by {
        assert(done[a]);
    }
    assert(ranked_by(sv, rk));
}

/// Whether every dependency of slice `i` is placed.
fn deps_placed(slices: &Vec<Slice>, i: usize, done: &Vec<bool>) -> (r: bool)
    requires
        i < slices@.len(),
        done@.len() == slices@.len(),
        ids_distinct(slices_view(slices@)),
        deps_known(slices_view(slices@)),
    ensures
        r == forall|k: int, j: int|
            0 <= k < slices@[i as int].depends_on@.len() && 0 <= j < slices@.len()
                && slices@[j].id@ == slices@[i as int].depends_on@[k]@ ==> done@[j],
{
    let ghost sv = slices_view(slices@);
    let deps = &slices[i].depends_on;
    let mut k: usize = 0;
    while k < deps.len()
        invariant
            sv == slices_view(slices@),
            i < slices@.len(),
            done@.len() == slices@.len(),
            ids_distinct(sv),
            deps_known(sv),
            *deps == slices@[i as int].depends_on,
            0 <= k <= deps@.len(),
            forall|k2: int, j: int|
                0 <= k2 < k && 0 <= j < slices@.len() && slices@[j].id@ == deps@[k2]@
                    ==> done@[j],
        decreases deps@.len() - k,
    {
        let found = find_slice_index(slices, &deps[k]);
        proof {
            assert(sv[i as int].depends_on[k as int] == deps@[k as int]@);
            assert(is_slice_id(sv, sv[i as int].depends_on[k as int]));
        }
        let j = match found {
            Some(j) => j,
            None => {
                return false;
            },
        };
        if !done[j] {
            return false;
        }
        proof {
            assert forall|j2: int|
                0 <= j2 < slices@.len() && slices@[j2].id@ == deps@[k as int]@ implies done@[j2] by {
                if j2 != j {
                    assert(sv[j2].id == slices@[j2].id@);
                    assert(sv[j as int].id == slices@[j as int].id@);
                    if j2 < j {
                        assert(sv[j2].id != sv[j as int].id);
                    } else {
                        assert(sv[j as int].id != sv[j2].id);
                    }
                }
            }
        }
        k = k + 1;
    }
    true
}

/// The first unplaced slice whose dependencies are all placed, and whether
/// any slice is unplaced.
fn find_ready(slices: &Vec<Slice>, done: &Vec<bool>) -> (r: (Option<usize>, bool))
    requires
        ids_distinct(slices_view(slices@)),
        deps_known(slices_view(slices@)),
        done@.len() == slices@.len(),
    ensures
        r.0 is None ==> r.1 == exists|b: int| 0 <= b < slices@.len() && !done@[b],
        r.0 is None ==> forall|b: int|
            0 <= b < slices@.len() && !done@[b] ==> exists|k: int, j: int|
                0 <= k < slices_view(slices@)[b].depends_on.len() && 0 <= j < slices@.len()
                    && slices_view(slices@)[j].id == slices_view(slices@)[b].depends_on[k]
                    && !done@[j],
        r.0 matches Some(f) ==> f < slices@.len() && !done@[f as int] && forall|k: int, j: int|
            0 <= k < slices@[f as int].depends_on@.len() && 0 <= j < slices@.len()
                && slices@[j].id@ == slices@[f as int].depends_on@[k]@ ==> done@[j],
{
    let n = slices.len();
    let ghost sv = slices_view(slices@);
    let mut found: Option<usize> = None;
    let mut any_undone = false;
    let mut a: usize = 0;
    while a < n && found.is_none()
        invariant
            n == slices@.len(),
            sv == slices_view(slices@),
            ids_distinct(sv),
            deps_known(sv),
            done@.len() == n,
            0 <= a <= n,
            found.is_none() ==> any_undone == exists|b: int| 0 <= b < a && !done@[b],
            found.is_none() ==> forall|b: int|
                0 <= b < a && !done@[b] ==> exists|k: int, j: int|
                    0 <= k < sv[b].depends_on.len() && 0 <= j < n && sv[j].id
                        == sv[b].depends_on[k] && !done@[j],
            found matches Some(f) ==> f < n && !done@[f as int] && forall|k: int, j: int|
                0 <= k < slices@[f as int].depends_on@.len() && 0 <= j < slices@.len()
                    && slices@[j].id@ == slices@[f as int].depends_on@[k]@ ==> done@[j],
        decreases n - a,
    {
        if !done[a] {
            any_undone = true;
            if deps_placed(slices, a, &done) {
                found = Some(a);
            } else {
                proof {
                    let kk = choose|k: int, j: int|
                        0 <= k < slices@[a as int].depends_on@.len() && 0 <= j < slices@.len()
                            && slices@[j].id@ == slices@[a as int].depends_on@[k]@ && !done@[j];
                    assert(sv[a as int].depends_on[kk.0] == slices@[a as int].depends_on@[kk.0]@);
                    assert(sv[kk.1].id == slices@[kk.1].id@);
                }
            }
        }
        a = a + 1;
    }
    (found, any_undone)
}

/// Whether the slice dependency graph is not a DAG: some id repeats, some
/// dependency names no slice, or the dependencies form a cycle.
pub fn has_cycle(slices: &Vec<Slice>) -> (r: bool)
    ensures
        r == !acyclic(slices_view(slices@)),
{
    let ghost sv = slices_view(slices@);
    let n = slices.len();
    // Repeated ids.
    let mut i: usize = 0;
    while i < n
        invariant
            n == slices@.len(),
            sv == slices_view(slices@),
            0 <= i <= n,
            forall|a: int, b: int| 0 <= a < b < n && a < i ==> sv[a].id != sv[b].id,
        decreases n - i,
    {
        let mut j: usize = i + 1;
        while j < n
            invariant
                n == slices@.len(),
                sv == slices_view(slices@),
                0 <= i < n,
                i + 1 <= j <= n,
                forall|a: int, b: int| 0 <= a < b < n && a < i ==> sv[a].id != sv[b].id,
                forall|b: int| i < b < j ==> sv[i as int].id != sv[b].id,
            decreases n - j,
        {
            if slices[i].id == slices[j].id {
                proof {
                    assert(sv[i as int].id == sv[j as int].id);
                }
                return true;
            }
            j = j + 1;
        }
        i = i + 1;
    }
    assert(ids_distinct(sv));
    // Unknown dependencies.
    let mut i: usize = 0;
    while i < n
        invariant
            n == slices@.len(),
            sv == slices_view(slices@),
            0 <= i <= n,
            forall|a: int, k: int|
                0 <= a < i && 0 <= k < sv[a].depends_on.len() ==> is_slice_id(sv, #[trigger] sv[a].depends_on[k]),
        decreases n - i,
    {
        let deps = &slices[i].depends_on;
        let mut k: usize = 0;
        while k < deps.len()
            invariant
                n == slices@.len(),
                sv == slices_view(slices@),
                0 <= i < n,
                *deps == slices@[i as int].depends_on,
                0 <= k <= deps@.len(),
                forall|a: int, k2: int|
                    0 <= a < i && 0 <= k2 < sv[a].depends_on.len() ==> is_slice_id(sv, #[trigger] sv[a].depends_on[k2]),
                forall|k2: int| 0 <= k2 < k ==> is_slice_id(sv, #[trigger] sv[i as int].depends_on[k2]),
            decreases deps@.len() - k,
        {
            let found = find_slice_index(slices, &deps[k]);
            proof {
                assert(sv[i as int].depends_on[k as int] == deps@[k as int]@);
            }
            if found.is_none() {
                return true;
            }
            proof {
                let j = found.unwrap();
                assert(sv[j as int].id == deps@[k as int]@);
            }
            k = k + 1;
        }
        i = i + 1;
    }
    assert(deps_known(sv));
    // Place slices whose dependencies are placed, one at a time.
    let mut done: Vec<bool> = Vec::new();
    let mut i: usize = 0;
    while i < n
        invariant
            0 <= i <= n,
            done@.len() == i,
            forall|a: int| 0 <= a < i ==> !done@[a],
        decreases n - i,
    {
        done.push(false);
        i = i + 1;
    }
    let ghost mut rank: Seq<int> = Seq::new(n as nat, |a: int| 0);
    proof {
        lemma_undone_all(done@);
    }
    let mut step: usize = 0;
    loop
        invariant
            n == slices@.len(),
            sv == slices_view(slices@),
            ids_distinct(sv),
            deps_known(sv),
            done@.len() == n,
            rank.len() == n,
            step + undone(done@) == n,
            forall|a: int| 0 <= a < n && done@[a] ==> rank[a] < step,
            forall|a: int, k: int, j: int|
                #![trigger sv[a].depends_on[k], sv[j]]
                0 <= a < n && done@[a] && 0 <= k < sv[a].depends_on.len() && 0 <= j < n
                    && sv[j].id == sv[a].depends_on[k] ==> done@[j] && rank[j] < rank[a],
        decreases undone(done@),
    {
        let (found, any_undone) = find_ready(slices, &done);
        match found {
            Some(a) => {
                proof {
                    lemma_undone_update(done@, a as int);
                    lemma_place(slices@, done@, rank, a as int, step as int);
                    rank = rank.update(a as int, step as int);
                }
                done.set(a, true);
                step = step + 1;
            },
            None => {
                if any_undone {
                    proof {
                        lemma_stuck(sv, done@);
                    }
                    return true;
                } else {
                    proof {
                        lemma_all_placed(sv, done@, rank);
                    }
                    return false;
                }
            },
        }
    }
}

} // verus!
