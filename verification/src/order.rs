//! Lexicographic order on strings and sorted, duplicate-free string lists.
//!
//! Strings compare character by character by code point, which is the order
//! of their UTF-8 bytes.
use vstd::prelude::*;
use crate::text::{chars_of, Str};

verus! {

/// `a` sorts strictly before `b`.
pub open spec fn str_lt(a: Str, b: Str) -> bool
    decreases a.len(),
{
    if a.len() == 0 {
        b.len() > 0
    } else if b.len() == 0 {
        false
    } else if a[0] != b[0] {
        a[0] < b[0]
    } else {
        str_lt(a.drop_first(), b.drop_first())
    }
}

pub proof fn lemma_lt_irreflexive(a: Str)
    ensures
        !str_lt(a, a),
    decreases a.len(),
{
    if a.len() > 0 {
        lemma_lt_irreflexive(a.drop_first());
    }
}

pub proof fn lemma_lt_asymmetric(a: Str, b: Str)
    ensures
        str_lt(a, b) ==> !str_lt(b, a),
    decreases a.len(),
{
    if a.len() > 0 && b.len() > 0 && a[0] == b[0] {
        lemma_lt_asymmetric(a.drop_first(), b.drop_first());
    }
}

pub proof fn lemma_lt_transitive(a: Str, b: Str, c: Str)
    ensures
        str_lt(a, b) && str_lt(b, c) ==> str_lt(a, c),
    decreases a.len(),
{
    if a.len() > 0 && b.len() > 0 && c.len() > 0 {
        if a[0] == b[0] && b[0] == c[0] {
            lemma_lt_transitive(a.drop_first(), b.drop_first(), c.drop_first());
        }
    }
}

pub proof fn lemma_lt_total(a: Str, b: Str)
    ensures
        a != b ==> str_lt(a, b) || str_lt(b, a),
    decreases a.len(),
{
    if a.len() > 0 && b.len() > 0 && a[0] == b[0] {
        lemma_lt_total(a.drop_first(), b.drop_first());
        if a.drop_first() == b.drop_first() {
            assert(a =~= seq![a[0]] + a.drop_first());
            assert(b =~= seq![b[0]] + b.drop_first());
        }
    } else if a.len() == 0 && b.len() == 0 {
        assert(a =~= b);
    }
}

/// The order facts, for all strings.
pub proof fn lemma_lt_order()
    ensures
        forall|a: Str| !#[trigger] str_lt(a, a),
        forall|a: Str, b: Str| #[trigger] str_lt(a, b) ==> !str_lt(b, a),
        forall|a: Str, b: Str, c: Str| #[trigger] str_lt(a, b) && #[trigger] str_lt(b, c) ==> str_lt(a, c),
        forall|a: Str, b: Str| a != b ==> #[trigger] str_lt(a, b) || #[trigger] str_lt(b, a),
{
    assert forall|a: Str| !#[trigger] str_lt(a, a) by {
        lemma_lt_irreflexive(a);
    }
    assert forall|a: Str, b: Str| #[trigger] str_lt(a, b) implies !str_lt(b, a) by {
        lemma_lt_asymmetric(a, b);
    }
    assert forall|a: Str, b: Str, c: Str| #[trigger] str_lt(a, b) && #[trigger] str_lt(b, c) implies str_lt(a, c) by {
        lemma_lt_transitive(a, b, c);
    }
    assert forall|a: Str, b: Str| a != b implies #[trigger] str_lt(a, b) || #[trigger] str_lt(b, a) by {
        lemma_lt_total(a, b);
    }
}

/// Whether `a` sorts strictly before `b`.
pub fn chars_lt(a: &[char], b: &[char]) -> (r: bool)
    ensures
        r == str_lt(a@, b@),
{
    let mut i: usize = 0;
    proof {
        assert(a@.skip(0) =~= a@);
        assert(b@.skip(0) =~= b@);
    }
    while i < a.len() && i < b.len() && a[i] == b[i]
        invariant
            0 <= i <= a@.len(),
            i <= b@.len(),
            str_lt(a@, b@) == str_lt(a@.skip(i as int), b@.skip(i as int)),
        decreases a@.len() - i,
    {
        proof {
            assert(a@.skip(i as int).drop_first() =~= a@.skip(i + 1));
            assert(b@.skip(i as int).drop_first() =~= b@.skip(i + 1));
        }
        i = i + 1;
    }
    if i == a.len() {
        i < b.len()
    } else if i == b.len() {
        false
    } else {
        a[i] < b[i]
    }
}

/// Whether the string `a` sorts strictly before `b`.
pub fn string_lt(a: &str, b: &str) -> (r: bool)
    ensures
        r == str_lt(a@, b@),
{
    let ca = chars_of(a);
    let cb = chars_of(b);
    chars_lt(ca.as_slice(), cb.as_slice())
}

/// Strictly increasing, hence also free of duplicates.
pub open spec fn sorted_strict(s: Seq<Str>) -> bool {
    forall|i: int, j: int| 0 <= i < j < s.len() ==> str_lt(#[trigger] s[i], #[trigger] s[j])
}

/// Inserts `x` into a list at its sorted place, unless it is already there.
pub open spec fn insert_sorted(s: Seq<Str>, x: Str) -> Seq<Str>
    decreases s.len(),
{
    if s.len() == 0 {
        seq![x]
    } else if s[0] == x {
        s
    } else if str_lt(x, s[0]) {
        seq![x] + s
    } else {
        seq![s[0]] + insert_sorted(s.drop_first(), x)
    }
}

/// The distinct elements of a list, in increasing order.
pub open spec fn sort_dedup(s: Seq<Str>) -> Seq<Str>
    decreases s.len(),
{
    if s.len() == 0 {
        Seq::empty()
    } else {
        insert_sorted(sort_dedup(s.drop_last()), s.last())
    }
}

pub proof fn lemma_insert_sorted(s: Seq<Str>, x: Str)
    requires
        sorted_strict(s),
    ensures
        sorted_strict(insert_sorted(s, x)),
        insert_sorted(s, x).to_set() == s.to_set().insert(x),
        insert_sorted(s, x).contains(x),
        forall|y: Str| #[trigger] insert_sorted(s, x).contains(y) <==> (s.contains(y) || y == x),
    decreases s.len(),
{
    lemma_lt_order();
    if s.len() == 0 {
        assert(insert_sorted(s, x) =~= seq![x]);
        assert(seq![x][0] == x);
        assert forall|y: Str| #[trigger] seq![x].contains(y) <==> (s.contains(y) || y == x) by {
            if seq![x].contains(y) {
                let k = choose|k: int| 0 <= k < 1 && seq![x][k] == y;
            }
        }
        assert(seq![x].to_set() =~= s.to_set().insert(x)) by {
            assert forall|y: Str| seq![x].to_set().contains(y) <==> s.to_set().insert(x).contains(y) by {
                if y == x {
                    assert(seq![x][0] == x);
                }
            }
        }
    } else if s[0] == x {
        assert(s.contains(x));
        assert(s.to_set() =~= s.to_set().insert(x));
    } else if str_lt(x, s[0]) {
        let r = seq![x] + s;
        assert forall|i: int, j: int| 0 <= i < j < r.len() implies str_lt(#[trigger] r[i], #[trigger] r[j]) by {
            if i == 0 {
                assert(r[j] == s[j - 1]);
                if j > 1 {
                    assert(str_lt(s[0], s[j - 1]));
                }
            } else {
                assert(r[i] == s[i - 1] && r[j] == s[j - 1]);
            }
        }
        assert forall|y: Str| r.contains(y) <==> (s.contains(y) || y == x) by {
            if r.contains(y) {
                let k = choose|k: int| 0 <= k < r.len() && r[k] == y;
                if k > 0 {
                    assert(s[k - 1] == y);
                }
            }
            if s.contains(y) {
                let k = choose|k: int| 0 <= k < s.len() && s[k] == y;
                assert(r[k + 1] == y);
            }
            if y == x {
                assert(r[0] == x);
            }
        }
        assert(r.to_set() =~= s.to_set().insert(x));
    } else {
        let t = s.drop_first();
        assert(sorted_strict(t)) by {
            assert forall|i: int, j: int| 0 <= i < j < t.len() implies str_lt(#[trigger] t[i], #[trigger] t[j]) by {
                assert(t[i] == s[i + 1] && t[j] == s[j + 1]);
            }
        }
        lemma_insert_sorted(t, x);
        let it = insert_sorted(t, x);
        let r = seq![s[0]] + it;
        assert(str_lt(s[0], x));
        assert forall|k: int| 0 <= k < it.len() implies str_lt(s[0], #[trigger] it[k]) by {
            assert(it.contains(it[k]));
            if it[k] != x {
                assert(t.contains(it[k]));
                let m = choose|m: int| 0 <= m < t.len() && t[m] == it[k];
                assert(s[m + 1] == it[k]);
            }
        }
        assert forall|i: int, j: int| 0 <= i < j < r.len() implies str_lt(#[trigger] r[i], #[trigger] r[j]) by {
            if i == 0 {
                assert(r[j] == it[j - 1]);
            } else {
                assert(r[i] == it[i - 1] && r[j] == it[j - 1]);
            }
        }
        assert forall|y: Str| r.contains(y) <==> (s.contains(y) || y == x) by {
            if r.contains(y) {
                let k = choose|k: int| 0 <= k < r.len() && r[k] == y;
                if k > 0 {
                    assert(it[k - 1] == y);
                    assert(it.contains(y));
                    if t.contains(y) {
                        let m = choose|m: int| 0 <= m < t.len() && t[m] == y;
                        assert(s[m + 1] == y);
                    }
                } else {
                    assert(s[0] == y);
                }
            }
            if s.contains(y) {
                let k = choose|k: int| 0 <= k < s.len() && s[k] == y;
                if k == 0 {
                    assert(r[0] == y);
                } else {
                    assert(t[k - 1] == y);
                    assert(t.contains(y));
                    assert(it.contains(y));
                    let m = choose|m: int| 0 <= m < it.len() && it[m] == y;
                    assert(r[m + 1] == y);
                }
            }
            if y == x {
                assert(it.contains(x));
                let m = choose|m: int| 0 <= m < it.len() && it[m] == x;
                assert(r[m + 1] == x);
            }
        }
        assert(r.to_set() =~= s.to_set().insert(x));
    }
}

pub proof fn lemma_sort_dedup(s: Seq<Str>)
    ensures
        sorted_strict(sort_dedup(s)),
        sort_dedup(s).to_set() == s.to_set(),
        forall|y: Str| #[trigger] sort_dedup(s).contains(y) <==> s.contains(y),
    decreases s.len(),
{
    if s.len() == 0 {
        assert(sort_dedup(s).to_set() =~= s.to_set());
    } else {
        lemma_sort_dedup(s.drop_last());
        lemma_insert_sorted(sort_dedup(s.drop_last()), s.last());
        assert forall|y: Str| #[trigger] sort_dedup(s).contains(y) <==> s.contains(y) by {
            if s.drop_last().contains(y) {
                let k = choose|k: int| 0 <= k < s.drop_last().len() && s.drop_last()[k] == y;
                assert(s[k] == y);
            }
            if s.contains(y) && y != s.last() {
                let k = choose|k: int| 0 <= k < s.len() && s[k] == y;
                assert(s.drop_last()[k] == y);
            }
        }
        assert(sort_dedup(s).to_set() =~= s.to_set());
    }
}

/// Two strictly sorted lists with the same elements are equal.
pub proof fn lemma_sorted_unique(a: Seq<Str>, b: Seq<Str>)
    requires
        sorted_strict(a),
        sorted_strict(b),
        forall|y: Str| a.contains(y) <==> b.contains(y),
    ensures
        a == b,
    decreases a.len(),
{
    lemma_lt_order();
    if a.len() == 0 {
        if b.len() > 0 {
            assert(b.contains(b[0]));
        }
        assert(a =~= b);
    } else {
        assert(a.contains(a[0]));
        assert(b.len() > 0);
        assert(b.contains(b[0]));
        let ka = choose|k: int| 0 <= k < a.len() && a[k] == b[0];
        let kb = choose|k: int| 0 <= k < b.len() && b[k] == a[0];
        if ka > 0 {
            assert(str_lt(a[0], a[ka]));
            if kb > 0 {
                assert(str_lt(b[0], b[kb]));
            }
        }
        if kb > 0 {
            assert(str_lt(b[0], b[kb]));
        }
        assert(a[0] == b[0]);
        let ta = a.drop_first();
        let tb = b.drop_first();
        assert(sorted_strict(ta)) by {
            assert forall|i: int, j: int| 0 <= i < j < ta.len() implies str_lt(#[trigger] ta[i], #[trigger] ta[j]) by {
                assert(ta[i] == a[i + 1] && ta[j] == a[j + 1]);
            }
        }
        assert(sorted_strict(tb)) by {
            assert forall|i: int, j: int| 0 <= i < j < tb.len() implies str_lt(#[trigger] tb[i], #[trigger] tb[j]) by {
                assert(tb[i] == b[i + 1] && tb[j] == b[j + 1]);
            }
        }
        assert forall|y: Str| ta.contains(y) <==> tb.contains(y) by {
            if ta.contains(y) {
                let k = choose|k: int| 0 <= k < ta.len() && ta[k] == y;
                assert(a[k + 1] == y);
                assert(str_lt(a[0], y));
                assert(b.contains(y));
                let m = choose|m: int| 0 <= m < b.len() && b[m] == y;
                assert(m != 0);
                assert(tb[m - 1] == y);
            }
            if tb.contains(y) {
                let k = choose|k: int| 0 <= k < tb.len() && tb[k] == y;
                assert(b[k + 1] == y);
                assert(str_lt(b[0], y));
                assert(a.contains(y));
                let m = choose|m: int| 0 <= m < a.len() && a[m] == y;
                assert(m != 0);
                assert(ta[m - 1] == y);
            }
        }
        lemma_sorted_unique(ta, tb);
        assert(a =~= seq![a[0]] + ta);
        assert(b =~= seq![b[0]] + tb);
    }
}

/// Lists with the same elements have the same `sort_dedup`.
pub proof fn lemma_sort_dedup_same(a: Seq<Str>, b: Seq<Str>)
    requires
        forall|y: Str| a.contains(y) <==> b.contains(y),
    ensures
        sort_dedup(a) == sort_dedup(b),
{
    lemma_sort_dedup(a);
    lemma_sort_dedup(b);
    lemma_sorted_unique(sort_dedup(a), sort_dedup(b));
}

proof fn lemma_insert_sorted_at(s: Seq<Str>, x: Str, i: int)
    requires
        0 <= i <= s.len(),
        forall|k: int| 0 <= k < i ==> str_lt(#[trigger] s[k], x),
        i < s.len() ==> !str_lt(s[i], x),
    ensures
        insert_sorted(s, x) == (if i < s.len() && s[i] == x {
            s
        } else {
            s.insert(i, x)
        }),
    decreases i,
{
    lemma_lt_order();
    if i == 0 {
        if s.len() == 0 {
            assert(s.insert(0, x) =~= seq![x]);
        } else if s[0] == x {
        } else {
            assert(str_lt(x, s[0]));
            assert(s.insert(0, x) =~= seq![x] + s);
        }
    } else {
        assert(str_lt(s[0], x));
        assert(s[0] != x);
        let t = s.drop_first();
        assert forall|k: int| 0 <= k < i - 1 implies str_lt(#[trigger] t[k], x) by {
            assert(t[k] == s[k + 1]);
        }
        if i < s.len() {
            assert(t[i - 1] == s[i]);
        }
        lemma_insert_sorted_at(t, x, i - 1);
        if i < s.len() && s[i] == x {
            assert(s =~= seq![s[0]] + t);
        } else {
            assert(s.insert(i, x) =~= seq![s[0]] + t.insert(i - 1, x));
        }
    }
}

/// Whether a list of strings holds `x`.
pub fn contains_string(v: &Vec<String>, x: &String) -> (r: bool)
    ensures
        r == v.deep_view().contains(x@),
{
    let mut i: usize = 0;
    while i < v.len()
        invariant
            0 <= i <= v@.len(),
            forall|j: int| 0 <= j < i ==> v.deep_view()[j] != x@,
        decreases v@.len() - i,
    {
        if v[i] == *x {
            proof {
                assert(v.deep_view()[i as int] == x@);
            }
            return true;
        }
        i = i + 1;
    }
    false
}

/// Inserts a string into a list at its sorted place, unless it is already there.
pub fn insert_sorted_string(v: &mut Vec<String>, x: String)
    ensures
        final(v).deep_view() == insert_sorted(old(v).deep_view(), x@),
{
    let ghost s = v.deep_view();
    let mut i: usize = 0;
    while i < v.len() && string_lt(v[i].as_str(), x.as_str())
        invariant
            0 <= i <= v@.len(),
            s == v.deep_view(),
            forall|k: int| 0 <= k < i ==> str_lt(#[trigger] s[k], x@),
        decreases v@.len() - i,
    {
        i = i + 1;
    }
    proof {
        lemma_insert_sorted_at(s, x@, i as int);
    }
    if i < v.len() && v[i] == x {
        return;
    }
    v.insert(i, x);
    proof {
        assert(v.deep_view() =~= s.insert(i as int, x@));
    }
}

/// Sorts a list of strings and removes duplicates.
pub fn dedup_and_sort(values: &mut Vec<String>)
    ensures
        final(values).deep_view() == sort_dedup(old(values).deep_view()),
{
    let ghost orig = values.deep_view();
    let mut out: Vec<String> = Vec::new();
    let n = values.len();
    let mut i: usize = 0;
    while i < n
        invariant
            n == values@.len(),
            orig == values.deep_view(),
            0 <= i <= n,
            out.deep_view() == sort_dedup(orig.take(i as int)),
        decreases n - i,
    {
        let x = values[i].clone();
        insert_sorted_string(&mut out, x);
        proof {
            assert(orig.take(i + 1).drop_last() =~= orig.take(i as int));
        }
        i = i + 1;
    }
    proof {
        assert(orig.take(n as int) =~= orig);
    }
    *values = out;
}

} // verus!
