//! Human overrides applied over a planned list of slices.
//!
//! Rules apply in a fixed order: every must_link rule, then every
//! force_members rule, then rename_slices, then must_order. A must_order
//! edge that would close a cycle is rolled back and reported.
use vstd::prelude::*;
use crate::graph::{acyclic, find_slice_index, has_cycle, is_slice_id};
use crate::model::{
    diags_view, lit, new_slice, new_slice_view, opt_view, reason, reason_view, reasons_view,
    slices_view, DiagView, Diagnostic, DiagnosticLevel, ForceMemberOverride, ForceView,
    MustLinkOverride, MustLinkView, MustOrderOverride, OrderView, Overrides, OverridesView,
    ReasonView, RenameSliceOverride, RenameView, Slice, SliceKind, SliceView,
};
use crate::order::{contains_string, dedup_and_sort, lemma_sort_dedup_same, sort_dedup};
use crate::slug::{slug, slugify};
use crate::text::{push_str, Str};

verus! {

/// The id of the first slice that holds `m`.
pub open spec fn slice_of_member(s: Seq<SliceView>, m: Str) -> Option<Str>
    decreases s.len(),
{
    if s.len() == 0 {
        None
    } else if s[0].members.contains(m) {
        Some(s[0].id)
    } else {
        slice_of_member(s.drop_first(), m)
    }
}

/// The slice of the first listed member that sits in a slice.
pub open spec fn first_anchor(s: Seq<SliceView>, ms: Seq<Str>) -> Option<Str>
    decreases ms.len(),
{
    if ms.len() == 0 {
        None
    } else {
        match slice_of_member(s, ms[0]) {
            Some(id) => Some(id),
            None => first_anchor(s, ms.drop_first()),
        }
    }
}

/// The index of the first slice with the given id; the length when none has it.
pub open spec fn first_with_id(s: Seq<SliceView>, id: Str) -> int
    decreases s.len(),
{
    if s.len() == 0 {
        0
    } else if s[0].id == id {
        0
    } else {
        1 + first_with_id(s.drop_first(), id)
    }
}

/// An optional text, or a fallback.
pub open spec fn or_default(o: Option<Str>, d: Str) -> Str {
    match o {
        Some(x) => x,
        None => d,
    }
}

/// Whether an item differs from `m`.
pub open spec fn other_than(m: Str) -> spec_fn(Str) -> bool {
    |x: Str| x != m
}

/// A slice without `m` among its members, unless it is the target.
pub open spec fn strip_member(sl: SliceView, m: Str, target: Str) -> SliceView {
    if sl.id != target {
        SliceView { members: sl.members.filter(other_than(m)), ..sl }
    } else {
        sl
    }
}

/// `m` leaves every slice not named `target` and joins the first slice named
/// `target`, whose members stay sorted and distinct.
pub open spec fn move_member_spec(s: Seq<SliceView>, m: Str, target: Str) -> Seq<SliceView> {
    let t = s.map_values(|sl: SliceView| strip_member(sl, m, target));
    let k = first_with_id(s, target);
    if k < s.len() {
        t.update(k, SliceView { members: sort_dedup(t[k].members.push(m)), ..t[k] })
    } else {
        t
    }
}

/// Moves each listed member to `target`, in order.
pub open spec fn move_all(s: Seq<SliceView>, ms: Seq<Str>, target: Str) -> Seq<SliceView>
    decreases ms.len(),
{
    if ms.len() == 0 {
        s
    } else {
        move_member_spec(move_all(s, ms.drop_last(), target), ms.last(), target)
    }
}

/// The first slice named `id` gets `r` as a further reason, and its members
/// sorted and distinct.
pub open spec fn settle(s: Seq<SliceView>, id: Str, r: ReasonView) -> Seq<SliceView> {
    let k = first_with_id(s, id);
    if k < s.len() {
        s.update(
            k,
            SliceView { members: sort_dedup(s[k].members), reasons: s[k].reasons.push(r), ..s[k] },
        )
    } else {
        s
    }
}

/// The id of the slice a must_link rule creates when none of its members
/// sits in a slice.
pub open spec fn bundle_id(ms: Seq<Str>) -> Str {
    "override-"@ + slug(ms[0])
}

pub open spec fn bundle_view(id: Str) -> SliceView {
    new_slice_view(
        id,
        "Override bundle"@,
        SliceKind::Misc,
        seq!["override"@],
        seq![],
        seq![],
        seq![reason_view("override"@, "Created to satisfy must_link override."@)],
    )
}

/// One must_link rule: its members gather in the slice of the first member
/// that has one, or in a new bundle slice.
pub open spec fn must_link_step(s: Seq<SliceView>, rule: MustLinkView) -> Seq<SliceView> {
    if rule.members.len() == 0 {
        s
    } else {
        let anchor = first_anchor(s, rule.members);
        let target = match anchor {
            Some(a) => a,
            None => bundle_id(rule.members),
        };
        let base = if anchor is Some {
            s
        } else {
            s.push(bundle_view(target))
        };
        settle(
            move_all(base, rule.members, target),
            target,
            reason_view(
                "override-must-link"@,
                or_default(rule.reason, "Members were forced to stay together by override."@),
            ),
        )
    }
}

pub open spec fn forced_view(id: Str) -> SliceView {
    new_slice_view(
        id,
        id,
        SliceKind::Misc,
        seq!["override"@],
        seq![],
        seq![],
        seq![reason_view("override"@, "Created to satisfy force_members override."@)],
    )
}

/// One force_members rule: the member moves to the named slice, which is
/// created when missing.
pub open spec fn force_step(s: Seq<SliceView>, rule: ForceView) -> Seq<SliceView> {
    let base = if is_slice_id(s, rule.slice) {
        s
    } else {
        s.push(forced_view(rule.slice))
    };
    settle(
        move_member_spec(base, rule.member, rule.slice),
        rule.slice,
        reason_view(
            "override-force-member"@,
            or_default(rule.reason, "Member was forced into this slice by override."@),
        ),
    )
}

/// One rename_slices rule: the first slice with the id gets the new title.
pub open spec fn rename_step(s: Seq<SliceView>, rule: RenameView) -> Seq<SliceView> {
    let k = first_with_id(s, rule.id);
    if k < s.len() {
        s.update(k, SliceView { title: rule.title, ..s[k] })
    } else {
        s
    }
}

pub open spec fn override_cycle_diag(before: Str, after: Str) -> DiagView {
    DiagView {
        level: DiagnosticLevel::Error,
        code: "override-cycle"@,
        message: "must_order '"@ + before + " -> "@ + after
            + "' would create a cycle; edge rejected"@,
    }
}

/// One must_order rule: `after` gains a dependency on `before`, unless the
/// graph would then not be acyclic, in which case every dependency of `after`
/// on `before` is dropped and the rule is reported.
pub open spec fn order_step(s: Seq<SliceView>, rule: OrderView) -> (Seq<SliceView>, Seq<DiagView>) {
    let k = first_with_id(s, rule.after);
    if k >= s.len() {
        (s, seq![])
    } else {
        let added = s.update(
            k,
            SliceView { depends_on: sort_dedup(s[k].depends_on.push(rule.before)), ..s[k] },
        );
        if acyclic(added) {
            (
                added.update(
                    k,
                    SliceView {
                        reasons: added[k].reasons.push(
                            reason_view(
                                "override-must-order"@,
                                or_default(rule.reason, "Ordering edge added by override."@),
                            ),
                        ),
                        ..added[k]
                    },
                ),
                seq![],
            )
        } else {
            (
                added.update(
                    k,
                    SliceView {
                        depends_on: added[k].depends_on.filter(|x: Str| x != rule.before),
                        ..added[k]
                    },
                ),
                seq![override_cycle_diag(rule.before, rule.after)],
            )
        }
    }
}

pub open spec fn apply_must_link(s: Seq<SliceView>, rules: Seq<MustLinkView>) -> Seq<SliceView>
    decreases rules.len(),
{
    if rules.len() == 0 {
        s
    } else {
        must_link_step(apply_must_link(s, rules.drop_last()), rules.last())
    }
}

pub open spec fn apply_force(s: Seq<SliceView>, rules: Seq<ForceView>) -> Seq<SliceView>
    decreases rules.len(),
{
    if rules.len() == 0 {
        s
    } else {
        force_step(apply_force(s, rules.drop_last()), rules.last())
    }
}

pub open spec fn apply_rename(s: Seq<SliceView>, rules: Seq<RenameView>) -> Seq<SliceView>
    decreases rules.len(),
{
    if rules.len() == 0 {
        s
    } else {
        rename_step(apply_rename(s, rules.drop_last()), rules.last())
    }
}

pub open spec fn apply_order(s: Seq<SliceView>, rules: Seq<OrderView>) -> (Seq<SliceView>, Seq<DiagView>)
    decreases rules.len(),
{
    if rules.len() == 0 {
        (s, seq![])
    } else {
        let (s1, d1) = apply_order(s, rules.drop_last());
        let (s2, d2) = order_step(s1, rules.last());
        (s2, d1 + d2)
    }
}

/// The slices and findings after all overrides.
pub open spec fn apply_spec(s: Seq<SliceView>, o: OverridesView) -> (Seq<SliceView>, Seq<DiagView>) {
    apply_order(
        apply_rename(apply_force(apply_must_link(s, o.must_link), o.force_members), o.rename_slices),
        o.must_order,
    )
}

/// `first_with_id` is the first index with the id, or the length.
pub proof fn lemma_first_with_id(s: Seq<SliceView>, id: Str, j: int)
    requires
        0 <= j <= s.len(),
        j < s.len() ==> s[j].id == id,
        forall|k: int| 0 <= k < j ==> s[k].id != id,
    ensures
        first_with_id(s, id) == j,
    decreases s.len(),
{
    if s.len() > 0 && j > 0 {
        lemma_first_with_id(s.drop_first(), id, j - 1);
    }
}

/// The index of the first slice with the id, or the length.
pub(crate) fn first_index(slices: &Vec<Slice>, id: &String) -> (k: usize)
    ensures
        k == first_with_id(slices_view(slices@), id@),
        k <= slices@.len(),
        k < slices@.len() ==> slices@[k as int].id@ == id@,
        forall|j: int| 0 <= j < k ==> slices@[j].id@ != id@,
        k == slices@.len() <==> !is_slice_id(slices_view(slices@), id@),
{
    let ghost sv = slices_view(slices@);
    match find_slice_index(slices, id) {
        Some(k) => {
            proof {
                assert forall|j: int| 0 <= j < k implies sv[j].id != id@ by {
                    assert(sv[j] == slices@[j]@);
                }
                lemma_first_with_id(sv, id@, k as int);
                assert(sv[k as int].id == id@);
            }
            k
        },
        None => {
            proof {
                assert forall|j: int| 0 <= j < sv.len() implies sv[j].id != id@ by {
                    if sv[j].id == id@ {
                        assert(is_slice_id(sv, id@));
                    }
                }
                assert forall|j: int| 0 <= j < slices@.len() implies slices@[j].id@ != id@ by {
                    assert(sv[j] == slices@[j]@);
                }
                lemma_first_with_id(sv, id@, sv.len() as int);
            }
            slices.len()
        },
    }
}

/// The list without any occurrence of `m`.
fn remove_string(v: &Vec<String>, m: &String) -> (r: Vec<String>)
    ensures
        r.deep_view() == v.deep_view().filter(other_than(m@)),
{
    let ghost dv = v.deep_view();
    let ghost pred = other_than(m@);
    let mut r: Vec<String> = Vec::new();
    let mut i: usize = 0;
    proof {
        reveal(Seq::filter);
        assert(dv.take(0).filter(pred) =~= seq![]);
    }
    while i < v.len()
        invariant
            dv == v.deep_view(),
            pred == other_than(m@),
            0 <= i <= v@.len(),
            r.deep_view() == dv.take(i as int).filter(pred),
        decreases v@.len() - i,
    {
        proof {
            reveal(Seq::filter);
            assert(dv.take(i + 1).drop_last() =~= dv.take(i as int));
            assert(dv.take(i + 1).last() == dv[i as int]);
        }
        if v[i] != *m {
            let ghost before = r.deep_view();
            r.push(v[i].clone());
            proof {
                assert(r.deep_view() =~= before.push(dv[i as int]));
            }
        }
        i = i + 1;
    }
    proof {
        assert(dv.take(v@.len() as int) =~= dv);
    }
    r
}

/// Moves `member` out of every slice not named `target` and into the first
/// slice named `target`.
pub fn move_member(slices: &mut Vec<Slice>, member: &String, target: &String)
    ensures
        slices_view(final(slices)@) == move_member_spec(slices_view(old(slices)@), member@, target@),
{
    let ghost s0 = slices_view(slices@);
    let ghost t = s0.map_values(|sl: SliceView| strip_member(sl, member@, target@));
    let n = slices.len();
    let mut i: usize = 0;
    while i < n
        invariant
            n == slices@.len(),
            s0.len() == n,
            t == s0.map_values(|sl: SliceView| strip_member(sl, member@, target@)),
            0 <= i <= n,
            forall|j: int| 0 <= j < i ==> slices_view(slices@)[j] == t[j],
            forall|j: int| i <= j < n ==> slices_view(slices@)[j] == s0[j],
        decreases n - i,
    {
        if slices[i].id != *target {
            let mut sl = slices[i].duplicate();
            sl.members = remove_string(&slices[i].members, member);
            proof {
                assert(sl@ =~= strip_member(s0[i as int], member@, target@));
            }
            slices.set(i, sl);
        } else {
            proof {
                assert(slices_view(slices@)[i as int] == strip_member(s0[i as int], member@, target@));
            }
        }
        i = i + 1;
    }
    proof {
        assert(slices_view(slices@) =~= t);
    }
    let k = first_index(slices, target);
    proof {
        assert forall|j: int| 0 <= j < k implies s0[j].id != target@ by {
            assert(t[j].id == s0[j].id);
            assert(slices_view(slices@)[j] == slices@[j]@);
        }
        if k < n {
            assert(t[k as int].id == s0[k as int].id);
        }
        lemma_first_with_id(s0, target@, k as int);
    }
    if k < n {
        let mut sl = slices[k].duplicate();
        let ghost ms = sl.members.deep_view();
        if !contains_string(&sl.members, member) {
            sl.members.push(member.clone());
            proof {
                assert(sl.members.deep_view() =~= ms.push(member@));
            }
        } else {
            proof {
                assert forall|y: Str| ms.contains(y) <==> ms.push(member@).contains(y) by {
                    if ms.contains(y) {
                        let q = choose|q: int| 0 <= q < ms.len() && ms[q] == y;
                        assert(ms.push(member@)[q] == y);
                    }
                    if ms.push(member@).contains(y) {
                        let q = choose|q: int| 0 <= q < ms.push(member@).len() && ms.push(member@)[q] == y;
                        if q < ms.len() {
                            assert(ms[q] == y);
                        } else {
                            assert(y == member@);
                        }
                    }
                }
                lemma_sort_dedup_same(ms, ms.push(member@));
            }
        }
        dedup_and_sort(&mut sl.members);
        proof {
            assert(sl@ =~= SliceView { members: sort_dedup(t[k as int].members.push(member@)), ..t[k as int] });
        }
        slices.set(k, sl);
        proof {
            assert(slices_view(slices@) =~= move_member_spec(s0, member@, target@));
        }
    }
}

/// Gives the first slice named `id` a further reason and sorts its members.
fn settle_slice(slices: &mut Vec<Slice>, id: &String, r: crate::model::InclusionReason)
    ensures
        slices_view(final(slices)@) == settle(slices_view(old(slices)@), id@, r@),
{
    let ghost s0 = slices_view(slices@);
    let k = first_index(slices, id);
    if k < slices.len() {
        let mut sl = slices[k].duplicate();
        dedup_and_sort(&mut sl.members);
        let ghost rs = reasons_view(sl.reasons@);
        sl.reasons.push(r);
        proof {
            assert(reasons_view(sl.reasons@) =~= rs.push(r@));
            assert(sl@ =~= SliceView {
                members: sort_dedup(s0[k as int].members),
                reasons: s0[k as int].reasons.push(r@),
                ..s0[k as int]
            });
        }
        slices.set(k, sl);
        proof {
            assert(slices_view(slices@) =~= settle(s0, id@, r@));
        }
    }
}

/// The id of the first slice that holds `m`.
fn find_slice_for_member(slices: &Vec<Slice>, m: &String) -> (r: Option<String>)
    ensures
        opt_view(r) == slice_of_member(slices_view(slices@), m@),
{
    let ghost sv = slices_view(slices@);
    let mut i: usize = 0;
    proof {
        assert(sv.skip(0) =~= sv);
    }
    while i < slices.len()
        invariant
            sv == slices_view(slices@),
            0 <= i <= slices@.len(),
            slice_of_member(sv, m@) == slice_of_member(sv.skip(i as int), m@),
        decreases slices@.len() - i,
    {
        proof {
            assert(sv.skip(i as int)[0] == slices@[i as int]@);
            assert(sv.skip(i as int).drop_first() =~= sv.skip(i + 1));
        }
        if contains_string(&slices[i].members, m) {
            return Some(slices[i].id.clone());
        }
        i = i + 1;
    }
    None
}

/// The slice of the first listed member that sits in a slice.
fn find_anchor(slices: &Vec<Slice>, ms: &Vec<String>) -> (r: Option<String>)
    ensures
        opt_view(r) == first_anchor(slices_view(slices@), ms.deep_view()),
{
    let ghost sv = slices_view(slices@);
    let ghost dv = ms.deep_view();
    let mut k: usize = 0;
    proof {
        assert(dv.skip(0) =~= dv);
    }
    while k < ms.len()
        invariant
            sv == slices_view(slices@),
            dv == ms.deep_view(),
            0 <= k <= ms@.len(),
            first_anchor(sv, dv) == first_anchor(sv, dv.skip(k as int)),
        decreases ms@.len() - k,
    {
        proof {
            assert(dv.skip(k as int)[0] == dv[k as int]);
            assert(dv.skip(k as int).drop_first() =~= dv.skip(k + 1));
        }
        let found = find_slice_for_member(slices, &ms[k]);
        if found.is_some() {
            return found;
        }
        k = k + 1;
    }
    None
}

/// Moves each listed member to `target`, in order.
fn move_members(slices: &mut Vec<Slice>, ms: &Vec<String>, target: &String)
    ensures
        slices_view(final(slices)@) == move_all(slices_view(old(slices)@), ms.deep_view(), target@),
{
    let ghost s0 = slices_view(slices@);
    let ghost dv = ms.deep_view();
    let mut k: usize = 0;
    while k < ms.len()
        invariant
            dv == ms.deep_view(),
            0 <= k <= ms@.len(),
            slices_view(slices@) == move_all(s0, dv.take(k as int), target@),
        decreases ms@.len() - k,
    {
        proof {
            assert(dv.take(k + 1).drop_last() =~= dv.take(k as int));
        }
        move_member(slices, &ms[k], target);
        k = k + 1;
    }
    proof {
        assert(dv.take(ms@.len() as int) =~= dv);
    }
}

fn apply_must_link_rule(slices: &mut Vec<Slice>, rule: &MustLinkOverride)
    ensures
        slices_view(final(slices)@) == must_link_step(slices_view(old(slices)@), rule@),
{
    if rule.members.len() == 0 {
        return;
    }
    let ghost s0 = slices_view(slices@);
    let anchor = find_anchor(slices, &rule.members);
    let target = match anchor {
        Some(a) => a,
        None => {
            let mut id = lit("override-");
            let sl = slugify(rule.members[0].as_str());
            push_str(&mut id, sl.as_str());
            let mut fams: Vec<String> = Vec::new();
            fams.push(lit("override"));
            let mut why: Vec<crate::model::InclusionReason> = Vec::new();
            why.push(reason("override", "Created to satisfy must_link override."));
            let bundle = new_slice(
                id.as_str(),
                "Override bundle",
                SliceKind::Misc,
                fams,
                Vec::new(),
                Vec::new(),
                why,
            );
            proof {
                assert(rule.members.deep_view()[0] == rule.members@[0]@);
                assert(reasons_view(why@) =~= seq![reason_view("override"@, "Created to satisfy must_link override."@)]);
                assert(fams.deep_view() =~= seq!["override"@]);
                assert(bundle@ == bundle_view(bundle_id(rule@.members)));
            }
            let ghost before = slices_view(slices@);
            slices.push(bundle);
            proof {
                assert(slices_view(slices@) =~= before.push(bundle_view(bundle_id(rule@.members))));
            }
            id
        },
    };
    move_members(slices, &rule.members, &target);
    let text = match &rule.reason {
        Some(t) => t.as_str(),
        None => "Members were forced to stay together by override.",
    };
    settle_slice(slices, &target, reason("override-must-link", text));
}

fn apply_force_rule(slices: &mut Vec<Slice>, rule: &ForceMemberOverride)
    ensures
        slices_view(final(slices)@) == force_step(slices_view(old(slices)@), rule@),
{
    let k = first_index(slices, &rule.slice);
    if k == slices.len() {
        let mut fams: Vec<String> = Vec::new();
        fams.push(lit("override"));
        let mut why: Vec<crate::model::InclusionReason> = Vec::new();
        why.push(reason("override", "Created to satisfy force_members override."));
        let created = new_slice(
            rule.slice.as_str(),
            rule.slice.as_str(),
            SliceKind::Misc,
            fams,
            Vec::new(),
            Vec::new(),
            why,
        );
        proof {
            assert(reasons_view(why@) =~= seq![reason_view("override"@, "Created to satisfy force_members override."@)]);
            assert(fams.deep_view() =~= seq!["override"@]);
        }
        let ghost before = slices_view(slices@);
        slices.push(created);
        proof {
            assert(slices_view(slices@) =~= before.push(forced_view(rule.slice@)));
        }
    }
    move_member(slices, &rule.member, &rule.slice);
    let text = match &rule.reason {
        Some(t) => t.as_str(),
        None => "Member was forced into this slice by override.",
    };
    settle_slice(slices, &rule.slice, reason("override-force-member", text));
}

fn apply_rename_rule(slices: &mut Vec<Slice>, rule: &RenameSliceOverride)
    ensures
        slices_view(final(slices)@) == rename_step(slices_view(old(slices)@), rule@),
{
    let ghost s0 = slices_view(slices@);
    let k = first_index(slices, &rule.id);
    if k < slices.len() {
        let mut sl = slices[k].duplicate();
        sl.title = rule.title.clone();
        slices.set(k, sl);
        proof {
            assert(slices_view(slices@) =~= rename_step(s0, rule@));
        }
    }
}

fn apply_order_rule(slices: &mut Vec<Slice>, rule: &MustOrderOverride) -> (r: Vec<Diagnostic>)
    ensures
        (slices_view(final(slices)@), diags_view(r@)) == order_step(slices_view(old(slices)@), rule@),
{
    let ghost s0 = slices_view(slices@);
    let mut out: Vec<Diagnostic> = Vec::new();
    let k = first_index(slices, &rule.after);
    if k == slices.len() {
        proof {
            assert(diags_view(out@) =~= seq![]);
        }
        return out;
    }
    let mut sl = slices[k].duplicate();
    let ghost deps0 = sl.depends_on.deep_view();
    sl.depends_on.push(rule.before.clone());
    proof {
        assert(sl.depends_on.deep_view() =~= deps0.push(rule.before@));
    }
    dedup_and_sort(&mut sl.depends_on);
    let ghost added_k = sl@;
    slices.set(k, sl);
    let ghost added = slices_view(slices@);
    proof {
        assert(added =~= s0.update(
            k as int,
            SliceView { depends_on: sort_dedup(s0[k as int].depends_on.push(rule.before@)), ..s0[k as int] },
        ));
    }
    let cyclic = has_cycle(slices);
    proof {
        assert(cyclic == !acyclic(added));
        assert(k as int == first_with_id(s0, rule.after@));
    }
    if cyclic {
        let mut sl = slices[k].duplicate();
        sl.depends_on = remove_string(&slices[k].depends_on, &rule.before);
        proof {
            assert(added[k as int] == slices@[k as int]@);
            assert(sl@.depends_on == added[k as int].depends_on.filter(|x: Str| x != rule.before@));
            assert(sl@ =~= SliceView {
                depends_on: added[k as int].depends_on.filter(|x: Str| x != rule.before@),
                ..added[k as int]
            });
        }
        let ghost slv = sl@;
        slices.set(k, sl);
        proof {
            assert(slices_view(slices@) =~= added.update(k as int, slv));
            let p1 = |x: Str| x != rule.before@;
            let p2 = |x: Str| x != rule@.before;
            assert(p1 =~= p2);
            assert(slv.depends_on == added[k as int].depends_on.filter(p2));
        }
        let mut m = lit("must_order '");
        push_str(&mut m, rule.before.as_str());
        push_str(&mut m, " -> ");
        push_str(&mut m, rule.after.as_str());
        push_str(&mut m, "' would create a cycle; edge rejected");
        out.push(Diagnostic::new(DiagnosticLevel::Error, "override-cycle", m));
        proof {
            assert(slices_view(slices@) =~= order_step(s0, rule@).0);
            assert(diags_view(out@) =~= order_step(s0, rule@).1);
        }
    } else {
        let mut sl = slices[k].duplicate();
        let text = match &rule.reason {
            Some(t) => t.as_str(),
            None => "Ordering edge added by override.",
        };
        let ghost rs = reasons_view(sl.reasons@);
        let why = reason("override-must-order", text);
        sl.reasons.push(why);
        proof {
            assert(reasons_view(sl.reasons@) =~= rs.push(why@));
        }
        slices.set(k, sl);
        proof {
            assert(slices_view(slices@) =~= order_step(s0, rule@).0);
            assert(diags_view(out@) =~= order_step(s0, rule@).1);
        }
    }
    out
}

/// Applies the overrides to the slices and reports must_order rules that
/// were rolled back because they would close a cycle.
pub fn apply_overrides(slices: &mut Vec<Slice>, overrides: &Overrides) -> (r: Vec<Diagnostic>)
    ensures
        (slices_view(final(slices)@), diags_view(r@)) == apply_spec(slices_view(old(slices)@), overrides@),
{
    let ghost s0 = slices_view(slices@);
    let ghost o = overrides@;
    let mut i: usize = 0;
    while i < overrides.must_link.len()
        invariant
            o == overrides@,
            0 <= i <= overrides.must_link@.len(),
            slices_view(slices@) == apply_must_link(s0, o.must_link.take(i as int)),
        decreases overrides.must_link@.len() - i,
    {
        proof {
            assert(o.must_link.take(i + 1).drop_last() =~= o.must_link.take(i as int));
        }
        apply_must_link_rule(slices, &overrides.must_link[i]);
        i = i + 1;
    }
    proof {
        assert(o.must_link.take(overrides.must_link@.len() as int) =~= o.must_link);
    }
    let ghost s1 = slices_view(slices@);
    let mut i: usize = 0;
    while i < overrides.force_members.len()
        invariant
            o == overrides@,
            0 <= i <= overrides.force_members@.len(),
            slices_view(slices@) == apply_force(s1, o.force_members.take(i as int)),
        decreases overrides.force_members@.len() - i,
    {
        proof {
            assert(o.force_members.take(i + 1).drop_last() =~= o.force_members.take(i as int));
        }
        apply_force_rule(slices, &overrides.force_members[i]);
        i = i + 1;
    }
    proof {
        assert(o.force_members.take(overrides.force_members@.len() as int) =~= o.force_members);
    }
    let ghost s2 = slices_view(slices@);
    let mut i: usize = 0;
    while i < overrides.rename_slices.len()
        invariant
            o == overrides@,
            0 <= i <= overrides.rename_slices@.len(),
            slices_view(slices@) == apply_rename(s2, o.rename_slices.take(i as int)),
        decreases overrides.rename_slices@.len() - i,
    {
        proof {
            assert(o.rename_slices.take(i + 1).drop_last() =~= o.rename_slices.take(i as int));
        }
        apply_rename_rule(slices, &overrides.rename_slices[i]);
        i = i + 1;
    }
    proof {
        assert(o.rename_slices.take(overrides.rename_slices@.len() as int) =~= o.rename_slices);
    }
    let ghost s3 = slices_view(slices@);
    let mut out: Vec<Diagnostic> = Vec::new();
    let mut i: usize = 0;
    proof {
        assert(diags_view(out@) =~= seq![]);
    }
    while i < overrides.must_order.len()
        invariant
            o == overrides@,
            0 <= i <= overrides.must_order@.len(),
            (slices_view(slices@), diags_view(out@)) == apply_order(s3, o.must_order.take(i as int)),
        decreases overrides.must_order@.len() - i,
    {
        proof {
            assert(o.must_order.take(i + 1).drop_last() =~= o.must_order.take(i as int));
        }
        let mut d = apply_order_rule(slices, &overrides.must_order[i]);
        let ghost before = diags_view(out@);
        let ghost dd = diags_view(d@);
        out.append(&mut d);
        proof {
            assert(diags_view(out@) =~= before + dd);
        }
        i = i + 1;
    }
    proof {
        assert(o.must_order.take(overrides.must_order@.len() as int) =~= o.must_order);
    }
    out
}

} // verus!
