//! The plan model: edit units, slices, plans, configuration and overrides,
//! each with a mathematical view.
use vstd::prelude::*;
use crate::order::{dedup_and_sort, sort_dedup};
use crate::text::Str;

verus! {

/// The plan format version written by this library.
pub const PLAN_VERSION: &'static str = "0.1.0";

/// The highest `stackcut.toml` version this library accepts.
pub const SUPPORTED_CONFIG_VERSION: u32 = 1;

/// How a file changed between the base and the head revision.
#[derive(Debug, Clone, Copy, PartialEq, Eq, Structural)]
pub enum ChangeStatus {
    Added,
    Modified,
    Deleted,
    Renamed,
    Copied,
    Unknown,
}

/// What a changed file is, as far as slicing is concerned.
#[derive(Debug, Clone, Copy, PartialEq, Eq, Structural)]
pub enum UnitKind {
    Manifest,
    Lockfile,
    Generated,
    Test,
    Documentation,
    OpsConfig,
    Mechanical,
    Behavior,
}

/// The kind of a slice; the order of the variants is the order of the kinds.
#[derive(Debug, Clone, Copy, PartialEq, Eq, Structural, PartialOrd, Ord)]
pub enum SliceKind {
    PrepRefactor,
    Behavior,
    TestsDocs,
    Generated,
    Mechanical,
    OpsConfig,
    ApiSchema,
    Misc,
}

/// The severity of a diagnostic.
#[derive(Debug, Clone, Copy, PartialEq, Eq, Structural)]
pub enum DiagnosticLevel {
    Error,
    Warning,
    Note,
}

/// One changed file.
#[derive(Debug, Clone, PartialEq, Eq)]
pub struct EditUnit {
    pub id: String,
    pub path: String,
    pub old_path: Option<String>,
    pub status: ChangeStatus,
    pub kind: UnitKind,
    pub family: String,
    pub notes: Vec<String>,
}

/// Why a member sits in a slice.
#[derive(Debug, Clone, PartialEq, Eq)]
pub struct InclusionReason {
    pub code: String,
    pub message: String,
}

/// Scenarios and commands that exercise a slice.
#[derive(Debug, Clone, PartialEq, Eq)]
pub struct ProofSurface {
    pub scenario_ids: Vec<String>,
    pub expected_commands: Vec<String>,
}

/// One reviewable step of the stack.
#[derive(Debug, Clone, PartialEq, Eq)]
pub struct Slice {
    pub id: String,
    pub title: String,
    pub kind: SliceKind,
    pub families: Vec<String>,
    pub members: Vec<String>,
    pub depends_on: Vec<String>,
    pub reasons: Vec<InclusionReason>,
    pub proof_surface: ProofSurface,
}

/// A unit the planner could not place confidently.
#[derive(Debug, Clone, PartialEq, Eq)]
pub struct Ambiguity {
    pub id: String,
    pub message: String,
    pub affected_units: Vec<String>,
    pub candidate_slices: Vec<String>,
    pub resolution: String,
}

/// A finding about a plan or an input.
#[derive(Debug, Clone, PartialEq, Eq)]
pub struct Diagnostic {
    pub level: DiagnosticLevel,
    pub code: String,
    pub message: String,
}

/// Where a plan's units came from.
#[derive(Debug, Clone, PartialEq, Eq)]
pub struct PlanSource {
    pub repo_root: Option<String>,
    pub base: String,
    pub head: String,
    pub head_tree: Option<String>,
}

/// A stack plan.
#[derive(Debug, Clone, PartialEq, Eq)]
pub struct Plan {
    pub version: String,
    pub source: PlanSource,
    pub units: Vec<EditUnit>,
    pub slices: Vec<Slice>,
    pub ambiguities: Vec<Ambiguity>,
    pub diagnostics: Vec<Diagnostic>,
    pub fingerprint: Option<String>,
    pub override_fingerprint: Option<String>,
}

/// Maps a path prefix to a family name.
#[derive(Debug, Clone, PartialEq, Eq)]
pub struct PathFamilyRule {
    pub prefix: String,
    pub family: String,
}

/// Repository rules from `stackcut.toml`.
#[derive(Debug, Clone, PartialEq, Eq)]
pub struct StackcutConfig {
    pub version: u32,
    pub generated_prefixes: Vec<String>,
    pub manifest_files: Vec<String>,
    pub lock_files: Vec<String>,
    pub test_prefixes: Vec<String>,
    pub doc_prefixes: Vec<String>,
    pub ops_prefixes: Vec<String>,
    pub path_families: Vec<PathFamilyRule>,
    pub review_budget: Option<u32>,
}

/// Keeps members together in one slice.
#[derive(Debug, Clone, PartialEq, Eq)]
pub struct MustLinkOverride {
    pub members: Vec<String>,
    pub reason: Option<String>,
}

/// Puts a member into a named slice.
#[derive(Debug, Clone, PartialEq, Eq)]
pub struct ForceMemberOverride {
    pub member: String,
    pub slice: String,
    pub reason: Option<String>,
}

/// Gives a slice a new title.
#[derive(Debug, Clone, PartialEq, Eq)]
pub struct RenameSliceOverride {
    pub id: String,
    pub title: String,
}

/// Makes one slice come after another.
#[derive(Debug, Clone, PartialEq, Eq)]
pub struct MustOrderOverride {
    pub before: String,
    pub after: String,
    pub reason: Option<String>,
}

/// Human overrides from `override.toml`.
#[derive(Debug, Clone, PartialEq, Eq)]
pub struct Overrides {
    pub version: u32,
    pub must_link: Vec<MustLinkOverride>,
    pub force_members: Vec<ForceMemberOverride>,
    pub rename_slices: Vec<RenameSliceOverride>,
    pub must_order: Vec<MustOrderOverride>,
}

// ---------------------------------------------------------------------------
// Views
// ---------------------------------------------------------------------------

/// The view of an optional string.
pub open spec fn opt_view(o: Option<String>) -> Option<Str> {
    match o {
        Some(s) => Some(s@),
        None => None,
    }
}

#[verifier::ext_equal]
pub struct UnitView {
    pub id: Str,
    pub path: Str,
    pub old_path: Option<Str>,
    pub status: ChangeStatus,
    pub kind: UnitKind,
    pub family: Str,
    pub notes: Seq<Str>,
}

impl View for EditUnit {
    type V = UnitView;

    open spec fn view(&self) -> UnitView {
        UnitView {
            id: self.id@,
            path: self.path@,
            old_path: opt_view(self.old_path),
            status: self.status,
            kind: self.kind,
            family: self.family@,
            notes: self.notes.deep_view(),
        }
    }
}

#[verifier::ext_equal]
pub struct ReasonView {
    pub code: Str,
    pub message: Str,
}

impl View for InclusionReason {
    type V = ReasonView;

    open spec fn view(&self) -> ReasonView {
        ReasonView { code: self.code@, message: self.message@ }
    }
}

#[verifier::ext_equal]
pub struct SurfaceView {
    pub scenario_ids: Seq<Str>,
    pub expected_commands: Seq<Str>,
}

impl View for ProofSurface {
    type V = SurfaceView;

    open spec fn view(&self) -> SurfaceView {
        SurfaceView {
            scenario_ids: self.scenario_ids.deep_view(),
            expected_commands: self.expected_commands.deep_view(),
        }
    }
}

/// The views of a list of reasons.
pub open spec fn reasons_view(r: Seq<InclusionReason>) -> Seq<ReasonView> {
    r.map_values(|x: InclusionReason| x@)
}

#[verifier::ext_equal]
pub struct SliceView {
    pub id: Str,
    pub title: Str,
    pub kind: SliceKind,
    pub families: Seq<Str>,
    pub members: Seq<Str>,
    pub depends_on: Seq<Str>,
    pub reasons: Seq<ReasonView>,
    pub proof_surface: SurfaceView,
}

impl View for Slice {
    type V = SliceView;

    open spec fn view(&self) -> SliceView {
        SliceView {
            id: self.id@,
            title: self.title@,
            kind: self.kind,
            families: self.families.deep_view(),
            members: self.members.deep_view(),
            depends_on: self.depends_on.deep_view(),
            reasons: reasons_view(self.reasons@),
            proof_surface: self.proof_surface@,
        }
    }
}

#[verifier::ext_equal]
pub struct AmbiguityView {
    pub id: Str,
    pub message: Str,
    pub affected_units: Seq<Str>,
    pub candidate_slices: Seq<Str>,
    pub resolution: Str,
}

impl View for Ambiguity {
    type V = AmbiguityView;

    open spec fn view(&self) -> AmbiguityView {
        AmbiguityView {
            id: self.id@,
            message: self.message@,
            affected_units: self.affected_units.deep_view(),
            candidate_slices: self.candidate_slices.deep_view(),
            resolution: self.resolution@,
        }
    }
}

#[verifier::ext_equal]
pub struct DiagView {
    pub level: DiagnosticLevel,
    pub code: Str,
    pub message: Str,
}

impl View for Diagnostic {
    type V = DiagView;

    open spec fn view(&self) -> DiagView {
        DiagView { level: self.level, code: self.code@, message: self.message@ }
    }
}

#[verifier::ext_equal]
pub struct SourceView {
    pub repo_root: Option<Str>,
    pub base: Str,
    pub head: Str,
    pub head_tree: Option<Str>,
}

impl View for PlanSource {
    type V = SourceView;

    open spec fn view(&self) -> SourceView {
        SourceView {
            repo_root: opt_view(self.repo_root),
            base: self.base@,
            head: self.head@,
            head_tree: opt_view(self.head_tree),
        }
    }
}

/// The views of a list of units.
pub open spec fn units_view(u: Seq<EditUnit>) -> Seq<UnitView> {
    u.map_values(|x: EditUnit| x@)
}

/// The views of a list of slices.
pub open spec fn slices_view(s: Seq<Slice>) -> Seq<SliceView> {
    s.map_values(|x: Slice| x@)
}

/// The views of a list of diagnostics.
pub open spec fn diags_view(d: Seq<Diagnostic>) -> Seq<DiagView> {
    d.map_values(|x: Diagnostic| x@)
}

/// The views of a list of ambiguities.
pub open spec fn ambiguities_view(a: Seq<Ambiguity>) -> Seq<AmbiguityView> {
    a.map_values(|x: Ambiguity| x@)
}

#[verifier::ext_equal]
pub struct PlanView {
    pub version: Str,
    pub source: SourceView,
    pub units: Seq<UnitView>,
    pub slices: Seq<SliceView>,
    pub ambiguities: Seq<AmbiguityView>,
    pub diagnostics: Seq<DiagView>,
    pub fingerprint: Option<Str>,
    pub override_fingerprint: Option<Str>,
}

impl View for Plan {
    type V = PlanView;

    open spec fn view(&self) -> PlanView {
        PlanView {
            version: self.version@,
            source: self.source@,
            units: units_view(self.units@),
            slices: slices_view(self.slices@),
            ambiguities: ambiguities_view(self.ambiguities@),
            diagnostics: diags_view(self.diagnostics@),
            fingerprint: opt_view(self.fingerprint),
            override_fingerprint: opt_view(self.override_fingerprint),
        }
    }
}

#[verifier::ext_equal]
pub struct RuleView {
    pub prefix: Str,
    pub family: Str,
}

impl View for PathFamilyRule {
    type V = RuleView;

    open spec fn view(&self) -> RuleView {
        RuleView { prefix: self.prefix@, family: self.family@ }
    }
}

#[verifier::ext_equal]
pub struct ConfigView {
    pub version: u32,
    pub generated_prefixes: Seq<Str>,
    pub manifest_files: Seq<Str>,
    pub lock_files: Seq<Str>,
    pub test_prefixes: Seq<Str>,
    pub doc_prefixes: Seq<Str>,
    pub ops_prefixes: Seq<Str>,
    pub path_families: Seq<RuleView>,
    pub review_budget: Option<u32>,
}

impl View for StackcutConfig {
    type V = ConfigView;

    open spec fn view(&self) -> ConfigView {
        ConfigView {
            version: self.version,
            generated_prefixes: self.generated_prefixes.deep_view(),
            manifest_files: self.manifest_files.deep_view(),
            lock_files: self.lock_files.deep_view(),
            test_prefixes: self.test_prefixes.deep_view(),
            doc_prefixes: self.doc_prefixes.deep_view(),
            ops_prefixes: self.ops_prefixes.deep_view(),
            path_families: self.path_families@.map_values(|r: PathFamilyRule| r@),
            review_budget: self.review_budget,
        }
    }
}

#[verifier::ext_equal]
pub struct MustLinkView {
    pub members: Seq<Str>,
    pub reason: Option<Str>,
}

impl View for MustLinkOverride {
    type V = MustLinkView;

    open spec fn view(&self) -> MustLinkView {
        MustLinkView { members: self.members.deep_view(), reason: opt_view(self.reason) }
    }
}

#[verifier::ext_equal]
pub struct ForceView {
    pub member: Str,
    pub slice: Str,
    pub reason: Option<Str>,
}

impl View for ForceMemberOverride {
    type V = ForceView;

    open spec fn view(&self) -> ForceView {
        ForceView { member: self.member@, slice: self.slice@, reason: opt_view(self.reason) }
    }
}

#[verifier::ext_equal]
pub struct RenameView {
    pub id: Str,
    pub title: Str,
}

impl View for RenameSliceOverride {
    type V = RenameView;

    open spec fn view(&self) -> RenameView {
        RenameView { id: self.id@, title: self.title@ }
    }
}

#[verifier::ext_equal]
pub struct OrderView {
    pub before: Str,
    pub after: Str,
    pub reason: Option<Str>,
}

impl View for MustOrderOverride {
    type V = OrderView;

    open spec fn view(&self) -> OrderView {
        OrderView { before: self.before@, after: self.after@, reason: opt_view(self.reason) }
    }
}

#[verifier::ext_equal]
pub struct OverridesView {
    pub version: u32,
    pub must_link: Seq<MustLinkView>,
    pub force_members: Seq<ForceView>,
    pub rename_slices: Seq<RenameView>,
    pub must_order: Seq<OrderView>,
}

impl View for Overrides {
    type V = OverridesView;

    open spec fn view(&self) -> OverridesView {
        OverridesView {
            version: self.version,
            must_link: self.must_link@.map_values(|r: MustLinkOverride| r@),
            force_members: self.force_members@.map_values(|r: ForceMemberOverride| r@),
            rename_slices: self.rename_slices@.map_values(|r: RenameSliceOverride| r@),
            must_order: self.must_order@.map_values(|r: MustOrderOverride| r@),
        }
    }
}

// ---------------------------------------------------------------------------
// Copies with known views
// ---------------------------------------------------------------------------

/// A copy of a list of strings.
pub fn copy_strings(v: &Vec<String>) -> (r: Vec<String>)
    ensures
        r.deep_view() == v.deep_view(),
{
    let mut r: Vec<String> = Vec::new();
    let mut i: usize = 0;
    while i < v.len()
        invariant
            0 <= i <= v@.len(),
            r.deep_view() =~= v.deep_view().take(i as int),
        decreases v@.len() - i,
    {
        let ghost prev = r.deep_view();
        let x = v[i].clone();
        r.push(x);
        proof {
            assert(r.deep_view() =~= prev.push(v.deep_view()[i as int]));
            assert(v.deep_view().take(i + 1) =~= v.deep_view().take(i as int).push(v.deep_view()[i as int]));
        }
        i = i + 1;
    }
    proof {
        assert(v.deep_view().take(v@.len() as int) =~= v.deep_view());
    }
    r
}

/// A copy of an optional string.
pub fn copy_opt(o: &Option<String>) -> (r: Option<String>)
    ensures
        opt_view(r) == opt_view(*o),
{
    match o {
        Some(s) => Some(s.clone()),
        None => None,
    }
}

impl EditUnit {
    /// A copy of this unit.
    pub fn duplicate(&self) -> (r: EditUnit)
        ensures
            r@ == self@,
    {
        EditUnit {
            id: self.id.clone(),
            path: self.path.clone(),
            old_path: copy_opt(&self.old_path),
            status: self.status,
            kind: self.kind,
            family: self.family.clone(),
            notes: copy_strings(&self.notes),
        }
    }
}

impl PlanSource {
    /// A copy of this source.
    pub fn duplicate(&self) -> (r: PlanSource)
        ensures
            r@ == self@,
    {
        PlanSource {
            repo_root: copy_opt(&self.repo_root),
            base: self.base.clone(),
            head: self.head.clone(),
            head_tree: copy_opt(&self.head_tree),
        }
    }
}

impl InclusionReason {
    /// A copy of this reason.
    pub fn duplicate(&self) -> (r: InclusionReason)
        ensures
            r@ == self@,
    {
        InclusionReason { code: self.code.clone(), message: self.message.clone() }
    }
}

impl ProofSurface {
    /// A copy of this proof surface.
    pub fn duplicate(&self) -> (r: ProofSurface)
        ensures
            r@ == self@,
    {
        ProofSurface {
            scenario_ids: copy_strings(&self.scenario_ids),
            expected_commands: copy_strings(&self.expected_commands),
        }
    }
}

/// A copy of a list of reasons.
pub fn copy_reasons(v: &Vec<InclusionReason>) -> (r: Vec<InclusionReason>)
    ensures
        reasons_view(r@) == reasons_view(v@),
{
    let mut r: Vec<InclusionReason> = Vec::new();
    let mut i: usize = 0;
    while i < v.len()
        invariant
            0 <= i <= v@.len(),
            reasons_view(r@) =~= reasons_view(v@.take(i as int)),
        decreases v@.len() - i,
    {
        let ghost prev = r@;
        let x = v[i].duplicate();
        r.push(x);
        proof {
            assert(v@.take(i + 1) =~= v@.take(i as int).push(v@[i as int]));
            assert(reasons_view(r@) =~= reasons_view(prev).push(v@[i as int]@));
            assert(reasons_view(v@.take(i + 1)) =~= reasons_view(v@.take(i as int)).push(v@[i as int]@));
        }
        i = i + 1;
    }
    proof {
        assert(v@.take(v@.len() as int) =~= v@);
    }
    r
}

impl Slice {
    /// A copy of this slice.
    pub fn duplicate(&self) -> (r: Slice)
        ensures
            r@ == self@,
    {
        Slice {
            id: self.id.clone(),
            title: self.title.clone(),
            kind: self.kind,
            families: copy_strings(&self.families),
            members: copy_strings(&self.members),
            depends_on: copy_strings(&self.depends_on),
            reasons: copy_reasons(&self.reasons),
            proof_surface: self.proof_surface.duplicate(),
        }
    }
}

/// A copy of a list of units.
pub fn copy_units(v: &Vec<EditUnit>) -> (r: Vec<EditUnit>)
    ensures
        units_view(r@) == units_view(v@),
{
    let mut r: Vec<EditUnit> = Vec::new();
    let mut i: usize = 0;
    while i < v.len()
        invariant
            0 <= i <= v@.len(),
            units_view(r@) =~= units_view(v@.take(i as int)),
        decreases v@.len() - i,
    {
        let ghost prev = r@;
        let x = v[i].duplicate();
        r.push(x);
        proof {
            assert(v@.take(i + 1) =~= v@.take(i as int).push(v@[i as int]));
            assert(units_view(r@) =~= units_view(prev).push(v@[i as int]@));
            assert(units_view(v@.take(i + 1)) =~= units_view(v@.take(i as int)).push(v@[i as int]@));
        }
        i = i + 1;
    }
    proof {
        assert(v@.take(v@.len() as int) =~= v@);
    }
    r
}

/// A copy of a list of slices.
pub fn copy_slices(v: &Vec<Slice>) -> (r: Vec<Slice>)
    ensures
        slices_view(r@) == slices_view(v@),
{
    let mut r: Vec<Slice> = Vec::new();
    let mut i: usize = 0;
    while i < v.len()
        invariant
            0 <= i <= v@.len(),
            slices_view(r@) =~= slices_view(v@.take(i as int)),
        decreases v@.len() - i,
    {
        let ghost prev = r@;
        let x = v[i].duplicate();
        r.push(x);
        proof {
            assert(v@.take(i + 1) =~= v@.take(i as int).push(v@[i as int]));
            assert(slices_view(r@) =~= slices_view(prev).push(v@[i as int]@));
            assert(slices_view(v@.take(i + 1)) =~= slices_view(v@.take(i as int)).push(v@[i as int]@));
        }
        i = i + 1;
    }
    proof {
        assert(v@.take(v@.len() as int) =~= v@);
    }
    r
}

impl Ambiguity {
    /// A copy of the ambiguity.
    pub fn duplicate(&self) -> (r: Ambiguity)
        ensures
            r@ == self@,
    {
        Ambiguity {
            id: self.id.clone(),
            message: self.message.clone(),
            affected_units: copy_strings(&self.affected_units),
            candidate_slices: copy_strings(&self.candidate_slices),
            resolution: self.resolution.clone(),
        }
    }
}

/// A copy of a list of ambiguities.
pub fn copy_ambiguities(v: &Vec<Ambiguity>) -> (r: Vec<Ambiguity>)
    ensures
        ambiguities_view(r@) == ambiguities_view(v@),
{
    let mut r: Vec<Ambiguity> = Vec::new();
    let mut i: usize = 0;
    while i < v.len()
        invariant
            0 <= i <= v@.len(),
            ambiguities_view(r@) =~= ambiguities_view(v@.take(i as int)),
        decreases v@.len() - i,
    {
        let ghost prev = r@;
        let x = v[i].duplicate();
        r.push(x);
        proof {
            assert(v@.take(i + 1) =~= v@.take(i as int).push(v@[i as int]));
            assert(ambiguities_view(r@) =~= ambiguities_view(prev).push(v@[i as int]@));
            assert(ambiguities_view(v@.take(i + 1)) =~= ambiguities_view(v@.take(i as int)).push(
                v@[i as int]@,
            ));
        }
        i = i + 1;
    }
    proof {
        assert(v@.take(v@.len() as int) =~= v@);
    }
    r
}

/// A copy of a list of diagnostics.
pub fn copy_diagnostics(v: &Vec<Diagnostic>) -> (r: Vec<Diagnostic>)
    ensures
        diags_view(r@) == diags_view(v@),
{
    let mut r: Vec<Diagnostic> = Vec::new();
    let mut i: usize = 0;
    while i < v.len()
        invariant
            0 <= i <= v@.len(),
            diags_view(r@) =~= diags_view(v@.take(i as int)),
        decreases v@.len() - i,
    {
        let ghost prev = r@;
        let d = &v[i];
        let x = Diagnostic { level: d.level, code: d.code.clone(), message: d.message.clone() };
        r.push(x);
        proof {
            assert(v@.take(i + 1) =~= v@.take(i as int).push(v@[i as int]));
            assert(diags_view(r@) =~= diags_view(prev).push(v@[i as int]@));
            assert(diags_view(v@.take(i + 1)) =~= diags_view(v@.take(i as int)).push(v@[i as int]@));
        }
        i = i + 1;
    }
    proof {
        assert(v@.take(v@.len() as int) =~= v@);
    }
    r
}

impl Diagnostic {
    /// A diagnostic with the given level, code and message.
    pub fn new(level: DiagnosticLevel, code: &str, message: String) -> (r: Diagnostic)
        ensures
            r@ == (DiagView { level, code: code@, message: message@ }),
    {
        Diagnostic { level, code: code.to_owned(), message }
    }
}

/// The proof surface every new slice starts with.
pub open spec fn default_surface() -> SurfaceView {
    SurfaceView { scenario_ids: seq![], expected_commands: seq!["cargo test --workspace"@] }
}

/// The view of a new slice: lists sorted and free of duplicates.
pub open spec fn new_slice_view(
    id: Str,
    title: Str,
    kind: SliceKind,
    families: Seq<Str>,
    members: Seq<Str>,
    depends_on: Seq<Str>,
    reasons: Seq<ReasonView>,
) -> SliceView {
    SliceView {
        id,
        title,
        kind,
        families: sort_dedup(families),
        members: sort_dedup(members),
        depends_on: sort_dedup(depends_on),
        reasons,
        proof_surface: default_surface(),
    }
}

/// A new slice, with its families, members and dependencies sorted and
/// deduplicated and the workspace test command as its proof surface.
pub fn new_slice(
    id: &str,
    title: &str,
    kind: SliceKind,
    families: Vec<String>,
    members: Vec<String>,
    depends_on: Vec<String>,
    reasons: Vec<InclusionReason>,
) -> (r: Slice)
    ensures
        r@ == new_slice_view(
            id@,
            title@,
            kind,
            families.deep_view(),
            members.deep_view(),
            depends_on.deep_view(),
            reasons_view(reasons@),
        ),
{
    let mut families = families;
    let mut members = members;
    let mut depends_on = depends_on;
    dedup_and_sort(&mut families);
    dedup_and_sort(&mut members);
    dedup_and_sort(&mut depends_on);
    let mut commands: Vec<String> = Vec::new();
    commands.push(lit("cargo test --workspace"));
    let r = Slice {
        id: lit(id),
        title: lit(title),
        kind,
        families,
        members,
        depends_on,
        reasons,
        proof_surface: ProofSurface { scenario_ids: Vec::new(), expected_commands: commands },
    };
    proof {
        assert(r.proof_surface@.expected_commands =~= seq!["cargo test --workspace"@]);
        assert(r.proof_surface@.scenario_ids =~= seq![]);
    }
    r
}

/// The view of a reason.
pub open spec fn reason_view(code: Str, message: Str) -> ReasonView {
    ReasonView { code, message }
}

/// A reason with the given code and message.
pub fn reason(code: &str, message: &str) -> (r: InclusionReason)
    ensures
        r@ == reason_view(code@, message@),
{
    InclusionReason { code: lit(code), message: lit(message) }
}

/// A string from a literal, with a known view.
pub fn lit(s: &str) -> (r: String)
    ensures
        r@ == s@,
{
    s.to_owned()
}

} // verus!
