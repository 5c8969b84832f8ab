//! Edit units from Git's name-status output, and the checks around
//! repository roots, patch pathspecs and exact recomposition.
use vstd::prelude::*;
use crate::attach::lookup_unit;
use crate::classify::{
    classify_path, classify_spec, ends_with_str, family_spec, infer_family, pieces_view,
    split_chars, split_on,
};
use crate::docrefs::{lines, lines_of, trim, trim_chars};
use crate::model::{
    lit, opt_view, units_view, ChangeStatus, EditUnit, Plan, PlanSource, Slice, SourceView,
    StackcutConfig, UnitView,
};
use crate::order::{dedup_and_sort, sort_dedup};
use crate::phases::{sort_by_path, sort_units_by_path};
use crate::text::{
    chars_eq, chars_of, decimal, decimal_string, has_prefix, has_suffix, is_ascii_digit, lower_str,
    push_char, push_str, starts_with, string_of, to_lower_chars, Str,
};

verus! {

// ---------------------------------------------------------------------------
// Numbers and file kinds
// ---------------------------------------------------------------------------

/// The value of a string of decimal digits.
pub open spec fn digits_value(d: Str) -> nat
    decreases d.len(),
{
    if d.len() == 0 {
        0
    } else {
        digits_value(d.drop_last()) * 10 + (d.last() as nat - '0' as nat) as nat
    }
}

/// A string without one leading `+`.
pub open spec fn unsigned_digits(s: Str) -> Str {
    if s.len() > 0 && s[0] == '+' {
        s.drop_first()
    } else {
        s
    }
}

/// Every character is a decimal digit.
pub open spec fn all_digits(d: Str) -> bool {
    forall|i: int| 0 <= i < d.len() ==> is_ascii_digit(#[trigger] d[i])
}

/// The value of a string as an unsigned 32-bit number: an optional `+`,
/// then one or more decimal digits, at most `u32::MAX`.
pub open spec fn parse_u32_spec(s: Str) -> Option<nat> {
    let d = unsigned_digits(s);
    if d.len() > 0 && all_digits(d) && digits_value(d) <= u32::MAX {
        Some(digits_value(d))
    } else {
        None
    }
}

/// The status of a rename with the given similarity text: a rename with
/// edits (similarity below 100) counts as a modification.
pub open spec fn rename_status(similarity: Str) -> ChangeStatus {
    match parse_u32_spec(similarity) {
        Some(v) => if v < 100 {
            ChangeStatus::Modified
        } else {
            ChangeStatus::Renamed
        },
        None => ChangeStatus::Renamed,
    }
}

const CAP: u64 = 0x1_0000_0000;

/// Parses an unsigned 32-bit number.
pub fn parse_u32(s: &[char]) -> (r: Option<u32>)
    ensures
        match r {
            Some(v) => parse_u32_spec(s@) == Some(v as nat),
            None => parse_u32_spec(s@) is None,
        },
{
    let start: usize = if s.len() > 0 && s[0] == '+' {
        1
    } else {
        0
    };
    let ghost d = unsigned_digits(s@);
    proof {
        assert(d =~= s@.skip(start as int));
    }
    if start == s.len() {
        return None;
    }
    let mut v: u64 = 0;
    let mut i: usize = start;
    while i < s.len()
        invariant
            start <= i <= s@.len(),
            d =~= s@.skip(start as int),
            d == unsigned_digits(s@),
            v <= CAP,
            forall|k: int| start <= k < i ==> is_ascii_digit(#[trigger] s@[k]),
            v == if digits_value(s@.subrange(start as int, i as int)) < CAP as nat {
                digits_value(s@.subrange(start as int, i as int))
            } else {
                CAP as nat
            },
        decreases s@.len() - i,
    {
        let c = s[i];
        if !('0' <= c && c <= '9') {
            proof {
                assert(d[i - start] == c);
                assert(!is_ascii_digit(d[i - start]));
            }
            return None;
        }
        let dig: u64 = (c as u32 - '0' as u32) as u64;
        proof {
            assert(s@.subrange(start as int, i + 1).drop_last() =~= s@.subrange(start as int, i as int));
            assert(s@.subrange(start as int, i + 1).last() == c);
        }
        let next: u64 = v * 10 + dig;
        v = if next > CAP {
            CAP
        } else {
            next
        };
        i = i + 1;
    }
    proof {
        assert(s@.subrange(start as int, s@.len() as int) =~= d);
        assert forall|k: int| 0 <= k < d.len() implies is_ascii_digit(#[trigger] d[k]) by {
            assert(d[k] == s@[k + start]);
        }
    }
    if v >= CAP {
        None
    } else {
        Some(v as u32)
    }
}

/// File extensions treated as binary content.
pub open spec fn binary_exts() -> Seq<Str> {
    seq![
        ".png"@, ".jpg"@, ".jpeg"@, ".gif"@, ".bmp"@, ".ico"@, ".webp"@, ".svg"@, ".woff"@,
        ".woff2"@, ".ttf"@, ".otf"@, ".eot"@, ".zip"@, ".tar"@, ".gz"@, ".bz2"@, ".xz"@, ".7z"@,
        ".rar"@, ".exe"@, ".dll"@, ".so"@, ".dylib"@, ".a"@, ".o"@, ".obj"@, ".wasm"@, ".class"@,
        ".pyc"@, ".pyo"@, ".pdf"@, ".doc"@, ".docx"@, ".xls"@, ".xlsx"@, ".ppt"@, ".pptx"@,
        ".mp3"@, ".mp4"@, ".avi"@, ".mov"@, ".wav"@, ".flac"@, ".ogg"@, ".bin"@, ".dat"@, ".db"@,
        ".sqlite"@,
    ]
}

/// Whether a path has a binary extension, in any letter case.
pub open spec fn is_binary(path: Str) -> bool {
    exists|i: int| 0 <= i < binary_exts().len() && has_suffix(lower_str(path), #[trigger] binary_exts()[i])
}

/// Whether a path has a binary file extension, in any letter case.
pub fn is_binary_path(path: &str) -> (r: bool)
    ensures
        r == is_binary(path@),
{
    let exts: [&str; 49] = [
        ".png", ".jpg", ".jpeg", ".gif", ".bmp", ".ico", ".webp", ".svg", ".woff", ".woff2",
        ".ttf", ".otf", ".eot", ".zip", ".tar", ".gz", ".bz2", ".xz", ".7z", ".rar", ".exe",
        ".dll", ".so", ".dylib", ".a", ".o", ".obj", ".wasm", ".class", ".pyc", ".pyo", ".pdf",
        ".doc", ".docx", ".xls", ".xlsx", ".ppt", ".pptx", ".mp3", ".mp4", ".avi", ".mov", ".wav",
        ".flac", ".ogg", ".bin", ".dat", ".db", ".sqlite",
    ];
    proof {
        assert(exts@.map_values(|e: &str| e@) =~= binary_exts());
    }
    let p = chars_of(path);
    let lower = to_lower_chars(p.as_slice());
    let mut i: usize = 0;
    while i < 49
        invariant
            0 <= i <= 49,
            exts@.len() == 49,
            exts@.map_values(|e: &str| e@) == binary_exts(),
            lower@ == lower_str(path@),
            forall|k: int| 0 <= k < i ==> !has_suffix(lower@, #[trigger] binary_exts()[k]),
        decreases 49 - i,
    {
        proof {
            assert(exts@.map_values(|e: &str| e@)[i as int] == exts@[i as int]@);
        }
        if ends_with_str(lower.as_slice(), exts[i]) {
            return true;
        }
        i = i + 1;
    }
    false
}

// ---------------------------------------------------------------------------
// Name-status lines
// ---------------------------------------------------------------------------

pub open spec fn piece_or_empty(p: Seq<Str>, i: int) -> Str {
    if i < p.len() {
        p[i]
    } else {
        seq![]
    }
}

pub open spec fn piece_opt(p: Seq<Str>, i: int) -> Option<Str> {
    if i < p.len() {
        Some(p[i])
    } else {
        None
    }
}

/// The status letter of a name-status code.
pub open spec fn status_letter(code: Str) -> char {
    if code.len() > 0 {
        code[0]
    } else {
        'M'
    }
}

/// The status, old path and path a name-status line describes.
pub open spec fn line_change(line: Str) -> (ChangeStatus, Option<Str>, Str) {
    let p = split_on(line, '\t');
    let code = p[0];
    let c = status_letter(code);
    if c == 'A' {
        (ChangeStatus::Added, None, piece_or_empty(p, 1))
    } else if c == 'D' {
        (ChangeStatus::Deleted, None, piece_or_empty(p, 1))
    } else if c == 'M' {
        (ChangeStatus::Modified, None, piece_or_empty(p, 1))
    } else if c == 'R' {
        (rename_status(code.drop_first()), piece_opt(p, 1), piece_or_empty(p, 2))
    } else if c == 'C' {
        (ChangeStatus::Copied, piece_opt(p, 1), piece_or_empty(p, 2))
    } else {
        (ChangeStatus::Unknown, None, piece_or_empty(p, 1))
    }
}

/// The notes that mark unsupported changes: binary files, submodules and
/// type changes.
pub open spec fn notes_for(path: Str, c: char) -> Seq<Str> {
    (if is_binary(path) {
        seq!["unsupported-binary"@]
    } else {
        seq![]
    }) + (if path == ".gitmodules"@ || has_prefix(path, ".gitmodules/"@) {
        seq!["unsupported-submodule"@]
    } else {
        seq![]
    }) + if c == 'T' {
        seq!["unsupported-symlink"@]
    } else {
        seq![]
    }
}

/// The edit unit of a name-status line; none for a blank line or a line
/// without a path.
pub open spec fn unit_of_line(line: Str, config: crate::model::ConfigView) -> Option<UnitView> {
    let (status, old_path, path) = line_change(line);
    if trim(line).len() == 0 || path.len() == 0 {
        None
    } else {
        Some(
            UnitView {
                id: "path:"@ + path,
                path,
                old_path,
                status,
                kind: classify_spec(path, status, config),
                family: family_spec(path, config),
                notes: notes_for(path, status_letter(split_on(line, '\t')[0])),
            },
        )
    }
}

pub open spec fn units_of(ls: Seq<Str>, config: crate::model::ConfigView) -> Seq<UnitView>
    decreases ls.len(),
{
    if ls.len() == 0 {
        seq![]
    } else {
        units_of(ls.drop_last(), config) + match unit_of_line(ls.last(), config) {
            Some(u) => seq![u],
            None => seq![],
        }
    }
}

fn piece_copy(parts: &Vec<Vec<char>>, i: usize) -> (r: Vec<char>)
    ensures
        r@ == piece_or_empty(pieces_view(parts@), i as int),
{
    if i < parts.len() {
        let p = &parts[i];
        let mut r: Vec<char> = Vec::new();
        let mut k: usize = 0;
        while k < p.len()
            invariant
                0 <= k <= p@.len(),
                r@ == p@.take(k as int),
            decreases p@.len() - k,
        {
            r.push(p[k]);
            proof {
                assert(p@.take(k + 1) =~= p@.take(k as int).push(p@[k as int]));
            }
            k = k + 1;
        }
        proof {
            assert(p@.take(p@.len() as int) =~= p@);
        }
        r
    } else {
        Vec::new()
    }
}

/// The edit unit a name-status line describes, classified by the
/// configuration; `None` for a blank line or a line without a path.
pub fn parse_name_status_line(line: &[char], config: &StackcutConfig) -> (r: Option<EditUnit>)
    ensures
        match r {
            Some(u) => unit_of_line(line@, config@) == Some(u@),
            None => unit_of_line(line@, config@) is None,
        },
{
    let t = trim_chars(line);
    if t.len() == 0 {
        return None;
    }
    let parts = split_chars(line, '\t');
    let ghost pv = pieces_view(parts@);
    let code = &parts[0];
    proof {
        assert(pv[0] == code@);
    }
    let c: char = if code.len() > 0 {
        code[0]
    } else {
        'M'
    };
    let (status, old_path, path) = if c == 'A' {
        (ChangeStatus::Added, None, piece_copy(&parts, 1))
    } else if c == 'D' {
        (ChangeStatus::Deleted, None, piece_copy(&parts, 1))
    } else if c == 'M' {
        (ChangeStatus::Modified, None, piece_copy(&parts, 1))
    } else if c == 'R' {
        let mut rest: Vec<char> = Vec::new();
        let mut k: usize = 1;
        while k < code.len()
            invariant
                1 <= k <= code@.len(),
                rest@ == code@.subrange(1, k as int),
            decreases code@.len() - k,
        {
            rest.push(code[k]);
            proof {
                assert(code@.subrange(1, k + 1) =~= code@.subrange(1, k as int).push(code@[k as int]));
            }
            k = k + 1;
        }
        proof {
            assert(code@.subrange(1, code@.len() as int) =~= code@.drop_first());
        }
        let status = match parse_u32(rest.as_slice()) {
            Some(v) => if v < 100 {
                ChangeStatus::Modified
            } else {
                ChangeStatus::Renamed
            },
            None => ChangeStatus::Renamed,
        };
        let old = if parts.len() > 1 {
            Some(string_of(piece_copy(&parts, 1).as_slice()))
        } else {
            None
        };
        (status, old, piece_copy(&parts, 2))
    } else if c == 'C' {
        let old = if parts.len() > 1 {
            Some(string_of(piece_copy(&parts, 1).as_slice()))
        } else {
            None
        };
        (ChangeStatus::Copied, old, piece_copy(&parts, 2))
    } else {
        (ChangeStatus::Unknown, None, piece_copy(&parts, 1))
    };
    proof {
        let lc = line_change(line@);
        assert(lc.0 == status);
        assert(opt_view(old_path) == lc.1);
        assert(path@ == lc.2);
    }
    if path.len() == 0 {
        return None;
    }
    let path_s = string_of(path.as_slice());
    let kind = classify_path(path_s.as_str(), &status, config);
    let family = infer_family(path_s.as_str(), config);
    let mut notes: Vec<String> = Vec::new();
    let ghost n0 = notes.deep_view();
    if is_binary_path(path_s.as_str()) {
        notes.push(lit("unsupported-binary"));
    }
    let ghost n1 = notes.deep_view();
    let gm = chars_of(".gitmodules");
    let gmd = chars_of(".gitmodules/");
    if chars_eq(path.as_slice(), gm.as_slice()) || starts_with(path.as_slice(), gmd.as_slice()) {
        notes.push(lit("unsupported-submodule"));
    }
    let ghost n2 = notes.deep_view();
    if c == 'T' {
        notes.push(lit("unsupported-symlink"));
    }
    proof {
        assert(notes.deep_view() =~= notes_for(path@, c));
    }
    let mut id = lit("path:");
    push_str(&mut id, path_s.as_str());
    let u = EditUnit { id, path: path_s, old_path, status, kind, family, notes };
    proof {
        assert(u@ =~= unit_of_line(line@, config@)->0);
    }
    Some(u)
}

/// The units in `git diff --name-status --find-renames` output, classified
/// by the configuration and ordered by path.
pub open spec fn edit_units_of(diff: Str, config: crate::model::ConfigView) -> Seq<UnitView> {
    sort_by_path(units_of(lines_of(diff), config))
}

/// The plan source and edit units of a change, from the name-status output
/// of `git diff --name-status --find-renames base head`, the repository root
/// and the head tree id.
pub fn collect_edit_units(
    diff_output: &str,
    repo_root: &str,
    base: &str,
    head: &str,
    head_tree: &str,
    config: &StackcutConfig,
) -> (r: (PlanSource, Vec<EditUnit>))
    ensures
        r.0@ == (SourceView {
            repo_root: Some(repo_root@),
            base: base@,
            head: head@,
            head_tree: Some(head_tree@),
        }),
        units_view(r.1@) == edit_units_of(diff_output@, config@),
{
    let text = chars_of(diff_output);
    let ls = lines(text.as_slice());
    let ghost lv = pieces_view(ls@);
    let mut units: Vec<EditUnit> = Vec::new();
    let mut i: usize = 0;
    while i < ls.len()
        invariant
            lv == pieces_view(ls@),
            0 <= i <= ls@.len(),
            units_view(units@) == units_of(lv.take(i as int), config@),
        decreases ls@.len() - i,
    {
        proof {
            assert(lv.take(i + 1).drop_last() =~= lv.take(i as int));
            assert(lv.take(i + 1).last() == ls@[i as int]@);
        }
        let ghost before = units_view(units@);
        match parse_name_status_line(ls[i].as_slice(), config) {
            Some(u) => {
                units.push(u);
                proof {
                    assert(units_view(units@) =~= before + seq![u@]);
                }
            },
            None => {
                proof {
                    assert(units_view(units@) =~= before + seq![]);
                }
            },
        }
        i = i + 1;
    }
    proof {
        assert(lv.take(ls@.len() as int) =~= lv);
    }
    let sorted = sort_units_by_path(&units);
    let source = PlanSource {
        repo_root: Some(lit(repo_root)),
        base: lit(base),
        head: lit(head),
        head_tree: Some(lit(head_tree)),
    };
    (source, sorted)
}

/// The repository root named by the output of `git rev-parse --show-toplevel`.
pub fn discover_repo_root(toplevel_output: &str) -> (r: String)
    ensures
        r@ == trim(toplevel_output@),
{
    let c = chars_of(toplevel_output);
    let t = trim_chars(c.as_slice());
    string_of(t.as_slice())
}

// ---------------------------------------------------------------------------
// Unit lookup and pathspecs
// ---------------------------------------------------------------------------

impl Plan {
    /// The units keyed by id, in id order; where ids repeat, the last unit
    /// with the id stands.
    pub fn unit_map(&self) -> (r: Vec<(String, EditUnit)>)
        ensures
            r@.map_values(|p: (String, EditUnit)| p.0@) == sort_dedup(
                units_view(self.units@).map_values(|u: UnitView| u.id),
            ),
            forall|i: int|
                0 <= i < r@.len() ==> lookup_unit(units_view(self.units@), #[trigger] r@[i].0@)
                    == Some(r@[i].1@),
    {
        let ghost uv = units_view(self.units@);
        let mut ids: Vec<String> = Vec::new();
        let mut i: usize = 0;
        while i < self.units.len()
            invariant
                uv == units_view(self.units@),
                0 <= i <= self.units@.len(),
                ids.deep_view() == uv.take(i as int).map_values(|u: UnitView| u.id),
            decreases self.units@.len() - i,
        {
            let ghost before = ids.deep_view();
            ids.push(self.units[i].id.clone());
            proof {
                assert(ids.deep_view() =~= before.push(self.units@[i as int].id@));
                assert(uv[i as int] == self.units@[i as int]@);
                assert(ids.deep_view() =~= uv.take(i + 1).map_values(|u: UnitView| u.id));
            }
            i = i + 1;
        }
        proof {
            assert(uv.take(self.units@.len() as int) =~= uv);
        }
        dedup_and_sort(&mut ids);
        let ghost keys = ids.deep_view();
        proof {
            crate::counting::lemma_sort_dedup_no_dups(uv.map_values(|u: UnitView| u.id));
        }
        let mut out: Vec<(String, EditUnit)> = Vec::new();
        let mut k: usize = 0;
        while k < ids.len()
            invariant
                uv == units_view(self.units@),
                keys == ids.deep_view(),
                keys == sort_dedup(uv.map_values(|u: UnitView| u.id)),
                forall|y: Str| #[trigger] keys.contains(y) <==> uv.map_values(|u: UnitView| u.id).contains(y),
                0 <= k <= ids@.len(),
                out@.map_values(|p: (String, EditUnit)| p.0@) == keys.take(k as int),
                forall|q: int|
                    0 <= q < out@.len() ==> lookup_unit(uv, #[trigger] out@[q].0@) == Some(out@[q].1@),
            decreases ids@.len() - k,
        {
            let id = &ids[k];
            proof {
                assert(keys[k as int] == id@);
                assert(keys.contains(id@));
                let ids_all = uv.map_values(|u: UnitView| u.id);
                assert(ids_all.contains(id@));
                let w = choose|w: int| 0 <= w < ids_all.len() && #[trigger] ids_all[w] == id@;
                assert(uv[w].id == id@);
                assert(crate::counting::is_unit_id(uv, id@));
                crate::laws::lemma_unit_lookup(uv, id@);
            }
            let j = crate::attach::lookup_unit_index(&self.units, id);
            match j {
                Some(j) => {
                    let ghost before = out@;
                    let pair = (id.clone(), self.units[j].duplicate());
                    let ghost pv = pair;
                    out.push(pair);
                    proof {
                        assert(out@ =~= before.push(pv));
                        assert(pv.0@ == id@);
                        assert(keys.take(k + 1) =~= keys.take(k as int).push(keys[k as int]));
                        assert(out@.map_values(|p: (String, EditUnit)| p.0@) =~= before.map_values(
                            |p: (String, EditUnit)| p.0@,
                        ).push(pv.0@));
                        assert(out@.map_values(|p: (String, EditUnit)| p.0@) =~= keys.take(k + 1));
                    }
                },
                None => {
                    proof {
                        assert(false);
                    }
                },
            }
            k = k + 1;
        }
        proof {
            assert(keys.take(ids@.len() as int) =~= keys);
        }
        out
    }
}

/// The paths of the units behind a slice's members, with old paths of
/// renames and copies.
pub open spec fn member_paths(u: Seq<UnitView>, members: Seq<Str>) -> Seq<Str>
    decreases members.len(),
{
    if members.len() == 0 {
        seq![]
    } else {
        member_paths(u, members.drop_last()) + match lookup_unit(u, members.last()) {
            Some(x) => match x.old_path {
                Some(o) => seq![o, x.path],
                None => seq![x.path],
            },
            None => seq![],
        }
    }
}

/// The pathspecs that select a slice's changes: the paths (and old paths)
/// of its members' units, sorted and distinct.
pub fn pathspecs_for_slice(plan: &Plan, slice: &Slice) -> (r: Vec<String>)
    ensures
        r.deep_view() == sort_dedup(member_paths(units_view(plan.units@), slice.members.deep_view())),
{
    let ghost uv = units_view(plan.units@);
    let ghost mv = slice.members.deep_view();
    let mut out: Vec<String> = Vec::new();
    let mut i: usize = 0;
    while i < slice.members.len()
        invariant
            uv == units_view(plan.units@),
            mv == slice.members.deep_view(),
            0 <= i <= slice.members@.len(),
            out.deep_view() == member_paths(uv, mv.take(i as int)),
        decreases slice.members@.len() - i,
    {
        proof {
            assert(mv.take(i + 1).drop_last() =~= mv.take(i as int));
            assert(mv.take(i + 1).last() == slice.members@[i as int]@);
        }
        let ghost before = out.deep_view();
        match crate::attach::lookup_unit_index(&plan.units, &slice.members[i]) {
            Some(j) => {
                let unit = &plan.units[j];
                match &unit.old_path {
                    Some(o) => {
                        out.push(o.clone());
                        out.push(unit.path.clone());
                        proof {
                            assert(out.deep_view() =~= before + seq![o@, unit.path@]);
                        }
                    },
                    None => {
                        out.push(unit.path.clone());
                        proof {
                            assert(out.deep_view() =~= before + seq![unit.path@]);
                        }
                    },
                }
            },
            None => {
                proof {
                    assert(out.deep_view() =~= before + seq![]);
                }
            },
        }
        i = i + 1;
    }
    proof {
        assert(mv.take(slice.members@.len() as int) =~= mv);
    }
    dedup_and_sort(&mut out);
    out
}

/// `s` with zeros in front, up to `width` characters.
pub open spec fn zero_pad(s: Str, width: nat) -> Str {
    if s.len() >= width {
        s
    } else {
        Seq::new((width - s.len()) as nat, |i: int| '0') + s
    }
}

/// The file name of the patch of the slice at `index` in the series:
/// its one-based position in four or more digits, the slice id, `.patch`.
pub open spec fn patch_name(index: nat, slice_id: Str) -> Str {
    zero_pad(decimal(index + 1), 4) + "-"@ + slice_id + ".patch"@
}

/// The file name of the patch of the slice at `index` in the series.
pub fn patch_file_name(index: usize, slice_id: &str) -> (r: String)
    requires
        index < usize::MAX,
    ensures
        r@ == patch_name(index as nat, slice_id@),
{
    let digits = decimal_string(index + 1);
    let mut out = String::new();
    let pad: usize = if digits.as_str().unicode_len() < 4 {
        4 - digits.as_str().unicode_len()
    } else {
        0
    };
    let mut k: usize = 0;
    while k < pad
        invariant
            0 <= k <= pad,
            out@ == Seq::new(k as nat, |i: int| '0'),
        decreases pad - k,
    {
        push_char(&mut out, '0');
        proof {
            assert(out@ =~= Seq::new((k + 1) as nat, |i: int| '0'));
        }
        k = k + 1;
    }
    proof {
        assert(zero_pad(digits@, 4) =~= out@ + digits@);
    }
    push_str(&mut out, digits.as_str());
    push_str(&mut out, "-");
    push_str(&mut out, slice_id);
    push_str(&mut out, ".patch");
    out
}

// ---------------------------------------------------------------------------
// Exact recomposition
// ---------------------------------------------------------------------------

/// How one slice's patch applied.
#[derive(Debug, Clone, PartialEq, Eq)]
pub struct SliceApplyResult {
    pub slice_id: String,
    pub patch_sha256: String,
    pub apply_ok: bool,
    pub error: Option<String>,
}

/// How the patch series applied to the base revision, and the tree it gave.
#[derive(Debug, Clone, PartialEq, Eq)]
pub struct RecompositionResult {
    pub slice_results: Vec<SliceApplyResult>,
    pub recomposed_tree: String,
}

/// The view of a patch application: slice id, success and error.
pub open spec fn apply_view(r: SliceApplyResult) -> (Str, bool, Option<Str>) {
    (r.slice_id@, r.apply_ok, opt_view(r.error))
}

/// The first patch that failed to apply.
pub open spec fn first_failure(rs: Seq<(Str, bool, Option<Str>)>) -> Option<(Str, bool, Option<Str>)>
    decreases rs.len(),
{
    if rs.len() == 0 {
        None
    } else if !rs[0].1 {
        Some(rs[0])
    } else {
        first_failure(rs.drop_first())
    }
}

pub open spec fn missing_tree_message() -> Str {
    "plan is missing source.head_tree; exact validation is unavailable"@
}

/// Whether applying the patch series reproduced the head tree: the plan
/// must name its head tree, every patch must apply, and the trees must match.
pub open spec fn recomposition_verdict(
    head_tree: Option<Str>,
    rs: Seq<(Str, bool, Option<Str>)>,
    tree: Str,
) -> Result<(), Str> {
    match head_tree {
        None => Err(missing_tree_message()),
        Some(expected) => match first_failure(rs) {
            Some(f) => Err(
                "exact recomposition failed: slice '"@ + f.0 + "' failed to apply: "@
                    + match f.2 {
                    Some(e) => e,
                    None => "unknown error"@,
                },
            ),
            None => if tree == expected {
                Ok(())
            } else {
                Err("exact recomposition failed: expected tree "@ + expected + " but got "@ + tree)
            },
        },
    }
}

/// Checks that the patch series of a plan recomposes its head tree, given
/// how each patch applied and the tree that resulted.
pub fn validate_exact_recomposition(plan: &Plan, result: &RecompositionResult) -> (r: Result<(), String>)
    ensures
        match r {
            Ok(()) => recomposition_verdict(
                opt_view(plan.source.head_tree),
                result.slice_results@.map_values(|x: SliceApplyResult| apply_view(x)),
                result.recomposed_tree@,
            ) == Ok::<(), Str>(()),
            Err(e) => recomposition_verdict(
                opt_view(plan.source.head_tree),
                result.slice_results@.map_values(|x: SliceApplyResult| apply_view(x)),
                result.recomposed_tree@,
            ) == Err::<(), Str>(e@),
        },
{
    let expected = match &plan.source.head_tree {
        Some(t) => t,
        None => {
            return Err(lit("plan is missing source.head_tree; exact validation is unavailable"));
        },
    };
    let ghost rs = result.slice_results@.map_values(|x: SliceApplyResult| apply_view(x));
    let mut i: usize = 0;
    proof {
        assert(rs.skip(0) =~= rs);
    }
    while i < result.slice_results.len()
        invariant
            rs == result.slice_results@.map_values(|x: SliceApplyResult| apply_view(x)),
            opt_view(plan.source.head_tree) == Some(expected@),
            0 <= i <= result.slice_results@.len(),
            first_failure(rs) == first_failure(rs.skip(i as int)),
        decreases result.slice_results@.len() - i,
    {
        let sr = &result.slice_results[i];
        proof {
            assert(rs.skip(i as int)[0] == apply_view(*sr));
            assert(rs.skip(i as int).drop_first() =~= rs.skip(i + 1));
        }
        if !sr.apply_ok {
            let mut m = lit("exact recomposition failed: slice '");
            push_str(&mut m, sr.slice_id.as_str());
            push_str(&mut m, "' failed to apply: ");
            match &sr.error {
                Some(e) => push_str(&mut m, e.as_str()),
                None => push_str(&mut m, "unknown error"),
            }
            return Err(m);
        }
        i = i + 1;
    }
    proof {
        assert(rs.skip(i as int).len() == 0);
    }
    if !(result.recomposed_tree == *expected) {
        let mut m = lit("exact recomposition failed: expected tree ");
        push_str(&mut m, expected.as_str());
        push_str(&mut m, " but got ");
        push_str(&mut m, result.recomposed_tree.as_str());
        return Err(m);
    }
    Ok(())
}

} // verus!
