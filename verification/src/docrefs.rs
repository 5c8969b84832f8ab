//! References to repository paths in Markdown documentation.
//!
//! Backtick-quoted text that looks like a repository path and local link
//! targets are collected from every line outside fenced code blocks; the
//! result is sorted and free of duplicates.
use vstd::prelude::*;
use crate::classify::{pieces_view, split_chars, split_on};
use crate::order::{dedup_and_sort, sort_dedup};
use crate::text::{
    char_is_ascii_digit, char_is_ascii_upper, chars_eq, chars_of, contains_chars, has_char,
    has_infix, has_prefix, is_ascii_digit, is_ascii_upper, lower_str, matches_at, occurs_at,
    starts_with, string_of, to_lower_chars, Str,
};

verus! {

// ---------------------------------------------------------------------------
// Lines and trimming
// ---------------------------------------------------------------------------

/// Whether a character has the Unicode `White_Space` property.
pub open spec fn is_ws(c: char) -> bool {
    ('\t' <= c && c <= '\r') || c == ' ' || c == '\u{85}' || c == '\u{a0}' || c == '\u{1680}' || (
    '\u{2000}' <= c && c <= '\u{200a}') || c == '\u{2028}' || c == '\u{2029}' || c == '\u{202f}'
        || c == '\u{205f}' || c == '\u{3000}'
}

pub open spec fn trim_start(s: Str) -> Str
    decreases s.len(),
{
    if s.len() > 0 && is_ws(s[0]) {
        trim_start(s.drop_first())
    } else {
        s
    }
}

pub open spec fn trim_end(s: Str) -> Str
    decreases s.len(),
{
    if s.len() > 0 && is_ws(s.last()) {
        trim_end(s.drop_last())
    } else {
        s
    }
}

/// A string without whitespace at either end.
pub open spec fn trim(s: Str) -> Str {
    trim_end(trim_start(s))
}

/// A line without the carriage return before its newline.
pub open spec fn strip_cr(l: Str) -> Str {
    if l.len() > 0 && l.last() == '\r' {
        l.drop_last()
    } else {
        l
    }
}

/// The lines of a text: the text is cut after each newline, each cut line
/// loses one carriage return before its newline, and an empty piece after
/// the last newline is no line.
pub open spec fn lines_of(s: Str) -> Seq<Str> {
    let p = split_on(s, '\n');
    p.take(p.len() - 1).map_values(|l: Str| strip_cr(l)) + if p.last().len() == 0 {
        seq![]
    } else {
        seq![p.last()]
    }
}

fn char_is_whitespace(c: char) -> (r: bool)
    ensures
        r == is_ws(c),
{
    ('\t' <= c && c <= '\r') || c == ' ' || c == '\u{85}' || c == '\u{a0}' || c == '\u{1680}' || (
    '\u{2000}' <= c && c <= '\u{200a}') || c == '\u{2028}' || c == '\u{2029}' || c == '\u{202f}'
        || c == '\u{205f}' || c == '\u{3000}'
}

/// The characters of `s` from `a` to `b`.
fn sub_chars(s: &[char], a: usize, b: usize) -> (r: Vec<char>)
    requires
        a <= b <= s@.len(),
    ensures
        r@ == s@.subrange(a as int, b as int),
{
    let mut r: Vec<char> = Vec::new();
    let mut i: usize = a;
    while i < b
        invariant
            a <= i <= b,
            b <= s@.len(),
            r@ == s@.subrange(a as int, i as int),
        decreases b - i,
    {
        r.push(s[i]);
        proof {
            assert(s@.subrange(a as int, i + 1) =~= s@.subrange(a as int, i as int).push(s@[i as int]));
        }
        i = i + 1;
    }
    r
}

/// A string without whitespace at either end.
pub fn trim_chars(s: &[char]) -> (r: Vec<char>)
    ensures
        r@ == trim(s@),
{
    let mut a: usize = 0;
    proof {
        assert(s@.skip(0) =~= s@);
    }
    while a < s.len() && char_is_whitespace(s[a])
        invariant
            0 <= a <= s@.len(),
            trim_start(s@) == trim_start(s@.skip(a as int)),
        decreases s@.len() - a,
    {
        proof {
            assert(s@.skip(a as int).drop_first() =~= s@.skip(a + 1));
        }
        a = a + 1;
    }
    let ghost t = s@.skip(a as int);
    proof {
        assert(trim_start(t) == t);
        assert(s@.subrange(a as int, s@.len() as int) =~= t);
    }
    let mut b: usize = s.len();
    while b > a && char_is_whitespace(s[b - 1])
        invariant
            a <= b <= s@.len(),
            t == s@.skip(a as int),
            trim_end(t) == trim_end(s@.subrange(a as int, b as int)),
        decreases b - a,
    {
        proof {
            assert(s@.subrange(a as int, b as int).drop_last() =~= s@.subrange(a as int, b - 1));
        }
        b = b - 1;
    }
    sub_chars(s, a, b)
}

/// The lines of a text.
pub fn lines(s: &[char]) -> (r: Vec<Vec<char>>)
    ensures
        pieces_view(r@) == lines_of(s@),
{
    let parts = split_chars(s, '\n');
    let ghost p = pieces_view(parts@);
    let n = parts.len();
    let mut r: Vec<Vec<char>> = Vec::new();
    let mut i: usize = 0;
    while i + 1 < n
        invariant
            n == parts@.len(),
            n >= 1,
            p == pieces_view(parts@),
            0 <= i <= n - 1,
            pieces_view(r@) == p.take(i as int).map_values(|l: Str| strip_cr(l)),
        decreases n - i,
    {
        let piece = &parts[i];
        let m = piece.len();
        let line = if m > 0 && piece[m - 1] == '\r' {
            sub_chars(piece.as_slice(), 0, m - 1)
        } else {
            sub_chars(piece.as_slice(), 0, m)
        };
        proof {
            assert(p[i as int] == piece@);
            assert(piece@.subrange(0, m as int) =~= piece@);
            assert(m > 0 ==> piece@.subrange(0, m - 1) =~= piece@.drop_last());
            assert(line@ == strip_cr(p[i as int]));
        }
        let ghost before = pieces_view(r@);
        r.push(line);
        proof {
            assert(pieces_view(r@) =~= before.push(line@));
            assert(p.take(i + 1) =~= p.take(i as int).push(p[i as int]));
            assert(pieces_view(r@) =~= p.take(i + 1).map_values(|l: Str| strip_cr(l)));
        }
        i = i + 1;
    }
    let last = &parts[n - 1];
    proof {
        assert(p[n - 1] == last@);
        assert(p.last() == last@);
    }
    if last.len() > 0 {
        let copy = sub_chars(last.as_slice(), 0, last.len());
        proof {
            assert(last@.subrange(0, last@.len() as int) =~= last@);
        }
        let ghost before = pieces_view(r@);
        r.push(copy);
        proof {
            assert(pieces_view(r@) =~= before + seq![last@]);
        }
    } else {
        proof {
            assert(pieces_view(r@) =~= pieces_view(r@) + seq![]);
        }
    }
    r
}

// ---------------------------------------------------------------------------
// Searching
// ---------------------------------------------------------------------------

/// The index of the first `c` in `s`; the length when there is none.
pub open spec fn index_of(s: Str, c: char) -> nat
    decreases s.len(),
{
    if s.len() == 0 {
        0
    } else if s[0] == c {
        0
    } else {
        1 + index_of(s.drop_first(), c)
    }
}

/// The index of the first occurrence of `p` in `s`; the length when there
/// is none.
pub open spec fn index_of_sub(s: Str, p: Str) -> nat
    decreases s.len(),
{
    if s.len() == 0 {
        0
    } else if has_prefix(s, p) {
        0
    } else {
        1 + index_of_sub(s.drop_first(), p)
    }
}

/// The index of the last `c` in `s`.
pub open spec fn last_index_of(s: Str, c: char) -> int
    decreases s.len(),
{
    if s.len() == 0 {
        -1
    } else if s.last() == c {
        s.len() - 1
    } else {
        last_index_of(s.drop_last(), c)
    }
}

proof fn lemma_index_of_len(s: Str, c: char)
    ensures
        index_of(s, c) <= s.len(),
        index_of(s, c) < s.len() ==> s[index_of(s, c) as int] == c,
    decreases s.len(),
{
    if s.len() > 0 && s[0] != c {
        lemma_index_of_len(s.drop_first(), c);
    }
}

fn find_char(s: &[char], c: char) -> (r: usize)
    ensures
        r == index_of(s@, c),
        r <= s@.len(),
{
    let mut i: usize = 0;
    proof {
        assert(s@.skip(0) =~= s@);
    }
    while i < s.len() && s[i] != c
        invariant
            0 <= i <= s@.len(),
            index_of(s@, c) == i + index_of(s@.skip(i as int), c),
        decreases s@.len() - i,
    {
        proof {
            assert(s@.skip(i as int).drop_first() =~= s@.skip(i + 1));
        }
        i = i + 1;
    }
    proof {
        if i == s@.len() {
            assert(s@.skip(i as int).len() == 0);
        } else {
            assert(s@.skip(i as int)[0] == c);
        }
    }
    i
}

fn find_sub(s: &[char], p: &[char]) -> (r: usize)
    requires
        p@.len() > 0,
    ensures
        r == index_of_sub(s@, p@),
        r <= s@.len(),
        r < s@.len() ==> r + p@.len() <= s@.len() && s@.subrange(r as int, r + p@.len()) == p@,
{
    let mut i: usize = 0;
    proof {
        assert(s@.skip(0) =~= s@);
    }
    while i < s.len() && !matches_at(s, p, i)
        invariant
            0 <= i <= s@.len(),
            p@.len() > 0,
            index_of_sub(s@, p@) == i + index_of_sub(s@.skip(i as int), p@),
        decreases s@.len() - i,
    {
        proof {
            assert(s@.skip(i as int).drop_first() =~= s@.skip(i + 1));
            if has_prefix(s@.skip(i as int), p@) {
                assert(s@.skip(i as int).subrange(0, p@.len() as int) =~= s@.subrange(i as int, i + p@.len()));
            }
        }
        i = i + 1;
    }
    proof {
        if i == s@.len() {
            assert(s@.skip(i as int).len() == 0);
        } else {
            assert(s@.skip(i as int).subrange(0, p@.len() as int) =~= s@.subrange(i as int, i + p@.len()));
            assert(has_prefix(s@.skip(i as int), p@));
        }
    }
    i
}

fn find_last_char(s: &[char], c: char) -> (r: usize)
    requires
        s@.contains(c),
    ensures
        r == last_index_of(s@, c),
        r < s@.len(),
{
    let mut i: usize = s.len();
    proof {
        assert(s@.take(s@.len() as int) =~= s@);
    }
    while i > 0 && s[i - 1] != c
        invariant
            0 <= i <= s@.len(),
            s@.contains(c),
            forall|j: int| i <= j < s@.len() ==> s@[j] != c,
            last_index_of(s@, c) == last_index_of(s@.take(i as int), c),
        decreases i,
    {
        proof {
            assert(s@.take(i as int).drop_last() =~= s@.take(i - 1));
        }
        i = i - 1;
    }
    if i == 0 {
        proof {
            let q = choose|q: int| 0 <= q < s@.len() && s@[q] == c;
            assert(false);
        }
        return 0;
    }
    proof {
        assert(s@.take(i as int).last() == c);
    }
    i - 1
}

// ---------------------------------------------------------------------------
// What counts as a path
// ---------------------------------------------------------------------------

/// File extensions that bare file names in the docs may carry.
pub open spec fn known_ext(e: Str) -> bool {
    e == "md"@ || e == "toml"@ || e == "json"@ || e == "rs"@ || e == "ts"@ || e == "js"@ || e
        == "yaml"@ || e == "yml"@ || e == "txt"@ || e == "lock"@ || e == "sh"@ || e == "py"@
}

/// Whether backtick-quoted text names a file or directory of the repository:
/// no URL, anchor, shell command, prose, code, version, comparison, runtime
/// output or glob; a path with a slash, or a capitalized bare file name with
/// a known extension.
pub open spec fn looks_like_path(s: Str) -> bool {
    let t = trim(s);
    if t.len() == 0 {
        false
    } else if has_prefix(t, "http://"@) || has_prefix(t, "https://"@) {
        false
    } else if t[0] == '#' {
        false
    } else if has_prefix(t, "cargo "@) || has_prefix(t, "git "@) || has_prefix(t, "npm "@)
        || has_prefix(t, "--"@) {
        false
    } else if t.contains(' ') {
        false
    } else if t.contains('(') || t.contains(')') || t.contains('{') || t.contains('}') {
        false
    } else if t[0] == 'v' && t.len() > 1 && is_ascii_digit(t[1]) {
        false
    } else if has_infix(t, "=="@) || has_infix(t, "!="@) || has_infix(t, ">="@) || has_infix(
        t,
        "<="@,
    ) {
        false
    } else if has_prefix(t, ".stackcut/"@) {
        false
    } else if t.contains('*') {
        false
    } else if t.contains('/') {
        true
    } else if t.contains('.') {
        known_ext(lower_str(t.skip(last_index_of(t, '.') + 1))) && is_ascii_upper(t[0])
    } else {
        false
    }
}

/// Whether a link target is a local file path rather than a URL, an anchor
/// or a mail address.
pub open spec fn looks_like_local_link(s: Str) -> bool {
    let t = trim(s);
    if t.len() == 0 {
        false
    } else if has_prefix(t, "http://"@) || has_prefix(t, "https://"@) {
        false
    } else if t[0] == '#' {
        false
    } else if has_prefix(t, "mailto:"@) {
        false
    } else {
        t.contains('/') || t.contains('.')
    }
}

fn has_lit_prefix(t: &[char], lit: &str) -> (r: bool)
    ensures
        r == has_prefix(t@, lit@),
{
    let p = chars_of(lit);
    starts_with(t, p.as_slice())
}

fn has_lit_infix(t: &[char], lit: &str) -> (r: bool)
    ensures
        r == has_infix(t@, lit@),
{
    let p = chars_of(lit);
    contains_chars(t, p.as_slice())
}

fn eq_lit(t: &[char], lit: &str) -> (r: bool)
    ensures
        r == (t@ == lit@),
{
    let p = chars_of(lit);
    chars_eq(t, p.as_slice())
}

fn is_known_ext(e: &[char]) -> (r: bool)
    ensures
        r == known_ext(e@),
{
    eq_lit(e, "md") || eq_lit(e, "toml") || eq_lit(e, "json") || eq_lit(e, "rs") || eq_lit(e, "ts")
        || eq_lit(e, "js") || eq_lit(e, "yaml") || eq_lit(e, "yml") || eq_lit(e, "txt") || eq_lit(
        e,
        "lock",
    ) || eq_lit(e, "sh") || eq_lit(e, "py")
}

/// Whether backtick-quoted text names a file or directory of the repository.
pub fn looks_like_path_chars(s: &[char]) -> (r: bool)
    ensures
        r == looks_like_path(s@),
{
    let t = trim_chars(s);
    let t = t.as_slice();
    if t.len() == 0 {
        return false;
    }
    if has_lit_prefix(t, "http://") || has_lit_prefix(t, "https://") {
        return false;
    }
    if t[0] == '#' {
        return false;
    }
    if has_lit_prefix(t, "cargo ") || has_lit_prefix(t, "git ") || has_lit_prefix(t, "npm ")
        || has_lit_prefix(t, "--") {
        return false;
    }
    if has_char(t, ' ') {
        return false;
    }
    if has_char(t, '(') || has_char(t, ')') || has_char(t, '{') || has_char(t, '}') {
        return false;
    }
    if t[0] == 'v' && t.len() > 1 && char_is_ascii_digit(t[1]) {
        return false;
    }
    if has_lit_infix(t, "==") || has_lit_infix(t, "!=") || has_lit_infix(t, ">=") || has_lit_infix(
        t,
        "<=",
    ) {
        return false;
    }
    if has_lit_prefix(t, ".stackcut/") {
        return false;
    }
    if has_char(t, '*') {
        return false;
    }
    if has_char(t, '/') {
        return true;
    }
    if has_char(t, '.') {
        let dot = find_last_char(t, '.');
        let ext = sub_chars(t, dot + 1, t.len());
        let lower = to_lower_chars(ext.as_slice());
        proof {
            assert(ext@ =~= t@.skip(dot + 1));
        }
        return is_known_ext(lower.as_slice()) && char_is_ascii_upper(t[0]);
    }
    false
}

/// Whether a link target is a local file path.
pub fn looks_like_local_link_chars(s: &[char]) -> (r: bool)
    ensures
        r == looks_like_local_link(s@),
{
    let t = trim_chars(s);
    let t = t.as_slice();
    if t.len() == 0 {
        return false;
    }
    if has_lit_prefix(t, "http://") || has_lit_prefix(t, "https://") {
        return false;
    }
    if t[0] == '#' {
        return false;
    }
    if has_lit_prefix(t, "mailto:") {
        return false;
    }
    has_char(t, '/') || has_char(t, '.')
}

// ---------------------------------------------------------------------------
// Extraction
// ---------------------------------------------------------------------------

/// A string without its trailing slashes.
pub open spec fn trim_slashes(s: Str) -> Str
    decreases s.len(),
{
    if s.len() > 0 && s.last() == '/' {
        trim_slashes(s.drop_last())
    } else {
        s
    }
}

/// The paths quoted in backticks on a line, in order, without trailing
/// slashes.
pub open spec fn backtick_refs(rest: Str) -> Seq<Str>
    decreases rest.len(),
{
    let i = index_of(rest, '`');
    if i >= rest.len() {
        seq![]
    } else {
        let r1 = rest.skip((i + 1) as int);
        let j = index_of(r1, '`');
        if j >= r1.len() {
            seq![]
        } else {
            let cand = r1.take(j as int);
            (if looks_like_path(cand) {
                seq![trim_slashes(cand)]
            } else {
                seq![]
            }) + backtick_refs(r1.skip((j + 1) as int))
        }
    }
}

/// The local targets of Markdown links on a line, in order.
pub open spec fn link_refs(rest: Str) -> Seq<Str>
    decreases rest.len(),
{
    let i = index_of_sub(rest, "]("@);
    if i + 2 > rest.len() {
        seq![]
    } else {
        let r1 = rest.skip((i + 2) as int);
        let j = index_of(r1, ')');
        if j >= r1.len() {
            seq![]
        } else {
            let cand = r1.take(j as int);
            (if looks_like_local_link(cand) {
                seq![cand]
            } else {
                seq![]
            }) + link_refs(r1.skip((j + 1) as int))
        }
    }
}

/// The references on the lines, skipping fenced code blocks; `in_code`
/// says whether the first line is inside one.
pub open spec fn refs_from(ls: Seq<Str>, in_code: bool) -> Seq<Str>
    decreases ls.len(),
{
    if ls.len() == 0 {
        seq![]
    } else if has_prefix(trim(ls[0]), "```"@) {
        refs_from(ls.drop_first(), !in_code)
    } else if in_code {
        refs_from(ls.drop_first(), in_code)
    } else {
        backtick_refs(ls[0]) + link_refs(ls[0]) + refs_from(ls.drop_first(), in_code)
    }
}

/// The path references of a Markdown text, sorted and distinct.
pub open spec fn path_references(contents: Str) -> Seq<Str> {
    sort_dedup(refs_from(lines_of(contents), false))
}

fn trim_slashes_chars(s: &[char]) -> (r: Vec<char>)
    ensures
        r@ == trim_slashes(s@),
{
    let mut b: usize = s.len();
    proof {
        assert(s@.subrange(0, s@.len() as int) =~= s@);
    }
    while b > 0 && s[b - 1] == '/'
        invariant
            0 <= b <= s@.len(),
            trim_slashes(s@) == trim_slashes(s@.subrange(0, b as int)),
        decreases b,
    {
        proof {
            assert(s@.subrange(0, b as int).drop_last() =~= s@.subrange(0, b - 1));
        }
        b = b - 1;
    }
    sub_chars(s, 0, b)
}

/// Appends the paths quoted in backticks on a line.
pub fn extract_backtick_paths(line: &[char], refs: &mut Vec<String>)
    ensures
        final(refs).deep_view() == old(refs).deep_view() + backtick_refs(line@),
{
    let ghost target = refs.deep_view() + backtick_refs(line@);
    let mut rest: Vec<char> = sub_chars(line, 0, line.len());
    proof {
        assert(line@.subrange(0, line@.len() as int) =~= line@);
        assert(refs.deep_view() + backtick_refs(rest@) =~= target);
    }
    loop
        invariant
            refs.deep_view() + backtick_refs(rest@) == target,
            target == old(refs).deep_view() + backtick_refs(line@),
        decreases rest@.len(),
    {
        let i = find_char(rest.as_slice(), '`');
        if i >= rest.len() {
            proof {
                assert(refs.deep_view() =~= target);
            }
            return;
        }
        let r1 = sub_chars(rest.as_slice(), i + 1, rest.len());
        proof {
            assert(r1@ =~= rest@.skip(i + 1));
        }
        let j = find_char(r1.as_slice(), '`');
        if j >= r1.len() {
            proof {
                assert(refs.deep_view() =~= target);
            }
            return;
        }
        let cand = sub_chars(r1.as_slice(), 0, j);
        proof {
            assert(cand@ =~= r1@.take(j as int));
        }
        let ghost before = refs.deep_view();
        if looks_like_path_chars(cand.as_slice()) {
            let trimmed = trim_slashes_chars(cand.as_slice());
            refs.push(string_of(trimmed.as_slice()));
            proof {
                assert(refs.deep_view() =~= before + seq![trim_slashes(cand@)]);
            }
        } else {
            proof {
                assert(refs.deep_view() =~= before + seq![]);
            }
        }
        let next = sub_chars(r1.as_slice(), j + 1, r1.len());
        proof {
            assert(next@ =~= r1@.skip(j + 1));
            let piece = if looks_like_path(cand@) {
                seq![trim_slashes(cand@)]
            } else {
                seq![]
            };
            assert(backtick_refs(rest@) == piece + backtick_refs(next@));
            assert(refs.deep_view() + backtick_refs(next@) =~= before + (piece + backtick_refs(next@)));
        }
        rest = next;
    }
}

/// Appends the local targets of Markdown links on a line.
pub fn extract_markdown_link_paths(line: &[char], refs: &mut Vec<String>)
    ensures
        final(refs).deep_view() == old(refs).deep_view() + link_refs(line@),
{
    let ghost target = refs.deep_view() + link_refs(line@);
    let pair = chars_of("](");
    proof {
        reveal_strlit("](");
    }
    let mut rest: Vec<char> = sub_chars(line, 0, line.len());
    proof {
        assert(line@.subrange(0, line@.len() as int) =~= line@);
        assert(refs.deep_view() + link_refs(rest@) =~= target);
    }
    loop
        invariant
            refs.deep_view() + link_refs(rest@) == target,
            target == old(refs).deep_view() + link_refs(line@),
            pair@ == "]("@,
            pair@.len() == 2,
        decreases rest@.len(),
    {
        let i = find_sub(rest.as_slice(), pair.as_slice());
        if i >= rest.len() {
            proof {
                assert(refs.deep_view() =~= target);
            }
            return;
        }
        let r1 = sub_chars(rest.as_slice(), i + 2, rest.len());
        proof {
            assert(r1@ =~= rest@.skip(i + 2));
        }
        let j = find_char(r1.as_slice(), ')');
        if j >= r1.len() {
            proof {
                assert(refs.deep_view() =~= target);
            }
            return;
        }
        let cand = sub_chars(r1.as_slice(), 0, j);
        proof {
            assert(cand@ =~= r1@.take(j as int));
        }
        let ghost before = refs.deep_view();
        if looks_like_local_link_chars(cand.as_slice()) {
            refs.push(string_of(cand.as_slice()));
            proof {
                assert(refs.deep_view() =~= before + seq![cand@]);
            }
        } else {
            proof {
                assert(refs.deep_view() =~= before + seq![]);
            }
        }
        let next = sub_chars(r1.as_slice(), j + 1, r1.len());
        proof {
            assert(next@ =~= r1@.skip(j + 1));
            let piece = if looks_like_local_link(cand@) {
                seq![cand@]
            } else {
                seq![]
            };
            assert(link_refs(rest@) == piece + link_refs(next@));
            assert(refs.deep_view() + link_refs(next@) =~= before + (piece + link_refs(next@)));
        }
        rest = next;
    }
}

/// The repository paths a Markdown text refers to: backtick-quoted paths and
/// local link targets outside fenced code blocks, sorted and distinct.
pub fn extract_path_references(contents: &str) -> (r: Vec<String>)
    ensures
        r.deep_view() == path_references(contents@),
{
    let text = chars_of(contents);
    let ls = lines(text.as_slice());
    let ghost lv = pieces_view(ls@);
    let fence = chars_of("```");
    let mut refs: Vec<String> = Vec::new();
    let mut in_code = false;
    let mut i: usize = 0;
    proof {
        assert(lv.skip(0) =~= lv);
        assert(refs.deep_view() + refs_from(lv.skip(0), false) =~= refs_from(lv, false));
    }
    while i < ls.len()
        invariant
            lv == pieces_view(ls@),
            lv == lines_of(contents@),
            fence@ == "```"@,
            0 <= i <= ls@.len(),
            refs.deep_view() + refs_from(lv.skip(i as int), in_code) == refs_from(lv, false),
        decreases ls@.len() - i,
    {
        let line = &ls[i];
        let t = trim_chars(line.as_slice());
        let ghost before = refs.deep_view();
        proof {
            assert(lv.skip(i as int)[0] == line@);
            assert(lv.skip(i as int).drop_first() =~= lv.skip(i + 1));
        }
        if starts_with(t.as_slice(), fence.as_slice()) {
            in_code = !in_code;
        } else if !in_code {
            extract_backtick_paths(line.as_slice(), &mut refs);
            extract_markdown_link_paths(line.as_slice(), &mut refs);
            proof {
                assert(refs.deep_view() + refs_from(lv.skip(i + 1), in_code) =~= before + (
                backtick_refs(line@) + link_refs(line@) + refs_from(lv.skip(i + 1), in_code)));
            }
        }
        i = i + 1;
    }
    proof {
        assert(lv.skip(ls@.len() as int) =~= Seq::<Str>::empty());
        assert(refs.deep_view() =~= refs_from(lv, false));
    }
    dedup_and_sort(&mut refs);
    refs
}

} // verus!
