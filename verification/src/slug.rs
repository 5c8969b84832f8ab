//! Slugs: the identifier-safe form of a name.
use vstd::prelude::*;
use crate::text::{chars_of, char_is_ascii_alnum, char_to_lower, is_ascii_alnum, lower_char, string_of, Str};

verus! {

/// The dash-joined lower-case runs of a string, before trimming, and whether
/// it ends in a dash that stands for a run of other characters.
pub open spec fn slug_runs(s: Str) -> (Str, bool)
    decreases s.len(),
{
    if s.len() == 0 {
        (Seq::empty(), false)
    } else {
        let (out, dash) = slug_runs(s.drop_last());
        let c = s.last();
        if is_ascii_alnum(c) {
            (out.push(lower_char(c)), false)
        } else if !dash {
            (out.push('-'), true)
        } else {
            (out, dash)
        }
    }
}

/// `s` without its leading dashes.
pub open spec fn trim_dash_start(s: Str) -> Str
    decreases s.len(),
{
    if s.len() > 0 && s[0] == '-' {
        trim_dash_start(s.drop_first())
    } else {
        s
    }
}

/// `s` without its trailing dashes.
pub open spec fn trim_dash_end(s: Str) -> Str
    decreases s.len(),
{
    if s.len() > 0 && s.last() == '-' {
        trim_dash_end(s.drop_last())
    } else {
        s
    }
}

/// The slug of a name: lower-case ASCII letters and digits, other runs
/// collapsed to one dash, no dash at either end, and `root` when nothing is left.
pub open spec fn slug(s: Str) -> Str {
    let t = trim_dash_end(trim_dash_start(slug_runs(s).0));
    if t.len() == 0 {
        "root"@
    } else {
        t
    }
}

/// The slug of a name.
pub fn slugify(input: &str) -> (r: String)
    ensures
        r@ == slug(input@),
{
    let s = chars_of(input);
    let mut out: Vec<char> = Vec::new();
    let mut last_dash = false;
    let mut i: usize = 0;
    while i < s.len()
        invariant
            0 <= i <= s@.len(),
            s@ == input@,
            (out@, last_dash) == slug_runs(s@.take(i as int)),
        decreases s@.len() - i,
    {
        let c = s[i];
        proof {
            assert(s@.take(i + 1).drop_last() =~= s@.take(i as int));
            assert(s@.take(i + 1).last() == c);
        }
        if char_is_ascii_alnum(c) {
            out.push(char_to_lower(c));
            last_dash = false;
        } else if !last_dash {
            out.push('-');
            last_dash = true;
        }
        i = i + 1;
    }
    proof {
        assert(s@.take(s@.len() as int) =~= s@);
    }
    let ghost raw = out@;
    let mut start: usize = 0;
    proof {
        assert(raw.skip(0) =~= raw);
    }
    while start < out.len() && out[start] == '-'
        invariant
            0 <= start <= out@.len(),
            out@ == raw,
            trim_dash_start(raw) == trim_dash_start(raw.skip(start as int)),
        decreases out@.len() - start,
    {
        proof {
            assert(raw.skip(start as int).drop_first() =~= raw.skip(start + 1));
        }
        start = start + 1;
    }
    let ghost lead = raw.skip(start as int);
    let mut end: usize = out.len();
    proof {
        assert(trim_dash_start(lead) == lead);
        assert(raw.subrange(start as int, end as int) =~= lead);
    }
    while end > start && out[end - 1] == '-'
        invariant
            start <= end <= out@.len(),
            out@ == raw,
            lead == raw.skip(start as int),
            trim_dash_end(lead) == trim_dash_end(raw.subrange(start as int, end as int)),
        decreases end - start,
    {
        proof {
            assert(raw.subrange(start as int, end as int).drop_last() =~= raw.subrange(
                start as int,
                end - 1,
            ));
        }
        end = end - 1;
    }
    let mut t: Vec<char> = Vec::new();
    let mut k: usize = start;
    while k < end
        invariant
            start <= k <= end,
            end <= out@.len(),
            out@ == raw,
            t@ == raw.subrange(start as int, k as int),
        decreases end - k,
    {
        t.push(out[k]);
        proof {
            assert(raw.subrange(start as int, k + 1) =~= raw.subrange(start as int, k as int).push(
                raw[k as int],
            ));
        }
        k = k + 1;
    }
    proof {
        assert(trim_dash_end(raw.subrange(start as int, end as int)) == raw.subrange(
            start as int,
            end as int,
        ));
    }
    if t.len() == 0 {
        "root".to_owned()
    } else {
        string_of(t.as_slice())
    }
}

} // verus!
