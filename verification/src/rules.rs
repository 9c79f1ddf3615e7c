//! Category matching: the first user rule whose window pattern occurs in
//! the (lowercased) window title names the category; without a match the
//! observation is classified as the sentinel `skip`.
//!
//! A rules line is `category pattern...`; leading whitespace is
//! ignored, `#` opens a comment, and the pattern is everything after the
//! first space, matched case-insensitively as a substring.
use vstd::prelude::*;
use vstd::string::StrSliceExecFns;
use vstd::string::StringExecFns;
use crate::chars::str_to_chars;
use crate::entry::find_char;
use crate::entry::find_char_exec;

verus! {

/// What `str::to_lowercase` returns: a function of the characters
/// alone.
pub uninterp spec fn lower_of(s: Seq<char>) -> Seq<char>;

/// Relies on `str::to_lowercase`: the Unicode lowercase equivalent of
/// the string, depending on its characters alone; empty stays empty.
#[verifier::external_body]
fn lowercase(s: &str) -> (r: String)
    ensures
        r@ == lower_of(s@),
        s@.len() == 0 ==> r@.len() == 0,
{
    s.to_lowercase()
}

/// `sub` occurs in `s` starting at `i`.
pub open spec fn is_substring_at(s: Seq<char>, sub: Seq<char>, i: int) -> bool {
    0 <= i && i + sub.len() <= s.len() && s.subrange(i, i + sub.len()) == sub
}

/// `sub` occurs somewhere in `s` (anywhere, the empty run always).
pub open spec fn spec_contains(s: Seq<char>, sub: Seq<char>) -> bool {
    exists|i: int| is_substring_at(s, sub, i)
}

/// Whether `sub` occurs at position `i`, as executable code.
fn matches_at(s: &Vec<char>, sub: &Vec<char>, i: usize) -> (r: bool)
    requires
        i + sub@.len() <= s@.len(),
    ensures
        r == is_substring_at(s@, sub@, i as int),
{
    let n = s.len();
    let m = sub.len();
    let mut j: usize = 0;
    while j < m
        invariant
            n == s@.len(),
            m == sub@.len(),
            i + m <= n,
            j <= m,
            forall|t: int| 0 <= t < j ==> s@[i + t] == sub@[t],
        decreases m - j,
    {
        if s[i + j] != sub[j] {
            proof {
                assert(s@.subrange(i as int, i + sub@.len())[j as int] != sub@[j as int]);
            }
            return false;
        }
        j = j + 1;
    }
    proof {
        assert(s@.subrange(i as int, i + sub@.len()) =~= sub@);
    }
    true
}

/// Substring search, as executable code.
pub fn contains_chars(s: &Vec<char>, sub: &Vec<char>) -> (r: bool)
    ensures
        r == spec_contains(s@, sub@),
{
    let n = s.len();
    let m = sub.len();
    if m > n {
        proof {
            assert(forall|i: int| !is_substring_at(s@, sub@, i));
        }
        return false;
    }
    if m == 0 {
        proof {
            assert(s@.subrange(0, 0) =~= sub@);
            assert(is_substring_at(s@, sub@, 0));
        }
        return true;
    }
    let mut i: usize = 0;
    while i <= n - m
        invariant
            n == s@.len(),
            m == sub@.len(),
            1 <= m <= n,
            i <= n - m + 1,
            forall|t: int| 0 <= t < i ==> !is_substring_at(s@, sub@, t),
        decreases n - i,
    {
        if matches_at(s, sub, i) {
            return true;
        }
        i = i + 1;
    }
    proof {
        assert(forall|t: int| is_substring_at(s@, sub@, t) ==> t + sub@.len() <= s@.len());
    }
    false
}

/// A whitespace character at the start of a rules line.
pub open spec fn is_space_char(c: char) -> bool {
    c == ' ' || c == '\t' || c == '\r'
}

/// The first position in `s` at or after `from` that is not leading
/// whitespace.
pub open spec fn trim_start_idx(s: Seq<char>, from: int) -> int
    decreases s.len() - from,
{
    if from < 0 || from >= s.len() {
        s.len() as int
    } else if is_space_char(s[from]) {
        trim_start_idx(s, from + 1)
    } else {
        from
    }
}

/// The rule a line carries: its category token and its (possibly
/// empty) window pattern; comments and blank lines carry none.
pub open spec fn rule_of_line(l: Seq<char>) -> Option<(Seq<char>, Seq<char>)> {
    let t = l.skip(trim_start_idx(l, 0));
    if t.len() == 0 || t[0] == '#' {
        Option::None
    } else {
        let sp = find_char(t, ' ', 0);
        if sp < 0 {
            Option::Some((t, Seq::<char>::empty()))
        } else {
            Option::Some((t.subrange(0, sp), t.subrange(sp + 1, t.len() as int)))
        }
    }
}

/// The category of the first rule from line `i` on whose lowercased
/// pattern occurs in the lowercased window title; `skip` if none does.
pub open spec fn spec_get_category(
    rule_lines: Seq<Seq<char>>,
    window_lower: Seq<char>,
    i: int,
) -> Seq<char>
    decreases rule_lines.len() - i,
{
    if i < 0 || i >= rule_lines.len() {
        "skip"@
    } else {
        match rule_of_line(rule_lines[i]) {
            Option::Some(r) => if spec_contains(window_lower, lower_of(r.1)) {
                r.0
            } else {
                spec_get_category(rule_lines, window_lower, i + 1)
            },
            Option::None => spec_get_category(rule_lines, window_lower, i + 1),
        }
    }
}

/// The views of the rules lines.
pub open spec fn line_views(s: Seq<String>) -> Seq<Seq<char>> {
    s.map_values(|l: String| l@)
}

/// Classifies a window title against the user's rules: the category of
/// the first rule whose pattern occurs, case-insensitively, in the
/// title; `skip` when no rule matches.
pub fn get_category(rule_lines: &Vec<String>, window_name: &str) -> (r: String)
    ensures
        r@ == spec_get_category(line_views(rule_lines@), lower_of(window_name@), 0),
{
    let ghost lviews = line_views(rule_lines@);
    let ghost wl = lower_of(window_name@);
    let window_lower_string = lowercase(window_name);
    let window_lower = str_to_chars(window_lower_string.as_str());
    let mut i: usize = 0;
    while i < rule_lines.len()
        invariant
            i <= rule_lines@.len(),
            lviews == line_views(rule_lines@),
            window_lower@ == wl,
            spec_get_category(lviews, wl, 0) == spec_get_category(lviews, wl, i as int),
        decreases rule_lines@.len() - i,
    {
        proof {
            assert(lviews[i as int] == rule_lines@[i as int]@);
        }
        let line = &rule_lines[i];
        let lc = str_to_chars(line.as_str());
        let mut t: usize = 0;
        while t < lc.len() && (lc[t] == ' ' || lc[t] == '\t' || lc[t] == '\r')
            invariant
                t <= lc@.len(),
                trim_start_idx(lc@, 0) == trim_start_idx(lc@, t as int),
            decreases lc@.len() - t,
        {
            t = t + 1;
        }
        proof {
            assert(trim_start_idx(lc@, 0) == t as int);
        }
        let ghost trimmed = lc@.skip(t as int);
        if t < lc.len() && !(lc[t] == '#') {
            let sp = find_char_exec(&lc, ' ', t);
            let (cat_end, pat_start) = match sp {
                Some(j) => (j, j + 1),
                None => (lc.len(), lc.len()),
            };
            proof {
                if sp is Some {
                    assert(find_char(trimmed, ' ', 0) == sp->Some_0 - t) by {
                        lemma_find_shift(lc@, t as int, ' ');
                    }
                } else {
                    assert(find_char(trimmed, ' ', 0) == -1) by {
                        lemma_find_shift(lc@, t as int, ' ');
                    }
                }
            }
            let pattern = line.substring_char(pat_start, lc.len());
            let pattern_lower = lowercase(pattern);
            let pattern_chars = str_to_chars(pattern_lower.as_str());
            proof {
                assert(pattern@ =~= rule_of_line(lviews[i as int])->Some_0.1);
            }
            if contains_chars(&window_lower, &pattern_chars) {
                let category = line.substring_char(t, cat_end);
                proof {
                    assert(category@ =~= rule_of_line(lviews[i as int])->Some_0.0);
                }
                return category.to_owned();
            }
        }
        i = i + 1;
    }
    String::from_str("skip")
}

/// `find_char` on a suffix is `find_char` on the whole, shifted.
proof fn lemma_find_shift(s: Seq<char>, t: int, c: char)
    requires
        0 <= t <= s.len(),
    ensures
        ({
            let f = find_char(s, c, t);
            let g = find_char(s.skip(t), c, 0);
            &&& f == -1 ==> g == -1
            &&& f >= 0 ==> g == f - t
        }),
{
    let f = find_char(s, c, t);
    let g = find_char(s.skip(t), c, 0);
    crate::entry::lemma_find_char(s, c, t);
    crate::entry::lemma_find_char(s.skip(t), c, 0);
    if f == -1 {
        if g != -1 {
            assert(s[g + t] == c);
        }
    } else {
        assert(s.skip(t)[f - t] == c);
        if g != f - t {
            if g == -1 {
                assert(false);
            } else if g < f - t {
                assert(s[g + t] == c);
            } else {
                assert(s.skip(t)[f - t] == c);
            }
        }
    }
}

} // verus!
