//! Text assembly around the chart: placeholder replacement, the
//! `H:MM` rendering of a time impact, the caption of one series, the
//! day-anchored x-axis reference, and the autostart entry.
use vstd::prelude::*;
use vstd::arithmetic::div_mod::lemma_fundamental_div_mod;
use vstd::arithmetic::div_mod::lemma_mod_multiples_basic;
use vstd::string::StrSliceExecFns;
use crate::chars::chars_to_string;
use crate::chars::str_to_chars;
use crate::date::digit_val;
use crate::date::is_digit;

verus! {

/// `s` with every occurrence of `pat` replaced by `rep`, scanning left
/// to right without overlap; an empty pattern replaces nothing.
pub open spec fn spec_replace(s: Seq<char>, pat: Seq<char>, rep: Seq<char>) -> Seq<char>
    decreases s.len(),
{
    if pat.len() == 0 || s.len() < pat.len() {
        s
    } else if s.subrange(0, pat.len() as int) == pat {
        rep + spec_replace(s.skip(pat.len() as int), pat, rep)
    } else {
        seq![s[0]] + spec_replace(s.skip(1), pat, rep)
    }
}

/// Whether `pat` stands at position `i` of `s`, as executable code.
fn pat_at(s: &Vec<char>, pat: &Vec<char>, i: usize) -> (r: bool)
    requires
        i + pat@.len() <= s@.len(),
    ensures
        r == (s@.subrange(i as int, i + pat@.len()) == pat@),
{
    let n = s.len();
    let m = pat.len();
    let mut j: usize = 0;
    while j < m
        invariant
            n == s@.len(),
            m == pat@.len(),
            i + m <= n,
            j <= m,
            forall|t: int| 0 <= t < j ==> s@[i + t] == pat@[t],
        decreases m - j,
    {
        if s[i + j] != pat[j] {
            proof {
                assert(s@.subrange(i as int, i + pat@.len())[j as int] != pat@[j as int]);
            }
            return false;
        }
        j = j + 1;
    }
    proof {
        assert(s@.subrange(i as int, i + pat@.len()) =~= pat@);
    }
    true
}

/// `s` with every occurrence of `pat` replaced by `rep`.
pub fn replace_all(s: &str, pat: &str, rep: &str) -> (r: String)
    ensures
        r@ == spec_replace(s@, pat@, rep@),
{
    let sc = str_to_chars(s);
    let pc = str_to_chars(pat);
    let rc = str_to_chars(rep);
    let n = sc.len();
    let m = pc.len();
    if m == 0 {
        return s.to_owned();
    }
    let mut out: Vec<char> = Vec::new();
    proof {
        assert(s@.skip(0) =~= s@);
        assert(Seq::<char>::empty() + spec_replace(s@, pat@, rep@) =~= spec_replace(
            s@,
            pat@,
            rep@,
        ));
    }
    let mut i: usize = 0;
    while i < n
        invariant
            n == sc@.len(),
            m == pc@.len(),
            m >= 1,
            sc@ == s@,
            pc@ == pat@,
            rc@ == rep@,
            i <= n,
            out@ + spec_replace(s@.skip(i as int), pat@, rep@) == spec_replace(s@, pat@, rep@),
        decreases n - i,
    {
        let ghost rest = s@.skip(i as int);
        let ghost out0 = out@;
        if m <= n - i && pat_at(&sc, &pc, i) {
            proof {
                assert(rest.subrange(0, pat@.len() as int) =~= s@.subrange(
                    i as int,
                    i + pat@.len(),
                ));
                assert(rest.skip(pat@.len() as int) =~= s@.skip(i + pat@.len()));
                assert(spec_replace(rest, pat@, rep@) == rep@ + spec_replace(
                    s@.skip(i + pat@.len()),
                    pat@,
                    rep@,
                ));
            }
            let mut j: usize = 0;
            while j < rc.len()
                invariant
                    j <= rc@.len(),
                    rc@ == rep@,
                    out@ == out0 + rep@.take(j as int),
                decreases rc@.len() - j,
            {
                out.push(rc[j]);
                proof {
                    assert(out@ =~= out0 + rep@.take(j as int + 1));
                }
                j = j + 1;
            }
            proof {
                assert(out@ =~= out0 + rep@);
                assert((out0 + rep@) + spec_replace(s@.skip(i + pat@.len()), pat@, rep@) =~= out0
                    + (rep@ + spec_replace(s@.skip(i + pat@.len()), pat@, rep@)));
            }
            i = i + m;
        } else {
            proof {
                if m <= n - i {
                    assert(rest.subrange(0, pat@.len() as int) =~= s@.subrange(
                        i as int,
                        i + pat@.len(),
                    ));
                } else {
                    assert(rest.len() < pat@.len());
                }
                assert(rest.skip(1) =~= s@.skip(i as int + 1));
                assert(rest[0] == s@[i as int]);
                assert(spec_replace(rest, pat@, rep@) == seq![s@[i as int]] + spec_replace(
                    s@.skip(i as int + 1),
                    pat@,
                    rep@,
                ));
            }
            out.push(sc[i]);
            proof {
                assert(out@ =~= out0 + seq![s@[i as int]]);
                assert((out0 + seq![s@[i as int]]) + spec_replace(s@.skip(i as int + 1), pat@, rep@)
                    =~= out0 + (seq![s@[i as int]] + spec_replace(s@.skip(i as int + 1), pat@, rep@)));
            }
            i = i + 1;
        }
    }
    proof {
        assert(s@.skip(n as int).len() == 0);
        assert(out@ =~= spec_replace(s@, pat@, rep@));
    }
    chars_to_string(&out)
}

/// The character of one decimal digit.
pub open spec fn digit_char_of(d: int) -> char {
    (48 + d) as char
}

/// The decimal digits of `n`, most significant first.
pub open spec fn dec_digits(n: int) -> Seq<char>
    decreases n,
{
    if n < 10 {
        seq![digit_char_of(if n < 0 {
            0
        } else {
            n
        })]
    } else {
        dec_digits(n / 10).push(digit_char_of(n % 10))
    }
}

/// Appends the decimal digits of `n` to `out`.
fn push_dec(out: &mut Vec<char>, n: u64)
    ensures
        final(out)@ == old(out)@ + dec_digits(n as int),
    decreases n,
{
    if n >= 10 {
        push_dec(out, n / 10);
    }
    let d: u8 = 48 + (n % 10) as u8;
    out.push(d as char);
    proof {
        assert(final(out)@ =~= old(out)@ + dec_digits(n as int));
    }
}

/// A time impact of `impact` seconds rendered as `H:MM`: whole hours,
/// a colon, and the remaining minutes zero-padded to two digits.
pub open spec fn hours_text(impact: int) -> Seq<char> {
    let minutes = impact / 60;
    dec_digits(minutes / 60) + seq![
        ':',
        digit_char_of((minutes % 60) / 10),
        digit_char_of((minutes % 60) % 10),
    ]
}

/// Renders a time impact as `H:MM`.
pub fn format_hours(time_impact: u64) -> (r: String)
    ensures
        r@ == hours_text(time_impact as int),
{
    let minutes = time_impact / 60;
    let h = minutes / 60;
    let mm = minutes % 60;
    let mut out: Vec<char> = Vec::new();
    push_dec(&mut out, h);
    out.push(':');
    let d1: u8 = 48 + (mm / 10) as u8;
    out.push(d1 as char);
    let d2: u8 = 48 + (mm % 10) as u8;
    out.push(d2 as char);
    proof {
        assert(out@ =~= hours_text(time_impact as int));
    }
    chars_to_string(&out)
}

/// The caption of one category's series: the configured template with
/// `%hours%` replaced by the rendered time impact and `%category%` by
/// the category's name, in that order.
pub fn format_caption(template: &str, category: &str, time_impact: u64) -> (r: String)
    ensures
        r@ == spec_replace(
            spec_replace(template@, "%hours%"@, hours_text(time_impact as int)),
            "%category%"@,
            category@,
        ),
{
    let hours = format_hours(time_impact);
    let step = replace_all(template, "%hours%", hours.as_str());
    replace_all(step.as_str(), "%category%", category)
}

/// The UTC midnight at or before `e`: the x-axis reference when the
/// chart anchors its day offsets to the start of the current day.
pub fn day_start(e: u64) -> (r: u64)
    ensures
        r == e - (e % 86400),
        r % 86400 == 0,
        r <= e,
{
    proof {
        lemma_fundamental_div_mod(e as int, 86400);
        lemma_mod_multiples_basic(e as int / 86400, 86400);
    }
    e - e % 86400
}

/// Builds the autostart entry that registers the daemon with the
/// desktop environment: the template's `%PATH%` placeholder replaced by
/// the executable's path.  Writing the file is its caller's task.
pub fn add_to_autostart(template: &str, executable_path: &str) -> (r: String)
    ensures
        r@ == spec_replace(template@, "%PATH%"@, executable_path@),
{
    replace_all(template, "%PATH%", executable_path)
}

} // verus!
