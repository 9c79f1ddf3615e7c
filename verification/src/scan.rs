//! The log store's bounded backward scan: given the log text and a
//! cutoff, return the entries at or after the cutoff without inspecting
//! the old bulk of the log.
//!
//! The scan probes the text at successive stride offsets, skipping to
//! the next line boundary and parsing one line per probe, until a probe
//! yields a line at or after the cutoff (or the end); it then backs up
//! one stride and reads forward line by line.  For a well-formed log in
//! non-decreasing timestamp order the result is proved identical to a
//! full linear scan, for every text size and every stride.
use vstd::prelude::*;
use vstd::string::StrSliceExecFns;
use crate::chars::str_to_chars;
use crate::entry::LogEntry;
use crate::entry::LogEntryView;
use crate::entry::entry_views;
use crate::entry::find_char;
use crate::entry::find_char_exec;
use crate::entry::lemma_find_char;
use crate::entry::lemma_find_char_is;
use crate::entry::parse_log_line;
use crate::entry::spec_parse_line;
use crate::error::CoreError;

verus! {

/// The stride of the probe phase, in characters.
pub const FILE_SEEK: usize = 100000;

/// The log text split at newlines; a trailing newline ends the last
/// line rather than opening an empty one.
pub open spec fn spec_lines(s: Seq<char>, from: int) -> Seq<Seq<char>>
    decreases s.len() - from,
{
    if from < 0 || from >= s.len() {
        Seq::empty()
    } else {
        let e = find_char(s, '\n', from);
        if from <= e && e < s.len() {
            seq![s.subrange(from, e)] + spec_lines(s, e + 1)
        } else {
            seq![s.subrange(from, s.len() as int)]
        }
    }
}

/// A line that carries an entry.
pub open spec fn line_ok(l: Seq<char>) -> bool {
    spec_parse_line(l) is Some
}

/// The timestamp of a parseable line.
pub open spec fn line_ts(l: Seq<char>) -> u64 {
    spec_parse_line(l)->Some_0.epoch_seconds
}

/// Every line of the log carries an entry.
pub open spec fn well_formed_log(s: Seq<char>) -> bool {
    forall|i: int|
        0 <= i < spec_lines(s, 0).len() ==> line_ok(#[trigger] spec_lines(s, 0)[i])
}

/// The parseable lines of the log stand in non-decreasing timestamp
/// order.
pub open spec fn log_sorted(s: Seq<char>) -> bool {
    forall|i: int, j: int|
        0 <= i < j < spec_lines(s, 0).len() && line_ok(#[trigger] spec_lines(s, 0)[i]) && line_ok(
            #[trigger] spec_lines(s, 0)[j],
        ) ==> line_ts(spec_lines(s, 0)[i]) <= line_ts(spec_lines(s, 0)[j])
}

/// What one line contributes to the result: its entry, if it parses and
/// lies at or after the cutoff.
pub open spec fn line_contribution(l: Seq<char>, min_time: u64) -> Seq<LogEntryView> {
    match spec_parse_line(l) {
        Option::Some(e) => if e.epoch_seconds >= min_time {
            seq![e]
        } else {
            Seq::empty()
        },
        Option::None => Seq::empty(),
    }
}

/// The entries contributed by the lines `[a, b)`, in order.
pub open spec fn entries_between(lines: Seq<Seq<char>>, a: int, b: int, min_time: u64) -> Seq<
    LogEntryView,
>
    decreases b - a,
{
    if a < 0 || a >= b {
        Seq::empty()
    } else {
        line_contribution(lines[a], min_time) + entries_between(lines, a + 1, b, min_time)
    }
}

/// What a full linear scan of the log returns: every entry at or after
/// the cutoff, in log order.
pub open spec fn spec_tail_entries(s: Seq<char>, min_time: u64) -> Seq<LogEntryView> {
    entries_between(spec_lines(s, 0), 0, spec_lines(s, 0).len() as int, min_time)
}

/// Extending the scanned range by one line appends its contribution.
proof fn lemma_entries_snoc(lines: Seq<Seq<char>>, a: int, b: int, min_time: u64)
    requires
        0 <= a <= b < lines.len(),
    ensures
        entries_between(lines, a, b + 1, min_time) == entries_between(lines, a, b, min_time)
            + line_contribution(lines[b], min_time),
    decreases b - a,
{
    if a < b {
        lemma_entries_snoc(lines, a + 1, b, min_time);
        assert(entries_between(lines, a, b + 1, min_time) =~= entries_between(
            lines,
            a,
            b,
            min_time,
        ) + line_contribution(lines[b], min_time));
    } else {
        assert(entries_between(lines, a + 1, a + 1, min_time) =~= Seq::<LogEntryView>::empty());
        assert(entries_between(lines, a, a, min_time) =~= Seq::<LogEntryView>::empty());
        assert(entries_between(lines, a, a + 1, min_time) =~= entries_between(
            lines,
            a,
            a,
            min_time,
        ) + line_contribution(lines[a], min_time));
    }
}

/// Lines wholly before the cutoff contribute nothing, so the scan may
/// start past them.
proof fn lemma_entries_drop_prefix(lines: Seq<Seq<char>>, a: int, k: int, n: int, min_time: u64)
    requires
        0 <= a <= k <= n <= lines.len(),
        forall|j: int|
            a <= j < k ==> (line_ok(#[trigger] lines[j]) ==> line_ts(lines[j]) < min_time),
    ensures
        entries_between(lines, a, n, min_time) == entries_between(lines, k, n, min_time),
    decreases k - a,
{
    if a < k {
        assert(line_contribution(lines[a], min_time) =~= Seq::<LogEntryView>::empty());
        lemma_entries_drop_prefix(lines, a + 1, k, n, min_time);
        assert(entries_between(lines, a, n, min_time) =~= entries_between(
            lines,
            a + 1,
            n,
            min_time,
        ));
    }
}

/// The position after the line containing `p`: one past the next
/// newline, or the end of the text.
pub open spec fn line_skip(s: Seq<char>, p: int) -> int {
    let e = find_char(s, '\n', p);
    if e >= 0 {
        e + 1
    } else {
        s.len() as int
    }
}

/// Resuming at the line boundary after any position `p` drops a whole
/// number of lines: the lines from there are a suffix of all lines.
proof fn lemma_skip_suffix(s: Seq<char>, from: int, p: int) -> (k: int)
    requires
        0 <= from <= p <= s.len(),
        from == 0 || s[from - 1] == '\n',
    ensures
        0 <= k <= spec_lines(s, from).len(),
        from <= line_skip(s, p) <= s.len(),
        spec_lines(s, line_skip(s, p)) == spec_lines(s, from).skip(k),
    decreases p - from,
{
    lemma_find_char(s, '\n', p);
    lemma_find_char(s, '\n', from);
    let e = find_char(s, '\n', from);
    if from >= s.len() {
        assert(find_char(s, '\n', p) == -1);
        assert(spec_lines(s, line_skip(s, p)) =~= spec_lines(s, from).skip(0));
        0
    } else if e == -1 {
        assert(find_char(s, '\n', p) == -1) by {
            if find_char(s, '\n', p) != -1 {
                let i = find_char(s, '\n', p);
                assert(s[i] == '\n');
            }
        }
        assert(spec_lines(s, from) =~= seq![s.subrange(from, s.len() as int)]);
        assert(spec_lines(s, line_skip(s, p)) =~= spec_lines(s, from).skip(1));
        1
    } else if p <= e {
        assert(find_char(s, '\n', p) == e) by {
            lemma_find_char_is(s, '\n', p, e);
        }
        assert(spec_lines(s, from) == seq![s.subrange(from, e)] + spec_lines(s, e + 1));
        assert(spec_lines(s, line_skip(s, p)) =~= spec_lines(s, from).skip(1));
        1
    } else {
        let k2 = lemma_skip_suffix(s, e + 1, p);
        assert(spec_lines(s, from) == seq![s.subrange(from, e)] + spec_lines(s, e + 1));
        assert(spec_lines(s, line_skip(s, p)) =~= spec_lines(s, from).skip(k2 + 1));
        k2 + 1
    }
}

/// A log whose final line is still being written: it lacks its
/// terminating newline (and may be unparsable), while every earlier
/// line carries an entry.
pub open spec fn well_formed_except_trailing(s: Seq<char>) -> bool {
    &&& s.len() > 0 ==> s.last() != '\n'
    &&& forall|i: int|
        0 <= i < spec_lines(s, 0).len() - 1 ==> line_ok(#[trigger] spec_lines(s, 0)[i])
}

/// A probe at `p` found, after skipping to the line boundary, a line
/// whose timestamp lies before the cutoff.
pub open spec fn probe_before_cutoff(s: Seq<char>, p: int, min_time: u64) -> bool {
    let b = line_skip(s, p);
    &&& b < s.len()
    &&& spec_lines(s, b).len() > 0
    &&& line_ok(spec_lines(s, b)[0])
    &&& line_ts(spec_lines(s, b)[0]) < min_time
}

/// The suffix of log entries younger than the cutoff, by bounded
/// backward seek.
///
/// For a log in non-decreasing timestamp order, whenever the scan
/// succeeds it returns exactly what a full linear scan returns: the
/// entries with `timestamp >= min_time`, in order — for any text and
/// any stride; and it does succeed when every line parses, also when
/// only the final line is broken and still lacks its newline (a write
/// caught in progress), which is dropped rather than reported.
/// Whatever the input, every returned entry lies at or after the
/// cutoff, and a reported error names an unparsable line of the text.
pub fn tail_entries(log: &str, min_time: u64, stride: usize) -> (r: Result<
    Vec<LogEntry>,
    CoreError,
>)
    requires
        stride >= 1,
    ensures
        log_sorted(log@) && r is Ok ==> entry_views(r->Ok_0@) == spec_tail_entries(
            log@,
            min_time,
        ),
        well_formed_log(log@) && log_sorted(log@) ==> r is Ok,
        well_formed_except_trailing(log@) && log_sorted(log@) ==> r is Ok,
        r matches Ok(es) ==> forall|i: int|
            0 <= i < es@.len() ==> (#[trigger] entry_views(es@)[i]).epoch_seconds >= min_time,
        r matches Err(e) ==> e matches CoreError::Format { line } && !line_ok(line@) && exists|
            i: int,
        |
            0 <= i < spec_lines(log@, 0).len() && #[trigger] spec_lines(log@, 0)[i] == line@,
{
    let ghost s = log@;
    let ghost lines = spec_lines(s, 0);
    let chars = str_to_chars(log);
    let n = chars.len();
    // Probe phase: advance by one stride while the probed line is still
    // older than the cutoff.
    let mut pos: usize = 0;
    loop
        invariant
            stride >= 1,
            chars@ == s,
            n == s.len(),
            pos <= n,
            pos == 0 || probe_before_cutoff(s, pos as int, min_time),
        decreases n - pos,
    {
        if n - pos <= stride {
            break;
        }
        let pos2 = pos + stride;
        let b = match find_char_exec(&chars, '\n', pos2) {
            Some(e) => e + 1,
            None => {
                break;
            },
        };
        if b >= n {
            break;
        }
        let end = match find_char_exec(&chars, '\n', b) {
            Some(e) => e,
            None => n,
        };
        let line = log.substring_char(b, end);
        proof {
            lemma_find_char(s, '\n', pos2 as int);
            lemma_find_char(s, '\n', b as int);
            assert(spec_lines(s, b as int)[0] == line@);
        }
        match parse_log_line(line) {
            Ok(e) => {
                if e.epoch_seconds >= min_time {
                    break;
                }
            },
            Err(_) => {
                break;
            },
        }
        pos = pos2;
        proof {
            assert(line_skip(s, pos as int) == b);
        }
    }
    // Back up one stride (to the last probe that was still before the
    // cutoff) and read forward from its line boundary.
    let mut cur: usize;
    let ghost mut k: int = 0;
    if pos == 0 {
        cur = 0;
        proof {
            assert(spec_lines(s, 0) =~= lines.skip(0));
        }
    } else {
        cur = match find_char_exec(&chars, '\n', pos) {
            Some(e) => e + 1,
            None => n,
        };
        proof {
            lemma_find_char(s, '\n', pos as int);
            k = lemma_skip_suffix(s, 0, pos as int);
            assert(cur as int == line_skip(s, pos as int));
            assert(k < lines.len() && spec_lines(s, cur as int)[0] == lines[k]);
            assert(line_ok(lines[k]) && line_ts(lines[k]) < min_time);
        }
    }
    let ghost k0 = k;
    let mut out: Vec<LogEntry> = Vec::new();
    proof {
        assert(entry_views(out@) =~= entries_between(lines, k0, k, min_time));
    }
    // Forward phase: read line by line to the end.
    while cur < n
        invariant
            chars@ == s,
            n == s.len(),
            cur <= n,
            lines == spec_lines(s, 0),
            0 <= k0 <= k <= lines.len(),
            spec_lines(s, cur as int) == lines.skip(k),
            entry_views(out@) == entries_between(lines, k0, k, min_time),
            forall|i: int|
                0 <= i < out@.len() ==> (#[trigger] entry_views(out@)[i]).epoch_seconds
                    >= min_time,
            k0 == 0 || (0 <= k0 < lines.len() && line_ok(lines[k0]) && line_ts(lines[k0])
                < min_time),
        decreases n - cur,
    {
        proof {
            assert(lines.skip(k).len() > 0);
            assert(lines.skip(k)[0] == lines[k]);
        }
        let end = match find_char_exec(&chars, '\n', cur) {
            Some(e) => e,
            None => n,
        };
        let line = log.substring_char(cur, end);
        proof {
            lemma_find_char(s, '\n', cur as int);
            assert(lines[k] == line@);
        }
        let next: usize = if end >= n {
            n
        } else {
            end + 1
        };
        match parse_log_line(line) {
            Ok(entry) => {
                if entry.epoch_seconds >= min_time {
                    let ghost prev = out@;
                    out.push(entry);
                    proof {
                        assert(entry_views(out@) =~= entry_views(prev).push(entry@));
                    }
                }
            },
            Err(err) => {
                if end < n && out.len() > 0 {
                    proof {
                        assert(!line_ok(lines[k]));
                        assert(spec_lines(s, 0)[k] == lines[k]);
                        // A complete line failed to parse: neither
                        // well-formedness assumption survives this, so
                        // the success clauses hold vacuously.
                        if well_formed_except_trailing(s) {
                            assert(s[end as int] == '\n');
                            assert(end < n - 1);
                            assert(spec_lines(s, cur as int) == seq![
                                s.subrange(cur as int, end as int),
                            ] + spec_lines(s, end + 1));
                            assert(spec_lines(s, end + 1).len() >= 1);
                            assert(k < lines.len() - 1);
                            assert(false);
                        }
                    }
                    return Err(err);
                }
                proof {
                    if end >= n {
                    } else {
                        // An unparsable line before any emitted entry:
                        // it lies before the retained window.
                        assert(!line_ok(lines[k]));
                    }
                }
            },
        }
        proof {
            lemma_entries_snoc(lines, k0, k, min_time);
            if end < n {
                assert(spec_lines(s, cur as int) == seq![s.subrange(cur as int, end as int)]
                    + spec_lines(s, end + 1));
                assert forall|i: int| 0 <= i < spec_lines(s, next as int).len() implies spec_lines(
                    s,
                    next as int,
                )[i] == lines.skip(k + 1)[i] by {
                    assert(spec_lines(s, cur as int)[i + 1] == spec_lines(s, next as int)[i]);
                    assert(lines.skip(k)[i + 1] == lines[k + 1 + i]);
                    assert(lines.skip(k + 1)[i] == lines[k + 1 + i]);
                }
                assert(spec_lines(s, next as int).len() == lines.skip(k + 1).len());
            } else {
                assert(spec_lines(s, cur as int) == seq![s.subrange(cur as int, n as int)]);
                assert(spec_lines(s, next as int) =~= Seq::<Seq<char>>::empty());
            }
            assert(spec_lines(s, next as int) =~= lines.skip(k + 1));
            assert(entry_views(out@) =~= entries_between(lines, k0, k + 1, min_time));
            k = k + 1;
        }
        cur = next;
    }
    proof {
        assert(lines.skip(k).len() == 0);
        assert(k == lines.len());
        if log_sorted(s) {
            assert forall|j: int| 0 <= j < k0 && line_ok(#[trigger] lines[j]) implies line_ts(
                lines[j],
            ) < min_time by {
                assert(spec_lines(s, 0)[j] == lines[j]);
                assert(spec_lines(s, 0)[k0] == lines[k0]);
            }
            lemma_entries_drop_prefix(lines, 0, k0, lines.len() as int, min_time);
        }
    }
    Ok(out)
}

} // verus!
