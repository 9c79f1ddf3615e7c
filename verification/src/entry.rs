//! One observation of the append-only log: its typed form, the parser
//! that reads it off a log line, and the writer that builds the line the
//! daemon appends.
//!
//! A line is space-delimited: a `YYYY-MM-DD_HH:MM` timestamp token, a
//! category token, and an ignored free-text remainder (the window title).
use vstd::prelude::*;
use vstd::string::StrSliceExecFns;
use crate::date::is_ts_token;
use crate::date::parse_ts_token;
use crate::date::format_timestamp;
use crate::date::ts_token_value;
use crate::error::CoreError;
use crate::chars::str_to_chars;
use crate::chars::chars_to_string;

verus! {

/// The parsed part of one log line.
#[derive(Debug, Clone, PartialEq)]
pub struct LogEntry {
    /// Seconds since the Unix epoch, at minute resolution.
    pub epoch_seconds: u64,
    /// The observed category token (case-sensitive; may be the sentinel
    /// `skip`).
    pub category: String,
}

/// The mathematical shape of a `LogEntry`.
pub struct LogEntryView {
    pub epoch_seconds: u64,
    pub category: Seq<char>,
}

impl View for LogEntry {
    type V = LogEntryView;

    open spec fn view(&self) -> LogEntryView {
        LogEntryView { epoch_seconds: self.epoch_seconds, category: self.category@ }
    }
}

/// The views of a run of entries.
pub open spec fn entry_views(s: Seq<LogEntry>) -> Seq<LogEntryView> {
    s.map_values(|e: LogEntry| e@)
}

/// The position of the first occurrence of `c` in `s` at or after
/// `from`, or `-1` if there is none.
pub open spec fn find_char(s: Seq<char>, c: char, from: int) -> int
    decreases s.len() - from,
{
    if from < 0 || from >= s.len() {
        -1
    } else if s[from] == c {
        from
    } else {
        find_char(s, c, from + 1)
    }
}

/// What `find_char` returns: the first occurrence, or a proof that none
/// exists.
pub proof fn lemma_find_char(s: Seq<char>, c: char, from: int)
    requires
        0 <= from <= s.len(),
    ensures
        ({
            let i = find_char(s, c, from);
            &&& i == -1 ==> forall|j: int| from <= j < s.len() ==> s[j] != c
            &&& i != -1 ==> from <= i < s.len() && s[i] == c && forall|j: int|
                from <= j < i ==> s[j] != c
        }),
    decreases s.len() - from,
{
    if from < s.len() && s[from] != c {
        lemma_find_char(s, c, from + 1);
    }
}

/// If `c` first appears at `i`, then `find_char` returns `i`.
pub proof fn lemma_find_char_is(s: Seq<char>, c: char, from: int, i: int)
    requires
        0 <= from <= i < s.len(),
        s[i] == c,
        forall|j: int| from <= j < i ==> s[j] != c,
    ensures
        find_char(s, c, from) == i,
    decreases i - from,
{
    if from < i {
        lemma_find_char_is(s, c, from + 1, i);
    }
}

/// The entry carried by one log line, if the line has at least a
/// timestamp token and a category token and the timestamp names a real
/// date.  The category is the second space-delimited field; everything
/// after it is ignored.
pub open spec fn spec_parse_line(s: Seq<char>) -> Option<LogEntryView> {
    let i = find_char(s, ' ', 0);
    if i < 0 {
        Option::None
    } else {
        match ts_token_value(s.subrange(0, i)) {
            Option::Some(ts) => {
                let j = find_char(s, ' ', i + 1);
                let cat = if j < 0 {
                    s.subrange(i + 1, s.len() as int)
                } else {
                    s.subrange(i + 1, j)
                };
                Option::Some(LogEntryView { epoch_seconds: ts, category: cat })
            },
            Option::None => Option::None,
        }
    }
}

/// First occurrence of `c` in `s` at or after `from`, as executable
/// code.
pub fn find_char_exec(s: &Vec<char>, c: char, from: usize) -> (r: Option<usize>)
    requires
        from <= s@.len(),
    ensures
        r is None ==> find_char(s@, c, from as int) == -1,
        r matches Some(i) ==> find_char(s@, c, from as int) == i && from <= i < s@.len(),
{
    let mut i: usize = from;
    while i < s.len()
        invariant
            from <= i <= s@.len(),
            find_char(s@, c, from as int) == find_char(s@, c, i as int),
        decreases s@.len() - i,
    {
        if s[i] == c {
            return Some(i);
        }
        i = i + 1;
    }
    None
}

/// Parses one log line.
///
/// Returns `Ok` exactly when the line carries an entry; any other line
/// is reported as a `Format` error naming the line.
pub fn parse_log_line(line: &str) -> (r: Result<LogEntry, CoreError>)
    ensures
        r matches Ok(e) ==> spec_parse_line(line@) == Some(e@),
        r is Err ==> spec_parse_line(line@) is None,
        r matches Err(err) ==> err matches CoreError::Format { line: l } && l@ == line@,
{
    let chars = str_to_chars(line);
    let i = match find_char_exec(&chars, ' ', 0) {
        Some(i) => i,
        None => {
            return Err(CoreError::Format { line: line.to_owned() });
        },
    };
    let ts = match parse_ts_token(&chars, 0, i) {
        Some(ts) => ts,
        None => {
            return Err(CoreError::Format { line: line.to_owned() });
        },
    };
    let cat_end = match find_char_exec(&chars, ' ', i + 1) {
        Some(j) => j,
        None => chars.len(),
    };
    let category = line.substring_char(i + 1, cat_end).to_owned();
    Ok(LogEntry { epoch_seconds: ts, category })
}

/// `s` cut down to its first `n` characters.
pub open spec fn spec_truncate(s: Seq<char>, n: int) -> Seq<char> {
    if s.len() <= n {
        s
    } else {
        s.take(n)
    }
}

/// The window title is capped at this many characters in a log line.
pub const WINDOW_MAX_LENGTH: usize = 200;

/// The first `n` characters of `s`.
pub fn truncate_chars(s: &str, n: usize) -> (r: Vec<char>)
    ensures
        r@ == spec_truncate(s@, n as int),
{
    let chars = str_to_chars(s);
    if chars.len() <= n {
        chars
    } else {
        let mut r: Vec<char> = Vec::new();
        let mut i: usize = 0;
        while i < n
            invariant
                i <= n <= chars@.len(),
                chars@ == s@,
                r@ == s@.take(i as int),
            decreases n - i,
        {
            r.push(chars[i]);
            proof {
                assert(r@ =~= s@.take(i as int + 1));
            }
            i = i + 1;
        }
        r
    }
}

/// Builds the log line for one observation: timestamp, category, then
/// the window title capped at `WINDOW_MAX_LENGTH` characters.  The line
/// is returned without its terminating newline.
///
/// When the category holds no space, the line parses back to the entry
/// it was built from, with the timestamp truncated to the minute.
pub fn format_log_line(epoch: u64, category: &str, window_name: &str) -> (r: String)
    requires
        epoch <= 253402300799,
    ensures
        r@.len() >= 17,
        r@ == r@.subrange(0, 16) + seq![' '] + category@ + seq![' '] + spec_truncate(
            window_name@,
            WINDOW_MAX_LENGTH as int,
        ),
        ts_token_value(r@.subrange(0, 16)) == Some((epoch - (epoch % 60)) as u64),
        (forall|k: int| 0 <= k < category@.len() ==> category@[k] != ' ')
            ==> spec_parse_line(r@) == Some(
            LogEntryView {
                epoch_seconds: (epoch - (epoch % 60)) as u64,
                category: category@,
            },
        ),
{
    let ts = format_timestamp(epoch);
    let mut out: Vec<char> = str_to_chars(ts.as_str());
    let ghost ts_view = ts@;
    out.push(' ');
    let cat_chars = str_to_chars(category);
    let mut ci: usize = 0;
    while ci < cat_chars.len()
        invariant
            ci <= cat_chars@.len(),
            cat_chars@ == category@,
            out@ == ts_view + seq![' '] + category@.take(ci as int),
        decreases cat_chars@.len() - ci,
    {
        out.push(cat_chars[ci]);
        proof {
            assert(out@ =~= ts_view + seq![' '] + category@.take(ci as int + 1));
        }
        ci = ci + 1;
    }
    proof {
        assert(out@ =~= ts_view + seq![' '] + category@);
    }
    out.push(' ');
    let win = truncate_chars(window_name, WINDOW_MAX_LENGTH);
    let mut wi: usize = 0;
    while wi < win.len()
        invariant
            wi <= win@.len(),
            win@ == spec_truncate(window_name@, WINDOW_MAX_LENGTH as int),
            out@ == ts_view + seq![' '] + category@ + seq![' '] + win@.take(wi as int),
        decreases win@.len() - wi,
    {
        out.push(win[wi]);
        proof {
            assert(out@ =~= ts_view + seq![' '] + category@ + seq![' '] + win@.take(
                wi as int + 1,
            ));
        }
        wi = wi + 1;
    }
    proof {
        assert(out@ =~= ts_view + seq![' '] + category@ + seq![' '] + win@);
        assert(out@.subrange(0, 16) =~= ts_view);
        lemma_format_parses(out@, ts_view, category@, win@);
    }
    chars_to_string(&out)
}

/// A well-shaped log line parses back to the entry it encodes, as long
/// as the category token holds no space.
proof fn lemma_format_parses(line: Seq<char>, ts: Seq<char>, cat: Seq<char>, rest: Seq<char>)
    requires
        line == ts + seq![' '] + cat + seq![' '] + rest,
        is_ts_token(ts),
        ts_token_value(ts) is Some,
    ensures
        (forall|k: int| 0 <= k < cat.len() ==> cat[k] != ' ') ==> spec_parse_line(line)
            == Some(
            LogEntryView { epoch_seconds: ts_token_value(ts)->Some_0, category: cat },
        ),
{
    if forall|k: int| 0 <= k < cat.len() ==> cat[k] != ' ' {
        assert(line.len() == ts.len() + 1 + cat.len() + 1 + rest.len());
        assert(forall|j: int| 0 <= j < 16 ==> line[j] == ts[j]);
        assert(forall|j: int| 0 <= j < 16 ==> line[j] != ' ') by {
            assert(forall|j: int| 0 <= j < 16 ==> crate::date::is_digit(ts[j]) ==> ts[j] != ' ');
        }
        assert(line[16] == ' ');
        lemma_find_char_is(line, ' ', 0, 16);
        assert(line.subrange(0, 16) =~= ts);
        let j = find_char(line, ' ', 17);
        assert(forall|k: int| 17 <= k < 17 + cat.len() ==> line[k] == cat[k - 17]);
        assert(line[17 + cat.len() as int] == ' ');
        lemma_find_char_is(line, ' ', 17, 17 + cat.len() as int);
        assert(line.subrange(17, 17 + cat.len() as int) =~= cat);
    }
}

/// Whether an observation with the given idle time is recorded at all:
/// after three minutes without input the sample is dropped rather than
/// logged.
pub fn should_log(idle_seconds: u32) -> (r: bool)
    ensures
        r == (idle_seconds <= 180),
{
    idle_seconds <= 180
}

} // verus!
