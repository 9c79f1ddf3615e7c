//! The aggregation pass: from a chronologically ordered run of log
//! entries to one decay-smoothed series and one cumulative time impact
//! per category.
//!
//! The pass is specified as a state machine over mathematical views
//! (`agg_step` / `agg_run`); the executable `aggregate` is proved to
//! return exactly the run's outcome, sorted by ascending time impact.
use vstd::prelude::*;
use vstd::string::StringExecFns;
use crate::entry::LogEntry;
use crate::entry::LogEntryView;
use crate::entry::entry_views;
use crate::error::CoreError;
use crate::weights::WEIGHT_ONE;
use crate::weights::decay;
use crate::weights::decay_value;
use crate::weights::ema;
use crate::weights::lemma_decay_bounds;
use crate::weights::lemma_decay_value_bounds;
use crate::weights::lemma_ema_bounds;
use crate::weights::spec_decay;
use crate::weights::spec_decay_value;
use crate::weights::spec_ema;

verus! {

/// Presentation settings of one category, as configured.
#[derive(Debug, Clone)]
pub struct CategoryRule {
    /// The category this rule speaks about.
    pub name: String,
    /// A hidden category is never admitted to the chart.
    pub hide: bool,
    /// The color token handed to the renderer.
    pub color: String,
}

/// The mathematical shape of a `CategoryRule`.
pub struct CategoryRuleView {
    pub name: Seq<char>,
    pub hide: bool,
    pub color: Seq<char>,
}

impl View for CategoryRule {
    type V = CategoryRuleView;

    open spec fn view(&self) -> CategoryRuleView {
        CategoryRuleView { name: self.name@, hide: self.hide, color: self.color@ }
    }
}

/// What one aggregation pass needs from the configuration.
#[derive(Debug)]
pub struct AggConfig {
    /// The sampling interval, in seconds.
    pub sleep_seconds: u64,
    /// The positive magnitude of the smoothing divisor: an elapsed time
    /// of `smoothing` seconds decays a weight to (about) one half.
    pub smoothing: u64,
    /// Per-category presentation rules.
    pub rules: Vec<CategoryRule>,
}

/// The mathematical shape of an `AggConfig`.
pub struct AggConfigView {
    pub sleep_seconds: u64,
    pub smoothing: u64,
    pub rules: Seq<CategoryRuleView>,
}

/// The views of a run of rules.
pub open spec fn rule_views(s: Seq<CategoryRule>) -> Seq<CategoryRuleView> {
    s.map_values(|r: CategoryRule| r@)
}

impl View for AggConfig {
    type V = AggConfigView;

    open spec fn view(&self) -> AggConfigView {
        AggConfigView {
            sleep_seconds: self.sleep_seconds,
            smoothing: self.smoothing,
            rules: rule_views(self.rules@),
        }
    }
}

impl AggConfig {
    /// Both divisors of the pass must be positive; zero would stall the
    /// gap synthesis or divide the decay exponent by zero.
    pub open spec fn wf(&self) -> bool {
        self.sleep_seconds >= 1 && self.smoothing >= 1
    }

    /// Validates the configured intervals; a zero sampling interval or
    /// a zero smoothing divisor is rejected rather than defaulted.
    pub fn new(sleep_seconds: u64, smoothing: u64, rules: Vec<CategoryRule>) -> (r: Result<
        AggConfig,
        CoreError,
    >)
        ensures
            r matches Ok(c) ==> c.wf() && c.sleep_seconds == sleep_seconds && c.smoothing
                == smoothing && c@.rules == rule_views(rules@),
            r is Err <==> sleep_seconds == 0 || smoothing == 0,
            r matches Err(e) ==> e is InvalidConfig,
    {
        if sleep_seconds == 0 || smoothing == 0 {
            Err(CoreError::InvalidConfig)
        } else {
            Ok(AggConfig { sleep_seconds, smoothing, rules })
        }
    }
}

/// The aggregation state of one category.
#[derive(Debug, Clone, PartialEq)]
pub struct CategoryData {
    /// The category's stable key.
    pub name: String,
    /// The color token taken from its rule, or `black`.
    pub color: String,
    /// Seconds attributed to this category within the pass so far.
    pub time_impact: u64,
    /// The smoothed series: `(epoch seconds, fixed-point weight)`,
    /// non-decreasing in time.
    pub series: Vec<(u64, u32)>,
}

/// The mathematical shape of a `CategoryData`.
pub struct CategoryDataView {
    pub name: Seq<char>,
    pub color: Seq<char>,
    pub time_impact: u64,
    pub series: Seq<(u64, u32)>,
}

impl View for CategoryData {
    type V = CategoryDataView;

    open spec fn view(&self) -> CategoryDataView {
        CategoryDataView {
            name: self.name@,
            color: self.color@,
            time_impact: self.time_impact,
            series: self.series@,
        }
    }
}

/// The views of a run of categories.
pub open spec fn cat_views(s: Seq<CategoryData>) -> Seq<CategoryDataView> {
    s.map_values(|c: CategoryData| c@)
}

/// The index of the first rule for `name` at or after `from`, or `-1`.
pub open spec fn find_rule_idx(rules: Seq<CategoryRuleView>, name: Seq<char>, from: int) -> int
    decreases rules.len() - from,
{
    if from < 0 || from >= rules.len() {
        -1
    } else if rules[from].name == name {
        from
    } else {
        find_rule_idx(rules, name, from + 1)
    }
}

/// The index of the category `name` at or after `from`, or `-1`.
pub open spec fn find_cat_idx(cats: Seq<CategoryDataView>, name: Seq<char>, from: int) -> int
    decreases cats.len() - from,
{
    if from < 0 || from >= cats.len() {
        -1
    } else if cats[from].name == name {
        from
    } else {
        find_cat_idx(cats, name, from + 1)
    }
}

/// A category stays off the chart when its rule says `hide` or when it
/// is the sentinel `skip`, which marks observations excluded from
/// aggregation.
pub open spec fn spec_hidden(cfg: AggConfigView, name: Seq<char>) -> bool {
    ||| name == "skip"@
    ||| {
        let i = find_rule_idx(cfg.rules, name, 0);
        i >= 0 && cfg.rules[i].hide
    }
}

/// The configured color of a category, or `black`.
pub open spec fn spec_color_of(cfg: AggConfigView, name: Seq<char>) -> Seq<char> {
    let i = find_rule_idx(cfg.rules, name, 0);
    if i >= 0 {
        cfg.rules[i].color
    } else {
        "black"@
    }
}

/// First rule for `name`, as executable code.
fn find_rule_exec(rules: &Vec<CategoryRule>, name: &String) -> (r: Option<usize>)
    ensures
        r is None ==> find_rule_idx(rule_views(rules@), name@, 0) == -1,
        r matches Some(i) ==> find_rule_idx(rule_views(rules@), name@, 0) == i && i < rules@.len(),
{
    let mut i: usize = 0;
    while i < rules.len()
        invariant
            i <= rules@.len(),
            find_rule_idx(rule_views(rules@), name@, 0) == find_rule_idx(
                rule_views(rules@),
                name@,
                i as int,
            ),
        decreases rules@.len() - i,
    {
        proof {
            assert(rule_views(rules@)[i as int] == rules@[i as int]@);
        }
        if rules[i].name == *name {
            return Some(i);
        }
        i = i + 1;
    }
    None
}

/// Whether `name` is kept off the chart, as executable code.
fn hidden_exec(cfg: &AggConfig, name: &String) -> (r: bool)
    ensures
        r == spec_hidden(cfg@, name@),
{
    let skip = String::from_str("skip");
    if *name == skip {
        return true;
    }
    match find_rule_exec(&cfg.rules, name) {
        Some(i) => cfg.rules[i].hide,
        None => false,
    }
}

/// The color for `name`, as executable code.
fn color_of_exec(cfg: &AggConfig, name: &String) -> (r: String)
    ensures
        r@ == spec_color_of(cfg@, name@),
{
    match find_rule_exec(&cfg.rules, name) {
        Some(i) => cfg.rules[i].color.clone(),
        None => String::from_str("black"),
    }
}

/// First category named `name`, as executable code.
fn find_cat_exec(cats: &Vec<CategoryData>, name: &String) -> (r: Option<usize>)
    ensures
        r is None ==> find_cat_idx(cat_views(cats@), name@, 0) == -1,
        r matches Some(i) ==> find_cat_idx(cat_views(cats@), name@, 0) == i && i < cats@.len(),
{
    let mut i: usize = 0;
    while i < cats.len()
        invariant
            i <= cats@.len(),
            find_cat_idx(cat_views(cats@), name@, 0) == find_cat_idx(
                cat_views(cats@),
                name@,
                i as int,
            ),
        decreases cats@.len() - i,
    {
        proof {
            assert(cat_views(cats@)[i as int] == cats@[i as int]@);
        }
        if cats[i].name == *name {
            return Some(i);
        }
        i = i + 1;
    }
    None
}

/// The state carried across one aggregation pass: the walked clock and
/// the categories admitted so far, in admission order.
pub struct AggStateView {
    pub last_time: u64,
    pub cats: Seq<CategoryDataView>,
}

/// The most recent weight of a category, zero before its first point.
pub open spec fn last_weight(c: CategoryDataView) -> u32 {
    if c.series.len() == 0 {
        0
    } else {
        c.series.last().1
    }
}

/// Category admission: on first sight of a non-hidden category, append
/// its fresh state.  The very first admitted category starts with an
/// empty series; every later one is seeded with one synthetic zero
/// point at the current clock, so all series share a starting edge.
pub open spec fn spec_admit(st: AggStateView, cfg: AggConfigView, name: Seq<char>) -> AggStateView {
    if find_cat_idx(st.cats, name, 0) >= 0 || spec_hidden(cfg, name) {
        st
    } else {
        let series: Seq<(u64, u32)> = if st.cats.len() == 0 {
            Seq::empty()
        } else {
            seq![(st.last_time, 0u32)]
        };
        AggStateView {
            last_time: st.last_time,
            cats: st.cats.push(
                CategoryDataView {
                    name: name,
                    color: spec_color_of(cfg, name),
                    time_impact: 0,
                    series,
                },
            ),
        }
    }
}

/// One synthetic gap step: every category repeats its last weight,
/// decayed once by the data-absence factor `m`, at time `t`.
pub open spec fn gap_step_cats(cats: Seq<CategoryDataView>, t: u64, m: u32) -> Seq<
    CategoryDataView,
> {
    cats.map_values(
        |c: CategoryDataView|
            CategoryDataView {
                name: c.name,
                color: c.color,
                time_impact: c.time_impact,
                series: c.series.push((t, spec_decay_value(last_weight(c) as int, m as int) as u32)),
            },
    )
}

/// Gap synthesis: while the entry lies more than one sampling interval
/// ahead of the clock, advance the clock by one interval and write one
/// synthetic decayed point per category.
pub open spec fn fill_gaps(
    cats: Seq<CategoryDataView>,
    last_time: u64,
    target: u64,
    sleep: u64,
    m: u32,
) -> (Seq<CategoryDataView>, u64)
    decreases target - last_time,
{
    if sleep >= 1 && target >= last_time && target - last_time > sleep {
        fill_gaps(
            gap_step_cats(cats, (last_time + sleep) as u64, m),
            (last_time + sleep) as u64,
            target,
            sleep,
            m,
        )
    } else {
        (cats, last_time)
    }
}

/// The smoothing step at one entry: every category gets one new point
/// at the entry's time, averaging its indicator (one for the entry's
/// own category, zero otherwise) with its previous weight; the entry's
/// category is additionally charged the elapsed time, capped at one
/// sampling interval.
pub open spec fn weight_step_cats(
    cats: Seq<CategoryDataView>,
    ename: Seq<char>,
    t: u64,
    diff: u64,
    sleep: u64,
    w: u32,
) -> Seq<CategoryDataView> {
    cats.map_values(
        |c: CategoryDataView|
            {
                let latest: u32 = if c.name == ename {
                    WEIGHT_ONE
                } else {
                    0u32
                };
                let prev: u32 = if c.series.len() == 0 {
                    latest
                } else {
                    c.series.last().1
                };
                CategoryDataView {
                    name: c.name,
                    color: c.color,
                    time_impact: if c.name == ename {
                        (c.time_impact + if diff <= sleep {
                            diff
                        } else {
                            sleep
                        }) as u64
                    } else {
                        c.time_impact
                    },
                    series: c.series.push(
                        (t, spec_ema(latest as int, prev as int, w as int) as u32),
                    ),
                }
            },
    )
}

/// One entry of the pass: admission, clamping the clock forward,
/// gap synthesis, then the smoothing step.
pub open spec fn agg_step(st: AggStateView, cfg: AggConfigView, e: LogEntryView) -> AggStateView {
    let st1 = spec_admit(st, cfg, e.category);
    let ts: u64 = if e.epoch_seconds >= st1.last_time {
        e.epoch_seconds
    } else {
        st1.last_time
    };
    let m: u32 = spec_decay(cfg.sleep_seconds as int, cfg.smoothing as int) as u32;
    let filled = fill_gaps(st1.cats, st1.last_time, ts, cfg.sleep_seconds, m);
    let diff: u64 = if ts >= filled.1 {
        (ts - filled.1) as u64
    } else {
        0
    };
    let w: u32 = spec_decay(diff as int, cfg.smoothing as int) as u32;
    AggStateView {
        last_time: ts,
        cats: weight_step_cats(filled.0, e.category, ts, diff, cfg.sleep_seconds, w),
    }
}

/// Before the first entry the clock stands at that entry's time, and no
/// category exists yet.
pub open spec fn agg_init(entries: Seq<LogEntryView>) -> AggStateView {
    AggStateView {
        last_time: if entries.len() == 0 {
            0
        } else {
            entries[0].epoch_seconds
        },
        cats: Seq::empty(),
    }
}

/// The state after the first `i` entries.
pub open spec fn agg_run(cfg: AggConfigView, entries: Seq<LogEntryView>, i: int) -> AggStateView
    decreases i,
{
    if i <= 0 {
        agg_init(entries)
    } else {
        agg_step(agg_run(cfg, entries, i - 1), cfg, entries[i - 1])
    }
}

/// The categories produced by one whole pass, still in admission order.
pub open spec fn spec_aggregate_unsorted(
    entries: Seq<LogEntryView>,
    cfg: AggConfigView,
) -> Seq<CategoryDataView> {
    agg_run(cfg, entries, entries.len() as int).cats
}

/// Every weight of the series is a fraction of one.
pub open spec fn weights_bounded(c: CategoryDataView) -> bool {
    forall|k: int| 0 <= k < c.series.len() ==> (#[trigger] c.series[k]).1 <= WEIGHT_ONE
}

/// What holds of every category state while the clock stands at
/// `last_time` and the pass started at `t0`: weights are fractions of
/// one, and no category has been charged more time than has elapsed.
pub open spec fn cats_wf(cats: Seq<CategoryDataView>, last_time: u64, t0: u64) -> bool {
    forall|i: int|
        0 <= i < cats.len() ==> weights_bounded(#[trigger] cats[i]) && cats[i].time_impact
            <= last_time - t0
}

/// The pass invariant.
pub open spec fn state_wf(st: AggStateView, t0: u64) -> bool {
    t0 <= st.last_time && cats_wf(st.cats, st.last_time, t0)
}

/// `new` carries `old`'s identity and impact, extends its series, and
/// the points it appended fall monotonically.
pub open spec fn extends_decaying(old: CategoryDataView, new: CategoryDataView) -> bool {
    &&& new.name == old.name
    &&& new.color == old.color
    &&& new.time_impact == old.time_impact
    &&& old.series.len() <= new.series.len()
    &&& new.series.take(old.series.len() as int) == old.series
    &&& forall|k: int|
        old.series.len() <= k < new.series.len() && k >= 1 ==> (#[trigger] new.series[k]).1
            <= new.series[k - 1].1
}

/// `extends_decaying` composes.
proof fn lemma_extends_trans(a: CategoryDataView, b: CategoryDataView, c: CategoryDataView)
    requires
        extends_decaying(a, b),
        extends_decaying(b, c),
    ensures
        extends_decaying(a, c),
{
    assert(c.series.take(a.series.len() as int) =~= a.series) by {
        assert(forall|k: int|
            0 <= k < b.series.len() ==> c.series[k] == #[trigger] b.series[k]) by {
            assert(forall|k: int|
                0 <= k < b.series.len() ==> c.series.take(b.series.len() as int)[k]
                    == #[trigger] c.series[k]);
        }
        assert(forall|k: int|
            0 <= k < a.series.len() ==> b.series[k] == #[trigger] a.series[k]) by {
            assert(forall|k: int|
                0 <= k < a.series.len() ==> b.series.take(a.series.len() as int)[k]
                    == #[trigger] b.series[k]);
        }
    }
    assert forall|k: int|
        a.series.len() <= k < c.series.len() && k >= 1 implies (#[trigger] c.series[k]).1
        <= c.series[k - 1].1 by {
        if k < b.series.len() {
            assert(c.series.take(b.series.len() as int)[k] == c.series[k]);
            assert(c.series.take(b.series.len() as int)[k - 1] == c.series[k - 1]);
            assert(c.series[k] == b.series[k] && c.series[k - 1] == b.series[k - 1]);
        }
    }
}

/// What gap synthesis does: it never moves the clock past the target,
/// keeps every category's identity and impact, and appends only
/// monotonically falling weights.
pub proof fn lemma_fill_gaps_props(
    cats: Seq<CategoryDataView>,
    lt: u64,
    target: u64,
    sleep: u64,
    m: u32,
    t0: u64,
)
    requires
        m <= WEIGHT_ONE,
        lt <= target,
        t0 <= lt,
        cats_wf(cats, lt, t0),
    ensures
        ({
            let r = fill_gaps(cats, lt, target, sleep, m);
            &&& lt <= r.1 <= target
            &&& r.0.len() == cats.len()
            &&& cats_wf(r.0, r.1, t0)
            &&& forall|i: int| 0 <= i < cats.len() ==> extends_decaying(cats[i], #[trigger] r.0[i])
        }),
    decreases target - lt,
{
    if sleep >= 1 && target - lt > sleep {
        let t2 = (lt + sleep) as u64;
        let cats1 = gap_step_cats(cats, t2, m);
        assert forall|i: int| 0 <= i < cats.len() implies extends_decaying(
            cats[i],
            #[trigger] cats1[i],
        ) && weights_bounded(cats1[i]) && cats1[i].time_impact <= t2 - t0 by {
            let c = cats[i];
            lemma_decay_value_bounds(last_weight(c) as int, m as int);
            assert(cats1[i].series.take(c.series.len() as int) =~= c.series);
        }
        assert(cats_wf(cats1, t2, t0));
        lemma_fill_gaps_props(cats1, t2, target, sleep, m, t0);
        let r = fill_gaps(cats, lt, target, sleep, m);
        assert forall|i: int| 0 <= i < cats.len() implies extends_decaying(
            cats[i],
            #[trigger] r.0[i],
        ) by {
            lemma_extends_trans(cats[i], cats1[i], r.0[i]);
        }
    } else {
        assert forall|i: int| 0 <= i < cats.len() implies extends_decaying(
            cats[i],
            #[trigger] cats[i],
        ) by {
            assert(cats[i].series.take(cats[i].series.len() as int) =~= cats[i].series);
        }
    }
}

/// What the smoothing step does: one point per category at the entry's
/// time, weights stay fractions of one, identities stay, impacts only
/// grow, and only the entry's own category is charged, by the elapsed
/// time capped at one sampling interval.
pub proof fn lemma_weight_step_props(
    cats: Seq<CategoryDataView>,
    ename: Seq<char>,
    t: u64,
    diff: u64,
    sleep: u64,
    w: u32,
    lt: u64,
    t0: u64,
)
    requires
        w <= WEIGHT_ONE,
        t0 <= lt,
        lt + diff <= u64::MAX,
        cats_wf(cats, lt, t0),
    ensures
        ({
            let r = weight_step_cats(cats, ename, t, diff, sleep, w);
            &&& r.len() == cats.len()
            &&& cats_wf(r, (lt + diff) as u64, t0)
            &&& forall|i: int|
                0 <= i < cats.len() ==> (#[trigger] r[i]).name == cats[i].name && r[i].color
                    == cats[i].color && r[i].time_impact >= cats[i].time_impact && r[i].series
                    == cats[i].series.push((t, r[i].series.last().1))
        }),
{
    let r = weight_step_cats(cats, ename, t, diff, sleep, w);
    assert forall|i: int| 0 <= i < cats.len() implies weights_bounded(#[trigger] r[i])
        && r[i].time_impact <= (lt + diff) - t0 && r[i].name == cats[i].name && r[i].color
        == cats[i].color && r[i].time_impact >= cats[i].time_impact && r[i].series
        == cats[i].series.push((t, r[i].series.last().1)) by {
        let c = cats[i];
        let latest: u32 = if c.name == ename {
            WEIGHT_ONE
        } else {
            0u32
        };
        let prev: u32 = if c.series.len() == 0 {
            latest
        } else {
            c.series.last().1
        };
        lemma_ema_bounds(latest as int, prev as int, w as int);
    }
}

/// One entry preserves the pass invariant; the clock never falls back,
/// categories are only appended, their identities persist, and impacts
/// never shrink.
pub proof fn lemma_agg_step_props(st: AggStateView, cfg: AggConfigView, e: LogEntryView, t0: u64)
    requires
        state_wf(st, t0),
        cfg.sleep_seconds >= 1,
        cfg.smoothing >= 1,
    ensures
        ({
            let st2 = agg_step(st, cfg, e);
            &&& state_wf(st2, t0)
            &&& st.last_time <= st2.last_time
            &&& st.cats.len() <= st2.cats.len()
            &&& forall|i: int|
                0 <= i < st.cats.len() ==> (#[trigger] st2.cats[i]).name == st.cats[i].name
                    && st2.cats[i].time_impact >= st.cats[i].time_impact
        }),
{
    let st1 = spec_admit(st, cfg, e.category);
    assert(state_wf(st1, t0));
    let ts: u64 = if e.epoch_seconds >= st1.last_time {
        e.epoch_seconds
    } else {
        st1.last_time
    };
    lemma_decay_bounds(cfg.sleep_seconds as int, cfg.smoothing as int);
    let m: u32 = spec_decay(cfg.sleep_seconds as int, cfg.smoothing as int) as u32;
    lemma_fill_gaps_props(st1.cats, st1.last_time, ts, cfg.sleep_seconds, m, t0);
    let filled = fill_gaps(st1.cats, st1.last_time, ts, cfg.sleep_seconds, m);
    let diff: u64 = (ts - filled.1) as u64;
    lemma_decay_bounds(diff as int, cfg.smoothing as int);
    let w: u32 = spec_decay(diff as int, cfg.smoothing as int) as u32;
    lemma_weight_step_props(
        filled.0,
        e.category,
        ts,
        diff,
        cfg.sleep_seconds,
        w,
        filled.1,
        t0,
    );
}

/// One gap step keeps the weights bounded and the impacts charged.
proof fn lemma_gap_step_wf(cats: Seq<CategoryDataView>, t2: u64, m: u32, lt: u64, t0: u64)
    requires
        m <= WEIGHT_ONE,
        lt <= t2,
        cats_wf(cats, lt, t0),
    ensures
        cats_wf(gap_step_cats(cats, t2, m), t2, t0),
{
    let r = gap_step_cats(cats, t2, m);
    assert forall|i: int| 0 <= i < r.len() implies weights_bounded(#[trigger] r[i])
        && r[i].time_impact <= t2 - t0 by {
        lemma_decay_value_bounds(last_weight(cats[i]) as int, m as int);
    }
}

/// The pass invariant holds after any prefix of the run.
pub proof fn lemma_agg_run_wf(cfg: AggConfigView, entries: Seq<LogEntryView>, i: int)
    requires
        cfg.sleep_seconds >= 1,
        cfg.smoothing >= 1,
        0 <= i <= entries.len(),
    ensures
        state_wf(agg_run(cfg, entries, i), agg_init(entries).last_time),
    decreases i,
{
    if i > 0 {
        lemma_agg_run_wf(cfg, entries, i - 1);
        lemma_agg_step_props(
            agg_run(cfg, entries, i - 1),
            cfg,
            entries[i - 1],
            agg_init(entries).last_time,
        );
    }
}

/// A copy of a series.
fn clone_points(v: &Vec<(u64, u32)>) -> (r: Vec<(u64, u32)>)
    ensures
        r@ == v@,
{
    let mut r: Vec<(u64, u32)> = Vec::new();
    let mut i: usize = 0;
    while i < v.len()
        invariant
            i <= v@.len(),
            r@ == v@.take(i as int),
        decreases v@.len() - i,
    {
        r.push(v[i]);
        proof {
            assert(r@ =~= v@.take(i as int + 1));
        }
        i = i + 1;
    }
    proof {
        assert(r@ =~= v@);
    }
    r
}

/// The most recent weight of a category, as executable code.
fn last_weight_exec(c: &CategoryData) -> (r: u32)
    ensures
        r == last_weight(c@),
{
    if c.series.len() == 0 {
        0
    } else {
        c.series[c.series.len() - 1].1
    }
}

/// One synthetic gap step over all categories, as executable code.
fn gap_step_exec(cats: &Vec<CategoryData>, t: u64, m: u32) -> (r: Vec<CategoryData>)
    requires
        m <= WEIGHT_ONE,
        forall|i: int|
            0 <= i < cats@.len() ==> weights_bounded(#[trigger] cat_views(cats@)[i]),
    ensures
        cat_views(r@) == gap_step_cats(cat_views(cats@), t, m),
{
    let ghost target = gap_step_cats(cat_views(cats@), t, m);
    let mut out: Vec<CategoryData> = Vec::new();
    let mut j: usize = 0;
    while j < cats.len()
        invariant
            j <= cats@.len(),
            out@.len() == j,
            forall|k: int| 0 <= k < j ==> cat_views(out@)[k] == target[k],
        decreases cats@.len() - j,
    {
        proof {
            assert(cat_views(cats@)[j as int] == cats@[j as int]@);
        }
        let c = &cats[j];
        let lw = last_weight_exec(c);
        let nv = decay_value(lw, m);
        let mut series = clone_points(&c.series);
        series.push((t, nv));
        out.push(
            CategoryData {
                name: c.name.clone(),
                color: c.color.clone(),
                time_impact: c.time_impact,
                series,
            },
        );
        proof {
            assert(cat_views(out@)[j as int] == out@[j as int]@);
            assert(forall|k: int| 0 <= k < j ==> cat_views(out@)[k] == out@[k]@);
        }
        j = j + 1;
    }
    proof {
        assert(cat_views(out@) =~= target);
    }
    out
}

/// The smoothing step over all categories, as executable code.
fn weight_step_exec(
    cats: &Vec<CategoryData>,
    ename: &String,
    t: u64,
    diff: u64,
    sleep: u64,
    w: u32,
) -> (r: Vec<CategoryData>)
    requires
        w <= WEIGHT_ONE,
        forall|i: int|
            0 <= i < cats@.len() ==> weights_bounded(#[trigger] cat_views(cats@)[i]),
        forall|i: int|
            0 <= i < cats@.len() ==> (#[trigger] cat_views(cats@)[i]).time_impact <= u64::MAX
                - diff,
    ensures
        cat_views(r@) == weight_step_cats(cat_views(cats@), ename@, t, diff, sleep, w),
{
    let ghost target = weight_step_cats(cat_views(cats@), ename@, t, diff, sleep, w);
    let mut out: Vec<CategoryData> = Vec::new();
    let mut j: usize = 0;
    while j < cats.len()
        invariant
            j <= cats@.len(),
            out@.len() == j,
            forall|k: int| 0 <= k < j ==> cat_views(out@)[k] == target[k],
        decreases cats@.len() - j,
    {
        proof {
            assert(cat_views(cats@)[j as int] == cats@[j as int]@);
        }
        let c = &cats[j];
        let own = c.name == *ename;
        let latest: u32 = if own {
            WEIGHT_ONE
        } else {
            0
        };
        let prev: u32 = if c.series.len() == 0 {
            latest
        } else {
            c.series[c.series.len() - 1].1
        };
        proof {
            assert(weights_bounded(cat_views(cats@)[j as int]));
            assert(c@.series.len() > 0 ==> c@.series[c@.series.len() - 1].1 <= WEIGHT_ONE);
        }
        let nv = ema(latest, prev, w);
        let step: u64 = if diff <= sleep {
            diff
        } else {
            sleep
        };
        let impact: u64 = if own {
            c.time_impact + step
        } else {
            c.time_impact
        };
        let mut series = clone_points(&c.series);
        series.push((t, nv));
        out.push(
            CategoryData {
                name: c.name.clone(),
                color: c.color.clone(),
                time_impact: impact,
                series,
            },
        );
        proof {
            assert(cat_views(out@)[j as int] == out@[j as int]@);
            assert(forall|k: int| 0 <= k < j ==> cat_views(out@)[k] == out@[k]@);
            assert(cat_views(out@)[j as int] == target[j as int]);
        }
        j = j + 1;
    }
    proof {
        assert(cat_views(out@) =~= target);
    }
    out
}

/// `c` placed into `s` after every category whose impact is not larger:
/// categories of equal impact keep their admission order.
pub open spec fn spec_insert_sorted(c: CategoryDataView, s: Seq<CategoryDataView>) -> Seq<
    CategoryDataView,
>
    decreases s.len(),
{
    if s.len() == 0 {
        seq![c]
    } else if c.time_impact < s[0].time_impact {
        seq![c] + s
    } else {
        seq![s[0]] + spec_insert_sorted(c, s.drop_first())
    }
}

/// The categories ordered by ascending time impact, stably.
pub open spec fn spec_sort_by_impact(s: Seq<CategoryDataView>) -> Seq<CategoryDataView>
    decreases s.len(),
{
    if s.len() == 0 {
        Seq::empty()
    } else {
        spec_insert_sorted(s.last(), spec_sort_by_impact(s.drop_last()))
    }
}

/// Ascending time impact.
pub open spec fn sorted_by_impact(s: Seq<CategoryDataView>) -> bool {
    forall|i: int, j: int|
        0 <= i < j < s.len() ==> (#[trigger] s[i]).time_impact <= (#[trigger] s[j]).time_impact
}

/// Inserting into a sorted run keeps it sorted.
pub proof fn lemma_insert_sorted_sorted(c: CategoryDataView, s: Seq<CategoryDataView>)
    requires
        sorted_by_impact(s),
    ensures
        sorted_by_impact(spec_insert_sorted(c, s)),
        spec_insert_sorted(c, s).len() == s.len() + 1,
    decreases s.len(),
{
    if s.len() > 0 && !(c.time_impact < s[0].time_impact) {
        assert(sorted_by_impact(s.drop_first()));
        lemma_insert_sorted_sorted(c, s.drop_first());
        let r = seq![s[0]] + spec_insert_sorted(c, s.drop_first());
        assert forall|i: int, j: int| 0 <= i < j < r.len() implies (#[trigger] r[i]).time_impact
            <= (#[trigger] r[j]).time_impact by {
            if i > 0 {
                assert(r[i] == spec_insert_sorted(c, s.drop_first())[i - 1]);
                assert(r[j] == spec_insert_sorted(c, s.drop_first())[j - 1]);
            } else {
                assert(r[j] == spec_insert_sorted(c, s.drop_first())[j - 1]);
                lemma_insert_sorted_members(c, s.drop_first(), j - 1);
            }
        }
    }
}

/// Every element of an insertion result is the inserted category or one
/// of the old ones.
pub proof fn lemma_insert_sorted_members(c: CategoryDataView, s: Seq<CategoryDataView>, i: int)
    requires
        sorted_by_impact(s),
        0 <= i < spec_insert_sorted(c, s).len(),
        spec_insert_sorted(c, s).len() == s.len() + 1,
    ensures
        spec_insert_sorted(c, s)[i] == c || exists|j: int|
            0 <= j < s.len() && spec_insert_sorted(c, s)[i] == s[j],
    decreases s.len(),
{
    let r = spec_insert_sorted(c, s);
    if s.len() == 0 {
    } else if c.time_impact < s[0].time_impact {
        if i > 0 {
            assert(r[i] == s[i - 1]);
        }
    } else {
        if i > 0 {
            assert(sorted_by_impact(s.drop_first()));
            lemma_insert_sorted_sorted(c, s.drop_first());
            lemma_insert_sorted_members(c, s.drop_first(), i - 1);
            assert(r[i] == spec_insert_sorted(c, s.drop_first())[i - 1]);
            if spec_insert_sorted(c, s.drop_first())[i - 1] != c {
                let j = choose|j: int|
                    0 <= j < s.drop_first().len() && spec_insert_sorted(c, s.drop_first())[i - 1]
                        == s.drop_first()[j];
                assert(r[i] == s[j + 1]);
            }
        } else {
            assert(r[0] == s[0]);
        }
    }
}

/// The sorted run is sorted, has the same length, and every category in
/// it is one of the pass's categories.
pub proof fn lemma_sort_by_impact_props(s: Seq<CategoryDataView>)
    ensures
        sorted_by_impact(spec_sort_by_impact(s)),
        spec_sort_by_impact(s).len() == s.len(),
        forall|i: int|
            0 <= i < spec_sort_by_impact(s).len() ==> exists|j: int|
                0 <= j < s.len() && #[trigger] spec_sort_by_impact(s)[i] == s[j],
    decreases s.len(),
{
    if s.len() > 0 {
        lemma_sort_by_impact_props(s.drop_last());
        lemma_insert_sorted_sorted(s.last(), spec_sort_by_impact(s.drop_last()));
        assert forall|i: int| 0 <= i < spec_sort_by_impact(s).len() implies exists|j: int|
            0 <= j < s.len() && #[trigger] spec_sort_by_impact(s)[i] == s[j] by {
            lemma_insert_sorted_members(s.last(), spec_sort_by_impact(s.drop_last()), i);
            if spec_sort_by_impact(s)[i] == s.last() {
                assert(spec_sort_by_impact(s)[i] == s[s.len() - 1]);
            } else {
                let j = choose|j: int|
                    0 <= j < spec_sort_by_impact(s.drop_last()).len()
                        && spec_sort_by_impact(s)[i] == spec_sort_by_impact(s.drop_last())[j];
                let j2 = choose|j2: int|
                    0 <= j2 < s.drop_last().len() && spec_sort_by_impact(s.drop_last())[j]
                        == s.drop_last()[j2];
                assert(spec_sort_by_impact(s)[i] == s[j2]);
            }
        }
    }
}

/// Where the insertion point lies, the insertion is one `Seq::insert`.
proof fn lemma_insert_sorted_at(c: CategoryDataView, s: Seq<CategoryDataView>, j: int)
    requires
        0 <= j <= s.len(),
        forall|k: int| 0 <= k < j ==> (#[trigger] s[k]).time_impact <= c.time_impact,
        j < s.len() ==> c.time_impact < s[j].time_impact,
    ensures
        spec_insert_sorted(c, s) == s.insert(j, c),
    decreases j,
{
    if j == 0 {
        if s.len() == 0 {
            assert(spec_insert_sorted(c, s) =~= s.insert(0, c));
        } else {
            assert(spec_insert_sorted(c, s) =~= s.insert(0, c));
        }
    } else {
        assert(s[0].time_impact <= c.time_impact);
        lemma_insert_sorted_at(c, s.drop_first(), j - 1);
        assert(seq![s[0]] + s.drop_first().insert(j - 1, c) =~= s.insert(j, c));
    }
}

/// A deep copy of one category state.
fn clone_cat(c: &CategoryData) -> (r: CategoryData)
    ensures
        r@ == c@,
{
    CategoryData {
        name: c.name.clone(),
        color: c.color.clone(),
        time_impact: c.time_impact,
        series: clone_points(&c.series),
    }
}

/// Inserts `item` behind every held category of no larger impact.
fn insert_sorted_exec(out: &mut Vec<CategoryData>, item: CategoryData)
    requires
        sorted_by_impact(cat_views(old(out)@)),
    ensures
        cat_views(final(out)@) == spec_insert_sorted(item@, cat_views(old(out)@)),
{
    let ghost s = cat_views(old(out)@);
    let mut j: usize = 0;
    while j < out.len() && out[j].time_impact <= item.time_impact
        invariant
            j <= out@.len(),
            out@ == old(out)@,
            forall|k: int| 0 <= k < j ==> (#[trigger] s[k]).time_impact <= item@.time_impact,
        decreases out@.len() - j,
    {
        proof {
            assert(s[j as int] == out@[j as int]@);
        }
        j = j + 1;
    }
    proof {
        assert(j < out@.len() ==> s[j as int] == out@[j as int]@);
        lemma_insert_sorted_at(item@, s, j as int);
    }
    out.insert(j, item);
    proof {
        assert(cat_views(final(out)@) =~= s.insert(j as int, item@));
    }
}

/// The pass's categories ordered by ascending time impact; categories
/// of equal impact keep their admission order.
pub fn sort_by_impact(cats: &Vec<CategoryData>) -> (r: Vec<CategoryData>)
    ensures
        cat_views(r@) == spec_sort_by_impact(cat_views(cats@)),
        sorted_by_impact(cat_views(r@)),
{
    let ghost s = cat_views(cats@);
    let mut out: Vec<CategoryData> = Vec::new();
    proof {
        assert(cat_views(out@) =~= spec_sort_by_impact(s.take(0)));
        assert(s.take(0) =~= Seq::<CategoryDataView>::empty());
    }
    let mut i: usize = 0;
    while i < cats.len()
        invariant
            i <= cats@.len(),
            s == cat_views(cats@),
            cat_views(out@) == spec_sort_by_impact(s.take(i as int)),
            sorted_by_impact(cat_views(out@)),
        decreases cats@.len() - i,
    {
        proof {
            assert(s[i as int] == cats@[i as int]@);
        }
        let item = clone_cat(&cats[i]);
        insert_sorted_exec(&mut out, item);
        proof {
            assert(s.take(i as int + 1).drop_last() =~= s.take(i as int));
            assert(s.take(i as int + 1).last() == s[i as int]);
            lemma_insert_sorted_sorted(s[i as int], spec_sort_by_impact(s.take(i as int)));
        }
        i = i + 1;
    }
    proof {
        assert(s.take(s.len() as int) =~= s);
    }
    out
}

/// One whole aggregation pass, in admission order: exactly the run of
/// the specification state machine over the given entries.
pub fn aggregate_unsorted(entries: &Vec<LogEntry>, cfg: &AggConfig) -> (r: Vec<CategoryData>)
    requires
        cfg.wf(),
    ensures
        cat_views(r@) == spec_aggregate_unsorted(entry_views(entries@), cfg@),
{
    let ghost eviews = entry_views(entries@);
    if entries.len() == 0 {
        let r: Vec<CategoryData> = Vec::new();
        proof {
            assert(cat_views(r@) =~= spec_aggregate_unsorted(eviews, cfg@));
        }
        return r;
    }
    let mut cats: Vec<CategoryData> = Vec::new();
    let mut last_time: u64 = entries[0].epoch_seconds;
    let ghost t0: u64 = agg_init(eviews).last_time;
    proof {
        assert(eviews[0] == entries@[0]@);
    }
    let m = decay(cfg.sleep_seconds, cfg.smoothing);
    proof {
        assert(cat_views(cats@) =~= Seq::<CategoryDataView>::empty());
        assert((AggStateView { last_time, cats: cat_views(cats@) }) == agg_run(cfg@, eviews, 0));
    }
    let mut idx: usize = 0;
    while idx < entries.len()
        invariant
            cfg.wf(),
            0 < entries@.len(),
            idx <= entries@.len(),
            eviews == entry_views(entries@),
            m == spec_decay(cfg.sleep_seconds as int, cfg.smoothing as int),
            m <= WEIGHT_ONE,
            (AggStateView { last_time, cats: cat_views(cats@) }) == agg_run(
                cfg@,
                eviews,
                idx as int,
            ),
            t0 == agg_init(eviews).last_time,
        decreases entries@.len() - idx,
    {
        let ghost st0 = AggStateView { last_time, cats: cat_views(cats@) };
        proof {
            lemma_agg_run_wf(cfg@, eviews, idx as int);
            assert(state_wf(st0, t0));
            assert(eviews[idx as int] == entries@[idx as int]@);
        }
        let e = &entries[idx];
        // Category admission.
        let admit_new = match find_cat_exec(&cats, &e.category) {
            Some(_) => false,
            None => !hidden_exec(cfg, &e.category),
        };
        if admit_new {
            let mut series: Vec<(u64, u32)> = Vec::new();
            if cats.len() > 0 {
                series.push((last_time, 0));
            }
            let color = color_of_exec(cfg, &e.category);
            cats.push(CategoryData { name: e.category.clone(), color, time_impact: 0, series });
        }
        let ghost st1 = spec_admit(st0, cfg@, eviews[idx as int].category);
        proof {
            assert(cat_views(cats@) =~= st1.cats);
            assert(state_wf(st1, t0));
        }
        // Clamp the clock forward.
        let ts = if e.epoch_seconds >= last_time {
            e.epoch_seconds
        } else {
            last_time
        };
        // Gap synthesis.
        while ts - last_time > cfg.sleep_seconds
            invariant
                cfg.wf(),
                m == spec_decay(cfg.sleep_seconds as int, cfg.smoothing as int),
                m <= WEIGHT_ONE,
                t0 <= last_time <= ts,
                cats_wf(cat_views(cats@), last_time, t0),
                fill_gaps(cat_views(cats@), last_time, ts, cfg.sleep_seconds, m) == fill_gaps(
                    st1.cats,
                    st1.last_time,
                    ts,
                    cfg.sleep_seconds,
                    m,
                ),
            decreases ts - last_time,
        {
            let ghost prev_views = cat_views(cats@);
            let ghost prev_lt = last_time;
            last_time = last_time + cfg.sleep_seconds;
            cats = gap_step_exec(&cats, last_time, m);
            proof {
                lemma_gap_step_wf(prev_views, last_time, m, prev_lt, t0);
            }
        }
        let ghost filled = fill_gaps(st1.cats, st1.last_time, ts, cfg.sleep_seconds, m);
        proof {
            assert((cat_views(cats@), last_time) == filled);
        }
        // Smoothing step.
        let diff = ts - last_time;
        let w = decay(diff, cfg.smoothing);
        proof {
            lemma_decay_bounds(diff as int, cfg.smoothing as int);
            assert forall|i: int|
                0 <= i < cats@.len() implies (#[trigger] cat_views(cats@)[i]).time_impact
                <= u64::MAX - diff by {
                assert(cat_views(cats@)[i].time_impact <= last_time - t0);
            }
        }
        cats = weight_step_exec(&cats, &e.category, ts, diff, cfg.sleep_seconds, w);
        last_time = ts;
        idx = idx + 1;
        proof {
            assert(AggStateView { last_time, cats: cat_views(cats@) } == agg_step(
                st0,
                cfg@,
                eviews[idx - 1],
            ));
        }
    }
    cats
}

/// What one aggregation pass returns: the run of the state machine,
/// ordered by ascending time impact.
pub open spec fn spec_aggregate(entries: Seq<LogEntryView>, cfg: AggConfigView) -> Seq<
    CategoryDataView,
> {
    spec_sort_by_impact(spec_aggregate_unsorted(entries, cfg))
}

/// One aggregation pass over a chronologically ordered run of entries:
/// per category a decay-smoothed series and the attributed seconds,
/// ordered by ascending time impact so that the busiest category is
/// drawn last.  A pure function of its inputs.
pub fn aggregate(entries: &Vec<LogEntry>, cfg: &AggConfig) -> (r: Vec<CategoryData>)
    requires
        cfg.wf(),
    ensures
        cat_views(r@) == spec_aggregate(entry_views(entries@), cfg@),
        sorted_by_impact(cat_views(r@)),
{
    let unsorted = aggregate_unsorted(entries, cfg);
    sort_by_impact(&unsorted)
}

/// Aggregation is a pure function of the entry run and the
/// configuration: two passes over the same input yield the same
/// categories, impacts and series.
pub proof fn lemma_aggregate_deterministic(
    entries: Seq<LogEntryView>,
    cfg: AggConfigView,
    r1: Seq<CategoryDataView>,
    r2: Seq<CategoryDataView>,
)
    requires
        r1 == spec_aggregate(entries, cfg),
        r2 == spec_aggregate(entries, cfg),
    ensures
        r1 == r2,
{
}

/// An empty entry run yields no categories and no series.
pub proof fn lemma_aggregate_empty(cfg: AggConfigView)
    ensures
        spec_aggregate(Seq::empty(), cfg) == Seq::<CategoryDataView>::empty(),
{
    assert(spec_aggregate_unsorted(Seq::empty(), cfg) =~= Seq::<CategoryDataView>::empty());
}

/// Every weight the pass produces lies in `[0, WEIGHT_ONE]` — zero to
/// one in fixed point — and no category is charged more time than
/// elapsed between the first entry and the end of the pass.
pub proof fn lemma_aggregate_bounds(entries: Seq<LogEntryView>, cfg: AggConfigView)
    requires
        cfg.sleep_seconds >= 1,
        cfg.smoothing >= 1,
    ensures
        ({
            let cs = spec_aggregate(entries, cfg);
            let elapsed = agg_run(cfg, entries, entries.len() as int).last_time - agg_init(
                entries,
            ).last_time;
            &&& forall|i: int| 0 <= i < cs.len() ==> weights_bounded(#[trigger] cs[i])
            &&& forall|i: int| 0 <= i < cs.len() ==> (#[trigger] cs[i]).time_impact <= elapsed
            &&& entries_sorted(entries) && entries.len() > 0 ==> forall|i: int|
                0 <= i < cs.len() ==> (#[trigger] cs[i]).time_impact <= entries.last().epoch_seconds
                    - entries[0].epoch_seconds
        }),
{
    let unsorted = spec_aggregate_unsorted(entries, cfg);
    let cs = spec_aggregate(entries, cfg);
    let st = agg_run(cfg, entries, entries.len() as int);
    lemma_agg_run_wf(cfg, entries, entries.len() as int);
    lemma_sort_by_impact_props(unsorted);
    assert forall|i: int| 0 <= i < cs.len() implies weights_bounded(#[trigger] cs[i])
        && cs[i].time_impact <= st.last_time - agg_init(entries).last_time by {
        let j = choose|j: int| 0 <= j < unsorted.len() && cs[i] == unsorted[j];
        assert(weights_bounded(st.cats[j]));
    }
    if entries_sorted(entries) && entries.len() > 0 {
        lemma_run_clock(cfg, entries, entries.len() as int);
    }
}

/// Chronologically ordered entries.
pub open spec fn entries_sorted(entries: Seq<LogEntryView>) -> bool {
    forall|i: int, j: int|
        0 <= i < j < entries.len() ==> (#[trigger] entries[i]).epoch_seconds
            <= (#[trigger] entries[j]).epoch_seconds
}

/// On a chronologically ordered run the walked clock ends exactly at
/// the processed prefix's last timestamp: nothing is ever charged
/// beyond the span the entries cover.
pub proof fn lemma_run_clock(cfg: AggConfigView, entries: Seq<LogEntryView>, i: int)
    requires
        entries_sorted(entries),
        0 < i <= entries.len(),
    ensures
        agg_run(cfg, entries, i).last_time == entries[i - 1].epoch_seconds,
    decreases i,
{
    let st = agg_run(cfg, entries, i - 1);
    if i > 1 {
        lemma_run_clock(cfg, entries, i - 1);
        assert(st.last_time == entries[i - 2].epoch_seconds);
        assert(entries[i - 2].epoch_seconds <= entries[i - 1].epoch_seconds);
    } else {
        assert(st == agg_init(entries));
        assert(st.last_time == entries[0].epoch_seconds);
    }
    assert(st.last_time <= entries[i - 1].epoch_seconds);
    assert(agg_run(cfg, entries, i) == agg_step(st, cfg, entries[i - 1]));
    assert(agg_step(st, cfg, entries[i - 1]).last_time == entries[i - 1].epoch_seconds);
}

/// Time impact only grows through a pass: once admitted, a category
/// keeps its place and its impact never shrinks as further entries are
/// processed.
pub proof fn lemma_impact_monotone(
    cfg: AggConfigView,
    entries: Seq<LogEntryView>,
    i1: int,
    i2: int,
)
    requires
        cfg.sleep_seconds >= 1,
        cfg.smoothing >= 1,
        0 <= i1 <= i2 <= entries.len(),
    ensures
        ({
            let c1 = agg_run(cfg, entries, i1).cats;
            let c2 = agg_run(cfg, entries, i2).cats;
            &&& c1.len() <= c2.len()
            &&& forall|j: int|
                0 <= j < c1.len() ==> (#[trigger] c2[j]).name == c1[j].name && c1[j].time_impact
                    <= c2[j].time_impact
        }),
    decreases i2 - i1,
{
    if i1 < i2 {
        lemma_impact_monotone(cfg, entries, i1, i2 - 1);
        lemma_agg_run_wf(cfg, entries, i2 - 1);
        lemma_agg_step_props(
            agg_run(cfg, entries, i2 - 1),
            cfg,
            entries[i2 - 1],
            agg_init(entries).last_time,
        );
    }
}

} // verus!
