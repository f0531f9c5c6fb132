//! The charts of the flow of work as text.
use chrono::TimeZone;
use vstd::prelude::*;
use vstd::string::StringExecFns;
use crate::flow;
use crate::flow::{AgingRow, AgingView, WipRow};
use crate::keyed;
use crate::relation_vocab;
use crate::sorting;
use crate::tally;
use crate::text;

verus! {

// ---- days ---------------------------------------------------------------------------------

/// How a day is written: `YYYY-MM-DD`.
pub const DAY_PATTERN: &'static str = "%Y-%m-%d";

/// An instant in milliseconds as text, in UTC and by a pattern; `None` for an instant that
/// the calendar does not reach.
pub uninterp spec fn utc_text(ts_ms: i64, pattern: Seq<char>) -> Option<Seq<char>>;

/// The day in UTC that an instant falls on.
pub open spec fn utc_day(ts_ms: i64) -> Option<Seq<char>> {
    utc_text(ts_ms, DAY_PATTERN@)
}

/// `TimeZone::timestamp_millis_opt` and `DateTime::format` of `chrono`, for `Utc`: an
/// instant as text. What text that is stands behind the name. Other patterns are left
/// out: with one that it does not know, `format` panics.
#[verifier::external_body]
fn format_utc(ts_ms: i64, pattern: &str) -> (r: Option<String>)
    requires
        pattern@ == DAY_PATTERN@,
    ensures
        relation_vocab::option_view(r) == utc_text(ts_ms, pattern@),
{
    chrono::Utc.timestamp_millis_opt(ts_ms).single().map(|d| d.format(pattern).to_string())
}

/// A day where there is one, and else the instant itself.
pub open spec fn day_label_spec(day: Option<Seq<char>>, ts_ms: i64) -> Seq<char> {
    match day {
        Some(day) => day,
        None => text::decimal_int_spec(ts_ms as int),
    }
}

/// A day where there is one, and else the instant itself.
pub fn day_label(day: Option<String>, ts_ms: i64) -> (r: String)
    ensures
        r@ == day_label_spec(relation_vocab::option_view(day), ts_ms),
{
    match day {
        Some(day) => day,
        None => text::decimal_i64(ts_ms),
    }
}

/// The day that an instant falls on.
pub fn fmt_day(ts_ms: i64) -> (r: String)
    ensures
        r@ == day_label_spec(utc_day(ts_ms), ts_ms),
{
    day_label(format_utc(ts_ms, DAY_PATTERN), ts_ms)
}

// ---- work in progress ---------------------------------------------------------------------------

pub open spec fn limit_spec(limit: Option<u32>) -> Seq<char> {
    match limit {
        Some(l) => text::decimal_spec(l as nat),
        None => "-"@,
    }
}

pub open spec fn breach_spec(breach: bool) -> Seq<char> {
    if breach {
        "  ⚠ BREACH"@
    } else {
        ""@
    }
}

pub open spec fn wip_line(row: WipRow) -> Seq<char> {
    "  "@ + text::pad_right_spec(row.status@, 14) + " "@ + text::pad_left_spec(
        text::decimal_spec(row.count as nat),
        4,
    ) + " / limit "@ + limit_spec(row.limit) + breach_spec(row.breach) + "\n"@
}

/// A text with the lines of the first `n` rows after it.
pub open spec fn with_wip_lines(start: Seq<char>, rows: Seq<WipRow>, n: nat) -> Seq<char>
    decreases n,
{
    if n == 0 {
        start
    } else {
        with_wip_lines(start, rows, (n - 1) as nat) + wip_line(rows[n - 1])
    }
}

pub open spec fn count_spec(entry: (Seq<char>, usize)) -> Seq<char> {
    entry.0 + "="@ + text::decimal_spec(entry.1 as nat)
}

/// Counts as text, with a space between them.
pub open spec fn counts_spec(list: Seq<(Seq<char>, usize)>) -> Seq<char> {
    text::join_spec(Seq::new(list.len(), |i: int| count_spec(list[i])), " "@)
}

pub open spec fn agent_line(entry: (Seq<char>, Seq<(Seq<char>, usize)>)) -> Seq<char> {
    "  "@ + text::pad_right_spec(entry.0, 10) + " "@ + counts_spec(entry.1) + "\n"@
}

pub open spec fn with_agent_lines(
    start: Seq<char>,
    list: Seq<(Seq<char>, Seq<(Seq<char>, usize)>)>,
    n: nat,
) -> Seq<char>
    decreases n,
{
    if n == 0 {
        start
    } else {
        with_agent_lines(start, list, (n - 1) as nat) + agent_line(list[n - 1])
    }
}

/// The chart of the work in progress.
pub open spec fn wip_text(
    rows: Seq<WipRow>,
    per_agent: Seq<(Seq<char>, Seq<(Seq<char>, usize)>)>,
) -> Seq<char> {
    let start =
        "WIP vs limits (voyage/campaign exempt; chore+expedition combined per the type-drift ruling)\n"@;
    with_agent_lines(
        with_wip_lines(start, rows, rows.len()) + "per agent:\n"@,
        per_agent,
        per_agent.len(),
    )
}

fn counts(list: &Vec<(String, usize)>) -> (r: String)
    ensures
        r@ == counts_spec(keyed::pairs(list@)),
{
    let ghost all = keyed::pairs(list@);
    let mut parts: Vec<String> = Vec::new();
    let mut i: usize = 0;
    while i < list.len()
        invariant
            i <= list@.len(),
            all == keyed::pairs(list@),
            parts@.len() == i,
            forall|k: int| 0 <= k < i ==> (#[trigger] parts@[k])@ == count_spec(all[k]),
        decreases list@.len() - i,
    {
        let entry: &(String, usize) = &list[i];
        assert(all[i as int] == (entry.0@, entry.1));
        let mut part: String = entry.0.clone();
        part.append("=");
        let n: String = text::decimal(entry.1);
        part.append(n.as_str());
        parts.push(part);
        i = i + 1;
    }
    assert(text::views(parts@) =~= Seq::new(all.len(), |i: int| count_spec(all[i])));
    text::join(&parts, " ")
}

/// The chart of the work in progress.
pub fn render_wip(rows: &[WipRow], per_agent: &Vec<(String, Vec<(String, usize)>)>) -> (r: String)
    ensures
        r@ == wip_text(rows@, flow::agents_view(per_agent@)),
{
    let mut s: String = text::owned(
        "WIP vs limits (voyage/campaign exempt; chore+expedition combined per the type-drift ruling)\n",
    );
    let ghost start = s@;
    let mut i: usize = 0;
    while i < rows.len()
        invariant
            i <= rows@.len(),
            s@ == with_wip_lines(start, rows@, i as nat),
        decreases rows@.len() - i,
    {
        let row: &WipRow = &rows[i];
        let ghost before = s@;
        let mut line: String = text::owned("  ");
        let status: String = text::pad_right(row.status.as_str(), 14);
        line.append(status.as_str());
        line.append(" ");
        let number: String = text::decimal(row.count);
        let count: String = text::pad_left(number.as_str(), 4);
        line.append(count.as_str());
        line.append(" / limit ");
        let limit: String = match row.limit {
            Some(l) => text::decimal_u64(l as u64),
            None => text::owned("-"),
        };
        line.append(limit.as_str());
        line.append(
            if row.breach {
                "  ⚠ BREACH"
            } else {
                ""
            },
        );
        line.append("\n");
        s.append(line.as_str());
        assert(s@ =~= before + wip_line(rows@[i as int]));
        i = i + 1;
    }
    s.append("per agent:\n");
    let ghost all = flow::agents_view(per_agent@);
    let ghost middle = s@;
    let mut j: usize = 0;
    while j < per_agent.len()
        invariant
            j <= per_agent@.len(),
            all == flow::agents_view(per_agent@),
            s@ == with_agent_lines(middle, all, j as nat),
        decreases per_agent@.len() - j,
    {
        let entry: &(String, Vec<(String, usize)>) = &per_agent[j];
        assert(all[j as int] == (entry.0@, keyed::pairs(entry.1@)));
        let ghost before = s@;
        let mut line: String = text::owned("  ");
        let agent: String = text::pad_right(entry.0.as_str(), 10);
        line.append(agent.as_str());
        line.append(" ");
        let detail: String = counts(&entry.1);
        line.append(detail.as_str());
        line.append("\n");
        s.append(line.as_str());
        assert(s@ =~= before + agent_line(all[j as int]));
        j = j + 1;
    }
    s
}

// ---- aging -----------------------------------------------------------------------------------------

/// A duration in hours, rounded towards zero.
pub open spec fn hours_spec(ms: int) -> int {
    if ms >= 0 {
        ms / 3_600_000
    } else {
        -((-ms) / 3_600_000)
    }
}

fn hours(ms: i64) -> (r: i64)
    ensures
        r == hours_spec(ms as int),
{
    if ms >= 0 {
        ms / 3_600_000
    } else {
        let wide: i128 = -(ms as i128);
        let whole: i128 = wide / 3_600_000;
        -(whole as i64)
    }
}

/// A duration as a number with a unit: days from the second day on, and else hours.
pub open spec fn duration_spec(ms: int) -> (Seq<char>, Seq<char>) {
    let h = hours_spec(ms);
    if h >= 48 {
        (text::decimal_int_spec(h / 24), "d"@)
    } else {
        (text::decimal_int_spec(h), "h"@)
    }
}

pub open spec fn aging_line(row: AgingView) -> Seq<char> {
    "  "@ + text::pad_right_spec(row.id, 10) + " "@ + text::pad_right_spec(row.status, 14) + " "@
        + text::pad_left_spec(duration_spec(row.in_status_ms as int).0, 4) + duration_spec(
        row.in_status_ms as int,
    ).1 + "\n"@
}

pub open spec fn with_aging_lines(start: Seq<char>, rows: Seq<AgingView>, n: nat) -> Seq<char>
    decreases n,
{
    if n == 0 {
        start
    } else {
        with_aging_lines(start, rows, (n - 1) as nat) + aging_line(rows[n - 1])
    }
}

/// The chart of ages.
pub open spec fn aging_text(rows: Seq<AgingView>) -> Seq<char> {
    with_aging_lines(
        "WIP aging (time in CURRENT status, from the runs audit trail)\n"@,
        rows,
        rows.len(),
    ) + if rows.len() == 0 {
        "  (no measurable non-terminal items)\n"@
    } else {
        Seq::empty()
    }
}

/// The chart of ages.
pub fn render_aging(rows: &[AgingRow]) -> (r: String)
    ensures
        r@ == aging_text(flow::aging_views(rows@)),
{
    let ghost all = flow::aging_views(rows@);
    let mut s: String = text::owned(
        "WIP aging (time in CURRENT status, from the runs audit trail)\n",
    );
    let ghost start = s@;
    let mut i: usize = 0;
    while i < rows.len()
        invariant
            i <= rows@.len(),
            all == flow::aging_views(rows@),
            s@ == with_aging_lines(start, all, i as nat),
        decreases rows@.len() - i,
    {
        let row: &AgingRow = &rows[i];
        assert(all[i as int] == row@);
        let ghost before = s@;
        let mut line: String = text::owned("  ");
        let id: String = text::pad_right(row.id.as_str(), 10);
        line.append(id.as_str());
        line.append(" ");
        let status: String = text::pad_right(row.status.as_str(), 14);
        line.append(status.as_str());
        line.append(" ");
        let h: i64 = hours(row.in_status_ms);
        let number: String = if h >= 48 {
            text::decimal_i64(h / 24)
        } else {
            text::decimal_i64(h)
        };
        let padded: String = text::pad_left(number.as_str(), 4);
        line.append(padded.as_str());
        line.append(
            if h >= 48 {
                "d"
            } else {
                "h"
            },
        );
        line.append("\n");
        s.append(line.as_str());
        assert(s@ =~= before + aging_line(all[i as int]));
        i = i + 1;
    }
    let ghost body = s@;
    if rows.len() == 0 {
        s.append("  (no measurable non-terminal items)\n");
    } else {
        assert(s@ =~= body + Seq::<char>::empty());
    }
    s
}

// ---- throughput ---------------------------------------------------------------------------------------

pub open spec fn throughput_line(day: Seq<char>, n: usize) -> Seq<char> {
    "  "@ + day + "  "@ + text::pad_left_spec(text::decimal_spec(n as nat), 4) + "  "@
        + text::repeat_spec(
        '#',
        if n > 60 {
            60
        } else {
            n as nat
        },
    ) + "\n"@
}

pub open spec fn with_throughput_lines(
    start: Seq<char>,
    days: Seq<Seq<char>>,
    buckets: Seq<(i64, usize)>,
    n: nat,
) -> Seq<char>
    decreases n,
{
    if n == 0 {
        start
    } else {
        with_throughput_lines(start, days, buckets, (n - 1) as nat) + throughput_line(
            days[n - 1],
            buckets[n - 1].1,
        )
    }
}

/// The chart of what gets done, with the days of its buckets.
pub open spec fn throughput_text(
    days: Seq<Seq<char>>,
    buckets: Seq<(i64, usize)>,
    bucket_ms: i64,
) -> Seq<char> {
    let unit = if bucket_ms >= 604_800_000 {
        "week"@
    } else {
        "day"@
    };
    with_throughput_lines(
        "throughput (terminal arrivals per "@ + unit + ", chore+expedition combined)\n"@,
        days,
        buckets,
        buckets.len(),
    ) + if buckets.len() == 0 {
        "  (no terminal transitions recorded)\n"@
    } else {
        Seq::empty()
    }
}

/// The labels of instants.
pub open spec fn day_labels(times: Seq<i64>) -> Seq<Seq<char>> {
    Seq::new(times.len(), |i: int| day_label_spec(utc_day(times[i]), times[i]))
}

fn label_days(times: &Vec<i64>) -> (r: Vec<String>)
    ensures
        text::views(r@) == day_labels(times@),
{
    let mut r: Vec<String> = Vec::new();
    let mut i: usize = 0;
    while i < times.len()
        invariant
            i <= times@.len(),
            r@.len() == i,
            forall|k: int|
                0 <= k < i ==> (#[trigger] r@[k])@ == day_label_spec(
                    utc_day(times@[k]),
                    times@[k],
                ),
        decreases times@.len() - i,
    {
        r.push(fmt_day(times[i]));
        i = i + 1;
    }
    assert(text::views(r@) =~= day_labels(times@));
    r
}

/// The chart of what gets done, with the days of its buckets.
pub fn render_throughput_on(days: &Vec<String>, buckets: &[(i64, usize)], bucket_ms: i64) -> (r:
    String)
    requires
        days@.len() == buckets@.len(),
    ensures
        r@ == throughput_text(text::views(days@), buckets@, bucket_ms),
{
    let ghost shown = text::views(days@);
    let mut s: String = text::owned("throughput (terminal arrivals per ");
    s.append(
        if bucket_ms >= 604_800_000 {
            "week"
        } else {
            "day"
        },
    );
    s.append(", chore+expedition combined)\n");
    let ghost start = s@;
    let mut i: usize = 0;
    while i < buckets.len()
        invariant
            i <= buckets@.len(),
            days@.len() == buckets@.len(),
            shown == text::views(days@),
            s@ == with_throughput_lines(start, shown, buckets@, i as nat),
        decreases buckets@.len() - i,
    {
        let ghost before = s@;
        let n: usize = buckets[i].1;
        let mut line: String = text::owned("  ");
        line.append(days[i].as_str());
        line.append("  ");
        let number: String = text::decimal(n);
        let padded: String = text::pad_left(number.as_str(), 4);
        line.append(padded.as_str());
        line.append("  ");
        let bar: String = text::repeat(
            '#',
            if n > 60 {
                60
            } else {
                n
            },
        );
        line.append(bar.as_str());
        line.append("\n");
        s.append(line.as_str());
        assert(shown[i as int] == days@[i as int]@);
        assert(s@ =~= before + throughput_line(shown[i as int], n));
        i = i + 1;
    }
    let ghost body = s@;
    if buckets.len() == 0 {
        s.append("  (no terminal transitions recorded)\n");
    } else {
        assert(s@ =~= body + Seq::<char>::empty());
    }
    s
}

pub open spec fn bucket_times(buckets: Seq<(i64, usize)>) -> Seq<i64> {
    Seq::new(buckets.len(), |i: int| buckets[i].0)
}

/// The chart of what gets done.
pub fn render_throughput(buckets: &[(i64, usize)], bucket_ms: i64) -> (r: String)
    ensures
        r@ == throughput_text(day_labels(bucket_times(buckets@)), buckets@, bucket_ms),
{
    let mut times: Vec<i64> = Vec::new();
    let mut i: usize = 0;
    while i < buckets.len()
        invariant
            i <= buckets@.len(),
            times@.len() == i,
            forall|k: int| 0 <= k < i ==> #[trigger] times@[k] == buckets@[k].0,
        decreases buckets@.len() - i,
    {
        times.push(buckets[i].0);
        i = i + 1;
    }
    assert(times@ =~= bucket_times(buckets@));
    let days: Vec<String> = label_days(&times);
    assert(text::views(days@).len() == buckets@.len());
    render_throughput_on(&days, buckets, bucket_ms)
}

// ---- cumulative flow -------------------------------------------------------------------------------------

/// The statuses in the first `n` entries of a series, as they come.
pub open spec fn named_statuses(series: Seq<(i64, Seq<(Seq<char>, usize)>)>, n: nat) -> Seq<Seq<char>>
    decreases n,
{
    if n == 0 {
        Seq::empty()
    } else {
        named_statuses(series, (n - 1) as nat) + tally::keys(series[n - 1].1)
    }
}

/// Whether a list is the statuses of a series, sorted and each once.
pub open spec fn is_header(
    statuses: Seq<Seq<char>>,
    series: Seq<(i64, Seq<(Seq<char>, usize)>)>,
) -> bool {
    &&& sorting::is_strictly_sorted(statuses)
    &&& forall|s: Seq<char>| #[trigger]
        statuses.contains(s) == named_statuses(series, series.len()).contains(s)
}

/// A text with the names of the first `n` statuses after it.
pub open spec fn with_names(start: Seq<char>, statuses: Seq<Seq<char>>, n: nat) -> Seq<char>
    decreases n,
{
    if n == 0 {
        start
    } else {
        with_names(start, statuses, (n - 1) as nat) + "  "@ + text::pad_left_spec(
            statuses[n - 1],
            12,
        )
    }
}

/// The count of a status, or none.
pub open spec fn count_of(counts: Seq<(Seq<char>, usize)>, status: Seq<char>) -> nat {
    match keyed::lookup_spec(counts, status) {
        Some(n) => n as nat,
        None => 0,
    }
}

/// A text with the counts of the first `n` statuses after it.
pub open spec fn with_counts(
    start: Seq<char>,
    statuses: Seq<Seq<char>>,
    counts: Seq<(Seq<char>, usize)>,
    n: nat,
) -> Seq<char>
    decreases n,
{
    if n == 0 {
        start
    } else {
        with_counts(start, statuses, counts, (n - 1) as nat) + "  "@ + text::pad_left_spec(
            text::decimal_spec(count_of(counts, statuses[n - 1])),
            12,
        )
    }
}

pub open spec fn with_entries(
    start: Seq<char>,
    days: Seq<Seq<char>>,
    statuses: Seq<Seq<char>>,
    series: Seq<(i64, Seq<(Seq<char>, usize)>)>,
    n: nat,
) -> Seq<char>
    decreases n,
{
    if n == 0 {
        start
    } else {
        with_counts(
            with_entries(start, days, statuses, series, (n - 1) as nat) + "  "@ + days[n - 1],
            statuses,
            series[n - 1].1,
            statuses.len(),
        ) + "\n"@
    }
}

/// The chart of the board over time, with the days of its entries and the statuses of
/// its columns.
pub open spec fn flow_text(
    days: Seq<Seq<char>>,
    statuses: Seq<Seq<char>>,
    series: Seq<(i64, Seq<(Seq<char>, usize)>)>,
) -> Seq<char> {
    with_entries(
        with_names(
            "cumulative flow (items per status per bucket)\n  bucket"@,
            statuses,
            statuses.len(),
        ) + "\n"@,
        days,
        statuses,
        series,
        series.len(),
    ) + if series.len() == 0 {
        "  (no transitions in scope)\n"@
    } else {
        Seq::empty()
    }
}

fn header_of(series: &[(i64, Vec<(String, usize)>)]) -> (r: Vec<String>)
    ensures
        is_header(text::views(r@), flow::series_view(series@)),
{
    let ghost view = flow::series_view(series@);
    let mut names: Vec<String> = Vec::new();
    let mut i: usize = 0;
    assert(text::views(names@) =~= named_statuses(view, 0));
    while i < series.len()
        invariant
            i <= series@.len(),
            view == flow::series_view(series@),
            text::views(names@) == named_statuses(view, i as nat),
        decreases series@.len() - i,
    {
        let counts: &Vec<(String, usize)> = &series[i].1;
        let ghost before = text::views(names@);
        let ghost own = tally::keys(keyed::pairs(counts@));
        assert(view[i as int].1 == keyed::pairs(counts@));
        let mut j: usize = 0;
        assert(text::views(names@) =~= before + own.take(0));
        while j < counts.len()
            invariant
                j <= counts@.len(),
                own == tally::keys(keyed::pairs(counts@)),
                text::views(names@) == before + own.take(j as int),
            decreases counts@.len() - j,
        {
            let ghost so_far = text::views(names@);
            names.push(counts[j].0.clone());
            assert(text::views(names@) =~= so_far.push(own[j as int]));
            assert(text::views(names@) =~= before + own.take(j + 1));
            j = j + 1;
        }
        assert(own.take(j as int) =~= own);
        i = i + 1;
    }
    sorting::sort_and_dedup(&names)
}

fn push_counts(s: String, statuses: &Vec<String>, counts: &Vec<(String, usize)>) -> (r: String)
    ensures
        r@ == with_counts(
            s@,
            text::views(statuses@),
            keyed::pairs(counts@),
            statuses@.len(),
        ),
{
    let ghost start = s@;
    let ghost names = text::views(statuses@);
    let ghost all = keyed::pairs(counts@);
    let mut r: String = s;
    let mut i: usize = 0;
    while i < statuses.len()
        invariant
            i <= statuses@.len(),
            names == text::views(statuses@),
            all == keyed::pairs(counts@),
            r@ == with_counts(start, names, all, i as nat),
        decreases statuses@.len() - i,
    {
        assert(names[i as int] == statuses@[i as int]@);
        let n: usize = match keyed::lookup(counts, statuses[i].as_str()) {
            Some(n) => *n,
            None => 0,
        };
        r.append("  ");
        let number: String = text::decimal(n);
        let padded: String = text::pad_left(number.as_str(), 12);
        r.append(padded.as_str());
        i = i + 1;
    }
    r
}

/// The chart of the board over time, with the days of its entries.
pub fn render_cfd_on(days: &Vec<String>, series: &[(i64, Vec<(String, usize)>)]) -> (r: String)
    requires
        days@.len() == series@.len(),
    ensures
        exists|statuses: Seq<Seq<char>>|
            is_header(statuses, flow::series_view(series@)) && r@ == #[trigger] flow_text(
                text::views(days@),
                statuses,
                flow::series_view(series@),
            ),
{
    let ghost view = flow::series_view(series@);
    let ghost shown = text::views(days@);
    let statuses: Vec<String> = header_of(series);
    let ghost names = text::views(statuses@);
    let mut s: String = text::owned("cumulative flow (items per status per bucket)\n  bucket");
    let ghost start = s@;
    let mut i: usize = 0;
    while i < statuses.len()
        invariant
            i <= statuses@.len(),
            names == text::views(statuses@),
            s@ == with_names(start, names, i as nat),
        decreases statuses@.len() - i,
    {
        assert(names[i as int] == statuses@[i as int]@);
        s.append("  ");
        let padded: String = text::pad_left(statuses[i].as_str(), 12);
        s.append(padded.as_str());
        i = i + 1;
    }
    s.append("\n");
    let ghost head = s@;
    let mut j: usize = 0;
    while j < series.len()
        invariant
            j <= series@.len(),
            days@.len() == series@.len(),
            shown == text::views(days@),
            view == flow::series_view(series@),
            names == text::views(statuses@),
            s@ == with_entries(head, shown, names, view, j as nat),
        decreases series@.len() - j,
    {
        assert(shown[j as int] == days@[j as int]@);
        assert(view[j as int].1 == keyed::pairs(series@[j as int].1@));
        s.append("  ");
        s.append(days[j].as_str());
        s = push_counts(s, &statuses, &series[j].1);
        s.append("\n");
        j = j + 1;
    }
    let ghost body = s@;
    if series.len() == 0 {
        s.append("  (no transitions in scope)\n");
    } else {
        assert(s@ =~= body + Seq::<char>::empty());
    }
    assert(s@ == flow_text(shown, names, view));
    s
}

pub open spec fn series_times(series: Seq<(i64, Seq<(Seq<char>, usize)>)>) -> Seq<i64> {
    Seq::new(series.len(), |i: int| series[i].0)
}

/// The chart of the board over time.
pub fn render_cfd(series: &[(i64, Vec<(String, usize)>)]) -> (r: String)
    ensures
        exists|statuses: Seq<Seq<char>>|
            is_header(statuses, flow::series_view(series@)) && r@ == #[trigger] flow_text(
                day_labels(series_times(flow::series_view(series@))),
                statuses,
                flow::series_view(series@),
            ),
{
    let ghost view = flow::series_view(series@);
    let mut times: Vec<i64> = Vec::new();
    let mut i: usize = 0;
    while i < series.len()
        invariant
            i <= series@.len(),
            times@.len() == i,
            forall|k: int| 0 <= k < i ==> #[trigger] times@[k] == series@[k].0,
        decreases series@.len() - i,
    {
        times.push(series[i].0);
        i = i + 1;
    }
    assert(times@ =~= series_times(view));
    let days: Vec<String> = label_days(&times);
    assert(text::views(days@).len() == series@.len());
    render_cfd_on(&days, series)
}

// ---- what is shown of the flow ------------------------------------------------------------------------------------------

proof fn lemma_shown_at_the_end(before: Seq<char>, line: Seq<char>)
    ensures
        text::contains_spec(before + line, line),
{
    let end = (before.len() + line.len()) as int;
    assert((before + line).subrange(before.len() as int, end) =~= line);
    assert(text::occurs_at(before + line, line, before.len() as int));
}

proof fn lemma_still_shown(before: Seq<char>, more: Seq<char>, line: Seq<char>)
    requires
        text::contains_spec(before, line),
    ensures
        text::contains_spec(before + more, line),
{
    let none = Seq::<char>::empty();
    text::lemma_contains_in_part(none, before, more, line);
    assert(none + before + more =~= before + more);
}

proof fn lemma_wip_line(start: Seq<char>, rows: Seq<WipRow>, n: nat, i: int)
    requires
        0 <= i < n <= rows.len(),
    ensures
        text::contains_spec(with_wip_lines(start, rows, n), wip_line(rows[i])),
    decreases n,
{
    let before = with_wip_lines(start, rows, (n - 1) as nat);
    if i == n - 1 {
        lemma_shown_at_the_end(before, wip_line(rows[i]));
    } else {
        lemma_wip_line(start, rows, (n - 1) as nat, i);
        lemma_still_shown(before, wip_line(rows[n - 1]), wip_line(rows[i]));
    }
}

proof fn lemma_agent_line(
    start: Seq<char>,
    list: Seq<(Seq<char>, Seq<(Seq<char>, usize)>)>,
    n: nat,
    line: Seq<char>,
)
    requires
        n <= list.len(),
        text::contains_spec(start, line) || exists|i: int|
            0 <= i < n && agent_line(#[trigger] list[i]) == line,
    ensures
        text::contains_spec(with_agent_lines(start, list, n), line),
    decreases n,
{
    if n > 0 {
        let before = with_agent_lines(start, list, (n - 1) as nat);
        if agent_line(list[n - 1]) == line {
            lemma_shown_at_the_end(before, line);
        } else {
            lemma_agent_line(start, list, (n - 1) as nat, line);
            lemma_still_shown(before, agent_line(list[n - 1]), line);
        }
    }
}

/// The work in progress is shown with a line for each status and one for each agent.
pub proof fn law_all_work_in_progress_is_shown(
    rows: Seq<WipRow>,
    per_agent: Seq<(Seq<char>, Seq<(Seq<char>, usize)>)>,
    i: int,
)
    ensures
        0 <= i < rows.len() ==> text::contains_spec(wip_text(rows, per_agent), wip_line(rows[i])),
        0 <= i < per_agent.len() ==> text::contains_spec(
            wip_text(rows, per_agent),
            agent_line(per_agent[i]),
        ),
{
    let start =
        "WIP vs limits (voyage/campaign exempt; chore+expedition combined per the type-drift ruling)\n"@;
    let head = with_wip_lines(start, rows, rows.len());
    if 0 <= i < rows.len() {
        lemma_wip_line(start, rows, rows.len(), i);
        lemma_still_shown(head, "per agent:\n"@, wip_line(rows[i]));
        lemma_agent_line(
            head + "per agent:\n"@,
            per_agent,
            per_agent.len(),
            wip_line(rows[i]),
        );
    }
    if 0 <= i < per_agent.len() {
        lemma_agent_line(
            head + "per agent:\n"@,
            per_agent,
            per_agent.len(),
            agent_line(per_agent[i]),
        );
    }
}

proof fn lemma_aging_line(start: Seq<char>, rows: Seq<AgingView>, n: nat, i: int)
    requires
        0 <= i < n <= rows.len(),
    ensures
        text::contains_spec(with_aging_lines(start, rows, n), aging_line(rows[i])),
    decreases n,
{
    let before = with_aging_lines(start, rows, (n - 1) as nat);
    if i == n - 1 {
        lemma_shown_at_the_end(before, aging_line(rows[i]));
    } else {
        lemma_aging_line(start, rows, (n - 1) as nat, i);
        lemma_still_shown(before, aging_line(rows[n - 1]), aging_line(rows[i]));
    }
}

/// Every age is shown on a line.
pub proof fn law_every_age_is_shown(rows: Seq<AgingView>, i: int)
    requires
        0 <= i < rows.len(),
    ensures
        text::contains_spec(aging_text(rows), aging_line(rows[i])),
{
    let start = "WIP aging (time in CURRENT status, from the runs audit trail)\n"@;
    lemma_aging_line(start, rows, rows.len(), i);
    let shown = with_aging_lines(start, rows, rows.len());
    assert(aging_text(rows) =~= shown);
}

/// An age of two days or more is shown in whole days, a shorter one in whole hours.
pub proof fn law_ages_are_in_days_or_hours(ms: int)
    requires
        ms >= 0,
    ensures
        ms >= 2 * 24 * 60 * 60 * 1000 ==> exists|d: int|
            d * (24 * 60 * 60 * 1000) <= ms < (d + 1) * (24 * 60 * 60 * 1000) && duration_spec(ms)
                == (#[trigger] text::decimal_int_spec(d), "d"@),
        ms < 2 * 24 * 60 * 60 * 1000 ==> exists|h: int|
            h * (60 * 60 * 1000) <= ms < (h + 1) * (60 * 60 * 1000) && duration_spec(ms) == (
                #[trigger] text::decimal_int_spec(h),
                "h"@,
            ),
{
    let h = hours_spec(ms);
    let d = h / 24;
    assert(h * 3_600_000 <= ms < (h + 1) * 3_600_000);
    assert(d * 24 <= h < (d + 1) * 24);
    if ms >= 2 * 24 * 60 * 60 * 1000 {
        assert(h >= 48);
        assert(duration_spec(ms) == (text::decimal_int_spec(d), "d"@));
        assert(d * 86_400_000 <= ms < (d + 1) * 86_400_000) by (nonlinear_arith)
            requires
                h * 3_600_000 <= ms < (h + 1) * 3_600_000,
                d * 24 <= h < (d + 1) * 24,
        ;
    } else {
        assert(h < 48);
        assert(duration_spec(ms) == (text::decimal_int_spec(h), "h"@));
    }
}

proof fn lemma_throughput_line(
    start: Seq<char>,
    days: Seq<Seq<char>>,
    buckets: Seq<(i64, usize)>,
    n: nat,
    i: int,
)
    requires
        0 <= i < n <= buckets.len(),
    ensures
        text::contains_spec(
            with_throughput_lines(start, days, buckets, n),
            throughput_line(days[i], buckets[i].1),
        ),
    decreases n,
{
    let before = with_throughput_lines(start, days, buckets, (n - 1) as nat);
    let line = throughput_line(days[i], buckets[i].1);
    if i == n - 1 {
        lemma_shown_at_the_end(before, line);
    } else {
        lemma_throughput_line(start, days, buckets, (n - 1) as nat, i);
        lemma_still_shown(before, throughput_line(days[n - 1], buckets[n - 1].1), line);
    }
}

/// Every bucket of a throughput is shown on a line with its day.
pub proof fn law_every_bucket_is_shown(
    days: Seq<Seq<char>>,
    buckets: Seq<(i64, usize)>,
    bucket_ms: i64,
    i: int,
)
    requires
        0 <= i < buckets.len(),
    ensures
        text::contains_spec(
            throughput_text(days, buckets, bucket_ms),
            throughput_line(days[i], buckets[i].1),
        ),
{
    let unit = if bucket_ms >= 604_800_000 {
        "week"@
    } else {
        "day"@
    };
    let start = "throughput (terminal arrivals per "@ + unit
        + ", chore+expedition combined)\n"@;
    lemma_throughput_line(start, days, buckets, buckets.len(), i);
    assert(throughput_text(days, buckets, bucket_ms) =~= with_throughput_lines(
        start,
        days,
        buckets,
        buckets.len(),
    ));
}

/// The statuses of a series are those that any of its entries counts.
pub proof fn law_series_name_every_status(
    series: Seq<(i64, Seq<(Seq<char>, usize)>)>,
    n: nat,
    status: Seq<char>,
)
    requires
        n <= series.len(),
    ensures
        named_statuses(series, n).contains(status) <==> exists|k: int, i: int|
            0 <= k < n && 0 <= i < series[k].1.len() && (#[trigger] series[k].1[i]).0 == status,
    decreases n,
{
    if n > 0 {
        let m = (n - 1) as nat;
        law_series_name_every_status(series, m, status);
        let here = tally::keys(series[n - 1].1);
        vstd::seq_lib::lemma_seq_concat_contains_all_elements(
            named_statuses(series, m),
            here,
            status,
        );
        if here.contains(status) {
            let i = choose|i: int| 0 <= i < here.len() && here[i] == status;
            assert(series[n - 1].1[i].0 == status);
        }
        if exists|k: int, i: int|
            0 <= k < n && 0 <= i < series[k].1.len() && (#[trigger] series[k].1[i]).0 == status {
            let (k, i) = choose|k: int, i: int|
                0 <= k < n && 0 <= i < series[k].1.len() && (#[trigger] series[k].1[i]).0 == status;
            if k == n - 1 {
                assert(here[i] == status);
            }
        }
    }
}

proof fn lemma_counts_go_on(
    start: Seq<char>,
    statuses: Seq<Seq<char>>,
    counts: Seq<(Seq<char>, usize)>,
    n: nat,
)
    requires
        n <= statuses.len(),
    ensures
        start.is_prefix_of(with_counts(start, statuses, counts, n)),
    decreases n,
{
    if n > 0 {
        lemma_counts_go_on(start, statuses, counts, (n - 1) as nat);
        let before = with_counts(start, statuses, counts, (n - 1) as nat);
        let more = text::pad_left_spec(
            text::decimal_spec(count_of(counts, statuses[n - 1])),
            12,
        );
        assert(before.is_prefix_of(before + "  "@ + more));
    }
}

proof fn lemma_entries_go_on(
    start: Seq<char>,
    days: Seq<Seq<char>>,
    statuses: Seq<Seq<char>>,
    series: Seq<(i64, Seq<(Seq<char>, usize)>)>,
    m: nat,
    n: nat,
)
    requires
        m <= n <= series.len(),
    ensures
        with_entries(start, days, statuses, series, m).is_prefix_of(
            with_entries(start, days, statuses, series, n),
        ),
    decreases n,
{
    if m < n {
        lemma_entries_go_on(start, days, statuses, series, m, (n - 1) as nat);
        let before = with_entries(start, days, statuses, series, (n - 1) as nat);
        let head = before + "  "@ + days[n - 1];
        lemma_counts_go_on(head, statuses, series[n - 1].1, statuses.len());
        assert(before.is_prefix_of(head));
        let row = with_counts(head, statuses, series[n - 1].1, statuses.len());
        assert(row.is_prefix_of(row + "\n"@));
    }
}

/// The table of a series has a row for each entry: the day, and for each status of the
/// heading the number of items that the entry counts, or zero.
pub proof fn law_every_entry_has_its_row(
    days: Seq<Seq<char>>,
    statuses: Seq<Seq<char>>,
    series: Seq<(i64, Seq<(Seq<char>, usize)>)>,
    k: int,
)
    requires
        0 <= k < series.len(),
    ensures
        exists|before: Seq<char>|
            (#[trigger] with_counts(
                before + "  "@ + days[k],
                statuses,
                series[k].1,
                statuses.len(),
            )).is_prefix_of(flow_text(days, statuses, series)),
{
    let start = with_names(
        "cumulative flow (items per status per bucket)\n  bucket"@,
        statuses,
        statuses.len(),
    ) + "\n"@;
    let before = with_entries(start, days, statuses, series, k as nat);
    let row = with_counts(before + "  "@ + days[k], statuses, series[k].1, statuses.len());
    let upto = with_entries(start, days, statuses, series, (k + 1) as nat);
    assert(row.is_prefix_of(row + "\n"@));
    assert(upto == row + "\n"@);
    lemma_entries_go_on(start, days, statuses, series, (k + 1) as nat, series.len());
    let all = with_entries(start, days, statuses, series, series.len());
    assert(flow_text(days, statuses, series) =~= all);
}

/// The number that is shown for a status is the one that the entry counts, or zero.
pub proof fn law_counts_are_looked_up(counts: Seq<(Seq<char>, usize)>, status: Seq<char>, i: int)
    requires
        0 <= i <= counts.len(),
        forall|k: int| i <= k < counts.len() ==> (#[trigger] counts[k]).0 != status,
        i > 0 ==> counts[i - 1].0 == status,
    ensures
        count_of(counts, status) == (if i > 0 {
            counts[i - 1].1 as nat
        } else {
            0
        }),
{
    keyed::lemma_lookup(counts, status, i);
}

} // verus!
