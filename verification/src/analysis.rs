//! One look at a session: what is gathered for it, what comes of it, and what
//! is written down.
//!
//! A check is left out where the window was too quiet to be judged. A
//! checkpoint never is: a quiet window, or a model that cannot be reached,
//! still gives one, because the point of it is the moment.

use vstd::prelude::*;

use crate::analyses;
use crate::analyses::newest_of;
use crate::analyses::NewAnalysis;
use crate::board;
use crate::board::cards;
use crate::claude::AnalysisResult;
use crate::claude::CheckpointResult;
use crate::db;
use crate::db::full;
use crate::db::session_with;
use crate::db::with_checkpoint;
use crate::error::AppError;
use crate::error::Failure;
use crate::models::Label;
use crate::models::Session;
use crate::models::Task;
use crate::notify;
use crate::observed;
use crate::observed::summarized;
use crate::observed::AppTitles;
use crate::observed::Events;
use crate::observed::Observed;
use crate::observed::Tally;
use crate::prompt::Context;
use crate::recommendations;
use crate::recommendations::Recommendation;
use crate::rows::AnalysisRow;
use crate::rows::SessionRow;
use crate::rows::Store;
use crate::rows::Tables;
use crate::sort::deep;
use crate::table;
use crate::table::fresh;
use crate::table::row_at;
use crate::text;
use crate::text::opt_view;
use crate::time;
use crate::time::instant_of;
use crate::time::Stamp;

verus! {

broadcast use vstd::seq_lib::group_seq_properties;

/// Below this much activity a window is not judged: looking at a locked screen
/// gives a note that is sure of itself and wrong.
pub const MIN_ACTIVE_MS: u128 = 300_000;

// -------------------------------------------------------------------- the board

/// The column a card stands in.
pub open spec fn lane_of(status: Seq<char>) -> int {
    if status == "planned"@ {
        0
    } else if status == "doing"@ {
        1
    } else if status == "done"@ {
        2
    } else {
        3
    }
}

/// The titles of a column, in the order of the cards.
pub open spec fn titles_in(s: Seq<Task<Seq<char>, Seq<Label<Seq<char>>>>>, lane: int) -> Seq<
    Seq<char>,
>
    decreases s.len(),
{
    if s.len() == 0 {
        seq![]
    } else if lane_of(s.last().status) == lane {
        titles_in(s.drop_last(), lane).push(s.last().title)
    } else {
        titles_in(s.drop_last(), lane)
    }
}

pub open spec fn lane_line(name: Seq<char>, titles: Seq<Seq<char>>) -> Seq<char> {
    name + ": "@ + (if titles.len() == 0 {
        "-"@
    } else {
        text::joined(titles, " | "@)
    })
}

/// The board, a line for each column.
pub open spec fn board_text(s: Seq<Task<Seq<char>, Seq<Label<Seq<char>>>>>) -> Seq<char> {
    lane_line("todo"@, titles_in(s, 0)) + "\n"@ + lane_line("doing"@, titles_in(s, 1)) + "\n"@
        + lane_line("done"@, titles_in(s, 2)) + "\n"@ + lane_line("dropped"@, titles_in(s, 3))
}

fn find_lane(status: &str) -> (n: u8)
    ensures
        n == lane_of(status@),
{
    if text::same(status, "planned") {
        0
    } else if text::same(status, "doing") {
        1
    } else if text::same(status, "done") {
        2
    } else {
        3
    }
}

fn write_lane(name: &str, tasks: &Vec<Task>, lane: u8) -> (r: String)
    ensures
        r@ == lane_line(name@, titles_in(deep(tasks@), lane as int)),
{
    let ghost s = deep(tasks@);
    let mut titles: Vec<String> = Vec::new();
    let mut i: usize = 0;
    proof {
        assert(s.take(0) =~= seq![]);
        assert(text::views(titles@) =~= seq![]);
    }
    while i < tasks.len()
        invariant
            i <= tasks.len(),
            s == deep(tasks@),
            text::views(titles@) == titles_in(s.take(i as int), lane as int),
        decreases tasks.len() - i,
    {
        proof {
            assert(s.take(i + 1).drop_last() =~= s.take(i as int));
            assert(s.take(i + 1).last() == tasks@[i as int].deep_view());
        }
        if find_lane(tasks[i].status.as_str()) == lane {
            let ghost before = text::views(titles@);
            let title = text::owned(tasks[i].title.as_str());
            let ghost x = title@;
            titles.push(title);
            proof {
                assert(text::views(titles@) =~= before.push(x));
            }
        }
        i = i + 1;
    }
    proof {
        assert(s.take(s.len() as int) =~= s);
    }
    if titles.len() == 0 {
        text::cat3(name, ": ", "-")
    } else {
        text::cat3(name, ": ", text::join(&titles, " | ").as_str())
    }
}

/// The board as the model is told of it.
pub fn board_lines(tasks: &Vec<Task>) -> (r: String)
    ensures
        r@ == board_text(deep(tasks@)),
{
    let mut out = write_lane("todo", tasks, 0);
    out.append("\n");
    out.append(write_lane("doing", tasks, 1).as_str());
    out.append("\n");
    out.append(write_lane("done", tasks, 2).as_str());
    out.append("\n");
    out.append(write_lane("dropped", tasks, 3).as_str());
    out
}

// ------------------------------------------------------------- what is gathered

/// What the store says of a session and of the stretch since it was last
/// looked at.
pub struct Stretch {
    pub session: Session,
    pub board_lines: String,
    pub window_start: String,
    /// The headline and the alignment of the look before.
    pub previous: Option<(String, Option<i64>)>,
}

/// The window begins where the last one ended, and with the session where
/// there is none.
pub open spec fn window_start_of(v: Tables, session_id: i64, started_at: Seq<char>) -> Seq<char> {
    match newest_of(v.analyses, session_id) {
        Some(a) => a.window_end,
        None => started_at,
    }
}

pub open spec fn previous_of(v: Tables, session_id: i64) -> Option<(Seq<char>, Option<i64>)> {
    match newest_of(v.analyses, session_id) {
        Some(a) => Some((a.headline, a.alignment)),
        None => None,
    }
}

pub open spec fn pair_view(p: Option<(String, Option<i64>)>) -> Option<(Seq<char>, Option<i64>)> {
    match p {
        Some((s, n)) => Some((s@, n)),
        None => None,
    }
}

/// Reads everything that a look needs of the store; nothing where there is no
/// such session.
pub fn stretch(store: &Store, session_id: i64) -> (r: Option<Stretch>)
    requires
        store@.wf(),
    ensures
        match r {
            Some(x) => session_with(store@, session_id) == Some(x.session.deep_view())
                && x.board_lines@ == board_text(cards(store@, Some(session_id)))
                && x.window_start@ == window_start_of(
                store@,
                session_id,
                x.session.started_at@,
            ) && pair_view(x.previous) == previous_of(store@, session_id),
            None => session_with(store@, session_id) is None,
        },
{
    let session = match db::get_session(store, session_id) {
        Some(s) => s,
        None => {
            return None;
        },
    };
    let lines = board_lines(&board::session_tasks(store, session_id));
    match analyses::latest_analysis(store, session_id) {
        Some(a) => Some(
            Stretch {
                session,
                board_lines: lines,
                window_start: a.window_end,
                previous: Some((a.headline, a.alignment)),
            },
        ),
        None => {
            let window_start = text::owned(session.started_at.as_str());
            Some(Stretch { session, board_lines: lines, window_start, previous: None })
        },
    }
}

/// Nothing seen at all.
pub open spec fn nothing_seen() -> Observed<
    Seq<Tally<Seq<char>>>,
    Seq<AppTitles<Seq<char>, Seq<Tally<Seq<char>>>>>,
> {
    Observed { per_app: seq![], per_title: seq![], active_ms: 0, afk_ms: 0 }
}

/// A window that cannot be summarized reads as an empty one.
pub open spec fn summary_or_nothing(events: Events, start: Seq<char>, end: Seq<char>) -> Observed<
    Seq<Tally<Seq<char>>>,
    Seq<AppTitles<Seq<char>, Seq<Tally<Seq<char>>>>>,
> {
    match summarized(events, start, end) {
        Ok(o) => o,
        Err(_) => nothing_seen(),
    }
}

fn no_observation() -> (o: Observed)
    ensures
        o.deep_view() == nothing_seen(),
{
    let o = Observed { per_app: Vec::new(), per_title: Vec::new(), active_ms: 0, afk_ms: 0 };
    proof {
        assert(o.deep_view().per_app =~= seq![]);
        assert(o.deep_view().per_title =~= seq![]);
    }
    o
}

/// What was seen of a window. Where its events could not be had it reads as
/// empty, so that a watcher that is down is no special case.
pub fn observe_window(events: Option<&Events>, start: &str, end: &str) -> (o: Observed)
    ensures
        o.deep_view() == (match events {
            Some(e) => summary_or_nothing(*e, start@, end@),
            None => nothing_seen(),
        }),
{
    match events {
        Some(e) => match observed::summarize(e, start, end) {
            Ok(o) => o,
            Err(_) => no_observation(),
        },
        None => no_observation(),
    }
}

/// What was seen of a whole session, where that can be said.
pub fn observe_session(events: &Events, start: &str, end: &str) -> (r: Option<Observed>)
    ensures
        match (summarized(*events, start@, end@), r) {
            (Ok(o), Some(x)) => x.deep_view() == o,
            (Err(_), None) => true,
            _ => false,
        },
{
    match observed::summarize(events, start, end) {
        Ok(o) => Some(o),
        Err(_) => None,
    }
}

/// Everything that both calls need.
pub struct Prepared {
    pub session: Session,
    pub board_lines: String,
    pub window_start: String,
    pub window_end: String,
    pub window: Observed,
    pub session_total: Option<Observed>,
    pub previous: Option<(String, Option<i64>)>,
    pub elapsed_minutes: i64,
    pub window_minutes: i64,
}

/// Whole minutes from one instant to another.
pub open spec fn minutes_from(a: Stamp, b: Stamp) -> i64 {
    time::toward_zero(time::apart(b, a) as int, 60_000) as i64
}

fn count_minutes(a: Stamp, b: Stamp) -> (n: i64)
    requires
        time::valid(a),
        time::valid(b),
    ensures
        n == minutes_from(a, b),
{
    let ms = time::millis_between(b, a) as i128;
    if ms >= 0 {
        (ms / 60_000) as i64
    } else {
        (-((-ms) / 60_000)) as i64
    }
}

/// Which of the three times cannot be read: the window's end, the session's
/// start or the window's start, in this order.
pub open spec fn unreadable_time(end: Seq<char>, started: Seq<char>, start: Seq<char>) -> Option<
    Seq<char>,
> {
    if instant_of(end) is None {
        Some(end)
    } else if instant_of(started) is None {
        Some(started)
    } else if instant_of(start) is None {
        Some(start)
    } else {
        None
    }
}

/// Puts together what was read and what was seen.
pub fn prepare(
    x: Stretch,
    window_end: String,
    window: Observed,
    session_total: Option<Observed>,
) -> (r: Result<Prepared, AppError>)
    ensures
        match (unreadable_time(window_end@, x.session.started_at@, x.window_start@), r) {
            (Some(s), Err(e)) => e@ == Failure::BadTimestamp(s),
            (None, Ok(p)) => p.session == x.session && p.board_lines == x.board_lines
                && p.window_start == x.window_start && p.window_end == window_end && p.window
                == window && p.session_total == session_total && p.previous == x.previous
                && p.elapsed_minutes == minutes_from(
                instant_of(x.session.started_at@)->0,
                instant_of(window_end@)->0,
            ) && p.window_minutes == minutes_from(
                instant_of(x.window_start@)->0,
                instant_of(window_end@)->0,
            ),
            _ => false,
        },
{
    let end = match time::parse_ts(window_end.as_str()) {
        Ok(t) => t,
        Err(e) => {
            return Err(e);
        },
    };
    let started = match time::parse_ts(x.session.started_at.as_str()) {
        Ok(t) => t,
        Err(e) => {
            return Err(e);
        },
    };
    let start = match time::parse_ts(x.window_start.as_str()) {
        Ok(t) => t,
        Err(e) => {
            return Err(e);
        },
    };
    let elapsed_minutes = count_minutes(started, end);
    let window_minutes = count_minutes(start, end);
    Ok(
        Prepared {
            session: x.session,
            board_lines: x.board_lines,
            window_start: x.window_start,
            window_end,
            window,
            session_total,
            previous: x.previous,
            elapsed_minutes,
            window_minutes,
        },
    )
}

impl Prepared {
    /// What the model is told.
    pub fn context(&self) -> (c: Context<'_>)
        ensures
            c.statement@ == self.session.statement@,
            c.intended_minutes == self.session.intended_minutes,
            c.elapsed_minutes == self.elapsed_minutes,
            c.board_lines@ == self.board_lines@,
            *c.window == self.window,
            match (c.session_total, self.session_total) {
                (Some(a), Some(b)) => *a == b,
                (None, None) => true,
                _ => false,
            },
            c.window_minutes == self.window_minutes,
            pair_view(c.previous) == pair_view(self.previous),
    {
        Context {
            statement: self.session.statement.as_str(),
            intended_minutes: self.session.intended_minutes,
            elapsed_minutes: self.elapsed_minutes,
            board_lines: text::owned(self.board_lines.as_str()),
            window: &self.window,
            session_total: match &self.session_total {
                Some(t) => Some(t),
                None => None,
            },
            window_minutes: self.window_minutes,
            previous: match &self.previous {
                Some((headline, alignment)) => Some((text::owned(headline.as_str()), *alignment)),
                None => None,
            },
        }
    }

    /// Whether there was too little activity to judge the window fairly.
    pub fn too_quiet(&self) -> (r: bool)
        ensures
            r == (self.window.active_ms < MIN_ACTIVE_MS),
    {
        self.window.active_ms < MIN_ACTIVE_MS
    }
}

// ---------------------------------------------------------- what is written down

/// The row of a check.
pub open spec fn check_row(
    id: i64,
    session_id: i64,
    p: Prepared,
    a: AnalysisResult,
    observed_json: Seq<char>,
    now: Seq<char>,
) -> AnalysisRow<Seq<char>> {
    AnalysisRow {
        id,
        session_id,
        created_at: now,
        window_start: p.window_start@,
        window_end: p.window_end@,
        headline: a.headline@,
        alignment: a.alignment,
        body: a.body@,
        observed_json,
        kind: "check"@,
        recommendation_id: None,
        recommendation_note: None,
        seen_at: None,
    }
}

/// Writes a check down.
pub fn record_check(
    store: &mut Store,
    session_id: i64,
    p: &Prepared,
    a: &AnalysisResult,
    observed_json: &str,
    now: &str,
) -> (r: Result<i64, AppError>)
    requires
        old(store)@.wf(),
    ensures
        final(store)@.wf(),
        match r {
            Ok(id) => id == fresh::<AnalysisRow>(old(store)@.analyses) && final(store)@
                == (Tables {
                analyses: old(store)@.analyses.push(
                    check_row(id, session_id, *p, *a, observed_json@, now@),
                ),
                ..old(store)@
            }),
            Err(e) => fresh::<AnalysisRow>(old(store)@.analyses) > i64::MAX && final(store)@
                == old(store)@ && e@ == full(),
        },
{
    let row = NewAnalysis {
        session_id,
        kind: "check",
        window_start: p.window_start.as_str(),
        window_end: p.window_end.as_str(),
        headline: a.headline.as_str(),
        alignment: a.alignment,
        body: a.body.as_str(),
        observed_json,
        recommendation_id: None,
        recommendation_note: None,
    };
    analyses::add_analysis(store, &row, now)
}

/// What a checkpoint says, however it came about.
pub struct Verdict {
    pub headline: String,
    pub alignment: Option<i64>,
    pub body: String,
    pub recommendation: Recommendation,
    pub note: Option<String>,
}

pub const QUIET_HEADLINE: &'static str = "Nothing tracked to judge";

pub const QUIET_BODY: &'static str = "Under five minutes of tracked activity in this stretch, so \
    there is nothing here to judge — this is the clock talking, not an assessment.";

pub const FAILED_HEADLINE: &'static str = "Check could not run";

/// What comes of a checkpoint: what the model said, or that the window was too
/// quiet, or that the model could not be asked. A headline names the reason
/// and not the clock, which the screen shows anyway.
pub fn settle(judged: Option<Result<CheckpointResult, AppError>>) -> (v: Verdict)
    ensures
        match judged {
            None => v.headline@ == QUIET_HEADLINE@ && v.alignment is None && v.body@
                == QUIET_BODY@ && v.recommendation.deep_view() == recommendations::quiet_entry()
                && v.note is None,
            Some(Err(e)) => v.headline@ == FAILED_HEADLINE@ && v.alignment is None && v.body@
                == e@.message() + ". Your time is up regardless."@
                && v.recommendation.deep_view() == recommendations::quiet_entry() && v.note is None,
            Some(Ok(c)) => v.headline@ == c.headline@ && v.alignment == c.alignment && v.body@
                == c.body@ && v.recommendation.deep_view() == c.recommendation.deep_view()
                && opt_view(v.note) == (if c.note@.len() == 0 {
                None::<Seq<char>>
            } else {
                Some(c.note@)
            }),
        },
{
    match judged {
        None => Verdict {
            headline: text::owned(QUIET_HEADLINE),
            alignment: None,
            body: text::owned(QUIET_BODY),
            recommendation: recommendations::quiet_window(),
            note: None,
        },
        Some(Err(e)) => Verdict {
            headline: text::owned(FAILED_HEADLINE),
            alignment: None,
            body: text::cat2(e.message().as_str(), ". Your time is up regardless."),
            recommendation: recommendations::quiet_window(),
            note: None,
        },
        Some(Ok(c)) => {
            let note = if c.note.as_str().is_empty() {
                None
            } else {
                Some(c.note)
            };
            Verdict {
                headline: c.headline,
                alignment: c.alignment,
                body: c.body,
                recommendation: c.recommendation,
                note,
            }
        },
    }
}

/// The row of a checkpoint.
pub open spec fn checkpoint_row(
    id: i64,
    session_id: i64,
    p: Prepared,
    v: Verdict,
    observed_json: Seq<char>,
    now: Seq<char>,
) -> AnalysisRow<Seq<char>> {
    AnalysisRow {
        id,
        session_id,
        created_at: now,
        window_start: p.window_start@,
        window_end: p.window_end@,
        headline: v.headline@,
        alignment: v.alignment,
        body: v.body@,
        observed_json,
        kind: "checkpoint"@,
        recommendation_id: Some(v.recommendation.id@),
        recommendation_note: opt_view(v.note),
        seen_at: None,
    }
}

/// The store after a checkpoint: its row is in and none is pending.
pub open spec fn with_checkpoint_row(t: Tables, row: AnalysisRow<Seq<char>>) -> Tables {
    with_checkpoint(Tables { analyses: t.analyses.push(row), ..t }, row.session_id, None)
}

/// Writes a checkpoint down. The pending one is cleared only once the row is
/// in: one that could not be written is still due.
pub fn record_checkpoint(
    store: &mut Store,
    session_id: i64,
    p: &Prepared,
    v: &Verdict,
    observed_json: &str,
    now: &str,
) -> (r: Result<i64, AppError>)
    requires
        old(store)@.wf(),
    ensures
        final(store)@.wf(),
        match r {
            Ok(id) => id == fresh::<AnalysisRow>(old(store)@.analyses) && final(store)@
                == with_checkpoint_row(
                old(store)@,
                checkpoint_row(id, session_id, *p, *v, observed_json@, now@),
            ),
            Err(e) => fresh::<AnalysisRow>(old(store)@.analyses) > i64::MAX && final(store)@
                == old(store)@ && e@ == full(),
        },
{
    let note: Option<&str> = match &v.note {
        Some(n) => Some(n.as_str()),
        None => None,
    };
    let row = NewAnalysis {
        session_id,
        kind: "checkpoint",
        window_start: p.window_start.as_str(),
        window_end: p.window_end.as_str(),
        headline: v.headline.as_str(),
        alignment: v.alignment,
        body: v.body.as_str(),
        observed_json,
        recommendation_id: Some(v.recommendation.id),
        recommendation_note: note,
    };
    match analyses::add_analysis(store, &row, now) {
        Ok(id) => {
            db::clear_checkpoint(store, session_id);
            Ok(id)
        },
        Err(e) => Err(e),
    }
}

/// A checkpoint that was written down is not due again, whatever the time.
pub proof fn a_recorded_checkpoint_is_not_due(
    t: Tables,
    row: AnalysisRow<Seq<char>>,
    now: Seq<char>,
)
    requires
        t.wf(),
    ensures
        !db::due(with_checkpoint_row(t, row), row.session_id, now),
{
    let id = row.session_id;
    let v = Tables { analyses: t.analyses.push(row), ..t };
    if let Some(s) = row_at::<SessionRow>(v.sessions, id) {
        let i = table::lemma_row_found::<SessionRow>(v.sessions, id);
        assert(v.sessions[i] == s);
        table::lemma_put_reads::<SessionRow>(
            v.sessions,
            id,
            SessionRow { checkpoint_due_at: None, ..s },
            id,
        );
    }
}

// -------------------------------------------------------------- what is notified

/// A notification.
pub struct Notice {
    pub title: String,
    pub body: String,
}

/// How long it was meant to be and how long it was.
pub open spec fn time_spent(intended: Option<i64>, elapsed: i64) -> Seq<char> {
    match intended {
        Some(m) => text::decimal(m as int) + " min intended, "@ + text::decimal(elapsed as int)
            + " elapsed"@,
        None => text::decimal(elapsed as int) + " min elapsed"@,
    }
}

/// What a checkpoint notifies.
pub fn checkpoint_notice(p: &Prepared, v: &Verdict) -> (n: Notice)
    ensures
        n.title@ == "Time's up — "@ + time_spent(p.session.intended_minutes, p.elapsed_minutes),
        n.body@ == notify::clipped(
            v.headline@ + " · "@ + v.recommendation.advice@,
            notify::BODY_CHARS as nat,
        ),
{
    let elapsed = text::of_i64(p.elapsed_minutes);
    let spent = match p.session.intended_minutes {
        Some(m) => {
            let mut s = text::of_i64(m);
            s.append(" min intended, ");
            s.append(elapsed.as_str());
            s.append(" elapsed");
            s
        },
        None => text::cat2(elapsed.as_str(), " min elapsed"),
    };
    let line = text::cat3(v.headline.as_str(), " · ", v.recommendation.advice);
    Notice {
        title: text::cat2("Time's up — ", spent.as_str()),
        body: notify::clip(line.as_str(), notify::BODY_CHARS),
    }
}

} // verus!
