//! What is kept and shown is what is held, field by field, and where a row goes
//! in its table.

use vstd::prelude::*;

use crate::db::open_in;
use crate::error::AppError;
use crate::error::Failure;
use crate::json;
use crate::json::Doc;
use crate::json::Json;
use crate::json::Member;
use crate::meetings::FileRow;
use crate::models::Analysis;
use crate::models::AudioSource;
use crate::models::Label;
use crate::models::LabelSummary;
use crate::models::Meeting;
use crate::models::MeetingAction;
use crate::models::MeetingFile;
use crate::models::MeetingSegment;
use crate::models::Session;
use crate::models::Task;
use crate::observed::AppTitles;
use crate::observed::Observed;
use crate::observed::Tally;
use crate::recommendations::Recommendation;
use crate::rows::ActionRow;
use crate::rows::AnalysisRow;
use crate::rows::LabelRow;
use crate::rows::MeetingRow;
use crate::rows::SegmentRow;
use crate::rows::SessionRow;
use crate::rows::Setting;
use crate::rows::Store;
use crate::rows::StoredFile;
use crate::rows::Tables;
use crate::rows::TaskRow;
use crate::sort::deep;
use crate::state::keeps;
use crate::table::after_top;
use crate::table::at_home;
use crate::table::elsewhere;
use crate::table::fresh;
use crate::table::is_home;
use crate::table::Keyed;
use crate::table::not_home;
use crate::table::Placed;
use crate::table::put;
use crate::table::row_at;
use crate::table::top;
use crate::table::without;
use crate::table;
use crate::text::opt_view;
use crate::time::days_in;
use crate::time::earlier;
use crate::time::earliest;
use crate::time::instant_of;
use crate::time::latest;
use crate::time::leap_year;
use crate::time::naive;
use crate::time::rfc3339;
use crate::time::Stamp;
use crate::time::toward_zero;

verus! {

broadcast use vstd::seq_lib::group_seq_properties;

// -------------------------------------------------------------------- the fields

/// A text that may be missing is the text, or none.
pub proof fn a_missing_text_is_none(s: String)
    ensures
        opt_view(Some(s)) == Some(s@),
        opt_view(None) is None,
{
}

/// A session is kept field by field.
pub proof fn a_session_is_kept_field_by_field(x: SessionRow)
    ensures
        x.deep_view().id == x.id,
        x.deep_view().started_at == x.started_at@,
        x.deep_view().ended_at == opt_view(x.ended_at),
        x.deep_view().close_reason == opt_view(x.close_reason),
        x.deep_view().statement == x.statement@,
        x.deep_view().intended_minutes == x.intended_minutes,
        x.deep_view().checkpoint_due_at == opt_view(x.checkpoint_due_at),
        x.deep_view().last_heartbeat == opt_view(x.last_heartbeat),
        x.deep_view().mode == x.mode@,
{
}

/// A card is kept field by field.
pub proof fn a_card_is_kept_field_by_field(x: TaskRow)
    ensures
        x.deep_view().id == x.id,
        x.deep_view().session_id == x.session_id,
        x.deep_view().title == x.title@,
        x.deep_view().position == x.position,
        x.deep_view().status == x.status@,
        x.deep_view().notes == x.notes@,
        x.deep_view().due_date == opt_view(x.due_date),
        x.deep_view().carried_from == x.carried_from,
        x.deep_view().started_at == opt_view(x.started_at),
        x.deep_view().resolved_at == opt_view(x.resolved_at),
        x.deep_view().source == x.source@,
        x.deep_view().created_at == x.created_at@,
{
}

/// A label is kept field by field.
pub proof fn a_label_is_kept_field_by_field(x: LabelRow)
    ensures
        x.deep_view().id == x.id,
        x.deep_view().name == x.name@,
        x.deep_view().color == x.color@,
{
}

/// An analysis is kept field by field.
pub proof fn an_analysis_is_kept_field_by_field(x: AnalysisRow)
    ensures
        x.deep_view().id == x.id,
        x.deep_view().session_id == x.session_id,
        x.deep_view().created_at == x.created_at@,
        x.deep_view().window_start == x.window_start@,
        x.deep_view().window_end == x.window_end@,
        x.deep_view().headline == x.headline@,
        x.deep_view().alignment == x.alignment,
        x.deep_view().body == x.body@,
        x.deep_view().observed_json == x.observed_json@,
        x.deep_view().kind == x.kind@,
        x.deep_view().recommendation_id == opt_view(x.recommendation_id),
        x.deep_view().recommendation_note == opt_view(x.recommendation_note),
        x.deep_view().seen_at == opt_view(x.seen_at),
{
}

/// A meeting is kept field by field.
pub proof fn a_meeting_is_kept_field_by_field(x: MeetingRow)
    ensures
        x.deep_view().id == x.id,
        x.deep_view().session_id == x.session_id,
        x.deep_view().started_at == x.started_at@,
        x.deep_view().ended_at == opt_view(x.ended_at),
        x.deep_view().title == x.title@,
        x.deep_view().summary == opt_view(x.summary),
        x.deep_view().summary_edited_at == opt_view(x.summary_edited_at),
        x.deep_view().state == x.state@,
        x.deep_view().error == opt_view(x.error),
        x.deep_view().notes == x.notes@,
        x.deep_view().clean_transcript == opt_view(x.clean_transcript),
{
}

/// A segment is kept field by field.
pub proof fn a_segment_is_kept_field_by_field(x: SegmentRow)
    ensures
        x.deep_view().id == x.id,
        x.deep_view().meeting_id == x.meeting_id,
        x.deep_view().seq == x.seq,
        x.deep_view().started_at == x.started_at@,
        x.deep_view().text == x.text@,
{
}

/// A file is kept field by field.
pub proof fn a_file_is_kept_field_by_field(x: StoredFile)
    ensures
        x.deep_view().id == x.id,
        x.deep_view().meeting_id == x.meeting_id,
        x.deep_view().position == x.position,
        x.deep_view().name == x.name@,
        x.deep_view().path == x.path@,
        x.deep_view().kind == x.kind@,
        x.deep_view().bytes == x.bytes,
        x.deep_view().extracted == opt_view(x.extracted),
        x.deep_view().added_at == x.added_at@,
{
}

/// An action is kept field by field.
pub proof fn an_action_is_kept_field_by_field(x: ActionRow)
    ensures
        x.deep_view().id == x.id,
        x.deep_view().meeting_id == x.meeting_id,
        x.deep_view().position == x.position,
        x.deep_view().text == x.text@,
        x.deep_view().task_id == x.task_id,
{
}

/// A setting is kept field by field.
pub proof fn a_setting_is_kept_field_by_field(x: Setting)
    ensures
        x.deep_view().key == x.key@,
        x.deep_view().value == x.value@,
{
}

/// A session is shown field by field.
pub proof fn a_session_is_shown_field_by_field(x: Session)
    ensures
        x.deep_view().id == x.id,
        x.deep_view().started_at == x.started_at@,
        x.deep_view().ended_at == opt_view(x.ended_at),
        x.deep_view().close_reason == opt_view(x.close_reason),
        x.deep_view().statement == x.statement@,
        x.deep_view().intended_minutes == x.intended_minutes,
        x.deep_view().checkpoint_due_at == opt_view(x.checkpoint_due_at),
        x.deep_view().first_task == opt_view(x.first_task),
        x.deep_view().task_count == x.task_count,
{
}

/// A source of audio is shown field by field.
pub proof fn a_source_is_shown_field_by_field(x: AudioSource)
    ensures
        x.deep_view().target == x.target@,
        x.deep_view().label == x.label@,
{
}

/// A label is shown field by field.
pub proof fn a_label_is_shown_field_by_field(x: Label)
    ensures
        x.deep_view().name == x.name@,
        x.deep_view().color == x.color@,
{
}

/// A label is summed up field by field.
pub proof fn a_label_is_summed_up_field_by_field(x: LabelSummary)
    ensures
        x.deep_view().name == x.name@,
        x.deep_view().color == x.color@,
        x.deep_view().uses == x.uses,
{
}

/// A card is shown field by field.
pub proof fn a_card_is_shown_field_by_field(x: Task)
    ensures
        x.deep_view().id == x.id,
        x.deep_view().session_id == x.session_id,
        x.deep_view().title == x.title@,
        x.deep_view().position == x.position,
        x.deep_view().status == x.status@,
        x.deep_view().carry_count == x.carry_count,
        x.deep_view().notes == x.notes@,
        x.deep_view().due_date == opt_view(x.due_date),
        x.deep_view().labels == deep(x.labels@),
{
}

/// An analysis is shown field by field.
pub proof fn an_analysis_is_shown_field_by_field(x: Analysis)
    ensures
        x.deep_view().id == x.id,
        x.deep_view().session_id == x.session_id,
        x.deep_view().created_at == x.created_at@,
        x.deep_view().window_start == x.window_start@,
        x.deep_view().window_end == x.window_end@,
        x.deep_view().headline == x.headline@,
        x.deep_view().alignment == x.alignment,
        x.deep_view().body == x.body@,
        x.deep_view().seen_at == opt_view(x.seen_at),
        x.deep_view().session_statement == opt_view(x.session_statement),
        x.deep_view().kind == x.kind@,
        x.recommendation is None ==> x.deep_view().recommendation is None,
        x.recommendation is Some ==> x.deep_view().recommendation == Some(x.recommendation->0.deep_view()),
        x.deep_view().recommendation_note == opt_view(x.recommendation_note),
{
}

/// A meeting is shown field by field.
pub proof fn a_meeting_is_shown_field_by_field(x: Meeting)
    ensures
        x.deep_view().id == x.id,
        x.deep_view().session_id == x.session_id,
        x.deep_view().started_at == x.started_at@,
        x.deep_view().ended_at == opt_view(x.ended_at),
        x.deep_view().title == x.title@,
        x.deep_view().state == x.state@,
        x.deep_view().error == opt_view(x.error),
        x.deep_view().segment_count == x.segment_count,
        x.deep_view().file_count == x.file_count,
        x.deep_view().has_clean == x.has_clean,
{
}

/// A segment is shown field by field.
pub proof fn a_segment_is_shown_field_by_field(x: MeetingSegment)
    ensures
        x.deep_view().id == x.id,
        x.deep_view().seq == x.seq,
        x.deep_view().started_at == x.started_at@,
        x.deep_view().text == x.text@,
{
}

/// An action is shown field by field.
pub proof fn an_action_is_shown_field_by_field(x: MeetingAction)
    ensures
        x.deep_view().id == x.id,
        x.deep_view().position == x.position,
        x.deep_view().text == x.text@,
        x.deep_view().task_id == x.task_id,
{
}

/// A file is shown field by field.
pub proof fn a_file_is_shown_field_by_field(x: MeetingFile)
    ensures
        x.deep_view().id == x.id,
        x.deep_view().position == x.position,
        x.deep_view().name == x.name@,
        x.deep_view().kind == x.kind@,
        x.deep_view().bytes == x.bytes,
        x.deep_view().added_at == x.added_at@,
{
}

/// A file is given to the model field by field.
pub proof fn a_file_is_given_field_by_field(x: FileRow)
    ensures
        x.deep_view().name == x.name@,
        x.deep_view().kind == x.kind@,
        x.deep_view().path == x.path@,
        x.deep_view().extracted == opt_view(x.extracted),
{
}

/// A recommendation is shown field by field.
pub proof fn a_recommendation_is_shown_field_by_field(x: Recommendation)
    ensures
        x.deep_view().id == x.id@,
        x.deep_view().advice == x.advice@,
        x.deep_view().why == x.why@,
        x.deep_view().minutes == x.minutes,
        x.deep_view().source == match x.source {
            Some(s) => Some(s@),
            None => None,
        },
{
}

/// A tally is shown field by field.
pub proof fn a_tally_is_shown_field_by_field(x: Tally)
    ensures
        x.deep_view().name == x.name@,
        x.deep_view().ms == x.ms,
{
}

/// The titles of an application are shown field by field.
pub proof fn titles_are_shown_field_by_field(x: AppTitles)
    ensures
        x.deep_view().app == x.app@,
        x.deep_view().titles == deep(x.titles@),
{
}

/// What was observed is shown field by field.
pub proof fn what_was_observed_is_shown_field_by_field(x: Observed)
    ensures
        x.deep_view().per_app == deep(x.per_app@),
        x.deep_view().per_title == deep(x.per_title@),
        x.deep_view().active_ms == x.active_ms,
        x.deep_view().afk_ms == x.afk_ms,
{
}

/// Every table of a store is kept row by row.
pub proof fn a_store_is_kept_table_by_table(s: Store)
    ensures
        s@.sessions == deep(s.sessions@),
        s@.tasks == deep(s.tasks@),
        s@.labels == deep(s.labels@),
        s@.task_labels == s.task_labels@,
        s@.analyses == deep(s.analyses@),
        s@.meetings == deep(s.meetings@),
        s@.segments == deep(s.segments@),
        s@.files == deep(s.files@),
        s@.actions == deep(s.actions@),
        s@.settings == deep(s.settings@),
{
}

/// A list is shown item by item.
pub proof fn a_list_is_shown_item_by_item(v: Seq<TaskRow>, i: int)
    requires
        0 <= i < v.len(),
    ensures
        deep(v).len() == v.len(),
        deep(v)[i] == v[i].deep_view(),
{
}

// ---------------------------------------------------------------------- the rows

/// A row is found by its id: the one that has it, and none where no row has.
pub proof fn a_row_is_found_by_its_id<R: Keyed>(s: Seq<R::V>, id: i64, i: int)
    requires
        table::ascending::<R>(s),
    ensures
        0 <= i < s.len() ==> row_at::<R>(s, R::key(s[i])) == Some(s[i]),
        (forall|j: int| 0 <= j < s.len() ==> R::key(#[trigger] s[j]) != id) ==> row_at::<R>(s, id)
            is None,
{
    if 0 <= i < s.len() {
        table::lemma_row_at::<R>(s, i);
    }
    if forall|j: int| 0 <= j < s.len() ==> R::key(#[trigger] s[j]) != id {
        table::lemma_row_missing::<R>(s, id);
    }
}

/// A row that is put in takes the place of the one with its id, and no other
/// row changes.
pub proof fn a_row_takes_its_place<R: Keyed>(s: Seq<R::V>, id: i64, v: R::V, i: int)
    requires
        0 <= i < s.len(),
    ensures
        put::<R>(s, id, v).len() == s.len(),
        R::key(s[i]) == id ==> put::<R>(s, id, v)[i] == v,
        R::key(s[i]) != id ==> put::<R>(s, id, v)[i] == s[i],
{
}

/// A row that is taken out is gone, and no other row is.
pub proof fn a_row_taken_out_is_gone<R: Keyed>(s: Seq<R::V>, id: i64, other: i64)
    requires
        table::ascending::<R>(s),
    ensures
        row_at::<R>(without::<R>(s, id), id) is None,
        other != id ==> row_at::<R>(without::<R>(s, id), other) == row_at::<R>(s, other),
{
    let keep = table::not_key::<R>(id);
    table::lemma_filter_reads::<R>(s, keep, id);
    table::lemma_filter_reads::<R>(s, keep, other);
    if row_at::<R>(s, id) is Some {
        let i = table::lemma_row_found::<R>(s, id);
    }
    if row_at::<R>(s, other) is Some {
        let i = table::lemma_row_found::<R>(s, other);
    }
}

/// The next id is one more than the last, and 1 in an empty table.
pub proof fn ids_go_up_by_one<R: Keyed>(s: Seq<R::V>, v: R::V)
    ensures
        fresh::<R>(Seq::empty()) == 1,
        fresh::<R>(s.push(v)) == R::key(v) + 1,
{
}

/// The rows of a home are those that belong to it, and the others those that do
/// not.
pub proof fn rows_belong_to_their_home<R: Placed>(s: Seq<R::V>, home: Option<i64>, id: i64)
    requires
        table::ascending::<R>(s),
    ensures
        ({
            let (r, here, there) = (
                row_at::<R>(s, id),
                row_at::<R>(at_home::<R>(s, home), id),
                row_at::<R>(elsewhere::<R>(s, home), id),
            );
            &&& r is None ==> here is None && there is None
            &&& r is Some && R::home(r->0) == home ==> here == r && there is None
            &&& r is Some && R::home(r->0) != home ==> here is None && there == r
        }),
{
    table::lemma_filter_reads::<R>(s, is_home::<R>(home), id);
    table::lemma_filter_reads::<R>(s, not_home::<R>(home), id);
}

/// The next place in a home is one behind the highest that is taken there, and
/// the first one where none is.
pub proof fn the_next_place_is_one_behind_the_last<R: Placed>(
    s: Seq<R::V>,
    home: Option<i64>,
    start: int,
)
    ensures
        match top::<R>(s, home) {
            None => after_top::<R>(s, home, start) == start && forall|i: int|
                0 <= i < s.len() ==> R::home(#[trigger] s[i]) != home,
            Some(p) => {
                &&& after_top::<R>(s, home, start) == p + 1
                &&& exists|i: int|
                    0 <= i < s.len() && R::home(#[trigger] s[i]) == home && R::position(s[i]) == p
                &&& forall|i: int|
                    0 <= i < s.len() && R::home(#[trigger] s[i]) == home ==> R::position(s[i]) <= p
            },
        },
    decreases s.len(),
{
    if s.len() > 0 {
        let (r, l) = (s.drop_last(), s[s.len() - 1]);
        the_next_place_is_one_behind_the_last::<R>(r, home, start);
        assert forall|i: int| 0 <= i < r.len() implies r[i] == s[i] by {}
        if let Some(p) = top::<R>(r, home) {
            let i = choose|i: int|
                0 <= i < r.len() && R::home(#[trigger] r[i]) == home && R::position(r[i]) == p;
            assert(R::home(s[i]) == home && R::position(s[i]) == p);
        }
        if R::home(l) == home {
            assert(R::home(s[s.len() - 1]) == home);
        }
        match top::<R>(s, home) {
            None => {
                assert forall|i: int| 0 <= i < s.len() implies R::home(#[trigger] s[i]) != home by {
                    if i < r.len() {
                        assert(R::home(r[i]) != home);
                    }
                }
            },
            Some(p) => {
                assert forall|i: int| 0 <= i < s.len() && R::home(#[trigger] s[i]) == home implies
                    R::position(s[i]) <= p by {
                    if i < r.len() {
                        assert(R::home(r[i]) == home);
                    }
                }
            },
        }
    }
}

/// Where a row stands, and whose it is.
pub proof fn where_a_row_stands(
    t: TaskRow<Seq<char>>,
    g: SegmentRow<Seq<char>>,
    f: StoredFile<Seq<char>>,
    a: ActionRow<Seq<char>>,
)
    ensures
        <TaskRow as Placed>::home(t) == t.session_id && <TaskRow as Placed>::position(t)
            == t.position && <TaskRow as Keyed>::key(t) == t.id,
        <SegmentRow as Placed>::home(g) == Some(g.meeting_id) && <SegmentRow as Placed>::position(g)
            == g.seq && <SegmentRow as Keyed>::key(g) == g.id,
        <StoredFile as Placed>::home(f) == Some(f.meeting_id) && <StoredFile as Placed>::position(f)
            == f.position && <StoredFile as Keyed>::key(f) == f.id,
        <ActionRow as Placed>::home(a) == Some(a.meeting_id) && <ActionRow as Placed>::position(a)
            == a.position && <ActionRow as Keyed>::key(a) == a.id,
{
}

/// A session is kept where it is held and open.
pub proof fn an_open_session_is_kept(v: Tables, id: i64)
    ensures
        keeps(v, Some(id)) <==> open_in(v, id),
        !keeps(v, None),
{
}

// ---------------------------------------------------------------------- the times

/// Of two instants the earlier and the later one.
pub proof fn of_two_instants_one_is_earlier(a: Stamp, b: Stamp)
    ensures
        earlier(a, b) <==> a.secs < b.secs || (a.secs == b.secs && a.nanos < b.nanos),
        earliest(a, b) == a || earliest(a, b) == b,
        latest(a, b) == a || latest(a, b) == b,
        !earlier(a, earliest(a, b)) && !earlier(b, earliest(a, b)),
        !earlier(latest(a, b), a) && !earlier(latest(a, b), b),
{
}

/// A timestamp with an offset is read as that, and one without as UTC.
pub proof fn a_timestamp_is_read_either_way(s: Seq<char>, t: Stamp)
    ensures
        rfc3339(s) == Some(t) ==> instant_of(s) == Some(t),
        rfc3339(s) is None ==> instant_of(s) == naive(s),
{
}

/// How long the months are.
pub proof fn how_long_a_month_is(y: int)
    ensures
        days_in(y, 1) == 31 && days_in(y, 3) == 31 && days_in(y, 5) == 31 && days_in(y, 7) == 31
            && days_in(y, 8) == 31 && days_in(y, 10) == 31 && days_in(y, 12) == 31,
        days_in(y, 4) == 30 && days_in(y, 6) == 30 && days_in(y, 9) == 30 && days_in(y, 11) == 30,
        days_in(y, 2) == if leap_year(y) {
            29int
        } else {
            28
        },
        leap_year(y) <==> y % 400 == 0 || (y % 4 == 0 && y % 100 != 0),
{
}

/// A quotient without its rest, whatever the sign.
pub proof fn a_quotient_is_cut_toward_zero(q: int, r: int, d: int)
    requires
        q >= 0,
        0 <= r < d,
    ensures
        toward_zero(q * d + r, d) == q,
        toward_zero(-(q * d + r), d) == -q,
{
    vstd::arithmetic::div_mod::lemma_fundamental_div_mod_converse(q * d + r, d, q, r);
    assert(q * d + r >= 0) by (nonlinear_arith)
        requires
            q >= 0,
            0 <= r < d,
    ;
}

// ------------------------------------------------------------------ the documents

/// A document is shown value by value, in the order in which it holds them.
pub proof fn a_document_is_shown_value_by_value(
    b: bool,
    n: i64,
    s: String,
    items: Vec<Json>,
    pairs: Vec<Member>,
    i: int,
)
    ensures
        Json::Null.deep_view() == Doc::Null,
        Json::Bool(b).deep_view() == Doc::Bool(b),
        Json::Int(n).deep_view() == Doc::Int(n),
        Json::Number(s).deep_view() == Doc::Number(s@),
        Json::Str(s).deep_view() == Doc::Str(s@),
        Json::Array(items).deep_view() is Array,
        Json::Array(items).deep_view()->Array_0.len() == items@.len(),
        0 <= i < items@.len() ==> Json::Array(items).deep_view()->Array_0[i]
            == items@[i].deep_view(),
        Json::Object(pairs).deep_view() is Object,
        Json::Object(pairs).deep_view()->Object_0.len() == pairs@.len(),
        0 <= i < pairs@.len() ==> Json::Object(pairs).deep_view()->Object_0[i] == (
            pairs@[i].name@,
            pairs@[i].value.deep_view(),
        ),
{
    json::lemma_array(items);
    json::lemma_object(pairs);
}

/// A value is read as what it is, and as nothing else.
pub proof fn a_value_is_read_as_what_it_is(
    d: Doc,
    s: Seq<char>,
    n: i64,
    a: Seq<Doc>,
    v: Seq<(Seq<char>, Doc)>,
    name: Seq<char>,
)
    ensures
        Doc::Str(s).string() == Some(s) && (!(d is Str) ==> d.string() is None),
        Doc::Int(n).integer() == Some(n) && (!(d is Int) ==> d.integer() is None),
        Doc::Array(a).array() == Some(a) && (!(d is Array) ==> d.array() is None),
        !(d is Object) ==> d.field(name) == Doc::Null,
        json::extended(Doc::Object(v), name, d) == Doc::Object(v.push((name, d))),
        !(d is Object) ==> json::extended(d, name, d) == d,
{
}

// --------------------------------------------------------------------- the errors

/// An error is shown as what it is, with what it says.
pub proof fn an_error_is_shown_as_what_it_is(s: String, id: i64)
    ensures
        AppError::Db(s)@ == Failure::Db(s@),
        AppError::AwUnavailable(s)@ == Failure::AwUnavailable(s@),
        AppError::BadTimestamp(s)@ == Failure::BadTimestamp(s@),
        AppError::Other(s)@ == Failure::Other(s@),
        AppError::Refused(s)@ == Failure::Refused(s@),
        AppError::SessionClosed(id)@ == Failure::SessionClosed(id),
{
}

} // verus!
