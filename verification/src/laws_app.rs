//! What is promised of the rest of the app: what it asks of the model, what it
//! recommends, when it beats, what it notifies.

use vstd::prelude::*;

use vstd::utf8::encode_utf8;

use crate::attach::media_type;
use crate::aw::bucket_of;
use crate::aw::Bucket;
use crate::blocks::cached;
use crate::blocks::files_blocks;
use crate::blocks::notes_blocks;
use crate::blocks::transcript_block;
use crate::blocks::MeetingContext;
use crate::build_info::banner_of;
use crate::build_info::newest_of;
use crate::build_info::stale;
use crate::claude::check_request;
use crate::claude::checkpoint_prompt;
use crate::claude::checkpoint_request;
use crate::claude::minutes_over;
use crate::claude::notes_request;
use crate::claude::request_suffix;
use crate::claude::upload_name_of;
use crate::claude::CHECKPOINT_SYSTEM;
use crate::claude::MEETING_SYSTEM;
use crate::claude::OBSERVER;
use crate::claude::SYSTEM;
use crate::claude::UNTRUSTED;
use crate::error::Failure;
use crate::json::Doc;
use crate::meeting::loaded;
use crate::meeting::needs_bytes;
use crate::meeting::notes_ended;
use crate::meeting::notes_failed;
use crate::meeting::resumed;
use crate::meeting::said;
use crate::meeting::LoadedView;
use crate::meetings::failed;
use crate::meetings::finished_with;
use crate::meetings::underway;
use crate::meetings::with_meeting;
use crate::meetings::FileRow;
use crate::models::Analysis;
use crate::notify;
use crate::notify::clipped;
use crate::notify::last_space;
use crate::prompt::prompt_text;
use crate::prompt::Context;
use crate::recommendations;
use crate::recommendations::known;
use crate::recommendations::lookup;
use crate::recommendations::menu_line;
use crate::recommendations::menu_text;
use crate::recommendations::offered;
use crate::recommendations::resolved;
use crate::recommendations::Recommendation;
use crate::resume_units::advice;
use crate::resume_units::contents;
use crate::resume_units::Layout;
use crate::rows::MeetingRow;
use crate::rows::Tables;
use crate::scheduler;
use crate::scheduler::band_of;
use crate::scheduler::beats;
use crate::scheduler::slept;
use crate::scheduler::with_id;
use crate::table::row_at;
use crate::text;

verus! {

broadcast use vstd::seq_lib::group_seq_properties;

// --------------------------------------------------------------- what is notified

/// Where the last space of a text stands.
pub proof fn the_last_space_is_the_last(s: Seq<char>, k: int)
    requires
        -1 <= k < s.len(),
        forall|i: int| k < i < s.len() ==> #[trigger] s[i] != ' ',
    ensures
        k == -1 ==> last_space(s) is None,
        k >= 0 && s[k] == ' ' ==> last_space(s) == Some(k),
    decreases s.len(),
{
    if s.len() > 0 && k < s.len() - 1 {
        let r = s.drop_last();
        assert(s[s.len() - 1] != ' ');
        assert forall|i: int| k < i < r.len() implies #[trigger] r[i] != ' ' by {
            assert(r[i] == s[i]);
        }
        the_last_space_is_the_last(r, k);
    }
}

/// A text that is cut is cut at its last space, where what stands before that
/// is more than half of it, and else where it is full.
pub proof fn a_text_is_cut_at_a_word(s: Seq<char>, max: nat, k: int)
    requires
        text::trimmed(s).len() > max,
        -1 <= k < max,
        forall|i: int| k < i < max ==> #[trigger] text::trimmed(s)[i] != ' ',
    ensures
        ({
            let cut = text::trimmed(s).take(max as int);
            &&& k >= 0 && cut[k] == ' ' && encode_utf8(cut.take(k)).len() > max / 2 ==> clipped(
                s,
                max,
            ) == cut.take(k) + seq!['…']
            &&& k >= 0 && cut[k] == ' ' && encode_utf8(cut.take(k)).len() <= max / 2 ==> clipped(
                s,
                max,
            ) == cut + seq!['…']
            &&& k == -1 ==> clipped(s, max) == cut + seq!['…']
        }),
        notify::BODY_CHARS == 160,
{
    let cut = text::trimmed(s).take(max as int);
    assert forall|i: int| k < i < cut.len() implies #[trigger] cut[i] != ' ' by {
        assert(cut[i] == text::trimmed(s)[i]);
    }
    the_last_space_is_the_last(cut, k);
    assert(cut.push('…') =~= cut + seq!['…']);
    if k >= 0 {
        assert(cut.take(k).push('…') =~= cut.take(k) + seq!['…']);
    }
}

/// How an alignment is worded.
pub proof fn an_alignment_is_worded_in_thirds(n: i64)
    ensures
        n >= 67 ==> band_of(Some(n)) == "aligned"@,
        34 <= n < 67 ==> band_of(Some(n)) == "drifting"@,
        n < 34 ==> band_of(Some(n)) == "off track"@,
        band_of(None) == "not judged"@,
{
}

/// The analysis of an id is the first one with it.
pub proof fn an_analysis_is_found_by_its_id(
    s: Seq<Analysis<Seq<char>, Recommendation<Seq<char>>>>,
    id: i64,
    k: int,
)
    requires
        0 <= k <= s.len(),
        forall|i: int| 0 <= i < k ==> (#[trigger] s[i]).id != id,
    ensures
        k == s.len() ==> with_id(s, id) is None,
        k < s.len() && s[k].id == id ==> with_id(s, id) == Some(s[k]),
    decreases k,
{
    if k > 0 {
        let rest = s.drop_first();
        assert(s[0].id != id);
        assert forall|i: int| 0 <= i < k - 1 implies (#[trigger] rest[i]).id != id by {
            assert(rest[i] == s[i + 1]);
        }
        an_analysis_is_found_by_its_id(rest, id, k - 1);
    }
}

/// The machine slept where the wall clock is a minute or more ahead; the heart
/// beats for a session that is held, while the machine is awake.
pub proof fn the_heart_beats_while_awake(id: i64, wall: i64, mono: u64)
    ensures
        slept(wall, mono) <==> wall - mono >= 60,
        beats(Some(id), wall, mono) <==> wall - mono < 60,
        !beats(None, wall, mono),
        scheduler::HEARTBEAT_SECS == 30,
        scheduler::CHECKPOINT_TICK_SECS == 60,
        scheduler::ADOPT_POLL_SECS == 5,
{
}

// ------------------------------------------------------------------ how it is built

/// The newest of the times is one of them, and none is newer; those that cannot
/// be read do not count.
pub proof fn the_newest_time_is_one_of_them(s: Seq<Option<i128>>)
    ensures
        match newest_of(s) {
            Some(t) => s.contains(Some(t)) && forall|i: int|
                0 <= i < s.len() && #[trigger] s[i] is Some ==> s[i]->0 <= t,
            None => forall|i: int| 0 <= i < s.len() ==> #[trigger] s[i] is None,
        },
    decreases s.len(),
{
    if s.len() > 0 {
        let (r, l) = (s.drop_last(), s[s.len() - 1]);
        the_newest_time_is_one_of_them(r);
        assert forall|i: int| 0 <= i < r.len() implies r[i] == s[i] by {}
        if let Some(t) = newest_of(r) {
            let k = choose|k: int| 0 <= k < r.len() && r[k] == Some(t);
            assert(s[k] == Some(t));
        }
        assert(s.contains(l));
        if let Some(t) = newest_of(s) {
            assert forall|i: int| 0 <= i < s.len() && #[trigger] s[i] is Some implies s[i]->0
                <= t by {
                if i < r.len() {
                    assert(r[i] is Some);
                }
            }
        } else {
            assert forall|i: int| 0 <= i < s.len() implies #[trigger] s[i] is None by {
                if i < r.len() {
                    assert(r[i] is None);
                }
            }
        }
    }
}

/// A build is stale where a source is newer than it, since the newest of them.
pub proof fn a_build_is_stale_where_a_source_is_newer(b: i128, s: Seq<Option<i128>>)
    ensures
        newest_of(s) matches Some(n) ==> stale(Some(b), s) == if n > b {
            Some(n)
        } else {
            None
        },
        newest_of(s) is None ==> stale(Some(b), s) is None,
        stale(None, s) is None,
{
}

/// The line at the start says the version, when it was built, and since when it
/// is stale.
pub proof fn what_the_first_line_says(v: Seq<char>, b: Seq<char>, at: Seq<char>)
    ensures
        banner_of(v, Some(b), None) == "intentionality v"@ + v + " built "@ + b,
        banner_of(v, None, None) == "intentionality v"@ + v + " built "@ + "unknown"@,
        banner_of(v, Some(b), Some(at)) == "intentionality v"@ + v + " built "@ + b + (
        " — STALE, source changed "@ + at),
{
    assert(banner_of(v, Some(b), None) =~= "intentionality v"@ + v + " built "@ + b);
    assert(banner_of(v, None, None) =~= "intentionality v"@ + v + " built "@ + "unknown"@);
}

/// The units are warned of where they are not enabled, or one of them is not
/// what the source has; where there is no source to compare with, nothing is
/// said.
pub proof fn units_that_differ_are_warned_of(l: Layout)
    ensures
        !l.sources ==> advice(l) is None,
        l.sources && !l.enabled ==> advice(l) == Some(
            "resume gate not installed — sudo steps in README \"Waking from sleep\""@,
        ),
        l.sources && l.enabled && (exists|i: int|
            0 <= i < l.units@.len() && contents((#[trigger] l.units@[i]).installed) != contents(
                l.units@[i].source,
            )) ==> advice(l) == Some(
            "resume units in /etc differ from systemd/ — re-copy them"@,
        ),
        l.sources && l.enabled && (forall|i: int|
            0 <= i < l.units@.len() ==> contents((#[trigger] l.units@[i]).installed) == contents(
                l.units@[i].source,
            )) ==> advice(l) is None,
{
    if exists|i: int|
        0 <= i < l.units@.len() && contents((#[trigger] l.units@[i]).installed) != contents(
            l.units@[i].source,
        ) {
        let i = choose|i: int|
            0 <= i < l.units@.len() && contents((#[trigger] l.units@[i]).installed) != contents(
                l.units@[i].source,
            );
        assert(crate::resume_units::differs(l.units@[i]));
    }
}

/// The bucket of a kind is the last one of it.
pub proof fn the_last_bucket_of_a_kind_counts(s: Seq<Bucket>, kind: Seq<char>, k: int)
    requires
        -1 <= k < s.len(),
        forall|i: int| k < i < s.len() ==> (#[trigger] s[i]).kind@ != kind,
    ensures
        k == -1 ==> bucket_of(s, kind) is None,
        k >= 0 && s[k].kind@ == kind ==> bucket_of(s, kind) == Some(s[k].id@),
    decreases s.len(),
{
    if s.len() > 0 && k < s.len() - 1 {
        let r = s.drop_last();
        assert(s[s.len() - 1].kind@ != kind);
        assert forall|i: int| k < i < r.len() implies (#[trigger] r[i]).kind@ != kind by {
            assert(r[i] == s[i]);
        }
        the_last_bucket_of_a_kind_counts(r, kind, k);
        if k >= 0 {
            assert(r[k] == s[k]);
        }
    }
}

// --------------------------------------------------------------- what is recommended

/// The catalog: what is offered, in its order, and for how many minutes.
pub proof fn what_is_in_the_catalog()
    ensures
        offered().len() == 6,
        offered()[0].id == "reset_break"@ && offered()[0].minutes == 5,
        offered()[1].id == "pick_one"@ && offered()[1].minutes == 25,
        offered()[2].id == "shrink_scope"@ && offered()[2].minutes == 15,
        offered()[3].id == "wrap_up"@ && offered()[3].minutes == 5,
        offered()[4].id == "keep_going"@ && offered()[4].minutes == 5,
        offered()[5].id == "stop_for_today"@ && offered()[5].minutes == 0,
        offered()[0].advice == recommendations::RESET_BREAK_ADVICE@ && offered()[0].why
            == recommendations::RESET_BREAK_WHY@,
        offered()[1].advice == recommendations::PICK_ONE_ADVICE@ && offered()[1].why
            == recommendations::PICK_ONE_WHY@,
        offered()[2].advice == recommendations::SHRINK_SCOPE_ADVICE@ && offered()[2].why
            == recommendations::SHRINK_SCOPE_WHY@,
        offered()[3].advice == recommendations::WRAP_UP_ADVICE@ && offered()[3].why
            == recommendations::WRAP_UP_WHY@,
        offered()[4].advice == recommendations::KEEP_GOING_ADVICE@ && offered()[4].why
            == recommendations::KEEP_GOING_WHY@,
        offered()[5].advice == recommendations::STOP_FOR_TODAY_ADVICE@ && offered()[5].why
            == recommendations::STOP_FOR_TODAY_WHY@,
        forall|i: int| 0 <= i < 6 ==> (#[trigger] offered()[i]).source is None,
{
}

/// An id stands for the first entry with it; one that the catalog does not know
/// falls back to working on one card, and one that was stored reads as none.
pub proof fn an_unknown_id_falls_back(id: Seq<char>, k: int)
    requires
        0 <= k <= 6,
        forall|i: int| 0 <= i < k ==> (#[trigger] offered()[i]).id != id,
    ensures
        k == 6 ==> resolved(id).id == "pick_one"@ && resolved(id).minutes == 25,
        k == 6 && id != "quiet_window"@ ==> known(id) is None,
        k < 6 && offered()[k].id == id ==> resolved(id) == offered()[k],
        k < 6 && offered()[k].id == id && id != "quiet_window"@ ==> known(id) == Some(offered()[k]),
        known("quiet_window"@) matches Some(q) && q.id == "quiet_window"@ && q.minutes == 0
            && q.advice == recommendations::QUIET_WINDOW_ADVICE@,
{
    lemma_lookup(offered(), id, k);
}

proof fn lemma_lookup(s: Seq<Recommendation<Seq<char>>>, id: Seq<char>, k: int)
    requires
        0 <= k <= s.len(),
        forall|i: int| 0 <= i < k ==> (#[trigger] s[i]).id != id,
    ensures
        k == s.len() ==> lookup(s, id) is None,
        k < s.len() && s[k].id == id ==> lookup(s, id) == Some(s[k]),
    decreases k,
{
    if k > 0 {
        let rest = s.drop_first();
        assert(s[0].id != id);
        assert forall|i: int| 0 <= i < k - 1 implies (#[trigger] rest[i]).id != id by {
            assert(rest[i] == s[i + 1]);
        }
        lemma_lookup(rest, id, k - 1);
    }
}

/// A line of the menu names an entry and what it says.
pub proof fn a_line_of_the_menu(r: Recommendation<Seq<char>>)
    ensures
        menu_line(r) == "- "@ + r.id + ": "@ + r.advice,
{
}

// --------------------------------------------------------------- what is asked for

/// The one tool of a request, which is strict about what it takes.
pub open spec fn strict_tool(
    name: Seq<char>,
    description: Seq<char>,
    properties: Seq<(Seq<char>, Doc)>,
    required: Seq<Doc>,
) -> Doc {
    Doc::Object(
        seq![
            ("name"@, Doc::Str(name)),
            ("description"@, Doc::Str(description)),
            ("strict"@, Doc::Bool(true)),
            (
                "input_schema"@,
                Doc::Object(
                    seq![
                        ("type"@, Doc::Str("object"@)),
                        ("properties"@, Doc::Object(properties)),
                        ("required"@, Doc::Array(required)),
                        ("additionalProperties"@, Doc::Bool(false)),
                    ],
                ),
            ),
        ],
    )
}

pub open spec fn of_type(kind: Seq<char>) -> Doc {
    Doc::Object(seq![("type"@, Doc::Str(kind))])
}

/// The tool that has to be called, and the one message.
pub open spec fn must_call(name: Seq<char>) -> Doc {
    Doc::Object(seq![("type"@, Doc::Str("tool"@)), ("name"@, Doc::Str(name))])
}

pub open spec fn one_message(content: Doc) -> Doc {
    Doc::Array(seq![Doc::Object(seq![("role"@, Doc::Str("user"@)), ("content"@, content)])])
}

/// What a request for a check holds.
pub open spec fn check_asked(family: Seq<char>, ctx: Context) -> Seq<(Seq<char>, Doc)> {
    seq![
        ("model"@, Doc::Str(family + "-"@ + "opus-5"@)),
        ("max_tokens"@, Doc::Int(4096)),
        ("output_config"@, Doc::Object(seq![("effort"@, Doc::Str("low"@))])),
        ("system"@, Doc::Str(OBSERVER@ + "\n"@ + SYSTEM@)),
        (
            "tools"@,
            Doc::Array(
                seq![
                    strict_tool(
                        "record_check"@,
                        "Record an observation about how this session is going."@,
                        seq![
                            ("headline"@, of_type("string"@)),
                            ("alignment"@, of_type("integer"@)),
                            ("body"@, of_type("string"@)),
                        ],
                        seq![
                            Doc::Str("headline"@),
                            Doc::Str("alignment"@),
                            Doc::Str("body"@),
                        ],
                    ),
                ],
            ),
        ),
        ("tool_choice"@, must_call("record_check"@)),
        ("messages"@, one_message(Doc::Str(prompt_text(ctx)))),
    ]
}

/// A check is asked for with the prompt of the stretch, and has to be answered
/// by a headline, an alignment and a body.
pub proof fn how_a_check_is_asked_for(family: Seq<char>, ctx: Context)
    ensures
        check_request(family, ctx) == Doc::Object(check_asked(family, ctx)),
{
    assert(check_request(family, ctx)->Object_0 =~= check_asked(family, ctx));
}

/// What a request for a checkpoint holds.
pub open spec fn checkpoint_asked(family: Seq<char>, ctx: Context) -> Seq<(Seq<char>, Doc)> {
    seq![
        ("model"@, Doc::Str(family + "-"@ + "opus-5"@)),
        ("max_tokens"@, Doc::Int(4096)),
        ("output_config"@, Doc::Object(seq![("effort"@, Doc::Str("low"@))])),
        ("system"@, Doc::Str(OBSERVER@ + "\n"@ + CHECKPOINT_SYSTEM@)),
        (
            "tools"@,
            Doc::Array(
                seq![
                    strict_tool(
                        "record_checkpoint"@,
                        "Record what the session looked like at its stopping point, and what to do from here."@,
                        seq![
                            ("headline"@, of_type("string"@)),
                            ("alignment"@, of_type("integer"@)),
                            ("body"@, of_type("string"@)),
                            ("recommendation_id"@, of_type("string"@)),
                            ("recommendation_note"@, of_type("string"@)),
                        ],
                        seq![
                            Doc::Str("headline"@),
                            Doc::Str("alignment"@),
                            Doc::Str("body"@),
                            Doc::Str("recommendation_id"@),
                            Doc::Str("recommendation_note"@),
                        ],
                    ),
                ],
            ),
        ),
        ("tool_choice"@, must_call("record_checkpoint"@)),
        ("messages"@, one_message(Doc::Str(checkpoint_prompt(ctx)))),
    ]
}

/// A checkpoint is asked for with the prompt of the stretch, how far past its
/// time it is and the menu, and has to be answered by a recommendation too.
pub proof fn how_a_checkpoint_is_asked_for(family: Seq<char>, ctx: Context, m: i64)
    ensures
        checkpoint_request(family, ctx) == Doc::Object(checkpoint_asked(family, ctx)),
        checkpoint_prompt(ctx) == prompt_text(ctx) + "\nThe intended time has run out — "@
            + text::digits(minutes_over(ctx))
            + " min past it.\n\nChoose exactly one recommendation_id from this list:\n"@
            + menu_text() + "\n"@,
        ctx.intended_minutes is None ==> minutes_over(ctx) == 0,
        ctx.intended_minutes == Some(m) && ctx.elapsed_minutes >= m ==> minutes_over(ctx)
            == ctx.elapsed_minutes - m,
        ctx.intended_minutes == Some(m) && ctx.elapsed_minutes <= m ==> minutes_over(ctx) == 0,
{
    assert(checkpoint_request(family, ctx)->Object_0 =~= checkpoint_asked(family, ctx));
}

/// What a request for notes holds.
pub open spec fn notes_asked(family: Seq<char>, said: Seq<char>, ctx: MeetingContext) -> Seq<(Seq<char>, Doc)> {
    seq![
        ("model"@, Doc::Str(family + "-"@ + "sonnet-5"@)),
        ("max_tokens"@, Doc::Int(16384)),
        ("system"@, Doc::Str(MEETING_SYSTEM@ + UNTRUSTED@)),
        (
            "tools"@,
            Doc::Array(
                seq![
                    strict_tool(
                        "record_meeting_notes"@,
                        "Record the notes for one meeting."@,
                        seq![
                            ("title"@, of_type("string"@)),
                            ("summary"@, of_type("string"@)),
                            (
                                "action_items"@,
                                Doc::Object(
                                    seq![
                                        ("type"@, Doc::Str("array"@)),
                                        ("items"@, of_type("string"@)),
                                    ],
                                ),
                            ),
                        ],
                        seq![
                            Doc::Str("title"@),
                            Doc::Str("summary"@),
                            Doc::Str("action_items"@),
                        ],
                    ),
                ],
            ),
        ),
        ("tool_choice"@, must_call("record_meeting_notes"@)),
        (
            "messages"@,
            one_message(
                Doc::Array(
                    cached(notes_blocks(ctx.notes@) + files_blocks(ctx.files@)).push(
                        transcript_block(said),
                    ),
                ),
            ),
        ),
    ]
}

/// Notes are asked for with the user's notes, the files and the transcript, and
/// have to be answered by a title, a summary and a list of actions.
pub proof fn how_notes_are_asked_for(family: Seq<char>, said: Seq<char>, ctx: MeetingContext)
    ensures
        notes_request(family, said, ctx) == Doc::Object(notes_asked(family, said, ctx)),
{
    assert(notes_request(family, said, ctx)->Object_0 =~= notes_asked(family, said, ctx));
}

/// An upload is named by its type, and a request by its id.
pub proof fn what_an_upload_is_named(t: Seq<char>, id: Seq<char>)
    ensures
        upload_name_of("application/pdf"@) == "attachment.pdf"@,
        upload_name_of("image/png"@) == "attachment.png"@,
        upload_name_of("image/jpeg"@) == "attachment.jpg"@,
        upload_name_of("image/gif"@) == "attachment.gif"@,
        upload_name_of("image/webp"@) == "attachment.webp"@,
        t != "application/pdf"@ && t != "image/png"@ && t != "image/jpeg"@ && t != "image/gif"@ && t
            != "image/webp"@ ==> upload_name_of(t) == "attachment"@,
        request_suffix(Some(id)) == " (request "@ + id + ")"@,
        request_suffix(None) == Seq::<char>::empty(),
{
    reveal_strlit("application/pdf");
    reveal_strlit("image/png");
    reveal_strlit("image/jpeg");
    reveal_strlit("image/gif");
    reveal_strlit("image/webp");
    assert("image/png"@[6] == 'p' && "image/gif"@[6] == 'g');
    assert("image/jpeg"@[6] == 'j' && "image/webp"@[6] == 'w');
    assert("application/pdf"@.len() == 15 && "image/png"@.len() == 9 && "image/gif"@.len() == 9
        && "image/jpeg"@.len() == 10 && "image/webp"@.len() == 10);
}

// ------------------------------------------------------------------- the meeting

/// A meeting that is picked back up records again: its end, its error and its
/// repaired transcript are gone, and all else is what it was.
pub proof fn a_meeting_picked_up_records_again(m: MeetingRow<Seq<char>>, s: Seq<char>)
    ensures
        resumed(m) == (MeetingRow {
            state: "recording"@,
            ended_at: None,
            error: None,
            clean_transcript: None,
            ..m
        }),
        said(Some(s)) == s,
        said(None).len() == 0,
{
}

/// A text and an Office file are what was read out of them; a PDF and an image
/// are uploaded as what their bytes are; what cannot be given is left out.
pub proof fn how_an_attachment_is_loaded(
    row: FileRow<Seq<char>>,
    b: Seq<u8>,
    bytes: Option<Seq<u8>>,
)
    ensures
        row.kind == "text"@ || row.kind == "office"@ ==> loaded(row, bytes) == match row.extracted {
            Some(t) => Some(LoadedView::Text(t)),
            None => None,
        },
        row.kind == "pdf"@ ==> loaded(row, Some(b)) == Some(
            LoadedView::Upload { bytes: b, media_type: "application/pdf"@ },
        ),
        row.kind == "pdf"@ || row.kind == "image"@ ==> loaded(row, None) is None && needs_bytes(
            row.kind,
        ),
        row.kind == "image"@ ==> loaded(row, Some(b)) == match media_type(b) {
            Some(t) => Some(LoadedView::Upload { bytes: b, media_type: t }),
            None => None,
        },
        row.kind == "text"@ || row.kind == "office"@ ==> !needs_bytes(row.kind),
        row.kind != "text"@ && row.kind != "office"@ && row.kind != "pdf"@ && row.kind != "image"@
            ==> loaded(row, bytes) is None && !needs_bytes(row.kind),
{
    reveal_strlit("text");
    reveal_strlit("office");
    reveal_strlit("pdf");
    reveal_strlit("image");
    assert("text"@.len() == 4 && "office"@.len() == 6 && "pdf"@.len() == 3 && "image"@.len() == 5);
}

/// Notes that could not be written or stored mark a meeting that is under way
/// with what went wrong; those that could be are stored.
pub proof fn notes_end_stored_or_marked(
    v: Tables,
    id: i64,
    title: Seq<char>,
    summary: Seq<char>,
    items: Seq<Seq<char>>,
    now: Seq<char>,
    e: Failure,
    m: MeetingRow<Seq<char>>,
)
    ensures
        match finished_with(v, id, title, summary, items, now) {
            Ok(u) => notes_ended(v, id, Ok((title, summary, items)), now) == (u, None::<Failure>),
            Err(f) => notes_ended(v, id, Ok((title, summary, items)), now) == (
                notes_failed(v, id, f, now),
                Some(f),
            ),
        },
        notes_ended(v, id, Err(e), now) == (notes_failed(v, id, e, now), Some(e)),
        row_at::<MeetingRow>(v.meetings, id) == Some(m) && underway(m) ==> notes_failed(
            v,
            id,
            e,
            now,
        ) == with_meeting(v, id, failed(m, e.message(), now)),
        row_at::<MeetingRow>(v.meetings, id) == Some(m) && !underway(m) ==> notes_failed(
            v,
            id,
            e,
            now,
        ) == v,
        row_at::<MeetingRow>(v.meetings, id) is None ==> notes_failed(v, id, e, now) == v,
{
}

} // verus!
