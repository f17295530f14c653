//! What is read out of the model's answers.

use vstd::prelude::*;

use crate::claude::api_message;
use crate::claude::clamped;
use crate::claude::escaped_twice;
use crate::claude::input_of;
use crate::claude::list_at;
use crate::claude::listed;
use crate::claude::refused_with;
use crate::claude::reworded;
use crate::claude::says_nothing;
use crate::claude::summary_in;
use crate::claude::text_at;
use crate::claude::title_in;
use crate::claude::tool_call;
use crate::claude::unescaped;
use crate::claude::MAX_ACTION_ITEMS;
use crate::error::Failure;
use crate::json;
use crate::json::Doc;
use crate::text;

verus! {

broadcast use vstd::seq_lib::group_seq_properties;

/// The text under a name is read without the whitespace round it; where there
/// is no string under the name, nothing is read.
pub proof fn a_text_is_read_trimmed(input: Doc, key: Seq<char>, s: Seq<char>)
    ensures
        input.field(key) == Doc::Str(s) ==> text_at(input, key) == text::trimmed(s),
        !(input.field(key) is Str) ==> text_at(input, key).len() == 0,
{
}

/// The title of the notes is the one that was given, without the whitespace
/// round it. They are untitled only where no title was given, or a blank one.
pub proof fn a_title_is_the_one_given(input: Doc, s: Seq<char>)
    ensures
        input.field("title"@) == Doc::Str(s) && text::trimmed(s).len() > 0 ==> title_in(input)
            == text::trimmed(s),
        input.field("title"@) == Doc::Str(s) && text::trimmed(s).len() == 0 ==> title_in(input)
            == "Untitled meeting"@,
        !(input.field("title"@) is Str) ==> title_in(input) == "Untitled meeting"@,
{
}

/// A title that has no whitespace at its ends is read as it is.
pub proof fn a_clean_title_is_kept(input: Doc, s: Seq<char>)
    requires
        input.field("title"@) == Doc::Str(s),
        s.len() > 0,
        !text::white(s[0]),
        !text::white(s.last()),
    ensures
        title_in(input) == s,
{
    text::lemma_trimmed_already(s);
}

/// The tool's input is that of the first block that calls a tool; an answer in
/// which no block does, or that has no blocks, has none.
pub proof fn the_first_tool_call_counts(payload: Doc, blocks: Seq<Doc>, k: int)
    requires
        payload.field("content"@) == Doc::Array(blocks),
        0 <= k <= blocks.len(),
        forall|i: int| 0 <= i < k ==> (#[trigger] blocks[i]).field("type"@) != Doc::Str(
            "tool_use"@,
        ),
    ensures
        k == blocks.len() ==> input_of(payload) is None,
        k < blocks.len() && blocks[k].field("type"@) == Doc::Str("tool_use"@) ==> input_of(payload)
            == Some(blocks[k].field("input"@)),
{
    lemma_tool_call(blocks, k);
}

proof fn lemma_tool_call(blocks: Seq<Doc>, k: int)
    requires
        0 <= k <= blocks.len(),
        forall|i: int| 0 <= i < k ==> (#[trigger] blocks[i]).field("type"@) != Doc::Str(
            "tool_use"@,
        ),
    ensures
        k == blocks.len() ==> tool_call(blocks) is None,
        k < blocks.len() && blocks[k].field("type"@) == Doc::Str("tool_use"@) ==> tool_call(blocks)
            == Some(blocks[k]),
    decreases k,
{
    if k > 0 {
        let rest = blocks.drop_first();
        assert(blocks[0].field("type"@) != Doc::Str("tool_use"@));
        assert forall|i: int| 0 <= i < k - 1 implies (#[trigger] rest[i]).field("type"@)
            != Doc::Str("tool_use"@) by {
            assert(rest[i] == blocks[i + 1]);
        }
        lemma_tool_call(rest, k - 1);
    }
}

/// An answer without a list of blocks calls no tool.
pub proof fn an_answer_without_blocks_calls_no_tool(payload: Doc)
    requires
        !(payload.field("content"@) is Array),
    ensures
        input_of(payload) is None,
{
}

/// A check or a checkpoint counts only where it has both a headline and a
/// body, neither of them blank.
pub proof fn a_check_needs_a_headline_and_a_body(input: Doc, h: Seq<char>, b: Seq<char>)
    ensures
        !(input.field("headline"@) is Str) ==> says_nothing(input),
        !(input.field("body"@) is Str) ==> says_nothing(input),
        input.field("headline"@) == Doc::Str(h) && input.field("body"@) == Doc::Str(b) ==> (
        says_nothing(input) <==> text::trimmed(h).len() == 0 || text::trimmed(b).len() == 0),
{
}

/// Lists are read item by item: what is read of two in a row is what is read
/// of each, a text is read without the whitespace round it, and what is blank
/// or no text is left out.
pub proof fn a_list_is_read_item_by_item(a: Seq<Doc>, b: Seq<Doc>, d: Doc, s: Seq<char>)
    ensures
        listed(a + b) == listed(a) + listed(b),
        d == Doc::Str(s) && text::trimmed(s).len() > 0 ==> listed(seq![d]) == seq![
            text::trimmed(s),
        ],
        d == Doc::Str(s) && text::trimmed(s).len() == 0 ==> listed(seq![d]) == Seq::<
            Seq<char>,
        >::empty(),
        !(d is Str) ==> listed(seq![d]) == Seq::<Seq<char>>::empty(),
    decreases b.len(),
{
    assert(seq![d].drop_last() =~= seq![]);
    assert(listed(seq![d].drop_last()) =~= seq![]);
    if b.len() == 0 {
        assert(a + b =~= a);
        assert(listed(a) + listed(b) =~= listed(a));
    } else {
        a_list_is_read_item_by_item(a, b.drop_last(), d, s);
        assert((a + b).drop_last() =~= a + b.drop_last());
        assert((a + b).last() == b.last());
        assert(listed(a + b) =~= listed(a) + listed(b));
    }
}

/// Of a list the first items are kept, as many as may be; of the notes these
/// are a dozen.
pub proof fn a_list_keeps_its_first_items(input: Doc, key: Seq<char>, items: Seq<Doc>, max: nat)
    ensures
        input.field(key) == Doc::Array(items) ==> list_at(input, key, max).is_prefix_of(
            listed(items),
        ) && list_at(input, key, max).len() == if listed(items).len() < max {
            listed(items).len()
        } else {
            max
        },
        !(input.field(key) is Array) ==> list_at(input, key, max).len() == 0,
        MAX_ACTION_ITEMS == 12,
{
    if let Some(v) = input.field(key).array() {
        if listed(v).len() > max {
            assert(listed(v).take(max as int) =~= listed(v).subrange(0, max as int));
        } else {
            assert(listed(v) =~= listed(v).subrange(0, listed(v).len() as int));
        }
    }
}

/// A score is the number that was given, kept between 0 and 100; where no
/// whole number was given there is none.
pub proof fn a_score_is_the_one_given(n: i64)
    ensures
        clamped(None) is None,
        0 <= n <= 100 ==> clamped(Some(n)) == Some(n),
        n < 0 ==> clamped(Some(n)) == Some(0i64),
        n > 100 ==> clamped(Some(n)) == Some(100i64),
{
}

/// A document is left as it is where it has a line break of its own, or no
/// escaped one.
pub proof fn a_clean_document_is_kept(doc: Seq<char>, parsed: Option<Seq<char>>)
    requires
        doc.contains('\n') || forall|i: int|
            0 <= i < doc.len() - 1 ==> !((#[trigger] doc[i]) == '\\' && doc[i + 1] == 'n'),
    ensures
        unescaped(doc, parsed) == doc,
{
    reveal_strlit("\\n");
    if escaped_twice(doc) {
        let i = choose|i: int| #[trigger] text::occurs_at(doc, "\\n"@, i);
        assert(doc.subrange(i, i + 2)[0] == doc[i] && doc.subrange(i, i + 2)[1] == doc[i + 1]);
    }
}

/// A document that has only escaped line breaks is what it reads as between
/// quotes; where it reads as nothing, each escaped line break becomes a real
/// one and all else is kept.
pub proof fn an_escaped_document_is_read_once_more(
    before: Seq<char>,
    after: Seq<char>,
    parsed: Option<Seq<char>>,
)
    requires
        !before.contains('\n'),
        !after.contains('\n'),
        !before.contains('\\'),
        !after.contains('\\'),
    ensures
        unescaped(before + seq!['\\', 'n'] + after, parsed) == match parsed {
            Some(s) => s,
            None => before + seq!['\n'] + after,
        },
{
    reveal_strlit("\\n");
    reveal_strlit("\n");
    let esc = seq!['\\', 'n'];
    assert("\\n"@ =~= esc);
    assert("\n"@ =~= seq!['\n']);
    let doc = before + esc + after;
    assert(!doc.contains('\n')) by {
        if doc.contains('\n') {
            let i = choose|i: int| 0 <= i < doc.len() && doc[i] == '\n';
            if i < before.len() {
                assert(before[i] == '\n');
            } else if i >= before.len() + 2 {
                assert(after[i - before.len() - 2] == '\n');
            }
        }
    }
    assert(doc.subrange(before.len() as int, (before.len() + 2) as int) =~= esc);
    assert(text::occurs_at(doc, "\\n"@, before.len() as int));
    lemma_escape(before, after);
}

proof fn lemma_untouched(s: Seq<char>)
    requires
        !s.contains('\\'),
    ensures
        text::replaced(s, seq!['\\', 'n'], seq!['\n']) == s,
    decreases s.len(),
{
    if s.len() > 0 {
        let rest = s.drop_first();
        assert(!rest.contains('\\')) by {
            if rest.contains('\\') {
                let i = choose|i: int| 0 <= i < rest.len() && rest[i] == '\\';
                assert(s[i + 1] == '\\');
            }
        }
        lemma_untouched(rest);
        if text::occurs_at(s, seq!['\\', 'n'], 0) {
            assert(s.subrange(0, 2)[0] == s[0]);
            assert(seq!['\\', 'n'][0] == '\\');
        }
        assert(seq![s[0]] + rest =~= s);
    }
}

proof fn lemma_escape(before: Seq<char>, after: Seq<char>)
    requires
        !before.contains('\\'),
        !after.contains('\\'),
    ensures
        text::replaced(before + seq!['\\', 'n'] + after, seq!['\\', 'n'], seq!['\n']) == before
            + seq!['\n'] + after,
    decreases before.len(),
{
    let esc = seq!['\\', 'n'];
    let s = before + esc + after;
    if before.len() == 0 {
        assert(s.subrange(0, 2) =~= esc);
        assert(s.skip(2) =~= after);
        lemma_untouched(after);
        assert(seq!['\n'] + after =~= before + seq!['\n'] + after);
    } else {
        let rest = before.drop_first();
        assert(!rest.contains('\\')) by {
            if rest.contains('\\') {
                let i = choose|i: int| 0 <= i < rest.len() && rest[i] == '\\';
                assert(before[i + 1] == '\\');
            }
        }
        lemma_escape(rest, after);
        assert(s[0] == before[0]);
        assert(before.contains(before[0]));
        if text::occurs_at(s, esc, 0) {
            assert(s.subrange(0, 2)[0] == s[0]);
        }
        assert(s.drop_first() =~= rest + esc + after);
        assert(seq![s[0]] + (rest + seq!['\n'] + after) =~= before + seq!['\n'] + after);
    }
}

/// A write-up that reads cleanly is kept, without the whitespace round it.
pub proof fn a_clean_write_up_is_kept(input: Doc, s: Seq<char>)
    requires
        input.field("summary"@) == Doc::Str(s),
        text::trimmed(s).contains('\n'),
    ensures
        summary_in(input) == text::trimmed(s),
{
    a_clean_document_is_kept(
        text::trimmed(s),
        json::literal("\""@ + text::trimmed(s) + "\""@),
    );
}

/// Only an answer that stopped for a refusal is refused. The refusal names its
/// category, where there is one, and the request.
pub proof fn only_a_refusal_is_refused(payload: Doc, request_id: Seq<char>, c: Seq<char>)
    ensures
        payload.field("stop_reason"@) != Doc::Str("refusal"@) ==> refused_with(payload, request_id)
            is None,
        payload.field("stop_reason"@) == Doc::Str("refusal"@) && payload.field(
            "stop_details"@,
        ).field("category"@) == Doc::Str(c) ==> refused_with(payload, request_id) == Some(
            Failure::Refused(" (category: "@ + c + ")"@ + request_id),
        ),
        payload.field("stop_reason"@) == Doc::Str("refusal"@) && !(payload.field(
            "stop_details"@,
        ).field("category"@) is Str) ==> refused_with(payload, request_id) == Some(
            Failure::Refused(request_id),
        ),
{
}

/// A refusal is worded as one for the notes, with all of its detail; every
/// other error stays what it is.
pub proof fn only_a_refusal_is_reworded(e: Failure, detail: Seq<char>)
    ensures
        reworded(Failure::Refused(detail)) == Failure::Other(
            "the model declined to write notes for this meeting"@ + detail
                + ". That is a decision about what was said, not an API key or credit problem"@,
        ),
        !(e is Refused) ==> reworded(e) == e,
{
}

/// The API's own message is passed on where it gave one.
pub proof fn the_message_of_the_api_is_passed_on(payload: Doc, m: Seq<char>)
    ensures
        payload.field("error"@).field("message"@) == Doc::Str(m) ==> api_message(payload) == m,
        !(payload.field("error"@).field("message"@) is Str) ==> api_message(payload)
            == "unknown error"@,
{
}

} // verus!
