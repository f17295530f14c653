//! What is read out of a document: its text, paragraph by paragraph.

use vstd::prelude::*;

use crate::error::Failure;
use crate::laws_text::parted;
use crate::laws_text::replacing_is_done_piece_by_piece;
use crate::ooxml::archive_names;
use crate::ooxml::cell_text;
use crate::ooxml::charged;
use crate::ooxml::gathered;
use crate::ooxml::in_base;
use crate::ooxml::local_name;
use crate::ooxml::member_data;
use crate::ooxml::member_size;
use crate::ooxml::office_text;
use crate::ooxml::one_eol;
use crate::ooxml::part_text;
use crate::ooxml::piece;
use crate::ooxml::prose_part;
use crate::ooxml::rank;
use crate::ooxml::readable;
use crate::ooxml::reading_order;
use crate::ooxml::stripped;
use crate::ooxml::suffix;
use crate::ooxml::xml_events;
use crate::ooxml::Event;
use crate::ooxml::MemberSize;
use crate::text;

verus! {

broadcast use vstd::seq_lib::group_seq_properties;

/// A name is `local`, alone or behind a namespace prefix.
pub open spec fn spelled(name: Seq<char>, local: Seq<char>) -> bool {
    ||| name == local && !name.contains(':')
    ||| exists|prefix: Seq<char>|
        name == #[trigger] (prefix + seq![':'] + local) && !prefix.contains(':')
}

proof fn lemma_spelled(name: Seq<char>, local: Seq<char>)
    ensures
        local_name(name) == local <==> spelled(name, local),
{
    if name.contains(':') {
        name.index_of_first_ensures(':');
        let k = name.index_of_first(':').unwrap();
        let prefix = name.take(k);
        assert(!prefix.contains(':')) by {
            if prefix.contains(':') {
                let i = choose|i: int| 0 <= i < prefix.len() && prefix[i] == ':';
                assert(name[i] == ':');
            }
        }
        assert(name =~= prefix + seq![':'] + name.skip(k + 1));
        if spelled(name, local) {
            let p = choose|p: Seq<char>|
                name == #[trigger] (p + seq![':'] + local) && !p.contains(':');
            assert(name[p.len() as int] == ':');
            if k < p.len() {
                assert(p[k] == name[k]);
                assert(p.contains(':'));
            }
            assert(k == p.len());
            assert(name.skip(k + 1) =~= local);
        }
    } else if spelled(name, local) && name != local {
        let p = choose|p: Seq<char>|
            name == #[trigger] (p + seq![':'] + local) && !p.contains(':');
        assert(name[p.len() as int] == ':');
    }
}

proof fn lemma_stripped(a: Seq<Event>, b: Seq<Event>)
    ensures
        stripped(a + b) == stripped(a) + stripped(b),
    decreases a.len(),
{
    if a.len() == 0 {
        assert(a + b =~= b);
        assert(stripped(a) + stripped(b) =~= stripped(b));
    } else {
        assert((a + b).drop_first() =~= a.drop_first() + b);
        lemma_stripped(a.drop_first(), b);
        assert(stripped(a + b) =~= stripped(a) + stripped(b));
    }
}

proof fn lemma_amid(a: Seq<Event>, e: Event, b: Seq<Event>)
    ensures
        stripped(a + seq![e] + b) == stripped(a) + piece(e) + stripped(b),
        stripped(seq![e]) == piece(e),
{
    lemma_stripped(a + seq![e], b);
    lemma_stripped(a, seq![e]);
    assert(seq![e].drop_first() =~= seq![]);
    assert(stripped(seq![]) =~= seq![]);
    assert(stripped(seq![e]) =~= piece(e));
}

/// A closed paragraph ends a line: the text is that of what stands before the
/// closing tag, a newline, and that of what follows it. No other closing tag
/// adds anything, and no opening tag does.
pub proof fn a_closed_paragraph_ends_a_line(a: Seq<Event>, name: Seq<char>, b: Seq<Event>)
    ensures
        spelled(name, seq!['p']) ==> stripped(a + seq![Event::End(name)] + b) == stripped(a) + seq![
            '\n',
        ] + stripped(b),
        !spelled(name, seq!['p']) ==> stripped(a + seq![Event::End(name)] + b) == stripped(a)
            + stripped(b),
        stripped(a + seq![Event::Start(name)] + b) == stripped(a) + stripped(b),
        stripped(a + seq![Event::Other] + b) == stripped(a) + stripped(b),
        stripped(Seq::empty()) == Seq::<char>::empty(),
{
    reveal_strlit("p");
    assert("p"@ =~= seq!['p']);
    lemma_spelled(name, seq!['p']);
    lemma_amid(a, Event::End(name), b);
    lemma_amid(a, Event::Start(name), b);
    lemma_amid(a, Event::Other, b);
    assert(stripped(a) + seq![] =~= stripped(a));
}

/// The paragraphs of the three vocabularies end a line each.
pub proof fn every_vocabulary_has_paragraphs(a: Seq<Event>, b: Seq<Event>)
    ensures
        stripped(a + seq![Event::End("w:p"@)] + b) == stripped(a) + seq!['\n'] + stripped(b),
        stripped(a + seq![Event::End("a:p"@)] + b) == stripped(a) + seq!['\n'] + stripped(b),
        stripped(a + seq![Event::End("text:p"@)] + b) == stripped(a) + seq!['\n'] + stripped(b),
{
    reveal_strlit("w:p");
    reveal_strlit("a:p");
    reveal_strlit("text:p");
    assert("w:p"@ =~= seq!['w'] + seq![':'] + seq!['p']);
    assert("a:p"@ =~= seq!['a'] + seq![':'] + seq!['p']);
    assert("text:p"@ =~= seq!['t', 'e', 'x', 't'] + seq![':'] + seq!['p']);
    a_closed_paragraph_ends_a_line(a, "w:p"@, b);
    a_closed_paragraph_ends_a_line(a, "a:p"@, b);
    a_closed_paragraph_ends_a_line(a, "text:p"@, b);
}

/// Text is kept where it stands, and so is character data: all of it and
/// nothing else, but for the ends of its lines.
pub proof fn text_is_kept_where_it_stands(a: Seq<Event>, s: Seq<char>, b: Seq<Event>)
    ensures
        !s.contains('\r') ==> stripped(a + seq![Event::Text(s)] + b) == stripped(a) + s + stripped(
            b,
        ),
        stripped(a + seq![Event::CData(s)] + b) == stripped(a) + s + stripped(b),
{
    lemma_amid(a, Event::Text(s), b);
    lemma_amid(a, Event::CData(s), b);
    if !s.contains('\r') {
        a_line_ends_in_one_character(s, s);
    }
}

/// Whatever ends a line in the source, a newline alone ends it in the text.
pub proof fn a_line_ends_in_one_character(s: Seq<char>, t: Seq<char>)
    ensures
        one_eol(s + seq!['\r', '\n'] + t) == one_eol(s) + seq!['\n'] + one_eol(t),
        t.len() == 0 || t[0] != '\n' ==> one_eol(s + seq!['\r'] + t) == one_eol(s) + seq!['\n']
            + one_eol(t),
        !s.contains('\r') ==> one_eol(s) == s,
{
    reveal_strlit("\r\n");
    reveal_strlit("\r");
    reveal_strlit("\n");
    assert("\r\n"@ =~= seq!['\r', '\n'] && "\r"@ =~= seq!['\r'] && "\n"@ =~= seq!['\n']);
    assert forall|x: Seq<char>| #[trigger] one_eol(x) == returns_out(pairs_out(x)) by {
        reveal(pairs_out);
        reveal(returns_out);
    }
    lemma_pair(s, t);
    if t.len() == 0 || t[0] != '\n' {
        lemma_return_alone(s, t);
    }
    if !s.contains('\r') {
        lemma_no_return(s);
    }
}

/// Pairs replaced.
#[verifier::opaque]
spec fn pairs_out(s: Seq<char>) -> Seq<char> {
    text::replaced(s, seq!['\r', '\n'], seq!['\n'])
}

/// Carriage returns replaced.
#[verifier::opaque]
spec fn returns_out(s: Seq<char>) -> Seq<char> {
    text::replaced(s, seq!['\r'], seq!['\n'])
}

/// No pair lies across the end of `a`.
proof fn lemma_pairs_parted(a: Seq<char>, b: Seq<char>)
    requires
        a.len() == 0 || b.len() == 0 || a.last() != '\r' || b[0] != '\n',
    ensures
        pairs_out(a + b) == pairs_out(a) + pairs_out(b),
{
    reveal(pairs_out);
    let rn = seq!['\r', '\n'];
    assert(parted(a, b, rn)) by {
        assert forall|i: int| #[trigger] text::occurs_at(a + b, rn, i) implies i + rn.len()
            <= a.len() || i >= a.len() by {
            let found = (a + b).subrange(i, i + rn.len());
            assert(found[0] == rn[0] && found[1] == rn[1]);
            assert(found[0] == (a + b)[i] && found[1] == (a + b)[i + 1]);
        }
    }
    replacing_is_done_piece_by_piece(a, b, rn, seq!['\n']);
}

proof fn lemma_returns_parted(a: Seq<char>, b: Seq<char>)
    ensures
        returns_out(a + b) == returns_out(a) + returns_out(b),
{
    reveal(returns_out);
    let r = seq!['\r'];
    assert(parted(a, b, r));
    replacing_is_done_piece_by_piece(a, b, r, seq!['\n']);
}

proof fn lemma_line_ends()
    ensures
        pairs_out(seq!['\r', '\n']) == seq!['\n'],
        pairs_out(seq!['\r']) == seq!['\r'],
        returns_out(seq!['\r']) == seq!['\n'],
        returns_out(seq!['\n']) == seq!['\n'],
{
    reveal(pairs_out);
    reveal(returns_out);
    let (rn, r, n) = (seq!['\r', '\n'], seq!['\r'], seq!['\n']);
    replacing_is_done_piece_by_piece(rn, n, rn, n);
    assert(!text::occurs(r, rn));
    replacing_is_done_piece_by_piece(r, n, rn, n);
    replacing_is_done_piece_by_piece(r, n, r, n);
    lemma_no_return(n);
}

proof fn lemma_pair(s: Seq<char>, t: Seq<char>)
    ensures
        returns_out(pairs_out(s + seq!['\r', '\n'] + t)) == returns_out(pairs_out(s)) + seq!['\n']
            + returns_out(pairs_out(t)),
{
    let (rn, n) = (seq!['\r', '\n'], seq!['\n']);
    assert(s + rn + t =~= s + (rn + t));
    lemma_line_ends();
    lemma_pairs_parted(s, rn + t);
    lemma_pairs_parted(rn, t);
    let (x, y) = (pairs_out(s), pairs_out(t));
    lemma_returns_parted(x, n + y);
    lemma_returns_parted(n, y);
    assert(returns_out(x) + (n + returns_out(y)) =~= returns_out(x) + n + returns_out(y));
}

proof fn lemma_return_alone(s: Seq<char>, t: Seq<char>)
    requires
        t.len() == 0 || t[0] != '\n',
    ensures
        returns_out(pairs_out(s + seq!['\r'] + t)) == returns_out(pairs_out(s)) + seq!['\n']
            + returns_out(pairs_out(t)),
{
    let (r, n) = (seq!['\r'], seq!['\n']);
    assert(s + r + t =~= s + (r + t));
    lemma_line_ends();
    lemma_pairs_parted(s, r + t);
    lemma_pairs_parted(r, t);
    let (x, y) = (pairs_out(s), pairs_out(t));
    lemma_returns_parted(x, r + y);
    lemma_returns_parted(r, y);
    assert(returns_out(x) + (n + returns_out(y)) =~= returns_out(x) + n + returns_out(y));
}

proof fn lemma_no_return(s: Seq<char>)
    requires
        !s.contains('\r'),
    ensures
        returns_out(s) == s,
        pairs_out(s) == s,
{
    reveal(pairs_out);
    reveal(returns_out);
    let (rn, r) = (seq!['\r', '\n'], seq!['\r']);
    assert(!text::occurs(s, r)) by {
        if text::occurs(s, r) {
            let i = choose|i: int| #[trigger] text::occurs_at(s, r, i);
            assert(s.subrange(i, i + 1)[0] == s[i]);
        }
    }
    assert(!text::occurs(s, rn)) by {
        if text::occurs(s, rn) {
            let i = choose|i: int| #[trigger] text::occurs_at(s, rn, i);
            assert(s.subrange(i, i + 2)[0] == s[i]);
        }
    }
    replacing_is_done_piece_by_piece(s, s, r, seq!['\n']);
    replacing_is_done_piece_by_piece(s, s, rn, seq!['\n']);
}

/// The five predefined references stand for their characters.
pub proof fn a_reference_stands_for_its_character(a: Seq<Event>, b: Seq<Event>)
    ensures
        stripped(a + seq![Event::Ref("amp"@)] + b) == stripped(a) + seq!['&'] + stripped(b),
        stripped(a + seq![Event::Ref("lt"@)] + b) == stripped(a) + seq!['<'] + stripped(b),
        stripped(a + seq![Event::Ref("gt"@)] + b) == stripped(a) + seq!['>'] + stripped(b),
        stripped(a + seq![Event::Ref("quot"@)] + b) == stripped(a) + seq!['"'] + stripped(b),
        stripped(a + seq![Event::Ref("apos"@)] + b) == stripped(a) + seq!['\''] + stripped(b),
{
    reveal_strlit("amp");
    reveal_strlit("lt");
    reveal_strlit("gt");
    reveal_strlit("quot");
    reveal_strlit("apos");
    assert("amp"@[0] == 'a' && "lt"@[0] == 'l' && "gt"@[0] == 'g' && "quot"@[0] == 'q'
        && "apos"@[0] == 'a');
    assert("amp"@.len() == 3 && "lt"@.len() == 2 && "gt"@.len() == 2 && "quot"@.len() == 4
        && "apos"@.len() == 4);
    lemma_amid(a, Event::Ref("amp"@), b);
    lemma_amid(a, Event::Ref("lt"@), b);
    lemma_amid(a, Event::Ref("gt"@), b);
    lemma_amid(a, Event::Ref("quot"@), b);
    lemma_amid(a, Event::Ref("apos"@), b);
}

/// A numbered reference stands for the character of its number; a reference
/// by any other name stands for nothing.
pub proof fn a_numbered_reference_stands_for_its_character(
    a: Seq<Event>,
    n: nat,
    name: Seq<char>,
    b: Seq<Event>,
)
    ensures
        0 < n < 0xd800 || 0xe000 <= n <= 0x10ffff ==> stripped(
            a + seq![Event::Ref(seq!['#'] + text::digits(n))] + b,
        ) == stripped(a) + seq![n as char] + stripped(b),
        (name.len() == 0 || name[0] != '#') && name != "amp"@ && name != "lt"@ && name != "gt"@
            && name != "quot"@ && name != "apos"@ ==> stripped(a + seq![Event::Ref(name)] + b)
            == stripped(a) + stripped(b),
{
    let d = text::digits(n);
    let r = seq!['#'] + d;
    text::lemma_digits(n);
    lemma_amid(a, Event::Ref(r), b);
    lemma_amid(a, Event::Ref(name), b);
    assert(r.skip(1) =~= d);
    assert(text::is_digit(d[0]));
    assert(r[1] == d[0]);
    lemma_in_base(d);
    assert forall|i: int| 0 <= i < d.len() implies crate::ooxml::digit_value(#[trigger] d[i])
        < 10 by {
        assert(text::is_digit(d[i]));
    }
    assert(stripped(a) + seq![] =~= stripped(a));
}

proof fn lemma_in_base(d: Seq<char>)
    requires
        text::all_digits(d),
    ensures
        in_base(d, 10) == text::number(d),
    decreases d.len(),
{
    if d.len() > 0 {
        let rest = d.drop_last();
        assert(text::is_digit(d[d.len() - 1]));
        assert forall|i: int| 0 <= i < rest.len() implies text::is_digit(#[trigger] rest[i]) by {
            assert(rest[i] == d[i]);
        }
        lemma_in_base(rest);
    }
}

/// No inline string opens among the events.
pub open spec fn opens_none(s: Seq<Event>) -> bool {
    forall|i: int|
        0 <= i < s.len() ==> match #[trigger] s[i] {
            Event::Start(name) => !spelled(name, seq!['i', 's']),
            _ => true,
        }
}

/// No inline string closes among the events.
pub open spec fn closes_none(s: Seq<Event>) -> bool {
    forall|i: int|
        0 <= i < s.len() ==> match #[trigger] s[i] {
            Event::End(name) => !spelled(name, seq!['i', 's']),
            _ => true,
        }
}

/// Of a worksheet the text of the inline strings is read and nothing else: what
/// stands outside of one is skipped, and what stands between the tags of one is
/// read as in any other part.
pub proof fn of_a_sheet_the_inline_strings_are_read(
    outside: Seq<Event>,
    open: Seq<char>,
    within: Seq<Event>,
    close: Seq<char>,
    rest: Seq<Event>,
)
    requires
        opens_none(outside),
        spelled(open, seq!['i', 's']),
        closes_none(within),
        spelled(close, seq!['i', 's']),
    ensures
        cell_text(outside, false) == Seq::<char>::empty(),
        cell_text(
            outside + seq![Event::Start(open)] + within + seq![Event::End(close)] + rest,
            false,
        ) == stripped(within) + cell_text(rest, false),
{
    reveal_strlit("is");
    reveal_strlit("p");
    assert("is"@ =~= seq!['i', 's']);
    let tail = within + seq![Event::End(close)] + rest;
    let all = outside + seq![Event::Start(open)] + within + seq![Event::End(close)] + rest;
    assert(all =~= outside + (seq![Event::Start(open)] + tail));
    lemma_outside(outside, seq![Event::Start(open)] + tail);
    lemma_outside(outside, seq![]);
    assert(outside + seq![] =~= outside);
    lemma_spelled(open, seq!['i', 's']);
    lemma_spelled(close, seq!['i', 's']);
    let t = seq![Event::Start(open)] + tail;
    assert(t.drop_first() =~= tail);
    assert(cell_text(t, false) =~= cell_text(tail, true));
    lemma_within(within, seq![Event::End(close)] + rest);
    assert(tail =~= within + (seq![Event::End(close)] + rest));
    let u = seq![Event::End(close)] + rest;
    assert(u.drop_first() =~= rest);
    assert("p"@.len() == 1);
    assert(cell_text(u, true) =~= cell_text(rest, false));
}

proof fn lemma_outside(a: Seq<Event>, b: Seq<Event>)
    requires
        opens_none(a),
    ensures
        cell_text(a + b, false) == cell_text(b, false),
    decreases a.len(),
{
    if a.len() == 0 {
        assert(a + b =~= b);
    } else {
        let rest = a.drop_first();
        assert(opens_none(rest)) by {
            assert forall|i: int| 0 <= i < rest.len() implies match #[trigger] rest[i] {
                Event::Start(name) => !spelled(name, seq!['i', 's']),
                _ => true,
            } by {
                assert(rest[i] == a[i + 1]);
            }
        }
        reveal_strlit("is");
        assert("is"@ =~= seq!['i', 's']);
        if let Event::Start(name) = a[0] {
            assert(a[0] == Event::Start(name));
            lemma_spelled(name, seq!['i', 's']);
        }
        assert((a + b).drop_first() =~= rest + b);
        lemma_outside(rest, b);
        assert(cell_text(a + b, false) =~= cell_text(rest + b, false));
    }
}

proof fn lemma_within(a: Seq<Event>, b: Seq<Event>)
    requires
        closes_none(a),
    ensures
        cell_text(a + b, true) == stripped(a) + cell_text(b, true),
    decreases a.len(),
{
    if a.len() == 0 {
        assert(a + b =~= b);
        assert(stripped(a) + cell_text(b, true) =~= cell_text(b, true));
    } else {
        let rest = a.drop_first();
        assert(closes_none(rest)) by {
            assert forall|i: int| 0 <= i < rest.len() implies match #[trigger] rest[i] {
                Event::End(name) => !spelled(name, seq!['i', 's']),
                _ => true,
            } by {
                assert(rest[i] == a[i + 1]);
            }
        }
        reveal_strlit("is");
        assert("is"@ =~= seq!['i', 's']);
        if let Event::End(name) = a[0] {
            assert(a[0] == Event::End(name));
            lemma_spelled(name, seq!['i', 's']);
        }
        assert((a + b).drop_first() =~= rest + b);
        lemma_within(rest, b);
        assert(cell_text(a + b, true) =~= stripped(a) + cell_text(b, true));
    }
}

/// The parts of a workbook that hold its sheets are read for their inline
/// strings, every other part for all of its text.
pub proof fn only_sheets_are_read_as_sheets(name: Seq<char>, events: Seq<Event>)
    ensures
        part_text("xl/worksheets/"@ + name, events) == cell_text(events, false),
        !text::begins(name, "xl/worksheets/"@) ==> part_text(name, events) == stripped(events),
{
    let s = "xl/worksheets/"@ + name;
    assert(s.subrange(0, "xl/worksheets/"@.len() as int) =~= "xl/worksheets/"@);
}

/// The body of a text, of a workbook's strings, the slides, their notes and
/// the sheets are read, in this order; nothing else in the archive is.
pub proof fn the_parts_that_are_read(name: Seq<char>, x: Seq<char>)
    ensures
        prose_part("word/document.xml"@) && rank("word/document.xml"@) == 0,
        prose_part("content.xml"@) && rank("content.xml"@) == 0,
        prose_part("xl/sharedStrings.xml"@) && rank("xl/sharedStrings.xml"@) == 0,
        prose_part("ppt/slides/slide"@ + x + ".xml"@),
        rank("ppt/slides/slide"@ + x + ".xml"@) == 1,
        prose_part("ppt/notesSlides/notesSlide"@ + x + ".xml"@),
        rank("ppt/notesSlides/notesSlide"@ + x + ".xml"@) == 2,
        prose_part("xl/worksheets/sheet"@ + x + ".xml"@),
        rank("xl/worksheets/sheet"@ + x + ".xml"@) == 3,
        prose_part(name) ==> name == "word/document.xml"@ || name == "content.xml"@ || name
            == "xl/sharedStrings.xml"@ || (text::finishes(name, ".xml"@) && (text::begins(
            name,
            "ppt/slides/slide"@,
        ) || text::begins(name, "ppt/notesSlides/notesSlide"@) || text::begins(
            name,
            "xl/worksheets/sheet"@,
        ))),
{
    reveal_strlit("word/document.xml");
    reveal_strlit("content.xml");
    reveal_strlit("xl/sharedStrings.xml");
    reveal_strlit("ppt/slides/slide");
    reveal_strlit("ppt/slides/");
    reveal_strlit("ppt/notesSlides/notesSlide");
    reveal_strlit("ppt/notesSlides/");
    reveal_strlit("xl/worksheets/sheet");
    let a = "ppt/slides/slide"@ + x + ".xml"@;
    let b = "ppt/notesSlides/notesSlide"@ + x + ".xml"@;
    let c = "xl/worksheets/sheet"@ + x + ".xml"@;
    lemma_ends("ppt/slides/slide"@, x, ".xml"@);
    lemma_ends("ppt/notesSlides/notesSlide"@, x, ".xml"@);
    lemma_ends("xl/worksheets/sheet"@, x, ".xml"@);
    assert(a.subrange(0, 11) =~= "ppt/slides/"@);
    assert(b.subrange(0, 16) =~= "ppt/notesSlides/"@);
    assert(a[0] == 'p' && a[4] == 's');
    assert(b[0] == 'p' && b[4] == 'n');
    assert(c[0] == 'x' && c[3] == 'w');
    assert("xl/sharedStrings.xml"@[3] == 's');
    assert("word/document.xml"@[0] == 'w');
    assert("content.xml"@[0] == 'c');
    if text::begins(b, "ppt/slides/"@) {
        assert(b.subrange(0, 11)[4] == b[4]);
    }
    if text::begins(c, "ppt/slides/"@) {
        assert(c.subrange(0, 11)[0] == c[0]);
    }
    if text::begins(c, "ppt/notesSlides/"@) {
        assert(c.subrange(0, 16)[0] == c[0]);
    }
}

proof fn lemma_ends(a: Seq<char>, x: Seq<char>, b: Seq<char>)
    ensures
        text::begins(a + x + b, a),
        text::finishes(a + x + b, b),
{
    let s = a + x + b;
    assert(s.subrange(0, a.len() as int) =~= a);
    assert(s.subrange(s.len() - b.len(), s.len() as int) =~= b);
}

/// The parts are read one after the other, each followed by a newline, until
/// there is more text than is kept of one file.
pub proof fn parts_are_read_one_after_the_other(
    archive: Seq<u8>,
    names: Seq<Seq<char>>,
    budget: u64,
    out: Seq<char>,
    n: u64,
    d: Seq<u8>,
)
    requires
        names.len() > 0,
        budget < u64::MAX,
    ensures
        gathered(archive, Seq::empty(), budget, out) == Ok::<Seq<char>, Failure>(out),
        member_size(archive, names[0]) == MemberSize::Missing ==> gathered(
            archive,
            names,
            budget,
            out,
        ) == gathered(archive, names.drop_first(), budget, out),
        member_size(archive, names[0]) == MemberSize::Unsupported ==> gathered(
            archive,
            names,
            budget,
            out,
        ) == Err::<Seq<char>, Failure>(Failure::Other("that Office file is encrypted"@)),
        member_size(archive, names[0]) == MemberSize::Bytes(n) && (n > 20_971_520 || n > budget)
            ==> gathered(archive, names, budget, out) == Err::<Seq<char>, Failure>(
            Failure::Other("that Office file expands to more than this will read"@),
        ),
        member_size(archive, names[0]) == MemberSize::Bytes(n) && n <= 20_971_520 && n <= budget
            && member_data(archive, names[0], (budget + 1) as u64) is None ==> gathered(
            archive,
            names,
            budget,
            out,
        ) == Err::<Seq<char>, Failure>(Failure::Other("that Office file could not be read"@)),
        member_size(archive, names[0]) == MemberSize::Bytes(n) && n <= 20_971_520 && n <= budget
            && member_data(archive, names[0], (budget + 1) as u64) == Some(d) ==> {
            let more = out + part_text(names[0], xml_events(d)) + seq!['\n'];
            gathered(archive, names, budget, out) == if d.len() > budget {
                Err::<Seq<char>, Failure>(
                    Failure::Other("that Office file expands to more than this will read"@),
                )
            } else if more.len() > 80_000 {
                Ok(more)
            } else {
                gathered(archive, names.drop_first(), (budget - d.len()) as u64, more)
            }
        },
{
    reveal_strlit("\n");
    assert("\n"@ =~= seq!['\n']);
}

/// The text of an archive is that of its parts in reading order, without the
/// whitespace round it, where they are within what is read of one archive.
pub proof fn an_archive_is_read_part_by_part(archive: Seq<u8>, names: Seq<Seq<char>>)
    ensures
        archive_names(archive) is None ==> office_text(archive) == Err::<Seq<char>, Failure>(
            Failure::Other("that Office file could not be opened"@),
        ),
        archive_names(archive) == Some(names) && reading_order(names).len() == 0 ==> office_text(
            archive,
        ) == Err::<Seq<char>, Failure>(
            Failure::Other("that is a ZIP archive, not a document this can read"@),
        ),
        archive_names(archive) == Some(names) && reading_order(names).len() > 0 ==> match gathered(
            archive,
            reading_order(names),
            41_943_040,
            seq![],
        ) {
            Ok(out) => office_text(archive) == Ok::<Seq<char>, Failure>(text::trimmed(out)),
            Err(e) => office_text(archive) == Err::<Seq<char>, Failure>(e),
        },
{
}

/// What may be read of an archive, and what a member takes from the budget.
pub proof fn a_member_is_charged_by_its_length(d: Seq<u8>, n: u64, budget: u64)
    ensures
        d.len() <= budget ==> charged(Some(d), budget) == Ok::<u64, Failure>(
            (budget - d.len()) as u64,
        ),
        d.len() > budget ==> charged(Some(d), budget) is Err,
        readable(MemberSize::Bytes(n), budget) == Ok::<bool, Failure>(true) <==> n <= 20_971_520
            && n <= budget,
        readable(MemberSize::Bytes(n), budget) is Err <==> n > 20_971_520 || n > budget,
        readable(MemberSize::Missing, budget) == Ok::<bool, Failure>(false),
        readable(MemberSize::Unsupported, budget) is Err,
{
}

/// The number of a part does not depend on how often `.xml` stands behind its
/// name.
pub proof fn a_part_is_numbered_before_its_ending(name: Seq<char>)
    ensures
        suffix(name + ".xml"@) == suffix(name),
{
    reveal_strlit(".xml");
    assert((name + ".xml"@).skip(name.len() as int) =~= ".xml"@);
    assert((name + ".xml"@).take(name.len() as int) =~= name);
}

} // verus!
