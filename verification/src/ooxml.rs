//! Text out of the OOXML and OpenDocument containers.
//!
//! Text only: this is context for a language model, not a rendering of the
//! document. Layout, images and formatting are left out.

use quick_xml::events::Event as Markup;
use std::io::Read;

use vstd::prelude::*;

use crate::error::other;
use crate::error::AppError;
use crate::error::Failure;
use crate::sort;
use crate::sort::deep;
use crate::sort::Ranked;
use crate::text;
use crate::text::views;

verus! {

broadcast use vstd::seq_lib::group_seq_properties;

/// Ceiling on one decompressed archive member, and on the whole archive.
pub const MAX_ZIP_ENTRY_BYTES: u64 = 20 * 1024 * 1024;

pub const MAX_ZIP_TOTAL_BYTES: u64 = 40 * 1024 * 1024;

/// The most text kept of one file.
pub const MAX_EXTRACTED_CHARS_PER_FILE: usize = 80_000;

// ---------------------------------------------------------- the XML events

/// One event of an XML document, as far as its text is concerned.
pub enum XmlEvent {
    /// Text between markup, as written.
    Text(String),
    CData(String),
    /// What stands between `&` and `;`.
    Ref(String),
    /// The name in an opening tag.
    Start(String),
    /// The name in a closing tag.
    End(String),
    Other,
}

/// An event over characters.
pub enum Event {
    Text(Seq<char>),
    CData(Seq<char>),
    Ref(Seq<char>),
    Start(Seq<char>),
    End(Seq<char>),
    Other,
}

impl View for XmlEvent {
    type V = Event;

    open spec fn view(&self) -> Event {
        match *self {
            XmlEvent::Text(s) => Event::Text(s@),
            XmlEvent::CData(s) => Event::CData(s@),
            XmlEvent::Ref(s) => Event::Ref(s@),
            XmlEvent::Start(s) => Event::Start(s@),
            XmlEvent::End(s) => Event::End(s@),
            XmlEvent::Other => Event::Other,
        }
    }
}

#[verifier::external_type_specification]
#[verifier::external_body]
#[verifier::reject_recursive_types(R)]
pub struct ExReader<R>(quick_xml::Reader<R>);

/// The events of a document up to its end or to the first thing in it that is
/// not well formed.
pub uninterp spec fn xml_events(xml: Seq<u8>) -> Seq<Event>;

/// The events a reader has yet to hand out.
pub uninterp spec fn pending(reader: quick_xml::Reader<&[u8]>) -> Seq<Event>;

/// `quick_xml::Reader::from_reader`, with text left untrimmed: a reader that
/// has all the events of `xml` still to hand out.
#[verifier::external_body]
fn xml_reader(xml: &[u8]) -> (reader: quick_xml::Reader<&[u8]>)
    ensures
        pending(reader) == xml_events(xml@),
{
    let mut reader = quick_xml::Reader::from_reader(xml);
    reader.config_mut().trim_text(false);
    reader
}

/// `quick_xml::Reader::read_event_into`: the next event, and `None` at the end
/// of the document or at an error in it. What a reader hands out after an
/// error is left unsaid.
#[verifier::external_body]
fn next_event(reader: &mut quick_xml::Reader<&[u8]>) -> (event: Option<XmlEvent>)
    ensures
        match event {
            Some(e) => pending(*old(reader)).len() > 0 && e@ == pending(*old(reader))[0] && pending(
                *final(reader),
            ) == pending(*old(reader)).drop_first(),
            None => pending(*old(reader)).len() == 0,
        },
{
    let mut buf = Vec::new();
    match reader.read_event_into(&mut buf) {
        Ok(Markup::Text(e)) => Some(XmlEvent::Text(String::from(e.as_ref()))),
        Ok(Markup::CData(e)) => Some(XmlEvent::CData(String::from(e.as_ref()))),
        Ok(Markup::GeneralRef(e)) => Some(XmlEvent::Ref(String::from(e.as_ref()))),
        Ok(Markup::Start(e)) => Some(XmlEvent::Start(String::from(e.name().as_ref()))),
        Ok(Markup::End(e)) => Some(XmlEvent::End(String::from(e.as_ref()))),
        Ok(Markup::Eof) => None,
        Err(_) => None,
        Ok(_) => Some(XmlEvent::Other),
    }
}

/// The value of a digit in a base up to sixteen.
pub open spec fn digit_value(c: char) -> int {
    let n = c as int;
    if 0x30 <= n <= 0x39 {
        n - 0x30
    } else if 0x61 <= n <= 0x66 {
        n - 0x61 + 10
    } else if 0x41 <= n <= 0x46 {
        n - 0x41 + 10
    } else {
        99
    }
}

pub open spec fn digits_of_base(s: Seq<char>, base: int) -> bool {
    forall|i: int| 0 <= i < s.len() ==> digit_value(#[trigger] s[i]) < base
}

/// What a run of digits spells in a base.
pub open spec fn in_base(s: Seq<char>, base: int) -> int
    decreases s.len(),
{
    if s.len() == 0 {
        0
    } else {
        in_base(s.drop_last(), base) * base + digit_value(s.last())
    }
}

/// The character that a numeric reference stands for: `#` and decimal digits,
/// or `#x` and hexadecimal ones, spelling a scalar value that is not zero.
pub open spec fn char_reference(name: Seq<char>) -> Option<char> {
    let hex = name.len() > 1 && name[1] == 'x';
    let (body, base) = if hex {
        (name.skip(2), 16int)
    } else {
        (name.skip(1), 10int)
    };
    let n = in_base(body, base);
    if name.len() == 0 || name[0] != '#' || body.len() == 0 || !digits_of_base(body, base) {
        None
    } else if 0 < n < 0xd800 || 0xe000 <= n <= 0x10ffff {
        Some(n as char)
    } else {
        None
    }
}

/// `quick_xml::events::BytesRef::resolve_char_ref`: the character of a numeric
/// reference. A reference that is malformed or names no character gives
/// `None`, as one that is not numeric does.
#[verifier::external_body]
fn resolve_char_ref(name: &str) -> (c: Option<char>)
    ensures
        c == char_reference(name@),
{
    quick_xml::events::BytesRef::new(name).resolve_char_ref().ok().flatten()
}

/// The character of one of the five predefined entities.
pub open spec fn entity(name: Seq<char>) -> Seq<char> {
    if name == "amp"@ {
        seq!['&']
    } else if name == "lt"@ {
        seq!['<']
    } else if name == "gt"@ {
        seq!['>']
    } else if name == "quot"@ {
        seq!['"']
    } else if name == "apos"@ {
        seq!['\'']
    } else {
        seq![]
    }
}

/// Line ends as XML 1.0 wants them: each `\r\n` and each lone `\r` a `\n`.
pub open spec fn one_eol(s: Seq<char>) -> Seq<char> {
    text::replaced(text::replaced(s, "\r\n"@, "\n"@), "\r"@, "\n"@)
}

/// What follows the first colon of a name, or the whole name.
pub open spec fn local_name(name: Seq<char>) -> Seq<char> {
    if name.contains(':') {
        name.skip(name.index_of_first(':').unwrap() + 1)
    } else {
        name
    }
}

/// The text one event adds: a newline where a paragraph closes.
///
/// All three vocabularies spell "paragraph" the same way once the namespace
/// prefix is off: `w:p`, `a:p` and `text:p`.
pub open spec fn piece(e: Event) -> Seq<char> {
    match e {
        Event::Text(s) => one_eol(s),
        Event::CData(s) => s,
        Event::Ref(name) => match char_reference(name) {
            Some(c) => seq![c],
            None => entity(name),
        },
        Event::End(name) => if local_name(name) == "p"@ {
            seq!['\n']
        } else {
            seq![]
        },
        Event::Start(_) => seq![],
        Event::Other => seq![],
    }
}

/// The text of a document.
pub open spec fn stripped(events: Seq<Event>) -> Seq<char>
    decreases events.len(),
{
    if events.len() == 0 {
        seq![]
    } else {
        piece(events[0]) + stripped(events.drop_first())
    }
}

/// Whether what follows an event stands in the inline string of a cell.
pub open spec fn in_string(e: Event, inside: bool) -> bool {
    match e {
        Event::Start(name) => inside || local_name(name) == "is"@,
        Event::End(name) => inside && local_name(name) != "is"@,
        _ => inside,
    }
}

/// The text of the cells of a worksheet: that of their inline strings. The
/// numbers and the formulas of a sheet without their layout are noise.
pub open spec fn cell_text(events: Seq<Event>, inside: bool) -> Seq<char>
    decreases events.len(),
{
    if events.len() == 0 {
        seq![]
    } else {
        let here = if inside {
            piece(events[0])
        } else {
            seq![]
        };
        here + cell_text(events.drop_first(), in_string(events[0], inside))
    }
}

/// A part that holds the cells of a spreadsheet.
pub open spec fn worksheet(name: Seq<char>) -> bool {
    text::begins(name, "xl/worksheets/"@)
}

/// The text of a part.
pub open spec fn part_text(name: Seq<char>, events: Seq<Event>) -> Seq<char> {
    if worksheet(name) {
        cell_text(events, false)
    } else {
        stripped(events)
    }
}

fn named_entity(name: &str) -> (r: String)
    ensures
        r@ == entity(name@),
{
    let mut out = String::new();
    if text::same(name, "amp") {
        out.push('&');
    } else if text::same(name, "lt") {
        out.push('<');
    } else if text::same(name, "gt") {
        out.push('>');
    } else if text::same(name, "quot") {
        out.push('"');
    } else if text::same(name, "apos") {
        out.push('\'');
    }
    proof {
        assert(out@ =~= entity(name@));
    }
    out
}

fn normalize_eols(s: &str) -> (r: String)
    ensures
        r@ == one_eol(s@),
{
    proof {
        reveal_strlit("\r\n");
        reveal_strlit("\r");
    }
    let t = text::replace(s, "\r\n", "\n");
    text::replace(t.as_str(), "\r", "\n")
}

fn without_prefix(name: &str) -> (r: String)
    ensures
        r@ == local_name(name@),
{
    let v = text::chars_of(name);
    let mut i: usize = 0;
    while i < v.len()
        invariant
            i <= v.len(),
            v@ == name@,
            forall|j: int| 0 <= j < i ==> v@[j] != ':',
        decreases v.len() - i,
    {
        if v[i] == ':' {
            proof {
                name@.index_of_first_ensures(':');
                assert(name@.contains(':'));
                let k = name@.index_of_first(':').unwrap();
                assert(k == i) by {
                    if k < i {
                        assert(v@[k] != ':');
                    }
                }
                assert(v@.subrange(i + 1, v@.len() as int) =~= name@.skip(i + 1));
            }
            return text::string_of(&v, i + 1, v.len());
        }
        i = i + 1;
    }
    text::owned(name)
}

/// Adds to `out` the text of one event.
///
/// Only the five predefined entities and numeric character references are
/// resolved: a document-defined entity is a DTD feature with no business in a
/// file that someone sent.
pub fn push_event(out: &mut String, event: &XmlEvent)
    ensures
        final(out)@ == old(out)@ + piece(event@),
{
    match event {
        XmlEvent::Text(s) => out.append(normalize_eols(s.as_str()).as_str()),
        XmlEvent::CData(s) => out.append(s.as_str()),
        XmlEvent::Ref(name) => match resolve_char_ref(name.as_str()) {
            Some(c) => {
                out.push(c);
                proof {
                    assert(out@ =~= old(out)@ + seq![c]);
                }
            },
            None => out.append(named_entity(name.as_str()).as_str()),
        },
        XmlEvent::End(name) => {
            if text::same(without_prefix(name.as_str()).as_str(), "p") {
                out.push('\n');
                proof {
                    assert(out@ =~= old(out)@ + seq!['\n']);
                }
            } else {
                proof {
                    assert(out@ =~= old(out)@ + seq![]);
                }
            }
        },
        XmlEvent::Start(_) | XmlEvent::Other => {
            proof {
                assert(out@ =~= old(out)@ + seq![]);
            }
        },
    }
}

fn stays_in_string(event: &XmlEvent, inside: bool) -> (r: bool)
    ensures
        r == in_string(event@, inside),
{
    match event {
        XmlEvent::Start(name) => inside || text::same(without_prefix(name.as_str()).as_str(), "is"),
        XmlEvent::End(name) => inside && !text::same(without_prefix(name.as_str()).as_str(), "is"),
        _ => inside,
    }
}

/// The text of one XML part.
///
/// A malformed part yields what was read before the fault rather than failing
/// the whole attachment.
pub fn strip(xml: &[u8]) -> (out: String)
    ensures
        out@ == stripped(xml_events(xml@)),
{
    let mut reader = xml_reader(xml);
    let mut out = String::new();
    let ghost all = stripped(xml_events(xml@));
    proof {
        assert(out@ + all =~= all);
    }
    loop
        invariant_except_break
            out@ + stripped(pending(reader)) == all,
        ensures
            out@ == all,
        decreases pending(reader).len(),
    {
        let ghost left = pending(reader);
        let ghost before = out@;
        match next_event(&mut reader) {
            Some(event) => {
                push_event(&mut out, &event);
                proof {
                    assert(before + (piece(left[0]) + stripped(left.drop_first())) =~= out@
                        + stripped(left.drop_first()));
                }
            },
            None => {
                proof {
                    assert(out@ + seq![] =~= out@);
                }
                break;
            },
        }
    }
    out
}

/// The text of the inline strings of a worksheet.
pub fn strip_cells(xml: &[u8]) -> (out: String)
    ensures
        out@ == cell_text(xml_events(xml@), false),
{
    let mut reader = xml_reader(xml);
    let mut out = String::new();
    let mut inside = false;
    let ghost all = cell_text(xml_events(xml@), false);
    proof {
        assert(out@ + all =~= all);
    }
    loop
        invariant_except_break
            out@ + cell_text(pending(reader), inside) == all,
        ensures
            out@ == all,
        decreases pending(reader).len(),
    {
        let ghost left = pending(reader);
        let ghost before = out@;
        let ghost was = inside;
        match next_event(&mut reader) {
            Some(event) => {
                if inside {
                    push_event(&mut out, &event);
                }
                inside = stays_in_string(&event, inside);
                proof {
                    let here = if was {
                        piece(left[0])
                    } else {
                        seq![]
                    };
                    assert(before + (here + cell_text(left.drop_first(), inside)) =~= out@
                        + cell_text(left.drop_first(), inside));
                }
            },
            None => {
                proof {
                    assert(out@ + seq![] =~= out@);
                }
                break;
            },
        }
    }
    out
}

/// The text of the part of that name.
pub fn strip_part(name: &str, xml: &[u8]) -> (out: String)
    ensures
        out@ == part_text(name@, xml_events(xml@)),
{
    if text::starts_with(name, "xl/worksheets/") {
        strip_cells(xml)
    } else {
        strip(xml)
    }
}

// ------------------------------------------------------- the archive's parts

/// The parts that hold prose. Everything else in the container is styles,
/// relationships and theme data.
pub open spec fn prose_part(name: Seq<char>) -> bool {
    ||| name == "word/document.xml"@
    ||| name == "content.xml"@
    ||| name == "xl/sharedStrings.xml"@
    ||| text::begins(name, "ppt/slides/slide"@) && text::finishes(name, ".xml"@)
    ||| text::begins(name, "ppt/notesSlides/notesSlide"@) && text::finishes(name, ".xml"@)
    ||| text::begins(name, "xl/worksheets/sheet"@) && text::finishes(name, ".xml"@)
}

/// Body first, slides next, their notes after them, sheets last.
pub open spec fn rank(name: Seq<char>) -> int {
    if name == "word/document.xml"@ || name == "content.xml"@ || name == "xl/sharedStrings.xml"@ {
        0
    } else if text::begins(name, "ppt/slides/"@) {
        1
    } else if text::begins(name, "ppt/notesSlides/"@) {
        2
    } else {
        3
    }
}

/// A name without the `.xml` endings.
pub open spec fn without_xml(s: Seq<char>) -> Seq<char>
    decreases s.len(),
{
    if s.len() >= 4 && text::finishes(s, ".xml"@) {
        without_xml(s.take(s.len() - 4))
    } else {
        s
    }
}

/// The digits a string ends with.
pub open spec fn tail_digits(s: Seq<char>) -> Seq<char>
    decreases s.len(),
{
    if s.len() > 0 && text::is_digit(s.last()) {
        tail_digits(s.drop_last()).push(s.last())
    } else {
        seq![]
    }
}

/// The number a part's name ends with; 0 where there is none or it is beyond
/// 32 bits.
pub open spec fn suffix(name: Seq<char>) -> int {
    let d = tail_digits(without_xml(name));
    if d.len() == 0 || text::number(d) > u32::MAX {
        0
    } else {
        text::number(d) as int
    }
}

/// Reading order: by rank, by number, by name.
pub open spec fn part_leq(a: Seq<char>, b: Seq<char>) -> bool {
    if rank(a) != rank(b) {
        rank(a) < rank(b)
    } else if suffix(a) != suffix(b) {
        suffix(a) < suffix(b)
    } else {
        !text::before(b, a)
    }
}

/// The prose parts among `names`, in reading order.
pub open spec fn reading_order(names: Seq<Seq<char>>) -> Seq<Seq<char>> {
    names.filter(|n: Seq<char>| prose_part(n)).sort_by(|a: Seq<char>, b: Seq<char>| part_leq(a, b))
}

pub fn is_prose_part(name: &str) -> (r: bool)
    ensures
        r == prose_part(name@),
{
    text::same(name, "word/document.xml") || text::same(name, "content.xml") || text::same(
        name,
        "xl/sharedStrings.xml",
    ) || (text::starts_with(name, "ppt/slides/slide") && text::ends_with(name, ".xml")) || (
    text::starts_with(name, "ppt/notesSlides/notesSlide") && text::ends_with(name, ".xml")) || (
    text::starts_with(name, "xl/worksheets/sheet") && text::ends_with(name, ".xml"))
}

pub fn part_rank(name: &str) -> (r: u8)
    ensures
        r == rank(name@),
{
    if text::same(name, "word/document.xml") || text::same(name, "content.xml") || text::same(
        name,
        "xl/sharedStrings.xml",
    ) {
        0
    } else if text::starts_with(name, "ppt/slides/") {
        1
    } else if text::starts_with(name, "ppt/notesSlides/") {
        2
    } else {
        3
    }
}

proof fn lemma_tail_digits(s: Seq<char>)
    ensures
        tail_digits(s).len() <= s.len(),
        tail_digits(s) == s.skip(s.len() - tail_digits(s).len()),
        text::all_digits(tail_digits(s)),
    decreases s.len(),
{
    if s.len() > 0 && text::is_digit(s.last()) {
        lemma_tail_digits(s.drop_last());
        let d = tail_digits(s.drop_last());
        assert(tail_digits(s) =~= s.skip(s.len() - tail_digits(s).len()));
    } else {
        assert(s.skip(s.len() as int) =~= seq![]);
    }
}

/// The number at the end of a part's name: slide10.xml must sort after
/// slide9.xml, which it does not as a string.
pub fn numeric_suffix(name: &str) -> (r: u32)
    ensures
        r == suffix(name@),
{
    let mut stem = text::owned(name);
    while text::count(stem.as_str()) >= 4 && text::ends_with(stem.as_str(), ".xml")
        invariant
            without_xml(stem@) == without_xml(name@),
        decreases stem@.len(),
    {
        let n = text::count(stem.as_str());
        stem = text::take(stem.as_str(), n - 4);
    }
    let v = text::chars_of(stem.as_str());
    let mut k: usize = v.len();
    proof {
        assert(v@.take(k as int) =~= v@);
        assert(v@.skip(k as int) =~= seq![]);
        assert(tail_digits(v@) + seq![] =~= tail_digits(v@));
    }
    while k > 0 && text::code(v[k - 1]) >= 0x30 && text::code(v[k - 1]) <= 0x39
        invariant
            k <= v.len(),
            tail_digits(v@.take(k as int)) + v@.skip(k as int) == tail_digits(v@),
        decreases k,
    {
        proof {
            let t = v@.take(k as int);
            assert(t.last() == v@[k - 1]);
            assert(t.drop_last() =~= v@.take(k - 1));
            assert(tail_digits(t.drop_last()).push(v@[k - 1]) + v@.skip(k as int) =~= tail_digits(
                t.drop_last(),
            ) + v@.skip(k - 1));
        }
        k = k - 1;
    }
    proof {
        assert(seq![] + v@.skip(k as int) =~= v@.skip(k as int));
        assert(v@.subrange(k as int, v@.len() as int) =~= v@.skip(k as int));
        if k > 0 {
            assert(v@.take(k as int).last() == v@[k - 1]);
        }
        assert(tail_digits(v@.take(k as int)) =~= seq![]);
        lemma_tail_digits(v@);
    }
    let digits = text::string_of(&v, k, v.len());
    proof {
        let d = digits@;
        assert(d == tail_digits(v@));
        if d.len() > 0 {
            assert(text::is_digit(d[0]));
        }
    }
    match text::parse_u64(digits.as_str()) {
        Some(n) => if n <= 0xffff_ffff {
            n as u32
        } else {
            0
        },
        None => 0,
    }
}

/// A part's name, ordered as the parts are read.
pub struct Part {
    pub name: String,
}

impl DeepView for Part {
    type V = Seq<char>;

    open spec fn deep_view(&self) -> Seq<char> {
        self.name@
    }
}

impl Ranked for Part {
    open spec fn leq() -> spec_fn(Seq<char>, Seq<char>) -> bool {
        |a: Seq<char>, b: Seq<char>| part_leq(a, b)
    }

    proof fn total() {
        let leq = Self::leq();
        assert forall|a: Seq<char>| #[trigger] leq(a, a) by {
            text::lemma_before_irreflexive(a);
        }
        assert forall|a: Seq<char>, b: Seq<char>| #[trigger] leq(a, b) && #[trigger] leq(
            b,
            a,
        ) implies a == b by {
            text::lemma_before_total(a, b);
        }
        assert forall|a: Seq<char>, b: Seq<char>, c: Seq<char>| #[trigger]
            leq(a, b) && #[trigger] leq(b, c) implies leq(a, c) by {
            if rank(a) == rank(b) && rank(b) == rank(c) && suffix(a) == suffix(b) && suffix(b)
                == suffix(c) {
                text::lemma_before_total(a, b);
                text::lemma_before_total(b, c);
                if text::before(c, a) {
                    if a == b {
                    } else if b == c {
                    } else {
                        text::lemma_before_transitive(a, b, c);
                        text::lemma_before_transitive(a, c, a);
                        text::lemma_before_irreflexive(a);
                    }
                }
            }
        }
        assert forall|a: Seq<char>, b: Seq<char>| #[trigger] leq(a, b) || #[trigger] leq(b, a) by {
            if text::before(a, b) && text::before(b, a) {
                text::lemma_before_transitive(a, b, a);
                text::lemma_before_irreflexive(a);
            }
        }
    }

    fn ranks(&self, other: &Self) -> (r: bool) {
        let (a, b) = (part_rank(self.name.as_str()), part_rank(other.name.as_str()));
        if a != b {
            return a < b;
        }
        let (m, n) = (numeric_suffix(self.name.as_str()), numeric_suffix(other.name.as_str()));
        if m != n {
            return m < n;
        }
        !text::is_before(other.name.as_str(), self.name.as_str())
    }
}

/// The parts that are read are those that hold prose, and all of them: the
/// body before the slides, the slides before their notes, and slide 2 before
/// slide 10.
pub proof fn parts_are_read_in_order(names: Seq<Seq<char>>)
    ensures
        reading_order(names).to_multiset() == names.filter(
            |n: Seq<char>| prose_part(n),
        ).to_multiset(),
        forall|i: int| 0 <= i < reading_order(names).len() ==> prose_part(reading_order(names)[i]),
        forall|i: int, j: int|
            0 <= i < j < reading_order(names).len() ==> {
                let (a, b) = (#[trigger] reading_order(names)[i], #[trigger] reading_order(names)[j]);
                rank(a) < rank(b) || (rank(a) == rank(b) && suffix(a) <= suffix(b))
            },
{
    broadcast use {vstd::seq_lib::group_to_multiset_ensures, vstd::seq_lib::group_filter_ensures};

    let f = names.filter(|n: Seq<char>| prose_part(n));
    let leq = |a: Seq<char>, b: Seq<char>| part_leq(a, b);
    let r = reading_order(names);
    Part::total();
    assert(Part::leq() == leq);
    f.lemma_sort_by_ensures(leq);
    assert forall|i: int| 0 <= i < r.len() implies prose_part(r[i]) by {
        assert(r.contains(r[i]));
        assert(r.to_multiset().count(r[i]) > 0);
        assert(f.contains(r[i]));
        let k = choose|k: int| 0 <= k < f.len() && f[k] == r[i];
        assert(prose_part(f[k]));
    }
    assert forall|i: int, j: int| 0 <= i < j < r.len() implies {
        let (a, b) = (#[trigger] r[i], #[trigger] r[j]);
        rank(a) < rank(b) || (rank(a) == rank(b) && suffix(a) <= suffix(b))
    } by {
        assert(leq(r[i], r[j]));
    }
}

proof fn lemma_tail_digits_behind(stem: Seq<char>, d: Seq<char>)
    requires
        stem.len() > 0 ==> !text::is_digit(stem.last()),
        text::all_digits(d),
    ensures
        tail_digits(stem + d) == d,
    decreases d.len(),
{
    if d.len() == 0 {
        assert(stem + d =~= stem);
        assert(tail_digits(stem) =~= d);
    } else {
        assert((stem + d).drop_last() =~= stem + d.drop_last());
        assert(text::is_digit(d[d.len() - 1]));
        assert(text::all_digits(d.drop_last())) by {
            assert forall|i: int| 0 <= i < d.len() - 1 implies text::is_digit(
                #[trigger] d.drop_last()[i],
            ) by {
                assert(d.drop_last()[i] == d[i]);
            }
        }
        lemma_tail_digits_behind(stem, d.drop_last());
        assert(d.drop_last().push(d.last()) =~= d);
    }
}

/// The number that a part's name ends with is read back from it, and one with
/// no digits at its end has the number 0.
pub proof fn a_part_is_numbered_by_its_name(stem: Seq<char>, n: nat)
    requires
        stem.len() > 0 ==> !text::is_digit(stem.last()),
        n <= u32::MAX,
    ensures
        suffix(stem + text::digits(n) + ".xml"@) == n,
        !text::finishes(stem, ".xml"@) ==> suffix(stem + ".xml"@) == 0,
{
    reveal_strlit(".xml");
    let d = text::digits(n);
    let s = stem + d;
    text::lemma_digits(n);
    assert(text::is_digit(d[d.len() - 1]));
    assert((s + ".xml"@).skip(s.len() as int) =~= ".xml"@);
    assert((s + ".xml"@).take(s.len() as int) =~= s);
    assert(!text::finishes(s, ".xml"@)) by {
        if text::finishes(s, ".xml"@) {
            assert(s.last() == ".xml"@[3]);
        }
    }
    assert(without_xml(s) == s);
    assert(without_xml(s + ".xml"@) == without_xml(s));
    lemma_tail_digits_behind(stem, d);
    if !text::finishes(stem, ".xml"@) {
        assert((stem + ".xml"@).skip(stem.len() as int) =~= ".xml"@);
        assert((stem + ".xml"@).take(stem.len() as int) =~= stem);
        assert(without_xml(stem + ".xml"@) == without_xml(stem));
        assert(tail_digits(stem).len() == 0);
    }
}

/// The name of a slide.
pub open spec fn slide(n: nat) -> Seq<char> {
    "ppt/slides/slide"@ + text::digits(n) + ".xml"@
}

/// Slides are read by their numbers: slide 9 comes before slide 10.
pub proof fn slides_are_read_by_number(names: Seq<Seq<char>>, n: nat, m: nat, i: int, j: int)
    requires
        n < m <= u32::MAX,
        0 <= i < reading_order(names).len(),
        0 <= j < reading_order(names).len(),
        reading_order(names)[i] == slide(n),
        reading_order(names)[j] == slide(m),
    ensures
        suffix(slide(n)) == n,
        suffix(slide(m)) == m,
        i < j,
{
    lemma_slide(n);
    lemma_slide(m);
    parts_are_read_in_order(names);
    let r = reading_order(names);
    if j < i {
        assert(rank(r[j]) < rank(r[i]) || (rank(r[j]) == rank(r[i]) && suffix(r[j]) <= suffix(
            r[i],
        )));
    }
}

proof fn lemma_slide(n: nat)
    requires
        n <= u32::MAX,
    ensures
        suffix(slide(n)) == n,
        rank(slide(n)) == 1,
{
    reveal_strlit("ppt/slides/slide");
    reveal_strlit("ppt/slides/");
    reveal_strlit("word/document.xml");
    reveal_strlit("content.xml");
    reveal_strlit("xl/sharedStrings.xml");
    let s = slide(n);
    a_part_is_numbered_by_its_name("ppt/slides/slide"@, n);
    assert(s[0] == 'p');
    assert(s.take(11) =~= "ppt/slides/"@);
}

/// The prose parts among an archive's names, in reading order.
pub fn wanted_parts(names: &Vec<String>) -> (r: Vec<String>)
    ensures
        views(r@) == reading_order(views(names@)),
{
    let mut parts: Vec<Part> = Vec::new();
    let mut i: usize = 0;
    let ghost prose = |n: Seq<char>| prose_part(n);
    proof {
        assert(views(names@).take(0) =~= seq![]);
        reveal(Seq::filter);
        assert(deep(parts@) =~= views(names@).take(0).filter(prose));
    }
    while i < names.len()
        invariant
            i <= names.len(),
            prose == (|n: Seq<char>| prose_part(n)),
            deep(parts@) == views(names@).take(i as int).filter(prose),
        decreases names.len() - i,
    {
        proof {
            let all = views(names@);
            assert(all.take(i + 1).drop_last() =~= all.take(i as int));
            assert(all.take(i + 1).last() == names@[i as int]@);
            reveal(Seq::filter);
        }
        if is_prose_part(names[i].as_str()) {
            let ghost before = deep(parts@);
            parts.push(Part { name: names[i].clone() });
            proof {
                assert(deep(parts@) =~= before.push(names@[i as int]@));
            }
        }
        i = i + 1;
    }
    proof {
        assert(views(names@).take(names@.len() as int) =~= views(names@));
        assert(Part::leq() =~= (|a: Seq<char>, b: Seq<char>| part_leq(a, b)));
    }
    let sorted = sort::sort(parts);
    let mut out: Vec<String> = Vec::new();
    let mut k: usize = 0;
    while k < sorted.len()
        invariant
            k <= sorted.len(),
            out.len() == k,
            forall|j: int| 0 <= j < k ==> #[trigger] views(out@)[j] == deep(sorted@)[j],
        decreases sorted.len() - k,
    {
        let ghost before = out@;
        out.push(sorted[k].name.clone());
        proof {
            assert forall|j: int| 0 <= j < k + 1 implies #[trigger] views(out@)[j] == deep(
                sorted@,
            )[j] by {
                if j < k {
                    assert(views(before)[j] == deep(sorted@)[j]);
                }
            }
        }
        k = k + 1;
    }
    proof {
        assert(views(out@) =~= deep(sorted@));
    }
    out
}

// ---------------------------------------------------------- the archive's data

/// What an archive says of one of its members.
#[derive(Clone, Copy, PartialEq, Eq, Debug)]
pub enum MemberSize {
    /// It cannot be read here; an encrypted member says so this way.
    Unsupported,
    Missing,
    /// The size it claims, written by whoever built the archive.
    Bytes(u64),
}

/// The names of the members of an archive; `None` where the bytes are none.
pub uninterp spec fn archive_names(archive: Seq<u8>) -> Option<Seq<Seq<char>>>;

/// What an archive says of the member of that name.
pub uninterp spec fn member_size(archive: Seq<u8>, name: Seq<char>) -> MemberSize;

/// The first `limit` bytes of a member, decompressed; `None` where they cannot
/// be.
pub uninterp spec fn member_data(archive: Seq<u8>, name: Seq<char>, limit: u64) -> Option<Seq<u8>>;

/// `zip::ZipArchive::new` and `file_names`: the members' names in the order of
/// the central directory.
#[verifier::external_body]
fn zip_names(archive: &[u8]) -> (names: Option<Vec<String>>)
    ensures
        match names {
            Some(v) => archive_names(archive@) == Some(views(v@)),
            None => archive_names(archive@) is None,
        },
{
    let zip = zip::ZipArchive::new(std::io::Cursor::new(archive)).ok()?;
    Some(zip.file_names().map(String::from).collect())
}

/// `zip::ZipArchive::by_name` and `ZipFile::size`: whether the member can be
/// read, and the size its header claims.
#[verifier::external_body]
fn zip_size(archive: &[u8], name: &str) -> (size: MemberSize)
    ensures
        size == member_size(archive@, name@),
{
    match zip::ZipArchive::new(std::io::Cursor::new(archive)) {
        Err(_) => MemberSize::Missing,
        Ok(mut zip) => match zip.by_name(name) {
            Ok(entry) => MemberSize::Bytes(entry.size()),
            Err(zip::result::ZipError::UnsupportedArchive(_)) => MemberSize::Unsupported,
            Err(_) => MemberSize::Missing,
        },
    }
}

/// `zip::read::ZipFile` as a reader: at most `limit` decompressed bytes of the
/// member.
#[verifier::external_body]
fn zip_data(archive: &[u8], name: &str, limit: u64) -> (data: Option<Vec<u8>>)
    ensures
        match data {
            Some(v) => member_data(archive@, name@, limit) == Some(v@) && v@.len() <= limit,
            None => member_data(archive@, name@, limit) is None,
        },
{
    let mut zip = zip::ZipArchive::new(std::io::Cursor::new(archive)).ok()?;
    let entry = zip.by_name(name).ok()?;
    let mut buf = Vec::new();
    entry.take(limit).read_to_end(&mut buf).ok()?;
    Some(buf)
}

pub open spec fn too_large() -> Failure {
    Failure::Other("that Office file expands to more than this will read"@)
}

/// Whether a member may be read: skipped, refused, or read.
pub open spec fn readable(size: MemberSize, budget: u64) -> Result<bool, Failure> {
    match size {
        MemberSize::Unsupported => Err(Failure::Other("that Office file is encrypted"@)),
        MemberSize::Missing => Ok(false),
        MemberSize::Bytes(n) => if n > MAX_ZIP_ENTRY_BYTES || n > budget {
            Err(too_large())
        } else {
            Ok(true)
        },
    }
}

/// What is left of the budget after a member was read.
pub open spec fn charged(data: Option<Seq<u8>>, budget: u64) -> Result<u64, Failure> {
    match data {
        None => Err(Failure::Other("that Office file could not be read"@)),
        Some(d) => if d.len() > budget {
            Err(too_large())
        } else {
            Ok((budget - d.len()) as u64)
        },
    }
}

/// The text of the parts `names`, read one after the other.
pub open spec fn gathered(
    archive: Seq<u8>,
    names: Seq<Seq<char>>,
    budget: u64,
    out: Seq<char>,
) -> Result<Seq<char>, Failure>
    decreases names.len(),
{
    if names.len() == 0 {
        Ok(out)
    } else {
        match readable(member_size(archive, names[0]), budget) {
            Err(e) => Err(e),
            Ok(false) => gathered(archive, names.drop_first(), budget, out),
            Ok(true) => {
                let data = member_data(archive, names[0], (budget + 1) as u64);
                match charged(data, budget) {
                    Err(e) => Err(e),
                    Ok(left) => {
                        let more = out + part_text(names[0], xml_events(data->0)) + "\n"@;
                        if more.len() > MAX_EXTRACTED_CHARS_PER_FILE {
                            Ok(more)
                        } else {
                            gathered(archive, names.drop_first(), left, more)
                        }
                    },
                }
            },
        }
    }
}

/// The text of an archive.
pub open spec fn office_text(archive: Seq<u8>) -> Result<Seq<char>, Failure> {
    match archive_names(archive) {
        None => Err(Failure::Other("that Office file could not be opened"@)),
        Some(names) => if reading_order(names).len() == 0 {
            Err(Failure::Other("that is a ZIP archive, not a document this can read"@))
        } else {
            match gathered(archive, reading_order(names), MAX_ZIP_TOTAL_BYTES, seq![]) {
                Err(e) => Err(e),
                Ok(out) => Ok(text::trimmed(out)),
            }
        },
    }
}

/// Whether a member may be read.
pub fn may_read(size: MemberSize, budget: u64) -> (r: Result<bool, AppError>)
    ensures
        match r {
            Ok(b) => readable(size, budget) == Ok::<bool, Failure>(b),
            Err(e) => readable(size, budget) == Err::<bool, Failure>(e@),
        },
{
    match size {
        MemberSize::Unsupported => Err(other("that Office file is encrypted")),
        MemberSize::Missing => Ok(false),
        MemberSize::Bytes(n) => if n > MAX_ZIP_ENTRY_BYTES || n > budget {
            Err(other("that Office file expands to more than this will read"))
        } else {
            Ok(true)
        },
    }
}

/// What is left of the budget after a member was read.
pub fn charge(data: &Option<Vec<u8>>, budget: u64) -> (r: Result<u64, AppError>)
    ensures
        match r {
            Ok(left) => *data is Some && charged(Some(data->0@), budget) == Ok::<u64, Failure>(
                left,
            ),
            Err(e) => charged(
                match *data {
                    Some(d) => Some(d@),
                    None => None,
                },
                budget,
            ) == Err::<u64, Failure>(e@),
        },
{
    match data {
        None => Err(other("that Office file could not be read")),
        Some(d) => {
            let n: u64 = d.len() as u64;
            if n > budget {
                Err(other("that Office file expands to more than this will read"))
            } else {
                Ok(budget - n)
            }
        },
    }
}

/// The text of an Office document, given as the bytes of its archive.
pub fn text(archive: &[u8]) -> (r: Result<String, AppError>)
    ensures
        match r {
            Ok(s) => office_text(archive@) == Ok::<Seq<char>, Failure>(s@),
            Err(e) => office_text(archive@) == Err::<Seq<char>, Failure>(e@),
        },
{
    let names = match zip_names(archive) {
        None => return Err(other("that Office file could not be opened")),
        Some(v) => v,
    };
    let wanted = wanted_parts(&names);
    if wanted.len() == 0 {
        return Err(other("that is a ZIP archive, not a document this can read"));
    }
    let mut out = String::new();
    let mut budget: u64 = MAX_ZIP_TOTAL_BYTES;
    let mut i: usize = 0;
    let ghost goal = gathered(archive@, views(wanted@), MAX_ZIP_TOTAL_BYTES, seq![]);
    proof {
        assert(views(wanted@).skip(0) =~= views(wanted@));
        assert(out@ =~= seq![]);
    }
    while i < wanted.len()
        invariant_except_break
            gathered(archive@, views(wanted@).skip(i as int), budget, out@) == goal,
        invariant
            i <= wanted.len(),
            budget <= MAX_ZIP_TOTAL_BYTES,
            archive_names(archive@) is Some,
            reading_order(archive_names(archive@)->0) == views(wanted@),
            wanted.len() > 0,
            goal == gathered(archive@, views(wanted@), MAX_ZIP_TOTAL_BYTES, seq![]),
        ensures
            goal == Ok::<Seq<char>, Failure>(out@),
        decreases wanted.len() - i,
    {
        proof {
            let left = views(wanted@).skip(i as int);
            assert(left[0] == wanted@[i as int]@);
            assert(left.drop_first() =~= views(wanted@).skip(i + 1));
        }
        let name = wanted[i].as_str();
        i = i + 1;
        match may_read(zip_size(archive, name), budget) {
            Err(e) => return Err(e),
            Ok(false) => {
                continue ;
            },
            Ok(true) => {},
        }
        let data = zip_data(archive, name, budget + 1);
        match charge(&data, budget) {
            Err(e) => return Err(e),
            Ok(left) => {
                budget = left;
            },
        }
        if let Some(buf) = &data {
            out.append(strip_part(name, buf.as_slice()).as_str());
            out.append("\n");
        }
        if text::count(out.as_str()) > MAX_EXTRACTED_CHARS_PER_FILE {
            break;
        }
    }
    Ok(text::trim(out.as_str()))
}

} // verus!
