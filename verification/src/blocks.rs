//! The marked blocks in which a meeting's transcript, notes and files reach the
//! model.
//!
//! All three are data, and none of them can be trusted: a transcript is
//! whatever was said, and whoever wrote a file chose every character of it.
//! Each stands between a pair of markers, and every marker that it holds
//! itself is made harmless, so that nothing inside a block can close it.

use vstd::prelude::*;
use vstd::utf8::encode_utf8;

use crate::error::other;
use crate::error::AppError;
use crate::error::Failure;
use crate::json;
use crate::json::docs;
use crate::json::extended;
use crate::json::Doc;
use crate::json::Json;
use crate::text;
use crate::text::control;
use crate::text::occurs;
use crate::text::occurs_at;
use crate::text::replaced;
use crate::text::white;

verus! {

broadcast use vstd::seq_lib::group_seq_properties;

pub const TRANSCRIPT_OPEN: &'static str = "--- BEGIN TRANSCRIPT ---";

pub const TRANSCRIPT_CLOSE: &'static str = "--- END TRANSCRIPT ---";

pub const NOTES_OPEN: &'static str = "--- BEGIN MY NOTES ---";

pub const NOTES_CLOSE: &'static str = "--- END MY NOTES ---";

pub const FILE_OPEN: &'static str = "--- BEGIN FILE ---";

pub const FILE_CLOSE: &'static str = "--- END FILE ---";

/// Every marker, and what stands for it inside a block: the same words, still
/// readable, in small letters.
pub open spec fn markers() -> Seq<(Seq<char>, Seq<char>)> {
    seq![
        (TRANSCRIPT_OPEN@, "~~~ begin transcript ~~~"@),
        (TRANSCRIPT_CLOSE@, "~~~ end transcript ~~~"@),
        (NOTES_OPEN@, "~~~ begin my notes ~~~"@),
        (NOTES_CLOSE@, "~~~ end my notes ~~~"@),
        (FILE_OPEN@, "~~~ begin file ~~~"@),
        (FILE_CLOSE@, "~~~ end file ~~~"@),
    ]
}

/// The first markers replaced, one after the other.
pub open spec fn defanged_by(s: Seq<char>, n: nat) -> Seq<char>
    decreases n,
{
    if n == 0 {
        s
    } else {
        let (marker, by) = markers()[n - 1];
        replaced(defanged_by(s, (n - 1) as nat), marker, by)
    }
}

/// A text with no marker left in it.
pub open spec fn defanged(s: Seq<char>) -> Seq<char> {
    defanged_by(s, 6)
}

/// The character is not in the text.
pub open spec fn lacks(s: Seq<char>, c: char) -> bool
    decreases s.len(),
{
    s.len() == 0 || (s.last() != c && lacks(s.drop_last(), c))
}

proof fn lemma_lacks(s: Seq<char>, c: char)
    requires
        lacks(s, c),
    ensures
        forall|i: int| 0 <= i < s.len() ==> #[trigger] s[i] != c,
    decreases s.len(),
{
    if s.len() > 0 {
        lemma_lacks(s.drop_last(), c);
        assert forall|i: int| 0 <= i < s.len() implies #[trigger] s[i] != c by {
            if i < s.len() - 1 {
                assert(s.drop_last()[i] == s[i]);
            }
        }
    }
}

/// A marker begins with a dash and has neither a tilde nor a line break in it;
/// what replaces it is as long, begins with a tilde, and has no dash and no
/// control character in it.
pub open spec fn marker_shape(marker: Seq<char>, by: Seq<char>) -> bool {
    &&& 0 < marker.len() == by.len()
    &&& marker[0] == '-'
    &&& by[0] == '~'
    &&& lacks(marker, '~')
    &&& lacks(marker, '\n')
    &&& lacks(by, '-')
    &&& forall|i: int| 0 <= i < by.len() ==> !control(#[trigger] by[i])
}

proof fn lemma_small(by: Seq<char>)
    requires
        plain_text(by),
    ensures
        forall|i: int| 0 <= i < by.len() ==> !control(#[trigger] by[i]),
    decreases by.len(),
{
    if by.len() > 0 {
        lemma_small(by.drop_last());
        assert forall|i: int| 0 <= i < by.len() implies !control(#[trigger] by[i]) by {
            if i < by.len() - 1 {
                assert(by.drop_last()[i] == by[i]);
            }
        }
    }
}

/// No control character is in the text.
pub open spec fn plain_text(s: Seq<char>) -> bool
    decreases s.len(),
{
    s.len() == 0 || (!control(s.last()) && plain_text(s.drop_last()))
}

proof fn lemma_markers()
    ensures
        forall|i: int|
            0 <= i < 6 ==> marker_shape((#[trigger] markers()[i]).0, markers()[i].1),
{
    reveal_with_fuel(lacks, 26);
    reveal_with_fuel(plain_text, 26);
    reveal_strlit("--- BEGIN TRANSCRIPT ---");
    reveal_strlit("--- END TRANSCRIPT ---");
    reveal_strlit("--- BEGIN MY NOTES ---");
    reveal_strlit("--- END MY NOTES ---");
    reveal_strlit("--- BEGIN FILE ---");
    reveal_strlit("--- END FILE ---");
    reveal_strlit("~~~ begin transcript ~~~");
    reveal_strlit("~~~ end transcript ~~~");
    reveal_strlit("~~~ begin my notes ~~~");
    reveal_strlit("~~~ end my notes ~~~");
    reveal_strlit("~~~ begin file ~~~");
    reveal_strlit("~~~ end file ~~~");
    lemma_small(markers()[0].1);
    lemma_small(markers()[1].1);
    lemma_small(markers()[2].1);
    lemma_small(markers()[3].1);
    lemma_small(markers()[4].1);
    lemma_small(markers()[5].1);
}

/// A beginning of the replaced text in which the replacement's first character
/// does not stand was a beginning of the text.
proof fn lemma_beginning_kept(s: Seq<char>, pat: Seq<char>, by: Seq<char>, n: int)
    requires
        by.len() > 0,
        0 <= n <= replaced(s, pat, by).len(),
        forall|i: int| 0 <= i < n ==> #[trigger] replaced(s, pat, by)[i] != by[0],
    ensures
        n <= s.len(),
        s.take(n) == replaced(s, pat, by).take(n),
    decreases s.len(),
{
    let r = replaced(s, pat, by);
    if pat.len() == 0 || s.len() == 0 {
    } else if occurs_at(s, pat, 0) {
        if n > 0 {
            assert(r[0] == by[0]);
        }
    } else if n > 0 {
        let t = s.drop_first();
        let q = replaced(t, pat, by);
        assert forall|i: int| 0 <= i < n - 1 implies #[trigger] q[i] != by[0] by {
            assert(q[i] == r[i + 1]);
        }
        lemma_beginning_kept(t, pat, by, n - 1);
        assert forall|i: int| 0 <= i < n implies s[i] == r[i] by {
            if i > 0 {
                assert(t.take(n - 1)[i - 1] == q.take(n - 1)[i - 1]);
            }
        }
        assert(s.take(n) =~= r.take(n));
    }
}

/// Replacing brings in no occurrence of a pattern whose first character the
/// replacement lacks and which lacks the replacement's first character; and it
/// leaves none of the pattern that it replaces.
proof fn lemma_replaced_occurs(
    s: Seq<char>,
    pat: Seq<char>,
    by: Seq<char>,
    m: Seq<char>,
    i: int,
) -> (j: int)
    requires
        pat.len() > 0,
        by.len() > 0,
        m.len() > 0,
        forall|k: int| 0 <= k < by.len() ==> #[trigger] by[k] != m[0],
        forall|k: int| 0 <= k < m.len() ==> #[trigger] m[k] != by[0],
        occurs_at(replaced(s, pat, by), m, i),
    ensures
        occurs_at(s, m, j),
        m != pat,
    decreases s.len(),
{
    let r = replaced(s, pat, by);
    assert(r.subrange(i, i + m.len())[0] == r[i]);
    if s.len() == 0 {
        assert(false);
        0
    } else if occurs_at(s, pat, 0) {
        let n = pat.len() as int;
        let t = s.skip(n);
        let q = replaced(t, pat, by);
        if i < by.len() {
            assert(r[i] == by[i]);
            assert(false);
        }
        assert(q.subrange(i - by.len(), i - by.len() + m.len()) =~= r.subrange(i, i + m.len()));
        let j = lemma_replaced_occurs(t, pat, by, m, i - by.len());
        assert(s.subrange(n + j, n + j + m.len()) =~= t.subrange(j, j + m.len()));
        n + j
    } else {
        let t = s.drop_first();
        let q = replaced(t, pat, by);
        if i > 0 {
            assert(q.subrange(i - 1, i - 1 + m.len()) =~= r.subrange(i, i + m.len()));
            let j = lemma_replaced_occurs(t, pat, by, m, i - 1);
            assert(s.subrange(1 + j, 1 + j + m.len()) =~= t.subrange(j, j + m.len()));
            1 + j
        } else {
            let n = m.len() as int;
            assert forall|k: int| 0 <= k < n implies #[trigger] r[k] != by[0] by {
                assert(r.subrange(0, n)[k] == m[k]);
            }
            lemma_beginning_kept(s, pat, by, n);
            assert(s.subrange(0, n) =~= s.take(n));
            assert(r.subrange(0, n) =~= r.take(n));
            0
        }
    }
}

proof fn lemma_defanged_by(s: Seq<char>, n: nat, k: int, i: int)
    requires
        n <= 6,
        0 <= k < n,
    ensures
        !occurs_at(defanged_by(s, n), markers()[k].0, i),
    decreases n,
{
    lemma_markers();
    let (marker, by) = markers()[n - 1];
    let m = markers()[k].0;
    let t = defanged_by(s, (n - 1) as nat);
    assert(marker_shape(marker, by));
    assert(marker_shape(m, markers()[k].1));
    lemma_lacks(by, '-');
    lemma_lacks(m, '~');
    if occurs_at(defanged_by(s, n), m, i) {
        let j = lemma_replaced_occurs(t, marker, by, m, i);
        if k < n - 1 {
            lemma_defanged_by(s, (n - 1) as nat, k, j);
        }
    }
}

/// No marker is left in a defanged text.
pub proof fn nothing_defanged_holds_a_marker(s: Seq<char>, k: int)
    requires
        0 <= k < 6,
    ensures
        !occurs(defanged(s), markers()[k].0),
{
    assert forall|i: int| !(#[trigger] occurs_at(defanged(s), markers()[k].0, i)) by {
        lemma_defanged_by(s, 6, k, i);
    }
}

proof fn lemma_not_replaced(s: Seq<char>, pat: Seq<char>, by: Seq<char>)
    requires
        !occurs(s, pat),
    ensures
        replaced(s, pat, by) == s,
    decreases s.len(),
{
    if pat.len() > 0 && s.len() > 0 {
        let t = s.drop_first();
        if occurs(t, pat) {
            let i = choose|i: int| occurs_at(t, pat, i);
            assert(s.subrange(i + 1, i + 1 + pat.len()) =~= t.subrange(i, i + pat.len()));
            assert(occurs_at(s, pat, i + 1));
        }
        assert(!occurs_at(s, pat, 0));
        lemma_not_replaced(t, pat, by);
        assert(seq![s[0]] + t =~= s);
    }
}

proof fn lemma_untouched(s: Seq<char>, n: nat)
    requires
        n <= 6,
        forall|k: int| 0 <= k < 6 ==> !occurs(s, (#[trigger] markers()[k]).0),
    ensures
        defanged_by(s, n) == s,
    decreases n,
{
    if n > 0 {
        lemma_untouched(s, (n - 1) as nat);
        let (marker, by) = markers()[n - 1];
        lemma_not_replaced(s, marker, by);
    }
}

/// A text that holds no marker is left as it is.
pub proof fn ordinary_text_is_left_alone(s: Seq<char>)
    requires
        forall|k: int| 0 <= k < 6 ==> !occurs(s, (#[trigger] markers()[k]).0),
    ensures
        defanged(s) == s,
{
    lemma_untouched(s, 6);
}

proof fn lemma_replaced_len(s: Seq<char>, pat: Seq<char>, by: Seq<char>)
    requires
        pat.len() == by.len(),
    ensures
        replaced(s, pat, by).len() == s.len(),
    decreases s.len(),
{
    if pat.len() == 0 || s.len() == 0 {
    } else if occurs_at(s, pat, 0) {
        lemma_replaced_len(s.skip(pat.len() as int), pat, by);
    } else {
        lemma_replaced_len(s.drop_first(), pat, by);
    }
}

proof fn lemma_replaced_plain(s: Seq<char>, pat: Seq<char>, by: Seq<char>)
    requires
        forall|i: int| 0 <= i < s.len() ==> !control(#[trigger] s[i]),
        forall|i: int| 0 <= i < by.len() ==> !control(#[trigger] by[i]),
    ensures
        forall|i: int|
            0 <= i < replaced(s, pat, by).len() ==> !control(#[trigger] replaced(s, pat, by)[i]),
    decreases s.len(),
{
    let r = replaced(s, pat, by);
    if pat.len() == 0 || s.len() == 0 {
    } else {
        let hit = occurs_at(s, pat, 0);
        let (t, head) = if hit {
            (s.skip(pat.len() as int), by)
        } else {
            (s.drop_first(), seq![s[0]])
        };
        assert forall|i: int| 0 <= i < t.len() implies !control(#[trigger] t[i]) by {
            assert(t[i] == s[i + (s.len() - t.len())]);
        }
        lemma_replaced_plain(t, pat, by);
        assert forall|i: int| 0 <= i < r.len() implies !control(#[trigger] r[i]) by {
            if i < head.len() {
                assert(r[i] == head[i]);
                if !hit {
                    assert(!control(s[0]));
                }
            } else {
                assert(r[i] == replaced(t, pat, by)[i - head.len()]);
            }
        }
    }
}

proof fn lemma_defanged_plain(s: Seq<char>, n: nat)
    requires
        n <= 6,
    ensures
        defanged_by(s, n).len() == s.len(),
        (forall|i: int| 0 <= i < s.len() ==> !control(#[trigger] s[i])) ==> (forall|i: int|
            0 <= i < s.len() ==> !control(#[trigger] defanged_by(s, n)[i])),
    decreases n,
{
    if n > 0 {
        lemma_defanged_plain(s, (n - 1) as nat);
        lemma_markers();
        let (marker, by) = markers()[n - 1];
        assert(marker_shape(marker, by));
        let t = defanged_by(s, (n - 1) as nat);
        lemma_replaced_len(t, marker, by);
        if forall|i: int| 0 <= i < s.len() ==> !control(#[trigger] s[i]) {
            lemma_replaced_plain(t, marker, by);
        }
    }
}

/// Makes every marker in a text harmless.
pub fn defang(content: &str) -> (r: String)
    ensures
        r@ == defanged(content@),
{
    proof {
        reveal_with_fuel(defanged_by, 7);
        lemma_markers();
    }
    proof {
        assert(marker_shape(markers()[0].0, markers()[0].1));
        assert(marker_shape(markers()[1].0, markers()[1].1));
        assert(marker_shape(markers()[2].0, markers()[2].1));
        assert(marker_shape(markers()[3].0, markers()[3].1));
        assert(marker_shape(markers()[4].0, markers()[4].1));
        assert(marker_shape(markers()[5].0, markers()[5].1));
    }
    let a = text::replace(content, TRANSCRIPT_OPEN, "~~~ begin transcript ~~~");
    let b = text::replace(a.as_str(), TRANSCRIPT_CLOSE, "~~~ end transcript ~~~");
    let c = text::replace(b.as_str(), NOTES_OPEN, "~~~ begin my notes ~~~");
    let d = text::replace(c.as_str(), NOTES_CLOSE, "~~~ end my notes ~~~");
    let e = text::replace(d.as_str(), FILE_OPEN, "~~~ begin file ~~~");
    text::replace(e.as_str(), FILE_CLOSE, "~~~ end file ~~~")
}

// ------------------------------------------------------------------- file names

/// How many characters of a file's name are shown.
pub const MAX_LABEL_CHARS: usize = 120;

pub open spec fn spaced(s: Seq<char>) -> Seq<char> {
    Seq::new(
        s.len(),
        |i: int|
            if control(s[i]) || white(s[i]) {
                ' '
            } else {
                s[i]
            },
    )
}

/// A file's name on one line, cut at a length and defanged.
pub open spec fn label_of(name: Seq<char>) -> Seq<char> {
    defanged(text::prefix(text::flattened(spaced(name)), MAX_LABEL_CHARS as int))
}

fn space_out(s: &str) -> (r: Vec<char>)
    ensures
        r@ == spaced(s@),
{
    let v = text::chars_of(s);
    let mut r: Vec<char> = Vec::new();
    let mut i: usize = 0;
    while i < v.len()
        invariant
            i <= v.len(),
            v@ == s@,
            r.len() == i,
            forall|j: int| 0 <= j < i ==> #[trigger] r@[j] == spaced(s@)[j],
        decreases v.len() - i,
    {
        let c = v[i];
        if text::is_control(c) || text::is_white(c) {
            r.push(' ');
        } else {
            r.push(c);
        }
        i = i + 1;
    }
    proof {
        assert(r@ =~= spaced(s@));
    }
    r
}

/// A file's name as it is shown to the model. The name never becomes part of a
/// marker: it stands inside the block, in a line of its own.
pub fn file_label(name: &str) -> (r: String)
    ensures
        r@ == label_of(name@),
{
    let flat = text::flatten(&space_out(name));
    let capped = text::take(flat.as_str(), MAX_LABEL_CHARS);
    defang(capped.as_str())
}

/// A file's label is one short line that holds no marker.
pub proof fn a_label_is_one_short_line(name: Seq<char>, k: int)
    requires
        0 <= k < 6,
    ensures
        label_of(name).len() <= MAX_LABEL_CHARS,
        forall|i: int| 0 <= i < label_of(name).len() ==> !control(#[trigger] label_of(name)[i]),
        !occurs(label_of(name), markers()[k].0),
{
    let flat = text::flattened(spaced(name));
    let cut = text::prefix(flat, MAX_LABEL_CHARS as int);
    assert forall|i: int| 0 <= i < cut.len() implies !control(#[trigger] cut[i]) by {
        assert(cut[i] == flat[i]);
        text::lemma_flattened_chars(spaced(name), i);
        if flat[i] != ' ' {
            let j = choose|j: int| 0 <= j < spaced(name).len() && spaced(name)[j] == flat[i];
            assert(spaced(name)[j] == flat[i]);
        }
    }
    lemma_defanged_plain(cut, 6);
    nothing_defanged_holds_a_marker(cut, k);
}

// ------------------------------------------------------------------ the request

/// A file as the model needs it.
pub enum FileContent {
    /// The text read out of it when it was attached.
    Text(String),
    /// The id of its upload.
    Pdf { file_id: String },
    Image { file_id: String },
}

pub struct ContextFile {
    pub name: String,
    pub content: FileContent,
}

/// Everything besides the transcript that the notes are written from, as it
/// was when the run began.
pub struct MeetingContext {
    pub notes: String,
    pub files: Vec<ContextFile>,
}

/// A request of more bytes is refused before it is sent. Uploads go by their
/// id and weigh nothing; what can be too much is text.
pub const MAX_REQUEST_BYTES: usize = 29_360_128;

/// The bytes a file puts into the request.
pub open spec fn file_weight(f: ContextFile) -> nat {
    match f.content {
        FileContent::Text(t) => encode_utf8(t@).len(),
        FileContent::Pdf { file_id } => encode_utf8(file_id@).len(),
        FileContent::Image { file_id } => encode_utf8(file_id@).len(),
    }
}

pub open spec fn files_weight(s: Seq<ContextFile>) -> nat
    decreases s.len(),
{
    if s.len() == 0 {
        0
    } else {
        files_weight(s.drop_last()) + file_weight(s.last())
    }
}

/// The first of the heaviest files, and what it weighs.
pub open spec fn heaviest(s: Seq<ContextFile>) -> Option<(Seq<char>, nat)>
    decreases s.len(),
{
    if s.len() == 0 {
        None
    } else {
        match heaviest(s.drop_last()) {
            Some((name, w)) => if file_weight(s.last()) > w {
                Some((s.last().name@, file_weight(s.last())))
            } else {
                Some((name, w))
            },
            None => Some((s.last().name@, file_weight(s.last()))),
        }
    }
}

fn weigh(f: &ContextFile) -> (n: usize)
    ensures
        n == file_weight(*f),
{
    match &f.content {
        FileContent::Text(t) => t.as_str().as_bytes().len(),
        FileContent::Pdf { file_id } => file_id.as_str().as_bytes().len(),
        FileContent::Image { file_id } => file_id.as_str().as_bytes().len(),
    }
}

pub open spec fn text_block(t: Seq<char>) -> Doc {
    Doc::Object(seq![("type"@, Doc::Str("text"@)), ("text"@, Doc::Str(t))])
}

/// An uploaded file, by its id.
pub open spec fn upload_block(kind: Seq<char>, file_id: Seq<char>) -> Doc {
    Doc::Object(
        seq![
            ("type"@, Doc::Str(kind)),
            (
                "source"@,
                Doc::Object(seq![("type"@, Doc::Str("file"@)), ("file_id"@, Doc::Str(file_id))]),
            ),
        ],
    )
}

/// A text between a pair of markers.
pub open spec fn marked(open: Seq<char>, inner: Seq<char>, close: Seq<char>) -> Seq<char> {
    open + "\n"@ + inner + "\n"@ + close
}

/// The line by which a file is addressed: its ordinal, and its name as data.
pub open spec fn file_line(ordinal: nat, name: Seq<char>) -> Seq<char> {
    "FILE "@ + text::digits(ordinal) + ", named: "@ + label_of(name)
}

/// A file's blocks.
pub open spec fn file_blocks(f: ContextFile, ordinal: nat) -> Seq<Doc> {
    let line = file_line(ordinal, f.name@);
    match f.content {
        FileContent::Text(body) => seq![
            text_block(marked(FILE_OPEN@, line + "\n\n"@ + defanged(body@), FILE_CLOSE@)),
        ],
        FileContent::Pdf { file_id } => seq![
            text_block(FILE_OPEN@ + "\n"@ + line),
            upload_block("document"@, file_id@),
            text_block(FILE_CLOSE@),
        ],
        FileContent::Image { file_id } => seq![
            text_block(FILE_OPEN@ + "\n"@ + line),
            upload_block("image"@, file_id@),
            text_block(FILE_CLOSE@),
        ],
    }
}

pub open spec fn files_blocks(s: Seq<ContextFile>) -> Seq<Doc>
    decreases s.len(),
{
    if s.len() == 0 {
        seq![]
    } else {
        files_blocks(s.drop_last()) + file_blocks(s.last(), s.len())
    }
}

pub open spec fn notes_blocks(notes: Seq<char>) -> Seq<Doc> {
    if text::blank(notes) {
        seq![]
    } else {
        seq![text_block(marked(NOTES_OPEN@, defanged(text::trimmed(notes)), NOTES_CLOSE@))]
    }
}

/// The last block asks to be kept in the cache, and no other.
pub open spec fn cached(s: Seq<Doc>) -> Seq<Doc> {
    if s.len() == 0 {
        s
    } else {
        s.drop_last().push(
            extended(
                s.last(),
                "cache_control"@,
                Doc::Object(seq![("type"@, Doc::Str("ephemeral"@))]),
            ),
        )
    }
}

/// The transcript's block.
pub open spec fn transcript_block(transcript: Seq<char>) -> Doc {
    text_block(marked(TRANSCRIPT_OPEN@, defanged(transcript), TRANSCRIPT_CLOSE@))
}

fn write_text_block(t: &str) -> (r: Json)
    ensures
        r.deep_view() == text_block(t@),
{
    json::object2("type", json::string("text"), "text", json::string(t))
}

fn write_upload_block(kind: &str, file_id: &str) -> (r: Json)
    ensures
        r.deep_view() == upload_block(kind@, file_id@),
{
    let source = json::object2("type", json::string("file"), "file_id", json::string(file_id));
    json::object2("type", json::string(kind), "source", source)
}

fn mark(open: &str, inner: &str, close: &str) -> (r: String)
    ensures
        r@ == marked(open@, inner@, close@),
{
    text::cat5(open, "\n", inner, "\n", close)
}

/// The transcript's block.
pub fn write_transcript_block(transcript: &str) -> (r: Json)
    ensures
        r.deep_view() == transcript_block(transcript@),
{
    write_text_block(mark(TRANSCRIPT_OPEN, defang(transcript).as_str(), TRANSCRIPT_CLOSE).as_str())
}

/// Adds a file's blocks.
fn push_file(blocks: &mut Vec<Json>, f: &ContextFile, ordinal: usize)
    ensures
        docs(final(blocks)@) == docs(old(blocks)@) + file_blocks(*f, ordinal as nat),
{
    let ghost before = docs(blocks@);
    let mut line = text::cat3("FILE ", text::of_usize(ordinal).as_str(), ", named: ");
    line.append(file_label(f.name.as_str()).as_str());
    match &f.content {
        FileContent::Text(body) => {
            let inner = text::cat3(line.as_str(), "\n\n", defang(body.as_str()).as_str());
            let block = write_text_block(mark(FILE_OPEN, inner.as_str(), FILE_CLOSE).as_str());
            blocks.push(block);
        },
        FileContent::Pdf { file_id } => {
            let head = text::cat3(FILE_OPEN, "\n", line.as_str());
            blocks.push(write_text_block(head.as_str()));
            blocks.push(write_upload_block("document", file_id.as_str()));
            blocks.push(write_text_block(FILE_CLOSE));
        },
        FileContent::Image { file_id } => {
            let head = text::cat3(FILE_OPEN, "\n", line.as_str());
            blocks.push(write_text_block(head.as_str()));
            blocks.push(write_upload_block("image", file_id.as_str()));
            blocks.push(write_text_block(FILE_CLOSE));
        },
    }
    proof {
        assert(docs(blocks@) =~= before + file_blocks(*f, ordinal as nat));
    }
}

/// Asks for the last block to be cached.
fn cache_last(blocks: Vec<Json>) -> (r: Vec<Json>)
    ensures
        docs(r@) == cached(docs(blocks@)),
{
    let ghost before = docs(blocks@);
    let mut v = blocks;
    match v.pop() {
        None => {},
        Some(last) => {
            let block = json::extend(
                last,
                "cache_control",
                json::object1("type", json::string("ephemeral")),
            );
            v.push(block);
        },
    }
    proof {
        assert(docs(v@) =~= cached(before));
    }
    v
}

/// What a request that is too large is answered.
pub open spec fn too_large(worst: Option<(Seq<char>, nat)>) -> Seq<char> {
    match worst {
        Some((name, _)) => "the attachments are too large to send — remove "@ + name
            + " and try again"@,
        None => "this meeting is too large to send"@,
    }
}

impl MeetingContext {
    /// The bytes of the notes and the files, and the heaviest file: that a
    /// request is too large helps nobody, and which file to remove does.
    pub fn weight(&self) -> (r: (u128, Option<(&str, usize)>))
        ensures
            r.0 == encode_utf8(self.notes@).len() + files_weight(self.files@),
            r.0 <= 0xffff_ffff_ffff_ffff * (self.files@.len() + 1),
            match r.1 {
                Some((name, w)) => heaviest(self.files@) == Some((name@, w as nat)),
                None => heaviest(self.files@) is None,
            },
    {
        let notes: usize = self.notes.as_str().as_bytes().len();
        let mut total: u128 = notes as u128;
        let mut worst: Option<(&str, usize)> = None;
        let mut i: usize = 0;
        proof {
            assert(self.files@.take(0) =~= seq![]);
        }
        while i < self.files.len()
            invariant
                i <= self.files.len(),
                total == encode_utf8(self.notes@).len() + files_weight(self.files@.take(i as int)),
                total <= 0xffff_ffff_ffff_ffff * (i + 1),
                match worst {
                    Some((name, w)) => heaviest(self.files@.take(i as int)) == Some(
                        (name@, w as nat),
                    ),
                    None => heaviest(self.files@.take(i as int)) is None,
                },
            decreases self.files.len() - i,
        {
            proof {
                assert(self.files@.take(i + 1).drop_last() =~= self.files@.take(i as int));
                assert(self.files@.take(i + 1).last() == self.files@[i as int]);
            }
            let size = weigh(&self.files[i]);
            total = total + size as u128;
            let heavier = match worst {
                Some((_, w)) => size > w,
                None => true,
            };
            if heavier {
                worst = Some((self.files[i].name.as_str(), size));
            }
            i = i + 1;
        }
        proof {
            assert(self.files@.take(self.files@.len() as int) =~= self.files@);
        }
        (total, worst)
    }

    /// Whether the request can be sent, before anything is. The error names
    /// the heaviest file.
    pub fn preflight(&self, transcript_len: usize) -> (r: Result<(), AppError>)
        ensures
            match r {
                Ok(_) => encode_utf8(self.notes@).len() + files_weight(self.files@)
                    + transcript_len <= MAX_REQUEST_BYTES,
                Err(e) => encode_utf8(self.notes@).len() + files_weight(self.files@)
                    + transcript_len > MAX_REQUEST_BYTES && e@ == Failure::Other(
                    too_large(heaviest(self.files@)),
                ),
            },
    {
        let (context, worst) = self.weight();
        let n: usize = self.files.len();
        proof {
            assert(0xffff_ffff_ffff_ffff * (n + 1) + 0xffff_ffff_ffff_ffff <= u128::MAX)
                by (nonlinear_arith)
                requires
                    n <= 0xffff_ffff_ffff_ffff,
            ;
        }
        if context + transcript_len as u128 <= MAX_REQUEST_BYTES as u128 {
            return Ok(());
        }
        match worst {
            Some((name, _)) => Err(
                other(
                    text::cat3(
                        "the attachments are too large to send — remove ",
                        name,
                        " and try again",
                    ).as_str(),
                ),
            ),
            None => Err(other("this meeting is too large to send")),
        }
    }

    /// The blocks of the notes and the files, in a fixed order. They are the
    /// part of the request that stays when a meeting is run again, so the last
    /// of them is cached.
    pub fn blocks(&self) -> (r: Vec<Json>)
        ensures
            docs(r@) == cached(notes_blocks(self.notes@) + files_blocks(self.files@)),
    {
        let mut blocks: Vec<Json> = Vec::new();
        let notes = text::trim(self.notes.as_str());
        if !notes.as_str().is_empty() {
            let inner = defang(notes.as_str());
            blocks.push(write_text_block(mark(NOTES_OPEN, inner.as_str(), NOTES_CLOSE).as_str()));
        }
        let ghost start = notes_blocks(self.notes@);
        let mut i: usize = 0;
        proof {
            assert(docs(blocks@) =~= start);
            assert(self.files@.take(0) =~= seq![]);
            assert(start + files_blocks(seq![]) =~= start);
        }
        while i < self.files.len()
            invariant
                i <= self.files.len(),
                docs(blocks@) == start + files_blocks(self.files@.take(i as int)),
            decreases self.files.len() - i,
        {
            proof {
                let t = self.files@.take(i + 1);
                assert(t.drop_last() =~= self.files@.take(i as int));
                assert(t.last() == self.files@[i as int]);
                let own = file_blocks(t.last(), t.len());
                assert(start + files_blocks(t.drop_last()) + own =~= start + (files_blocks(
                    t.drop_last(),
                ) + own));
            }
            push_file(&mut blocks, &self.files[i], i + 1);
            i = i + 1;
        }
        proof {
            assert(self.files@.take(self.files@.len() as int) =~= self.files@);
        }
        cache_last(blocks)
    }
}

// ------------------------------------------------------------- what blocks keep

proof fn lemma_seam(a: Seq<char>, b: Seq<char>, m: Seq<char>, i: int)
    requires
        lacks(m, '\n'),
        occurs_at(a + "\n"@ + b, m, i),
    ensures
        occurs_at(a, m, i) || (i > a.len() && occurs_at(b, m, i - a.len() - 1)),
{
    reveal_strlit("\n");
    lemma_lacks(m, '\n');
    let t = a + "\n"@ + b;
    let n = m.len() as int;
    if i <= a.len() < i + n {
        assert(t.subrange(i, i + n)[a.len() - i] == t[a.len() as int]);
        assert(t[a.len() as int] == '\n');
    } else if i + n <= a.len() {
        assert(a.subrange(i, i + n) =~= t.subrange(i, i + n));
    } else {
        let j = i - a.len() - 1;
        assert(b.subrange(j, j + n) =~= t.subrange(i, i + n));
    }
}

proof fn lemma_front(a: Seq<char>, b: Seq<char>, m: Seq<char>, i: int)
    requires
        m.len() > 0,
        forall|k: int| 0 <= k < a.len() ==> #[trigger] a[k] != m[0],
        occurs_at(a + b, m, i),
    ensures
        occurs_at(b, m, i - a.len()),
{
    let t = a + b;
    let n = m.len() as int;
    assert(t.subrange(i, i + n)[0] == t[i]);
    if i < a.len() {
        assert(t[i] == a[i]);
    }
    let j = i - a.len();
    assert(b.subrange(j, j + n) =~= t.subrange(i, i + n));
}

/// Inside a marked text no marker begins but in its first and its last line,
/// whatever defanged text stands between them: nothing in a block can close it.
pub proof fn nothing_inside_closes_a_block(
    open: Seq<char>,
    content: Seq<char>,
    close: Seq<char>,
    k: int,
    i: int,
)
    requires
        0 <= k < 6,
        occurs_at(marked(open, defanged(content), close), markers()[k].0, i),
    ensures
        i + markers()[k].0.len() <= open.len() || i >= marked(
            open,
            defanged(content),
            close,
        ).len() - close.len(),
{
    lemma_markers();
    let m = markers()[k].0;
    assert(marker_shape(m, markers()[k].1));
    let inner = defanged(content);
    nothing_defanged_holds_a_marker(content, k);
    reveal_strlit("\n");
    assert(marked(open, inner, close) =~= open + "\n"@ + (inner + "\n"@ + close));
    lemma_seam(open, inner + "\n"@ + close, m, i);
    if i > open.len() {
        lemma_seam(inner, close, m, i - open.len() - 1);
    }
}

proof fn lemma_digits_lack(n: nat)
    ensures
        forall|i: int| 0 <= i < text::digits(n).len() ==> #[trigger] text::digits(n)[i] != '-',
    decreases n,
{
    let d = text::digits(n);
    if n >= 10 {
        lemma_digits_lack(n / 10);
        assert forall|i: int| 0 <= i < d.len() implies #[trigger] d[i] != '-' by {
            if i < d.len() - 1 {
                assert(d[i] == text::digits(n / 10)[i]);
            } else {
                assert(d[i] == text::digit((n % 10) as int));
            }
        }
    } else {
        assert(d[0] == text::digit(n as int));
    }
}

/// Neither the name of a file nor its text can close its block or open
/// another: no marker begins between the first and the last line of the block.
pub proof fn nothing_inside_closes_a_file(
    ordinal: nat,
    name: Seq<char>,
    body: Seq<char>,
    k: int,
    i: int,
)
    requires
        0 <= k < 6,
        occurs_at(
            marked(FILE_OPEN@, file_line(ordinal, name) + "\n\n"@ + defanged(body), FILE_CLOSE@),
            markers()[k].0,
            i,
        ),
    ensures
        i + markers()[k].0.len() <= FILE_OPEN@.len() || i >= marked(
            FILE_OPEN@,
            file_line(ordinal, name) + "\n\n"@ + defanged(body),
            FILE_CLOSE@,
        ).len() - FILE_CLOSE@.len(),
{
    lemma_markers();
    let m = markers()[k].0;
    assert(marker_shape(m, markers()[k].1));
    let line = file_line(ordinal, name);
    let head = "FILE "@ + text::digits(ordinal) + ", named: "@;
    let label = label_of(name);
    let text = defanged(body);
    nothing_defanged_holds_a_marker(body, k);
    a_label_is_one_short_line(name, k);
    reveal_strlit("\n");
    reveal_strlit("\n\n");
    let last = text + "\n"@ + FILE_CLOSE@;
    let rest = seq![] + "\n"@ + last;
    let inner = line + "\n"@ + rest;
    assert(marked(FILE_OPEN@, line + "\n\n"@ + text, FILE_CLOSE@) =~= FILE_OPEN@ + "\n"@ + inner);
    lemma_seam(FILE_OPEN@, inner, m, i);
    if i > FILE_OPEN@.len() {
        let j = i - FILE_OPEN@.len() - 1;
        lemma_seam(line, rest, m, j);
        if occurs_at(line, m, j) {
            assert(line =~= head + label);
            assert forall|c: int| 0 <= c < head.len() implies #[trigger] head[c] != m[0] by {
                reveal_strlit("FILE ");
                reveal_strlit(", named: ");
                lemma_digits_lack(ordinal);
                if c < 5 {
                } else if c < 5 + text::digits(ordinal).len() {
                    assert(head[c] == text::digits(ordinal)[c - 5]);
                }
            }
            lemma_front(head, label, m, j);
            assert(occurs(label, m));
        } else {
            let e = j - line.len() - 1;
            let empty: Seq<char> = seq![];
            lemma_seam(empty, last, m, e);
            lemma_seam(text, FILE_CLOSE@, m, e - 1);
            assert(!occurs_at(text, m, e - 1));
        }
    }
}

} // verus!
