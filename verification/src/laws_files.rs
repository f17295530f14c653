//! What is promised of the files of a meeting: what they are taken for, where
//! they go, and how the model is given them.

use vstd::prelude::*;

use vstd::utf8::decode_utf8;
use vstd::utf8::encode_utf8;
use vstd::utf8::valid_utf8;

use crate::attach::byte_prefix;
use crate::attach::capped;
use crate::attach::classified;
use crate::attach::copy_outcome;
use crate::attach::dir_of;
use crate::attach::entry_removals;
use crate::attach::hex_of;
use crate::attach::image_dims;
use crate::attach::image_refusal;
use crate::attach::is_temp;
use crate::attach::leftovers;
use crate::attach::media_type;
use crate::attach::may_be;
use crate::attach::meeting_of;
use crate::attach::nearest;
use crate::attach::office_refusal;
use crate::attach::pdf_found;
use crate::attach::pdf_refusal;
use crate::attach::placed_as;
use crate::attach::root_of;
use crate::attach::shown_name;
use crate::attach::size_text;
use crate::attach::source_refusal;
use crate::attach::spacing;
use crate::attach::sweep_removals;
use crate::attach::FileType;
use crate::attach::Kind;
use crate::attach::Plan;
use crate::attach::Removal;
use crate::attach::SweepEntry;
use crate::blocks::cached;
use crate::blocks::defanged;
use crate::blocks::defanged_by;
use crate::blocks::file_blocks;
use crate::blocks::file_line;
use crate::blocks::file_weight;
use crate::blocks::files_blocks;
use crate::blocks::files_weight;
use crate::blocks::heaviest;
use crate::blocks::label_of;
use crate::blocks::marked;
use crate::blocks::markers;
use crate::blocks::notes_blocks;
use crate::blocks::spaced;
use crate::blocks::text_block;
use crate::blocks::too_large;
use crate::blocks::transcript_block;
use crate::blocks::upload_block;
use crate::blocks::ContextFile;
use crate::blocks::FileContent;
use crate::blocks::MAX_REQUEST_BYTES;
use crate::error::Failure;
use crate::json::Doc;
use crate::ooxml::office_text;
use crate::paths;
use crate::round::half_even;
use crate::text;

verus! {

broadcast use vstd::seq_lib::group_seq_properties;

// --------------------------------------------------------------------- the sizes

/// A size is told in whole megabytes from one on, and in kilobytes below, to
/// the nearest.
pub proof fn a_size_is_told_to_the_nearest(n: nat)
    requires
        n < 0x20_0000_0000_0000,
    ensures
        nearest(n) == n,
        n >= 1_048_576 ==> size_text(n) == text::digits(half_even(n, 1_048_576)) + " MB"@,
        n < 1_048_576 ==> size_text(n) == text::digits(half_even(n, 1_024)) + " kB"@,
{
    assert(spacing(n) == 1);
    assert(n % 1 == 0);
    assert(n / 1 == n);
    assert(half_even(n, 1) == n);
}

// --------------------------------------------------------------------- the places

/// A name is put under a directory with one slash between them, and is read
/// back as the last name of the path; a path that begins with a slash stands
/// alone.
pub proof fn a_name_is_put_under_a_directory(base: Seq<char>, part: Seq<char>)
    requires
        part.len() > 0,
    ensures
        part[0] == '/' ==> paths::under(base, part) == part,
        part[0] != '/' && base.len() > 0 && base.last() != '/' ==> paths::under(base, part) == base
            + seq!['/'] + part,
        part[0] != '/' && base.len() > 0 && base.last() == '/' ==> paths::under(base, part) == base
            + part,
        part[0] != '/' && base.len() == 0 ==> paths::under(base, part) == part,
        !part.contains('/') && part != seq!['.'] && part != seq!['.', '.'] ==> paths::name_of(
            paths::under(base, part),
        ) == Some(part),
{
    if part[0] != '/' && base.len() == 0 {
        assert(base + part =~= part);
    }
    if !part.contains('/') && part != seq!['.'] && part != seq!['.', '.'] {
        paths::lemma_name_under(base, part);
    }
}

/// A file is shown under the last name of its path.
pub proof fn a_file_is_shown_under_its_last_name(base: Seq<char>, part: Seq<char>, src: Seq<char>)
    ensures
        part.len() > 0 && !part.contains('/') && part != seq!['.'] && part != seq!['.', '.']
            ==> shown_name(paths::under(base, part)) == part,
        paths::name_of(src) is None ==> shown_name(src) == "attachment"@,
{
    if part.len() > 0 && !part.contains('/') && part != seq!['.'] && part != seq!['.', '.'] {
        paths::lemma_name_under(base, part);
    }
}

/// A path that ends in two dots has no last name; a name alone stands in the
/// empty path, and the root and the empty path have nothing above them.
pub proof fn some_paths_have_no_name(base: Seq<char>, part: Seq<char>)
    requires
        part.len() > 0,
        !part.contains('/'),
    ensures
        paths::name_of(seq!['.', '.']) is None,
        paths::name_of(base + seq!['/', '.', '.']) is None,
        paths::above(part) == Some(Seq::<char>::empty()),
        paths::above(seq!['/']) is None,
        paths::above(seq![]) is None,
        paths::name_of(seq!['/']) is None,
        paths::name_of(seq![]) is None,
{
    let dots = seq!['.', '.'];
    assert(!dots.contains('/'));
    paths::lemma_after_slash_tail(seq![], dots);
    assert(seq![] + dots =~= dots);
    assert(dots.skip(0) =~= dots);
    let pre = base + seq!['/'];
    assert(base + seq!['/', '.', '.'] =~= pre + dots);
    paths::lemma_after_slash_tail(pre, dots);
    assert((pre + dots).skip(pre.len() as int) =~= dots);
    assert(part.contains(part.last()));
    if part.len() >= 2 {
        assert(part.contains(part[part.len() - 2]));
    }
    assert(paths::trimmed(part) == part);
    paths::lemma_after_slash_tail(seq![], part);
    assert(seq![] + part =~= part);
    let root = seq!['/'];
    assert(paths::trimmed(root) == root);
    assert(root.skip(1) =~= seq![]);
    let none = Seq::<char>::empty();
    assert(none.skip(0) =~= none);
}

/// A copy that is placed under a name lies in the meeting's directory, under
/// that name, and is written there under the same name with `.tmp` behind it.
pub proof fn a_copy_is_written_beside_its_place(
    plan: Plan,
    store: Seq<char>,
    meeting_id: i64,
    stem: Seq<char>,
)
    requires
        placed_as(plan, store, meeting_id, stem),
        stem.len() > 0,
        stem[0] != '/',
    ensures
        plan.dir@ == dir_of(store, meeting_id),
        plan.dir@.len() > 0 && plan.dir@.last() != '/' ==> plan.final_path@ == plan.dir@ + seq!['/']
            + stem && plan.temp@ == plan.dir@ + seq!['/'] + stem + ".tmp"@,
        paths::name_of(plan.final_path@) == Some(stem),
{
    assert((stem + ".tmp"@)[0] == stem[0]);
    assert(plan.dir@ + seq!['/'] + (stem + ".tmp"@) =~= plan.dir@ + seq!['/'] + stem + ".tmp"@);
}

/// The copies live beside the store, under `meetings`, each meeting's in a
/// directory named by its id.
pub proof fn copies_live_beside_the_store(dir: Seq<char>, file: Seq<char>, id: i64)
    requires
        dir.len() > 0,
        dir.last() != '/',
        dir.last() != '.',
        file.len() > 0,
        !file.contains('/'),
        file[0] != '.',
    ensures
        root_of(dir + seq!['/'] + file) == dir + seq!['/'] + "meetings"@,
        dir_of(dir + seq!['/'] + file, id) == dir + seq!['/'] + "meetings"@ + seq!['/']
            + text::decimal(id as int),
{
    reveal_strlit("meetings");
    assert(file.contains(file[0]));
    paths::lemma_above_under(dir, file);
    text::lemma_decimal(id as int, id as int);
    let d = text::decimal(id as int);
    assert(d[0] != '/') by {
        assert(text::is_digit(d[0]) || d[0] == '-');
    }
    let r = dir + seq!['/'] + "meetings"@;
    assert(r.last() == "meetings"@.last());
}

/// The digits of a drawn name.
pub proof fn a_drawn_name_is_written_in_hexadecimal(n: u8)
    requires
        n < 16,
    ensures
        n < 10 ==> hex_of(n) as int == '0' as int + n,
        n >= 10 ==> hex_of(n) as int == 'a' as int + n - 10,
{
}

// ------------------------------------------------------------ what may be attached

/// Only a regular file of at most 25 MB may be copied; each refusal says what is
/// wrong.
pub proof fn only_a_regular_file_is_copied(src: Seq<char>, len: u64)
    ensures
        source_refusal(src, FileType::Symlink, len) == Some("that is a symlink, not a file"@),
        source_refusal(src, FileType::Directory, len) == Some(
            "that is a folder — attach the files inside it"@,
        ),
        source_refusal(src, FileType::Other, len) == Some("that is not a regular file"@),
        len <= 26_214_400 ==> source_refusal(src, FileType::Regular, len) is None,
        len > 26_214_400 ==> source_refusal(src, FileType::Regular, len) == Some(
            shown_name(src) + " is "@ + size_text(len as nat) + ", over the "@ + size_text(
                26_214_400,
            ) + " limit for one file"@,
        ),
{
}

/// A copy counts where something of it was written, and at most 25 MB.
pub proof fn a_copy_is_neither_empty_nor_too_long(written: u64)
    ensures
        0 < written <= 26_214_400 ==> copy_outcome(written) == Ok::<u64, Failure>(written),
        written == 0 ==> copy_outcome(written) == Err::<u64, Failure>(
            Failure::Other("that file is empty"@),
        ),
        written > 26_214_400 ==> copy_outcome(written) == Err::<u64, Failure>(
            Failure::Other("that file is over the "@ + size_text(26_214_400) + " limit"@),
        ),
{
}

/// Bytes begin with others where they are those and something behind them.
pub proof fn bytes_begin_with_what_they_are_made_of(pre: Seq<u8>, rest: Seq<u8>, b: Seq<u8>)
    ensures
        byte_prefix(pre + rest, pre),
        byte_prefix(b, pre) ==> b == pre + b.skip(pre.len() as int),
{
    assert((pre + rest).take(pre.len() as int) =~= pre);
    if byte_prefix(b, pre) {
        assert(b =~= b.take(pre.len() as int) + b.skip(pre.len() as int));
    }
}

/// What an image is is told by its first bytes.
pub proof fn an_image_is_told_by_its_first_bytes(rest: Seq<u8>, size: Seq<u8>, head: Seq<u8>)
    ensures
        media_type(seq![0x89u8, 0x50, 0x4e, 0x47, 0x0d, 0x0a, 0x1a, 0x0a] + rest) == Some(
            "image/png"@,
        ),
        media_type(seq![0xffu8, 0xd8, 0xff] + rest) == Some("image/jpeg"@),
        media_type(seq![0x47u8, 0x49, 0x46, 0x38, 0x37, 0x61] + rest) == Some("image/gif"@),
        media_type(seq![0x47u8, 0x49, 0x46, 0x38, 0x39, 0x61] + rest) == Some("image/gif"@),
        size.len() == 4 ==> media_type(
            seq![0x52u8, 0x49, 0x46, 0x46] + size + seq![0x57u8, 0x45, 0x42, 0x50] + rest,
        ) == Some("image/webp"@),
        media_type(head) is Some ==> head.len() > 2 && (head[0] == 0x89 || head[0] == 0xff
            || head[0] == 0x47 || head[0] == 0x52),
{
    let png = seq![0x89u8, 0x50, 0x4e, 0x47, 0x0d, 0x0a, 0x1a, 0x0a];
    let jpeg = seq![0xffu8, 0xd8, 0xff];
    let gif7 = seq![0x47u8, 0x49, 0x46, 0x38, 0x37, 0x61];
    let gif9 = seq![0x47u8, 0x49, 0x46, 0x38, 0x39, 0x61];
    let riff = seq![0x52u8, 0x49, 0x46, 0x46];
    bytes_begin_with_what_they_are_made_of(png, rest, head);
    bytes_begin_with_what_they_are_made_of(jpeg, rest, head);
    bytes_begin_with_what_they_are_made_of(gif7, rest, head);
    bytes_begin_with_what_they_are_made_of(gif9, rest, head);
    bytes_begin_with_what_they_are_made_of(riff, rest, head);
    lemma_first(png, jpeg + rest);
    lemma_first(png, gif7 + rest);
    lemma_first(png, gif9 + rest);
    lemma_first(jpeg, gif7 + rest);
    lemma_first(jpeg, gif9 + rest);
    if size.len() == 4 {
        let web = riff + size + seq![0x57u8, 0x45, 0x42, 0x50] + rest;
        assert(web =~= riff + (size + seq![0x57u8, 0x45, 0x42, 0x50] + rest));
        bytes_begin_with_what_they_are_made_of(
            riff,
            size + seq![0x57u8, 0x45, 0x42, 0x50] + rest,
            head,
        );
        assert(web.subrange(8, 12) =~= seq![0x57u8, 0x45, 0x42, 0x50]);
        lemma_first(png, web);
        lemma_first(jpeg, web);
        lemma_first(gif7, web);
        lemma_first(gif9, web);
    }
}

proof fn lemma_first(pre: Seq<u8>, b: Seq<u8>)
    requires
        pre.len() > 0,
        b.len() > 0,
        pre[0] != b[0],
    ensures
        !byte_prefix(b, pre),
{
    if byte_prefix(b, pre) {
        assert(b.take(pre.len() as int)[0] == b[0]);
    }
}

/// What a copy is is decided by its bytes: one that begins as a PDF is a PDF,
/// else one that begins as an image an image, else one that begins as a ZIP
/// archive an Office file, and else one that is UTF-8 without a NUL is a text.
pub proof fn a_copy_is_what_its_bytes_are(
    copy: Seq<u8>,
    rest: Seq<u8>,
    facts: Option<(bool, usize)>,
    s: Seq<char>,
)
    requires
        !byte_prefix(copy, seq![0x25u8, 0x50, 0x44, 0x46, 0x2d]),
    ensures
        classified(seq![0x25u8, 0x50, 0x44, 0x46, 0x2d] + rest, facts) == match pdf_refusal(facts) {
            Some(m) => Err::<(Kind, Option<Seq<char>>), Failure>(Failure::Other(m)),
            None => Ok((Kind::Pdf, None)),
        },
        media_type(copy) is Some ==> classified(copy, facts) == match image_refusal(
            image_dims(copy),
        ) {
            Some(m) => Err::<(Kind, Option<Seq<char>>), Failure>(Failure::Other(m)),
            None => Ok((Kind::Image, None)),
        },
        media_type(copy) is None && byte_prefix(copy, seq![0x50u8, 0x4b, 0x03, 0x04])
            && office_text(copy) == Ok::<Seq<char>, Failure>(s) && text::trimmed(s).len() > 0
            ==> classified(copy, facts) == Ok::<(Kind, Option<Seq<char>>), Failure>(
            (Kind::Office, Some(text::prefix(s, 80_000))),
        ),
        media_type(copy) is None && byte_prefix(copy, seq![0x50u8, 0x4b, 0x03, 0x04])
            && office_text(copy) == Ok::<Seq<char>, Failure>(s) && text::trimmed(s).len() == 0
            ==> classified(copy, facts) == Err::<(Kind, Option<Seq<char>>), Failure>(
            Failure::Other("that Office file has no text in it"@),
        ),
        media_type(copy) is None && !byte_prefix(copy, seq![0x50u8, 0x4b, 0x03, 0x04])
            && copy.contains(0) ==> classified(copy, facts) == Err::<
            (Kind, Option<Seq<char>>),
            Failure,
        >(Failure::Other("that looks like a binary file, not text"@)),
        media_type(copy) is None && !byte_prefix(copy, seq![0x50u8, 0x4b, 0x03, 0x04])
            && !copy.contains(0) && valid_utf8(copy) ==> classified(copy, facts) == Ok::<
            (Kind, Option<Seq<char>>),
            Failure,
        >((Kind::Text, Some(text::prefix(decode_utf8(copy), 80_000)))),
        media_type(copy) is None && !byte_prefix(copy, seq![0x50u8, 0x4b, 0x03, 0x04])
            && !copy.contains(0) && !valid_utf8(copy) ==> classified(copy, facts) == Err::<
            (Kind, Option<Seq<char>>),
            Failure,
        >(Failure::Other("that is not a text file this can read"@)),
        capped(s) == text::prefix(s, 80_000),
        office_refusal(s) is None <==> text::trimmed(s).len() > 0,
{
    bytes_begin_with_what_they_are_made_of(seq![0x25u8, 0x50, 0x44, 0x46, 0x2d], rest, copy);
}

/// A copy that is no PDF is what its bytes say; a PDF is judged by what was
/// found in it, and one in which nothing was found is refused as damaged.
pub proof fn a_copy_is_judged_by_what_is_in_it(
    copy: Seq<u8>,
    outcome: Result<(Kind, Option<Seq<char>>), Failure>,
    encrypted: bool,
    pages: usize,
)
    requires
        may_be(copy, outcome),
    ensures
        !byte_prefix(copy, seq![0x25, 0x50, 0x44, 0x46, 0x2d]) ==> outcome == classified(copy, None),
        byte_prefix(copy, seq![0x25, 0x50, 0x44, 0x46, 0x2d]) ==> {
            &&& pdf_found(copy) is None ==> outcome == Err::<(Kind, Option<Seq<char>>), _>(
                Failure::Other("that PDF could not be read — it may be damaged"@),
            )
            &&& pdf_found(copy) == Some((encrypted, Some(pages))) && encrypted ==> outcome == Err::<
                (Kind, Option<Seq<char>>),
                _,
            >(Failure::Other("that PDF is encrypted"@))
            &&& pdf_found(copy) == Some((encrypted, Some(pages))) && !encrypted && pages <= 20
                ==> outcome == Ok::<_, Failure>((Kind::Pdf, None::<Seq<char>>))
            &&& pdf_found(copy) == Some((encrypted, Some(pages))) && !encrypted && pages > 20
                ==> outcome is Err
        },
{
}

/// A PDF is taken where it can be read, is not encrypted and has at most twenty
/// pages; an image where it can be read and has at most fifty million pixels.
pub proof fn what_a_pdf_and_an_image_may_be(pages: usize, width: usize, height: usize)
    ensures
        pdf_refusal(None) == Some("that PDF could not be read — it may be damaged"@),
        pdf_refusal(Some((true, pages))) == Some("that PDF is encrypted"@),
        pages <= 20 ==> pdf_refusal(Some((false, pages))) is None,
        pages > 20 ==> pdf_refusal(Some((false, pages))) == Some(
            "that PDF has "@ + text::decimal(pages as int) + " pages; the limit is "@
                + text::decimal(20),
        ),
        image_refusal(None) == Some("that image could not be read"@),
        width * height <= 50_000_000 ==> image_refusal(Some((width, height))) is None,
        width * height > 50_000_000 ==> image_refusal(Some((width, height))) == Some(
            "that image is "@ + text::decimal(width as int) + "x"@ + text::decimal(height as int)
                + ", too large to send"@,
        ),
{
}

// ---------------------------------------------------------------------- the sweep

/// A copy that was interrupted is a file with a name before `.tmp`.
pub proof fn an_interrupted_copy_ends_in_tmp(stem: Seq<char>, file: Seq<char>)
    ensures
        stem.len() > 0 ==> is_temp(stem + ".tmp"@),
        !is_temp(".tmp"@),
        is_temp(file) ==> file.len() > 4 && file == file.take(file.len() - 4) + ".tmp"@,
{
    reveal_strlit(".tmp");
    let s = stem + ".tmp"@;
    assert(s.subrange(s.len() - 4, s.len() as int) =~= ".tmp"@);
    if is_temp(file) {
        assert(file =~= file.take(file.len() - 4) + file.subrange(
            file.len() - 4,
            file.len() as int,
        ));
    }
}

/// Under the root a directory named by a meeting that is gone is removed whole;
/// out of one whose meeting is there every interrupted copy, and nothing else; a
/// directory by any other name is left alone.
pub proof fn what_the_sweep_removes(
    id: nat,
    files: Seq<Seq<char>>,
    file: Seq<char>,
    live: Seq<i64>,
    name: Seq<char>,
)
    requires
        id <= i64::MAX,
    ensures
        meeting_of(text::digits(id)) == Some(id as i64),
        !live.contains(id as i64) ==> entry_removals(text::digits(id), files, live) == seq![
            Removal::Meeting(id as i64),
        ],
        live.contains(id as i64) ==> entry_removals(text::digits(id), files, live) == leftovers(
            text::digits(id),
            files,
        ),
        text::integer(name) is None ==> entry_removals(name, files, live) == Seq::<
            Removal,
        >::empty(),
        leftovers(name, Seq::empty()) == Seq::<Removal>::empty(),
        is_temp(file) ==> leftovers(name, files.push(file)) == leftovers(name, files).push(
            Removal::Leftover(name, file),
        ),
        !is_temp(file) ==> leftovers(name, files.push(file)) == leftovers(name, files),
{
    crate::laws_text::a_number_is_read_back(id, seq![], 0);
    assert(files.push(file).drop_last() =~= files);
}

/// The entries are looked at one after the other.
pub proof fn the_sweep_goes_through_every_entry(
    a: Seq<SweepEntry>,
    e: SweepEntry,
    live: Seq<i64>,
)
    ensures
        sweep_removals(Seq::empty(), live) == Seq::<Removal>::empty(),
        sweep_removals(a.push(e), live) == sweep_removals(a, live) + entry_removals(
            e.name@,
            text::views(e.files@),
            live,
        ),
{
    assert(a.push(e).drop_last() =~= a);
}

// --------------------------------------------------------------------- the blocks

/// The markers, and the words that stand for each inside of a block.
pub proof fn every_marker_has_words_that_stand_for_it(s: Seq<char>, n: nat)
    ensures
        markers() == seq![
            ("--- BEGIN TRANSCRIPT ---"@, "~~~ begin transcript ~~~"@),
            ("--- END TRANSCRIPT ---"@, "~~~ end transcript ~~~"@),
            ("--- BEGIN MY NOTES ---"@, "~~~ begin my notes ~~~"@),
            ("--- END MY NOTES ---"@, "~~~ end my notes ~~~"@),
            ("--- BEGIN FILE ---"@, "~~~ begin file ~~~"@),
            ("--- END FILE ---"@, "~~~ end file ~~~"@),
        ],
        defanged_by(s, 0) == s,
        n < 6 ==> defanged_by(s, n + 1) == text::replaced(
            defanged_by(s, n),
            markers()[n as int].0,
            markers()[n as int].1,
        ),
        defanged(s) == defanged_by(s, 6),
{
}

/// A file's name is shown on one line, at most 120 characters of it, with
/// nothing changed but whitespace, control characters and markers.
pub proof fn a_file_is_named_on_one_line(name: Seq<char>, a: Seq<char>, c: char, b: Seq<char>)
    ensures
        label_of(name) == defanged(
            text::prefix(text::joined(text::words(spaced(name)), seq![' ']), 120),
        ),
        spaced(a + b) == spaced(a) + spaced(b),
        text::white(c) || text::control(c) ==> spaced(seq![c]) == seq![' '],
        !text::white(c) && !text::control(c) ==> spaced(seq![c]) == seq![c],
{
    assert(spaced(a + b) =~= spaced(a) + spaced(b));
    assert(spaced(seq![c]) =~= seq![spaced(seq![c])[0]]);
}

/// What a file weighs is what it puts into the request; files weigh as much as
/// all of them together.
pub proof fn files_weigh_what_they_put_into_a_request(
    a: Seq<ContextFile>,
    f: ContextFile,
    s: String,
)
    ensures
        f.content == FileContent::Text(s) ==> file_weight(f) == encode_utf8(s@).len(),
        f.content == (FileContent::Pdf { file_id: s }) ==> file_weight(f) == encode_utf8(s@).len(),
        f.content == (FileContent::Image { file_id: s }) ==> file_weight(f) == encode_utf8(
            s@,
        ).len(),
        files_weight(Seq::empty()) == 0,
        files_weight(a.push(f)) == files_weight(a) + file_weight(f),
        MAX_REQUEST_BYTES == 29_360_128,
{
    assert(a.push(f).drop_last() =~= a);
}

/// The heaviest file is one of them, none is heavier, and none before it is as
/// heavy.
pub proof fn the_heaviest_file_is_named(s: Seq<ContextFile>) -> (k: int)
    ensures
        s.len() == 0 <==> heaviest(s) is None,
        s.len() > 0 ==> {
            &&& 0 <= k < s.len()
            &&& heaviest(s) == Some((s[k].name@, file_weight(s[k])))
            &&& forall|i: int| 0 <= i < s.len() ==> file_weight(#[trigger] s[i]) <= file_weight(s[k])
            &&& forall|i: int| 0 <= i < k ==> file_weight(#[trigger] s[i]) < file_weight(s[k])
        },
    decreases s.len(),
{
    if s.len() == 0 {
        0
    } else {
        let r = s.drop_last();
        let j = the_heaviest_file_is_named(r);
        let l = s.len() - 1;
        assert forall|i: int| 0 <= i < r.len() implies r[i] == s[i] by {}
        if r.len() == 0 || file_weight(s[l]) > file_weight(r[j]) {
            assert forall|i: int| 0 <= i < l implies file_weight(#[trigger] s[i]) < file_weight(
                s[l],
            ) by {
                assert(file_weight(r[i]) <= file_weight(r[j]));
            }
            l
        } else {
            assert forall|i: int| 0 <= i < s.len() implies file_weight(#[trigger] s[i])
                <= file_weight(s[j]) by {
                if i < r.len() {
                    assert(file_weight(r[i]) <= file_weight(r[j]));
                }
            }
            assert forall|i: int| 0 <= i < j implies file_weight(#[trigger] s[i]) < file_weight(
                s[j],
            ) by {
                assert(file_weight(r[i]) < file_weight(r[j]));
            }
            j
        }
    }
}

/// What a request that is too large is answered.
pub proof fn a_request_too_large_names_the_heaviest(name: Seq<char>, n: nat)
    ensures
        too_large(Some((name, n))) == "the attachments are too large to send — remove "@ + name
            + " and try again"@,
        too_large(None) == "this meeting is too large to send"@,
{
}

/// A block of text, and one of an upload.
pub proof fn what_a_block_holds(t: Seq<char>, kind: Seq<char>, id: Seq<char>)
    ensures
        text_block(t) == Doc::Object(
            seq![("type"@, Doc::Str("text"@)), ("text"@, Doc::Str(t))],
        ),
        upload_block(kind, id) == Doc::Object(
            seq![
                ("type"@, Doc::Str(kind)),
                (
                    "source"@,
                    Doc::Object(seq![("type"@, Doc::Str("file"@)), ("file_id"@, Doc::Str(id))]),
                ),
            ],
        ),
{
}

/// A text stands between its markers, each on a line of its own.
pub proof fn a_text_stands_between_its_markers(
    open: Seq<char>,
    inner: Seq<char>,
    close: Seq<char>,
)
    ensures
        marked(open, inner, close) == open + seq!['\n'] + inner + seq!['\n'] + close,
{
    reveal_strlit("\n");
    assert("\n"@ =~= seq!['\n']);
}

/// A file is given to the model under its number and its name: its text between
/// the markers, or its upload between them.
pub proof fn how_a_file_is_given(f: ContextFile, n: nat, s: String)
    ensures
        file_line(n, f.name@) == "FILE "@ + text::digits(n) + ", named: "@ + label_of(f.name@),
        f.content == FileContent::Text(s) ==> file_blocks(f, n) == seq![
            text_block(
                marked(
                    "--- BEGIN FILE ---"@,
                    file_line(n, f.name@) + "\n\n"@ + defanged(s@),
                    "--- END FILE ---"@,
                ),
            ),
        ],
        f.content == (FileContent::Pdf { file_id: s }) ==> file_blocks(f, n) == seq![
            text_block("--- BEGIN FILE ---"@ + "\n"@ + file_line(n, f.name@)),
            upload_block("document"@, s@),
            text_block("--- END FILE ---"@),
        ],
        f.content == (FileContent::Image { file_id: s }) ==> file_blocks(f, n) == seq![
            text_block("--- BEGIN FILE ---"@ + "\n"@ + file_line(n, f.name@)),
            upload_block("image"@, s@),
            text_block("--- END FILE ---"@),
        ],
{
}

/// The files are given one after the other, numbered from 1.
pub proof fn files_are_given_in_order(a: Seq<ContextFile>, f: ContextFile)
    ensures
        files_blocks(Seq::empty()) == Seq::<Doc>::empty(),
        files_blocks(a.push(f)) == files_blocks(a) + file_blocks(f, a.len() + 1),
{
    assert(a.push(f).drop_last() =~= a);
}

/// The user's notes are given where there are any, without the whitespace round
/// them; the transcript is given whole.
pub proof fn notes_and_transcript_are_given_between_markers(notes: Seq<char>, said: Seq<char>)
    ensures
        text::trimmed(notes).len() == 0 ==> notes_blocks(notes) == Seq::<Doc>::empty(),
        text::trimmed(notes).len() > 0 ==> notes_blocks(notes) == seq![
            text_block(
                marked(
                    "--- BEGIN MY NOTES ---"@,
                    defanged(text::trimmed(notes)),
                    "--- END MY NOTES ---"@,
                ),
            ),
        ],
        transcript_block(said) == text_block(
            marked("--- BEGIN TRANSCRIPT ---"@, defanged(said), "--- END TRANSCRIPT ---"@),
        ),
{
}

/// Of the blocks the last one asks to be kept, and is otherwise what it was; the
/// others are as they were.
pub proof fn only_the_last_block_is_cached(
    a: Seq<Doc>,
    m: Seq<(Seq<char>, Doc)>,
)
    ensures
        cached(Seq::empty()) == Seq::<Doc>::empty(),
        cached(a.push(Doc::Object(m))) == a.push(
            Doc::Object(
                m.push(
                    ("cache_control"@, Doc::Object(seq![("type"@, Doc::Str("ephemeral"@))])),
                ),
            ),
        ),
{
    assert(a.push(Doc::Object(m)).drop_last() =~= a);
}

} // verus!
