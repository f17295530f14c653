//! What is promised of a recording: which sources are offered, how the audio is
//! framed and cut, and what is asked of the transcription.

use vstd::prelude::*;

use crate::audio::filled;
use crate::audio::firsts;
use crate::audio::label_order;
use crate::audio::offered;
use crate::audio::source_in;
use crate::audio::sources_among;
use crate::audio::sources_in;
use crate::error::Failure;
use crate::gain::turned_off;
use crate::json::Doc;
use crate::level;
use crate::level::counted;
use crate::level::peak;
use crate::level::sum_squares;
use crate::level::with_frame;
use crate::level::Window;
use crate::models::AudioSource;
use crate::record::arguments;
use crate::record::behind_chunks;
use crate::record::bytes_of;
use crate::record::chunks_of;
use crate::record::concat;
use crate::record::frames_of;
use crate::record::header;
use crate::record::le2;
use crate::record::le4;
use crate::record::processed;
use crate::record::rest_of;
use crate::record::sample;
use crate::record::samples;
use crate::record::tail_chunk;
use crate::record::whole_samples;
use crate::record::Gain;
use crate::sort::Ranked;
use crate::text;
use crate::transcribe::heard;
use crate::transcribe::key_missing;
use crate::transcribe::language_of;
use crate::transcribe::model_of;
use crate::transcribe::no_key;
use crate::transcribe::said;
use crate::transcribe::tail_of;

verus! {

broadcast use vstd::seq_lib::group_seq_properties;

// -------------------------------------------------------------------- the sources

/// The name of a node that is a source, where it has one.
pub open spec fn names_source(object: Doc, name: Seq<char>) -> bool {
    let props = object.field("info"@).field("props"@);
    &&& props.field("media.class"@) == Doc::Str("Audio/Source"@)
    &&& props.field("node.name"@) == Doc::Str(name)
    &&& name.len() > 0
}

/// A capture node with a name is a source: it is recorded by that name, and
/// shown under its description, else its nick, else its name. Nothing else is
/// one.
pub proof fn a_capture_node_is_a_source(object: Doc, name: Seq<char>, d: Seq<char>, n: Seq<char>)
    ensures
        names_source(object, name) ==> source_in(object) is Some && source_in(object)->0.target
            == name,
        ({
            let props = object.field("info"@).field("props"@);
            let shown = source_in(object)->0.label;
            &&& names_source(object, name) && props.field("node.description"@) == Doc::Str(d)
                && d.len() > 0 ==> shown == d
            &&& names_source(object, name) && filled(props, "node.description"@) is None
                && props.field("node.nick"@) == Doc::Str(n) && n.len() > 0 ==> shown == n
            &&& names_source(object, name) && filled(props, "node.description"@) is None && filled(
                props,
                "node.nick"@,
            ) is None ==> shown == name
            &&& props.field("media.class"@) != Doc::Str("Audio/Source"@) ==> source_in(object)
                is None
            &&& !(props.field("node.name"@) is Str) ==> source_in(object) is None
        }),
{
}

/// What counts as filled in.
pub proof fn an_empty_text_is_not_filled_in(props: Doc, key: Seq<char>, s: Seq<char>)
    ensures
        props.field(key) == Doc::Str(s) && s.len() > 0 ==> filled(props, key) == Some(s),
        props.field(key) == Doc::Str(s) && s.len() == 0 ==> filled(props, key) is None,
        !(props.field(key) is Str) ==> filled(props, key) is None,
{
}

/// The sources of a listing are those among its objects.
pub proof fn every_object_is_looked_at(a: Seq<Doc>, object: Doc, listing: Doc)
    ensures
        sources_among(Seq::empty()) == Seq::<AudioSource<Seq<char>>>::empty(),
        source_in(object) is None ==> sources_among(a.push(object)) == sources_among(a),
        source_in(object) is Some ==> sources_among(a.push(object)) == sources_among(a).push(
            source_in(object)->0,
        ),
        listing == Doc::Array(a) ==> sources_in(listing) == offered(sources_among(a)),
        !(listing is Array) ==> sources_in(listing) == Seq::<AudioSource<Seq<char>>>::empty(),
{
    assert(a.push(object).drop_last() =~= a);
}

/// What is offered of a target is the source of it that has the first label.
pub proof fn a_target_is_offered_under_its_first_label(
    s: Seq<AudioSource<Seq<char>>>,
    x: AudioSource<Seq<char>>,
) -> (k: int)
    requires
        s.contains(x),
    ensures
        0 <= k < offered(s).len(),
        offered(s)[k].target == x.target,
        !text::before(x.label, offered(s)[k].label),
{
    broadcast use vstd::seq_lib::group_to_multiset_ensures;

    let t = s.sort_by(label_order());
    AudioSource::total();
    s.lemma_sort_by_ensures(label_order());
    assert(s.to_multiset().count(x) > 0);
    assert(t.contains(x));
    let p = choose|p: int| 0 <= p < t.len() && t[p] == x;
    let (k, q) = lemma_first_before(t, p);
    assert(q < p ==> label_order()(t[q], t[p]));
    text::lemma_before_irreflexive(x.label);
    if text::before(t[q].label, x.label) && text::before(x.label, t[q].label) {
        text::lemma_before_transitive(x.label, t[q].label, x.label);
    }
    k
}

proof fn lemma_first_before(s: Seq<AudioSource<Seq<char>>>, p: int) -> (r: (int, int))
    requires
        0 <= p < s.len(),
    ensures
        0 <= r.0 < firsts(s).len(),
        0 <= r.1 <= p,
        firsts(s)[r.0] == s[r.1],
        s[r.1].target == s[p].target,
    decreases s.len(),
{
    let d = s.drop_last();
    let f = firsts(d);
    if p < d.len() {
        let (k, q) = lemma_first_before(d, p);
        assert(s[p] == d[p] && s[q] == d[q]);
        assert(firsts(s)[k] == f[k]);
        (k, q)
    } else if crate::audio::lists(f, s.last().target) {
        let k = choose|k: int| 0 <= k < f.len() && (#[trigger] f[k]).target == s.last().target;
        let q = lemma_first_at(d, k);
        assert(s[q] == d[q]);
        (k, q)
    } else {
        (f.len() as int, p)
    }
}

/// What is offered is in the order of its labels, and under one label in the
/// order of its targets; each is one of the sources.
pub proof fn sources_are_offered_by_label(s: Seq<AudioSource<Seq<char>>>)
    ensures
        forall|i: int, j: int|
            0 <= i < j < offered(s).len() ==> !text::before(
                (#[trigger] offered(s)[j]).label,
                (#[trigger] offered(s)[i]).label,
            ),
        forall|i: int, j: int|
            0 <= i < j < offered(s).len() && (#[trigger] offered(s)[i]).label == (
            #[trigger] offered(s)[j]).label ==> !text::before(
                offered(s)[j].target,
                offered(s)[i].target,
            ),
        forall|k: int| 0 <= k < offered(s).len() ==> s.contains(#[trigger] offered(s)[k]),
{
    broadcast use vstd::seq_lib::group_to_multiset_ensures;

    let t = s.sort_by(label_order());
    AudioSource::total();
    s.lemma_sort_by_ensures(label_order());
    lemma_firsts(t);
    let f = offered(s);
    assert forall|k: int| 0 <= k < f.len() implies s.contains(#[trigger] f[k]) by {
        let p = lemma_first_at(t, k);
        assert(t.contains(t[p]));
        assert(t.to_multiset().count(t[p]) > 0);
    }
    assert forall|i: int, j: int| 0 <= i < j < f.len() implies !text::before(
        (#[trigger] f[j]).label,
        (#[trigger] f[i]).label,
    ) by {
        let (p, q) = lemma_firsts_rise(t, i, j);
        assert(label_order()(t[p], t[q]));
        text::lemma_before_irreflexive(t[p].label);
        if text::before(t[p].label, t[q].label) && text::before(t[q].label, t[p].label) {
            text::lemma_before_transitive(t[p].label, t[q].label, t[p].label);
        }
    }
    assert forall|i: int, j: int|
        0 <= i < j < f.len() && (#[trigger] f[i]).label == (
        #[trigger] f[j]).label implies !text::before(f[j].target, f[i].target) by {
        let (p, q) = lemma_firsts_rise(t, i, j);
        assert(label_order()(t[p], t[q]));
        text::lemma_before_irreflexive(t[p].label);
    }
}

proof fn lemma_firsts(s: Seq<AudioSource<Seq<char>>>)
    ensures
        firsts(s).len() <= s.len(),
    decreases s.len(),
{
    if s.len() > 0 {
        lemma_firsts(s.drop_last());
    }
}

proof fn lemma_first_at(s: Seq<AudioSource<Seq<char>>>, k: int) -> (p: int)
    requires
        0 <= k < firsts(s).len(),
    ensures
        0 <= p < s.len(),
        s[p] == firsts(s)[k],
    decreases s.len(),
{
    if s.len() == 0 {
        0
    } else {
        let r = s.drop_last();
        if k < firsts(r).len() {
            let p = lemma_first_at(r, k);
            assert(s[p] == r[p]);
            p
        } else {
            s.len() - 1
        }
    }
}

proof fn lemma_firsts_rise(s: Seq<AudioSource<Seq<char>>>, i: int, j: int) -> (r: (int, int))
    requires
        0 <= i < j < firsts(s).len(),
    ensures
        0 <= r.0 < r.1 < s.len(),
        s[r.0] == firsts(s)[i],
        s[r.1] == firsts(s)[j],
    decreases s.len(),
{
    if s.len() == 0 {
        (0, 0)
    } else {
        let d = s.drop_last();
        if j < firsts(d).len() {
            let (p, q) = lemma_firsts_rise(d, i, j);
            assert(s[p] == d[p] && s[q] == d[q]);
            (p, q)
        } else {
            let p = lemma_first_at(d, i);
            assert(s[p] == d[p]);
            (p, s.len() - 1)
        }
    }
}

// ------------------------------------------------------------------- the recording

/// What the recorder is started with: 16 kHz, mono, 16 bit, raw, from the source
/// that was asked for, to its output.
pub proof fn what_the_recorder_is_started_with(target: Seq<char>)
    ensures
        arguments(None) == seq![
            "--rate"@,
            seq!['1', '6', '0', '0', '0'],
            "--channels"@,
            seq!['1'],
            "--format"@,
            "s16"@,
            "--raw"@,
            "-"@,
        ],
        arguments(Some(target)) == seq![
            "--rate"@,
            seq!['1', '6', '0', '0', '0'],
            "--channels"@,
            seq!['1'],
            "--format"@,
            "s16"@,
            "--raw"@,
            "--target"@,
            target,
            "-"@,
        ],
{
    reveal_with_fuel(text::digits, 6);
    assert(text::digits(16_000) =~= seq!['1', '6', '0', '0', '0']);
    assert(text::digits(1) =~= seq!['1']);
    assert(arguments(None) =~= seq![
        "--rate"@,
        seq!['1', '6', '0', '0', '0'],
        "--channels"@,
        seq!['1'],
        "--format"@,
        "s16"@,
        "--raw"@,
        "-"@,
    ]);
    assert(arguments(Some(target)) =~= seq![
        "--rate"@,
        seq!['1', '6', '0', '0', '0'],
        "--channels"@,
        seq!['1'],
        "--format"@,
        "s16"@,
        "--raw"@,
        "--target"@,
        target,
        "-"@,
    ]);
}

/// Frames are 640 bytes each, one behind the other, and less than one is left
/// over.
pub proof fn frames_are_cut_one_behind_the_other(s: Seq<u8>, i: int)
    ensures
        rest_of(s).len() < 640,
        rest_of(s) == s.skip(640 * frames_of(s).len() as int),
        0 <= i < frames_of(s).len() ==> 640 * i + 640 <= s.len() && frames_of(s)[i] == s.subrange(
            640 * i,
            640 * i + 640,
        ),
{
    let n = s.len() as int / 640;
    assert(0 <= n * 640 <= s.len() < n * 640 + 640);
    if 0 <= i < frames_of(s).len() {
        assert(i * 640 + 640 <= n * 640) by (nonlinear_arith)
            requires
                i < n,
        ;
    }
}

/// A sample is two bytes, the low one first, in two's complement.
pub proof fn a_sample_is_two_bytes(lo: u8, hi: u8, a: Seq<u8>)
    requires
        a.len() % 2 == 0,
    ensures
        hi < 128 ==> sample(lo, hi) == lo + 256 * hi,
        hi >= 128 ==> sample(lo, hi) == lo + 256 * hi - 65_536,
        samples(Seq::empty()) == Seq::<i16>::empty(),
        samples(a + seq![lo, hi]) == samples(a).push(sample(lo, hi)),
        bytes_of(samples(a)) == a,
{
    let b = a + seq![lo, hi];
    assert(samples(Seq::empty()) =~= Seq::<i16>::empty());
    assert(samples(b) =~= samples(a).push(sample(lo, hi))) by {
        assert forall|i: int| 0 <= i < samples(b).len() implies samples(b)[i] == samples(a).push(
            sample(lo, hi),
        )[i] by {
            if i < samples(a).len() {
                assert(b[2 * i] == a[2 * i] && b[2 * i + 1] == a[2 * i + 1]);
            }
        }
    }
    crate::record::samples_written_again_are_the_frame(a);
}

/// Chunks are two minutes each, one behind the other; less than one is left
/// over.
pub proof fn chunks_are_two_minutes(a: Seq<u8>, b: Seq<u8>)
    ensures
        b.len() < 3_840_000 ==> chunks_of(b) == Seq::<Seq<u8>>::empty() && behind_chunks(b) == b,
        a.len() == 3_840_000 ==> chunks_of(a + b) == seq![a] + chunks_of(b) && behind_chunks(a + b)
            == behind_chunks(b),
{
    if a.len() == 3_840_000 {
        assert((a + b).take(3_840_000) =~= a);
        assert((a + b).skip(3_840_000) =~= b);
    }
}

/// What is left at the end is a chunk where it is a second or more; an odd byte
/// at the end is no sample.
pub proof fn a_last_chunk_lasts_a_second(s: Seq<u8>, x: u8, gain: Gain, before: Seq<Seq<u8>>)
    ensures
        s.len() >= 32_000 ==> tail_chunk(s) == seq![s],
        s.len() < 32_000 ==> tail_chunk(s) == Seq::<Seq<u8>>::empty(),
        s.len() % 2 == 0 ==> whole_samples(s) == s && whole_samples(s.push(x)) == s,
        processed(gain, before, s) == bytes_of(gain(before, samples(s))),
        concat(Seq::empty()) == Seq::<u8>::empty(),
        concat(before.push(s)) == concat(before) + s,
{
    if s.len() % 2 == 0 {
        assert(s.take(s.len() as int) =~= s);
        assert(s.push(x).take(s.len() as int) =~= s);
    }
    assert(before.push(s).drop_last() =~= before);
}

/// A number is written with its lowest byte first.
pub proof fn a_number_is_written_low_byte_first(n: int)
    requires
        0 <= n < 0x1_0000_0000,
    ensures
        le4(n).len() == 4,
        le4(n)[0] + 256 * le4(n)[1] + 65_536 * le4(n)[2] + 16_777_216 * le4(n)[3] == n,
        n < 65_536 ==> le2(n).len() == 2 && le2(n)[0] + 256 * le2(n)[1] == n,
{
}

/// The header of a WAVE file: its names, its lengths, and the shape of what it
/// holds.
pub proof fn what_stands_before_the_samples(n: nat)
    ensures
        header(n) == seq![0x52u8, 0x49, 0x46, 0x46] + le4((n + 36) as int) + seq![
            0x57u8,
            0x41,
            0x56,
            0x45,
        ] + seq![0x66u8, 0x6d, 0x74, 0x20] + le4(16) + le2(1) + le2(1) + le4(16_000) + le4(32_000)
            + le2(2) + le2(16) + seq![0x64u8, 0x61, 0x74, 0x61] + le4(n as int),
{
}

// ----------------------------------------------------------------------- the level

/// Loudness is added up sample by sample, and the peak is the largest of them,
/// whatever its sign.
pub proof fn loudness_is_added_up(a: Seq<i16>, x: i16, i: int)
    ensures
        sum_squares(Seq::empty()) == 0,
        sum_squares(a.push(x)) == sum_squares(a) + x * x,
        peak(Seq::empty()) == 0,
        0 <= i < a.len() ==> peak(a) >= a[i] && peak(a) >= -a[i],
        a.len() > 0 ==> exists|k: int|
            0 <= k < a.len() && (peak(a) == #[trigger] a[k] || peak(a) == -a[k]),
{
    assert(a.push(x).drop_last() =~= a);
    assert(x * x >= 0) by (nonlinear_arith);
    lemma_peak(a);
}

proof fn lemma_peak(a: Seq<i16>)
    ensures
        forall|i: int| 0 <= i < a.len() ==> peak(a) >= #[trigger] a[i] && peak(a) >= -a[i],
        a.len() > 0 ==> exists|k: int|
            0 <= k < a.len() && (peak(a) == #[trigger] a[k] || peak(a) == -a[k]),
    decreases a.len(),
{
    if a.len() > 0 {
        let r = a.drop_last();
        lemma_peak(r);
        assert forall|i: int| 0 <= i < a.len() implies peak(a) >= #[trigger] a[i] && peak(a)
            >= -a[i] by {
            if i < r.len() {
                assert(r[i] == a[i]);
            }
        }
        let last = a[a.len() - 1];
        if level::size(last) > peak(r) {
            assert(peak(a) == last || peak(a) == -last);
        } else if r.len() > 0 {
            let k = choose|k: int|
                0 <= k < r.len() && (peak(r) == #[trigger] r[k] || peak(r) == -r[k]);
            assert(a[k] == r[k]);
        } else {
            assert(peak(r) == 0);
            assert(last == 0);
        }
    }
}

/// A window adds its frames up: what was heard, what is uploaded, and the
/// largest sample of that.
pub proof fn a_window_adds_its_frames_up(w: Window, input: Seq<i16>, output: Seq<i16>)
    requires
        w.samples + input.len() <= u128::MAX,
        w.input_sq + sum_squares(input) <= u128::MAX,
        w.output_sq + sum_squares(output) <= u128::MAX,
        peak(output) <= u32::MAX,
        w.frames < usize::MAX,
    ensures
        ({
            let u = with_frame(w, input, output);
            &&& u.samples == w.samples + input.len()
            &&& u.input_sq == w.input_sq + sum_squares(input)
            &&& u.output_sq == w.output_sq + sum_squares(output)
            &&& u.output_peak >= w.output_peak
            &&& u.output_peak >= peak(output)
            &&& u.output_peak == w.output_peak || u.output_peak == peak(output)
            &&& u.frames == w.frames + 1
        }),
        level::FRAMES_PER_WINDOW == 5,
        level::GAIN_BINS == 81,
{
}

/// The bins are counted up from the first.
pub proof fn bins_are_counted_from_the_first(hist: Seq<u64>, n: int)
    requires
        0 <= n < hist.len(),
    ensures
        counted(hist, 0) == 0,
        counted(hist, n + 1) == counted(hist, n) + hist[n],
{
}

/// The words that turn the gain off, in any case and with whitespace round
/// them.
pub proof fn what_turns_the_gain_off(s: Seq<char>)
    ensures
        turned_off(s) <==> text::folded(text::trimmed(s)) == "off"@ || text::folded(
            text::trimmed(s),
        ) == "0"@ || text::folded(text::trimmed(s)) == "false"@ || text::folded(text::trimmed(s))
            == "no"@,
{
}

// -------------------------------------------------------------- the transcription

/// The model is the one asked for, where it is one of the two that are known,
/// and the first of them where none was asked for.
pub proof fn only_a_known_model_transcribes(s: Seq<char>)
    ensures
        model_of(None) == Ok::<Seq<char>, Failure>("gpt-4o-transcribe"@),
        text::trimmed(s).len() == 0 ==> model_of(Some(s)) == Ok::<Seq<char>, Failure>(
            "gpt-4o-transcribe"@,
        ),
        text::trimmed(s) == "gpt-4o-transcribe"@ && text::trimmed(s).len() > 0 ==> model_of(Some(s))
            == Ok::<Seq<char>, Failure>("gpt-4o-transcribe"@),
        text::trimmed(s) == "whisper-1"@ && text::trimmed(s).len() > 0 ==> model_of(Some(s))
            == Ok::<Seq<char>, Failure>("whisper-1"@),
        text::trimmed(s).len() > 0 && text::trimmed(s) != "gpt-4o-transcribe"@ && text::trimmed(s)
            != "whisper-1"@ ==> model_of(Some(s)) == Err::<Seq<char>, Failure>(
            Failure::Other(
                "INTENTIONALITY_TRANSCRIBE_MODEL="@ + text::trimmed(s)
                    + " is not supported — use one of gpt-4o-transcribe, whisper-1"@,
            ),
        ),
{
}

/// The language is the one asked for, in small letters, where it is two letters,
/// and English where none was asked for.
pub proof fn a_language_is_two_letters(s: Seq<char>)
    ensures
        language_of(None) == Ok::<Seq<char>, Failure>("en"@),
        text::trimmed(s).len() == 0 ==> language_of(Some(s)) == Ok::<Seq<char>, Failure>("en"@),
        ({
            let want = text::folded(text::trimmed(s));
            let fits = want.len() == 2 && 'a' as int <= want[0] as int <= 'z' as int && 'a' as int
                <= want[1] as int <= 'z' as int;
            &&& text::trimmed(s).len() > 0 && fits ==> language_of(Some(s)) == Ok::<
                Seq<char>,
                Failure,
            >(want)
            &&& text::trimmed(s).len() > 0 && !fits ==> language_of(Some(s)) == Err::<
                Seq<char>,
                Failure,
            >(
                Failure::Other(
                    "INTENTIONALITY_TRANSCRIBE_LANGUAGE="@ + want
                        + " is not an ISO-639-1 code (two letters, e.g. en, de, fr)"@,
                ),
            )
        }),
{
}

/// A setting says something where it is not blank; a key is there in its file,
/// where that is not blank, or in the environment.
pub proof fn a_blank_setting_says_nothing(s: Seq<char>, env: Option<Seq<char>>)
    ensures
        said(None) is None,
        text::trimmed(s).len() == 0 ==> said(Some(s)) is None,
        text::trimmed(s).len() > 0 ==> said(Some(s)) == Some(text::trimmed(s)),
        text::trimmed(s).len() > 0 ==> !no_key(Some(s), env),
        env is Some ==> !no_key(None, env) && !no_key(Some(s), env),
        no_key(None, None),
        text::trimmed(s).len() == 0 ==> no_key(Some(s), None),
{
}

/// What was heard is the text of the answer, without the whitespace round it.
pub proof fn what_was_heard_is_the_text_of_the_answer(payload: Doc, s: Seq<char>)
    ensures
        payload.field("text"@) == Doc::Str(s) ==> heard(payload) == text::trimmed(s),
        !(payload.field("text"@) is Str) ==> heard(payload).len() == 0,
        crate::transcribe::CARRY_CHARS == 200,
{
}

/// The key is asked for by the place of its file.
pub proof fn a_missing_key_is_told_with_its_place()
    ensures
        key_missing() == Failure::Other("no OpenAI key (~/.config/intentionality/openai_key)"@),
{
}

proof fn lemma_white_before(s: Seq<char>, i: int)
    requires
        0 <= i < s.len() - text::trimmed_start(s).len(),
    ensures
        text::white(s[i]),
    decreases s.len(),
{
    if s.len() > 0 && text::white(s[0]) {
        if i > 0 {
            lemma_white_before(s.drop_first(), i - 1);
            assert(s.drop_first()[i - 1] == s[i]);
        }
    }
}

/// A tail is as long as it may be: what the text ends with, all of it where it
/// is short enough, and else no less than the last characters but for the
/// whitespace they begin with.
pub proof fn a_tail_is_as_long_as_it_may_be(s: Seq<char>, chars: nat, i: int)
    ensures
        text::trimmed(s).len() <= chars ==> tail_of(s, chars) == text::trimmed(s),
        tail_of(s, chars).len() <= text::trimmed(s).len(),
        0 <= text::trimmed(s).len() - chars <= i < text::trimmed(s).len() - tail_of(s, chars).len()
            ==> text::white(text::trimmed(s)[i]),
{
    let t = text::trimmed(s);
    crate::transcribe::a_tail_is_the_end(s, chars);
    if chars <= t.len() {
        let c = t.skip(t.len() - chars);
        if chars == t.len() {
            assert(c =~= t);
            text::lemma_trimmed_ends(s);
        }
        if t.len() - chars <= i < t.len() - tail_of(s, chars).len() {
            lemma_white_before(c, i - (t.len() - chars));
            assert(c[i - (t.len() - chars)] == t[i]);
        }
    }
}

} // verus!
