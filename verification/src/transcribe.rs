//! Speech to text: what is asked of the transcription service, and what is
//! handed from one chunk of audio to the next.

use vstd::prelude::*;

use crate::board::str_view;
use crate::claude::api_message;
use crate::error::other;
use crate::error::AppError;
use crate::error::Failure;
use crate::json::Doc;
use crate::json::Json;
use crate::text;

verus! {

broadcast use vstd::seq_lib::group_seq_properties;

pub const MODEL: &'static str = "gpt-4o-transcribe";

/// The other model that answers in the same shape. Models that tell speakers
/// apart do not, and are refused.
pub const OTHER_MODEL: &'static str = "whisper-1";

pub const API_URL: &'static str = "https://api.openai.com/v1/audio/transcriptions";

/// What language to expect. Guidance for the service, no filter.
pub const DEFAULT_LANGUAGE: &'static str = "en";

/// How much of a chunk is handed to the next one: chunks are cut in the middle
/// of a sentence.
pub const CARRY_CHARS: usize = 200;

// -------------------------------------------------------------------- the setup

/// The key: from its file where that holds one, else from the environment.
pub fn api_key(file: Option<&str>, env: Option<&str>) -> (r: Result<String, AppError>)
    ensures
        match r {
            Ok(key) => (str_view(file) is Some && !text::blank(str_view(file)->0) && key@
                == text::trimmed(str_view(file)->0)) || ((str_view(file) is None || text::blank(
                str_view(file)->0,
            )) && str_view(env) == Some(key@)),
            Err(e) => no_key(str_view(file), str_view(env)) && e@ == key_missing(),
        },
{
    if let Some(k) = file {
        let key = text::trim(k);
        if !key.as_str().is_empty() {
            return Ok(key);
        }
    }
    match env {
        Some(k) => Ok(text::owned(k)),
        None => Err(other("no OpenAI key (~/.config/intentionality/openai_key)")),
    }
}

/// Neither the file nor the environment holds a key.
pub open spec fn no_key(file: Option<Seq<char>>, env: Option<Seq<char>>) -> bool {
    (file is None || text::blank(file->0)) && env is None
}

pub open spec fn key_missing() -> Failure {
    Failure::Other("no OpenAI key (~/.config/intentionality/openai_key)"@)
}

/// Whether there is a key, asked before the microphone opens: a missing one
/// would cost a chunk of the recording.
pub fn check_key(file: Option<&str>, env: Option<&str>) -> (r: Result<(), AppError>)
    ensures
        match r {
            Ok(_) => !no_key(str_view(file), str_view(env)),
            Err(e) => no_key(str_view(file), str_view(env)) && e@ == key_missing(),
        },
{
    match api_key(file, env) {
        Ok(_) => Ok(()),
        Err(e) => Err(e),
    }
}

/// What to ask the transcription service for.
#[derive(Debug, PartialEq)]
pub struct Config {
    pub model: String,
    pub language: String,
}

/// A setting that says something.
pub open spec fn said(raw: Option<Seq<char>>) -> Option<Seq<char>> {
    match raw {
        Some(s) => if text::blank(s) {
            None
        } else {
            Some(text::trimmed(s))
        },
        None => None,
    }
}

fn said_in(raw: Option<&str>) -> (r: Option<String>)
    ensures
        text::opt_view(r) == said(str_view(raw)),
{
    match raw {
        Some(s) => {
            let t = text::trim(s);
            if t.as_str().is_empty() {
                None
            } else {
                Some(t)
            }
        },
        None => None,
    }
}

/// The model that is asked for.
pub open spec fn model_of(raw: Option<Seq<char>>) -> Result<Seq<char>, Failure> {
    match said(raw) {
        Some(want) => if want == MODEL@ || want == OTHER_MODEL@ {
            Ok(want)
        } else {
            Err(
                Failure::Other(
                    "INTENTIONALITY_TRANSCRIBE_MODEL="@ + want
                        + " is not supported — use one of gpt-4o-transcribe, whisper-1"@,
                ),
            )
        },
        None => Ok(MODEL@),
    }
}

pub open spec fn small_letter(c: char) -> bool {
    'a' <= c <= 'z'
}

/// Two letters, in ISO 639-1.
pub open spec fn language_code(s: Seq<char>) -> bool {
    s.len() == 2 && small_letter(s[0]) && small_letter(s[1])
}

/// The language that is expected, in small letters.
pub open spec fn language_of(raw: Option<Seq<char>>) -> Result<Seq<char>, Failure> {
    match said(raw) {
        Some(t) => {
            let want = text::folded(t);
            if language_code(want) {
                Ok(want)
            } else {
                Err(
                    Failure::Other(
                        "INTENTIONALITY_TRANSCRIBE_LANGUAGE="@ + want
                            + " is not an ISO-639-1 code (two letters, e.g. en, de, fr)"@,
                    ),
                )
            }
        },
        None => Ok(DEFAULT_LANGUAGE@),
    }
}

fn is_language_code(s: &str) -> (r: bool)
    ensures
        r == language_code(s@),
{
    let v = text::chars_of(s);
    v.len() == 2 && 'a' <= v[0] && v[0] <= 'z' && 'a' <= v[1] && v[1] <= 'z'
}

/// Reads the two settings. Asked before the microphone opens: a typo should
/// cost an error, not a meeting refused chunk by chunk.
pub fn config(model: Option<&str>, language: Option<&str>) -> (r: Result<Config, AppError>)
    ensures
        match (model_of(str_view(model)), language_of(str_view(language)), r) {
            (Err(f), _, r) => r is Err && r->Err_0@ == f,
            (Ok(_), Err(f), r) => r is Err && r->Err_0@ == f,
            (Ok(m), Ok(l), r) => r is Ok && r->Ok_0.model@ == m && r->Ok_0.language@ == l,
        },
{
    let model = match said_in(model) {
        Some(want) => {
            if !text::same(want.as_str(), MODEL) && !text::same(want.as_str(), OTHER_MODEL) {
                return Err(
                    other(
                        text::cat3(
                            "INTENTIONALITY_TRANSCRIBE_MODEL=",
                            want.as_str(),
                            " is not supported — use one of gpt-4o-transcribe, whisper-1",
                        ).as_str(),
                    ),
                );
            }
            want
        },
        None => text::owned(MODEL),
    };
    let language = match said_in(language) {
        Some(raw) => {
            let want = text::fold(raw.as_str());
            if !is_language_code(want.as_str()) {
                return Err(
                    other(
                        text::cat3(
                            "INTENTIONALITY_TRANSCRIBE_LANGUAGE=",
                            want.as_str(),
                            " is not an ISO-639-1 code (two letters, e.g. en, de, fr)",
                        ).as_str(),
                    ),
                );
            }
            want
        },
        None => text::owned(DEFAULT_LANGUAGE),
    };
    Ok(Config { model, language })
}

// -------------------------------------------------------------------- the carry

/// The last characters of a text, without whitespace at the ends.
pub open spec fn tail_of(s: Seq<char>, chars: nat) -> Seq<char> {
    let t = text::trimmed(s);
    if chars <= t.len() {
        text::trimmed_start(t.skip(t.len() - chars))
    } else {
        t
    }
}

/// The last characters of a text. They are characters and no bytes, so that
/// none is cut in two.
pub fn tail(s: &str, chars: usize) -> (r: String)
    ensures
        r@ == tail_of(s@, chars as nat),
{
    let trimmed = text::trim(s);
    let v = text::chars_of(trimmed.as_str());
    if chars <= v.len() {
        let cut = text::string_of(&v, v.len() - chars, v.len());
        proof {
            assert(cut@ =~= trimmed@.skip(trimmed@.len() - chars));
        }
        text::trim_start(cut.as_str())
    } else {
        trimmed
    }
}

/// What is handed to the next chunk.
pub fn carry(transcript: &str) -> (r: String)
    ensures
        r@ == tail_of(transcript@, CARRY_CHARS as nat),
{
    tail(transcript, CARRY_CHARS)
}

/// The tail of a text is at most as long as asked for, has no whitespace at
/// its ends, and is what the text ends with.
pub proof fn a_tail_is_the_end(s: Seq<char>, chars: nat)
    ensures
        tail_of(s, chars).len() <= chars,
        tail_of(s, chars).len() <= text::trimmed(s).len(),
        tail_of(s, chars) == text::trimmed(s).skip(
            text::trimmed(s).len() - tail_of(s, chars).len(),
        ),
        tail_of(s, chars).len() > 0 ==> !text::white(tail_of(s, chars)[0]) && !text::white(
            tail_of(s, chars).last(),
        ),
        text::trimmed(s).len() > 0 && chars > 0 ==> tail_of(s, chars).len() > 0,
{
    let t = text::trimmed(s);
    text::lemma_trimmed_ends(s);
    let n = chars as int;
    if t.len() >= n {
        let c = t.skip(t.len() - n);
        text::lemma_trimmed_start(c);
        let r = text::trimmed_start(c);
        assert(c.skip(c.len() - r.len()) =~= t.skip(t.len() - r.len()));
        if n > 0 {
            assert(c.last() == t.last());
        }
        if r.len() == 0 {
            lemma_all_white(c);
        }
    } else {
        assert(t.skip(0) =~= t);
    }
}

/// A tail in terms of the text without the whitespace behind it.
proof fn lemma_tail_of_end(s: Seq<char>, chars: nat)
    requires
        chars <= text::trimmed_end(s).len(),
    ensures
        tail_of(s, chars) == text::trimmed_start(
            text::trimmed_end(s).skip(text::trimmed_end(s).len() - chars),
        ),
{
    let e = text::trimmed_end(s);
    let t = text::trimmed(s);
    text::lemma_trim_either_way(s);
    text::lemma_trimmed_start(e);
    if chars <= t.len() {
        assert(t.skip(t.len() - chars) =~= e.skip(e.len() - chars));
    } else {
        text::lemma_trim_after_cut(e, e.len() - chars);
    }
}

/// Shortening in two steps is shortening in one.
pub proof fn a_tail_of_a_tail_is_the_shorter_tail(s: Seq<char>, longer: nat, shorter: nat)
    requires
        shorter <= longer,
    ensures
        tail_of(tail_of(s, longer), shorter) == tail_of(s, shorter),
{
    let t = text::trimmed(s);
    let r = tail_of(s, longer);
    a_tail_is_the_end(s, longer);
    text::lemma_trimmed_already(r);
    if longer <= t.len() {
        let c = t.skip(t.len() - longer);
        text::lemma_trimmed_start(c);
        assert(c.skip(longer - shorter) =~= t.skip(t.len() - shorter));
        if shorter <= r.len() {
            assert(r.skip(r.len() - shorter) =~= t.skip(t.len() - shorter));
        } else {
            text::lemma_trim_after_cut(c, longer - shorter);
        }
    }
}

/// What was said before the last characters that are carried plays no part.
pub proof fn only_the_end_is_carried(before: Seq<char>, s: Seq<char>, chars: nat)
    requires
        chars <= text::trimmed_end(s).len(),
    ensures
        tail_of(before + s, chars) == tail_of(s, chars),
{
    let e = text::trimmed_end(s);
    text::lemma_trim_end_behind(before, s);
    if e.len() == 0 {
        a_tail_is_the_end(s, chars);
        a_tail_is_the_end(before + s, chars);
        assert(tail_of(before + s, chars) =~= tail_of(s, chars));
    } else {
        lemma_tail_of_end(s, chars);
        lemma_tail_of_end(before + s, chars);
        let b = text::trimmed_end(before + s);
        assert(b.skip(b.len() - chars) =~= e.skip(e.len() - chars));
    }
}

proof fn lemma_all_white(s: Seq<char>)
    requires
        text::trimmed_start(s).len() == 0,
    ensures
        s.len() > 0 ==> text::white(s.last()),
    decreases s.len(),
{
    if s.len() > 0 {
        assert(text::white(s[0]));
        let d = s.drop_first();
        lemma_all_white(d);
        if d.len() > 0 {
            assert(d.last() == s.last());
        }
    }
}

// ------------------------------------------------------------------- the answer

/// The error of a request that reached nobody.
pub fn unreachable(cause: &str) -> (e: AppError)
    ensures
        e@ == Failure::Other("transcription API unreachable: "@ + cause@),
{
    other(text::cat2("transcription API unreachable: ", cause).as_str())
}

/// The error of an answer that is no document.
pub fn unreadable(cause: &str) -> (e: AppError)
    ensures
        e@ == Failure::Other("bad transcription response: "@ + cause@),
{
    other(text::cat2("bad transcription response: ", cause).as_str())
}

/// What was said, in an answer; nothing where it does not say.
pub open spec fn heard(payload: Doc) -> Seq<char> {
    match payload.field("text"@).string() {
        Some(s) => text::trimmed(s),
        None => seq![],
    }
}

/// What was said, or the service's own error for a status that is no success.
pub fn read_answer(success: bool, status: &str, payload: &Json) -> (r: Result<String, AppError>)
    ensures
        match r {
            Ok(s) => success && s@ == heard(payload.deep_view()),
            Err(e) => !success && e@ == Failure::Other(
                "transcription API "@ + status@ + ": "@ + api_message(payload.deep_view()),
            ),
        },
{
    if !success {
        let msg = match payload.get("error") {
            Some(j) => match j.str_at("message") {
                Some(m) => m,
                None => "unknown error",
            },
            None => "unknown error",
        };
        let mut line = text::cat3("transcription API ", status, ": ");
        line.append(msg);
        return Err(AppError::Other(line));
    }
    match payload.str_at("text") {
        Some(s) => Ok(text::trim(s)),
        None => Ok(String::new()),
    }
}

} // verus!
