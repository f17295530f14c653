//! The stream of a microphone, cut into frames and into chunks.
//!
//! One long-lived process writes raw little-endian samples, and a read of it
//! can end anywhere, in the middle of a sample too. What does not make a whole
//! frame yet waits for the next read.

use vstd::prelude::*;

use crate::board::str_view;
use crate::gain::FRAME_BYTES;
use crate::level::Summary;
use crate::text;

verus! {

broadcast use vstd::seq_lib::group_seq_properties;

pub const SAMPLE_RATE: u32 = 16_000;

pub const CHANNELS: u32 = 1;

pub const BYTES_PER_SAMPLE: u32 = 2;

pub const BYTES_PER_SECOND: u32 = 32_000;

/// Two minutes to a chunk: long enough that a request costs little, short
/// enough that text appears while the meeting is running.
pub const CHUNK_SECONDS: u32 = 120;

pub const CHUNK_BYTES: usize = 3_840_000;

/// One cut of audio and what it sounded like.
pub struct Chunk {
    pub pcm: Vec<u8>,
    pub levels: Summary,
}

/// What the recording process is started with. The source is an argument of
/// its own.
pub open spec fn arguments(target: Option<Seq<char>>) -> Seq<Seq<char>> {
    let fixed = seq![
        "--rate"@,
        text::digits(16_000),
        "--channels"@,
        text::digits(1),
        "--format"@,
        "s16"@,
        "--raw"@,
    ];
    (match target {
        Some(t) => fixed + seq!["--target"@, t],
        None => fixed,
    }).push("-"@)
}

pub fn record_args(target: Option<&str>) -> (r: Vec<String>)
    ensures
        text::views(r@) == arguments(str_view(target)),
{
    let mut v: Vec<String> = Vec::new();
    v.push(text::owned("--rate"));
    v.push(text::of_u64(SAMPLE_RATE as u64));
    v.push(text::owned("--channels"));
    v.push(text::of_u64(CHANNELS as u64));
    v.push(text::owned("--format"));
    v.push(text::owned("s16"));
    v.push(text::owned("--raw"));
    if let Some(t) = target {
        v.push(text::owned("--target"));
        v.push(text::owned(t));
    }
    v.push(text::owned("-"));
    proof {
        assert(text::views(v@) =~= arguments(str_view(target)));
    }
    v
}

// ----------------------------------------------------------------------- frames

/// How many whole frames a stream holds.
pub open spec fn whole(s: Seq<u8>) -> int {
    s.len() as int / FRAME_BYTES as int
}

/// The whole frames of a stream, one after the other.
pub open spec fn frames_of(s: Seq<u8>) -> Seq<Seq<u8>> {
    Seq::new(
        whole(s) as nat,
        |i: int| s.subrange(i * FRAME_BYTES, i * FRAME_BYTES + FRAME_BYTES),
    )
}

/// What is left of a stream behind its whole frames.
pub open spec fn rest_of(s: Seq<u8>) -> Seq<u8> {
    s.skip(whole(s) * FRAME_BYTES)
}

pub open spec fn byte_views(v: Seq<Vec<u8>>) -> Seq<Seq<u8>> {
    Seq::new(v.len(), |i: int| v[i]@)
}

/// The bytes of a list of pieces.
pub open spec fn concat(s: Seq<Seq<u8>>) -> Seq<u8>
    decreases s.len(),
{
    if s.len() == 0 {
        seq![]
    } else {
        concat(s.drop_last()) + s.last()
    }
}

proof fn lemma_frames_step(s: Seq<u8>)
    requires
        s.len() >= FRAME_BYTES,
    ensures
        frames_of(s) == seq![s.take(FRAME_BYTES as int)] + frames_of(s.skip(FRAME_BYTES as int)),
        rest_of(s) == rest_of(s.skip(FRAME_BYTES as int)),
        whole(s) == whole(s.skip(FRAME_BYTES as int)) + 1,
{
    let n = FRAME_BYTES as int;
    let t = s.skip(n);
    assert(whole(s) == whole(t) + 1);
    let a = frames_of(s);
    let b = seq![s.take(n)] + frames_of(t);
    assert forall|i: int| 0 <= i < a.len() implies a[i] =~= b[i] by {
        if i > 0 {
            assert(frames_of(t)[i - 1] =~= s.subrange(i * n, i * n + n));
        }
    }
    assert(a =~= b);
    assert(rest_of(s) =~= rest_of(t));
}

proof fn lemma_no_frames(s: Seq<u8>)
    requires
        s.len() < FRAME_BYTES,
    ensures
        frames_of(s) == Seq::<Seq<u8>>::empty(),
        rest_of(s) == s,
{
    assert(whole(s) == 0);
    assert(rest_of(s) =~= s);
    assert(frames_of(s) =~= Seq::<Seq<u8>>::empty());
}

/// Cutting a stream in two anywhere changes no frame: what is left of the
/// first part goes before the second.
pub proof fn framing_ignores_a_boundary(a: Seq<u8>, b: Seq<u8>)
    ensures
        frames_of(a + b) == frames_of(a) + frames_of(rest_of(a) + b),
        rest_of(a + b) == rest_of(rest_of(a) + b),
    decreases a.len(),
{
    let n = FRAME_BYTES as int;
    if a.len() < FRAME_BYTES {
        lemma_no_frames(a);
        assert(frames_of(a) + frames_of(a + b) =~= frames_of(a + b));
    } else {
        lemma_frames_step(a);
        lemma_frames_step(a + b);
        assert((a + b).skip(n) =~= a.skip(n) + b);
        assert((a + b).take(n) =~= a.take(n));
        framing_ignores_a_boundary(a.skip(n), b);
        let first = seq![a.take(n)];
        assert(first + (frames_of(a.skip(n)) + frames_of(rest_of(a) + b)) =~= first + frames_of(
            a.skip(n),
        ) + frames_of(rest_of(a) + b));
    }
}

/// What reads give, one after the other, and what is held at their end.
pub open spec fn fed(held: Seq<u8>, reads: Seq<Seq<u8>>) -> (Seq<Seq<u8>>, Seq<u8>)
    decreases reads.len(),
{
    if reads.len() == 0 {
        (seq![], held)
    } else {
        let (frames, rest) = fed(held, reads.drop_last());
        (frames + frames_of(rest + reads.last()), rest_of(rest + reads.last()))
    }
}

/// However a stream is cut into reads, the frames are those of the stream.
pub proof fn framing_ignores_read_boundaries(reads: Seq<Seq<u8>>)
    ensures
        fed(seq![], reads).0 == frames_of(concat(reads)),
        fed(seq![], reads).1 == rest_of(concat(reads)),
    decreases reads.len(),
{
    let none: Seq<u8> = seq![];
    if reads.len() == 0 {
        lemma_no_frames(none);
        assert(fed(none, reads).0 =~= frames_of(none));
    } else {
        let before = reads.drop_last();
        framing_ignores_read_boundaries(before);
        framing_ignores_a_boundary(concat(before), reads.last());
    }
}

/// The frames of a stream and what is left of it are the stream.
pub proof fn framing_keeps_every_byte(s: Seq<u8>)
    ensures
        concat(frames_of(s)) + rest_of(s) == s,
    decreases s.len(),
{
    let n = FRAME_BYTES as int;
    if s.len() < FRAME_BYTES {
        lemma_no_frames(s);
        assert(concat(frames_of(s)) + s =~= s);
    } else {
        lemma_frames_step(s);
        let t = s.skip(n);
        framing_keeps_every_byte(t);
        lemma_concat_front(s.take(n), frames_of(t));
        assert(s.take(n) + concat(frames_of(t)) + rest_of(t) =~= s.take(n) + (concat(frames_of(t))
            + rest_of(t)));
        assert(s.take(n) + t =~= s);
    }
}

proof fn lemma_concat_front(x: Seq<u8>, s: Seq<Seq<u8>>)
    ensures
        concat(seq![x] + s) == x + concat(s),
    decreases s.len(),
{
    let t = seq![x] + s;
    if s.len() == 0 {
        assert(t.drop_last() =~= seq![]);
        assert(concat(t.drop_last()) + x =~= x + concat(s));
    } else {
        assert(t.drop_last() =~= seq![x] + s.drop_last());
        assert(t.last() == s.last());
        lemma_concat_front(x, s.drop_last());
        assert(x + concat(s.drop_last()) + s.last() =~= x + (concat(s.drop_last()) + s.last()));
    }
}

/// Cuts a stream into frames.
pub struct Framer {
    pub held: Vec<u8>,
}

impl Framer {
    /// Less than a frame is held.
    pub open spec fn wf(self) -> bool {
        self.held@.len() < FRAME_BYTES
    }

    pub fn new() -> (f: Self)
        ensures
            f.wf(),
            f.held@.len() == 0,
    {
        Framer { held: Vec::new() }
    }

    /// Takes what was read and gives the frames that are whole now.
    pub fn feed(&mut self, bytes: &[u8]) -> (r: Vec<Vec<u8>>)
        requires
            old(self).wf(),
        ensures
            final(self).wf(),
            byte_views(r@) == frames_of(old(self).held@ + bytes@),
            final(self).held@ == rest_of(old(self).held@ + bytes@),
    {
        let ghost start = self.held@;
        let mut frames: Vec<Vec<u8>> = Vec::new();
        let mut frame: Vec<u8> = Vec::new();
        std::mem::swap(&mut frame, &mut self.held);
        let mut i: usize = 0;
        proof {
            lemma_no_frames(start);
            assert(bytes@.take(0) =~= seq![]);
            assert(start + bytes@.take(0) =~= start);
            assert(byte_views(frames@) =~= frames_of(start));
        }
        while i < bytes.len()
            invariant
                i <= bytes.len(),
                frame.len() < FRAME_BYTES,
                byte_views(frames@) == frames_of(start + bytes@.take(i as int)),
                frame@ == rest_of(start + bytes@.take(i as int)),
            decreases bytes.len() - i,
        {
            let ghost done = start + bytes@.take(i as int);
            let ghost one = seq![bytes@[i as int]];
            let ghost had = frame@;
            frame.push(bytes[i]);
            proof {
                assert(start + bytes@.take(i + 1) =~= done + one);
                framing_ignores_a_boundary(done, one);
                assert(frame@ =~= had + one);
            }
            if frame.len() == FRAME_BYTES {
                let mut full: Vec<u8> = Vec::new();
                std::mem::swap(&mut full, &mut frame);
                let ghost x = full@;
                let ghost before = byte_views(frames@);
                frames.push(full);
                proof {
                    lemma_frames_step(x);
                    lemma_no_frames(x.skip(FRAME_BYTES as int));
                    assert(x.take(FRAME_BYTES as int) =~= x);
                    assert(frames_of(x) =~= seq![x]);
                    assert(byte_views(frames@) =~= before + seq![x]);
                    assert(frame@ =~= x.skip(FRAME_BYTES as int));
                }
            } else {
                proof {
                    lemma_no_frames(frame@);
                    assert(byte_views(frames@) + frames_of(frame@) =~= byte_views(frames@));
                }
            }
            i = i + 1;
        }
        proof {
            assert(bytes@.take(bytes@.len() as int) =~= bytes@);
        }
        self.held = frame;
        frames
    }

    /// The last frame, when the stream has ended: whole samples only, and none
    /// where there is not one. An odd byte is half a sample and is dropped.
    pub fn finish(self) -> (r: Option<Vec<u8>>)
        ensures
            ({
                let n = self.held@.len() - self.held@.len() % 2;
                match r {
                    Some(v) => n > 0 && v@ == self.held@.take(n as int),
                    None => n == 0,
                }
            }),
    {
        let mut frame = self.held;
        let whole = frame.len() - frame.len() % 2;
        frame.truncate(whole);
        if whole == 0 {
            None
        } else {
            Some(frame)
        }
    }
}

// ---------------------------------------------------------------------- samples

/// A sample from its two bytes, the low one first.
pub open spec fn sample(lo: u8, hi: u8) -> i16 {
    let n = lo + 256 * hi;
    if n >= 0x8000 {
        (n - 0x1_0000) as i16
    } else {
        n as i16
    }
}

/// A sample as a number without a sign.
pub open spec fn unsigned(x: i16) -> int {
    if x < 0 {
        x + 0x1_0000
    } else {
        x as int
    }
}

/// The samples of a frame.
pub open spec fn samples(s: Seq<u8>) -> Seq<i16> {
    Seq::new(s.len() / 2, |i: int| sample(s[2 * i], s[2 * i + 1]))
}

/// The bytes of samples.
pub open spec fn bytes_of(s: Seq<i16>) -> Seq<u8> {
    Seq::new(
        2 * s.len(),
        |i: int|
            if i % 2 == 0 {
                (unsigned(s[i / 2]) % 256) as u8
            } else {
                (unsigned(s[i / 2]) / 256) as u8
            },
    )
}

/// Reading the samples of a frame and writing them again gives the frame back.
pub proof fn samples_written_again_are_the_frame(s: Seq<u8>)
    requires
        s.len() % 2 == 0,
    ensures
        bytes_of(samples(s)) == s,
{
    let b = bytes_of(samples(s));
    assert forall|i: int| 0 <= i < s.len() implies b[i] == s[i] by {
        let k = i / 2;
        let x = sample(s[2 * k], s[2 * k + 1]);
        assert(samples(s)[k] == x);
        assert(unsigned(x) == s[2 * k] + 256 * s[2 * k + 1]);
    }
    assert(b =~= s);
}

/// The samples of a frame; a last odd byte is no sample.
pub fn decode(frame: &[u8]) -> (r: Vec<i16>)
    ensures
        r@ == samples(frame@),
{
    let mut r: Vec<i16> = Vec::new();
    let len: usize = frame.len();
    let n = len / 2;
    let mut i: usize = 0;
    while i < n
        invariant
            i <= n == len / 2,
            len == frame@.len(),
            r.len() == i,
            forall|j: int| 0 <= j < i ==> #[trigger] r@[j] == samples(frame@)[j],
        decreases n - i,
    {
        let v = frame[2 * i] as i32 + 256 * frame[2 * i + 1] as i32;
        if v >= 0x8000 {
            r.push((v - 0x1_0000) as i16);
        } else {
            r.push(v as i16);
        }
        i = i + 1;
    }
    proof {
        assert(r@ =~= samples(frame@));
    }
    r
}

/// The bytes of samples.
pub fn encode(v: &[i16]) -> (r: Vec<u8>)
    ensures
        r@ == bytes_of(v@),
{
    let mut r: Vec<u8> = Vec::new();
    let mut i: usize = 0;
    while i < v.len()
        invariant
            i <= v.len(),
            r.len() == 2 * i,
            forall|j: int| 0 <= j < 2 * i ==> #[trigger] r@[j] == bytes_of(v@)[j],
        decreases v.len() - i,
    {
        let x = v[i] as i32;
        let u = if x < 0 {
            x + 0x1_0000
        } else {
            x
        };
        r.push((u % 256) as u8);
        r.push((u / 256) as u8);
        i = i + 1;
    }
    proof {
        assert(r@ =~= bytes_of(v@));
    }
    r
}

// ----------------------------------------------------------------------- chunks

/// The whole chunks of what was gathered, one after the other.
pub open spec fn chunks_of(s: Seq<u8>) -> Seq<Seq<u8>>
    decreases s.len(),
{
    if s.len() < CHUNK_BYTES {
        seq![]
    } else {
        seq![s.take(CHUNK_BYTES as int)] + chunks_of(s.skip(CHUNK_BYTES as int))
    }
}

/// What is left behind the whole chunks.
pub open spec fn behind_chunks(s: Seq<u8>) -> Seq<u8>
    decreases s.len(),
{
    if s.len() < CHUNK_BYTES {
        s
    } else {
        behind_chunks(s.skip(CHUNK_BYTES as int))
    }
}

/// When the chunks are cut does not matter: cutting after each addition gives
/// those that cutting once at the end would.
pub proof fn cutting_ignores_when_it_is_done(a: Seq<u8>, b: Seq<u8>)
    ensures
        chunks_of(a + b) == chunks_of(a) + chunks_of(behind_chunks(a) + b),
        behind_chunks(a + b) == behind_chunks(behind_chunks(a) + b),
    decreases a.len(),
{
    let n = CHUNK_BYTES as int;
    if a.len() < CHUNK_BYTES {
        assert(chunks_of(a) + chunks_of(a + b) =~= chunks_of(a + b));
    } else {
        assert((a + b).skip(n) =~= a.skip(n) + b);
        assert((a + b).take(n) =~= a.take(n));
        cutting_ignores_when_it_is_done(a.skip(n), b);
        let first = seq![a.take(n)];
        assert(first + (chunks_of(a.skip(n)) + chunks_of(behind_chunks(a) + b)) =~= first
            + chunks_of(a.skip(n)) + chunks_of(behind_chunks(a) + b));
    }
}

/// The chunks and what is left behind them are what was gathered.
pub proof fn cutting_keeps_every_byte(s: Seq<u8>)
    ensures
        concat(chunks_of(s)) + behind_chunks(s) == s,
        behind_chunks(s).len() < CHUNK_BYTES,
    decreases s.len(),
{
    let n = CHUNK_BYTES as int;
    if s.len() < CHUNK_BYTES {
        assert(concat(chunks_of(s)) + s =~= s);
    } else {
        let t = s.skip(n);
        cutting_keeps_every_byte(t);
        lemma_concat_front(s.take(n), chunks_of(t));
        assert(s.take(n) + concat(chunks_of(t)) + behind_chunks(t) =~= s.take(n) + (concat(
            chunks_of(t),
        ) + behind_chunks(t)));
        assert(s.take(n) + t =~= s);
    }
}

/// Gathers processed frames into chunks.
pub struct Chunker {
    pub pending: Vec<u8>,
}

impl Chunker {
    pub fn new() -> (c: Self)
        ensures
            c.pending@.len() == 0,
    {
        Chunker { pending: Vec::new() }
    }

    pub fn add(&mut self, bytes: &[u8])
        ensures
            final(self).pending@ == old(self).pending@ + bytes@,
    {
        self.pending.extend_from_slice(bytes);
        proof {
            assert(self.pending@ =~= old(self).pending@ + bytes@);
        }
    }

    /// The next whole chunk, where there is one.
    pub fn cut(&mut self) -> (r: Option<Vec<u8>>)
        ensures
            match r {
                Some(full) => {
                    let before = old(self).pending@;
                    &&& before.len() >= CHUNK_BYTES
                    &&& full@ == before.take(CHUNK_BYTES as int)
                    &&& final(self).pending@ == before.skip(CHUNK_BYTES as int)
                    &&& chunks_of(before) == seq![full@] + chunks_of(final(self).pending@)
                    &&& behind_chunks(before) == behind_chunks(final(self).pending@)
                },
                None => {
                    &&& old(self).pending@.len() < CHUNK_BYTES
                    &&& *final(self) == *old(self)
                    &&& behind_chunks(old(self).pending@) == old(self).pending@
                },
            },
    {
        if self.pending.len() < CHUNK_BYTES {
            return None;
        }
        let ghost all = self.pending@;
        let mut carry = self.pending.split_off(CHUNK_BYTES);
        std::mem::swap(&mut carry, &mut self.pending);
        proof {
            assert(carry@ =~= all.take(CHUNK_BYTES as int));
            assert(self.pending@ =~= all.skip(CHUNK_BYTES as int));
        }
        Some(carry)
    }

    /// The last chunk, when the stream has ended. Under a second it is noise
    /// and no speech, and is dropped.
    pub fn finish(self) -> (r: Option<Vec<u8>>)
        ensures
            match r {
                Some(tail) => self.pending@.len() >= BYTES_PER_SECOND && tail@ == self.pending@,
                None => self.pending@.len() < BYTES_PER_SECOND,
            },
    {
        if self.pending.len() >= BYTES_PER_SECOND as usize {
            Some(self.pending)
        } else {
            None
        }
    }
}

// -------------------------------------------------------- from read to sent

/// What is made of the samples of a frame, after the frames that came before.
/// Its own state, if it has one, is what it makes of those.
pub type Gain = spec_fn(Seq<Seq<u8>>, Seq<i16>) -> Seq<i16>;

/// The bytes of a frame behind a gain.
pub open spec fn processed(gain: Gain, before: Seq<Seq<u8>>, frame: Seq<u8>) -> Seq<u8> {
    bytes_of(gain(before, samples(frame)))
}

/// The bytes of further frames behind a gain.
pub open spec fn processed_all(gain: Gain, before: Seq<Seq<u8>>, frames: Seq<Seq<u8>>) -> Seq<u8>
    decreases frames.len(),
{
    if frames.len() == 0 {
        seq![]
    } else {
        let rest = frames.drop_last();
        processed_all(gain, before, rest) + processed(gain, before + rest, frames.last())
    }
}

/// How far a recording has come: the frames that were whole, what is held of
/// the next, what is gathered for the next chunk, and the chunks that were
/// sent.
pub struct Heard {
    pub frames: Seq<Seq<u8>>,
    pub held: Seq<u8>,
    pub pending: Seq<u8>,
    pub sent: Seq<Seq<u8>>,
}

/// A recording after its reads: each is framed, each frame processed and
/// gathered, and whole chunks are sent before the next read.
pub open spec fn heard(gain: Gain, reads: Seq<Seq<u8>>) -> Heard
    decreases reads.len(),
{
    if reads.len() == 0 {
        Heard { frames: seq![], held: seq![], pending: seq![], sent: seq![] }
    } else {
        let h = heard(gain, reads.drop_last());
        let frames = frames_of(h.held + reads.last());
        let gathered = h.pending + processed_all(gain, h.frames, frames);
        Heard {
            frames: h.frames + frames,
            held: rest_of(h.held + reads.last()),
            pending: behind_chunks(gathered),
            sent: h.sent + chunks_of(gathered),
        }
    }
}

/// Without an odd byte at the end.
pub open spec fn whole_samples(s: Seq<u8>) -> Seq<u8> {
    s.take(s.len() - s.len() % 2)
}

/// What is gathered when the stream has ended: the last frame goes behind the
/// rest, where there is a sample of it.
pub open spec fn with_last(gain: Gain, frames: Seq<Seq<u8>>, held: Seq<u8>, pending: Seq<u8>) -> Seq<
    u8,
> {
    if whole_samples(held).len() == 0 {
        pending
    } else {
        pending + processed(gain, frames, whole_samples(held))
    }
}

/// The last chunk: none where it is under a second.
pub open spec fn tail_chunk(s: Seq<u8>) -> Seq<Seq<u8>> {
    if s.len() >= BYTES_PER_SECOND {
        seq![s]
    } else {
        seq![]
    }
}

/// All the chunks of a recording.
pub open spec fn recorded(gain: Gain, reads: Seq<Seq<u8>>) -> Seq<Seq<u8>> {
    let h = heard(gain, reads);
    h.sent + tail_chunk(with_last(gain, h.frames, h.held, h.pending))
}

/// The chunks of a stream that is there as a whole.
pub open spec fn chunks_behind(gain: Gain, stream: Seq<u8>) -> Seq<Seq<u8>> {
    let frames = frames_of(stream);
    let body = processed_all(gain, seq![], frames);
    chunks_of(body) + tail_chunk(
        with_last(gain, frames, rest_of(stream), behind_chunks(body)),
    )
}

proof fn lemma_processed_concat(
    gain: Gain,
    before: Seq<Seq<u8>>,
    a: Seq<Seq<u8>>,
    b: Seq<Seq<u8>>,
)
    ensures
        processed_all(gain, before, a + b) == processed_all(gain, before, a) + processed_all(
            gain,
            before + a,
            b,
        ),
    decreases b.len(),
{
    if b.len() == 0 {
        assert(a + b =~= a);
        assert(processed_all(gain, before, a) + seq![] =~= processed_all(gain, before, a));
    } else {
        let rest = b.drop_last();
        assert((a + b).drop_last() =~= a + rest);
        assert(before + (a + rest) =~= before + a + rest);
        lemma_processed_concat(gain, before, a, rest);
        let (x, y, z) = (
            processed_all(gain, before, a),
            processed_all(gain, before + a, rest),
            processed(gain, before + a + rest, b.last()),
        );
        assert(x + y + z =~= x + (y + z));
    }
}

proof fn lemma_heard(gain: Gain, reads: Seq<Seq<u8>>)
    ensures
        heard(gain, reads).frames == frames_of(concat(reads)),
        heard(gain, reads).held == rest_of(concat(reads)),
        heard(gain, reads).sent == chunks_of(
            processed_all(gain, seq![], frames_of(concat(reads))),
        ),
        heard(gain, reads).pending == behind_chunks(
            processed_all(gain, seq![], frames_of(concat(reads))),
        ),
    decreases reads.len(),
{
    let none: Seq<Seq<u8>> = seq![];
    if reads.len() == 0 {
        lemma_no_frames(concat(reads));
        assert(heard(gain, reads).frames =~= frames_of(concat(reads)));
    } else {
        let before = reads.drop_last();
        lemma_heard(gain, before);
        let (a, b) = (concat(before), reads.last());
        framing_ignores_a_boundary(a, b);
        let (f, g) = (frames_of(a), frames_of(rest_of(a) + b));
        lemma_processed_concat(gain, none, f, g);
        assert(none + f =~= f);
        cutting_ignores_when_it_is_done(
            processed_all(gain, none, f),
            processed_all(gain, f, g),
        );
    }
}

/// From the bytes read to the bytes sent: however the stream of the microphone
/// is cut into reads, and whatever the gain, the chunks are those of the stream
/// as a whole.
pub proof fn recording_ignores_read_boundaries(gain: Gain, reads: Seq<Seq<u8>>)
    ensures
        recorded(gain, reads) == chunks_behind(gain, concat(reads)),
{
    lemma_heard(gain, reads);
}

proof fn lemma_concat_concat(a: Seq<Seq<u8>>, b: Seq<Seq<u8>>)
    ensures
        concat(a + b) == concat(a) + concat(b),
    decreases b.len(),
{
    if b.len() == 0 {
        assert(a + b =~= a);
        assert(concat(a) + seq![] =~= concat(a));
    } else {
        assert((a + b).drop_last() =~= a + b.drop_last());
        lemma_concat_concat(a, b.drop_last());
        assert(concat(a) + concat(b.drop_last()) + b.last() =~= concat(a) + (concat(b.drop_last())
            + b.last()));
    }
}

/// Samples pass as they are.
pub open spec fn unity() -> Gain {
    |before: Seq<Seq<u8>>, x: Seq<i16>| x
}

/// Every sample comes out as one.
pub open spec fn keeps_samples(gain: Gain) -> bool {
    forall|before: Seq<Seq<u8>>, x: Seq<i16>| (#[trigger] gain(before, x)).len() == x.len()
}

spec fn even(frames: Seq<Seq<u8>>) -> bool {
    forall|i: int| 0 <= i < frames.len() ==> (#[trigger] frames[i]).len() % 2 == 0
}

proof fn lemma_processed_len(gain: Gain, before: Seq<Seq<u8>>, frames: Seq<Seq<u8>>)
    requires
        keeps_samples(gain),
        even(frames),
    ensures
        processed_all(gain, before, frames).len() == concat(frames).len(),
        gain == unity() ==> processed_all(gain, before, frames) == concat(frames),
    decreases frames.len(),
{
    if frames.len() > 0 {
        let rest = frames.drop_last();
        let last = frames[frames.len() - 1];
        assert forall|i: int| 0 <= i < rest.len() implies (#[trigger] rest[i]).len() % 2 == 0 by {
            assert(rest[i] == frames[i]);
        }
        lemma_processed_len(gain, before, rest);
        assert(gain(before + rest, samples(last)).len() == samples(last).len());
        samples_written_again_are_the_frame(last);
    }
}

/// A recording sends as many bytes as it read, but for half a sample at the end
/// and for a last piece of under a second; and with no gain, it sends those
/// bytes.
pub proof fn what_is_read_is_sent(gain: Gain, reads: Seq<Seq<u8>>)
    requires
        keeps_samples(gain),
    ensures
        ({
            let (read, sent) = (concat(reads), concat(recorded(gain, reads)));
            let n = read.len() - read.len() % 2;
            &&& sent.len() <= n < sent.len() + BYTES_PER_SECOND
            &&& gain == unity() ==> sent == read.take(sent.len() as int)
        }),
{
    let read = concat(reads);
    let frames = frames_of(read);
    let rest = rest_of(read);
    let body = processed_all(gain, seq![], frames);
    let behind = behind_chunks(body);
    let end = with_last(gain, frames, rest, behind);
    let last = whole_samples(rest);
    recording_ignores_read_boundaries(gain, reads);
    framing_keeps_every_byte(read);
    lemma_processed_len(gain, seq![], frames);
    cutting_keeps_every_byte(body);
    lemma_concat_concat(chunks_of(body), tail_chunk(end));
    assert(gain(frames, samples(last)).len() == samples(last).len());
    samples_written_again_are_the_frame(last);
    assert(concat(frames).len() % 2 == 0) by {
        lemma_processed_even(gain, seq![], frames);
    }
    assert(read.len() - read.len() % 2 == concat(frames).len() + last.len());
    assert(concat(chunks_of(body)) + end =~= if last.len() == 0 {
        body
    } else {
        body + processed(gain, frames, last)
    });
    assert(seq![end].drop_last() =~= seq![]);
    assert(concat(seq![end]) =~= end);
    let sent = concat(recorded(gain, reads));
    if gain == unity() {
        assert(concat(frames) + last =~= read.take(read.len() - read.len() % 2));
        assert(sent =~= read.take(sent.len() as int));
    }
}

proof fn lemma_processed_even(gain: Gain, before: Seq<Seq<u8>>, frames: Seq<Seq<u8>>)
    ensures
        processed_all(gain, before, frames).len() % 2 == 0,
    decreases frames.len(),
{
    if frames.len() > 0 {
        lemma_processed_even(gain, before, frames.drop_last());
    }
}

// -------------------------------------------------------------------------- WAV

pub open spec fn le2(n: int) -> Seq<u8> {
    seq![(n % 256) as u8, (n / 256 % 256) as u8]
}

pub open spec fn le4(n: int) -> Seq<u8> {
    seq![
        (n % 256) as u8,
        (n / 256 % 256) as u8,
        (n / 65536 % 256) as u8,
        (n / 16777216 % 256) as u8,
    ]
}

/// The header of a WAVE file of 16 kHz mono 16-bit samples.
pub open spec fn header(n: nat) -> Seq<u8> {
    seq![0x52u8, 0x49u8, 0x46u8, 0x46u8] + le4((36 + n) as int) + seq![0x57u8, 0x41u8, 0x56u8, 0x45u8]
        + seq![0x66u8, 0x6du8, 0x74u8, 0x20u8] + le4(16) + le2(1) + le2(CHANNELS as int) + le4(
        SAMPLE_RATE as int,
    ) + le4(BYTES_PER_SECOND as int) + le2(2) + le2(16) + seq![0x64u8, 0x61u8, 0x74u8, 0x61u8]
        + le4(n as int)
}

fn push2(out: &mut Vec<u8>, n: u32)
    ensures
        final(out)@ == old(out)@ + le2(n as int),
{
    out.push((n % 256) as u8);
    out.push((n / 256 % 256) as u8);
    proof {
        assert(out@ =~= old(out)@ + le2(n as int));
    }
}

fn push4(out: &mut Vec<u8>, n: u32)
    ensures
        final(out)@ == old(out)@ + le4(n as int),
{
    out.push((n % 256) as u8);
    out.push((n / 256 % 256) as u8);
    out.push((n / 65536 % 256) as u8);
    out.push((n / 16777216 % 256) as u8);
    proof {
        assert(out@ =~= old(out)@ + le4(n as int));
    }
}

fn push_name(out: &mut Vec<u8>, a: u8, b: u8, c: u8, d: u8)
    ensures
        final(out)@ == old(out)@ + seq![a, b, c, d],
{
    out.push(a);
    out.push(b);
    out.push(c);
    out.push(d);
    proof {
        assert(out@ =~= old(out)@ + seq![a, b, c, d]);
    }
}

/// A WAVE file: the header of 44 bytes, then the samples. The length field has
/// 32 bits.
pub fn wav(pcm: &[u8]) -> (r: Vec<u8>)
    requires
        pcm@.len() <= 0xffff_ffdb,
    ensures
        r@ == header(pcm@.len()) + pcm@,
        header(pcm@.len()).len() == 44,
{
    let n = pcm.len() as u32;
    let mut out: Vec<u8> = Vec::new();
    push_name(&mut out, 0x52, 0x49, 0x46, 0x46);
    push4(&mut out, 36 + n);
    push_name(&mut out, 0x57, 0x41, 0x56, 0x45);
    push_name(&mut out, 0x66, 0x6d, 0x74, 0x20);
    push4(&mut out, 16);
    push2(&mut out, 1);
    push2(&mut out, CHANNELS);
    push4(&mut out, SAMPLE_RATE);
    push4(&mut out, BYTES_PER_SECOND);
    push2(&mut out, CHANNELS * BYTES_PER_SAMPLE);
    push2(&mut out, BYTES_PER_SAMPLE * 8);
    push_name(&mut out, 0x64, 0x61, 0x74, 0x61);
    push4(&mut out, n);
    proof {
        assert(out@ =~= header(pcm@.len()));
    }
    out.extend_from_slice(pcm);
    proof {
        assert(out@ =~= header(pcm@.len()) + pcm@);
    }
    out
}

} // verus!
