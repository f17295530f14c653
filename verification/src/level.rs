//! What the microphone hears and what is uploaded, measured apart: sums over
//! windows of five frames, and what a chunk's gains were.
//!
//! Sums of squares, not an average of loudnesses: that would hide one loud
//! frame among four quiet ones, which is what a single word in a pause looks
//! like.

use vstd::prelude::*;

verus! {

broadcast use vstd::seq_lib::group_seq_properties;

/// Five 20 ms frames: ten windows a second.
pub const FRAMES_PER_WINDOW: usize = 5;

/// Half-decibel bins from 0 to +40 dB.
pub const GAIN_BINS: usize = 81;

/// The sum of the squares of samples.
pub open spec fn sum_squares(s: Seq<i16>) -> nat
    decreases s.len(),
{
    if s.len() == 0 {
        0
    } else {
        sum_squares(s.drop_last()) + (s.last() * s.last()) as nat
    }
}

/// How far a sample is from silence.
pub open spec fn size(x: i16) -> nat {
    if x < 0 {
        -x as nat
    } else {
        x as nat
    }
}

/// The largest of samples, whatever their sign.
pub open spec fn peak(s: Seq<i16>) -> nat
    decreases s.len(),
{
    if s.len() == 0 {
        0
    } else {
        let p = peak(s.drop_last());
        if size(s.last()) > p {
            size(s.last())
        } else {
            p
        }
    }
}

proof fn lemma_square(x: i16)
    ensures
        0 <= x * x <= 0x4000_0000,
{
    assert(0 <= x * x <= 0x4000_0000) by (nonlinear_arith)
        requires
            -0x8000 <= x <= 0x7fff,
    ;
}

/// The sum of the squares of a frame's samples.
pub fn add_squares(v: &[i16]) -> (n: u128)
    ensures
        n == sum_squares(v@),
        n <= 0x4000_0000 * v@.len(),
{
    let mut n: u128 = 0;
    let mut i: usize = 0;
    proof {
        assert(v@.take(0) =~= seq![]);
    }
    while i < v.len()
        invariant
            i <= v.len(),
            n == sum_squares(v@.take(i as int)),
            n <= 0x4000_0000 * i,
        decreases v.len() - i,
    {
        proof {
            assert(v@.take(i + 1).drop_last() =~= v@.take(i as int));
            lemma_square(v@[i as int]);
        }
        let x = v[i] as i32;
        n = n + (x * x) as u128;
        i = i + 1;
    }
    proof {
        assert(v@.take(v@.len() as int) =~= v@);
    }
    n
}

/// The largest of a frame's samples.
pub fn find_peak(v: &[i16]) -> (p: u32)
    ensures
        p == peak(v@),
{
    let mut p: u32 = 0;
    let mut i: usize = 0;
    proof {
        assert(v@.take(0) =~= seq![]);
    }
    while i < v.len()
        invariant
            i <= v.len(),
            p == peak(v@.take(i as int)),
        decreases v.len() - i,
    {
        proof {
            assert(v@.take(i + 1).drop_last() =~= v@.take(i as int));
        }
        let x = v[i] as i32;
        let a: u32 = if x < 0 {
            (-x) as u32
        } else {
            x as u32
        };
        if a > p {
            p = a;
        }
        i = i + 1;
    }
    proof {
        assert(v@.take(v@.len() as int) =~= v@);
    }
    p
}

/// The sums of some frames.
#[derive(Debug)]
pub struct Window {
    pub samples: u128,
    /// Of what the microphone heard.
    pub input_sq: u128,
    /// Of what is uploaded.
    pub output_sq: u128,
    /// Of what is uploaded: a sum of squares says nothing about headroom.
    pub output_peak: u32,
    pub frames: usize,
}

pub open spec fn no_frames() -> Window {
    Window { samples: 0, input_sq: 0, output_sq: 0, output_peak: 0, frames: 0 }
}

/// The sums with one frame more.
pub open spec fn with_frame(w: Window, input: Seq<i16>, output: Seq<i16>) -> Window {
    Window {
        samples: (w.samples + input.len()) as u128,
        input_sq: (w.input_sq + sum_squares(input)) as u128,
        output_sq: (w.output_sq + sum_squares(output)) as u128,
        output_peak: if peak(output) > w.output_peak {
            peak(output) as u32
        } else {
            w.output_peak
        },
        frames: (w.frames + 1) as usize,
    }
}

/// Adds up frames into windows.
pub struct Meter {
    pub window: Window,
}

impl Meter {
    /// A window that is not full, with sums that its frames can have.
    pub open spec fn wf(self) -> bool {
        &&& self.window.frames < FRAMES_PER_WINDOW
        &&& self.window.samples <= 0x1_0000_0000_0000_0000 * self.window.frames
        &&& self.window.input_sq <= 0x4000_0000_0000_0000_0000_0000 * self.window.frames
        &&& self.window.output_sq <= 0x4000_0000_0000_0000_0000_0000 * self.window.frames
    }

    pub fn new() -> (m: Self)
        ensures
            m.wf(),
            m.window == no_frames(),
    {
        Meter {
            window: Window { samples: 0, input_sq: 0, output_sq: 0, output_peak: 0, frames: 0 },
        }
    }

    /// Takes one frame as it was heard and as it is uploaded, and gives the
    /// window on every fifth one.
    pub fn push(&mut self, input: &[i16], output: &[i16]) -> (r: Option<Window>)
        requires
            old(self).wf(),
        ensures
            final(self).wf(),
            ({
                let w = with_frame(old(self).window, input@, output@);
                if w.frames < FRAMES_PER_WINDOW {
                    r is None && final(self).window == w
                } else {
                    r == Some(w) && final(self).window == no_frames()
                }
            }),
    {
        let n: usize = input.len();
        let m: usize = output.len();
        let a = add_squares(input);
        let b = add_squares(output);
        let p = find_peak(output);
        let window = Window {
            samples: self.window.samples + n as u128,
            input_sq: self.window.input_sq + a,
            output_sq: self.window.output_sq + b,
            output_peak: if p > self.window.output_peak {
                p
            } else {
                self.window.output_peak
            },
            frames: self.window.frames + 1,
        };
        if window.frames < FRAMES_PER_WINDOW {
            self.window = window;
            return None;
        }
        self.window = Window {
            samples: 0,
            input_sq: 0,
            output_sq: 0,
            output_peak: 0,
            frames: 0,
        };
        Some(window)
    }

    /// The window that is left when a recording ends, if it holds a frame.
    pub fn flush(&mut self) -> (r: Option<Window>)
        requires
            old(self).wf(),
        ensures
            final(self).wf(),
            if old(self).window.frames == 0 {
                r is None && *final(self) == *old(self)
            } else {
                r == Some(old(self).window) && final(self).window == no_frames()
            },
    {
        if self.window.frames == 0 {
            return None;
        }
        let window = Window {
            samples: self.window.samples,
            input_sq: self.window.input_sq,
            output_sq: self.window.output_sq,
            output_peak: self.window.output_peak,
            frames: self.window.frames,
        };
        self.window = Window {
            samples: 0,
            input_sq: 0,
            output_sq: 0,
            output_peak: 0,
            frames: 0,
        };
        Some(window)
    }
}

/// The gains of a chunk's windows, counted in half-decibel bins: a chunk has
/// far too many frames to keep them all for a median.
#[derive(Debug)]
pub struct Summary {
    pub windows: u64,
    pub gain_hist: Vec<u64>,
}

/// How many windows are in the first bins.
pub open spec fn counted(hist: Seq<u64>, n: int) -> nat
    decreases n,
{
    if n <= 0 || n > hist.len() {
        0
    } else {
        counted(hist, n - 1) + hist[n - 1] as nat
    }
}

proof fn lemma_counted_grows(hist: Seq<u64>, m: int, n: int)
    requires
        0 <= m <= n <= hist.len(),
    ensures
        counted(hist, m) <= counted(hist, n),
    decreases n - m,
{
    if m < n {
        lemma_counted_grows(hist, m, n - 1);
    }
}

proof fn lemma_counted_update(hist: Seq<u64>, i: int, x: u64, n: int)
    requires
        0 <= i < hist.len(),
        0 <= n <= hist.len(),
        hist[i] < u64::MAX,
        x == hist[i] + 1,
    ensures
        counted(hist.update(i, x), n) == counted(hist, n) + (if i < n {
            1nat
        } else {
            0
        }),
    decreases n,
{
    if n > 0 {
        lemma_counted_update(hist, i, x, n - 1);
    }
}

impl Summary {
    /// Every window is in one bin.
    pub open spec fn wf(self) -> bool {
        self.gain_hist@.len() == GAIN_BINS && counted(self.gain_hist@, GAIN_BINS as int)
            == self.windows
    }

    pub fn new() -> (s: Self)
        ensures
            s.wf(),
            s.windows == 0,
    {
        let mut gain_hist: Vec<u64> = Vec::new();
        while gain_hist.len() < GAIN_BINS
            invariant
                gain_hist.len() <= GAIN_BINS,
                counted(gain_hist@, gain_hist@.len() as int) == 0,
            decreases GAIN_BINS - gain_hist.len(),
        {
            let ghost before = gain_hist@;
            gain_hist.push(0);
            proof {
                lemma_counted_push(before, 0, before.len() as int);
            }
        }
        Summary { windows: 0, gain_hist }
    }

    /// Counts a window's gain, given in half decibels; what is past the last
    /// bin counts in it.
    pub fn add(&mut self, half_db: usize)
        requires
            old(self).wf(),
            old(self).windows < u64::MAX,
        ensures
            final(self).wf(),
            final(self).windows == old(self).windows + 1,
            ({
                let bin = if half_db < GAIN_BINS {
                    half_db as int
                } else {
                    GAIN_BINS - 1
                };
                final(self).gain_hist@ == old(self).gain_hist@.update(
                    bin,
                    (old(self).gain_hist@[bin] + 1) as u64,
                )
            }),
    {
        let bin = if half_db < GAIN_BINS {
            half_db
        } else {
            GAIN_BINS - 1
        };
        proof {
            let h = self.gain_hist@;
            lemma_counted_grows(h, bin + 1, GAIN_BINS as int);
            lemma_counted_update(h, bin as int, (h[bin as int] + 1) as u64, GAIN_BINS as int);
        }
        let n = self.gain_hist[bin];
        self.gain_hist.set(bin, n + 1);
        self.windows = self.windows + 1;
    }

    pub fn is_empty(&self) -> (r: bool)
        ensures
            r == (self.windows == 0),
    {
        self.windows == 0
    }

    /// The bin of the median gain; the first one where there is none.
    pub fn median_bin(&self) -> (bin: usize)
        requires
            self.wf(),
        ensures
            bin < GAIN_BINS,
            self.windows == 0 ==> bin == 0,
            self.windows > 0 ==> counted(self.gain_hist@, bin as int) <= self.windows / 2
                < counted(self.gain_hist@, bin + 1),
    {
        if self.windows == 0 {
            return 0;
        }
        let half = self.windows / 2;
        let mut seen: u64 = 0;
        let mut bin: usize = 0;
        while bin < GAIN_BINS
            invariant
                self.wf(),
                self.windows > 0,
                half == self.windows / 2,
                bin <= GAIN_BINS,
                seen == counted(self.gain_hist@, bin as int),
                seen <= half,
            decreases GAIN_BINS - bin,
        {
            proof {
                lemma_counted_grows(self.gain_hist@, bin + 1, GAIN_BINS as int);
            }
            seen = seen + self.gain_hist[bin];
            if seen > half {
                return bin;
            }
            bin = bin + 1;
        }
        0
    }
}

proof fn lemma_counted_push(hist: Seq<u64>, x: u64, n: int)
    requires
        0 <= n <= hist.len(),
    ensures
        counted(hist.push(x), n) == counted(hist, n),
    decreases n,
{
    if n > 0 {
        lemma_counted_push(hist, x, n - 1);
    }
}

} // verus!
