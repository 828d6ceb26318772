//! The frame layout of the short-time Fourier transform and the frames two
//! spectrograms are compared over.

use vstd::prelude::*;

verus! {

/// Window length of the spectrogram, in samples.
pub const FFT_SIZE: usize = 2048;

/// Distance between the starts of consecutive frames, in samples.
pub const HOP_SIZE: usize = 512;

/// Audio shorter than one window is padded with silence to one window.
pub open spec fn padded_len_spec(audio_len: int, fft_size: int) -> int {
    if audio_len < fft_size {
        fft_size
    } else {
        audio_len
    }
}

/// How the spectrogram of a signal is cut into frames.
#[derive(Clone, Copy, Debug)]
pub struct StftLayout {
    /// Window length.
    pub fft_size: usize,
    /// Hop between frame starts.
    pub hop_size: usize,
    /// Length of the signal after padding.
    pub padded_len: usize,
    /// Number of frames (rows of the spectrogram).
    pub num_frames: usize,
    /// Number of frequency bins kept per frame (columns of the spectrogram).
    pub num_bins: usize,
}

impl StftLayout {
    /// The layout of a signal of `audio_len` samples.
    pub open spec fn describes(&self, audio_len: int) -> bool {
        &&& self.hop_size > 0
        &&& self.padded_len == padded_len_spec(audio_len, self.fft_size as int)
        &&& self.num_frames == (self.padded_len - self.fft_size) / (self.hop_size as int) + 1
        &&& self.num_bins == self.fft_size / 2
    }

    /// The layout is consistent: it is the layout of its own padded length
    /// (padding never changes the frame count).
    pub open spec fn wf(&self) -> bool {
        self.describes(self.padded_len as int)
    }

    /// Start of frame `frame`.
    pub open spec fn frame_start(&self, frame: int) -> int {
        frame * self.hop_size
    }

    /// Samples `start..end` of the padded signal that frame `frame` reads.
    pub fn frame_range(&self, frame: usize) -> (range: (usize, usize))
        requires
            self.wf(),
            frame < self.num_frames,
        ensures
            range.0 == self.frame_start(frame as int),
            range.0 == frame * self.hop_size,
            range.1 == range.0 + self.fft_size,
            range.1 <= self.padded_len,
    {
        proof {
            lemma_frames_fit(*self, frame as int);
        }
        let start = frame * self.hop_size;
        (start, start + self.fft_size)
    }
}

/// The frame layout of a signal of `audio_len` samples cut into windows of
/// `fft_size` with starts `hop_size` apart.
pub fn stft_layout(audio_len: usize, fft_size: usize, hop_size: usize) -> (layout: StftLayout)
    requires
        hop_size > 0,
        // the frame count fits in a usize
        hop_size > 1 || padded_len_spec(audio_len as int, fft_size as int) - fft_size < usize::MAX,
    ensures
        layout.fft_size == fft_size,
        layout.hop_size == hop_size,
        layout.describes(audio_len as int),
        layout.wf(),
{
    let padded_len = if audio_len < fft_size { fft_size } else { audio_len };
    let span = padded_len - fft_size;
    assert(span / hop_size < usize::MAX) by (nonlinear_arith)
        requires
            hop_size > 1 || span < usize::MAX,
            hop_size > 0,
            0 <= span <= usize::MAX,
    ;
    let num_frames = span / hop_size + 1;
    StftLayout { fft_size, hop_size, padded_len, num_frames, num_bins: fft_size / 2 }
}

/// The first frame starts at the beginning of the signal and consecutive
/// frames start exactly one hop apart.
pub proof fn lemma_frames_hop_apart(layout: StftLayout, frame: int)
    requires
        layout.wf(),
        0 <= frame,
        frame + 1 < layout.num_frames,
    ensures
        layout.frame_start(0) == 0,
        layout.frame_start(frame + 1) == layout.frame_start(frame) + layout.hop_size,
        layout.frame_start(frame) == frame * layout.hop_size,
{
    assert((frame + 1) * layout.hop_size == frame * layout.hop_size + layout.hop_size) by (nonlinear_arith);
}

/// Every frame of a layout lies inside the padded signal.
pub proof fn lemma_frames_fit(layout: StftLayout, frame: int)
    requires
        layout.wf(),
        0 <= frame < layout.num_frames,
    ensures
        layout.frame_start(frame) + layout.fft_size <= layout.padded_len,
{
    let h = layout.hop_size as int;
    let r = layout.padded_len - layout.fft_size;
    let q = r / h;
    assert(frame <= q);
    assert(q * h <= r) by (nonlinear_arith)
        requires
            h > 0,
            r >= 0,
            q == r / h,
    ;
    assert(frame * h <= q * h) by (nonlinear_arith)
        requires
            0 <= frame <= q,
            h > 0,
    ;
}

/// The layout has as many frames as fit: at least one, and one more frame
/// would run past the end of the padded signal.
pub proof fn lemma_frames_maximal(layout: StftLayout)
    requires
        layout.wf(),
    ensures
        layout.num_frames >= 1,
        layout.padded_len >= layout.fft_size,
        layout.frame_start(layout.num_frames as int) + layout.fft_size > layout.padded_len,
{
    let h = layout.hop_size as int;
    let r = layout.padded_len - layout.fft_size;
    let q = r / h;
    assert((q + 1) * h > r) by (nonlinear_arith)
        requires
            h > 0,
            r >= 0,
            q == r / h,
    ;
}

/// The number of frames two spectrograms are compared over: the frames they
/// share. `None` when either has no frames, which the loss punishes.
pub fn compared_frames(target_frames: usize, candidate_frames: usize) -> (frames: Option<usize>)
    ensures
        frames matches Some(k) ==> k > 0 && k <= target_frames && k <= candidate_frames
            && (k == target_frames || k == candidate_frames),
        frames is None <==> (target_frames == 0 || candidate_frames == 0),
{
    let shared = if target_frames < candidate_frames { target_frames } else { candidate_frames };
    if shared == 0 {
        None
    } else {
        Some(shared)
    }
}

} // verus!
