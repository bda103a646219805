//! Slicing a waveform into overlapping windows.
//!
//! Consecutive windows begin `shift` samples apart, where `shift` is the
//! window length less three seconds of audio, and at least one sample. Window
//! `i` covers the samples from `i * shift` up to `i * shift + window_len`,
//! clipped to the end of the waveform. There are as many windows as it takes
//! for the last one to begin before the end.

use vstd::prelude::*;

verus! {

/// The seconds of audio that consecutive windows share.
pub const OVERLAP_SECONDS: usize = 3;

/// The number of samples in the overlap between consecutive windows.
pub open spec fn overlap_samples(sample_rate: nat) -> nat {
    3 * sample_rate
}

/// The distance between the starts of consecutive windows.
pub open spec fn window_shift(window_len: nat, overlap: nat) -> nat {
    if window_len > overlap {
        (window_len - overlap) as nat
    } else {
        1
    }
}

/// The number of windows over `len` samples: `len / shift`, rounded up.
pub open spec fn window_count(len: nat, shift: nat) -> nat
    recommends
        shift >= 1,
{
    if len == 0 {
        0
    } else {
        ((len - 1) / shift as int + 1) as nat
    }
}

/// The first sample of window `i`.
pub open spec fn window_start(i: nat, shift: nat) -> nat {
    i * shift
}

/// One past the last sample of window `i`.
pub open spec fn window_end(i: nat, shift: nat, window_len: nat, len: nat) -> nat {
    if i * shift + window_len <= len {
        i * shift + window_len
    } else {
        len
    }
}

/// Window `i` exists exactly when it begins before the end of the waveform.
pub proof fn lemma_window_exists(len: nat, shift: nat, i: nat)
    requires
        shift >= 1,
    ensures
        i < window_count(len, shift) <==> i * shift < len,
{
    if len > 0 {
        let q = (len - 1) / shift as int;
        assert(q * shift <= len - 1 < q * shift + shift) by (nonlinear_arith)
            requires
                q == (len - 1) / shift as int,
                shift >= 1,
                len >= 1,
        ;
        if i <= q {
            assert(i * shift <= q * shift) by (nonlinear_arith)
                requires
                    i <= q,
                    shift >= 1,
            ;
        } else {
            assert(i * shift >= q * shift + shift) by (nonlinear_arith)
                requires
                    i >= q + 1,
                    shift >= 1,
            ;
        }
    } else {
        assert(i * shift >= 0) by (nonlinear_arith)
            requires
                i >= 0,
                shift >= 1,
        ;
    }
}

/// The windows cover the waveform: every sample lies in the window whose
/// number is the sample's position divided by the shift, and no window
/// reaches beyond the waveform.
pub proof fn lemma_windows_cover(len: nat, window_len: nat, overlap: nat, sample: nat)
    requires
        window_len >= 1,
        sample < len,
    ensures
        ({
            let shift = window_shift(window_len, overlap);
            let i = sample / shift;
            &&& i < window_count(len, shift)
            &&& window_start(i, shift) <= sample < window_end(i, shift, window_len, len)
        }),
        forall|i: nat|
            #![trigger window_end(i, window_shift(window_len, overlap), window_len, len)]
            i < window_count(len, window_shift(window_len, overlap)) ==> window_start(
                i,
                window_shift(window_len, overlap),
            ) < window_end(i, window_shift(window_len, overlap), window_len, len) <= len,
{
    let shift = window_shift(window_len, overlap);
    let i = sample / shift;
    assert(i * shift <= sample < i * shift + shift) by (nonlinear_arith)
        requires
            i == sample / shift,
            shift >= 1,
    ;
    lemma_window_exists(len, shift, i);
    assert forall|i: nat|
        #![trigger window_end(i, shift, window_len, len)]
        i < window_count(len, shift) implies window_start(i, shift) < window_end(
        i,
        shift,
        window_len,
        len,
    ) <= len by {
        lemma_window_exists(len, shift, i);
    }
}

/// The last window ends exactly where the waveform ends.
pub proof fn lemma_last_window_ends(len: nat, window_len: nat, overlap: nat)
    requires
        window_len >= 1,
        len >= 1,
    ensures
        window_count(len, window_shift(window_len, overlap)) >= 1,
        window_end(
            (window_count(len, window_shift(window_len, overlap)) - 1) as nat,
            window_shift(window_len, overlap),
            window_len,
            len,
        ) == len,
{
    let shift = window_shift(window_len, overlap);
    let n = window_count(len, shift);
    lemma_window_exists(len, shift, n);
    lemma_window_exists(len, shift, 0);
    assert(0 * shift == 0) by (nonlinear_arith);
    let last = (n - 1) as nat;
    assert(last * shift + shift == n * shift) by (nonlinear_arith)
        requires
            last + 1 == n,
    ;
}

/// A window of full length shares exactly the overlap with the window after
/// it, where the window is longer than the overlap.
pub proof fn lemma_consecutive_overlap(len: nat, window_len: nat, overlap: nat, i: nat)
    requires
        window_len > overlap,
        i + 1 < window_count(len, window_shift(window_len, overlap)),
        window_start(i, window_shift(window_len, overlap)) + window_len <= len,
    ensures
        window_end(i, window_shift(window_len, overlap), window_len, len) - window_start(
            i + 1,
            window_shift(window_len, overlap),
        ) == overlap,
{
    let shift = window_shift(window_len, overlap);
    assert((i + 1) * shift == i * shift + shift) by (nonlinear_arith);
}

/// The state of an [`AudioWindower`]: the waveform, the plan of its windows
/// and the number of the window that comes next.
pub struct Windowing<T> {
    pub waveform: Seq<T>,
    pub window_len: nat,
    pub shift: nat,
    pub next: nat,
}

impl<T> Windowing<T> {
    /// The number of windows in all.
    pub open spec fn count(self) -> nat {
        window_count(self.waveform.len(), self.shift)
    }

    /// The samples of window `i`.
    pub open spec fn window(self, i: nat) -> Seq<T> {
        self.waveform.subrange(
            window_start(i, self.shift) as int,
            window_end(i, self.shift, self.window_len, self.waveform.len()) as int,
        )
    }
}

/// Hands out the windows of a waveform one after another, in order of their
/// start, each as a copy of its samples. It cannot be rewound.
pub struct AudioWindower<T> {
    waveform: Vec<T>,
    window_len: usize,
    shift: usize,
    next: usize,
}

impl<T> View for AudioWindower<T> {
    type V = Windowing<T>;

    closed spec fn view(&self) -> Windowing<T> {
        Windowing {
            waveform: self.waveform@,
            window_len: self.window_len as nat,
            shift: self.shift as nat,
            next: self.next as nat,
        }
    }
}

impl<T> AudioWindower<T> {
    #[verifier::type_invariant]
    spec fn well_formed(&self) -> bool {
        self.shift >= 1 && self.next <= window_count(self.waveform@.len(), self.shift as nat)
    }
}

impl<T: Copy> AudioWindower<T> {
    /// A windower over `waveform`, sampled at `sample_rate`, with windows of
    /// `window_len` samples.
    pub fn new(waveform: Vec<T>, sample_rate: usize, window_len: usize) -> (windower: Self)
        ensures
            windower@ == (Windowing {
                waveform: waveform@,
                window_len: window_len as nat,
                shift: window_shift(window_len as nat, overlap_samples(sample_rate as nat)),
                next: 0,
            }),
    {
        let shift = match sample_rate.checked_mul(OVERLAP_SECONDS) {
            Some(overlap) => if window_len > overlap {
                window_len - overlap
            } else {
                1
            },
            None => 1,
        };
        AudioWindower { waveform, window_len, shift, next: 0 }
    }

    /// The number of windows in all.
    pub fn count(&self) -> (n: usize)
        ensures
            n == self@.count(),
    {
        proof {
            use_type_invariant(self);
        }
        let len = self.waveform.len();
        if len == 0 {
            0
        } else {
            (len - 1) / self.shift + 1
        }
    }

    /// The number of windows that have not been handed out.
    pub fn remaining(&self) -> (n: usize)
        ensures
            n == self@.count() - self@.next,
            self@.next <= self@.count(),
    {
        proof {
            use_type_invariant(self);
        }
        self.count() - self.next
    }

    /// The next window, or `None` when all have been handed out.
    pub fn next_window(&mut self) -> (window: Option<Vec<T>>)
        ensures
            final(self)@.waveform == old(self)@.waveform,
            final(self)@.window_len == old(self)@.window_len,
            final(self)@.shift == old(self)@.shift,
            old(self)@.next < old(self)@.count() ==> final(self)@.next == old(self)@.next + 1,
            old(self)@.next < old(self)@.count() ==> (window matches Some(samples) && samples@
                == old(self)@.window(old(self)@.next)),
            old(self)@.next >= old(self)@.count() ==> final(self)@.next == old(self)@.next,
            old(self)@.next >= old(self)@.count() ==> window is None,
    {
        proof {
            use_type_invariant(&*self);
        }
        let len = self.waveform.len();
        if self.next >= self.count() {
            return None;
        }
        proof {
            lemma_window_exists(len as nat, self.shift as nat, self.next as nat);
        }
        let start = self.next * self.shift;
        let end = if self.window_len <= len - start {
            start + self.window_len
        } else {
            len
        };
        let mut samples: Vec<T> = Vec::with_capacity(end - start);
        let mut j: usize = start;
        while j < end
            invariant
                start <= j <= end <= self.waveform.len(),
                samples@ == self.waveform@.subrange(start as int, j as int),
            decreases end - j,
        {
            samples.push(self.waveform[j]);
            j = j + 1;
            assert(samples@ =~= self.waveform@.subrange(start as int, j as int));
        }
        self.next = self.next + 1;
        Some(samples)
    }
}

} // verus!
