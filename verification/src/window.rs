//! The rolling window: the most recent samples, oldest first, at a fixed
//! length. A new chunk enters at the back and pushes as many of the oldest
//! samples out at the front.

use std::collections::VecDeque;
use vstd::prelude::*;

verus! {

/// What a window holds after `chunk` has been appended and the oldest
/// `chunk.len()` samples have been evicted.
pub open spec fn slid(window: Seq<i16>, chunk: Seq<i16>) -> Seq<i16> {
    (window + chunk).skip(chunk.len() as int)
}

/// What a window holds after every chunk of `chunks` has been pushed in turn.
pub open spec fn slid_all(window: Seq<i16>, chunks: Seq<Seq<i16>>) -> Seq<i16>
    decreases chunks.len(),
{
    if chunks.len() == 0 {
        window
    } else {
        slid(slid_all(window, chunks.drop_last()), chunks.last())
    }
}

/// `m` occurs among the samples and none is lower.
pub open spec fn is_lowest(samples: Seq<i16>, m: i16) -> bool {
    samples.contains(m) && forall|i: int| 0 <= i < samples.len() ==> m <= samples[i]
}

/// `m` occurs among the samples and none is higher.
pub open spec fn is_highest(samples: Seq<i16>, m: i16) -> bool {
    samples.contains(m) && forall|i: int| 0 <= i < samples.len() ==> samples[i] <= m
}

/// Sliding never changes the length of the window, whatever the chunk.
pub proof fn lemma_slide_keeps_length(window: Seq<i16>, chunk: Seq<i16>)
    ensures
        slid(window, chunk).len() == window.len(),
{
}

/// A chunk that fits in the window drives out exactly the oldest samples,
/// as many as it holds, and then stands at the tail; the samples that stay
/// keep their order.
pub proof fn lemma_slide_is_fifo(window: Seq<i16>, chunk: Seq<i16>)
    requires
        chunk.len() <= window.len(),
    ensures
        slid(window, chunk) == window.skip(chunk.len() as int) + chunk,
        forall|i: int|
            0 <= i < window.len() - chunk.len() ==> slid(window, chunk)[i] == window[i
                + chunk.len()],
        forall|j: int|
            0 <= j < chunk.len() ==> slid(window, chunk)[window.len() - chunk.len() + j]
                == chunk[j],
{
    assert(slid(window, chunk) =~= window.skip(chunk.len() as int) + chunk);
}

/// Pushing two chunks one after the other leaves what pushing both as one
/// chunk leaves: the window holds the latest samples, however they were cut
/// into chunks.
pub proof fn lemma_slide_composes(window: Seq<i16>, first: Seq<i16>, second: Seq<i16>)
    ensures
        slid(slid(window, first), second) == slid(window, first + second),
{
    assert(slid(slid(window, first), second) =~= slid(window, first + second));
}

/// However many chunks are pushed, and whatever they hold, the window is as
/// long afterwards as it was before.
pub proof fn lemma_length_after_pushes(window: Seq<i16>, chunks: Seq<Seq<i16>>)
    ensures
        slid_all(window, chunks).len() == window.len(),
    decreases chunks.len(),
{
    if chunks.len() > 0 {
        lemma_length_after_pushes(window, chunks.drop_last());
    }
}

/// A fixed-length buffer of the latest samples.
pub struct RollingWindow {
    samples: VecDeque<i16>,
    capacity: usize,
}

impl View for RollingWindow {
    type V = Seq<i16>;

    /// The samples held, oldest first.
    closed spec fn view(&self) -> Seq<i16> {
        self.samples@
    }
}

impl RollingWindow {
    /// The length the window was made with.
    pub closed spec fn spec_capacity(&self) -> nat {
        self.capacity as nat
    }

    /// The window is exactly as long as its capacity.
    pub closed spec fn wf(&self) -> bool {
        self.samples@.len() == self.capacity
    }

    /// A window of `capacity` samples of silence.
    pub fn new(capacity: usize) -> (w: RollingWindow)
        ensures
            w.wf(),
            w.spec_capacity() == capacity,
            w@ == Seq::new(capacity as nat, |i: int| 0i16),
    {
        let mut samples: VecDeque<i16> = VecDeque::new();
        let mut filled: usize = 0;
        while filled < capacity
            invariant
                filled <= capacity,
                samples@ == Seq::new(filled as nat, |i: int| 0i16),
            decreases capacity - filled,
        {
            samples.push_back(0i16);
            filled = filled + 1;
        }
        RollingWindow { samples, capacity }
    }

    /// The fixed length of the window.
    pub fn capacity(&self) -> (c: usize)
        ensures
            c == self.spec_capacity(),
    {
        self.capacity
    }

    /// The number of samples held.
    pub fn len(&self) -> (n: usize)
        ensures
            n == self@.len(),
    {
        self.samples.len()
    }

    /// The sample at position `index`, counted from the oldest.
    pub fn get(&self, index: usize) -> (sample: Option<i16>)
        ensures
            index < self@.len() ==> sample == Some(self@[index as int]),
            index >= self@.len() ==> sample is None,
    {
        if index < self.samples.len() {
            Some(self.samples[index])
        } else {
            None
        }
    }

    /// Slides the window forward by one chunk: the chunk is appended at the
    /// back, then as many samples as it holds leave at the front.
    pub fn push_chunk(&mut self, chunk: &[i16])
        requires
            old(self).wf(),
        ensures
            final(self).wf(),
            final(self).spec_capacity() == old(self).spec_capacity(),
            final(self)@.len() == old(self).spec_capacity(),
            final(self)@ == slid(old(self)@, chunk@),
    {
        let n: usize = chunk.len();
        let mut appended: usize = 0;
        while appended < n
            invariant
                n == chunk@.len(),
                appended <= n,
                self.capacity == old(self).capacity,
                self.samples@ == old(self).samples@ + chunk@.take(appended as int),
            decreases n - appended,
        {
            self.samples.push_back(chunk[appended]);
            appended = appended + 1;
        }
        let mut evicted: usize = 0;
        while evicted < n
            invariant
                n == chunk@.len(),
                evicted <= n,
                self.capacity == old(self).capacity,
                self.samples@ == (old(self).samples@ + chunk@).skip(evicted as int),
            decreases n - evicted,
        {
            let _oldest = self.samples.pop_front();
            evicted = evicted + 1;
        }
    }

    /// The lowest and the highest sample held, or nothing for a window
    /// without samples.
    pub fn extremes(&self) -> (found: Option<(i16, i16)>)
        ensures
            match found {
                None => self@.len() == 0,
                Some((lowest, highest)) => is_lowest(self@, lowest) && is_highest(self@, highest),
            },
    {
        let n: usize = self.samples.len();
        if n == 0 {
            return None;
        }
        let mut lowest: i16 = self.samples[0];
        let mut highest: i16 = self.samples[0];
        let mut i: usize = 1;
        assert(self.samples@.take(1)[0] == lowest);
        while i < n
            invariant
                n == self.samples@.len(),
                1 <= i <= n,
                is_lowest(self.samples@.take(i as int), lowest),
                is_highest(self.samples@.take(i as int), highest),
            decreases n - i,
        {
            let sample: i16 = self.samples[i];
            let ghost seen = self.samples@.take(i as int);
            let ghost more = self.samples@.take(i + 1);
            proof {
                let at_low = choose|j: int| 0 <= j < seen.len() && seen[j] == lowest;
                let at_high = choose|j: int| 0 <= j < seen.len() && seen[j] == highest;
                assert(more[at_low] == lowest);
                assert(more[at_high] == highest);
                assert(more[i as int] == sample);
                assert forall|j: int| 0 <= j < i implies more[j] == seen[j] by {}
            }
            if sample < lowest {
                lowest = sample;
            }
            if sample > highest {
                highest = sample;
            }
            i = i + 1;
        }
        assert(self.samples@.take(n as int) =~= self.samples@);
        Some((lowest, highest))
    }

    /// A copy of the whole window, oldest sample first.
    pub fn snapshot(&self) -> (copy: VecDeque<i16>)
        ensures
            copy@ == self@,
    {
        let mut copy: VecDeque<i16> = VecDeque::new();
        let n: usize = self.samples.len();
        let mut i: usize = 0;
        while i < n
            invariant
                n == self.samples@.len(),
                i <= n,
                copy@ == self.samples@.take(i as int),
            decreases n - i,
        {
            copy.push_back(self.samples[i]);
            i = i + 1;
        }
        copy
    }
}

} // verus!
