//! The tap on the decoded stream. Every sample that passes is handed on
//! untouched and also copied into a buffer; each time the buffer is full it
//! is given out as one chunk and filling starts over.

use vstd::prelude::*;

verus! {

/// Number of samples in one chunk.
pub const SENDING_BUFFER_SIZE: usize = 512;

/// What one step of the tap yields: the sample to hand on downstream, and
/// the chunk to send to the analysis side if this sample completed one.
pub struct TapStep {
    pub forwarded: Option<i16>,
    pub chunk: Option<[i16; SENDING_BUFFER_SIZE]>,
}

/// The state of the tap: the samples collected towards the next chunk.
pub struct SendingSource {
    buffer: [i16; SENDING_BUFFER_SIZE],
    buffer_counter: usize,
}

impl View for SendingSource {
    type V = Seq<i16>;

    /// The samples collected since the last chunk went out, in arrival order.
    closed spec fn view(&self) -> Seq<i16> {
        self.buffer@.take(self.buffer_counter as int)
    }
}

impl SendingSource {
    /// Fewer samples are pending than make a chunk.
    pub closed spec fn wf(&self) -> bool {
        self.buffer_counter < SENDING_BUFFER_SIZE
    }

    /// A tap that has seen no sample yet.
    pub fn new() -> (tap: SendingSource)
        ensures
            tap.wf(),
            tap@ == Seq::<i16>::empty(),
    {
        let buffer: [i16; SENDING_BUFFER_SIZE] = [0i16; SENDING_BUFFER_SIZE];
        SendingSource { buffer, buffer_counter: 0 }
    }

    /// The number of samples waiting for their chunk to fill.
    pub fn pending(&self) -> (n: usize)
        requires
            self.wf(),
        ensures
            n == self@.len(),
            n < SENDING_BUFFER_SIZE,
    {
        self.buffer_counter
    }

    /// One step of the stream. `pulled` is what the decoder gave: a sample, or
    /// nothing at the end of the stream. The sample is handed on as it came.
    /// It also joins the pending samples, and when that makes a full chunk the
    /// chunk is given out and nothing stays pending. At the end of the stream
    /// nothing changes and no chunk is given out, so samples still pending
    /// are never sent.
    pub fn next(&mut self, pulled: Option<i16>) -> (step: TapStep)
        requires
            old(self).wf(),
        ensures
            final(self).wf(),
            step.forwarded == pulled,
            match pulled {
                None => step.chunk is None && final(self)@ == old(self)@,
                Some(value) => if old(self)@.len() + 1 < SENDING_BUFFER_SIZE {
                    step.chunk is None && final(self)@ == old(self)@.push(value)
                } else {
                    step.chunk is Some && step.chunk->0@ == old(self)@.push(value) && final(self)@
                        == Seq::<i16>::empty()
                },
            },
    {
        match pulled {
            Some(value) => {
                self.buffer[self.buffer_counter] = value;
                let filled: usize = self.buffer_counter + 1;
                if filled >= SENDING_BUFFER_SIZE {
                    self.buffer_counter = 0;
                    let chunk: [i16; SENDING_BUFFER_SIZE] = self.buffer;
                    assert(chunk@ =~= old(self)@.push(value));
                    TapStep { forwarded: Some(value), chunk: Some(chunk) }
                } else {
                    self.buffer_counter = filled;
                    assert(self@ =~= old(self)@.push(value));
                    TapStep { forwarded: Some(value), chunk: None }
                }
            },
            None => TapStep { forwarded: None, chunk: None },
        }
    }
}

} // verus!
