//! The write side: a frame built once, then handed to a sink that may accept
//! any part of it per attempt.
use vstd::prelude::*;
use crate::frame::{FrameError, encode, encode_frame};

verus! {

/// Where the writer stands.
#[derive(Debug, Clone, Copy, PartialEq, Eq, Structural)]
pub enum WriteStage {
    /// Part of the frame is not yet accepted by the sink.
    Writing,
    /// The whole frame was accepted; the sink is to be flushed.
    Flushing,
    /// Flushed, or given up.
    Done,
}

/// What the writer does after the sink accepted some bytes.
#[derive(Debug, Clone, Copy, PartialEq, Eq, Structural)]
pub enum WriteStep {
    /// Hand the sink the rest of the frame.
    Continue,
    /// The whole frame was accepted: flush the sink.
    Flush,
    /// The sink accepted nothing of a non-empty rest.
    Rejected(FrameError),
}

/// A sink that has accepted the first `a` bytes of a frame and then takes the
/// first `n` bytes of the rest has accepted the first `a + n` bytes: however
/// a sink splits its writes, what it accepted, in order, is a prefix of the
/// frame, and all of it once nothing is left.
pub proof fn lemma_partial_writes(frame: Seq<u8>, a: int, n: int)
    requires
        0 <= a,
        0 <= n,
        a + n <= frame.len(),
    ensures
        frame.take(a) + frame.skip(a).take(n) == frame.take(a + n),
        frame.take(frame.len() as int) == frame,
{
    assert(frame.take(a) + frame.skip(a).take(n) =~= frame.take(a + n));
    assert(frame.take(frame.len() as int) =~= frame);
}

/// One frame being written.
pub struct FrameWriter {
    frame: Vec<u8>,
    written: usize,
    stage: WriteStage,
}

impl FrameWriter {
    /// The whole frame.
    pub closed spec fn frame(&self) -> Seq<u8> {
        self.frame@
    }

    /// The bytes the sink has accepted, in order.
    pub closed spec fn sent(&self) -> Seq<u8> {
        self.frame@.take(self.written as int)
    }

    /// Where the writer stands.
    pub closed spec fn stage(&self) -> WriteStage {
        self.stage
    }

    /// An upper bound on the attempts left before the writer is done.
    pub closed spec fn budget(&self) -> nat {
        match self.stage {
            WriteStage::Writing => (self.frame@.len() - self.written) as nat + 1,
            WriteStage::Flushing => 1,
            WriteStage::Done => 0,
        }
    }

    /// The progress agrees with the stage.
    pub closed spec fn wf(&self) -> bool {
        &&& self.written <= self.frame@.len()
        &&& (self.stage is Writing ==> self.written < self.frame@.len())
        &&& (self.stage is Flushing ==> self.written == self.frame@.len())
    }

    /// The accepted bytes are a prefix of the frame: a proper one while
    /// writing, all of it once flushing.
    pub proof fn lemma_sent_prefix(&self)
        requires
            self.wf(),
        ensures
            self.sent().len() <= self.frame().len(),
            self.sent() == self.frame().take(self.sent().len() as int),
            self.stage() is Writing ==> self.sent().len() < self.frame().len(),
            self.stage() is Flushing ==> self.sent() == self.frame(),
    {
        if self.stage is Flushing {
            assert(self.frame@.take(self.written as int) =~= self.frame@);
        }
    }

    /// A writer for the frame that carries `data`.
    pub fn new(data: &[u8]) -> (r: FrameWriter)
        ensures
            r.wf(),
            r.frame() == encode(data@),
            r.sent() == Seq::<u8>::empty(),
            r.stage() is Writing,
    {
        let frame = encode_frame(data);
        FrameWriter { frame, written: 0, stage: WriteStage::Writing }
    }

    /// Whether the whole frame was accepted and the sink is to be flushed.
    pub fn needs_flush(&self) -> (r: bool)
        ensures
            r == self.stage() is Flushing,
    {
        matches!(self.stage, WriteStage::Flushing)
    }

    /// The part of the frame the sink has not accepted yet.
    pub fn pending(&self) -> (r: &[u8])
        requires
            self.wf(),
        ensures
            r@ == self.frame().skip(self.sent().len() as int),
            self.stage() is Writing ==> r@.len() > 0,
    {
        vstd::slice::slice_subrange(self.frame.as_slice(), self.written, self.frame.len())
    }

    /// Records that the sink accepted the first `n` bytes of `pending()`.
    pub fn record_written(&mut self, n: usize) -> (r: WriteStep)
        requires
            old(self).wf(),
            old(self).stage() is Writing,
            n <= old(self).frame().len() - old(self).sent().len(),
        ensures
            final(self).wf(),
            final(self).frame() == old(self).frame(),
            final(self).sent() == old(self).frame().take(old(self).sent().len() + n),
            final(self).budget() < old(self).budget(),
            n == 0 ==> r == WriteStep::Rejected(FrameError::WriteRejected),
            n == 0 ==> final(self).stage() is Done,
            n > 0 && final(self).sent() == final(self).frame() ==> r == WriteStep::Flush
                && final(self).stage() is Flushing,
            n > 0 && final(self).sent() != final(self).frame() ==> r == WriteStep::Continue
                && final(self).stage() is Writing,
    {
        if n == 0 {
            self.stage = WriteStage::Done;
            return WriteStep::Rejected(FrameError::WriteRejected);
        }
        let total = self.frame.len();
        self.written = self.written + n;
        if self.written == total {
            self.stage = WriteStage::Flushing;
            proof {
                assert(self.frame@.take(self.written as int) =~= self.frame@);
            }
            WriteStep::Flush
        } else {
            proof {
                assert(self.frame@.take(self.written as int).len() != self.frame@.len());
            }
            WriteStep::Continue
        }
    }

    /// The frame is written and flushed, or given up; nothing more is done.
    pub fn finish(&mut self)
        requires
            old(self).wf(),
        ensures
            final(self).wf(),
            final(self).frame() == old(self).frame(),
            final(self).sent() == old(self).sent(),
            final(self).stage() is Done,
    {
        self.stage = WriteStage::Done;
    }
}

} // verus!
