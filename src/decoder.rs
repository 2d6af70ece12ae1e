//! The read side: a state machine that is fed the bytes of a stream in pieces
//! of any size and stops exactly at the end of the first frame.
use vstd::prelude::*;
use crate::frame::{
    BodyMode, FrameError, Status, frame_status, stream_result, digits_value, is_digit, too_small,
    digit_run, lemma_digit_run, parse_length, MAX_LENGTH_DIGITS, SEPARATOR, TERMINATOR, DIGIT_ZERO,
    DIGIT_NINE,
};

verus! {

/// Most payload bytes handed over in one piece, so that a caller can read the
/// body of any frame through a scratch buffer of this size.
pub const SCRATCH_LEN: usize = 4096;

/// Where the decoder stands in the frame.
#[derive(Debug, Clone, Copy, PartialEq, Eq, Structural)]
enum Stage {
    /// Reading length digits, one byte at a time.
    Length,
    /// Reading payload bytes.
    Body,
    /// Waiting for the `,` after the payload.
    Terminator,
    /// The frame was decided; nothing more is taken.
    Finished,
}

/// What one piece of input did.
#[derive(Debug)]
pub enum Progress {
    /// The frame needs more bytes.
    Pending,
    /// The frame is complete; it carries the payload (empty when discarding).
    Complete(Vec<u8>),
    /// The frame is malformed or does not fit.
    Failed(FrameError),
}

/// The whole state of one frame read in flight; it can be parked between any
/// two pieces of input and resumed later.
pub struct FrameDecoder {
    mode: BodyMode,
    stage: Stage,
    digits: Vec<u8>,
    length: usize,
    received: usize,
    payload: Vec<u8>,
    consumed: Ghost<Seq<u8>>,
}

/// The first `digits.len() + 1` bytes of `c` are the length digits and `:`.
pub open spec fn has_header(c: Seq<u8>, digits: Seq<u8>) -> bool {
    &&& digits.len() < c.len()
    &&& c.take(digits.len() as int + 1) == digits.push(SEPARATOR)
}

proof fn lemma_header(c: Seq<u8>, digits: Seq<u8>)
    requires
        digits.len() <= MAX_LENGTH_DIGITS,
        forall|j: int| 0 <= j < digits.len() ==> is_digit(#[trigger] digits[j]),
        has_header(c, digits),
    ensures
        digit_run(c) == digits.len(),
        c.take(digits.len() as int) == digits,
        c[digits.len() as int] == SEPARATOR,
{
    let h = digits.len() as int;
    assert(c[h] == c.take(h + 1)[h]);
    assert forall|j: int| 0 <= j < h implies is_digit(#[trigger] c[j]) by {
        assert(c[j] == c.take(h + 1)[j]);
        assert(digits.push(SEPARATOR)[j] == digits[j]);
    }
    lemma_digit_run(c, h as nat);
    assert(c.take(h) =~= digits) by {
        assert forall|j: int| 0 <= j < h implies c.take(h)[j] == digits[j] by {
            assert(c[j] == c.take(h + 1)[j]);
            assert(digits.push(SEPARATOR)[j] == digits[j]);
        }
    }
}

/// Appends `chunk` to `buf`.
fn append_bytes(buf: &mut Vec<u8>, chunk: &[u8])
    ensures
        final(buf)@ == old(buf)@ + chunk@,
{
    let mut i: usize = 0;
    while i < chunk.len()
        invariant
            0 <= i <= chunk@.len(),
            buf@ == old(buf)@ + chunk@.take(i as int),
        decreases chunk@.len() - i,
    {
        buf.push(chunk[i]);
        proof {
            assert(chunk@.take(i + 1) =~= chunk@.take(i as int).push(chunk@[i as int]));
        }
        i = i + 1;
    }
    proof {
        assert(chunk@.take(i as int) =~= chunk@);
    }
}

impl FrameDecoder {
    /// All bytes taken in so far.
    pub closed spec fn consumed(&self) -> Seq<u8> {
        self.consumed@
    }

    /// Where the payload goes.
    pub closed spec fn mode(&self) -> BodyMode {
        self.mode
    }

    /// Whether the frame was decided (or the read abandoned).
    pub closed spec fn is_finished(&self) -> bool {
        self.stage is Finished
    }

    /// Most bytes the next piece of input may hold.
    pub closed spec fn want(&self) -> nat {
        match self.stage {
            Stage::Body => {
                let left = (self.length - self.received) as nat;
                if left < SCRATCH_LEN {
                    left
                } else {
                    SCRATCH_LEN as nat
                }
            },
            Stage::Finished => 0,
            _ => 1,
        }
    }

    /// An upper bound on the bytes still to be taken before the frame is decided.
    pub closed spec fn budget(&self) -> nat {
        match self.stage {
            Stage::Length => (MAX_LENGTH_DIGITS - self.digits@.len()) as nat + usize::MAX as nat
                + 3,
            Stage::Body => (self.length - self.received) as nat + 1,
            Stage::Terminator => 1,
            Stage::Finished => 0,
        }
    }

    /// The state agrees with the bytes consumed.
    pub closed spec fn wf(&self) -> bool {
        &&& self.digits@.len() <= MAX_LENGTH_DIGITS
        &&& forall|j: int| 0 <= j < self.digits@.len() ==> is_digit(#[trigger] self.digits@[j])
        &&& !self.is_finished() ==> frame_status(self.consumed@, self.mode) is Incomplete
        &&& match self.stage {
            Stage::Length => self.consumed@ == self.digits@,
            Stage::Body | Stage::Terminator => {
                &&& has_header(self.consumed@, self.digits@)
                &&& digits_value(self.digits@) == self.length
                &&& !too_small(self.mode, self.length as nat)
                &&& self.consumed@.len() == self.digits@.len() + 1 + self.received
                &&& (self.stage is Body ==> self.received < self.length)
                &&& (self.stage is Terminator ==> self.received == self.length)
                &&& (!(self.mode is Discarding) ==> self.payload@ == self.consumed@.skip(
                    self.digits@.len() as int + 1,
                ))
                &&& (self.mode is Discarding ==> self.payload@.len() == 0)
            },
            Stage::Finished => true,
        }
    }

    /// A decoder that is not finished has not decided its frame yet.
    pub proof fn lemma_undecided(&self)
        requires
            self.wf(),
            !self.is_finished(),
        ensures
            frame_status(self.consumed(), self.mode()) is Incomplete,
    {
    }

    /// A decoder for one frame whose payload goes where `mode` says.
    pub fn new(mode: BodyMode) -> (r: FrameDecoder)
        ensures
            r.wf(),
            r.mode() == mode,
            r.consumed() == Seq::<u8>::empty(),
            !r.is_finished(),
    {
        let r = FrameDecoder {
            mode,
            stage: Stage::Length,
            digits: Vec::new(),
            length: 0,
            received: 0,
            payload: Vec::new(),
            consumed: Ghost(Seq::empty()),
        };
        proof {
            lemma_digit_run(Seq::<u8>::empty(), 0);
        }
        r
    }

    /// A decoder that copies the payload into a buffer of `capacity` bytes.
    pub fn bounded(capacity: usize) -> (r: FrameDecoder)
        ensures
            r.wf(),
            r.mode() == BodyMode::Bounded(capacity),
            r.consumed() == Seq::<u8>::empty(),
            !r.is_finished(),
    {
        FrameDecoder::new(BodyMode::Bounded(capacity))
    }

    /// A decoder that allocates a buffer of the declared length.
    pub fn allocating() -> (r: FrameDecoder)
        ensures
            r.wf(),
            r.mode() == BodyMode::Allocating,
            r.consumed() == Seq::<u8>::empty(),
            !r.is_finished(),
    {
        FrameDecoder::new(BodyMode::Allocating)
    }

    /// A decoder that drops the payload.  A frame skipped with success leaves
    /// the stream at the start of the next frame: nothing past its `,` is read.
    pub fn discarding() -> (r: FrameDecoder)
        ensures
            r.wf(),
            r.mode() == BodyMode::Discarding,
            r.consumed() == Seq::<u8>::empty(),
            !r.is_finished(),
    {
        FrameDecoder::new(BodyMode::Discarding)
    }

    /// Whether the frame was decided.
    pub fn finished(&self) -> (r: bool)
        ensures
            r == self.is_finished(),
    {
        matches!(self.stage, Stage::Finished)
    }

    /// Most bytes the next piece of input may hold: one while reading the
    /// length, the `:` or the `,`; otherwise what is left of the payload, at
    /// most `SCRATCH_LEN`.
    pub fn wants(&self) -> (r: usize)
        requires
            self.wf(),
            !self.is_finished(),
        ensures
            r == self.want(),
            1 <= r <= SCRATCH_LEN,
    {
        match self.stage {
            Stage::Body => {
                let left = self.length - self.received;
                if left < SCRATCH_LEN {
                    left
                } else {
                    SCRATCH_LEN
                }
            },
            _ => 1,
        }
    }

    /// Takes the next piece of input.  The frame is decided exactly at the
    /// last byte of the piece, never earlier, so no byte after the frame is
    /// ever taken.
    pub fn feed(&mut self, chunk: &[u8]) -> (r: Progress)
        requires
            old(self).wf(),
            !old(self).is_finished(),
            1 <= chunk@.len() <= old(self).want(),
        ensures
            final(self).wf(),
            final(self).mode() == old(self).mode(),
            final(self).consumed() == old(self).consumed() + chunk@,
            final(self).budget() < old(self).budget(),
            !(r is Pending) ==> chunk@.len() == 1,
            match r {
                Progress::Pending => {
                    &&& !final(self).is_finished()
                    &&& frame_status(final(self).consumed(), final(self).mode()) is Incomplete
                },
                Progress::Complete(v) => {
                    &&& final(self).is_finished()
                    &&& frame_status(final(self).consumed(), final(self).mode()) is Decoded
                    &&& (!(final(self).mode() is Discarding) ==> frame_status(
                        final(self).consumed(),
                        final(self).mode(),
                    ) == Status::Decoded(v@))
                    &&& (final(self).mode() is Discarding ==> v@.len() == 0)
                },
                Progress::Failed(e) => {
                    &&& final(self).is_finished()
                    &&& frame_status(final(self).consumed(), final(self).mode())
                        == Status::Rejected(e)
                },
            },
    {
        match self.stage {
            Stage::Length => self.feed_length(chunk[0]),
            Stage::Body => {
                self.feed_body(chunk);
                Progress::Pending
            },
            _ => self.feed_terminator(chunk[0]),
        }
    }

    fn feed_length(&mut self, b: u8) -> (r: Progress)
        requires
            old(self).wf(),
            old(self).stage is Length,
        ensures
            final(self).wf(),
            final(self).mode == old(self).mode,
            final(self).consumed@ == old(self).consumed@.push(b),
            final(self).budget() < old(self).budget(),
            match r {
                Progress::Pending => {
                    &&& !final(self).is_finished()
                    &&& frame_status(final(self).consumed@, final(self).mode) is Incomplete
                },
                Progress::Complete(v) => false,
                Progress::Failed(e) => {
                    &&& final(self).is_finished()
                    &&& frame_status(final(self).consumed@, final(self).mode)
                        == Status::Rejected(e)
                },
            },
    {
        let ghost c = self.consumed@.push(b);
        let ghost mode = self.mode;
        self.consumed = Ghost(c);
        let h = self.digits.len();
        if h < MAX_LENGTH_DIGITS && DIGIT_ZERO <= b && b <= DIGIT_NINE {
            self.digits.push(b);
            proof {
                assert(self.digits@ == c);
                lemma_digit_run(c, c.len());
            }
            return Progress::Pending;
        }
        proof {
            assert(c.take(h as int) =~= self.digits@);
            assert forall|j: int| 0 <= j < h implies is_digit(#[trigger] c[j]) by {
                assert(c[j] == self.digits@[j]);
            }
            lemma_digit_run(c, h as nat);
        }
        let parsed = parse_length(self.digits.as_slice());
        let length = match parsed {
            Some(n) => n,
            None => {
                self.stage = Stage::Finished;
                return Progress::Failed(FrameError::IntegerOverflow);
            },
        };
        if b != SEPARATOR {
            self.stage = Stage::Finished;
            return Progress::Failed(FrameError::MalformedSeparator(b));
        }
        let fits = match self.mode {
            BodyMode::Bounded(cap) => length <= cap,
            _ => true,
        };
        if !fits {
            self.stage = Stage::Finished;
            return Progress::Failed(FrameError::BufferTooSmall);
        }
        self.length = length;
        self.received = 0;
        self.payload = match self.mode {
            BodyMode::Allocating => Vec::with_capacity(length),
            _ => Vec::new(),
        };
        self.stage = if length == 0 {
            Stage::Terminator
        } else {
            Stage::Body
        };
        proof {
            assert(c.take(h + 1) =~= self.digits@.push(SEPARATOR));
            assert(c.skip(h + 1) =~= Seq::<u8>::empty());
        }
        Progress::Pending
    }

    fn feed_body(&mut self, chunk: &[u8])
        requires
            old(self).wf(),
            old(self).stage is Body,
            1 <= chunk@.len() <= old(self).want(),
        ensures
            final(self).wf(),
            final(self).mode == old(self).mode,
            final(self).consumed@ == old(self).consumed@ + chunk@,
            final(self).budget() < old(self).budget(),
            !final(self).is_finished(),
    {
        let ghost c0 = self.consumed@;
        let ghost h = self.digits@.len() as int;
        let keep = match self.mode {
            BodyMode::Discarding => false,
            _ => true,
        };
        if keep {
            append_bytes(&mut self.payload, chunk);
        }
        let ghost c = c0 + chunk@;
        self.consumed = Ghost(c);
        self.received = self.received + chunk.len();
        if self.received == self.length {
            self.stage = Stage::Terminator;
        }
        proof {
            assert(c.take(h + 1) =~= c0.take(h + 1));
            assert(c.skip(h + 1) =~= c0.skip(h + 1) + chunk@);
            lemma_header(c, self.digits@);
        }
    }

    fn feed_terminator(&mut self, b: u8) -> (r: Progress)
        requires
            old(self).wf(),
            old(self).stage is Terminator,
        ensures
            final(self).wf(),
            final(self).mode == old(self).mode,
            final(self).consumed@ == old(self).consumed@.push(b),
            final(self).budget() < old(self).budget(),
            match r {
                Progress::Pending => false,
                Progress::Complete(v) => {
                    &&& final(self).is_finished()
                    &&& frame_status(final(self).consumed@, final(self).mode) is Decoded
                    &&& (!(final(self).mode is Discarding) ==> frame_status(
                        final(self).consumed@,
                        final(self).mode,
                    ) == Status::Decoded(v@))
                    &&& (final(self).mode is Discarding ==> v@.len() == 0)
                },
                Progress::Failed(e) => {
                    &&& final(self).is_finished()
                    &&& frame_status(final(self).consumed@, final(self).mode)
                        == Status::Rejected(e)
                },
            },
    {
        let ghost c0 = self.consumed@;
        let ghost c = c0.push(b);
        let ghost h = self.digits@.len() as int;
        proof {
            assert(c.take(h + 1) =~= c0.take(h + 1));
            lemma_header(c, self.digits@);
            assert(c[h + self.length + 1] == b);
            assert(c.subrange(h + 1, h + 1 + self.length) =~= c0.skip(h + 1));
        }
        self.consumed = Ghost(c);
        self.stage = Stage::Finished;
        if b != TERMINATOR {
            return Progress::Failed(FrameError::MalformedTerminator(b));
        }
        let mut payload: Vec<u8> = Vec::new();
        std::mem::swap(&mut payload, &mut self.payload);
        Progress::Complete(payload)
    }

    /// The source ended for good before the frame was decided.
    pub fn end_of_stream(&mut self) -> (r: FrameError)
        requires
            old(self).wf(),
            !old(self).is_finished(),
        ensures
            final(self).wf(),
            final(self).is_finished(),
            final(self).mode() == old(self).mode(),
            final(self).consumed() == old(self).consumed(),
            r == FrameError::UnexpectedEof,
            stream_result(final(self).consumed(), final(self).mode()) == Status::Rejected(r),
    {
        self.stage = Stage::Finished;
        FrameError::UnexpectedEof
    }

    /// The read is given up (the source failed); nothing more is taken.
    pub fn abandon(&mut self)
        requires
            old(self).wf(),
        ensures
            final(self).wf(),
            final(self).is_finished(),
            final(self).mode() == old(self).mode(),
            final(self).consumed() == old(self).consumed(),
    {
        self.stage = Stage::Finished;
    }
}

} // verus!
