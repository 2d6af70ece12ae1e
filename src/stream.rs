//! Byte sources and sinks that answer without blocking, and the operations
//! that read or write one netstring over them, suspending whenever the source
//! or sink has nothing to offer right now and resuming with the same state.
use vstd::prelude::*;
use crate::decoder::{FrameDecoder, Progress};
use crate::encoder::{FrameWriter, WriteStep};
use crate::frame::{BodyMode, FrameError, Status, frame_status, is_decision_point};

verus! {

/// The answer of a source to one read attempt.
#[derive(Debug)]
pub enum ReadAttempt {
    /// Between one byte and the number asked for.
    Data(Vec<u8>),
    /// Nothing is available right now; the source is not at its end.
    Pending,
    /// The source has ended for good.
    EndOfStream,
    /// The source failed.
    Failed,
}

/// The answer of a sink to one write attempt.
#[derive(Debug, Clone, Copy, PartialEq, Eq, Structural)]
pub enum WriteAttempt {
    /// The sink took this many leading bytes; zero means it takes no more.
    Accepted(usize),
    /// The sink cannot take anything right now.
    Pending,
    /// The sink failed.
    Failed,
}

/// The answer of a sink to a flush attempt.
#[derive(Debug, Clone, Copy, PartialEq, Eq, Structural)]
pub enum FlushAttempt {
    Flushed,
    Pending,
    Failed,
}

/// Where a frame operation stands after one resumption.
#[derive(Debug)]
pub enum FramePoll<T> {
    /// Suspended: resume later with the same state.
    Pending,
    /// Done, with this outcome.
    Ready(Result<T, FrameError>),
}

/// A byte source from which netstrings can be read one at a time.  Reads
/// on one source must not overlap: a decoder owns the source until its frame
/// is decided.
pub trait AsyncNetstringRead {
    /// One attempt to read at most `max` bytes, without blocking.
    fn try_read(&mut self, max: usize) -> (r: ReadAttempt)
        requires
            max >= 1,
        ensures
            r matches ReadAttempt::Data(v) ==> 1 <= v@.len() <= max,
    ;

    /// Advances `decoder` with what the source has now.  Returns `Pending`
    /// when the source has nothing right now, with every byte read so far kept
    /// in `decoder`; otherwise the outcome of the frame.  No byte after the
    /// frame is read.  The payload, for a decoder that keeps it, is returned;
    /// a bounded read copies it with `copy_payload`.
    fn poll_netstring(&mut self, decoder: &mut FrameDecoder) -> (r: FramePoll<Vec<u8>>)
        requires
            old(decoder).wf(),
            !old(decoder).is_finished(),
        ensures
            final(decoder).wf(),
            final(decoder).mode() == old(decoder).mode(),
            final(decoder).consumed().len() >= old(decoder).consumed().len(),
            final(decoder).consumed().take(old(decoder).consumed().len() as int) == old(
                decoder,
            ).consumed(),
            !(frame_status(final(decoder).consumed(), final(decoder).mode()) is Incomplete)
                ==> is_decision_point(final(decoder).consumed(), final(decoder).mode()),
            match r {
                FramePoll::Pending => {
                    &&& !final(decoder).is_finished()
                    &&& frame_status(final(decoder).consumed(), final(decoder).mode()) is Incomplete
                },
                FramePoll::Ready(Ok(v)) => {
                    &&& final(decoder).is_finished()
                    &&& frame_status(final(decoder).consumed(), final(decoder).mode()) is Decoded
                    &&& (!(final(decoder).mode() is Discarding) ==> frame_status(
                        final(decoder).consumed(),
                        final(decoder).mode(),
                    ) == Status::Decoded(v@))
                    &&& (final(decoder).mode() is Discarding ==> v@.len() == 0)
                },
                FramePoll::Ready(Err(e)) => {
                    &&& final(decoder).is_finished()
                    &&& (frame_status(final(decoder).consumed(), final(decoder).mode())
                        == Status::Rejected(e) || (frame_status(
                        final(decoder).consumed(),
                        final(decoder).mode(),
                    ) is Incomplete && (e is UnexpectedEof || e is Transport)))
                },
            },
    {
        let ghost start = decoder.consumed();
        proof {
            decoder.lemma_undecided();
        }
        loop
            invariant
                decoder.wf(),
                !decoder.is_finished(),
                decoder.mode() == old(decoder).mode(),
                decoder.consumed().len() >= start.len(),
                decoder.consumed().take(start.len() as int) == start,
                start == old(decoder).consumed(),
            decreases decoder.budget(),
        {
            let ghost before = decoder.consumed();
            proof {
                decoder.lemma_undecided();
            }
            let max = decoder.wants();
            match self.try_read(max) {
                ReadAttempt::Data(bytes) => {
                    let progress = decoder.feed(bytes.as_slice());
                    proof {
                        let c = decoder.consumed();
                        assert(c.take(start.len() as int) =~= start) by {
                            assert(c.take(before.len() as int) =~= before);
                            assert forall|j: int| 0 <= j < start.len() implies c[j] == start[j] by {
                                assert(c[j] == before[j]);
                                assert(before[j] == before.take(start.len() as int)[j]);
                            }
                        }
                        if !(progress is Pending) {
                            assert(c.drop_last() =~= before);
                        }
                    }
                    match progress {
                        Progress::Pending => {},
                        Progress::Complete(v) => {
                            return FramePoll::Ready(Ok(v));
                        },
                        Progress::Failed(e) => {
                            return FramePoll::Ready(Err(e));
                        },
                    }
                },
                ReadAttempt::Pending => {
                    return FramePoll::Pending;
                },
                ReadAttempt::EndOfStream => {
                    let e = decoder.end_of_stream();
                    return FramePoll::Ready(Err(e));
                },
                ReadAttempt::Failed => {
                    decoder.abandon();
                    return FramePoll::Ready(Err(FrameError::Transport));
                },
            }
        }
    }

    /// Advances a bounded read into `buffer`, whose decoder was made with
    /// `FrameDecoder::bounded(buffer.len())`.  On success the payload stands
    /// at the front of `buffer` and its length is returned; the rest of
    /// `buffer` is left as it was.  A frame longer than `buffer` fails with
    /// `BufferTooSmall` before any payload byte is read.
    fn read_netstring(&mut self, decoder: &mut FrameDecoder, buffer: &mut [u8]) -> (r: FramePoll<
        usize,
    >)
        requires
            old(decoder).wf(),
            !old(decoder).is_finished(),
            old(decoder).mode() == BodyMode::Bounded(old(buffer)@.len() as usize),
        ensures
            final(decoder).wf(),
            final(decoder).mode() == old(decoder).mode(),
            final(decoder).consumed().len() >= old(decoder).consumed().len(),
            final(decoder).consumed().take(old(decoder).consumed().len() as int) == old(
                decoder,
            ).consumed(),
            !(frame_status(final(decoder).consumed(), final(decoder).mode()) is Incomplete)
                ==> is_decision_point(final(decoder).consumed(), final(decoder).mode()),
            final(buffer)@.len() == old(buffer)@.len(),
            match r {
                FramePoll::Pending => {
                    &&& !final(decoder).is_finished()
                    &&& frame_status(final(decoder).consumed(), final(decoder).mode()) is Incomplete
                    &&& final(buffer)@ == old(buffer)@
                },
                FramePoll::Ready(Ok(n)) => {
                    &&& final(decoder).is_finished()
                    &&& n <= old(buffer)@.len()
                    &&& frame_status(final(decoder).consumed(), final(decoder).mode())
                        == Status::Decoded(final(buffer)@.take(n as int))
                    &&& final(buffer)@.skip(n as int) == old(buffer)@.skip(n as int)
                },
                FramePoll::Ready(Err(e)) => {
                    &&& final(decoder).is_finished()
                    &&& final(buffer)@ == old(buffer)@
                    &&& (frame_status(final(decoder).consumed(), final(decoder).mode())
                        == Status::Rejected(e) || (frame_status(
                        final(decoder).consumed(),
                        final(decoder).mode(),
                    ) is Incomplete && (e is UnexpectedEof || e is Transport)))
                },
            },
    {
        match self.poll_netstring(decoder) {
            FramePoll::Pending => FramePoll::Pending,
            FramePoll::Ready(Ok(payload)) => {
                let n = copy_payload(buffer, payload.as_slice());
                FramePoll::Ready(Ok(n))
            },
            FramePoll::Ready(Err(e)) => FramePoll::Ready(Err(e)),
        }
    }
}

/// A byte sink to which netstrings can be written one at a time.
pub trait AsyncNetstringWrite {
    /// One attempt to write a leading part of `bytes`, without blocking.
    fn try_write(&mut self, bytes: &[u8]) -> (r: WriteAttempt)
        ensures
            r matches WriteAttempt::Accepted(n) ==> n <= bytes@.len(),
    ;

    /// One attempt to flush the sink, without blocking.
    fn try_flush(&mut self) -> (r: FlushAttempt);

    /// Advances `writer`: hands the sink the rest of the frame until it is all
    /// accepted, then flushes.  Returns `Pending` when the sink cannot take
    /// anything right now.  A sink that accepts zero bytes of a non-empty
    /// rest rejects the frame; a failure of the sink is reported as such.
    fn poll_write_netstring(&mut self, writer: &mut FrameWriter) -> (r: FramePoll<()>)
        requires
            old(writer).wf(),
            !(old(writer).stage() is Done),
        ensures
            final(writer).wf(),
            final(writer).frame() == old(writer).frame(),
            final(writer).sent().len() >= old(writer).sent().len(),
            final(writer).sent() == final(writer).frame().take(final(writer).sent().len() as int),
            match r {
                FramePoll::Pending => !(final(writer).stage() is Done),
                FramePoll::Ready(Ok(())) => {
                    &&& final(writer).stage() is Done
                    &&& final(writer).sent() == final(writer).frame()
                },
                FramePoll::Ready(Err(e)) => {
                    &&& final(writer).stage() is Done
                    &&& (e is WriteRejected || e is Transport)
                },
            },
    {
        let ghost start = writer.sent().len();
        proof {
            writer.lemma_sent_prefix();
        }
        loop
            invariant
                writer.wf(),
                !(writer.stage() is Done),
                writer.frame() == old(writer).frame(),
                writer.sent().len() >= start,
                start == old(writer).sent().len(),
                writer.sent() == writer.frame().take(writer.sent().len() as int),
            decreases writer.budget(),
        {
            proof {
                writer.lemma_sent_prefix();
            }
            if writer.needs_flush() {
                match self.try_flush() {
                    FlushAttempt::Flushed => {
                        writer.finish();
                        return FramePoll::Ready(Ok(()));
                    },
                    FlushAttempt::Pending => {
                        return FramePoll::Pending;
                    },
                    FlushAttempt::Failed => {
                        writer.finish();
                        return FramePoll::Ready(Err(FrameError::Transport));
                    },
                }
            }
            let attempt = self.try_write(writer.pending());
            match attempt {
                WriteAttempt::Accepted(n) => {
                    match writer.record_written(n) {
                        WriteStep::Rejected(e) => {
                            return FramePoll::Ready(Err(e));
                        },
                        _ => {},
                    }
                    proof {
                        writer.lemma_sent_prefix();
                    }
                },
                WriteAttempt::Pending => {
                    return FramePoll::Pending;
                },
                WriteAttempt::Failed => {
                    writer.finish();
                    return FramePoll::Ready(Err(FrameError::Transport));
                },
            }
        }
    }
}

/// Copies a payload into the front of a caller buffer and returns its
/// length; the rest of the buffer is left as it was.
pub fn copy_payload(dest: &mut [u8], payload: &[u8]) -> (r: usize)
    requires
        payload@.len() <= old(dest)@.len(),
    ensures
        r == payload@.len(),
        final(dest)@.len() == old(dest)@.len(),
        final(dest)@.take(r as int) == payload@,
        final(dest)@.skip(r as int) == old(dest)@.skip(r as int),
{
    let mut i: usize = 0;
    while i < payload.len()
        invariant
            0 <= i <= payload@.len(),
            payload@.len() <= old(dest)@.len(),
            dest@.len() == old(dest)@.len(),
            forall|j: int| 0 <= j < i ==> dest@[j] == payload@[j],
            forall|j: int| i <= j < dest@.len() ==> dest@[j] == old(dest)@[j],
        decreases payload@.len() - i,
    {
        dest[i] = payload[i];
        i = i + 1;
    }
    proof {
        assert(dest@.take(i as int) =~= payload@);
        assert(dest@.skip(i as int) =~= old(dest)@.skip(i as int));
    }
    i
}

} // verus!
