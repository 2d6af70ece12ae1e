//! A source and a sink held in memory, with scripted delivery: the source
//! hands out its bytes in given pieces, the sink accepts at most a given
//! number of bytes per write.
use vstd::prelude::*;
use crate::decoder::{FrameDecoder, Progress};
use crate::encoder::{FrameWriter, WriteStep};
use crate::frame::{BodyMode, FrameError, Status, encode, lemma_status_stable, stream_result};
use crate::stream::{AsyncNetstringRead, AsyncNetstringWrite, FlushAttempt, ReadAttempt, WriteAttempt};

verus! {

/// A source that delivers its pieces in order.  Within a piece a read takes
/// as many bytes as asked for; between two pieces one read finds nothing
/// available yet; after the last piece the source has ended.
pub struct ChunkedSource {
    chunks: Vec<Vec<u8>>,
    index: usize,
    offset: usize,
}

impl ChunkedSource {
    /// The pieces, in order of delivery.
    pub closed spec fn chunks(&self) -> Seq<Seq<u8>> {
        self.chunks@.map_values(|c: Vec<u8>| c@)
    }

    /// Index of the piece being delivered.
    pub closed spec fn index(&self) -> nat {
        self.index as nat
    }

    /// Bytes of that piece already delivered.
    pub closed spec fn offset(&self) -> nat {
        self.offset as nat
    }

    /// The bytes not delivered yet, in order.
    pub open spec fn rest(&self) -> Seq<u8> {
        if self.index() >= self.chunks().len() {
            Seq::empty()
        } else {
            let c = self.chunks()[self.index() as int];
            let head = if self.offset() >= c.len() {
                Seq::empty()
            } else {
                c.skip(self.offset() as int)
            };
            head + self.chunks().skip(self.index() as int + 1).flatten()
        }
    }

    /// A source that will deliver `chunks`, then end.
    pub fn new(chunks: Vec<Vec<u8>>) -> (r: ChunkedSource)
        ensures
            r.chunks() == chunks@.map_values(|c: Vec<u8>| c@),
            r.index() == 0,
            r.offset() == 0,
            r.rest() == r.chunks().flatten(),
    {
        let r = ChunkedSource { chunks, index: 0, offset: 0 };
        proof {
            let cs = r.chunks();
            if cs.len() > 0 {
                assert(cs.skip(0) =~= cs);
                lemma_flatten_skip(cs, 0);
                assert(cs[0].skip(0) =~= cs[0]);
            }
        }
        r
    }

    /// Reads one frame in `mode` to its end, through every pause between
    /// pieces.  The outcome depends only on the bytes not delivered yet, not
    /// on how they are cut into pieces, and no byte after the frame is taken.
    pub fn read_frame(&mut self, mode: BodyMode) -> (r: Result<Vec<u8>, FrameError>)
        ensures
            final(self).chunks() == old(self).chunks(),
            old(self).rest().take(old(self).rest().len() - final(self).rest().len())
                + final(self).rest() == old(self).rest(),
            match r {
                Ok(v) => {
                    &&& stream_result(old(self).rest(), mode) is Decoded
                    &&& (!(mode is Discarding) ==> stream_result(old(self).rest(), mode)
                        == Status::Decoded(v@))
                    &&& (mode is Discarding ==> v@.len() == 0)
                },
                Err(e) => stream_result(old(self).rest(), mode) == Status::Rejected(e),
            },
    {
        let mut decoder = FrameDecoder::new(mode);
        let ghost s = self.rest();
        loop
            invariant
                decoder.wf(),
                !decoder.is_finished(),
                decoder.mode() == mode,
                decoder.consumed() + self.rest() == s,
                self.chunks() == old(self).chunks(),
                s == old(self).rest(),
            decreases decoder.budget(), self.chunks().len() - self.index(),
        {
            proof {
                decoder.lemma_undecided();
            }
            let ghost before = self.rest();
            let ghost c0 = decoder.consumed();
            let max = decoder.wants();
            let ghost prev = *self;
            let attempt = self.try_read(max);
            proof {
                self.lemma_rest_step(&prev, before, &attempt);
            }
            match attempt {
                ReadAttempt::Data(bytes) => {
                    let progress = decoder.feed(bytes.as_slice());
                    proof {
                        assert(decoder.consumed() + self.rest() =~= s);
                        if !(progress is Pending) {
                            lemma_status_stable(decoder.consumed(), self.rest(), mode);
                            assert(s.take(s.len() - self.rest().len()) =~= decoder.consumed());
                        }
                    }
                    match progress {
                        Progress::Pending => {},
                        Progress::Complete(v) => {
                            return Ok(v);
                        },
                        Progress::Failed(e) => {
                            return Err(e);
                        },
                    }
                },
                ReadAttempt::Pending => {},
                ReadAttempt::EndOfStream => {
                    proof {
                        assert(decoder.consumed() =~= s);
                        assert(s.take(s.len() - self.rest().len()) =~= s);
                    }
                    let e = decoder.end_of_stream();
                    return Err(e);
                },
                ReadAttempt::Failed => {
                    proof {
                        assert(false);
                    }
                    return Err(FrameError::Transport);
                },
            }
        }
    }

    proof fn lemma_rest_step(&self, prev: &ChunkedSource, before: Seq<u8>, attempt: &ReadAttempt)
        requires
            before == prev.rest(),
            self.chunks() == prev.chunks(),
            prev.index() >= prev.chunks().len() ==> attempt is EndOfStream,
            attempt is EndOfStream ==> self.index() == prev.index(),
            prev.index() < prev.chunks().len() ==> !(attempt is EndOfStream) && !(
            attempt is Failed),
            attempt is Pending ==> {
                &&& prev.offset() >= prev.chunks()[prev.index() as int].len()
                &&& self.index() == prev.index() + 1
                &&& self.offset() == 0
            },
            attempt matches ReadAttempt::Data(v) ==> {
                &&& prev.index() < prev.chunks().len()
                &&& v@ == prev.chunks()[prev.index() as int].subrange(
                    prev.offset() as int,
                    prev.offset() + v@.len() as int,
                )
                &&& self.index() == prev.index()
                &&& self.offset() == prev.offset() + v@.len()
                &&& v@.len() >= 1
                &&& prev.offset() + v@.len() <= prev.chunks()[prev.index() as int].len()
            },
        ensures
            attempt is EndOfStream ==> before == Seq::<u8>::empty() && self.rest() == before,
            attempt is Pending ==> self.rest() == before && self.index() > prev.index(),
            attempt matches ReadAttempt::Data(v) ==> before == v@ + self.rest(),
    {
        let cs = self.chunks();
        if let ReadAttempt::Data(v) = attempt {
            let c = cs[prev.index() as int];
            assert(c.skip(prev.offset() as int) =~= v@ + (if self.offset() >= c.len() {
                Seq::<u8>::empty()
            } else {
                c.skip(self.offset() as int)
            }));
        }
        if attempt is Pending {
            let i = prev.index() as int;
            if i + 1 < cs.len() {
                lemma_flatten_skip(cs, i + 1);
                let c1 = cs[i + 1];
                assert(c1.skip(0) =~= c1);
                if c1.len() == 0 {
                    assert(c1 =~= Seq::<u8>::empty());
                }
            } else {
                assert(cs.skip(i + 1) =~= Seq::<Seq<u8>>::empty());
            }
        }
    }
}

/// Flattening the pieces from `i` on is piece `i` followed by the pieces after it.
proof fn lemma_flatten_skip(cs: Seq<Seq<u8>>, i: int)
    requires
        0 <= i < cs.len(),
    ensures
        cs.skip(i).flatten() == cs[i] + cs.skip(i + 1).flatten(),
{
    assert(cs.skip(i).drop_first() =~= cs.skip(i + 1));
    assert(cs.skip(i).first() == cs[i]);
}

impl AsyncNetstringRead for ChunkedSource {
    fn try_read(&mut self, max: usize) -> (r: ReadAttempt)
        ensures
            final(self).chunks() == old(self).chunks(),
            old(self).index() >= old(self).chunks().len() ==> r is EndOfStream,
            r is EndOfStream ==> final(self).index() == old(self).index(),
            old(self).index() < old(self).chunks().len() ==> !(r is EndOfStream) && !(r is Failed),
            r is Pending ==> {
                &&& old(self).offset() >= old(self).chunks()[old(self).index() as int].len()
                &&& final(self).index() == old(self).index() + 1
                &&& final(self).offset() == 0
            },
            r matches ReadAttempt::Data(v) ==> {
                &&& old(self).index() < old(self).chunks().len()
                &&& v@ == old(self).chunks()[old(self).index() as int].subrange(
                    old(self).offset() as int,
                    old(self).offset() + v@.len() as int,
                )
                &&& final(self).index() == old(self).index()
                &&& final(self).offset() == old(self).offset() + v@.len()
                &&& v@.len() == vstd::math::min(
                    max as int,
                    old(self).chunks()[old(self).index() as int].len() - old(self).offset(),
                )
            },
    {
        if self.index >= self.chunks.len() {
            return ReadAttempt::EndOfStream;
        }
        let len = self.chunks[self.index].len();
        if self.offset >= len {
            self.index = self.index + 1;
            self.offset = 0;
            return ReadAttempt::Pending;
        }
        let left = len - self.offset;
        let take = if left < max {
            left
        } else {
            max
        };
        let mut out: Vec<u8> = Vec::new();
        let mut i: usize = 0;
        let start = self.offset;
        while i < take
            invariant
                self.index < self.chunks@.len(),
                len == self.chunks@[self.index as int]@.len(),
                start + take <= len,
                0 <= i <= take,
                out@ == self.chunks@[self.index as int]@.subrange(start as int, start + i),
            decreases take - i,
        {
            out.push(self.chunks[self.index][start + i]);
            proof {
                assert(self.chunks@[self.index as int]@.subrange(start as int, start + i + 1)
                    =~= out@);
            }
            i = i + 1;
        }
        self.offset = start + take;
        ReadAttempt::Data(out)
    }
}

/// Whether writes limited to `limits`, in order, take `need` bytes in full:
/// each write takes as much as its limit allows, and a write that takes
/// nothing of a non-empty rest rejects it.
pub open spec fn accepts_all(limits: Seq<usize>, need: nat) -> bool
    decreases limits.len(),
{
    if need == 0 {
        true
    } else if limits.len() == 0 || limits[0] == 0 {
        false
    } else {
        accepts_all(
            limits.drop_first(),
            if limits[0] >= need {
                0
            } else {
                (need - limits[0]) as nat
            },
        )
    }
}

/// A sink that keeps what it accepts.  Its `n`-th write accepts at most
/// `limits[n]` bytes; once the limits are used up it accepts none.
pub struct ChunkedSink {
    limits: Vec<usize>,
    index: usize,
    received: Vec<u8>,
    flushes: usize,
}

impl ChunkedSink {
    /// Everything accepted so far, in order.
    pub closed spec fn received(&self) -> Seq<u8> {
        self.received@
    }

    /// Most bytes accepted by each write, in order.
    pub closed spec fn limits(&self) -> Seq<usize> {
        self.limits@
    }

    /// Writes made so far.
    pub closed spec fn writes(&self) -> nat {
        self.index as nat
    }

    /// The limits of the writes still to come.
    pub open spec fn remaining_limits(&self) -> Seq<usize> {
        if self.writes() >= self.limits().len() {
            Seq::empty()
        } else {
            self.limits().skip(self.writes() as int)
        }
    }

    /// Writes `data` as one frame and flushes, however the limits split the
    /// writes.  It succeeds exactly when the remaining limits take the whole
    /// frame; the sink then holds the frame after what it held before.
    /// Otherwise the frame is rejected after a proper prefix of it.
    pub fn write_frame(&mut self, data: &[u8]) -> (r: Result<(), FrameError>)
        ensures
            r is Ok <==> accepts_all(old(self).remaining_limits(), encode(data@).len()),
            r is Ok ==> final(self).received() == old(self).received() + encode(data@),
            r matches Err(e) ==> {
                let k = final(self).received().len() - old(self).received().len();
                &&& e == FrameError::WriteRejected
                &&& 0 <= k < encode(data@).len()
                &&& final(self).received() == old(self).received() + encode(data@).take(k)
            },
    {
        let mut writer = FrameWriter::new(data);
        let ghost frame = encode(data@);
        let ghost start = self.received();
        loop
            invariant
                writer.wf(),
                writer.frame() == frame,
                !(writer.stage() is Done),
                writer.stage() is Flushing ==> writer.sent() == frame,
                self.received() == start + writer.sent(),
                self.limits() == old(self).limits(),
                accepts_all(self.remaining_limits(), (frame.len() - writer.sent().len()) as nat)
                    == accepts_all(old(self).remaining_limits(), frame.len()),
                start == old(self).received(),
                frame == encode(data@),
            decreases writer.budget(),
        {
            proof {
                writer.lemma_sent_prefix();
            }
            if writer.needs_flush() {
                let _ = self.try_flush();
                writer.finish();
                proof {
                    assert(frame.len() - writer.sent().len() == 0);
                }
                return Ok(());
            }
            let ghost lim = self.remaining_limits();
            let ghost need = (frame.len() - writer.sent().len()) as nat;
            let ghost w0 = self.writes();
            let attempt = self.try_write(writer.pending());
            let n = match attempt {
                WriteAttempt::Accepted(n) => n,
                _ => 0,
            };
            proof {
                if w0 < self.limits().len() {
                    assert(self.remaining_limits() =~= lim.drop_first()) by {
                        if w0 + 1 < self.limits().len() {
                            assert(self.limits().skip(w0 as int + 1) =~= self.limits().skip(
                                w0 as int,
                            ).drop_first());
                        } else {
                            assert(lim.drop_first() =~= Seq::<usize>::empty());
                        }
                    }
                }
                crate::encoder::lemma_partial_writes(frame, writer.sent().len() as int, n as int);
            }
            match writer.record_written(n) {
                WriteStep::Rejected(e) => {
                    return Err(e);
                },
                _ => {},
            }
        }
    }

    /// Flushes made so far (saturating).
    pub closed spec fn flushes(&self) -> nat {
        self.flushes as nat
    }

    /// A sink with the given write limits, which has accepted nothing.
    pub fn new(limits: Vec<usize>) -> (r: ChunkedSink)
        ensures
            r.received() == Seq::<u8>::empty(),
            r.limits() == limits@,
            r.writes() == 0,
            r.flushes() == 0,
    {
        ChunkedSink { limits, index: 0, received: Vec::new(), flushes: 0 }
    }

    /// Everything accepted so far, in order.
    pub fn contents(&self) -> (r: Vec<u8>)
        ensures
            r@ == self.received(),
    {
        self.received.clone()
    }

    /// How many times the sink was flushed.
    pub fn flush_count(&self) -> (r: usize)
        ensures
            r == self.flushes(),
    {
        self.flushes
    }
}

impl AsyncNetstringWrite for ChunkedSink {
    fn try_write(&mut self, bytes: &[u8]) -> (r: WriteAttempt)
        ensures
            final(self).limits() == old(self).limits(),
            final(self).flushes() == old(self).flushes(),
            old(self).writes() >= old(self).limits().len() ==> r == WriteAttempt::Accepted(0)
                && final(self).received() == old(self).received(),
            old(self).writes() < old(self).limits().len() ==> {
                let limit = old(self).limits()[old(self).writes() as int];
                let n = if limit < bytes@.len() {
                    limit as int
                } else {
                    bytes@.len() as int
                };
                &&& r == WriteAttempt::Accepted(n as usize)
                &&& final(self).writes() == old(self).writes() + 1
                &&& final(self).received() == old(self).received() + bytes@.take(n)
            },
    {
        if self.index >= self.limits.len() {
            return WriteAttempt::Accepted(0);
        }
        let limit = self.limits[self.index];
        let n = if limit < bytes.len() {
            limit
        } else {
            bytes.len()
        };
        self.index = self.index + 1;
        let mut i: usize = 0;
        let ghost before = self.received@;
        while i < n
            invariant
                n <= bytes@.len(),
                0 <= i <= n,
                self.received@ == before + bytes@.take(i as int),
                self.limits@ == old(self).limits@,
                self.flushes == old(self).flushes,
                self.index == old(self).index + 1,
            decreases n - i,
        {
            self.received.push(bytes[i]);
            proof {
                assert(bytes@.take(i + 1) =~= bytes@.take(i as int).push(bytes@[i as int]));
            }
            i = i + 1;
        }
        WriteAttempt::Accepted(n)
    }

    fn try_flush(&mut self) -> (r: FlushAttempt)
        ensures
            r == FlushAttempt::Flushed,
            final(self).received() == old(self).received(),
            final(self).limits() == old(self).limits(),
            final(self).writes() == old(self).writes(),
            old(self).flushes() < usize::MAX ==> final(self).flushes() == old(self).flushes() + 1,
    {
        if self.flushes < usize::MAX {
            self.flushes = self.flushes + 1;
        }
        FlushAttempt::Flushed
    }
}

} // verus!
