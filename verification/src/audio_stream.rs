//! Reading a live message: bytes arrive as chunks from a channel, and each
//! read copies as many of them as fit into the reader's buffer.
//!
//! The reader is driven step by step: `begin_read` starts a read, and each
//! time it asks for a chunk (`ReadStep::NeedChunk`) the caller polls the
//! channel and hands the outcome to `chunk_arrived`, until a step is `Done`.

use vstd::prelude::*;

verus! {

/// What polling the channel of chunks gave.
pub enum ChunkPoll {
    /// No chunk is available yet.
    Pending,
    /// The channel is closed: no chunk will ever come.
    Closed,
    /// The next chunk.
    Ready(Vec<u8>),
}

/// The bytes a poll outcome brings.
pub open spec fn incoming(polled: ChunkPoll) -> Seq<u8> {
    match polled {
        ChunkPoll::Ready(chunk) => chunk@,
        _ => Seq::<u8>::empty(),
    }
}

/// How a read ends.
#[derive(Clone, Copy, Debug, PartialEq, Eq, Structural)]
pub enum ReadOutcome {
    /// Nothing is available yet; the read must be retried later.
    Pending,
    /// This many bytes were written at the start of the buffer (0 at the
    /// end of the stream).
    Read(usize),
}

/// What the reader needs next.
#[derive(Clone, Copy, Debug, PartialEq, Eq, Structural)]
pub enum ReadStep {
    /// Poll the channel and pass the outcome to `chunk_arrived`.
    NeedChunk,
    /// The read is over.
    Done(ReadOutcome),
}

/// Where the reader stands.
#[derive(Clone, Copy, Debug, PartialEq, Eq, Structural)]
pub enum ReadPhase {
    /// No read is in progress.
    Idle,
    /// A read began with no chunk at hand and waits for its first chunk.
    FirstPoll,
    /// A read used up its chunk and waits for the next one.
    Refill,
}

/// The state of a reader of a live message.
pub struct LiveReader {
    current_chunk: Option<Vec<u8>>,
    current_index: usize,
    written: usize,
    phase: ReadPhase,
    received: Ghost<Seq<u8>>,
    delivered: Ghost<Seq<u8>>,
}

/// `buf` with `bytes` written at position `at`.
pub open spec fn written_at(buf: Seq<u8>, at: int, bytes: Seq<u8>) -> Seq<u8> {
    buf.take(at) + bytes + buf.skip(at + bytes.len())
}

/// The smaller of two integers.
pub open spec fn min(a: int, b: int) -> int {
    if a <= b { a } else { b }
}

impl LiveReader {
    /// The bytes received from the channel and not yet handed to a read.
    pub closed spec fn pending(&self) -> Seq<u8> {
        match self.current_chunk {
            Some(chunk) => chunk@.skip(self.current_index as int),
            None => Seq::<u8>::empty(),
        }
    }

    /// The number of bytes written into the buffer by the current (or, when
    /// idle, the last) read.
    pub closed spec fn spec_written(&self) -> nat {
        self.written as nat
    }

    pub closed spec fn phase(&self) -> ReadPhase {
        self.phase
    }

    /// Every byte taken in from the channel, in order.
    pub closed spec fn received(&self) -> Seq<u8> {
        self.received@
    }

    /// Every byte handed out to reads, in order.
    pub closed spec fn delivered(&self) -> Seq<u8> {
        self.delivered@
    }

    /// No byte is lost, duplicated or reordered: the bytes handed out,
    /// followed by those still pending, are the bytes taken in. So across
    /// all reads, the bytes handed out are always a prefix of the chunks
    /// taken in, in order, and all of them once nothing is pending (as when
    /// a read ends on a closed channel).
    pub proof fn lemma_no_byte_lost_or_reordered(&self)
        requires
            self.wf(),
        ensures
            self.delivered() + self.pending() == self.received(),
            self.delivered().len() <= self.received().len(),
            self.delivered() == self.received().take(self.delivered().len() as int),
            self.pending().len() == 0 ==> self.delivered() == self.received(),
    {
        let d = self.delivered@;
        assert((d + self.pending()).take(d.len() as int) =~= d);
        if self.pending().len() == 0 {
            assert(d + self.pending() =~= d);
        }
    }

    /// The chunk being read, if any.
    pub closed spec fn current_chunk(&self) -> Option<Seq<u8>> {
        match self.current_chunk {
            Some(chunk) => Some(chunk@),
            None => None,
        }
    }

    /// The position in the current chunk of its first byte not yet read.
    pub closed spec fn current_index(&self) -> nat {
        self.current_index as nat
    }

    /// The position in the current chunk always lies inside it (so reading
    /// on from it never goes out of bounds), and is 0 without a chunk; the
    /// pending bytes are the rest of the chunk.
    pub proof fn lemma_index_in_chunk(&self)
        requires
            self.wf(),
        ensures
            self.current_chunk() matches Some(chunk) ==> self.current_index() < chunk.len()
                && self.pending() == chunk.skip(self.current_index() as int),
            self.current_chunk() is None ==> self.current_index() == 0 && self.pending()
                == Seq::<u8>::empty(),
    {
    }

    pub closed spec fn wf(&self) -> bool {
        &&& self.delivered@ + self.pending() == self.received@
        &&& (self.current_chunk matches Some(chunk) ==> self.current_index < chunk@.len())
        &&& (self.current_chunk is None ==> self.current_index == 0)
        &&& (self.phase != ReadPhase::Idle ==> self.current_chunk is None)
        &&& (self.phase == ReadPhase::FirstPoll ==> self.written == 0)
    }

    /// A reader with nothing pending and no read in progress.
    pub fn new() -> (r: Self)
        ensures
            r.wf(),
            r.pending() == Seq::<u8>::empty(),
            r.phase() == ReadPhase::Idle,
            r.received() == Seq::<u8>::empty(),
            r.delivered() == Seq::<u8>::empty(),
    {
        let r = LiveReader {
            current_chunk: None,
            current_index: 0,
            written: 0,
            phase: ReadPhase::Idle,
            received: Ghost(Seq::empty()),
            delivered: Ghost(Seq::empty()),
        };
        assert(r.delivered@ + r.pending() =~= r.received@);
        r
    }

    /// Copies pending bytes into `buf` from position `written` on, as many
    /// as fit. Returns whether the pending bytes were all used up.
    fn copy_pending(&mut self, buf: &mut [u8]) -> (used_up: bool)
        requires
            old(self).current_chunk matches Some(chunk) && old(self).current_index < chunk@.len(),
            old(self).written <= old(buf)@.len(),
        ensures
            ({
                let p = old(self).pending();
                let w = old(self).written as int;
                let k = min(old(buf)@.len() - w, p.len() as int);
                &&& final(self).written == w + k
                &&& final(buf)@ == written_at(old(buf)@, w, p.take(k))
                &&& used_up == (k == p.len())
                &&& used_up ==> final(self).current_chunk is None && final(self).current_index == 0
                &&& !used_up ==> final(self).current_chunk is Some && final(self).pending() == p.skip(k)
                &&& final(self).phase == old(self).phase
                &&& final(self).received == old(self).received
                &&& final(self).delivered == old(self).delivered
                &&& final(self).current_chunk matches Some(chunk) ==> final(self).current_index < chunk@.len()
            }),
    {
        let ghost p = self.pending();
        let ghost w0 = self.written as int;
        let ghost b0 = buf@;
        let chunk: Vec<u8> = match self.current_chunk.take() {
            Some(c) => c,
            None => Vec::new(),
        };
        let start: usize = self.current_index;
        let mut idx: usize = start;
        let mut w: usize = self.written;
        while idx < chunk.len() && w < buf.len()
            invariant
                start <= idx <= chunk@.len(),
                w0 <= w <= buf@.len(),
                idx - start == w - w0,
                p == chunk@.skip(start as int),
                buf@.len() == b0.len(),
                buf@ == written_at(b0, w0, p.take(w - w0)),
            decreases chunk@.len() - idx,
        {
            buf[w] = chunk[idx];
            proof {
                assert(buf@ =~= written_at(b0, w0, p.take(w + 1 - w0)));
            }
            idx += 1;
            w += 1;
        }
        self.written = w;
        if idx == chunk.len() {
            self.current_index = 0;
            true
        } else {
            self.current_chunk = Some(chunk);
            self.current_index = idx;
            proof {
                assert(self.pending() =~= p.skip(w - w0));
            }
            false
        }
    }

    /// Starts a read into `buf`.
    ///
    /// With bytes pending, it copies as many as fit; when they are used up it
    /// asks for the next chunk, else the read is done. With nothing pending
    /// it asks for a chunk first.
    pub fn begin_read(&mut self, buf: &mut [u8]) -> (step: ReadStep)
        requires
            old(self).wf(),
            old(self).phase() == ReadPhase::Idle,
        ensures
            final(self).wf(),
            ({
                let p = old(self).pending();
                let k = min(old(buf)@.len() as int, p.len() as int);
                if p.len() == 0 {
                    &&& step == ReadStep::NeedChunk
                    &&& final(self).phase() == ReadPhase::FirstPoll
                    &&& final(buf)@ == old(buf)@
                    &&& final(self).pending() == p
                    &&& final(self).spec_written() == 0
                } else {
                    &&& final(self).spec_written() == k
                    &&& final(buf)@ == written_at(old(buf)@, 0, p.take(k))
                    &&& final(self).pending() == p.skip(k)
                    &&& if k == p.len() {
                        &&& step == ReadStep::NeedChunk
                        &&& final(self).phase() == ReadPhase::Refill
                    } else {
                        &&& step == ReadStep::Done(ReadOutcome::Read(k as usize))
                        &&& final(self).phase() == ReadPhase::Idle
                    }
                }
            }),
            final(buf)@.take(final(self).spec_written() as int) + final(self).pending()
                == old(self).pending(),
            final(self).received() == old(self).received(),
            final(self).delivered() == old(self).delivered() + final(buf)@.take(
                final(self).spec_written() as int,
            ),
    {
        self.written = 0;
        if self.current_chunk.is_none() {
            self.phase = ReadPhase::FirstPoll;
            assert(buf@.take(0) =~= Seq::<u8>::empty());
            assert(self.delivered@ + buf@.take(0) =~= self.delivered@);
            return ReadStep::NeedChunk;
        }
        let ghost p = self.pending();
        let used_up = self.copy_pending(buf);
        let ghost d0 = self.delivered@;
        self.delivered = Ghost(self.delivered@ + buf@.take(self.written as int));
        assert(self.delivered@ + self.pending() =~= d0 + (buf@.take(self.written as int)
            + self.pending()));
        proof {
            assert(buf@.take(self.written as int) =~= p.take(self.written as int));
            if used_up {
                assert(p.skip(p.len() as int) =~= Seq::<u8>::empty());
                assert(p.take(p.len() as int) =~= p);
            } else {
                assert(p.take(self.written as int) + p.skip(self.written as int) =~= p);
            }
        }
        if used_up {
            self.phase = ReadPhase::Refill;
            ReadStep::NeedChunk
        } else {
            self.phase = ReadPhase::Idle;
            ReadStep::Done(ReadOutcome::Read(self.written))
        }
    }

    /// Continues a read into `buf` with what polling the channel gave.
    ///
    /// A chunk is copied into the buffer after the bytes already written, as
    /// much as fits; when it is used up the reader asks for the next one.
    /// Without a chunk the read ends: `Pending` or 0 bytes when it had not
    /// got any chunk yet, else the bytes written so far.
    pub fn chunk_arrived(&mut self, buf: &mut [u8], polled: ChunkPoll) -> (step: ReadStep)
        requires
            old(self).wf(),
            old(self).phase() != ReadPhase::Idle,
            old(self).spec_written() <= old(buf)@.len(),
        ensures
            final(self).wf(),
            ({
                let w = old(self).spec_written() as int;
                match polled {
                    ChunkPoll::Ready(chunk) => {
                        let c = chunk@;
                        let k = min(old(buf)@.len() - w, c.len() as int);
                        &&& final(self).spec_written() == w + k
                        &&& final(buf)@ == written_at(old(buf)@, w, c.take(k))
                        &&& final(self).pending() == c.skip(k)
                        &&& if k == c.len() {
                            &&& step == ReadStep::NeedChunk
                            &&& final(self).phase() == ReadPhase::Refill
                        } else {
                            &&& step == ReadStep::Done(ReadOutcome::Read((w + k) as usize))
                            &&& final(self).phase() == ReadPhase::Idle
                        }
                    },
                    _ => {
                        &&& final(buf)@ == old(buf)@
                        &&& final(self).pending() == Seq::<u8>::empty()
                        &&& final(self).phase() == ReadPhase::Idle
                        &&& final(self).spec_written() == w
                        &&& step == if old(self).phase() == ReadPhase::Refill {
                            ReadStep::Done(ReadOutcome::Read(w as usize))
                        } else if polled is Pending {
                            ReadStep::Done(ReadOutcome::Pending)
                        } else {
                            ReadStep::Done(ReadOutcome::Read(0))
                        }
                    },
                }
            }),
            final(buf)@.subrange(old(self).spec_written() as int, final(self).spec_written() as int)
                + final(self).pending() == old(self).pending() + incoming(polled),
            final(self).received() == old(self).received() + incoming(polled),
            final(self).delivered() == old(self).delivered() + final(buf)@.subrange(
                old(self).spec_written() as int,
                final(self).spec_written() as int,
            ),
    {
        let ghost w = self.written as int;
        let ghost b0 = buf@;
        match polled {
            ChunkPoll::Ready(chunk) => {
                let ghost c = chunk@;
                let ghost r0 = self.received@;
                let ghost d0 = self.delivered@;
                self.received = Ghost(self.received@ + c);
                if chunk.len() == 0 {
                    assert(r0 + c =~= r0);
                    assert(d0 + b0.subrange(w, w) =~= d0);
                    proof {
                        assert(c.take(0) =~= c);
                        assert(b0 =~= written_at(b0, w, c.take(0)));
                        assert(c.skip(0) =~= c);
                        assert(b0.subrange(w, w) =~= Seq::<u8>::empty());
                    }
                    self.phase = ReadPhase::Refill;
                    return ReadStep::NeedChunk;
                }
                self.current_chunk = Some(chunk);
                self.current_index = 0;
                proof {
                    assert(self.pending() =~= c);
                }
                let used_up = self.copy_pending(buf);
                self.delivered = Ghost(self.delivered@ + buf@.subrange(w, self.written as int));
                assert(self.delivered@ + self.pending() =~= d0 + (buf@.subrange(w, self.written as int)
                    + self.pending()));
                proof {
                    let k = self.written - w;
                    assert(buf@.subrange(w, self.written as int) =~= c.take(k));
                    if used_up {
                        assert(c.skip(c.len() as int) =~= Seq::<u8>::empty());
                        assert(c.take(c.len() as int) =~= c);
                    } else {
                        assert(c.take(k) + c.skip(k) =~= c);
                    }
                }
                if used_up {
                    self.phase = ReadPhase::Refill;
                    ReadStep::NeedChunk
                } else {
                    self.phase = ReadPhase::Idle;
                    ReadStep::Done(ReadOutcome::Read(self.written))
                }
            },
            ChunkPoll::Pending => {
                let first = self.phase == ReadPhase::FirstPoll;
                self.phase = ReadPhase::Idle;
                proof {
                    assert(b0.subrange(w, w) =~= Seq::<u8>::empty());
                }
                if first {
                    ReadStep::Done(ReadOutcome::Pending)
                } else {
                    ReadStep::Done(ReadOutcome::Read(self.written))
                }
            },
            ChunkPoll::Closed => {
                self.phase = ReadPhase::Idle;
                proof {
                    assert(b0.subrange(w, w) =~= Seq::<u8>::empty());
                }
                ReadStep::Done(ReadOutcome::Read(self.written))
            },
        }
    }
}

} // verus!
