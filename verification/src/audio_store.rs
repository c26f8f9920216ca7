//! Identifiers and metadata of recorded messages, and the decisions that
//! split a channel's incoming samples into non-silent messages.

use crate::silence_gate::{mean_power_exceeds, window_after, powers, lemma_last_n_append, SilenceGate, SILENCE_SAMPLE_WINDOW};
use vstd::prelude::*;

verus! {

/// Number of samples the splitter judges at a time.
pub const SAMPLES_PER_CHUNK: usize = 10_000;

/// Identifies one recorded message.
#[derive(Hash, Debug, Clone, Copy, PartialEq, Eq, Structural)]
pub struct AudioId(pub u64);

impl AudioId {
    /// The message number this id stands for.
    pub fn value(&self) -> (v: u64)
        ensures
            v == self.0,
    {
        self.0
    }
}

/// What listeners learn of a new message: when it started, on which
/// channel, and under which id.
#[derive(Clone, Debug)]
pub struct AudioMetadata {
    timestamp: u64,
    channel: String,
    id: AudioId,
}

impl AudioMetadata {
    pub closed spec fn spec_timestamp(&self) -> u64 {
        self.timestamp
    }

    pub closed spec fn spec_channel(&self) -> Seq<char> {
        self.channel@
    }

    pub closed spec fn spec_id(&self) -> AudioId {
        self.id
    }

    /// Metadata of message `id`, started at `timestamp` (milliseconds since
    /// the epoch) on `channel`.
    pub fn new(timestamp: u64, channel: String, id: AudioId) -> (m: Self)
        ensures
            m.spec_timestamp() == timestamp,
            m.spec_channel() == channel@,
            m.spec_id() == id,
    {
        AudioMetadata { timestamp, channel, id }
    }

    pub fn timestamp(&self) -> (t: u64)
        ensures
            t == self.spec_timestamp(),
    {
        self.timestamp
    }

    pub fn channel(&self) -> (c: &str)
        ensures
            c@ == self.spec_channel(),
    {
        self.channel.as_str()
    }

    pub fn id(&self) -> (i: AudioId)
        ensures
            i == self.spec_id(),
    {
        self.id
    }
}

/// What to do with one chunk of samples.
#[derive(Clone, Copy, Debug, PartialEq, Eq, Structural)]
pub enum MessageAction {
    /// The detector is closed and no message is open: drop the chunk.
    Silent,
    /// The detector has just opened: open a new message and write the chunk
    /// to it.
    Start,
    /// The detector is still open: append the chunk to the open message.
    Append,
    /// The detector has just closed: append the chunk, then close the message.
    Finish,
}

/// The action for a chunk after which the detector is `open`, when a message was
/// open before it exactly when `recording`.
pub open spec fn action_for(open: bool, recording: bool) -> MessageAction {
    if open {
        if recording { MessageAction::Append } else { MessageAction::Start }
    } else {
        if recording { MessageAction::Finish } else { MessageAction::Silent }
    }
}

/// Whether an action writes its chunk to a message: all do but `Silent`.
pub open spec fn writes_chunk(action: MessageAction) -> bool {
    action != MessageAction::Silent
}

/// Messages never overlap: a message is started or a chunk dropped only
/// when no message is open, appended to or finished only when one is; a
/// message is open after a chunk exactly when the detector is open; and a
/// chunk is written exactly when a message is open before or after it, so
/// that a message holds the samples from the chunk that opens it through the
/// chunk that closes it.
pub proof fn lemma_actions_bracket_messages(open: bool, recording: bool)
    ensures
        writes_chunk(action_for(open, recording)) <==> (open || recording),
        (action_for(open, recording) == MessageAction::Start
            || action_for(open, recording) == MessageAction::Silent) <==> !recording,
        (action_for(open, recording) == MessageAction::Start
            || action_for(open, recording) == MessageAction::Append) <==> open,
{
}

/// One chunk `data[start..end]` and what to do with it.
#[derive(Clone, Copy, Debug, PartialEq, Eq, Structural)]
pub struct ChunkAction {
    pub start: usize,
    pub end: usize,
    pub action: MessageAction,
}

/// Number of chunks `len` samples are cut into.
pub open spec fn chunk_count(len: nat) -> nat {
    ((len + SAMPLES_PER_CHUNK - 1) / (SAMPLES_PER_CHUNK as int)) as nat
}

/// End of chunk `i` among `len` samples.
pub open spec fn chunk_end(i: int, len: int) -> int {
    if (i + 1) * SAMPLES_PER_CHUNK <= len { (i + 1) * SAMPLES_PER_CHUNK } else { len }
}

/// Whether the detector is open after hearing, from `window`, the first `k`
/// samples of `data`.
pub open spec fn open_after(window: Seq<u64>, data: Seq<i32>, k: int) -> bool {
    mean_power_exceeds(window_after(window, data.take(k)))
}

/// Whether a message is open before chunk `i` of `data`, for a splitter that
/// starts from `window`, with a message open exactly when `recording`.
pub open spec fn open_before_chunk(window: Seq<u64>, recording: bool, data: Seq<i32>, i: int) -> bool {
    if i == 0 {
        recording
    } else {
        open_after(window, data, i * SAMPLES_PER_CHUNK)
    }
}

/// The action for chunk `i` of `data`, for a splitter that starts from
/// `window`, with a message open exactly when `recording`.
pub open spec fn chunk_action(window: Seq<u64>, recording: bool, data: Seq<i32>, i: int) -> MessageAction {
    action_for(
        open_after(window, data, chunk_end(i, data.len() as int)),
        open_before_chunk(window, recording, data, i),
    )
}

/// Whether a message is open after a splitter that starts from `window`,
/// with a message open exactly when `recording`, has heard `data`.
pub open spec fn recording_after(window: Seq<u64>, recording: bool, data: Seq<i32>) -> bool {
    if data.len() == 0 {
        recording
    } else {
        mean_power_exceeds(window_after(window, data))
    }
}

/// Hearing two runs of samples one after the other leaves the detector's window
/// as hearing them at once.
pub proof fn lemma_window_after_concat(window: Seq<u64>, a: Seq<i32>, b: Seq<i32>)
    ensures
        window_after(window_after(window, a), b) == window_after(window, a + b),
{
    assert(powers(a + b) =~= powers(a) + powers(b));
    assert(window + powers(a + b) =~= (window + powers(a)) + powers(b));
    lemma_last_n_append(window + powers(a), powers(b), SILENCE_SAMPLE_WINDOW as nat);
}

/// Splits one channel's samples into messages: a message opens when the
/// silence detector opens and closes when it closes again.
pub struct MessageSplitter {
    gate: SilenceGate,
    recording: bool,
}

impl MessageSplitter {
    pub closed spec fn wf(&self) -> bool {
        self.gate.wf()
    }

    /// The powers of the most recent samples heard.
    pub closed spec fn window(&self) -> Seq<u64> {
        self.gate@
    }

    /// Whether a message is open.
    pub closed spec fn recording(&self) -> bool {
        self.recording
    }

    /// A splitter that has heard nothing and has no open message.
    pub fn new() -> (s: Self)
        ensures
            s.wf(),
            s.window() == Seq::<u64>::empty(),
            !s.recording(),
    {
        MessageSplitter { gate: SilenceGate::new(), recording: false }
    }

    /// Hears one chunk and decides what to do with it.
    pub fn on_chunk(&mut self, chunk: &[i32]) -> (action: MessageAction)
        requires
            old(self).wf(),
        ensures
            final(self).wf(),
            final(self).window() == window_after(old(self).window(), chunk@),
            final(self).recording() == mean_power_exceeds(final(self).window()),
            action == action_for(final(self).recording(), old(self).recording()),
    {
        self.gate.add_sound(chunk);
        let open = self.gate.is_open();
        let action = if open {
            if self.recording { MessageAction::Append } else { MessageAction::Start }
        } else {
            if self.recording { MessageAction::Finish } else { MessageAction::Silent }
        };
        self.recording = open;
        action
    }

    /// Hears `data`, cut into chunks of `SAMPLES_PER_CHUNK` samples (the
    /// last one shorter), and decides what to do with each chunk.
    pub fn split(&mut self, data: &[i32]) -> (actions: Vec<ChunkAction>)
        requires
            old(self).wf(),
        ensures
            final(self).wf(),
            final(self).window() == window_after(old(self).window(), data@),
            final(self).recording() == if data@.len() == 0 {
                old(self).recording()
            } else {
                mean_power_exceeds(final(self).window())
            },
            actions@.len() == chunk_count(data@.len()),
            forall|i: int|
                0 <= i < actions@.len() ==> {
                    let c = #[trigger] actions@[i];
                    &&& c.start == i * SAMPLES_PER_CHUNK
                    &&& c.end == chunk_end(i, data@.len() as int)
                    &&& c.action == action_for(
                        open_after(old(self).window(), data@, c.end as int),
                        if i == 0 {
                            old(self).recording()
                        } else {
                            open_after(old(self).window(), data@, i * SAMPLES_PER_CHUNK)
                        },
                    )
                },
            final(self).recording() == recording_after(old(self).window(), old(self).recording(), data@),
            forall|i: int|
                0 <= i < actions@.len() ==> #[trigger] actions@[i].action == chunk_action(
                    old(self).window(),
                    old(self).recording(),
                    data@,
                    i,
                ),
            forall|i: int|
                0 <= i < actions@.len() ==> (writes_chunk(#[trigger] actions@[i].action) <==> (
                open_after(old(self).window(), data@, actions@[i].end as int) || if i == 0 {
                    old(self).recording()
                } else {
                    open_after(old(self).window(), data@, i * SAMPLES_PER_CHUNK)
                })),
    {
        let mut actions: Vec<ChunkAction> = Vec::new();
        let mut start: usize = 0;
        let ghost w0 = self.window();
        let ghost r0 = self.recording();
        proof {
            self.gate.lemma_window_bounded();
            assert(powers(data@.take(0)) =~= Seq::<u64>::empty());
            assert(w0 + powers(data@.take(0)) =~= w0);
        }
        while start < data.len()
            invariant
                self.wf(),
                start <= data@.len(),
                start <= actions@.len() * SAMPLES_PER_CHUNK,
                start < data@.len() ==> start == actions@.len() * SAMPLES_PER_CHUNK,
                actions@.len() > 0 ==> (actions@.len() - 1) * SAMPLES_PER_CHUNK < data@.len(),
                self.window() == window_after(w0, data@.take(start as int)),
                self.recording() == if start == 0 { r0 } else { open_after(w0, data@, start as int) },
                forall|i: int|
                    0 <= i < actions@.len() ==> {
                        let c = #[trigger] actions@[i];
                        &&& c.start == i * SAMPLES_PER_CHUNK
                        &&& c.end == chunk_end(i, data@.len() as int)
                        &&& c.action == action_for(
                            open_after(w0, data@, c.end as int),
                            if i == 0 { r0 } else { open_after(w0, data@, i * SAMPLES_PER_CHUNK) },
                        )
                    },
            decreases data@.len() - start,
        {
            let end: usize = if data.len() - start >= SAMPLES_PER_CHUNK {
                start + SAMPLES_PER_CHUNK
            } else {
                data.len()
            };
            let chunk = slice_range(data, start, end);
            let ghost k = actions@.len() as int;
            let ghost prev_rec = self.recording();
            let action = self.on_chunk(chunk);
            proof {
                lemma_window_after_concat(w0, data@.take(start as int), chunk@);
                assert(data@.take(start as int) + chunk@ =~= data@.take(end as int));
                assert(end as int == chunk_end(k, data@.len() as int));
            }
            actions.push(ChunkAction { start, end, action });
            start = end;
        }
        proof {
            assert(data@.take(data@.len() as int) =~= data@);
            assert forall|i: int| 0 <= i < actions@.len() implies (writes_chunk(
                #[trigger] actions@[i].action,
            ) <==> (open_after(w0, data@, actions@[i].end as int) || if i == 0 {
                r0
            } else {
                open_after(w0, data@, i * SAMPLES_PER_CHUNK)
            })) by {
                lemma_actions_bracket_messages(
                    open_after(w0, data@, actions@[i].end as int),
                    if i == 0 { r0 } else { open_after(w0, data@, i * SAMPLES_PER_CHUNK) },
                );
            }
            assert(actions@.len() == chunk_count(data@.len())) by (nonlinear_arith)
                requires
                    start == data@.len(),
                    start <= actions@.len() * 10_000,
                    actions@.len() == 0 ==> start == 0,
                    actions@.len() > 0 ==> (actions@.len() - 1) * 10_000 < data@.len(),
            ;
        }
        actions
    }
}

/// After the first `k` samples of `a ++ b`, with `k` past all of `a`, the
/// detector is as after the first `k - a.len()` samples of `b` heard from
/// where `a` left it.
proof fn lemma_open_after_concat(window: Seq<u64>, a: Seq<i32>, b: Seq<i32>, k: int)
    requires
        a.len() <= k <= a.len() + b.len(),
    ensures
        open_after(window, a + b, k) == open_after(window_after(window, a), b, k - a.len()),
{
    assert((a + b).take(k) =~= a + b.take(k - a.len()));
    lemma_window_after_concat(window, a, b.take(k - a.len()));
}

/// Chunk `i` of `a ++ b`, inside `a`, is chunk `i` of `a`, with the same
/// action.
proof fn lemma_split_concat_front(window: Seq<u64>, recording: bool, a: Seq<i32>, b: Seq<i32>, chunks: nat, i: int)
    requires
        a.len() == chunks * SAMPLES_PER_CHUNK,
        0 <= i < chunks,
    ensures
        chunk_end(i, (a + b).len() as int) == chunk_end(i, a.len() as int),
        chunk_action(window, recording, a + b, i) == chunk_action(window, recording, a, i),
{
    let ab = a + b;
    assert((i + 1) * SAMPLES_PER_CHUNK <= a.len()) by (nonlinear_arith)
        requires
            a.len() == chunks * 10_000,
            i + 1 <= chunks,
    ;
    let e = chunk_end(i, a.len() as int);
    assert(ab.take(e) =~= a.take(e));
    if i > 0 {
        assert(ab.take(i * SAMPLES_PER_CHUNK) =~= a.take(i * SAMPLES_PER_CHUNK));
    }
}

/// Chunk `chunks + j` of `a ++ b` is chunk `j` of `b`, shifted, with the
/// action a splitter takes on it after hearing `a`.
proof fn lemma_split_concat_back(window: Seq<u64>, recording: bool, a: Seq<i32>, b: Seq<i32>, chunks: nat, j: int)
    requires
        a.len() == chunks * SAMPLES_PER_CHUNK,
        0 <= j,
        j * SAMPLES_PER_CHUNK < b.len(),
    ensures
        chunk_end(chunks + j, (a + b).len() as int) == a.len() + chunk_end(j, b.len() as int),
        chunk_action(window, recording, a + b, chunks + j) == chunk_action(
            window_after(window, a),
            recording_after(window, recording, a),
            b,
            j,
        ),
{
    let ab = a + b;
    let wa = window_after(window, a);
    let e = chunk_end(j, b.len() as int);
    assert(chunk_end(chunks + j, ab.len() as int) == a.len() + e);
    lemma_open_after_concat(window, a, b, a.len() + e);
    if j > 0 {
        lemma_open_after_concat(window, a, b, a.len() + j * SAMPLES_PER_CHUNK);
    } else if chunks > 0 {
        lemma_open_after_concat(window, a, b, a.len() as int);
        assert(b.take(0) =~= Seq::<i32>::empty());
        assert(wa + powers(Seq::<i32>::empty()) =~= wa);
        assert(ab.take(a.len() as int) =~= a);
        assert(a.take(a.len() as int) =~= a);
    }
}

/// Splitting `a ++ b`, where `a` is a whole number of chunks, decides what
/// splitting `a` and then `b` decides: the same chunks (those of `b` shifted
/// by `a.len()`), the same actions, and the same state afterwards.
pub proof fn lemma_split_concat(window: Seq<u64>, recording: bool, a: Seq<i32>, b: Seq<i32>, chunks: nat)
    requires
        a.len() == chunks * SAMPLES_PER_CHUNK,
    ensures
        window_after(window_after(window, a), b) == window_after(window, a + b),
        recording_after(window_after(window, a), recording_after(window, recording, a), b)
            == recording_after(window, recording, a + b),
        chunk_count(a.len()) == chunks,
        chunk_count((a + b).len()) == chunks + chunk_count(b.len()),
        forall|i: int|
            0 <= i < chunks ==> chunk_end(i, (a + b).len() as int) == chunk_end(i, a.len() as int)
                && #[trigger] chunk_action(window, recording, a + b, i) == chunk_action(
                window,
                recording,
                a,
                i,
            ),
        forall|j: int|
            0 <= j < chunk_count(b.len()) ==> chunk_end(chunks + j, (a + b).len() as int) == a.len()
                + chunk_end(j, b.len() as int) && chunk_action(window, recording, a + b, chunks + j)
                == #[trigger] chunk_action(
                window_after(window, a),
                recording_after(window, recording, a),
                b,
                j,
            ),
{
    let ab = a + b;
    lemma_window_after_concat(window, a, b);
    if b.len() == 0 {
        assert(ab =~= a);
    }
    if a.len() == 0 {
        assert(ab =~= b);
    }
    assert(chunk_count(a.len()) == chunks) by (nonlinear_arith)
        requires
            a.len() == chunks * 10_000,
    ;
    assert(chunk_count(ab.len()) == chunks + chunk_count(b.len())) by (nonlinear_arith)
        requires
            ab.len() == chunks * 10_000 + b.len(),
    ;
    assert forall|i: int| 0 <= i < chunks implies chunk_end(i, ab.len() as int) == chunk_end(i, a.len() as int)
        && #[trigger] chunk_action(window, recording, ab, i) == chunk_action(window, recording, a, i) by {
        lemma_split_concat_front(window, recording, a, b, chunks, i);
    }
    let wa = window_after(window, a);
    let ra = recording_after(window, recording, a);
    assert forall|j: int| 0 <= j < chunk_count(b.len()) implies chunk_end(chunks + j, ab.len() as int)
        == a.len() + chunk_end(j, b.len() as int) && chunk_action(window, recording, ab, chunks + j)
        == #[trigger] chunk_action(wa, ra, b, j) by {
        assert(j * SAMPLES_PER_CHUNK < b.len()) by (nonlinear_arith)
            requires
                0 <= j,
                j < (b.len() + 9_999) / 10_000,
        ;
        lemma_split_concat_back(window, recording, a, b, chunks, j);
    }
}

/// The runs of samples in `parts`, one after the other.
pub open spec fn joined(parts: Seq<Seq<i32>>) -> Seq<i32>
    decreases parts.len(),
{
    if parts.len() == 0 {
        Seq::<i32>::empty()
    } else {
        joined(parts.drop_last()) + parts.last()
    }
}

/// Where the first `i` chunks of `len` samples end.
pub open spec fn prefix_end(i: int, len: int) -> int {
    if i * SAMPLES_PER_CHUNK <= len { i * SAMPLES_PER_CHUNK } else { len }
}

/// The chunks `data` is cut into.
pub open spec fn chunks_of(data: Seq<i32>) -> Seq<Seq<i32>> {
    Seq::new(
        chunk_count(data.len()),
        |i: int| data.subrange(i * SAMPLES_PER_CHUNK, chunk_end(i, data.len() as int)),
    )
}

/// The chunks of a run of batches, batch after batch.
pub open spec fn batch_chunks(batches: Seq<Seq<i32>>) -> Seq<Seq<i32>>
    decreases batches.len(),
{
    if batches.len() == 0 {
        Seq::<Seq<i32>>::empty()
    } else {
        batch_chunks(batches.drop_last()) + chunks_of(batches.last())
    }
}

/// Whether the detector is open after hearing, from `window`, the first `j`
/// of `chunks`.
pub open spec fn open_after_chunks(window: Seq<u64>, chunks: Seq<Seq<i32>>, j: int) -> bool {
    mean_power_exceeds(window_after(window, joined(chunks.take(j))))
}

/// The action for chunk `j` of `chunks`, judged on everything heard up to
/// it: a message is open after a chunk exactly when the detector is.
pub open spec fn run_action(window: Seq<u64>, recording: bool, chunks: Seq<Seq<i32>>, j: int) -> MessageAction {
    action_for(
        open_after_chunks(window, chunks, j + 1),
        if j == 0 { recording } else { open_after_chunks(window, chunks, j) },
    )
}

/// The actions `split` decides for `data`.
pub open spec fn split_actions(window: Seq<u64>, recording: bool, data: Seq<i32>) -> Seq<MessageAction> {
    Seq::new(chunk_count(data.len()), |i: int| chunk_action(window, recording, data, i))
}

/// Whether a message is open after splitting `batches` one after the other.
pub open spec fn run_recording(window: Seq<u64>, recording: bool, batches: Seq<Seq<i32>>) -> bool
    decreases batches.len(),
{
    if batches.len() == 0 {
        recording
    } else {
        let init = batches.drop_last();
        recording_after(
            window_after(window, joined(init)),
            run_recording(window, recording, init),
            batches.last(),
        )
    }
}

/// The actions of splitting `batches` one after the other, each from the
/// state the ones before it left.
pub open spec fn run_split(window: Seq<u64>, recording: bool, batches: Seq<Seq<i32>>) -> Seq<MessageAction>
    decreases batches.len(),
{
    if batches.len() == 0 {
        Seq::<MessageAction>::empty()
    } else {
        let init = batches.drop_last();
        run_split(window, recording, init) + split_actions(
            window_after(window, joined(init)),
            run_recording(window, recording, init),
            batches.last(),
        )
    }
}

proof fn lemma_chunk_index(i: int, len: nat)
    requires
        0 <= i,
    ensures
        i < chunk_count(len) <==> i * SAMPLES_PER_CHUNK < len,
        chunk_count(len) * SAMPLES_PER_CHUNK >= len,
{
    assert(i < (len + 9_999) / 10_000 <==> i * 10_000 < len) by (nonlinear_arith)
        requires
            0 <= i,
            0 <= len,
    ;
    assert(((len + 9_999) / 10_000) * 10_000 >= len) by (nonlinear_arith)
        requires
            0 <= len,
    ;
}

proof fn lemma_joined_concat(x: Seq<Seq<i32>>, y: Seq<Seq<i32>>)
    ensures
        joined(x + y) == joined(x) + joined(y),
    decreases y.len(),
{
    if y.len() == 0 {
        assert(x + y =~= x);
        assert(joined(x) + joined(y) =~= joined(x));
    } else {
        lemma_joined_concat(x, y.drop_last());
        assert((x + y).drop_last() =~= x + y.drop_last());
        assert(joined(x + y) =~= joined(x) + joined(y));
    }
}

proof fn lemma_joined_chunks(data: Seq<i32>, i: int)
    requires
        0 <= i <= chunk_count(data.len()),
    ensures
        joined(chunks_of(data).take(i)) == data.take(prefix_end(i, data.len() as int)),
    decreases i,
{
    let cs = chunks_of(data);
    if i == 0 {
        assert(cs.take(0) =~= Seq::<Seq<i32>>::empty());
        assert(data.take(0) =~= Seq::<i32>::empty());
    } else {
        lemma_joined_chunks(data, i - 1);
        lemma_chunk_index(i - 1, data.len());
        assert(cs.take(i).drop_last() =~= cs.take(i - 1));
        assert(prefix_end(i - 1, data.len() as int) == (i - 1) * SAMPLES_PER_CHUNK);
        assert(data.take((i - 1) * SAMPLES_PER_CHUNK) + cs[i - 1] =~= data.take(
            prefix_end(i, data.len() as int),
        ));
    }
}

proof fn lemma_batch_chunks_joined(batches: Seq<Seq<i32>>)
    ensures
        joined(batch_chunks(batches)) == joined(batches),
    decreases batches.len(),
{
    if batches.len() > 0 {
        let init = batches.drop_last();
        let last = batches.last();
        lemma_batch_chunks_joined(init);
        lemma_joined_concat(batch_chunks(init), chunks_of(last));
        let n = chunk_count(last.len());
        lemma_joined_chunks(last, n as int);
        lemma_chunk_index(0, last.len());
        assert(chunks_of(last).take(n as int) =~= chunks_of(last));
        assert(last.take(prefix_end(n as int, last.len() as int)) =~= last);
    }
}

/// Splitting batches one after the other decides for each chunk, across
/// all batches, what that chunk's place in the whole run decides: the
/// action for the detector's state after everything heard up to the chunk
/// and the state before it. Where the batches break does not matter
/// beyond where chunks break.
pub proof fn lemma_run_of_batches(window: Seq<u64>, recording: bool, batches: Seq<Seq<i32>>)
    ensures
        joined(batch_chunks(batches)) == joined(batches),
        run_split(window, recording, batches).len() == batch_chunks(batches).len(),
        forall|j: int|
            0 <= j < batch_chunks(batches).len() ==> #[trigger] run_split(window, recording, batches)[j]
                == run_action(window, recording, batch_chunks(batches), j),
        run_recording(window, recording, batches) == if batch_chunks(batches).len() == 0 {
            recording
        } else {
            open_after_chunks(window, batch_chunks(batches), batch_chunks(batches).len() as int)
        },
    decreases batches.len(),
{
    lemma_batch_chunks_joined(batches);
    if batches.len() > 0 {
        let init = batches.drop_last();
        let last = batches.last();
        lemma_run_of_batches(window, recording, init);
        lemma_batch_chunks_joined(init);
        let c0 = batch_chunks(init);
        let cl = chunks_of(last);
        let cs = c0 + cl;
        assert(batch_chunks(batches) == cs);
        let k = c0.len() as int;
        let w = window_after(window, joined(init));
        let r = run_recording(window, recording, init);
        let rs = run_split(window, recording, batches);
        assert(rs == run_split(window, recording, init) + split_actions(w, r, last));
        assert forall|j: int| 0 <= j < cs.len() implies #[trigger] rs[j] == run_action(
            window,
            recording,
            cs,
            j,
        ) by {
            if j < k {
                assert(cs.take(j + 1) =~= c0.take(j + 1));
                assert(cs.take(j) =~= c0.take(j));
            } else {
                let i = j - k;
                lemma_chunk_index(i, last.len());
                let e = chunk_end(i, last.len() as int);
                assert(cs.take(j + 1) =~= c0 + cl.take(i + 1));
                lemma_joined_concat(c0, cl.take(i + 1));
                lemma_joined_chunks(last, i + 1);
                assert(prefix_end(i + 1, last.len() as int) == e);
                lemma_window_after_concat(window, joined(init), last.take(e));
                if i > 0 {
                    assert(cs.take(j) =~= c0 + cl.take(i));
                    lemma_joined_concat(c0, cl.take(i));
                    lemma_joined_chunks(last, i);
                    lemma_window_after_concat(window, joined(init), last.take(i * SAMPLES_PER_CHUNK));
                } else {
                    assert(cs.take(j) =~= c0);
                    assert(c0.take(k) =~= c0);
                }
            }
        }
        // the state after the last batch
        if last.len() == 0 {
            assert(cl =~= Seq::<Seq<i32>>::empty());
            assert(cs =~= c0);
        } else {
            lemma_chunk_index(0, last.len());
            assert(cs.take(cs.len() as int) =~= cs);
            lemma_joined_concat(c0, cl);
            lemma_window_after_concat(window, joined(init), last);
            let n = chunk_count(last.len());
            lemma_joined_chunks(last, n as int);
            assert(cl.take(n as int) =~= cl);
            assert(last.take(prefix_end(n as int, last.len() as int)) =~= last);
        }
    }
}

/// Across a run of batches, a message is opened (and announced) exactly at
/// the chunks after which the detector opens while no message was open, and
/// a chunk is written to a message exactly when the detector is open after
/// it or a message was open before it: each message holds the chunks from
/// the one that opened it through the one after which the detector closed.
pub proof fn lemma_run_action_brackets(window: Seq<u64>, recording: bool, chunks: Seq<Seq<i32>>, j: int)
    ensures
        (run_action(window, recording, chunks, j) == MessageAction::Start) <==> (open_after_chunks(
            window,
            chunks,
            j + 1,
        ) && !(if j == 0 { recording } else { open_after_chunks(window, chunks, j) })),
        writes_chunk(run_action(window, recording, chunks, j)) <==> (open_after_chunks(window, chunks, j + 1)
            || (if j == 0 { recording } else { open_after_chunks(window, chunks, j) })),
{
    lemma_actions_bracket_messages(
        open_after_chunks(window, chunks, j + 1),
        if j == 0 { recording } else { open_after_chunks(window, chunks, j) },
    );
}

/// The samples `data[start..end]`.
fn slice_range(data: &[i32], start: usize, end: usize) -> (part: &[i32])
    requires
        start <= end <= data@.len(),
    ensures
        part@ == data@.subrange(start as int, end as int),
{
    &data[start..end]
}

} // verus!
