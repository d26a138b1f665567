//! The reader session: the bytes read so far, the records decoded from them,
//! and the batches in which they reach the store.
//!
//! The caller opens the file, reads it chunk by chunk, sleeps when nothing
//! came, and holds the store's write handle while a batch is applied. This
//! module decides everything else.

use std::collections::VecDeque;
use vstd::prelude::*;
use crate::decode::{decode, parse_row, Decoded};
use crate::reconstruct::{process, ReaderState};
use crate::replay::{Replay, StateModel};
use crate::row::{rows_view, RowModel, TraceRow};
use crate::store::SpanStore;
use crate::wire::WireError;

verus! {

/// The largest number of records that are applied while the store's write
/// handle is held once.
pub const MAX_ROWS_PER_LOCK: usize = 100 * 1024;

/// The number of bytes to ask the file for in one read.
pub const READ_CHUNK_SIZE: usize = 1024 * 1024;

/// How long to wait, in milliseconds, after a read that brought nothing.
pub const POLL_INTERVAL_MS: u64 = 100;

/// How long to wait, in milliseconds, before the file is opened again.
pub const REOPEN_INTERVAL_MS: u64 = 500;

/// How decoding ended.
#[derive(Debug, Clone, Copy, PartialEq, Eq, Structural)]
pub enum Outcome {
    /// The bytes end inside a record, or at the end of one: wait for more.
    NeedMore,
    /// The bytes could not be a record and were dropped, to the end of the
    /// buffer: report it once, and wait for more.
    Skipped,
    /// The bytes could not be a record, and neither could the bytes before
    /// them: the file is not what it was. The session is over and the store
    /// has to be reset.
    Abort,
}

/// What the caller does after a read.
#[derive(Debug, Clone, Copy, PartialEq, Eq, Structural)]
pub enum Action {
    /// Read on.
    Read,
    /// Nothing came: wait this many milliseconds, then read on.
    Wait(u64),
    /// The file is not what it was: reset the store, give the reader up and
    /// open the file again.
    Reset,
}

/// What a read led to: how decoding ended, and what the caller does next,
/// once it has applied the records that wait.
#[derive(Debug, Clone, Copy, PartialEq, Eq, Structural)]
pub struct Step {
    pub outcome: Outcome,
    pub action: Action,
}

/// What a [`TraceReader`] holds.
pub struct ReaderModel {
    /// The bytes that were read and not yet decoded.
    pub unread: Seq<u8>,
    /// The records that were decoded and not yet applied, oldest first.
    pub pending: Seq<RowModel>,
    /// The state of the reconstruction.
    pub state: StateModel,
    /// Whether bytes were dropped as malformed and no record was decoded
    /// since.
    pub skipped: bool,
}

impl ReaderModel {
    /// A session that has read nothing.
    pub open spec fn fresh() -> ReaderModel {
        ReaderModel {
            unread: Seq::empty(),
            pending: Seq::empty(),
            state: StateModel::empty(),
            skipped: false,
        }
    }

    /// The session after `chunk` was read.
    pub open spec fn append(self, chunk: Seq<u8>) -> ReaderModel {
        ReaderModel { unread: self.unread + chunk, ..self }
    }

    /// The session after every complete record at the front of the unread
    /// bytes was decoded, and how decoding ended.
    ///
    /// Bytes that cannot be a record are dropped together with all that
    /// follow them, once; if the next attempt meets such bytes again before
    /// any record, the session is over.
    pub open spec fn decode_all(self) -> (ReaderModel, Outcome)
        decreases self.unread.len(),
    {
        match parse_row(self.unread) {
            Ok((row, rest)) => if rest.len() < self.unread.len() {
                (ReaderModel {
                    unread: rest,
                    pending: self.pending.push(row),
                    skipped: false,
                    ..self
                }).decode_all()
            } else {
                (self, Outcome::NeedMore)
            },
            Err(WireError::UnexpectedEnd) => (self, Outcome::NeedMore),
            Err(WireError::Malformed) => if self.skipped {
                (self, Outcome::Abort)
            } else {
                (ReaderModel { unread: Seq::empty(), skipped: true, ..self }, Outcome::Skipped)
            },
        }
    }

    /// The session after `chunk` was read and decoded, and how decoding
    /// ended.
    pub open spec fn feed(self, chunk: Seq<u8>) -> (ReaderModel, Outcome) {
        self.append(chunk).decode_all()
    }

    /// The session after a read that brought `chunk`, and what it led to.
    ///
    /// A read that brought nothing changes nothing, and the caller waits. Any
    /// other is decoded, and the caller reads on, unless the bytes stopped
    /// making sense for the second time.
    pub open spec fn on_read(self, chunk: Seq<u8>) -> (ReaderModel, Step) {
        if chunk.len() == 0 {
            (self, Step { outcome: Outcome::NeedMore, action: Action::Wait(POLL_INTERVAL_MS) })
        } else {
            (
                self.feed(chunk).0,
                Step {
                    outcome: self.feed(chunk).1,
                    action: if self.feed(chunk).1 == Outcome::Abort {
                        Action::Reset
                    } else {
                        Action::Read
                    },
                },
            )
        }
    }

    /// The number of records that the next batch applies.
    pub open spec fn batch_len(self) -> nat {
        if self.pending.len() <= MAX_ROWS_PER_LOCK {
            self.pending.len()
        } else {
            MAX_ROWS_PER_LOCK as nat
        }
    }
}

/// Calls `Vec::capacity`.
///
/// Claimed, as the standard library documents it: the capacity is at least
/// the length. What it is beyond that is the allocator's business.
#[verifier::external_body]
fn capacity_of(buffer: &Vec<u8>) -> (capacity: usize)
    ensures
        capacity >= buffer@.len(),
{
    buffer.capacity()
}

/// Calls `Vec::drain` on the first `count` bytes and drops what it hands
/// back.
///
/// Claimed, as the standard library documents it: the first `count` bytes
/// are gone and the others have moved to the front, in order.
#[verifier::external_body]
fn drop_front(buffer: &mut Vec<u8>, count: usize)
    requires
        count <= old(buffer)@.len(),
    ensures
        final(buffer)@ == old(buffer)@.skip(count as int),
{
    buffer.drain(..count);
}

/// One session of reading a trace file, from the moment the file was opened.
pub struct TraceReader {
    buffer: Vec<u8>,
    index: usize,
    state: ReaderState,
    pending: VecDeque<TraceRow>,
    skipped: bool,
}

impl View for TraceReader {
    type V = ReaderModel;

    closed spec fn view(&self) -> ReaderModel {
        ReaderModel {
            unread: self.buffer@.skip(self.index as int),
            pending: rows_view(self.pending@),
            state: self.state@,
            skipped: self.skipped,
        }
    }
}

impl TraceReader {
    /// The read position lies inside the buffer, and the state of the
    /// reconstruction is consistent.
    pub closed spec fn inv(&self) -> bool {
        &&& self.index <= self.buffer@.len()
        &&& self.state.inv()
    }

    /// A session that has read nothing.
    pub fn new() -> (reader: TraceReader)
        ensures
            reader.inv(),
            reader@ == ReaderModel::fresh(),
    {
        let reader = TraceReader {
            buffer: Vec::new(),
            index: 0,
            state: ReaderState::new(),
            pending: VecDeque::new(),
            skipped: false,
        };
        assert(reader@.unread =~= Seq::empty());
        assert(reader@.pending =~= Seq::empty());
        reader
    }

    /// Takes in the bytes of one read.
    ///
    /// When part of the buffer has been decoded and the new bytes would not
    /// fit its capacity, the decoded part is dropped first, so that the
    /// buffer grows no larger than the longest undecoded tail asks for.
    pub fn append(&mut self, chunk: &[u8])
        requires
            old(self).inv(),
        ensures
            final(self).inv(),
            final(self)@ == old(self)@.append(chunk@),
    {
        if self.index > 0 && chunk.len() > capacity_of(&self.buffer) - self.buffer.len() {
            drop_front(&mut self.buffer, self.index);
            self.index = 0;
        }
        let ghost before = self.buffer@;
        self.buffer.extend_from_slice(chunk);
        proof {
            assert(self.buffer@ =~= before + chunk@);
            assert(self@.unread =~= old(self)@.unread + chunk@);
        }
    }

    /// Decodes every complete record at the front of the unread bytes and
    /// keeps the records for the next batches.
    pub fn decode_pending(&mut self) -> (outcome: Outcome)
        requires
            old(self).inv(),
        ensures
            final(self).inv(),
            (final(self)@, outcome) == old(self)@.decode_all(),
            final(self)@.state == old(self)@.state,
    {
        loop
            invariant
                self.inv(),
                self@.decode_all() == old(self)@.decode_all(),
                self@.state == old(self)@.state,
            decreases self.buffer@.len() - self.index,
        {
            let ghost here = self@;
            match decode(self.buffer.as_slice(), self.index) {
                Decoded::Record(row, next) => {
                    proof {
                        assert(rows_view(self.pending@.push(row)) =~= here.pending.push(row@));
                    }
                    self.pending.push_back(row);
                    self.index = next;
                    self.skipped = false;
                },
                Decoded::NeedMore => {
                    return Outcome::NeedMore;
                },
                Decoded::MalformedAt(_) => {
                    if self.skipped {
                        return Outcome::Abort;
                    }
                    self.index = self.buffer.len();
                    self.skipped = true;
                    assert(self@.unread =~= Seq::empty());
                    return Outcome::Skipped;
                },
            }
        }
    }

    /// Takes in the bytes of one read and decodes what is complete.
    pub fn feed(&mut self, chunk: &[u8]) -> (outcome: Outcome)
        requires
            old(self).inv(),
        ensures
            final(self).inv(),
            (final(self)@, outcome) == old(self)@.feed(chunk@),
            final(self)@.state == old(self)@.state,
    {
        self.append(chunk);
        self.decode_pending()
    }

    /// Takes in what a read brought and says what the caller does next.
    pub fn on_read(&mut self, chunk: &[u8]) -> (step: Step)
        requires
            old(self).inv(),
        ensures
            final(self).inv(),
            (final(self)@, step) == old(self)@.on_read(chunk@),
            final(self)@.state == old(self)@.state,
    {
        if chunk.len() == 0 {
            return Step { outcome: Outcome::NeedMore, action: Action::Wait(POLL_INTERVAL_MS) };
        }
        let outcome = self.feed(chunk);
        let action = match outcome {
            Outcome::Abort => Action::Reset,
            _ => Action::Read,
        };
        Step { outcome, action }
    }

    /// Whether records wait to be applied.
    pub fn has_pending(&self) -> (pending: bool)
        ensures
            pending == (self@.pending.len() > 0),
    {
        self.pending.len() > 0
    }

    /// Applies the next batch: at most [`MAX_ROWS_PER_LOCK`] of the waiting
    /// records, oldest first, and then the recomputation of the aggregates
    /// that they made stale. The caller holds the store's write handle for
    /// the whole call, so that no viewer sees part of a batch.
    pub fn apply_batch(&mut self, store: &mut SpanStore) -> (applied: usize)
        requires
            old(self).inv(),
            Replay::of(old(store)@, old(self)@.state).wf(),
        ensures
            final(self).inv(),
            applied == old(self)@.batch_len(),
            Replay::of(final(store)@, final(self)@.state) == Replay::of(
                old(store)@,
                old(self)@.state,
            ).process_all(old(self)@.pending.take(applied as int)).settle(),
            Replay::of(final(store)@, final(self)@.state).wf(),
            final(self)@.state.outdated_spans.is_empty(),
            Replay::of(old(store)@, old(self)@.state).tracks_staleness()
                ==> final(store)@.all_fresh(),
            final(self)@.pending == old(self)@.pending.skip(applied as int),
            final(self)@.unread == old(self)@.unread,
            final(self)@.skipped == old(self)@.skipped,
            old(store)@.kept_by(final(store)@),
    {
        let ghost start = Replay::of(store@, self@.state);
        let ghost waiting = self@.pending;
        let mut applied: usize = 0;
        assert(waiting.take(0) =~= Seq::empty());
        assert(waiting.skip(0) =~= waiting);
        while applied < MAX_ROWS_PER_LOCK && self.pending.len() > 0
            invariant
                self.inv(),
                self.buffer == old(self).buffer,
                self.index == old(self).index,
                self.skipped == old(self).skipped,
                applied <= MAX_ROWS_PER_LOCK,
                applied <= waiting.len(),
                rows_view(self.pending@) == waiting.skip(applied as int),
                Replay::of(store@, self.state@) == start.process_all(waiting.take(applied as int)),
                Replay::of(store@, self.state@).wf(),
                start.tracks_staleness() ==> Replay::of(store@, self.state@).tracks_staleness(),
                start.store.kept_by(store@),
            decreases self.pending@.len(),
        {
            let ghost ahead = self.pending@;
            assert(rows_view(ahead).len() == ahead.len());
            if let Some(row) = self.pending.pop_front() {
                proof {
                    assert(row == ahead[0]);
                    assert(rows_view(ahead)[0] == waiting.skip(applied as int)[0]);
                    assert(row@ == waiting[applied as int]);
                    assert(waiting.take(applied + 1).drop_last() =~= waiting.take(applied as int));
                    assert(self.pending@ =~= ahead.skip(1));
                    assert forall|k: int| 0 <= k < self.pending@.len() implies rows_view(
                        self.pending@,
                    )[k] == waiting.skip(applied + 1)[k] by {
                        assert(rows_view(ahead)[k + 1] == waiting.skip(applied as int)[k + 1]);
                    }
                    assert(rows_view(self.pending@) =~= waiting.skip(applied + 1));
                }
                let ghost here = Replay::of(store@, self.state@);
                process(store, &mut self.state, row);
                proof {
                    if here.tracks_staleness() {
                        here.lemma_run_tracks(seq![row@]);
                    }
                }
                applied += 1;
            }
        }
        proof {
            let done = Replay::of(store@, self.state@);
            if done.tracks_staleness() {
                done.lemma_settle_is_fresh();
            }
        }
        self.state.drain_outdated(store);
        applied
    }

    /// Gives the reader up after a failed read or an [`Outcome::Abort`]: the
    /// store is reset, and what the reader knew is gone with it.
    pub fn abandon(self, store: &mut SpanStore)
        requires
            old(store)@.generation < u64::MAX,
        ensures
            final(store)@ == old(store)@.reset(),
            Replay::of(final(store)@, StateModel::empty()).wf(),
    {
        store.reset();
    }
}

} // verus!
