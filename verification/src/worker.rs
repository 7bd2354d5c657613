//! One worker of a search, as a state machine: it decides, its driver reads
//! the shared flag for it and does what each step asks for.
//!
//! With `T` workers, worker `t` owns the chunks that start at
//! `(t + j * T) * CHUNK_SIZE` for `j = 0, 1, ..`. Before each chunk it is
//! told whether another worker has found a match; after each chunk it
//! publishes how many candidates it hashed.

use vstd::prelude::*;
use crate::candidate::{candidate, candidate_digest, first_hit, lemma_first_hit, scan_chunk};
use crate::compile::{slot_counts, slot_sizes, space_size, total_variations};
use crate::expand::capped;
use crate::odometer::{digits, lemma_flat_index_of_digits, product, Odometer};
use crate::slot::{append_bytes, slot_views, slots_wf, Slot};

verus! {

/// How many flat indices one chunk holds.
pub const CHUNK_SIZE: u64 = 1_000_000;

/// Where a worker stands.
#[derive(Debug, Clone, Copy, PartialEq, Eq, Structural)]
pub enum Phase {
    /// About to start the chunk at its offset, unless it is told to stop.
    Seeking,
    /// Positioned at the start of its chunk, about to scan it.
    Scanning,
    /// Done with a chunk, about to publish how many candidates it hashed.
    Reporting,
    /// Finished: out of chunks, stopped, or done reporting a match.
    Done,
}

/// A candidate that hashes to the target.
#[derive(Debug, PartialEq, Eq)]
pub struct Hit {
    /// The candidate message.
    pub message: Vec<u8>,
    /// The digest of its commit object.
    pub digest: [u8; 20],
}

/// What the driver of a worker does after a step.
#[derive(Debug, PartialEq, Eq)]
pub enum Action {
    /// Nothing; step again.
    Continue,
    /// A candidate matched: raise the shared flag and, where no other worker
    /// raised it before, keep this result.
    Matched(Hit),
    /// Add this many attempts to the shared counter.
    Publish(u64),
    /// The worker has finished.
    Halt,
}

/// The mathematical value of a [`Worker`]: what it searches, which chunks
/// are its own, and where it stands.
pub struct WorkerView {
    pub slots: Seq<Seq<Seq<u8>>>,
    pub header: Seq<u8>,
    pub target: u32,
    pub thread_id: nat,
    pub num_threads: nat,
    /// The number of candidates, or `u128::MAX` where there are more.
    pub limit: nat,
    pub phase: Phase,
    /// The flat index at which the current chunk starts.
    pub offset: nat,
    /// How many candidates of the chunk last scanned were hashed.
    pub scanned: nat,
    /// Whether the chunk last scanned ended in a match.
    pub hit: bool,
}

/// The number of candidates that a search over `slots` can tell apart.
pub open spec fn search_limit(slots: Seq<Seq<Seq<u8>>>) -> nat {
    capped(space_size(slots), u128::MAX as nat)
}

/// Where chunk number `round` of worker `thread_id` starts: the workers take
/// the chunks of the flat index space in turn.
pub open spec fn chunk_start(thread_id: nat, round: nat, num_threads: nat) -> nat {
    (thread_id + round * num_threads) * CHUNK_SIZE as nat
}

/// From one chunk of a worker to its next it is `num_threads` chunks.
pub proof fn lemma_chunk_stride(thread_id: nat, round: nat, num_threads: nat)
    ensures
        chunk_start(thread_id, round + 1, num_threads) == chunk_start(
            thread_id,
            round,
            num_threads,
        ) + num_threads * CHUNK_SIZE as nat,
{
    assert((thread_id + (round + 1) * num_threads) * 1_000_000 == (thread_id + round
        * num_threads) * 1_000_000 + num_threads * 1_000_000) by (nonlinear_arith);
}

/// Where the chunk that starts at `offset` ends: after `CHUNK_SIZE` indices,
/// or at `limit` where that comes first.
pub open spec fn chunk_end(offset: nat, limit: nat) -> nat {
    if offset + CHUNK_SIZE <= limit {
        offset + CHUNK_SIZE as nat
    } else {
        limit
    }
}

/// Whether a chunk can start at `offset`: it lies inside the space and is a
/// position that the odometer can seek to.
pub open spec fn has_chunk(offset: nat, limit: nat) -> bool {
    offset < limit && offset <= u64::MAX
}

/// The state of a worker after a step. `stop` is the shared flag as the
/// driver read it before the step.
pub open spec fn stepped(w: WorkerView, stop: bool) -> WorkerView {
    match w.phase {
        Phase::Seeking => if stop {
            WorkerView { phase: Phase::Done, ..w }
        } else {
            WorkerView { phase: Phase::Scanning, ..w }
        },
        Phase::Scanning => {
            let end = chunk_end(w.offset, w.limit);
            match first_hit(w.slots, w.header, w.target, w.offset, end) {
                Some(k) => WorkerView {
                    phase: Phase::Reporting,
                    scanned: (k - w.offset + 1) as nat,
                    hit: true,
                    ..w
                },
                None => WorkerView {
                    phase: Phase::Reporting,
                    scanned: (end - w.offset) as nat,
                    hit: false,
                    ..w
                },
            }
        },
        Phase::Reporting => {
            let next = w.offset + w.num_threads * CHUNK_SIZE as nat;
            if w.hit || !has_chunk(next, w.limit) {
                WorkerView { phase: Phase::Done, ..w }
            } else {
                WorkerView { phase: Phase::Seeking, offset: next, ..w }
            }
        },
        Phase::Done => w,
    }
}

/// A worker never leaves its own chunks: after a step it is at the chunk it
/// was at or, where it has moved on, at its next one.
pub proof fn lemma_step_keeps_to_own_chunks(w: WorkerView, stop: bool, round: nat)
    requires
        w.offset == chunk_start(w.thread_id, round, w.num_threads),
    ensures
        stepped(w, stop).thread_id == w.thread_id,
        stepped(w, stop).num_threads == w.num_threads,
        stepped(w, stop).offset == chunk_start(w.thread_id, round, w.num_threads) || (w.phase
            == Phase::Reporting && stepped(w, stop).phase == Phase::Seeking && stepped(
            w,
            stop,
        ).offset == chunk_start(w.thread_id, round + 1, w.num_threads)),
{
    lemma_chunk_stride(w.thread_id, round, w.num_threads);
}

/// What a worker hashes in one scan lies in the chunk that it is at.
pub proof fn lemma_scan_stays_in_chunk(w: WorkerView, round: nat, k: nat)
    requires
        w.phase == Phase::Scanning,
        w.offset == chunk_start(w.thread_id, round, w.num_threads),
        has_chunk(w.offset, w.limit),
        w.offset <= k < w.offset + stepped(w, false).scanned,
    ensures
        in_chunk(k, w.thread_id, round, w.num_threads),
        k < w.limit,
{
    lemma_first_hit(w.slots, w.header, w.target, w.offset, chunk_end(w.offset, w.limit));
}

/// Whether `action` is what a step from `w` asks of the driver.
pub open spec fn asked(w: WorkerView, stop: bool, action: Action) -> bool {
    match w.phase {
        Phase::Seeking => if stop {
            action is Halt
        } else {
            action is Continue
        },
        Phase::Scanning => match first_hit(
            w.slots,
            w.header,
            w.target,
            w.offset,
            chunk_end(w.offset, w.limit),
        ) {
            Some(k) => action matches Action::Matched(found) && found.message@ == candidate(
                w.slots,
                k,
            ) && found.digest@ == candidate_digest(w.slots, w.header, k),
            None => action is Continue,
        },
        Phase::Reporting => action matches Action::Publish(n) && n == w.scanned,
        Phase::Done => action is Halt,
    }
}

/// One worker of a search: it owns every `num_threads`-th chunk of the flat
/// index space, and its own odometer and buffers.
pub struct Worker<'a> {
    slots: &'a [Slot],
    header: &'a [u8],
    target: u32,
    thread_id: usize,
    num_threads: usize,
    limit: u128,
    phase: Phase,
    offset: u128,
    scanned: u64,
    hit: bool,
    odometer: Odometer,
    message: Vec<u8>,
    envelope: Vec<u8>,
}

impl<'a> View for Worker<'a> {
    type V = WorkerView;

    closed spec fn view(&self) -> WorkerView {
        WorkerView {
            slots: slot_views(self.slots@),
            header: self.header@,
            target: self.target,
            thread_id: self.thread_id as nat,
            num_threads: self.num_threads as nat,
            limit: self.limit as nat,
            phase: self.phase,
            offset: self.offset as nat,
            scanned: self.scanned as nat,
            hit: self.hit,
        }
    }
}

impl<'a> Worker<'a> {
    /// The worker's parts fit together: the odometer counts over the slots,
    /// an unfinished worker has a chunk, and a worker about to scan stands at
    /// the start of its chunk.
    pub closed spec fn wf(&self) -> bool {
        &&& slots_wf(self.slots@)
        &&& self.odometer.wf()
        &&& self.odometer.counts() == slot_sizes(slot_views(self.slots@))
        &&& self.limit == search_limit(slot_views(self.slots@))
        &&& self.thread_id < self.num_threads
        &&& self.scanned <= CHUNK_SIZE
        &&& self.phase != Phase::Done ==> has_chunk(self.offset as nat, self.limit as nat)
        &&& self.phase == Phase::Scanning ==> self.odometer.selection() == digits(
            self.odometer.counts(),
            self.offset as nat,
        )
    }

    /// Worker `thread_id` of `num_threads`, before its first chunk.
    pub fn new(
        slots: &'a [Slot],
        header: &'a [u8],
        target: u32,
        thread_id: usize,
        num_threads: usize,
    ) -> (worker: Worker<'a>)
        requires
            slots_wf(slots@),
            thread_id < num_threads,
        ensures
            worker.wf(),
            worker@.slots == slot_views(slots@),
            worker@.header == header@,
            worker@.target == target,
            worker@.thread_id == thread_id,
            worker@.num_threads == num_threads,
            worker@.limit == search_limit(slot_views(slots@)),
            worker@.offset == chunk_start(thread_id as nat, 0, num_threads as nat),
            worker@.phase == if has_chunk(worker@.offset, worker@.limit) {
                Phase::Seeking
            } else {
                Phase::Done
            },
            worker@.scanned == 0,
            !worker@.hit,
    {
        let counts: Vec<usize> = slot_counts(slots);
        let odometer = Odometer::new(counts);
        let limit: u128 = total_variations(slots);
        let first: u128 = thread_id as u128 * CHUNK_SIZE as u128;
        let phase = if first < limit && first <= u64::MAX as u128 {
            Phase::Seeking
        } else {
            Phase::Done
        };
        proof {
            assert(chunk_start(thread_id as nat, 0, num_threads as nat) == first) by (nonlinear_arith)
                requires
                    first == thread_id * CHUNK_SIZE,
                    chunk_start(thread_id as nat, 0, num_threads as nat) == (thread_id + 0
                        * num_threads) * CHUNK_SIZE,
            ;
        }
        Worker {
            slots,
            header,
            target,
            thread_id,
            num_threads,
            limit,
            phase,
            offset: first,
            scanned: 0,
            hit: false,
            odometer,
            message: Vec::new(),
            envelope: Vec::new(),
        }
    }

    /// Where the worker stands.
    pub fn phase(&self) -> (phase: Phase)
        ensures
            phase == self@.phase,
    {
        self.phase
    }

    /// Takes one step. `stop` is the shared flag as the driver read it just
    /// before; only a worker about to start a chunk looks at it.
    pub fn step(&mut self, stop: bool) -> (action: Action)
        requires
            old(self).wf(),
        ensures
            final(self).wf(),
            final(self)@ == stepped(old(self)@, stop),
            asked(old(self)@, stop, action),
    {
        match self.phase {
            Phase::Seeking => {
                if stop {
                    self.phase = Phase::Done;
                    Action::Halt
                } else {
                    self.odometer.set_position(self.offset as u64);
                    self.phase = Phase::Scanning;
                    Action::Continue
                }
            },
            Phase::Scanning => {
                let end: u128 = if self.offset + CHUNK_SIZE as u128 <= self.limit {
                    self.offset + CHUNK_SIZE as u128
                } else {
                    self.limit
                };
                let len: u64 = (end - self.offset) as u64;
                proof {
                    let counts = self.odometer.counts();
                    lemma_flat_index_of_digits(counts, self.offset as nat);
                    vstd::arithmetic::div_mod::lemma_small_mod(self.offset as nat, product(counts));
                    assert(self.odometer.position() == self.offset);
                    lemma_first_hit(
                        slot_views(self.slots@),
                        self.header@,
                        self.target,
                        self.offset as nat,
                        end as nat,
                    );
                }
                let (digest, scanned) = scan_chunk(
                    self.slots,
                    self.header,
                    self.target,
                    &mut self.odometer,
                    &mut self.message,
                    &mut self.envelope,
                    len,
                );
                self.scanned = scanned;
                self.phase = Phase::Reporting;
                match digest {
                    Some(digest) => {
                        self.hit = true;
                        let mut message: Vec<u8> = Vec::new();
                        append_bytes(&mut message, self.message.as_slice());
                        assert(message@ =~= self.message@);
                        Action::Matched(Hit { message, digest })
                    },
                    None => {
                        self.hit = false;
                        Action::Continue
                    },
                }
            },
            Phase::Reporting => {
                let scanned: u64 = self.scanned;
                let next: u128 = self.offset + self.num_threads as u128 * CHUNK_SIZE as u128;
                assert(next == self.offset + self.num_threads * CHUNK_SIZE);
                if self.hit || !(next < self.limit && next <= u64::MAX as u128) {
                    self.phase = Phase::Done;
                } else {
                    self.phase = Phase::Seeking;
                    self.offset = next;
                }
                Action::Publish(scanned)
            },
            Phase::Done => Action::Halt,
        }
    }
}

/// Whether flat index `k` lies in chunk number `round` of worker
/// `thread_id`.
pub open spec fn in_chunk(k: nat, thread_id: nat, round: nat, num_threads: nat) -> bool {
    chunk_start(thread_id, round, num_threads) <= k < chunk_start(thread_id, round, num_threads)
        + CHUNK_SIZE
}

/// The chunks of the workers tile the flat index space: every index lies in
/// exactly one chunk, that of worker `(k div CHUNK_SIZE) mod num_threads` in
/// round `(k div CHUNK_SIZE) div num_threads`.
pub proof fn lemma_chunks_partition(k: nat, num_threads: nat)
    requires
        num_threads > 0,
    ensures
        (k / CHUNK_SIZE as nat) % num_threads < num_threads,
        in_chunk(
            k,
            (k / CHUNK_SIZE as nat) % num_threads,
            (k / CHUNK_SIZE as nat) / num_threads,
            num_threads,
        ),
        forall|thread_id: nat, round: nat|
            thread_id < num_threads && in_chunk(k, thread_id, round, num_threads) ==> thread_id
                == (k / CHUNK_SIZE as nat) % num_threads && round == (k / CHUNK_SIZE as nat)
                / num_threads,
{
    let chunk: nat = k / CHUNK_SIZE as nat;
    vstd::arithmetic::div_mod::lemma_fundamental_div_mod(chunk as int, num_threads as int);
    vstd::arithmetic::div_mod::lemma_mod_bound(chunk as int, num_threads as int);
    let owner = chunk % num_threads;
    let turn = chunk / num_threads;
    assert(owner + turn * num_threads == chunk) by (nonlinear_arith)
        requires
            chunk == num_threads * turn + owner,
    ;
    assert forall|thread_id: nat, round: nat|
        thread_id < num_threads && in_chunk(k, thread_id, round, num_threads) implies thread_id
        == owner && round == turn by {
        let index = thread_id + round * num_threads;
        assert(index * CHUNK_SIZE as nat <= k < index * CHUNK_SIZE as nat + CHUNK_SIZE);
        assert(index == chunk);
        vstd::arithmetic::div_mod::lemma_fundamental_div_mod_converse(
            chunk as int,
            num_threads as int,
            round as int,
            thread_id as int,
        );
    }
}

} // verus!
