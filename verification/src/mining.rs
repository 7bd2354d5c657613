//! The search as a whole: what a worker finds when it runs undisturbed, and
//! the search of the whole space by a single worker.

use vstd::prelude::*;
use crate::candidate::{
    candidate,
    candidate_digest,
    first_hit,
    is_hit,
    lemma_first_hit,
    lemma_first_hit_split,
};
use crate::digest::{hash_to_hex, hex};
use crate::expand::capped;
use crate::slot::{slot_views, slots_wf, Slot};
use crate::worker::{
    asked,
    chunk_end,
    chunk_start,
    has_chunk,
    search_limit,
    stepped,
    Action,
    Hit,
    Phase,
    Worker,
    CHUNK_SIZE,
};

verus! {

/// How many attempts lie between two progress reports.
pub const PROGRESS_INTERVAL: u64 = 100_000_000;

/// What a worker finds when no other worker stops it, from the chunk at
/// `offset` on: the flat index of its match, if it has one, and how many
/// candidates it hashes. `stride` is the distance between two of its chunks.
pub open spec fn run_from(
    slots: Seq<Seq<Seq<u8>>>,
    header: Seq<u8>,
    target: u32,
    offset: nat,
    stride: nat,
    limit: nat,
) -> (Option<nat>, nat)
    decreases
        if offset < limit {
            limit - offset
        } else {
            0
        },
{
    if !has_chunk(offset, limit) || stride == 0 {
        (None, 0)
    } else {
        let end = chunk_end(offset, limit);
        match first_hit(slots, header, target, offset, end) {
            Some(k) => (Some(k), (k - offset + 1) as nat),
            None => {
                let rest = run_from(slots, header, target, offset + stride, stride, limit);
                (rest.0, (end - offset) as nat + rest.1)
            },
        }
    }
}

/// What one worker found and how many candidates it hashed.
#[derive(Debug, PartialEq, Eq)]
pub struct ThreadOutcome {
    pub found: Option<Hit>,
    pub attempts: u64,
}

/// Whether `outcome` reports the run `expected`: the candidate at the index
/// of the match with its digest, and the attempts, held at `u64::MAX` where
/// they are more.
pub open spec fn reports(
    slots: Seq<Seq<Seq<u8>>>,
    header: Seq<u8>,
    expected: (Option<nat>, nat),
    outcome: ThreadOutcome,
) -> bool {
    &&& outcome.attempts == capped(expected.1, u64::MAX as nat)
    &&& match expected.0 {
        Some(k) => outcome.found matches Some(hit) && hit.message@ == candidate(slots, k)
            && hit.digest@ == candidate_digest(slots, header, k),
        None => outcome.found is None,
    }
}

/// Runs worker `thread_id` of `num_threads` until it has a match or is out
/// of chunks, with no other worker to stop it.
pub fn mine_thread(
    slots: &[Slot],
    header: &[u8],
    target: u32,
    thread_id: usize,
    num_threads: usize,
) -> (outcome: ThreadOutcome)
    requires
        slots_wf(slots@),
        thread_id < num_threads,
    ensures
        reports(
            slot_views(slots@),
            header@,
            run_from(
                slot_views(slots@),
                header@,
                target,
                chunk_start(thread_id as nat, 0, num_threads as nat),
                num_threads as nat * CHUNK_SIZE as nat,
                search_limit(slot_views(slots@)),
            ),
            outcome,
        ),
{
    let ghost views = slot_views(slots@);
    let ghost limit = search_limit(views);
    let ghost stride: nat = num_threads as nat * CHUNK_SIZE as nat;
    let ghost first = chunk_start(thread_id as nat, 0, num_threads as nat);
    let ghost whole = run_from(views, header@, target, first, stride, limit);
    let ghost mut spent: nat = 0;
    let mut worker = Worker::new(slots, header, target, thread_id, num_threads);
    let mut found: Option<Hit> = None;
    let mut attempts: u64 = 0;
    assert(stride > 0) by (nonlinear_arith)
        requires
            stride == num_threads as nat * CHUNK_SIZE as nat,
            num_threads > 0,
    ;
    loop
        invariant
            worker.wf(),
            worker@.slots == views,
            worker@.header == header@,
            worker@.target == target,
            worker@.num_threads == num_threads,
            worker@.limit == limit,
            views == slot_views(slots@),
            limit == search_limit(views),
            first == chunk_start(thread_id as nat, 0, num_threads as nat),
            stride == num_threads as nat * CHUNK_SIZE as nat,
            stride > 0,
            whole == run_from(views, header@, target, first, stride, limit),
            worker@.phase == Phase::Seeking || worker@.phase == Phase::Done,
            worker@.phase == Phase::Seeking ==> has_chunk(worker@.offset, limit),
            attempts == capped(spent, u64::MAX as nat),
            match found {
                Some(hit) => {
                    &&& worker@.phase == Phase::Done
                    &&& whole.1 == spent
                    &&& whole.0 matches Some(k)
                    &&& hit.message@ == candidate(views, k)
                    &&& hit.digest@ == candidate_digest(views, header@, k)
                },
                None => if worker@.phase == Phase::Seeking {
                    let rest = run_from(views, header@, target, worker@.offset, stride, limit);
                    whole == (rest.0, spent + rest.1)
                } else {
                    whole == (None::<nat>, spent)
                },
            },
        decreases
            if worker@.phase == Phase::Done {
                0
            } else {
                limit - worker@.offset + 1
            },
    {
        match worker.phase() {
            Phase::Done => {
                return ThreadOutcome { found, attempts };
            },
            _ => {},
        }
        let ghost at = worker@.offset;
        let ghost end = chunk_end(at, limit);
        let ghost seeking = worker@;
        let _ = worker.step(false);
        let ghost scanning = worker@;
        let scan: Action = worker.step(false);
        let ghost reporting = worker@;
        let report: Action = worker.step(false);
        proof {
            lemma_first_hit(views, header@, target, at, end);
            assert(found is None);
            assert(scanning == stepped(seeking, false));
            assert(scanning.phase == Phase::Scanning && scanning.offset == at);
            assert(reporting == stepped(scanning, false));
            assert(reporting.phase == Phase::Reporting && reporting.offset == at);
            assert(worker@ == stepped(reporting, false));
            assert(asked(scanning, false, scan));
            assert(asked(reporting, false, report));
            let here = run_from(views, header@, target, at, stride, limit);
            let rest = run_from(views, header@, target, at + stride, stride, limit);
            assert(here == match first_hit(views, header@, target, at, end) {
                Some(k) => (Some(k), (k - at + 1) as nat),
                None => (rest.0, (end - at) as nat + rest.1),
            });
        }
        match scan {
            Action::Matched(hit) => {
                found = Some(hit);
            },
            _ => {},
        }
        match report {
            Action::Publish(n) => {
                attempts = attempts.saturating_add(n);
                proof {
                    spent = spent + n as nat;
                }
            },
            _ => {},
        }
    }
}

/// What a worker keeps of its match once it has raised the shared flag:
/// the match where the flag was not yet set, nothing where another worker
/// had set it before.
pub fn keep_first(already_set: bool, hit: Hit) -> (kept: Option<Hit>)
    ensures
        kept == if already_set {
            None
        } else {
            Some(hit)
        },
{
    if already_set {
        None
    } else {
        Some(hit)
    }
}

/// Whether the worker with this id reports progress once the shared counter
/// stands at `total`: the first worker does, each time the counter has just
/// passed a multiple of `PROGRESS_INTERVAL`.
pub fn progress_due(thread_id: usize, total: u64) -> (due: bool)
    ensures
        due == (thread_id == 0 && total % PROGRESS_INTERVAL < CHUNK_SIZE),
{
    thread_id == 0 && total % PROGRESS_INTERVAL < CHUNK_SIZE
}

/// A worker hashes no more candidates than lie between its first chunk and
/// the end of the space, whatever the number of workers: chunks are cut off
/// at the end of the space and never overlap.
pub proof fn lemma_attempts_within_space(
    slots: Seq<Seq<Seq<u8>>>,
    header: Seq<u8>,
    target: u32,
    offset: nat,
    stride: nat,
    limit: nat,
)
    requires
        stride >= CHUNK_SIZE,
    ensures
        offset < limit ==> run_from(slots, header, target, offset, stride, limit).1 <= limit
            - offset,
        offset >= limit ==> run_from(slots, header, target, offset, stride, limit).1 == 0,
    decreases
        if offset < limit {
            limit - offset
        } else {
            0
        },
{
    if has_chunk(offset, limit) {
        let end = chunk_end(offset, limit);
        lemma_first_hit(slots, header, target, offset, end);
        if first_hit(slots, header, target, offset, end) is None {
            lemma_attempts_within_space(slots, header, target, offset + stride, stride, limit);
        }
    }
}

/// A match that a worker finds is a candidate of the space that hashes to
/// the target.
pub proof fn lemma_run_finds_hit(
    slots: Seq<Seq<Seq<u8>>>,
    header: Seq<u8>,
    target: u32,
    offset: nat,
    stride: nat,
    limit: nat,
)
    ensures
        run_from(slots, header, target, offset, stride, limit).0 matches Some(k) ==> offset <= k
            < limit && is_hit(slots, header, target, k),
    decreases
        if offset < limit {
            limit - offset
        } else {
            0
        },
{
    if has_chunk(offset, limit) && stride > 0 {
        let end = chunk_end(offset, limit);
        lemma_first_hit(slots, header, target, offset, end);
        if first_hit(slots, header, target, offset, end) is None {
            lemma_run_finds_hit(slots, header, target, offset + stride, stride, limit);
        }
    }
}

/// A worker that finds nothing finds nothing from any of its chunks on.
pub proof fn lemma_run_reaches_round(
    slots: Seq<Seq<Seq<u8>>>,
    header: Seq<u8>,
    target: u32,
    thread_id: nat,
    num_threads: nat,
    limit: nat,
    round: nat,
)
    requires
        num_threads > 0,
        has_chunk(chunk_start(thread_id, round, num_threads), limit),
        run_from(
            slots,
            header,
            target,
            chunk_start(thread_id, 0, num_threads),
            num_threads * CHUNK_SIZE as nat,
            limit,
        ).0 is None,
    ensures
        run_from(
            slots,
            header,
            target,
            chunk_start(thread_id, round, num_threads),
            num_threads * CHUNK_SIZE as nat,
            limit,
        ).0 is None,
    decreases round,
{
    if round > 0 {
        let before = (round - 1) as nat;
        crate::worker::lemma_chunk_stride(thread_id, before, num_threads);
        lemma_run_reaches_round(slots, header, target, thread_id, num_threads, limit, before);
        assert(num_threads * CHUNK_SIZE as nat > 0) by (nonlinear_arith)
            requires
                num_threads > 0,
        ;
    }
}

/// Where every worker of a search finds nothing, no candidate that a worker
/// can reach hashes to the target: between them the workers try them all.
pub proof fn lemma_exhaustion_is_complete(
    slots: Seq<Seq<Seq<u8>>>,
    header: Seq<u8>,
    target: u32,
    num_threads: nat,
    limit: nat,
    k: nat,
)
    requires
        num_threads > 0,
        k < limit,
        k <= u64::MAX,
        forall|thread_id: nat|
            thread_id < num_threads ==> (#[trigger] run_from(
                slots,
                header,
                target,
                chunk_start(thread_id, 0, num_threads),
                num_threads * CHUNK_SIZE as nat,
                limit,
            )).0 is None,
    ensures
        !is_hit(slots, header, target, k),
{
    let owner = (k / CHUNK_SIZE as nat) % num_threads;
    let round = (k / CHUNK_SIZE as nat) / num_threads;
    let start = chunk_start(owner, round, num_threads);
    let stride = num_threads * CHUNK_SIZE as nat;
    crate::worker::lemma_chunks_partition(k, num_threads);
    assert(run_from(slots, header, target, chunk_start(owner, 0, num_threads), stride, limit).0
        is None);
    lemma_run_reaches_round(slots, header, target, owner, num_threads, limit, round);
    assert(stride > 0) by (nonlinear_arith)
        requires
            stride == num_threads * CHUNK_SIZE as nat,
            num_threads > 0,
    ;
    lemma_first_hit(slots, header, target, start, chunk_end(start, limit));
}

/// The first multiple of `CHUNK_SIZE` above `u64::MAX`: a single worker
/// starts no chunk from there on.
pub open spec fn sweep_reach() -> nat {
    18_446_744_073_710_000_000
}

/// How far a single worker gets through a space of `limit` candidates.
pub open spec fn swept(limit: nat) -> nat {
    if limit < sweep_reach() {
        limit
    } else {
        sweep_reach()
    }
}

/// What a search finds between two flat indices: the first match and the
/// attempts up to it, or no match and one attempt per index.
pub open spec fn sweep_between(
    slots: Seq<Seq<Seq<u8>>>,
    header: Seq<u8>,
    target: u32,
    from: nat,
    to: nat,
) -> (Option<nat>, nat) {
    if from >= to {
        (None, 0)
    } else {
        match first_hit(slots, header, target, from, to) {
            Some(k) => (Some(k), (k - from + 1) as nat),
            None => (None, (to - from) as nat),
        }
    }
}

/// A single worker, whose chunks lie end to end, searches the flat indices
/// in order: from chunk number `round` on it finds what a search from the
/// start of that chunk to the end of its reach finds.
pub proof fn lemma_single_worker_run(
    slots: Seq<Seq<Seq<u8>>>,
    header: Seq<u8>,
    target: u32,
    limit: nat,
    round: nat,
)
    ensures
        run_from(slots, header, target, round * CHUNK_SIZE as nat, CHUNK_SIZE as nat, limit)
            == sweep_between(slots, header, target, round * CHUNK_SIZE as nat, swept(limit)),
    decreases
        if round * CHUNK_SIZE < limit {
            limit - round * CHUNK_SIZE
        } else {
            0
        },
{
    let from: nat = round * CHUNK_SIZE as nat;
    let to = swept(limit);
    if has_chunk(from, limit) {
        let end = chunk_end(from, limit);
        assert(end <= to);
        assert((round + 1) * CHUNK_SIZE as nat == from + CHUNK_SIZE);
        lemma_first_hit_split(slots, header, target, from, end, to);
        lemma_first_hit(slots, header, target, from, end);
        lemma_first_hit(slots, header, target, end, to);
        if first_hit(slots, header, target, from, end) is None {
            lemma_single_worker_run(slots, header, target, limit, round + 1);
            if end < from + CHUNK_SIZE {
                assert(to == limit);
                assert(first_hit(slots, header, target, end, to) is None);
            }
        }
    } else {
        assert(from >= to);
    }
}

/// The result of a search that found a match.
#[derive(Debug, PartialEq, Eq)]
pub struct MiningResult {
    /// The winning candidate message.
    pub message: Vec<u8>,
    /// The digest of its commit object, in lower-case hexadecimal.
    pub hash: String,
    /// How many candidates were hashed, the winning one included.
    pub attempts: u64,
}

/// How a search ended.
#[derive(Debug, PartialEq, Eq)]
pub enum MiningOutcome {
    /// A candidate hashes to the target.
    Found(MiningResult),
    /// No candidate within reach hashes to the target.
    Exhausted {
        /// How many candidates were hashed.
        attempts: u64,
    },
}

/// Whether `outcome` is what a single worker reports for this search: the
/// first candidate in flat-index order that hashes to the target, or
/// exhaustion where there is none within its reach.
pub open spec fn mined(
    slots: Seq<Seq<Seq<u8>>>,
    header: Seq<u8>,
    target: u32,
    outcome: MiningOutcome,
) -> bool {
    let to = swept(search_limit(slots));
    match first_hit(slots, header, target, 0, to) {
        Some(k) => {
            &&& outcome matches MiningOutcome::Found(result)
            &&& result.message@ == candidate(slots, k)
            &&& result.hash@ == hex(candidate_digest(slots, header, k))
            &&& result.attempts == capped(k + 1, u64::MAX as nat)
        },
        None => {
            &&& outcome matches MiningOutcome::Exhausted { attempts }
            &&& attempts == capped(to, u64::MAX as nat)
        },
    }
}

/// Searches the whole space with a single worker.
pub fn mine_vanity_hash(slots: &[Slot], header: &[u8], target: u32) -> (outcome: MiningOutcome)
    requires
        slots_wf(slots@),
    ensures
        mined(slot_views(slots@), header@, target, outcome),
{
    proof {
        let views = slot_views(slots@);
        lemma_single_worker_run(views, header@, target, search_limit(views), 0);
        lemma_first_hit(views, header@, target, 0, swept(search_limit(views)));
        assert(chunk_start(0, 0, 1) == 0);
        assert(1nat * CHUNK_SIZE as nat == CHUNK_SIZE as nat);
        assert(0nat * CHUNK_SIZE as nat == 0);
    }
    let run: ThreadOutcome = mine_thread(slots, header, target, 0, 1);
    match run.found {
        Some(hit) => {
            let hash: String = hash_to_hex(&hit.digest);
            MiningOutcome::Found(
                MiningResult { message: hit.message, hash, attempts: run.attempts },
            )
        },
        None => MiningOutcome::Exhausted { attempts: run.attempts },
    }
}

/// Two runs of a single worker on the same search report the same thing.
pub proof fn lemma_mining_is_deterministic(
    slots: Seq<Seq<Seq<u8>>>,
    header: Seq<u8>,
    target: u32,
    first: MiningOutcome,
    second: MiningOutcome,
)
    requires
        mined(slots, header, target, first),
        mined(slots, header, target, second),
    ensures
        first is Found <==> second is Found,
        first matches MiningOutcome::Found(a) ==> second matches MiningOutcome::Found(b)
            && a.message@ == b.message@ && a.hash@ == b.hash@ && a.attempts == b.attempts,
        first matches MiningOutcome::Exhausted { attempts: a } ==> second
            matches MiningOutcome::Exhausted { attempts: b } && a == b,
{
}

/// A match that a single worker reports does hash to the target, and no
/// candidate before it does; where it reports exhaustion, no candidate within
/// its reach does.
pub proof fn lemma_mined_is_first(
    slots: Seq<Seq<Seq<u8>>>,
    header: Seq<u8>,
    target: u32,
    outcome: MiningOutcome,
)
    requires
        mined(slots, header, target, outcome),
    ensures
        outcome matches MiningOutcome::Found(result) ==> exists|k: nat|
            {
                &&& k < swept(search_limit(slots))
                &&& #[trigger] is_hit(slots, header, target, k)
                &&& result.message@ == candidate(slots, k)
                &&& forall|j: nat| j < k ==> !is_hit(slots, header, target, j)
            },
        outcome is Exhausted ==> forall|k: nat|
            k < swept(search_limit(slots)) ==> !is_hit(slots, header, target, k),
{
    lemma_first_hit(slots, header, target, 0, swept(search_limit(slots)));
}

} // verus!
