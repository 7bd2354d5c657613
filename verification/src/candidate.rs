//! Candidates: the message at each flat index, and the scan of a run of
//! flat indices for one that hashes to the target.

use vstd::prelude::*;
use crate::compile::slot_sizes;
use crate::digest::{digest_matches, hash_commit, hash_matches_target, sha1_digest};
use crate::envelope::{build_commit_object, commit_object};
use crate::odometer::{
    digits,
    lemma_digits_of_flat_index,
    lemma_successor_of_digits,
    nats,
    valid_selection,
    Odometer,
};
use crate::slot::{slot_views, slots_wf, Slot};

verus! {

/// The message that a selection stands for: the selected variation of each
/// slot, one after the other.
pub open spec fn assemble(slots: Seq<Seq<Seq<u8>>>, selection: Seq<nat>) -> Seq<u8>
    decreases slots.len(),
{
    if slots.len() == 0 || selection.len() == 0 {
        Seq::empty()
    } else {
        slots[0][selection[0] as int] + assemble(slots.drop_first(), selection.drop_first())
    }
}

/// The candidate message at flat index `k`.
pub open spec fn candidate(slots: Seq<Seq<Seq<u8>>>, k: nat) -> Seq<u8> {
    assemble(slots, digits(slot_sizes(slots), k))
}

/// The digest of the commit object that carries the candidate at `k`.
pub open spec fn candidate_digest(slots: Seq<Seq<Seq<u8>>>, header: Seq<u8>, k: nat) -> Seq<u8> {
    sha1_digest(commit_object(header, candidate(slots, k)))
}

/// Whether the candidate at flat index `k` hashes to the target.
pub open spec fn is_hit(slots: Seq<Seq<Seq<u8>>>, header: Seq<u8>, target: u32, k: nat) -> bool {
    digest_matches(candidate_digest(slots, header, k), target)
}

/// The least flat index from `from` up to, not including, `to` whose
/// candidate hashes to the target.
pub open spec fn first_hit(
    slots: Seq<Seq<Seq<u8>>>,
    header: Seq<u8>,
    target: u32,
    from: nat,
    to: nat,
) -> Option<nat>
    decreases to - from,
{
    if from >= to {
        None
    } else if is_hit(slots, header, target, from) {
        Some(from)
    } else {
        first_hit(slots, header, target, from + 1, to)
    }
}

/// What `first_hit` finds is a hit in the range with no hit before it, and it
/// finds nothing only where the range holds no hit.
pub proof fn lemma_first_hit(
    slots: Seq<Seq<Seq<u8>>>,
    header: Seq<u8>,
    target: u32,
    from: nat,
    to: nat,
)
    ensures
        match first_hit(slots, header, target, from, to) {
            Some(k) => from <= k < to && is_hit(slots, header, target, k) && forall|j: nat|
                from <= j < k ==> !is_hit(slots, header, target, j),
            None => forall|j: nat| from <= j < to ==> !is_hit(slots, header, target, j),
        },
    decreases to - from,
{
    if from < to && !is_hit(slots, header, target, from) {
        lemma_first_hit(slots, header, target, from + 1, to);
    }
}

/// A search over a range is the search over its first part and, where that
/// finds nothing, the search over the rest.
pub proof fn lemma_first_hit_split(
    slots: Seq<Seq<Seq<u8>>>,
    header: Seq<u8>,
    target: u32,
    from: nat,
    mid: nat,
    to: nat,
)
    requires
        from <= mid <= to,
    ensures
        first_hit(slots, header, target, from, to) == match first_hit(
            slots,
            header,
            target,
            from,
            mid,
        ) {
            Some(k) => Some(k),
            None => first_hit(slots, header, target, mid, to),
        },
    decreases mid - from,
{
    if from < mid && !is_hit(slots, header, target, from) {
        lemma_first_hit_split(slots, header, target, from + 1, mid, to);
    }
}

/// Writes the message of a selection into `output`, whose earlier contents
/// are dropped, and returns its length.
pub fn generate_message(slots: &[Slot], indices: &[usize], output: &mut Vec<u8>) -> (len: usize)
    requires
        slots_wf(slots@),
        valid_selection(slot_sizes(slot_views(slots@)), nats(indices@)),
    ensures
        final(output)@ == assemble(slot_views(slots@), nats(indices@)),
        len == final(output)@.len(),
{
    let ghost views = slot_views(slots@);
    let ghost selection = nats(indices@);
    output.clear();
    let mut i: usize = 0;
    proof {
        assert(views.skip(0) =~= views);
        assert(selection.skip(0) =~= selection);
        assert(output@ + assemble(views, selection) =~= assemble(views, selection));
    }
    while i < slots.len()
        invariant
            i <= slots.len(),
            slots_wf(slots@),
            views == slot_views(slots@),
            selection == nats(indices@),
            valid_selection(slot_sizes(views), selection),
            assemble(views, selection) == output@ + assemble(
                views.skip(i as int),
                selection.skip(i as int),
            ),
        decreases slots.len() - i,
    {
        let ghost before = output@;
        assert(selection[i as int] < slot_sizes(views)[i as int]);
        assert(slots@[i as int].wf());
        slots[i].copy_variation(indices[i], output);
        proof {
            let rest = assemble(views.skip(i + 1), selection.skip(i + 1));
            let piece = views[i as int][selection[i as int] as int];
            assert(views.skip(i as int).drop_first() =~= views.skip(i + 1));
            assert(selection.skip(i as int).drop_first() =~= selection.skip(i + 1));
            assert(before + (piece + rest) =~= (before + piece) + rest);
        }
        i += 1;
    }
    assert(views.skip(i as int).len() == 0);
    assert(output@ + Seq::<u8>::empty() =~= output@);
    output.len()
}

/// Scans `len` candidates from the one that `odometer` stands at, in
/// flat-index order, and stops at the first that hashes to the target.
///
/// Returns the digest of that candidate, whose message is then left in
/// `message`, and how many candidates were hashed.
pub fn scan_chunk(
    slots: &[Slot],
    header: &[u8],
    target: u32,
    odometer: &mut Odometer,
    message: &mut Vec<u8>,
    envelope: &mut Vec<u8>,
    len: u64,
) -> (r: (Option<[u8; 20]>, u64))
    requires
        slots_wf(slots@),
        old(odometer).wf(),
        old(odometer).counts() == slot_sizes(slot_views(slots@)),
    ensures
        final(odometer).wf(),
        final(odometer).counts() == old(odometer).counts(),
        match first_hit(
            slot_views(slots@),
            header@,
            target,
            old(odometer).position(),
            old(odometer).position() + len as nat,
        ) {
            Some(k) => {
                &&& r.0 matches Some(digest)
                &&& digest@ == candidate_digest(slot_views(slots@), header@, k)
                &&& final(message)@ == candidate(slot_views(slots@), k)
                &&& final(envelope)@ == commit_object(header@, candidate(slot_views(slots@), k))
                &&& r.1 == k - old(odometer).position() + 1
                &&& final(odometer).selection() == digits(old(odometer).counts(), k)
            },
            None => {
                &&& r.0 is None
                &&& r.1 == len
                &&& final(odometer).selection() == digits(
                    old(odometer).counts(),
                    old(odometer).position() + len as nat,
                )
            },
        },
{
    let ghost views = slot_views(slots@);
    let ghost counts = slot_sizes(views);
    let ghost start = odometer.position();
    proof {
        lemma_digits_of_flat_index(counts, odometer.selection());
    }
    let mut done: u64 = 0;
    while done < len
        invariant
            done <= len,
            slots_wf(slots@),
            views == slot_views(slots@),
            counts == slot_sizes(views),
            counts == old(odometer).counts(),
            start == old(odometer).position(),
            odometer.wf(),
            odometer.counts() == counts,
            odometer.selection() == digits(counts, start + done as nat),
            first_hit(views, header@, target, start, start + len as nat) == first_hit(
                views,
                header@,
                target,
                start + done as nat,
                start + len as nat,
            ),
        decreases len - done,
    {
        let ghost k: nat = start + done as nat;
        generate_message(slots, odometer.indices(), message);
        build_commit_object(header, message.as_slice(), envelope);
        let digest: [u8; 20] = hash_commit(envelope.as_slice());
        if hash_matches_target(&digest, target) {
            return (Some(digest), done + 1);
        }
        odometer.advance();
        proof {
            lemma_successor_of_digits(counts, k);
        }
        done += 1;
    }
    (None, done)
}

} // verus!
