//! The slot compiler: cuts a parsed template into runs of nodes and packs
//! what each run expands to into a slot.

use vstd::prelude::*;
use vstd::slice::slice_subrange;
use vstd::string::StringSliceAdditionalSpecFns;
use crate::expand::{
    capped,
    count_variations,
    expand_to_strings,
    expansions,
    lemma_models_subrange,
    variation_count,
};
use crate::odometer::{nats, positive, product};
use crate::slot::{rows, slot_views, slots_wf, Slot};
use crate::template::{models, parse_template, template_trees, Node, ParseError, Tree};

verus! {

/// A run of nodes is extended only while it expands to at most this many
/// variations.
pub const MAX_VARIATIONS_PER_SLOT: usize = 8192;

/// The smallest number of candidates that a template must describe: two to
/// the power of `MIN_ENTROPY_BITS`.
pub const MIN_VARIATIONS: u128 = 137_438_953_472;

/// The number of bits of entropy that a template must have.
pub const MIN_ENTROPY_BITS: u32 = 37;

/// Where the run that starts at `start` and holds the nodes before `end`
/// stops growing: it takes one more node as long as there is one and the
/// longer run stays within the cap.
pub open spec fn slot_end(nodes: Seq<Tree>, start: int, end: int) -> int
    decreases nodes.len() - end,
{
    if 0 <= start <= end < nodes.len() && variation_count(nodes.subrange(start, end + 1))
        <= MAX_VARIATIONS_PER_SLOT {
        slot_end(nodes, start, end + 1)
    } else {
        end
    }
}

/// The end of the slot that starts at `start`. Its first node is taken
/// whatever it expands to.
pub open spec fn slot_boundary(nodes: Seq<Tree>, start: int) -> int {
    slot_end(nodes, start, start + 1)
}

/// The slot that a run of nodes makes: its expansions, or nothing where it
/// has none.
pub open spec fn slot_of(run: Seq<Tree>) -> Seq<Seq<Seq<u8>>> {
    let variations = expansions(run);
    if variations.len() == 0 {
        Seq::empty()
    } else {
        seq![variations]
    }
}

/// The slots of the nodes from `start` on.
///
/// The comparison of the boundary with `start` never fails (see
/// [`lemma_slot_end`]); it lets the definition be seen to terminate.
pub open spec fn slots_from(nodes: Seq<Tree>, start: int) -> Seq<Seq<Seq<u8>>>
    decreases nodes.len() - start,
{
    if start < 0 || start >= nodes.len() {
        Seq::empty()
    } else {
        let end = slot_boundary(nodes, start);
        if start < end <= nodes.len() {
            slot_of(nodes.subrange(start, end)) + slots_from(nodes, end)
        } else {
            Seq::empty()
        }
    }
}

/// The slots of a whole template.
pub open spec fn compiled(nodes: Seq<Tree>) -> Seq<Seq<Seq<u8>>> {
    slots_from(nodes, 0)
}

/// How many variations each slot holds.
pub open spec fn slot_sizes(slots: Seq<Seq<Seq<u8>>>) -> Seq<nat> {
    Seq::new(slots.len(), |i: int| slots[i].len())
}

/// How many candidates a slot sequence describes.
pub open spec fn space_size(slots: Seq<Seq<Seq<u8>>>) -> nat {
    product(slot_sizes(slots))
}

/// The run stops inside the input, every extension it made stayed within the
/// cap, and the next one, if there is a next node, would not.
pub proof fn lemma_slot_end(nodes: Seq<Tree>, start: int, end: int)
    requires
        0 <= start <= end <= nodes.len(),
    ensures
        end <= slot_end(nodes, start, end) <= nodes.len(),
        forall|m: int|
            end <= m < slot_end(nodes, start, end) ==> #[trigger] variation_count(
                nodes.subrange(start, m + 1),
            ) <= MAX_VARIATIONS_PER_SLOT,
        slot_end(nodes, start, end) < nodes.len() ==> variation_count(
            nodes.subrange(start, slot_end(nodes, start, end) + 1),
        ) > MAX_VARIATIONS_PER_SLOT,
    decreases nodes.len() - end,
{
    if end < nodes.len() && variation_count(nodes.subrange(start, end + 1))
        <= MAX_VARIATIONS_PER_SLOT {
        lemma_slot_end(nodes, start, end + 1);
    }
}

/// The end of the slot that starts at node `start`: the run grows one node
/// at a time while it expands to at most `MAX_VARIATIONS_PER_SLOT`
/// variations.
#[verifier::loop_isolation(false)]
pub fn find_slot_boundary(nodes: &[Node], start: usize) -> (end: usize)
    requires
        start < usize::MAX,
    ensures
        end == slot_boundary(models(nodes@), start as int),
        start < nodes.len() ==> start < end <= nodes.len(),
        forall|m: int|
            start < m < end && m < nodes.len() ==> #[trigger] variation_count(
                models(nodes@).subrange(start as int, m + 1),
            ) <= MAX_VARIATIONS_PER_SLOT,
        end < nodes.len() ==> variation_count(models(nodes@).subrange(start as int, end + 1))
            > MAX_VARIATIONS_PER_SLOT,
{
    let ghost trees = models(nodes@);
    proof {
        if start < nodes.len() {
            lemma_slot_end(trees, start as int, start + 1);
        }
    }
    let mut end: usize = start + 1;
    while end < nodes.len()
        invariant
            start < end,
            start < nodes.len() ==> end <= nodes.len(),
            trees == models(nodes@),
            slot_boundary(trees, start as int) == slot_end(trees, start as int, end as int),
        decreases nodes.len() - end,
    {
        let count: usize = count_variations(slice_subrange(nodes, start, end + 1));
        proof {
            lemma_models_subrange(nodes@, start as int, end + 1);
        }
        if count > MAX_VARIATIONS_PER_SLOT {
            return end;
        }
        end += 1;
    }
    end
}

/// Cuts `nodes` into slots.
pub fn expand_nodes_to_slots(nodes: &[Node]) -> (slots: Vec<Slot>)
    ensures
        slots_wf(slots@),
        slot_views(slots@) == compiled(models(nodes@)),
{
    let ghost trees = models(nodes@);
    let mut slots: Vec<Slot> = Vec::new();
    let mut i: usize = 0;
    assert(slot_views(slots@) + slots_from(trees, 0) =~= slots_from(trees, 0));
    while i < nodes.len()
        invariant
            i <= nodes.len(),
            trees == models(nodes@),
            slots_wf(slots@),
            compiled(trees) == slot_views(slots@) + slots_from(trees, i as int),
        decreases nodes.len() - i,
    {
        let end: usize = find_slot_boundary(nodes, i);
        let variations: Vec<Vec<u8>> = expand_to_strings(slice_subrange(nodes, i, end));
        let ghost done = slot_views(slots@);
        let ghost rest = slots_from(trees, end as int);
        proof {
            lemma_models_subrange(nodes@, i as int, end as int);
            assert(rows(variations@).len() == variations@.len());
        }
        if variations.len() > 0 {
            let slot = Slot::from_variations(variations);
            slots.push(slot);
            proof {
                assert(slot_views(slots@) =~= done + seq![slot@]);
                assert(done + (seq![slot@] + rest) =~= (done + seq![slot@]) + rest);
            }
        } else {
            assert(done + (Seq::<Seq<Seq<u8>>>::empty() + rest) =~= done + rest);
        }
        i = end;
    }
    assert(slot_views(slots@) + Seq::<Seq<Seq<u8>>>::empty() =~= slot_views(slots@));
    slots
}

/// Parses a template and cuts it into slots.
pub fn expand_template(template: &str) -> (r: Result<Vec<Slot>, ParseError>)
    ensures
        match template_trees(template.spec_bytes()) {
            Some(trees) => r matches Ok(slots) && slots_wf(slots@) && slot_views(slots@)
                == compiled(trees),
            None => r == Err::<Vec<Slot>, ParseError>(ParseError::UnclosedBrace),
        },
{
    match parse_template(template) {
        Ok(nodes) => Ok(expand_nodes_to_slots(nodes.as_slice())),
        Err(e) => Err(e),
    }
}

/// `MIN_VARIATIONS` is two to the power of `MIN_ENTROPY_BITS`.
pub proof fn lemma_min_variations()
    ensures
        MIN_VARIATIONS == 1u128 << MIN_ENTROPY_BITS,
{
    assert(137_438_953_472u128 == 1u128 << 37u32) by (bit_vector);
}

/// Why a template was refused before any search.
#[derive(Debug, Clone, Copy, PartialEq, Eq)]
pub struct EntropyTooLow {
    /// How many candidates the template describes.
    pub variations: u128,
}

/// The step of a product from the front.
proof fn lemma_product_step(counts: Seq<nat>, i: int)
    requires
        0 <= i < counts.len(),
    ensures
        product(counts.skip(i)) == counts[i] * product(counts.skip(i + 1)),
{
    assert(counts.skip(i).drop_first() =~= counts.skip(i + 1));
}

/// How many candidates `slots` describe: the product of their variation
/// counts, or `u128::MAX` where the product is larger than that.
pub fn total_variations(slots: &[Slot]) -> (total: u128)
    ensures
        total == capped(space_size(slot_views(slots@)), u128::MAX as nat),
{
    let ghost sizes = slot_sizes(slot_views(slots@));
    let ghost mut exact: nat = 1;
    let mut total: u128 = 1;
    let mut i: usize = 0;
    assert(sizes.skip(0) =~= sizes);
    while i < slots.len()
        invariant
            i <= slots.len(),
            sizes == slot_sizes(slot_views(slots@)),
            total == capped(exact, u128::MAX as nat),
            product(sizes) == exact * product(sizes.skip(i as int)),
        decreases slots.len() - i,
    {
        let count: usize = slots[i].variation_count();
        proof {
            let after = product(sizes.skip(i + 1));
            assert(sizes[i as int] == count);
            lemma_product_step(sizes, i as int);
            crate::expand::lemma_capped_product(exact, count as nat, u128::MAX as nat);
            assert(exact * (count * after) == (exact * count) * after) by (nonlinear_arith);
            exact = exact * (count as nat);
        }
        total = match total.checked_mul(count as u128) {
            Some(p) => p,
            None => u128::MAX,
        };
        i += 1;
    }
    proof {
        assert(sizes.skip(i as int).len() == 0);
        assert(exact * 1 == exact) by (nonlinear_arith);
    }
    total
}

/// Well-formed slots hold at least one variation each.
pub proof fn lemma_sizes_positive(slots: Seq<Slot>)
    ensures
        slots_wf(slots) ==> positive(slot_sizes(slot_views(slots))),
{
    if slots_wf(slots) {
        let sizes = slot_sizes(slot_views(slots));
        assert forall|i: int| 0 <= i < sizes.len() implies sizes[i] > 0 by {
            slots[i].lemma_nonempty();
        }
    }
}

/// The variation count of each slot.
pub fn slot_counts(slots: &[Slot]) -> (counts: Vec<usize>)
    ensures
        nats(counts@) == slot_sizes(slot_views(slots@)),
        slots_wf(slots@) ==> positive(nats(counts@)),
{
    proof {
        lemma_sizes_positive(slots@);
    }
    let mut counts: Vec<usize> = Vec::new();
    let mut i: usize = 0;
    while i < slots.len()
        invariant
            i <= slots.len(),
            counts@.len() == i,
            forall|j: int| 0 <= j < i ==> counts@[j] == (#[trigger] slots@[j])@.len(),
        decreases slots.len() - i,
    {
        counts.push(slots[i].variation_count());
        i += 1;
    }
    assert(nats(counts@) =~= slot_sizes(slot_views(slots@)));
    counts
}

/// Accepts `slots` where they describe at least `MIN_VARIATIONS` candidates,
/// that is at least `MIN_ENTROPY_BITS` bits of entropy.
pub fn validate_entropy(slots: &[Slot]) -> (r: Result<(), EntropyTooLow>)
    ensures
        r is Ok <==> space_size(slot_views(slots@)) >= MIN_VARIATIONS,
        r matches Err(e) ==> e.variations == space_size(slot_views(slots@)),
{
    let total: u128 = total_variations(slots);
    if total < MIN_VARIATIONS {
        Err(EntropyTooLow { variations: total })
    } else {
        Ok(())
    }
}

} // verus!
