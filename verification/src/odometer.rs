//! A mixed-radix counter over the selections of a slot sequence.
//!
//! With counts `c0, c1, ..`, the flat index `k` stands for the selection whose
//! first digit is `k mod c0`, whose second is `(k div c0) mod c1`, and so on:
//! the first slot changes fastest.

use vstd::prelude::*;
use vstd::arithmetic::div_mod::{
    lemma_fundamental_div_mod,
    lemma_fundamental_div_mod_converse,
    lemma_mod_breakdown,
};

verus! {

/// The numbers that a vector of `usize` holds.
pub open spec fn nats(v: Seq<usize>) -> Seq<nat> {
    Seq::new(v.len(), |i: int| v[i] as nat)
}

/// Whether every count is at least one.
pub open spec fn positive(counts: Seq<nat>) -> bool {
    forall|i: int| 0 <= i < counts.len() ==> counts[i] > 0
}

/// Whether `selection` has one digit per count, each below its count.
pub open spec fn valid_selection(counts: Seq<nat>, selection: Seq<nat>) -> bool {
    &&& selection.len() == counts.len()
    &&& forall|i: int| 0 <= i < counts.len() ==> selection[i] < counts[i]
}

/// The product of the counts: how many selections there are.
pub open spec fn product(counts: Seq<nat>) -> nat
    decreases counts.len(),
{
    if counts.len() == 0 {
        1
    } else {
        counts[0] * product(counts.drop_first())
    }
}

/// The selection at flat index `k`.
pub open spec fn digits(counts: Seq<nat>, k: nat) -> Seq<nat>
    decreases counts.len(),
{
    if counts.len() == 0 {
        Seq::empty()
    } else {
        seq![k % counts[0]] + digits(counts.drop_first(), k / counts[0])
    }
}

/// The flat index of a selection.
pub open spec fn flat_index(counts: Seq<nat>, selection: Seq<nat>) -> nat
    decreases counts.len(),
{
    if counts.len() == 0 || selection.len() == 0 {
        0
    } else {
        selection[0] + counts[0] * flat_index(counts.drop_first(), selection.drop_first())
    }
}

/// The selection after `selection`: the first digit goes up by one; a digit
/// that reaches its count goes back to zero and carries into the next.
pub open spec fn successor(counts: Seq<nat>, selection: Seq<nat>) -> Seq<nat>
    decreases counts.len(),
{
    if counts.len() == 0 || selection.len() == 0 {
        Seq::empty()
    } else if selection[0] + 1 < counts[0] {
        seq![(selection[0] + 1) as nat] + selection.drop_first()
    } else {
        seq![0nat] + successor(counts.drop_first(), selection.drop_first())
    }
}

/// The selection reached from `selection` by `steps` successors.
pub open spec fn advanced(counts: Seq<nat>, selection: Seq<nat>, steps: nat) -> Seq<nat>
    decreases steps,
{
    if steps == 0 {
        selection
    } else {
        successor(counts, advanced(counts, selection, (steps - 1) as nat))
    }
}

/// The selection of all zeros.
pub open spec fn zeros(len: nat) -> Seq<nat> {
    Seq::new(len, |i: int| 0nat)
}

/// The product of positive counts is positive.
pub proof fn lemma_product_positive(counts: Seq<nat>)
    requires
        positive(counts),
    ensures
        product(counts) > 0,
    decreases counts.len(),
{
    if counts.len() > 0 {
        let rest = counts.drop_first();
        assert(positive(rest)) by {
            assert forall|i: int| 0 <= i < rest.len() implies rest[i] > 0 by {
                assert(rest[i] == counts[i + 1]);
            }
        }
        lemma_product_positive(rest);
        assert(counts[0] * product(rest) > 0) by (nonlinear_arith)
            requires
                counts[0] > 0,
                product(rest) > 0,
        ;
    }
}

/// The digits of any flat index are a valid selection.
pub proof fn lemma_digits_valid(counts: Seq<nat>, k: nat)
    requires
        positive(counts),
    ensures
        valid_selection(counts, digits(counts, k)),
    decreases counts.len(),
{
    if counts.len() > 0 {
        let rest = counts.drop_first();
        assert forall|i: int| 0 <= i < rest.len() implies rest[i] > 0 by {
            assert(rest[i] == counts[i + 1]);
        }
        lemma_digits_valid(rest, k / counts[0]);
        let tail = digits(rest, k / counts[0]);
        let all = digits(counts, k);
        assert forall|i: int| 0 <= i < counts.len() implies all[i] < counts[i] by {
            if i > 0 {
                assert(all[i] == tail[i - 1]);
                assert(counts[i] == rest[i - 1]);
            }
        }
    }
}

/// The digits of index zero are all zero.
pub proof fn lemma_digits_of_zero(counts: Seq<nat>)
    requires
        positive(counts),
    ensures
        digits(counts, 0) == zeros(counts.len()),
    decreases counts.len(),
{
    if counts.len() > 0 {
        let rest = counts.drop_first();
        assert forall|i: int| 0 <= i < rest.len() implies rest[i] > 0 by {
            assert(rest[i] == counts[i + 1]);
        }
        lemma_digits_of_zero(rest);
        assert(0nat % counts[0] == 0 && 0nat / counts[0] == 0) by (nonlinear_arith)
            requires
                counts[0] > 0,
        ;
    }
    assert(digits(counts, 0) =~= zeros(counts.len()));
}

/// Reading the digits of `k` back gives `k`, reduced modulo the number of
/// selections.
pub proof fn lemma_flat_index_of_digits(counts: Seq<nat>, k: nat)
    requires
        positive(counts),
    ensures
        product(counts) > 0,
        flat_index(counts, digits(counts, k)) == k % product(counts),
    decreases counts.len(),
{
    lemma_product_positive(counts);
    if counts.len() > 0 {
        let rest = counts.drop_first();
        let first = counts[0];
        assert forall|i: int| 0 <= i < rest.len() implies rest[i] > 0 by {
            assert(rest[i] == counts[i + 1]);
        }
        lemma_product_positive(rest);
        lemma_flat_index_of_digits(rest, k / first);
        let all = digits(counts, k);
        assert(all.drop_first() =~= digits(rest, k / first));
        lemma_mod_breakdown(k as int, first as int, product(rest) as int);
    }
}

/// A valid selection is the digits of its own flat index, which lies below
/// the number of selections.
pub proof fn lemma_digits_of_flat_index(counts: Seq<nat>, selection: Seq<nat>)
    requires
        valid_selection(counts, selection),
    ensures
        flat_index(counts, selection) < product(counts),
        digits(counts, flat_index(counts, selection)) == selection,
    decreases counts.len(),
{
    if counts.len() > 0 {
        let rest = counts.drop_first();
        let tail = selection.drop_first();
        let first = counts[0];
        assert forall|i: int| 0 <= i < rest.len() implies tail[i] < rest[i] by {
            assert(tail[i] == selection[i + 1]);
            assert(rest[i] == counts[i + 1]);
        }
        lemma_digits_of_flat_index(rest, tail);
        let inner = flat_index(rest, tail);
        let k = flat_index(counts, selection);
        assert(k == inner * first + selection[0]) by (nonlinear_arith)
            requires
                k == selection[0] + first * inner,
        ;
        lemma_fundamental_div_mod_converse(
            k as int,
            first as int,
            inner as int,
            selection[0] as int,
        );
        assert(k < first * product(rest)) by (nonlinear_arith)
            requires
                k == selection[0] + first * inner,
                selection[0] < first,
                inner < product(rest),
        ;
        assert(digits(counts, k) =~= selection);
    } else {
        assert(digits(counts, 0) =~= selection);
    }
}

/// The successor of the digits of `k` is the digits of `k + 1`.
pub proof fn lemma_successor_of_digits(counts: Seq<nat>, k: nat)
    requires
        positive(counts),
    ensures
        successor(counts, digits(counts, k)) == digits(counts, k + 1),
    decreases counts.len(),
{
    if counts.len() > 0 {
        let rest = counts.drop_first();
        let first = counts[0];
        assert forall|i: int| 0 <= i < rest.len() implies rest[i] > 0 by {
            assert(rest[i] == counts[i + 1]);
        }
        let q = k / first;
        let r = k % first;
        let here = digits(counts, k);
        assert(here.drop_first() =~= digits(rest, q));
        lemma_fundamental_div_mod(k as int, first as int);
        assert(0 <= r < first) by (nonlinear_arith)
            requires
                r == k % first,
                first > 0,
        ;
        if r + 1 < first {
            assert(k + 1 == q * first + (r + 1)) by (nonlinear_arith)
                requires
                    k == first * q + r,
            ;
            lemma_fundamental_div_mod_converse((k + 1) as int, first as int, q as int, (r + 1) as int);
        } else {
            assert(k + 1 == (q + 1) * first + 0) by (nonlinear_arith)
                requires
                    k == first * q + r,
                    r + 1 == first,
            ;
            lemma_fundamental_div_mod_converse((k + 1) as int, first as int, (q + 1) as int, 0);
            lemma_successor_of_digits(rest, q);
        }
        assert(successor(counts, here) =~= digits(counts, k + 1));
    }
}

/// Seeking to `k` and stepping `k` times from the selection of all zeros
/// reach the same selection.
pub proof fn lemma_seek_agrees_with_steps(counts: Seq<nat>, k: nat)
    requires
        positive(counts),
    ensures
        advanced(counts, zeros(counts.len()), k) == digits(counts, k),
    decreases k,
{
    if k == 0 {
        lemma_digits_of_zero(counts);
    } else {
        lemma_seek_agrees_with_steps(counts, (k - 1) as nat);
        lemma_successor_of_digits(counts, (k - 1) as nat);
    }
}

/// Two flat indices below the number of selections with the same digits are
/// the same index: seeking is one to one.
pub proof fn lemma_digits_injective(counts: Seq<nat>, j: nat, k: nat)
    requires
        positive(counts),
        j < product(counts),
        k < product(counts),
        digits(counts, j) == digits(counts, k),
    ensures
        j == k,
{
    lemma_flat_index_of_digits(counts, j);
    lemma_flat_index_of_digits(counts, k);
    vstd::arithmetic::div_mod::lemma_small_mod(j, product(counts));
    vstd::arithmetic::div_mod::lemma_small_mod(k, product(counts));
}

/// The counter: one digit per slot, and the count of each slot.
pub struct Odometer {
    indices: Vec<usize>,
    counts: Vec<usize>,
}

impl Odometer {
    /// The count of each slot.
    pub closed spec fn counts(&self) -> Seq<nat> {
        nats(self.counts@)
    }

    /// The current digit of each slot.
    pub closed spec fn selection(&self) -> Seq<nat> {
        nats(self.indices@)
    }

    /// The flat index of the current selection.
    pub open spec fn position(&self) -> nat {
        flat_index(self.counts(), self.selection())
    }

    /// Every count is positive and every digit is below its count.
    pub open spec fn wf(&self) -> bool {
        &&& positive(self.counts())
        &&& valid_selection(self.counts(), self.selection())
    }

    /// A counter over `counts`, at the selection of all zeros.
    pub fn new(counts: Vec<usize>) -> (odometer: Odometer)
        requires
            positive(nats(counts@)),
        ensures
            odometer.wf(),
            odometer.counts() == nats(counts@),
            odometer.selection() == zeros(counts@.len()),
            odometer.position() == 0,
    {
        let mut indices: Vec<usize> = Vec::new();
        let mut i: usize = 0;
        while i < counts.len()
            invariant
                i <= counts.len(),
                indices@.len() == i,
                forall|j: int| 0 <= j < i ==> indices@[j] == 0,
            decreases counts.len() - i,
        {
            indices.push(0);
            i += 1;
        }
        let odometer = Odometer { indices, counts };
        proof {
            assert(odometer.selection() =~= zeros(counts@.len()));
            lemma_digits_of_zero(odometer.counts());
            lemma_flat_index_of_digits(odometer.counts(), 0);
            assert(0nat % product(odometer.counts()) == 0) by (nonlinear_arith)
                requires
                    product(odometer.counts()) > 0,
            ;
        }
        odometer
    }

    /// Seeks to the selection at `flat_index`.
    pub fn set_position(&mut self, flat_index: u64)
        requires
            old(self).wf(),
        ensures
            final(self).wf(),
            final(self).counts() == old(self).counts(),
            final(self).selection() == digits(old(self).counts(), flat_index as nat),
            final(self).position() == flat_index as nat % product(old(self).counts()),
    {
        let ghost counts = self.counts();
        let mut n: u64 = flat_index;
        let mut i: usize = 0;
        assert(counts.skip(0) =~= counts);
        assert(nats(self.indices@).take(0) + digits(counts, n as nat) =~= digits(
            counts,
            n as nat,
        ));
        while i < self.indices.len()
            invariant
                i <= self.indices@.len(),
                self.indices@.len() == self.counts@.len(),
                self.counts() == counts,
                counts == nats(self.counts@),
                positive(counts),
                digits(counts, flat_index as nat) == nats(self.indices@).take(i as int) + digits(
                    counts.skip(i as int),
                    n as nat,
                ),
            decreases self.indices@.len() - i,
        {
            let ghost before = nats(self.indices@);
            let count: usize = self.counts[i];
            assert(counts[i as int] == count);
            let digit: usize = (n % count as u64) as usize;
            self.indices.set(i, digit);
            proof {
                let tail = counts.skip(i as int);
                assert(tail[0] == count);
                assert(tail.drop_first() =~= counts.skip(i + 1));
                let after = digits(counts.skip(i + 1), (n as nat) / (count as nat));
                assert(nats(self.indices@).take(i + 1) =~= before.take(i as int).push(
                    digit as nat,
                ));
                assert(before.take(i as int) + (seq![digit as nat] + after) =~= before.take(
                    i as int,
                ).push(digit as nat) + after);
            }
            n = n / count as u64;
            i += 1;
        }
        proof {
            assert(counts.skip(i as int).len() == 0);
            assert(nats(self.indices@).take(i as int) =~= nats(self.indices@));
            assert(self.selection() =~= digits(counts, flat_index as nat));
            lemma_digits_valid(counts, flat_index as nat);
            lemma_flat_index_of_digits(counts, flat_index as nat);
        }
    }

    /// Steps to the next selection; after the last one, back to all zeros.
    pub fn advance(&mut self)
        requires
            old(self).wf(),
        ensures
            final(self).wf(),
            final(self).counts() == old(self).counts(),
            final(self).selection() == successor(old(self).counts(), old(self).selection()),
            final(self).position() == (old(self).position() + 1) % product(old(self).counts()),
    {
        let ghost counts = self.counts();
        let ghost start = self.selection();
        proof {
            lemma_digits_of_flat_index(counts, start);
            lemma_successor_of_digits(counts, flat_index(counts, start));
            lemma_digits_valid(counts, flat_index(counts, start) + 1);
            lemma_flat_index_of_digits(counts, flat_index(counts, start) + 1);
            assert(counts.skip(0) =~= counts);
            assert(start.skip(0) =~= start);
            assert(zeros(0) + start =~= start);
            assert(zeros(0) + successor(counts, start) =~= successor(counts, start));
        }
        let mut i: usize = 0;
        while i < self.indices.len()
            invariant
                i <= self.indices@.len(),
                self.indices@.len() == self.counts@.len(),
                self.counts() == counts,
                counts == nats(self.counts@),
                counts == old(self).counts(),
                start == old(self).selection(),
                start.len() == counts.len(),
                valid_selection(counts, start),
                valid_selection(counts, successor(counts, start)),
                flat_index(counts, successor(counts, start)) == (flat_index(counts, start) + 1)
                    % product(counts),
                positive(counts),
                nats(self.indices@) == zeros(i as nat) + start.skip(i as int),
                successor(counts, start) == zeros(i as nat) + successor(
                    counts.skip(i as int),
                    start.skip(i as int),
                ),
            decreases self.indices@.len() - i,
        {
            let ghost before = nats(self.indices@);
            let digit: usize = self.indices[i];
            let count: usize = self.counts[i];
            proof {
                assert(before[i as int] == digit);
                assert(start.skip(i as int)[0] == start[i as int]);
                assert(counts.skip(i as int)[0] == counts[i as int]);
                assert(counts.skip(i as int).drop_first() =~= counts.skip(i + 1));
                assert(start.skip(i as int).drop_first() =~= start.skip(i + 1));
                assert(digit < count);
            }
            if digit + 1 < count {
                self.indices.set(i, digit + 1);
                proof {
                    let now = nats(self.indices@);
                    let want = zeros(i as nat) + (seq![(digit + 1) as nat] + start.skip(i + 1));
                    assert(now.len() == want.len());
                    assert forall|j: int| 0 <= j < now.len() implies now[j] == want[j] by {
                        if j != i {
                            assert(now[j] == before[j]);
                        }
                    }
                    assert(now =~= want);
                    assert(self.selection() == successor(counts, start));
                }
                return ;
            }
            self.indices.set(i, 0);
            proof {
                let rest = successor(counts.skip(i + 1), start.skip(i + 1));
                let now = nats(self.indices@);
                let want = zeros((i + 1) as nat) + start.skip(i + 1);
                assert(now.len() == want.len());
                assert forall|j: int| 0 <= j < now.len() implies now[j] == want[j] by {
                    if j != i {
                        assert(now[j] == before[j]);
                    }
                }
                assert(now =~= want);
                assert(zeros(i as nat) + (seq![0nat] + rest) =~= zeros((i + 1) as nat) + rest);
            }
            i += 1;
        }
        proof {
            assert(counts.skip(i as int).len() == 0);
            assert(nats(self.indices@) =~= successor(counts, start));
        }
    }

    /// The current digit of each slot.
    pub fn indices(&self) -> (digits: &[usize])
        ensures
            nats(digits@) == self.selection(),
    {
        self.indices.as_slice()
    }
}

} // verus!
