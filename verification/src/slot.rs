//! A slot: the variations that one position of a candidate can hold, packed
//! into one buffer.

use vstd::prelude::*;

verus! {

/// The byte strings that a vector of byte vectors holds.
pub open spec fn rows(items: Seq<Vec<u8>>) -> Seq<Seq<u8>> {
    Seq::new(items.len(), |i: int| items[i]@)
}

/// Appends `src` to `dest`.
pub fn append_bytes(dest: &mut Vec<u8>, src: &[u8])
    ensures
        final(dest)@ == old(dest)@ + src@,
{
    let ghost before = dest@;
    let mut i: usize = 0;
    while i < src.len()
        invariant
            i <= src.len(),
            dest@ == before + src@.take(i as int),
        decreases src.len() - i,
    {
        dest.push(src[i]);
        assert(src@.take(i + 1) =~= src@.take(i as int).push(src@[i as int]));
        assert(dest@ =~= before + src@.take(i + 1));
        i += 1;
    }
    assert(src@.take(src.len() as int) =~= src@);
}

/// One position of the candidate, with every byte string it can contribute.
///
/// The variations lie end to end in `data`, the first at the start and the
/// last up to the end; `spans` holds the offset and the length of each.
pub struct Slot {
    data: Vec<u8>,
    spans: Vec<(usize, usize)>,
}

impl View for Slot {
    type V = Seq<Seq<u8>>;

    /// The variations, in order.
    closed spec fn view(&self) -> Seq<Seq<u8>> {
        Seq::new(
            self.spans@.len(),
            |i: int| self.data@.subrange(self.spans@[i].0 as int, self.spans@[i].0 + self.spans@[i].1),
        )
    }
}

impl Slot {
    /// The buffer that holds the variations.
    pub closed spec fn buffer(&self) -> Seq<u8> {
        self.data@
    }

    /// The offset and the length of each variation in the buffer.
    pub closed spec fn spans(&self) -> Seq<(usize, usize)> {
        self.spans@
    }

    /// There is at least one variation, and the buffer is packed: the first
    /// span starts at zero, each further span starts where the one before
    /// ends, and the last ends the buffer. Each variation is what its span
    /// holds, so the buffer is the variations one after the other.
    pub open spec fn wf(&self) -> bool {
        &&& self.spans().len() >= 1
        &&& self.spans()[0].0 == 0
        &&& forall|i: int|
            #![trigger self.spans()[i]]
            0 <= i < self.spans().len() - 1 ==> self.spans()[i + 1].0 == self.spans()[i].0
                + self.spans()[i].1
        &&& self.spans().last().0 + self.spans().last().1 == self.buffer().len()
        &&& forall|i: int|
            0 <= i < self.spans().len() ==> (#[trigger] self.spans()[i]).0 + self.spans()[i].1
                <= self.buffer().len()
        &&& self@.len() == self.spans().len()
        &&& forall|i: int|
            0 <= i < self.spans().len() ==> #[trigger] self@[i] == self.buffer().subrange(
                self.spans()[i].0 as int,
                self.spans()[i].0 + self.spans()[i].1,
            )
        &&& self.buffer() == self@.flatten()
    }

    /// A well-formed slot has at least one variation.
    pub proof fn lemma_nonempty(&self)
        requires
            self.wf(),
        ensures
            self@.len() >= 1,
    {
    }

    /// Packs `variations`, keeping their order: the buffer of the slot is the
    /// variations one after the other, with nothing before, between or after
    /// them.
    pub fn from_variations(variations: Vec<Vec<u8>>) -> (slot: Slot)
        requires
            variations@.len() >= 1,
        ensures
            slot.wf(),
            slot@ == rows(variations@),
            slot.buffer() == rows(variations@).flatten(),
            slot.spans().len() == variations@.len(),
            forall|i: int|
                0 <= i < variations@.len() ==> (#[trigger] slot.spans()[i]).1
                    == variations@[i]@.len(),
    {
        let ghost all = rows(variations@);
        let mut data: Vec<u8> = Vec::new();
        let mut spans: Vec<(usize, usize)> = Vec::new();
        let mut i: usize = 0;
        assert(all.take(0).flatten() =~= Seq::<u8>::empty());
        while i < variations.len()
            invariant
                i <= variations.len(),
                all == rows(variations@),
                spans@.len() == i,
                i > 0 ==> spans@[0].0 == 0,
                data@.len() == if i == 0 {
                    0
                } else {
                    spans@[i - 1].0 + spans@[i - 1].1
                },
                data@ == all.take(i as int).flatten(),
                forall|j: int|
                    #![trigger spans@[j]]
                    0 <= j < i - 1 ==> spans@[j + 1].0 == spans@[j].0 + spans@[j].1,
                forall|j: int| 0 <= j < i ==> (#[trigger] spans@[j]).1 == variations@[j]@.len(),
                forall|j: int|
                    0 <= j < i ==> (#[trigger] spans@[j]).0 + spans@[j].1 <= data@.len(),
                forall|j: int|
                    0 <= j < i ==> data@.subrange(
                        (#[trigger] spans@[j]).0 as int,
                        spans@[j].0 + spans@[j].1,
                    ) == variations@[j]@,
            decreases variations.len() - i,
        {
            let ghost before = data@;
            let ghost old_spans = spans@;
            let offset: usize = data.len();
            let length: usize = variations[i].len();
            append_bytes(&mut data, variations[i].as_slice());
            spans.push((offset, length));
            proof {
                assert(all.take(i + 1) =~= all.take(i as int).push(all[i as int]));
                all.take(i as int).lemma_flatten_push(all[i as int]);
                assert forall|j: int| #![trigger spans@[j]] 0 <= j < i implies spans@[j + 1].0
                    == spans@[j].0 + spans@[j].1 by {
                    assert(spans@[j] == old_spans[j]);
                    if j + 1 < i {
                        assert(spans@[j + 1] == old_spans[j + 1]);
                    }
                }
            }
            assert forall|j: int| 0 <= j < i + 1 implies data@.subrange(
                (#[trigger] spans@[j]).0 as int,
                spans@[j].0 + spans@[j].1,
            ) == variations@[j]@ by {
                if j < i {
                    assert(spans@[j] == old_spans[j]);
                    assert(data@.subrange(spans@[j].0 as int, spans@[j].0 + spans@[j].1)
                        =~= before.subrange(spans@[j].0 as int, spans@[j].0 + spans@[j].1));
                } else {
                    assert(data@.subrange(offset as int, offset + length) =~= variations@[j]@);
                }
            }
            i += 1;
        }
        let slot = Slot { data, spans };
        proof {
            assert(slot@ =~= all);
            assert(all.take(i as int) =~= all);
        }
        slot
    }

    /// How many variations the slot holds.
    pub fn variation_count(&self) -> (n: usize)
        ensures
            n == self@.len(),
    {
        self.spans.len()
    }

    /// Appends variation `idx` to `dest` and returns its length.
    pub fn copy_variation(&self, idx: usize, dest: &mut Vec<u8>) -> (written: usize)
        requires
            self.wf(),
            idx < self@.len(),
        ensures
            final(dest)@ == old(dest)@ + self@[idx as int],
            written == self@[idx as int].len(),
    {
        let span: (usize, usize) = self.spans[idx];
        let offset: usize = span.0;
        let length: usize = span.1;
        let data = self.data.as_slice();
        assert(self.spans()[idx as int].0 + self.spans()[idx as int].1 <= self.buffer().len());
        assert(data@.len() == data.len());
        let part = vstd::slice::slice_subrange(data, offset, offset + length);
        append_bytes(dest, part);
        length
    }
}

/// The variations of each slot of a sequence.
pub open spec fn slot_views(slots: Seq<Slot>) -> Seq<Seq<Seq<u8>>> {
    Seq::new(slots.len(), |i: int| slots[i]@)
}

/// Whether every slot of a sequence is well formed.
pub open spec fn slots_wf(slots: Seq<Slot>) -> bool {
    forall|i: int| 0 <= i < slots.len() ==> (#[trigger] slots[i]).wf()
}

} // verus!
