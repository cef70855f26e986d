//! A batch whose reports line up with its inputs.
use crate::light_curve::Obs;
use crate::source::SbplResult;
use crate::survey::{Loaded, Rejection, SourceData};
use vstd::prelude::*;

verus! {

/// What became of one input.
#[derive(Debug)]
pub enum Slot {
    /// It is the source at `index` of the batch.
    Ready { index: usize, obs: Vec<Obs> },
    /// It is not in the batch.
    Rejected(Rejection),
}

/// How many of the first `n` inputs are in the batch.
pub open spec fn ready_before(slots: Seq<Slot>, n: nat) -> nat
    decreases n,
{
    if n == 0 {
        0
    } else {
        ready_before(slots, (n - 1) as nat) + if slots[n - 1] is Ready {
            1nat
        } else {
            0
        }
    }
}

/// A batch under construction: one slot per input, and the sources of those that
/// can be fitted.
#[derive(Debug)]
pub struct Lineup {
    sources: Vec<SourceData>,
    slots: Vec<Slot>,
}

proof fn lemma_ready_before(slots: Seq<Slot>, more: Slot, n: nat)
    requires
        n <= slots.len(),
    ensures
        ready_before(slots.push(more), n) == ready_before(slots, n),
    decreases n,
{
    if n > 0 {
        lemma_ready_before(slots, more, (n - 1) as nat);
    }
}

proof fn lemma_ready_grows(slots: Seq<Slot>, i: nat, n: nat)
    requires
        i <= n,
    ensures
        ready_before(slots, i) <= ready_before(slots, n),
    decreases n,
{
    if i < n {
        lemma_ready_grows(slots, i, (n - 1) as nat);
    }
}

impl Lineup {
    /// The sources of the batch.
    pub closed spec fn batch(&self) -> Seq<SourceData> {
        self.sources@
    }

    /// What became of the inputs.
    pub closed spec fn inputs(&self) -> Seq<Slot> {
        self.slots@
    }

    /// The inputs in the batch are its sources, in order.
    pub open spec fn wf(&self) -> bool {
        &&& self.batch().len() == ready_before(self.inputs(), self.inputs().len())
        &&& forall|i: int|
            0 <= i < self.inputs().len() ==> (#[trigger] self.inputs()[i] matches Slot::Ready {
                index,
                ..
            } ==> index == ready_before(self.inputs(), i as nat))
    }

    /// A batch without inputs.
    pub fn new() -> (r: Lineup)
        ensures
            r.wf(),
            r.batch() == Seq::<SourceData>::empty(),
            r.inputs() == Seq::<Slot>::empty(),
    {
        Lineup { sources: Vec::new(), slots: Vec::new() }
    }

    /// Adds an input: it gets the next slot, and the next place in the batch if it
    /// can be fitted.
    pub fn add_input(&mut self, outcome: Result<Loaded, Rejection>)
        requires
            old(self).wf(),
        ensures
            final(self).wf(),
            match outcome {
                Ok(loaded) => {
                    &&& final(self).batch() == old(self).batch().push(loaded.source)
                    &&& final(self).inputs() == old(self).inputs().push(
                        Slot::Ready { index: old(self).batch().len() as usize, obs: loaded.obs },
                    )
                },
                Err(e) => {
                    &&& final(self).batch() == old(self).batch()
                    &&& final(self).inputs() == old(self).inputs().push(Slot::Rejected(e))
                },
            },
    {
        let ghost before = self.slots@;
        match outcome {
            Ok(Loaded { obs, source }) => {
                let slot: Slot = Slot::Ready { index: self.sources.len(), obs };
                self.slots.push(slot);
                self.sources.push(source);
                proof {
                    self.lemma_still_wf(before, slot);
                }
            },
            Err(e) => {
                let slot: Slot = Slot::Rejected(e);
                self.slots.push(slot);
                proof {
                    self.lemma_still_wf(before, slot);
                }
            },
        }
    }

    proof fn lemma_still_wf(&self, before: Seq<Slot>, slot: Slot)
        requires
            self.slots@ == before.push(slot),
            self.sources@.len() == ready_before(before, before.len()) + if slot is Ready {
                1nat
            } else {
                0
            },
            slot matches Slot::Ready { index, .. } ==> index == ready_before(before, before.len()),
            forall|i: int|
                0 <= i < before.len() ==> (#[trigger] before[i] matches Slot::Ready { index, .. }
                    ==> index == ready_before(before, i as nat)),
        ensures
            self.wf(),
    {
        lemma_ready_before(before, slot, before.len());
        assert forall|i: int| 0 <= i < self.inputs().len() implies (
        #[trigger] self.inputs()[i] matches Slot::Ready { index, .. } ==> index == ready_before(
            self.inputs(),
            i as nat,
        )) by {
            lemma_ready_before(before, slot, i as nat);
            if i < before.len() {
                assert(self.inputs()[i] == before[i]);
            }
        }
    }

    /// The sources of the batch.
    pub fn sources(&self) -> (r: &Vec<SourceData>)
        ensures
            r@ == self.batch(),
    {
        &self.sources
    }

    /// What became of the inputs.
    pub fn slots(&self) -> (r: &Vec<Slot>)
        ensures
            r@ == self.inputs(),
    {
        &self.slots
    }

    /// One report per input, in the order of the inputs: the result of its source,
    /// or nothing where it is not in the batch.
    pub fn report(&self, results: &Vec<SbplResult>) -> (r: Vec<Option<SbplResult>>)
        requires
            self.wf(),
            results.len() == self.batch().len(),
        ensures
            r.len() == self.inputs().len(),
            forall|i: int|
                0 <= i < r.len() ==> #[trigger] r@[i] == match self.inputs()[i] {
                    Slot::Ready { index, .. } => Some(results@[index as int]),
                    Slot::Rejected(_) => None,
                },
    {
        let mut out: Vec<Option<SbplResult>> = Vec::with_capacity(self.slots.len());
        let mut i: usize = 0;
        while i < self.slots.len()
            invariant
                i <= self.slots.len(),
                self.wf(),
                results.len() == self.batch().len(),
                out.len() == i,
                forall|j: int|
                    0 <= j < i ==> #[trigger] out@[j] == match self.inputs()[j] {
                        Slot::Ready { index, .. } => Some(results@[index as int]),
                        Slot::Rejected(_) => None,
                    },
            decreases self.slots.len() - i,
        {
            proof {
                assert(self.inputs()[i as int] == self.slots@[i as int]);
                lemma_ready_grows(self.inputs(), (i + 1) as nat, self.inputs().len());
            }
            match &self.slots[i] {
                Slot::Ready { index, .. } => out.push(Some(results[*index])),
                Slot::Rejected(_) => out.push(None),
            }
            i += 1;
        }
        out
    }
}

} // verus!
