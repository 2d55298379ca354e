//! The dive computer: a bank of tissue compartments that take up and give
//! off nitrogen together, and the compartment that governs the ascent.

use vstd::prelude::*;
use crate::measures::{Feet, Minutes, AIR_NITROGEN_RATIO, MAX_DEPTH};
use crate::tissue_compartment::{
    lemma_no_time_changes_nothing, lemma_step_keeps_limits, CompartmentState, TissueCompartment,
};

verus! {

/// Whether a bank can be worked with: it holds at least one compartment, and
/// each is within the limits of the model.
pub open spec fn bank_wf(bank: Seq<CompartmentState>) -> bool {
    &&& bank.len() > 0
    &&& forall|i: int| 0 <= i < bank.len() ==> (#[trigger] bank[i]).wf()
}

/// The bank after the time `duration` at one depth, breathing air: every
/// compartment has moved on by itself.
pub open spec fn bank_after(bank: Seq<CompartmentState>, duration: nat, depth: int) -> Seq<
    CompartmentState,
> {
    Seq::new(bank.len(), |i: int| bank[i].after(duration, depth, AIR_NITROGEN_RATIO as int))
}

/// The six compartments of the standard bank, with half-times of 5, 10, 20,
/// 40, 80 and 120 minutes.
pub open spec fn standard_bank() -> Seq<CompartmentState> {
    seq![
        CompartmentState::fresh(5_000_000, 4_150_000, 47_900),
        CompartmentState::fresh(10_000_000, 3_670_000, 47_900),
        CompartmentState::fresh(20_000_000, 3_270_000, 58_500),
        CompartmentState::fresh(40_000_000, 2_870_000, 47_900),
        CompartmentState::fresh(80_000_000, 2_670_000, 47_900),
        CompartmentState::fresh(120_000_000, 2_520_000, 47_900),
    ]
}

/// Whether the compartment at `index` governs the ascent: no compartment has
/// a deeper ceiling, and every compartment before it has a shallower one.
pub open spec fn is_governing(bank: Seq<CompartmentState>, index: int) -> bool {
    &&& 0 <= index < bank.len()
    &&& forall|j: int|
        0 <= j < bank.len() ==> (#[trigger] bank[j]).ceiling() <= bank[index].ceiling()
    &&& forall|j: int| 0 <= j < index ==> (#[trigger] bank[j]).ceiling() < bank[index].ceiling()
}

/// Among the first `count` compartments, the index of the first of those
/// whose ceiling is deepest.
spec fn first_deepest(bank: Seq<CompartmentState>, count: nat) -> int
    decreases count,
{
    if count <= 1 {
        0
    } else {
        let before = first_deepest(bank, (count - 1) as nat);
        if bank[count - 1].ceiling() > bank[before].ceiling() {
            count - 1
        } else {
            before
        }
    }
}

proof fn lemma_first_deepest(bank: Seq<CompartmentState>, count: nat)
    requires
        1 <= count <= bank.len(),
    ensures
        0 <= first_deepest(bank, count) < count,
        forall|j: int|
            0 <= j < count ==> (#[trigger] bank[j]).ceiling() <= bank[first_deepest(
                bank,
                count,
            )].ceiling(),
        forall|j: int|
            0 <= j < first_deepest(bank, count) ==> (#[trigger] bank[j]).ceiling()
                < bank[first_deepest(bank, count)].ceiling(),
    decreases count,
{
    if count > 1 {
        lemma_first_deepest(bank, (count - 1) as nat);
    }
}

/// Every bank that holds a compartment has one that governs.
pub proof fn lemma_some_compartment_governs(bank: Seq<CompartmentState>)
    requires
        bank.len() > 0,
    ensures
        exists|index: int| is_governing(bank, index),
{
    lemma_first_deepest(bank, bank.len());
    assert(is_governing(bank, first_deepest(bank, bank.len())));
}

/// No bank has two compartments that govern.
pub proof fn lemma_one_compartment_governs(bank: Seq<CompartmentState>, first: int, second: int)
    requires
        is_governing(bank, first),
        is_governing(bank, second),
    ensures
        first == second,
{
    if first < second {
        assert(bank[first].ceiling() < bank[second].ceiling());
    }
    if second < first {
        assert(bank[second].ceiling() < bank[first].ceiling());
    }
}

/// A step within the depth limits keeps a bank workable, with as many
/// compartments as before.
pub proof fn lemma_step_keeps_bank(bank: Seq<CompartmentState>, duration: nat, depth: int)
    requires
        bank_wf(bank),
        -MAX_DEPTH <= depth <= MAX_DEPTH,
    ensures
        bank_wf(bank_after(bank, duration, depth)),
        bank_after(bank, duration, depth).len() == bank.len(),
{
    let after = bank_after(bank, duration, depth);
    assert forall|i: int| 0 <= i < after.len() implies (#[trigger] after[i]).wf() by {
        lemma_step_keeps_limits(bank[i], duration, depth, AIR_NITROGEN_RATIO as int);
    }
}

/// After every step one compartment governs, and its ceiling is at least as
/// deep as that of every compartment of the bank.
pub proof fn lemma_governing_ceiling_is_deepest_after_step(
    bank: Seq<CompartmentState>,
    duration: nat,
    depth: int,
)
    requires
        bank_wf(bank),
        -MAX_DEPTH <= depth <= MAX_DEPTH,
    ensures
        exists|index: int|
            {
                &&& #[trigger] is_governing(bank_after(bank, duration, depth), index)
                &&& forall|other: int|
                    0 <= other < bank.len() ==> (#[trigger] bank_after(
                        bank,
                        duration,
                        depth,
                    )[other]).ceiling() <= bank_after(bank, duration, depth)[index].ceiling()
            },
{
    let after = bank_after(bank, duration, depth);
    lemma_some_compartment_governs(after);
    let index = choose|index: int| is_governing(after, index);
}

/// A step of no duration leaves every compartment of the bank as it was, at
/// any depth.
pub proof fn lemma_no_time_changes_no_compartment(bank: Seq<CompartmentState>, depth: int)
    requires
        forall|i: int| 0 <= i < bank.len() ==> (#[trigger] bank[i]).half_time > 0,
    ensures
        bank_after(bank, 0, depth) == bank,
{
    let after = bank_after(bank, 0, depth);
    assert forall|i: int| 0 <= i < bank.len() implies after[i] == bank[i] by {
        lemma_no_time_changes_nothing(bank[i], depth, AIR_NITROGEN_RATIO as int);
    }
}

/// A bank of tissue compartments.
pub struct DiveComputer {
    compartments: Vec<TissueCompartment>,
}

impl View for DiveComputer {
    type V = Seq<CompartmentState>;

    closed spec fn view(&self) -> Seq<CompartmentState> {
        Seq::new(self.compartments@.len(), |i: int| self.compartments@[i]@)
    }
}

impl DiveComputer {
    /// Whether the bank can be worked with.
    pub open spec fn wf(&self) -> bool {
        bank_wf(self@)
    }

    /// A dive computer with the standard bank, loaded as at the surface.
    pub fn new() -> (computer: DiveComputer)
        ensures
            computer@ == standard_bank(),
            computer.wf(),
    {
        let mut compartments: Vec<TissueCompartment> = Vec::new();
        compartments.push(TissueCompartment::new(5_000_000, 4_150_000, 47_900));
        compartments.push(TissueCompartment::new(10_000_000, 3_670_000, 47_900));
        compartments.push(TissueCompartment::new(20_000_000, 3_270_000, 58_500));
        compartments.push(TissueCompartment::new(40_000_000, 2_870_000, 47_900));
        compartments.push(TissueCompartment::new(80_000_000, 2_670_000, 47_900));
        compartments.push(TissueCompartment::new(120_000_000, 2_520_000, 47_900));
        let computer = DiveComputer { compartments };
        computer
    }

    /// A dive computer with a bank of the caller's own compartments.
    pub fn with_compartments(compartments: Vec<TissueCompartment>) -> (computer: DiveComputer)
        requires
            compartments@.len() > 0,
            forall|i: int| 0 <= i < compartments@.len() ==> (#[trigger] compartments@[i]).wf(),
        ensures
            computer@ == Seq::new(compartments@.len(), |i: int| compartments@[i]@),
            computer.wf(),
    {
        DiveComputer { compartments }
    }

    /// Advances every compartment by the time `time_at_depth` spent at
    /// `depth`, breathing air.
    pub fn run_iteration(&mut self, time_at_depth: Minutes, depth: Feet)
        requires
            old(self).wf(),
            depth.within_limits(),
        ensures
            final(self)@ == bank_after(old(self)@, time_at_depth.0 as nat, depth.0 as int),
            final(self)@.len() == old(self)@.len(),
            final(self).wf(),
            time_at_depth.0 == 0 ==> final(self)@ == old(self)@,
    {
        proof {
            lemma_no_time_changes_no_compartment(self@, depth.0 as int);
        }
        let count: usize = self.compartments.len();
        let mut i: usize = 0;
        assert forall|j: int| 0 <= j < count implies (#[trigger] self.compartments@[j]).wf() by {
            assert(self@[j].wf());
        }
        while i < count
            invariant
                i <= count,
                count == self.compartments@.len(),
                count == old(self)@.len(),
                depth.within_limits(),
                forall|j: int| 0 <= j < count ==> (#[trigger] self.compartments@[j]).wf(),
                forall|j: int|
                    0 <= j < i ==> (#[trigger] self.compartments@[j])@ == old(self)@[j].after(
                        time_at_depth.0 as nat,
                        depth.0 as int,
                        AIR_NITROGEN_RATIO as int,
                    ),
                forall|j: int|
                    i <= j < count ==> (#[trigger] self.compartments@[j])@ == old(self)@[j],
            decreases count - i,
        {
            self.compartments[i].simulate(time_at_depth, depth, AIR_NITROGEN_RATIO);
            i = i + 1;
        }
    }

    /// The compartments, in the order of the bank.
    pub fn compartments(&self) -> (compartments: &Vec<TissueCompartment>)
        ensures
            compartments@.len() == self@.len(),
            forall|i: int| 0 <= i < self@.len() ==> (#[trigger] compartments@[i])@ == self@[i],
    {
        &self.compartments
    }

    /// The compartment that governs the ascent, as its index in the bank and
    /// its ceiling: the first of those whose ceiling is deepest.
    pub fn governing_compartment(&self) -> (governing: (usize, Feet))
        requires
            self.wf(),
        ensures
            is_governing(self@, governing.0 as int),
            governing.1.0 == self@[governing.0 as int].ceiling(),
    {
        let mut chosen_compartment: usize = 0;
        let mut chosen_compartment_min_safe_depth: Feet = Feet(0);
        let count: usize = self.compartments.len();
        let mut i: usize = 0;
        while i < count
            invariant
                i <= count,
                count == self.compartments@.len(),
                count > 0,
                self.wf(),
                i == 0 ==> chosen_compartment == 0 && chosen_compartment_min_safe_depth.0 == 0,
                i > 0 ==> chosen_compartment < i && chosen_compartment_min_safe_depth.0
                    == self@[chosen_compartment as int].ceiling(),
                forall|j: int|
                    0 <= j < i ==> (#[trigger] self@[j]).ceiling()
                        <= chosen_compartment_min_safe_depth.0,
                forall|j: int|
                    0 <= j < chosen_compartment ==> (#[trigger] self@[j]).ceiling()
                        < chosen_compartment_min_safe_depth.0,
            decreases count - i,
        {
            assert(self@[i as int].wf());
            let min_safe_depth: Feet = self.compartments[i].ceiling();
            if min_safe_depth.0 > chosen_compartment_min_safe_depth.0 {
                chosen_compartment = i;
                chosen_compartment_min_safe_depth = min_safe_depth;
            }
            i = i + 1;
        }
        (chosen_compartment, chosen_compartment_min_safe_depth)
    }
}

} // verus!
