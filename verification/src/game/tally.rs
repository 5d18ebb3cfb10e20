//! Counting agents by age class.

use crate::game::agent::AgentType;
use crate::game::chance::{Chance, ThreadChance};
use crate::game::game::Model;
use crate::game::grid::Grid;
use vstd::prelude::*;

verus! {

/// How many entries of `classes` are `class`.
pub open spec fn class_count(classes: Seq<AgentType>, class: AgentType) -> int
    decreases classes.len(),
{
    if classes.len() == 0 {
        0
    } else {
        class_count(classes.drop_last(), class) + if classes.last() == class {
            1int
        } else {
            0int
        }
    }
}

/// No class occurs more often than there are entries.
pub proof fn lemma_class_count_bound(classes: Seq<AgentType>, class: AgentType)
    ensures
        0 <= class_count(classes, class) <= classes.len(),
    decreases classes.len(),
{
    if classes.len() > 0 {
        lemma_class_count_bound(classes.drop_last(), class);
    }
}

/// `n`, or the largest 32-bit number if `n` is larger than that.
pub open spec fn capped(n: int) -> u32 {
    if n > u32::MAX {
        u32::MAX
    } else {
        n as u32
    }
}

/// One more than `count`, unless `count` is the largest 32-bit number.
pub fn one_more(count: u32) -> (next: u32)
    ensures
        forall|n: int| n >= 0 && count == capped(n) ==> next == #[trigger] capped(n + 1),
{
    if count < u32::MAX {
        count + 1
    } else {
        count
    }
}

/// The age classes of the agents in `admitted`, in their order.
pub open spec fn classes_of(admitted: Seq<(usize, AgentType)>) -> Seq<AgentType> {
    admitted.map_values(|entry: (usize, AgentType)| entry.1)
}

/// Number of agents of each of the four age classes. Agents of a custom
/// class are not counted.
#[derive(Clone, Copy, Debug, PartialEq, Eq)]
pub struct ShelterAgentCounts {
    pub child: u32,
    pub teen: u32,
    pub adult: u32,
    pub elder: u32,
}

impl ShelterAgentCounts {
    /// An empty tally.
    pub fn new() -> (counts: Self)
        ensures
            counts.child == 0,
            counts.teen == 0,
            counts.adult == 0,
            counts.elder == 0,
    {
        ShelterAgentCounts { child: 0, teen: 0, adult: 0, elder: 0 }
    }

    /// The tally counts `classes`; a count that does not fit in 32 bits
    /// stands at the largest 32-bit number.
    pub open spec fn counts(&self, classes: Seq<AgentType>) -> bool {
        &&& self.child == capped(class_count(classes, AgentType::Child))
        &&& self.teen == capped(class_count(classes, AgentType::Teen))
        &&& self.adult == capped(class_count(classes, AgentType::Adult))
        &&& self.elder == capped(class_count(classes, AgentType::Elder))
    }

    /// Counts the age classes in `classes`.
    pub fn of_classes(classes: &Vec<AgentType>) -> (counts: Self)
        ensures
            counts.counts(classes@),
    {
        let mut counts = ShelterAgentCounts::new();
        let mut i: usize = 0;
        assert(classes@.take(0) =~= Seq::<AgentType>::empty());
        while i < classes.len()
            invariant
                i <= classes@.len(),
                counts.counts(classes@.take(i as int)),
            decreases classes@.len() - i,
        {
            let ghost seen = classes@.take(i as int);
            let ghost next = classes@.take(i as int + 1);
            proof {
                assert(next.drop_last() =~= seen);
                assert(next.last() == classes@[i as int]);
                lemma_class_count_bound(seen, AgentType::Child);
                lemma_class_count_bound(seen, AgentType::Teen);
                lemma_class_count_bound(seen, AgentType::Adult);
                lemma_class_count_bound(seen, AgentType::Elder);
            }
            match classes[i] {
                AgentType::Child => {
                    counts.child = one_more(counts.child);
                },
                AgentType::Teen => {
                    counts.teen = one_more(counts.teen);
                },
                AgentType::Adult => {
                    counts.adult = one_more(counts.adult);
                },
                AgentType::Elder => {
                    counts.elder = one_more(counts.elder);
                },
                AgentType::Custom(_) => {},
            }
            i = i + 1;
        }
        assert(classes@.take(i as int) =~= classes@);
        counts
    }

    /// Counts the age classes of the agents in `admitted`.
    pub fn of_admitted(admitted: &Vec<(usize, AgentType)>) -> (counts: Self)
        ensures
            counts.counts(classes_of(admitted@)),
    {
        let mut classes: Vec<AgentType> = Vec::new();
        let mut i: usize = 0;
        while i < admitted.len()
            invariant
                i <= admitted@.len(),
                classes@ == classes_of(admitted@.take(i as int)),
            decreases admitted@.len() - i,
        {
            classes.push(admitted[i].1);
            assert(classes@ =~= classes_of(admitted@.take(i as int + 1)));
            i = i + 1;
        }
        assert(admitted@.take(i as int) =~= admitted@);
        Self::of_classes(&classes)
    }
}

impl Model {
    /// For each entry of the shelter list, in its order, the shelter's
    /// identifier and the tally of the agents admitted to it.
    pub fn shelter_report(&self) -> (report: Vec<(u32, ShelterAgentCounts)>)
        ensures
            report@.len() == self.grid.shelters@.len(),
            forall|i: int|
                0 <= i < report@.len() ==> (#[trigger] report@[i]).0 == self.grid.shelters@[i].2
                    && report@[i].1.counts(classes_of(self.grid.admitted(report@[i].0))),
    {
        broadcast use vstd::std_specs::hash::group_hash_axioms;

        let mut report: Vec<(u32, ShelterAgentCounts)> = Vec::new();
        let mut i: usize = 0;
        while i < self.grid.shelters.len()
            invariant
                i <= self.grid.shelters@.len(),
                report@.len() == i,
                forall|k: int|
                    0 <= k < i ==> (#[trigger] report@[k]).0 == self.grid.shelters@[k].2
                        && report@[k].1.counts(classes_of(self.grid.admitted(report@[k].0))),
            decreases self.grid.shelters@.len() - i,
        {
            let shelter_id = self.grid.shelters[i].2;
            let counts = match self.grid.shelter_agents.get(&shelter_id) {
                Some(admitted) => ShelterAgentCounts::of_admitted(admitted),
                None => {
                    assert(classes_of(self.grid.admitted(shelter_id)) =~= Seq::<AgentType>::empty());
                    ShelterAgentCounts::new()
                },
            };
            report.push((shelter_id, counts));
            i = i + 1;
        }
        report
    }

    /// The total number of agents admitted to the shelters of the shelter
    /// list, a shelter that the list names twice counting twice. A total that
    /// does not fit in 64 bits stands at the largest 64-bit number.
    pub fn sheltered_count(&self) -> (count: u64)
        ensures
            count == if admitted_total(&self.grid, self.grid.shelters@.len() as int) > u64::MAX {
                u64::MAX as int
            } else {
                admitted_total(&self.grid, self.grid.shelters@.len() as int)
            },
    {
        broadcast use vstd::std_specs::hash::group_hash_axioms;

        let mut count: u64 = 0;
        let mut i: usize = 0;
        while i < self.grid.shelters.len()
            invariant
                i <= self.grid.shelters@.len(),
                admitted_total(&self.grid, i as int) >= 0,
                count == if admitted_total(&self.grid, i as int) > u64::MAX {
                    u64::MAX as int
                } else {
                    admitted_total(&self.grid, i as int)
                },
            decreases self.grid.shelters@.len() - i,
        {
            let shelter_id = self.grid.shelters[i].2;
            let here: u64 = match self.grid.shelter_agents.get(&shelter_id) {
                Some(admitted) => admitted.len() as u64,
                None => 0,
            };
            assert(here == self.grid.admitted(shelter_id).len());
            count = if here > u64::MAX - count {
                u64::MAX
            } else {
                count + here
            };
            i = i + 1;
        }
        count
    }
}

/// What a tick reports to its driver.
pub struct StepReport {
    /// How many agents died in the tick.
    pub deaths: usize,
    /// The tally of the agents that died in the tick.
    pub deaths_by_class: ShelterAgentCounts,
    /// For each entry of the shelter list, in its order, the shelter's
    /// identifier and the tally of the agents admitted to it so far.
    pub shelters: Vec<(u32, ShelterAgentCounts)>,
}

impl Model {
    /// Runs one tick, as `step_with` does, and reports the deaths of the tick
    /// and the state of the shelters after it.
    pub fn tick_with<C: Chance>(
        &mut self,
        step: u32,
        is_tsunami: bool,
        tsunami_number: usize,
        chance: &mut C,
    ) -> (report: StepReport)
        requires
            old(self).safe(),
            is_tsunami ==> tsunami_number < old(self).grid.tsunami_data@.len(),
        ensures
            final(self).safe(),
            final(self).ticked(old(self), is_tsunami, tsunami_number),
            report.deaths == old(self).dying(is_tsunami, tsunami_number).len(),
            report.deaths == old(self).agents@.len() - final(self).agents@.len(),
            report.deaths_by_class.counts(old(self).dying(is_tsunami, tsunami_number)),
            report.shelters@.len() == final(self).grid.shelters@.len(),
            forall|i: int|
                0 <= i < report.shelters@.len() ==> (#[trigger] report.shelters@[i]).0
                    == final(self).grid.shelters@[i].2 && report.shelters@[i].1.counts(
                    classes_of(final(self).grid.admitted(report.shelters@[i].0)),
                ),
    {
        let tallied = self.dead_agent_types.len();
        let dead_before = self.dead_agents;
        self.step_with(step, is_tsunami, tsunami_number, chance);
        let ghost dying = old(self).dying(is_tsunami, tsunami_number);
        let mut fallen: Vec<AgentType> = Vec::new();
        let mut i: usize = tallied;
        while i < self.dead_agent_types.len()
            invariant
                tallied <= i <= self.dead_agent_types@.len(),
                tallied == old(self).dead_agent_types@.len(),
                self.dead_agent_types@ == old(self).dead_agent_types@ + dying,
                fallen@ == dying.take(i - tallied),
            decreases self.dead_agent_types@.len() - i,
        {
            fallen.push(self.dead_agent_types[i]);
            assert(fallen@ =~= dying.take(i - tallied + 1));
            i = i + 1;
        }
        assert(dying.take(i - tallied) =~= dying);
        StepReport {
            deaths: self.dead_agents - dead_before,
            deaths_by_class: ShelterAgentCounts::of_classes(&fallen),
            shelters: self.shelter_report(),
        }
    }

    /// Runs one tick, as `tick_with` does, with the generator of the running
    /// thread for its random decisions.
    pub fn tick(&mut self, step: u32, is_tsunami: bool, tsunami_number: usize) -> (report: StepReport)
        requires
            old(self).safe(),
            is_tsunami ==> tsunami_number < old(self).grid.tsunami_data@.len(),
        ensures
            final(self).safe(),
            final(self).ticked(old(self), is_tsunami, tsunami_number),
            report.deaths == old(self).dying(is_tsunami, tsunami_number).len(),
            report.deaths == old(self).agents@.len() - final(self).agents@.len(),
            report.deaths_by_class.counts(old(self).dying(is_tsunami, tsunami_number)),
            report.shelters@.len() == final(self).grid.shelters@.len(),
            forall|i: int|
                0 <= i < report.shelters@.len() ==> (#[trigger] report.shelters@[i]).0
                    == final(self).grid.shelters@[i].2 && report.shelters@[i].1.counts(
                    classes_of(final(self).grid.admitted(report.shelters@[i].0)),
                ),
    {
        let mut chance = ThreadChance::new();
        self.tick_with(step, is_tsunami, tsunami_number, &mut chance)
    }
}

/// The number of agents admitted to the shelters that the first `n` entries
/// of the shelter list name.
pub open spec fn admitted_total(grid: &Grid, n: int) -> int
    decreases n,
{
    if n <= 0 {
        0
    } else {
        admitted_total(grid, n - 1) + grid.admitted(grid.shelters@[n - 1].2).len()
    }
}

} // verus!
