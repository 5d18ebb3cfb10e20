//! Where the randomness of a run comes from: the generator of the running
//! thread, or a seed, which makes a run repeatable.

use crate::game::frontier::lemma_exchange_contents;
use crate::game::random::{choose_cell, shuffle_order, thread_generator};
use rand::rngs::ThreadRng;
use vstd::prelude::*;

verus! {

/// A source of the two random decisions of a sub-step.
pub trait Chance {
    /// Rearranges `order`: afterwards it holds what it held before, each
    /// value as often as before.
    fn shuffle(&mut self, order: &mut Vec<usize>)
        ensures
            final(order)@.to_multiset() == old(order)@.to_multiset(),
    ;

    /// Picks one of `cells`; nothing where there is none.
    fn pick(&mut self, cells: &Vec<(u32, u32)>) -> (chosen: Option<(u32, u32)>)
        ensures
            chosen is None <==> cells@.len() == 0,
            chosen is Some ==> cells@.contains(chosen->0),
    ;
}

/// Chance from the generator of the running thread.
pub struct ThreadChance {
    generator: ThreadRng,
}

impl ThreadChance {
    /// A handle to the generator of the running thread.
    pub fn new() -> (chance: Self) {
        ThreadChance { generator: thread_generator() }
    }
}

impl Chance for ThreadChance {
    /// A shuffle in which every arrangement is as likely as any other.
    fn shuffle(&mut self, order: &mut Vec<usize>) {
        shuffle_order(order, &mut self.generator);
    }

    /// A choice in which every cell is as likely as any other.
    fn pick(&mut self, cells: &Vec<(u32, u32)>) -> (chosen: Option<(u32, u32)>) {
        choose_cell(cells, &mut self.generator)
    }
}

/// The multiplier of the sequence of numbers that a seed gives.
pub const STRIDE: u64 = 6364136223846793005;

/// The increment of the sequence of numbers that a seed gives.
pub const OFFSET: u64 = 1442695040888963407;

/// The number that follows `state` in the sequence: `state` times the stride
/// plus the offset, in 64 bits.
pub open spec fn following(state: u64) -> u64 {
    ((state * STRIDE + OFFSET) % 0x1_0000_0000_0000_0000) as u64
}

/// Chance from a seed: the same seed gives the same decisions.
pub struct Seeded {
    pub state: u64,
}

impl Seeded {
    /// Chance that starts from `seed`.
    pub fn new(seed: u64) -> (chance: Self)
        ensures
            chance.state == seed,
    {
        Seeded { state: seed }
    }

    /// Moves on in the sequence and returns a number below `bound` that the
    /// upper half of the new state gives.
    pub fn below(&mut self, bound: usize) -> (number: usize)
        requires
            bound > 0,
        ensures
            final(self).state == following(old(self).state),
            number == drawn(final(self).state, bound as int),
            number < bound,
    {
        assert((self.state as u128) * (STRIDE as u128) <= 0xffff_ffff_ffff_ffff
            * 6364136223846793005) by (nonlinear_arith)
            requires
                self.state <= 0xffff_ffff_ffff_ffff,
                STRIDE == 6364136223846793005,
        ;
        let wide: u128 = (self.state as u128) * (STRIDE as u128) + (OFFSET as u128);
        self.state = (wide % 0x1_0000_0000_0000_0000) as u64;
        (((self.state / 0x1_0000_0000) as u128) % (bound as u128)) as usize
    }
}

/// The number below `bound` that the state `state` gives: its upper half,
/// reduced by `bound`.
pub open spec fn drawn(state: u64, bound: int) -> int {
    (state / 0x1_0000_0000) as int % bound
}

/// `order` with the entries at `i` and `j` exchanged.
pub open spec fn exchanged(order: Seq<usize>, i: int, j: int) -> Seq<usize> {
    order.update(i, order[j]).update(j, order[i])
}

/// What a seeded shuffle makes of `order` and of the state `state` once the
/// entries from place `i` on are done: going down from the end, the entry at
/// each place but the first is exchanged with the entry at the place, at or
/// before it, that the next number of the sequence gives.
pub open spec fn seeded_shuffle(order: Seq<usize>, state: u64, i: int) -> (Seq<usize>, u64)
    decreases order.len() - i,
{
    if i < 1 || i >= order.len() {
        (order, state)
    } else {
        let later = seeded_shuffle(order, state, i + 1);
        let next = following(later.1);
        (exchanged(later.0, i, drawn(next, i + 1)), next)
    }
}

impl Chance for Seeded {
    /// Goes through `order` from its end, exchanging each entry but the
    /// first with one at or before its place that the next number of the
    /// sequence picks.
    fn shuffle(&mut self, order: &mut Vec<usize>)
        ensures
            final(order)@ == seeded_shuffle(old(order)@, old(self).state, 1).0,
            final(self).state == seeded_shuffle(old(order)@, old(self).state, 1).1,
    {
        let mut i: usize = order.len();
        let ghost start = order@;
        let ghost seed = self.state;
        assert(seeded_shuffle(start, seed, i as int) == (start, seed));
        while i > 1
            invariant
                i <= order@.len(),
                i >= 1 || start.len() == 0,
                start == old(order)@,
                seed == old(self).state,
                order@.len() == start.len(),
                order@.to_multiset() == start.to_multiset(),
                order@ == seeded_shuffle(start, seed, i as int).0,
                self.state == seeded_shuffle(start, seed, i as int).1,
            decreases i,
        {
            i = i - 1;
            let ghost later = seeded_shuffle(start, seed, i as int + 1);
            let ghost before = order@;
            assert(before == later.0 && self.state == later.1);
            let j = self.below(i + 1);
            let a = order[i];
            let b = order[j];
            order[i] = b;
            order[j] = a;
            proof {
                lemma_exchange_contents(before, i as int, j as int);
                assert(order@ =~= exchanged(before, i as int, j as int));
                assert(seeded_shuffle(start, seed, i as int) == (
                    exchanged(later.0, i as int, drawn(following(later.1), i as int + 1)),
                    following(later.1),
                ));
            }
        }
        proof {
            if i == 0 {
                assert(seeded_shuffle(start, seed, 1) == (start, seed));
            }
        }
    }

    /// Picks the cell at the place that the next number of the sequence
    /// gives.
    fn pick(&mut self, cells: &Vec<(u32, u32)>) -> (chosen: Option<(u32, u32)>)
        ensures
            cells@.len() == 0 ==> final(self).state == old(self).state,
            cells@.len() > 0 ==> final(self).state == following(old(self).state) && chosen == Some(
                cells@[drawn(final(self).state, cells@.len() as int)],
            ),
    {
        if cells.len() == 0 {
            None
        } else {
            let k = self.below(cells.len());
            Some(cells[k])
        }
    }
}

} // verus!
