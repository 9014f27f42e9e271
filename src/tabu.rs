use std::collections::VecDeque;

use vstd::prelude::*;

use crate::solution::{Solution, SolutionView};

verus! {

/// A bounded memory of recently accepted solutions, oldest first. A full
/// memory forgets its oldest entry to make room for a new one.
#[derive(Debug)]
pub struct TabuMemory {
    tabu_list: VecDeque<Solution>,
    tabu_list_size: usize,
}

/// The entries of a memory of capacity `capacity` holding `entries` after
/// `s` is offered: unchanged when the capacity is zero or `s` is already held;
/// otherwise `s` is appended, after the oldest entry is dropped if the memory
/// was full.
pub open spec fn after_insert(entries: Seq<SolutionView>, capacity: nat, s: SolutionView) -> Seq<
    SolutionView,
> {
    if capacity == 0 || entries.contains(s) {
        entries
    } else if entries.len() >= capacity {
        entries.drop_first().push(s)
    } else {
        entries.push(s)
    }
}

impl TabuMemory {
    /// The remembered solutions, oldest first.
    pub closed spec fn entries(&self) -> Seq<SolutionView> {
        self.tabu_list@.map_values(|s: Solution| s@)
    }

    /// The most entries the memory holds.
    pub closed spec fn capacity(&self) -> nat {
        self.tabu_list_size as nat
    }

    /// No solution is held twice and the capacity is respected.
    pub open spec fn wf(&self) -> bool {
        &&& self.entries().no_duplicates()
        &&& self.entries().len() <= self.capacity()
    }

    /// An empty memory that holds at most `tabu_list_size` solutions.
    pub fn new(tabu_list_size: usize) -> (r: TabuMemory)
        ensures
            r.wf(),
            r.entries() == Seq::<SolutionView>::empty(),
            r.capacity() == tabu_list_size,
    {
        let r = TabuMemory { tabu_list: VecDeque::new(), tabu_list_size };
        assert(r.entries() =~= Seq::<SolutionView>::empty());
        r
    }

    /// The number of remembered solutions.
    pub fn len(&self) -> (r: usize)
        ensures
            r == self.entries().len(),
    {
        self.tabu_list.len()
    }

    /// Whether a solution equal to `solution` is remembered.
    pub fn is_tabu(&self, solution: &Solution) -> (r: bool)
        ensures
            r == self.entries().contains(solution@),
    {
        let mut i: usize = 0;
        while i < self.tabu_list.len()
            invariant
                i <= self.tabu_list@.len(),
                forall|j: int| 0 <= j < i ==> self.entries()[j] != solution@,
            decreases self.tabu_list@.len() - i,
        {
            if self.tabu_list[i] == *solution {
                assert(self.entries()[i as int] == solution@);
                return true;
            }
            i = i + 1;
        }
        false
    }

    /// Remembers `solution`, forgetting the oldest entry first when the memory
    /// is full. A solution already remembered, or a memory of capacity zero,
    /// is left as it is.
    pub fn add_to_tabu_list(&mut self, solution: Solution)
        requires
            old(self).wf(),
        ensures
            final(self).wf(),
            final(self).capacity() == old(self).capacity(),
            final(self).entries() == after_insert(
                old(self).entries(),
                old(self).capacity(),
                solution@,
            ),
    {
        if self.tabu_list_size == 0 || self.is_tabu(&solution) {
            return;
        }
        let ghost before = self.entries();
        if self.tabu_list.len() >= self.tabu_list_size {
            let _ = self.tabu_list.pop_front();
            assert(self.entries() =~= before.drop_first());
        }
        let ghost kept = self.entries();
        self.tabu_list.push_back(solution);
        assert(self.entries() =~= kept.push(solution@));
        assert forall|i: int, j: int|
            0 <= i < self.entries().len() && 0 <= j < self.entries().len() && i != j implies
            self.entries()[i] != self.entries()[j] by {
            if before.len() >= self.tabu_list_size {
                if i < kept.len() {
                    assert(kept[i] == before[i + 1]);
                }
                if j < kept.len() {
                    assert(kept[j] == before[j + 1]);
                }
                if i == kept.len() {
                    assert(before.contains(before[j + 1]));
                }
                if j == kept.len() {
                    assert(before.contains(before[i + 1]));
                }
            } else {
                if i == kept.len() {
                    assert(before.contains(before[j]));
                }
                if j == kept.len() {
                    assert(before.contains(before[i]));
                }
            }
        }
    }
}

/// The memory never holds more solutions than its capacity, and as a queue it
/// holds exactly as many entries as the set of solutions it remembers.
pub proof fn lemma_memory_size(m: TabuMemory)
    requires
        m.wf(),
    ensures
        m.entries().len() == m.entries().to_set().len(),
        m.entries().to_set().len() <= m.capacity(),
{
    m.entries().unique_seq_to_set();
}

} // verus!
