//! A single grid cell: its category, its age in ticks, and the per-rule
//! liveness bits that cache "this rule is still worth attempting here".

use vstd::prelude::*;

use crate::category::CategoryId;

verus! {

/// The mathematical value of a [`Tile`].
#[verifier::ext_equal]
pub struct TileModel {
    pub category: CategoryId,
    pub iterations: u64,
    pub live: Seq<bool>,
}

/// One cell of the grid. `live_sequences[n]` caches whether rule `n` is
/// still considered possibly applicable starting from this cell; clearing a
/// bit is purely an optimization, never a correctness requirement, because
/// the matcher re-validates categories against the grid itself.
pub struct Tile {
    pub category: CategoryId,
    pub iterations: u64,
    pub live_sequences: Vec<bool>,
}

impl View for Tile {
    type V = TileModel;

    open spec fn view(&self) -> TileModel {
        TileModel {
            category: self.category,
            iterations: self.iterations,
            live: self.live_sequences@,
        }
    }
}

/// All liveness bits of a cell are set.
pub open spec fn fully_live(live: Seq<bool>) -> bool {
    forall|i: int| 0 <= i < live.len() ==> live[i]
}

/// A cell's age after one aging step: one more, saturating at the top.
pub open spec fn aged(n: u64) -> u64 {
    if n < u64::MAX {
        (n + 1) as u64
    } else {
        n
    }
}

impl Tile {
    /// A fresh cell: the given category, age zero, and every one of the
    /// `n_rules` liveness bits set.
    pub fn new(category: CategoryId, n_rules: usize) -> (t: Tile)
        ensures
            t@.category == category,
            t@.iterations == 0,
            t@.live.len() == n_rules,
            fully_live(t@.live),
    {
        let mut live_sequences: Vec<bool> = Vec::new();
        let mut i: usize = 0;
        while i < n_rules
            invariant
                i <= n_rules,
                live_sequences@.len() == i,
                forall|k: int| 0 <= k < i ==> live_sequences@[k],
            decreases n_rules - i,
        {
            live_sequences.push(true);
            i = i + 1;
        }
        Tile { category, iterations: 0, live_sequences }
    }

    /// Replaces the cell's category and resets its age, leaving the
    /// liveness bits as they are.
    pub fn set_color(&mut self, new_color: CategoryId)
        ensures
            final(self)@.category == new_color,
            final(self)@.iterations == 0,
            final(self)@.live == old(self)@.live,
    {
        self.category = new_color;
        self.iterations = 0;
    }

    /// Ages the cell by one tick, saturating at the top of the counter.
    pub fn iterate(&mut self)
        ensures
            final(self)@.category == old(self)@.category,
            final(self)@.iterations == aged(old(self)@.iterations),
            final(self)@.live == old(self)@.live,
    {
        if self.iterations < u64::MAX {
            self.iterations = self.iterations + 1;
        }
    }

    /// Clears the liveness bit of rule `n`: this cell is no longer a scan
    /// candidate for that rule until a neighbor write revives it.
    pub fn kill(&mut self, n: usize)
        requires
            n < old(self)@.live.len(),
        ensures
            final(self)@.category == old(self)@.category,
            final(self)@.iterations == old(self)@.iterations,
            final(self)@.live == old(self)@.live.update(n as int, false),
    {
        self.live_sequences.set(n, false);
    }

    /// Sets every liveness bit and resets the cell's age: a neighboring
    /// cell changed, so every rule may be applicable here again.
    pub fn set_live(&mut self)
        ensures
            final(self)@.category == old(self)@.category,
            final(self)@.iterations == 0,
            final(self)@.live.len() == old(self)@.live.len(),
            fully_live(final(self)@.live),
    {
        self.iterations = 0;
        let n = self.live_sequences.len();
        let mut i: usize = 0;
        while i < n
            invariant
                i <= n,
                self.live_sequences@.len() == n,
                self.category == old(self).category,
                self.iterations == 0,
                forall|k: int| 0 <= k < i ==> self.live_sequences@[k],
            decreases n - i,
        {
            self.live_sequences.set(i, true);
            i = i + 1;
        }
    }

    /// Reads the liveness bit of rule `n`.
    pub fn is_sequence_live(&self, n: usize) -> (r: bool)
        requires
            n < self@.live.len(),
        ensures
            r == self@.live[n as int],
    {
        self.live_sequences[n]
    }
}

} // verus!
