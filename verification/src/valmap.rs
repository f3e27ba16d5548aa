//! The wire-value store the execution engine uses: an append-only
//! association list from wire index to boolean, whose view is the map of its
//! entries with later writes shadowing earlier ones.

use crate::model::read;
use vstd::prelude::*;

verus! {

/// The map an entry sequence denotes: later entries shadow earlier ones.
pub open spec fn bool_map_of(s: Seq<(nat, bool)>) -> Map<nat, bool>
    decreases s.len(),
{
    if s.len() == 0 {
        Map::empty()
    } else {
        bool_map_of(s.drop_last()).insert(s.last().0, s.last().1)
    }
}

/// Wire values during one execution. Absent wires read as `false`.
pub struct ValMap {
    entries: Vec<(u32, bool)>,
}

impl View for ValMap {
    type V = Map<nat, bool>;

    closed spec fn view(&self) -> Map<nat, bool> {
        bool_map_of(self.entries@.map_values(|e: (u32, bool)| (e.0 as nat, e.1)))
    }
}

impl ValMap {
    /// The empty value store.
    pub fn new() -> (r: Self)
        ensures
            r@ == Map::<nat, bool>::empty(),
    {
        ValMap { entries: Vec::new() }
    }

    /// Writes wire `w`, shadowing any earlier value.
    pub fn set(&mut self, w: u32, b: bool)
        ensures
            final(self)@ == old(self)@.insert(w as nat, b),
    {
        self.entries.push((w, b));
        proof {
            let olds = old(self).entries@.map_values(|e: (u32, bool)| (e.0 as nat, e.1));
            let news = self.entries@.map_values(|e: (u32, bool)| (e.0 as nat, e.1));
            assert(news.drop_last() =~= olds);
            assert(news.last() == (w as nat, b));
        }
    }

    /// Reads wire `w`: the last value written, or `false` when none was.
    pub fn get(&self, w: u32) -> (r: bool)
        ensures
            r == read(self@, w as nat),
    {
        let ghost full = self.entries@.map_values(|e: (u32, bool)| (e.0 as nat, e.1));
        let mut i: usize = self.entries.len();
        proof {
            assert(full.take(i as int) =~= full);
        }
        while i > 0
            invariant
                i <= self.entries.len(),
                full == self.entries@.map_values(|e: (u32, bool)| (e.0 as nat, e.1)),
                read(self@, w as nat) == read(bool_map_of(full.take(i as int)), w as nat),
            decreases i,
        {
            i = i - 1;
            let (k, v) = self.entries[i];
            proof {
                assert(full.take(i + 1 as int).drop_last() =~= full.take(i as int));
                assert(full.take(i + 1 as int).last() == (k as nat, v));
            }
            if k == w {
                return v;
            }
        }
        false
    }
}

} // verus!
