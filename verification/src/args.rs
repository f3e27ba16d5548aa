//! Concrete argument assignments handed to `Circuit::execute`: for each
//! argument name, the ordered bits of that input array.

use vstd::prelude::*;

verus! {

/// The map an entry sequence denotes: later entries shadow earlier ones.
pub open spec fn string_map_of(s: Seq<(Seq<char>, Seq<bool>)>) -> Map<Seq<char>, Seq<bool>>
    decreases s.len(),
{
    if s.len() == 0 {
        Map::empty()
    } else {
        string_map_of(s.drop_last()).insert(s.last().0, s.last().1)
    }
}

/// An argument assignment: a mapping from argument name to the ordered
/// boolean values of that input array.
pub struct Arguments {
    entries: Vec<(String, Vec<bool>)>,
}

impl View for Arguments {
    type V = Map<Seq<char>, Seq<bool>>;

    closed spec fn view(&self) -> Map<Seq<char>, Seq<bool>> {
        string_map_of(self.entries@.map_values(|e: (String, Vec<bool>)| (e.0@, e.1@)))
    }
}

impl Arguments {
    /// The empty assignment.
    pub fn new() -> (r: Self)
        ensures
            r@ == Map::<Seq<char>, Seq<bool>>::empty(),
    {
        Arguments { entries: Vec::new() }
    }

    /// Binds `name` to `values`, shadowing any earlier binding of the same
    /// name.
    pub fn set(&mut self, name: String, values: Vec<bool>)
        ensures
            final(self)@ == old(self)@.insert(name@, values@),
    {
        let ghost gname = name@;
        let ghost gvalues = values@;
        self.entries.push((name, values));
        proof {
            let olds = old(self).entries@.map_values(|e: (String, Vec<bool>)| (e.0@, e.1@));
            let news = self.entries@.map_values(|e: (String, Vec<bool>)| (e.0@, e.1@));
            assert(news.drop_last() =~= olds);
            assert(news.last() == (gname, gvalues));
        }
    }

    /// Reads bit `index` of the array bound to `name`.
    pub fn get_bit(&self, name: &String, index: u32) -> (r: bool)
        requires
            self@.dom().contains(name@),
            index < self@[name@].len(),
        ensures
            r == self@[name@][index as int],
    {
        let ghost full = self.entries@.map_values(|e: (String, Vec<bool>)| (e.0@, e.1@));
        let mut i: usize = self.entries.len();
        proof {
            assert(full.take(i as int) =~= full);
        }
        while i > 0
            invariant
                i <= self.entries.len(),
                full == self.entries@.map_values(|e: (String, Vec<bool>)| (e.0@, e.1@)),
                index < self@[name@].len(),
                string_map_of(full.take(i as int)).dom().contains(name@),
                string_map_of(full.take(i as int))[name@] == self@[name@],
            decreases i,
        {
            i = i - 1;
            proof {
                assert(full.take(i + 1 as int).drop_last() =~= full.take(i as int));
                assert(full.take(i + 1 as int).last() == full[i as int]);
            }
            let e = &self.entries[i];
            if e.0 == *name {
                return e.1[index as usize];
            }
        }
        proof {
            assert(full.take(0) =~= Seq::<(Seq<char>, Seq<bool>)>::empty());
        }
        vstd::pervasive::unreached()
    }
}

} // verus!
