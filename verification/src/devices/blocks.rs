//! The plugged blocks of a memory device, by address.
use crate::guest::{Allocation, Region};
use std::collections::BTreeMap;
use vstd::prelude::*;

verus! {

broadcast use vstd::std_specs::btree::group_btree_axioms;

/// Blocks of one size, each under its first address.
pub struct Blocks {
    map: BTreeMap<u64, Region>,
    size: u64,
}

impl Blocks {
    /// What backs the block at each address.
    pub closed spec fn table(&self) -> Map<u64, Allocation> {
        self.map@.map_values(|r: Region| r.allocation())
    }

    /// The addresses of the blocks.
    pub open spec fn set(&self) -> Set<u64> {
        self.table().dom()
    }

    /// The size of every block.
    pub closed spec fn size_of(&self) -> u64 {
        self.size
    }

    /// The block at an address backs it, for the size of a block.
    #[verifier::type_invariant]
    spec fn inv(self) -> bool {
        forall|a: u64| #[trigger]
            self.map@.contains_key(a) ==> self.map@[a].range() == (a, self.size)
    }

    pub fn new(size: u64) -> (r: Blocks)
        ensures
            r.table() == Map::<u64, Allocation>::empty(),
            r.set() == Set::<u64>::empty(),
            r.size_of() == size,
    {
        Blocks { map: BTreeMap::new(), size }
    }

    pub fn contains(&self, addr: u64) -> (r: bool)
        ensures
            r == self.set().contains(addr),
    {
        self.map.contains_key(&addr)
    }

    pub fn count(&self) -> (r: usize)
        ensures
            r == self.set().len(),
            self.set().finite(),
    {
        assert(self.set() =~= self.map@.dom());
        self.map.len()
    }

    /// Another handle to the block at `addr`.
    pub fn share(&self, addr: u64) -> (r: Option<Region>)
        ensures
            r is Some <==> self.set().contains(addr),
            r matches Some(region) ==> region.range() == (addr, self.size_of())
                && region.allocation() == self.table()[addr],
    {
        proof {
            use_type_invariant(self);
        }
        match self.map.get(&addr) {
            Some(region) => Some(region.share()),
            None => None,
        }
    }

    pub fn insert(&mut self, region: Region)
        requires
            region.range().1 == old(self).size_of(),
        ensures
            final(self).table() == old(self).table().insert(
                region.range().0,
                region.allocation(),
            ),
            final(self).size_of() == old(self).size_of(),
    {
        proof {
            use_type_invariant(&*self);
        }
        let addr: u64 = region.start();
        let mut map: BTreeMap<u64, Region> = BTreeMap::new();
        std::mem::swap(&mut map, &mut self.map);
        map.insert(addr, region);
        self.map = map;
    }

    pub fn remove(&mut self, addr: u64)
        ensures
            final(self).table() == old(self).table().remove(addr),
            final(self).size_of() == old(self).size_of(),
    {
        proof {
            use_type_invariant(&*self);
        }
        let mut map: BTreeMap<u64, Region> = BTreeMap::new();
        std::mem::swap(&mut map, &mut self.map);
        map.remove(&addr);
        self.map = map;
    }
}

} // verus!
