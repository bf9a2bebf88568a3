//! Guest physical memory: its regions, its byte ranges and the record of what
//! the device models read and write.
use crate::error::MemoryError;
pub use crate::record::Access;
use crate::record::Record;
use std::sync::Arc;
use vm_memory::{
    Bytes, GuestAddress, GuestMemory, GuestMemoryError, GuestRegionCollection,
    GuestRegionCollectionError, GuestRegionMmap, Permissions,
};
use vm_memory::mmap::FromRangesError;
use vstd::prelude::*;

verus! {

/// `vm_memory::GuestRegionCollection`, opaque; see [`guest_regions`].
#[verifier::external_type_specification]
#[verifier::external_body]
#[verifier::reject_recursive_types(Item)]
pub struct ExGuestRegionCollection<Item>(GuestRegionCollection<Item>);

/// `vm_memory::GuestRegionMmap`, opaque.
#[verifier::external_type_specification]
#[verifier::external_body]
#[verifier::reject_recursive_types(Bits)]
pub struct ExGuestRegionMmap<Bits>(GuestRegionMmap<Bits>);

/// `vm_memory::GuestMemoryError`, opaque.
#[verifier::external_type_specification]
#[verifier::external_body]
pub struct ExGuestMemoryError(GuestMemoryError);

/// `vm_memory::GuestRegionCollectionError`, opaque.
#[verifier::external_type_specification]
#[verifier::external_body]
pub struct ExGuestRegionCollectionError(GuestRegionCollectionError);

/// `vm_memory::mmap::FromRangesError`, opaque.
#[verifier::external_type_specification]
#[verifier::external_body]
pub struct ExFromRangesError(FromRangesError);

/// The regions that a `GuestRegionCollection` holds, in address order: the
/// first address and the length of each.
pub uninterp spec fn guest_regions(
    memory: GuestRegionCollection<GuestRegionMmap<()>>,
) -> Seq<(u64, u64)>;

/// The allocation of each region that a `GuestRegionCollection` holds, by the
/// first address of the region.
pub uninterp spec fn guest_backings(
    memory: GuestRegionCollection<GuestRegionMmap<()>>,
) -> Map<u64, Arc<GuestRegionMmap<()>>>;

/// Whether `a` lies in the region `r`.
pub open spec fn holds(r: (u64, u64), a: int) -> bool {
    r.0 <= a < r.0 + r.1
}

/// Whether `a` lies in one of `regions`.
pub open spec fn mapped(regions: Seq<(u64, u64)>, a: int) -> bool {
    exists|i: int| 0 <= i < regions.len() && #[trigger] holds(regions[i], a)
}

/// Whether each of the `len` addresses from `addr` on is mapped.
pub open spec fn covers(regions: Seq<(u64, u64)>, addr: int, len: int) -> bool {
    forall|a: int| addr <= a < addr + len ==> #[trigger] mapped(regions, a)
}

/// Regions are not empty, end below the last address, and follow each other in
/// address order without overlapping.
pub open spec fn ordered(regions: Seq<(u64, u64)>) -> bool {
    &&& forall|i: int|
        0 <= i < regions.len() ==> 0 < (#[trigger] regions[i]).1 && regions[i].0 + regions[i].1
            <= u64::MAX
    &&& forall|i: int, j: int|
        0 <= i < j < regions.len() ==> (#[trigger] regions[i]).0 + regions[i].1 <= (
        #[trigger] regions[j]).0
}

/// Number of bytes from `a` to the end of its region, none if it is unmapped.
pub open spec fn room(regions: Seq<(u64, u64)>, a: int) -> int
    decreases regions.len(),
{
    if regions.len() == 0 {
        0
    } else if holds(regions.last(), a) {
        regions.last().0 + regions.last().1 - a
    } else {
        room(regions.drop_last(), a)
    }
}

/// A run of guest bytes that does not cross a region boundary.
#[derive(Clone, Copy, Debug, PartialEq, Eq, Structural)]
pub struct Segment {
    pub addr: u64,
    pub len: usize,
}

/// The segments of `len` bytes from `addr` on: each reaches to the end of its
/// region or of the range, and they stop where memory is not mapped.
pub open spec fn split(regions: Seq<(u64, u64)>, addr: int, len: int) -> Seq<Segment>
    decreases len,
{
    let n = if room(regions, addr) <= len {
        room(regions, addr)
    } else {
        len
    };
    if len <= 0 || n <= 0 {
        Seq::empty()
    } else {
        seq![(Segment { addr: addr as u64, len: n as usize })] + split(regions, addr + n, len - n)
    }
}

/// Number of bytes in `segments`.
pub open spec fn total(segments: Seq<Segment>) -> int
    decreases segments.len(),
{
    if segments.len() == 0 {
        0
    } else {
        segments[0].len + total(segments.skip(1))
    }
}

pub proof fn lemma_room(regions: Seq<(u64, u64)>, a: int)
    ensures
        room(regions, a) > 0 <==> mapped(regions, a),
        room(regions, a) >= 0,
        ordered(regions) ==> a + room(regions, a) <= u64::MAX || room(regions, a) == 0,
        forall|b: int| a <= b < a + room(regions, a) ==> #[trigger] mapped(regions, b),
    decreases regions.len(),
{
    if regions.len() > 0 {
        let rest = regions.drop_last();
        lemma_room(rest, a);
        let n = regions.len() - 1;
        if holds(regions.last(), a) {
            assert forall|b: int| a <= b < a + room(regions, a) implies #[trigger] mapped(
                regions,
                b,
            ) by {
                assert(holds(regions[n], b));
            }
            assert(holds(regions[n], a));
        } else {
            assert forall|b: int| #[trigger] mapped(rest, b) implies mapped(regions, b) by {
                let i = choose|i: int| 0 <= i < rest.len() && #[trigger] holds(rest[i], b);
                assert(holds(regions[i], b));
            }
            assert forall|b: int| a <= b < a + room(regions, a) implies #[trigger] mapped(
                regions,
                b,
            ) by {
                assert(mapped(rest, b));
            }
            if mapped(regions, a) {
                let i = choose|i: int| 0 <= i < regions.len() && #[trigger] holds(regions[i], a);
                assert(holds(rest[i], a));
            }
            if ordered(regions) {
                assert(ordered(rest)) by {
                    assert forall|i: int| 0 <= i < rest.len() implies 0 < (#[trigger] rest[i]).1
                        && rest[i].0 + rest[i].1 <= u64::MAX by {
                        assert(rest[i] == regions[i]);
                    }
                    assert forall|i: int, j: int| 0 <= i < j < rest.len() implies (
                    #[trigger] rest[i]).0 + rest[i].1 <= (#[trigger] rest[j]).0 by {
                        assert(rest[i] == regions[i] && rest[j] == regions[j]);
                    }
                }
            }
        }
    }
}

proof fn lemma_split_step(regions: Seq<(u64, u64)>, addr: int, len: int)
    requires
        ordered(regions),
        0 <= addr <= u64::MAX,
        0 <= len <= usize::MAX,
        split(regions, addr, len).len() > 0,
    ensures
        split(regions, addr, len)[0].addr == addr,
        0 < split(regions, addr, len)[0].len <= len,
        addr + split(regions, addr, len)[0].len <= u64::MAX,
        split(regions, addr, len).skip(1) == split(
            regions,
            addr + split(regions, addr, len)[0].len,
            len - split(regions, addr, len)[0].len,
        ),
{
    lemma_room(regions, addr);
    let n = if room(regions, addr) <= len {
        room(regions, addr)
    } else {
        len
    };
    let first = Segment { addr: addr as u64, len: n as usize };
    let rest = split(regions, addr + n, len - n);
    assert(split(regions, addr, len) == seq![first] + rest);
    assert((seq![first] + rest).skip(1) =~= rest);
}

pub proof fn lemma_covers_tail(regions: Seq<(u64, u64)>, addr: int, len: int, n: int)
    requires
        covers(regions, addr, len),
        0 <= n <= len,
    ensures
        covers(regions, addr, n),
        covers(regions, addr + n, len - n),
{
}

/// The segments of a mapped range hold exactly its bytes.
pub proof fn split_is_complete(regions: Seq<(u64, u64)>, addr: int, len: int)
    requires
        ordered(regions),
        covers(regions, addr, len),
        0 <= addr,
        0 <= len <= usize::MAX,
    ensures
        total(split(regions, addr, len)) == len,
        within(regions, split(regions, addr, len)),
    decreases len,
{
    reveal_with_fuel(split, 2);
    lemma_room(regions, addr);
    if len > 0 {
        assert(mapped(regions, addr));
        let n = if room(regions, addr) <= len {
            room(regions, addr)
        } else {
            len
        };
        lemma_covers_tail(regions, addr, len, n);
        split_is_complete(regions, addr + n, len - n);
        let first = Segment { addr: addr as u64, len: n as usize };
        let rest = split(regions, addr + n, len - n);
        let all = split(regions, addr, len);
        assert(all =~= seq![first] + rest);
        assert(all.skip(1) =~= rest);
        assert(addr + n <= u64::MAX);
        assert forall|i: int| 0 <= i < all.len() implies covers(
            regions,
            (#[trigger] all[i]).addr as int,
            all[i].len as int,
        ) && 0 < all[i].len && all[i].addr + all[i].len <= u64::MAX by {
            if i > 0 {
                assert(all[i] == rest[i - 1]);
            }
        }
    }
}

/// Each of `segments` is mapped and not empty.
pub open spec fn within(regions: Seq<(u64, u64)>, segments: Seq<Segment>) -> bool {
    forall|i: int|
        0 <= i < segments.len() ==> {
            &&& covers(regions, (#[trigger] segments[i]).addr as int, segments[i].len as int)
            &&& 0 < segments[i].len
            &&& segments[i].addr + segments[i].len <= u64::MAX
        }
}

pub proof fn lemma_total_concat(a: Seq<Segment>, b: Seq<Segment>)
    ensures
        total(a + b) == total(a) + total(b),
    decreases a.len(),
{
    if a.len() == 0 {
        assert(a + b =~= b);
    } else {
        assert((a + b).skip(1) =~= a.skip(1) + b);
        lemma_total_concat(a.skip(1), b);
    }
}

pub proof fn lemma_total_nonneg(a: Seq<Segment>)
    ensures
        total(a) >= 0,
    decreases a.len(),
{
    if a.len() > 0 {
        lemma_total_nonneg(a.skip(1));
    }
}

/// `vm_memory::GuestRegionMmap::from_range`, without a file: an allocation of
/// `size` bytes for the guest addresses from `start` on. It may fail for want
/// of memory, and it fails where the range is empty or passes the last address.
/// What the bytes hold at first, and that no other region shares them, is the
/// host's doing and is not said.
#[verifier::external_body]
fn region_from_range(start: u64, size: usize) -> (r: Result<Region, FromRangesError>)
    ensures
        r matches Ok(region) ==> region.start == start && region.size == size && 0 < size && start
            + size <= u64::MAX,
{
    let backing = GuestRegionMmap::from_range(GuestAddress(start), size, None)?;
    Ok(Region { start, size: size as u64, backing: Arc::new(backing) })
}

/// `vm_memory::GuestRegionCollection::from_arc_regions`: succeeds exactly where
/// there is a region and the regions follow each other without overlapping.
#[verifier::external_body]
fn collection_from_arc_regions(regions: &[Region]) -> (r: Result<
    GuestRegionCollection<GuestRegionMmap<()>>,
    GuestRegionCollectionError,
>)
    ensures
        r is Ok <==> regions@.len() > 0 && forall|i: int, j: int|
            0 <= i < j < regions@.len() ==> (#[trigger] regions@[i]).start + regions@[i].size <= (
            #[trigger] regions@[j]).start,
        r matches Ok(m) ==> guest_regions(m) == ranges(regions@),
        r matches Ok(m) ==> guest_backings(m) == allocations(regions@),
{
    GuestRegionCollection::from_arc_regions(regions.iter().map(|r| r.backing.clone()).collect())
}

/// `vm_memory::GuestRegionCollection::clone`: another view of the same regions.
#[verifier::external_body]
fn collection_clone(memory: &GuestRegionCollection<GuestRegionMmap<()>>) -> (r:
    GuestRegionCollection<GuestRegionMmap<()>>)
    ensures
        guest_regions(r) == guest_regions(*memory),
        guest_backings(r) == guest_backings(*memory),
{
    memory.clone()
}

/// `vm_memory::GuestRegionCollection::insert_region`: succeeds exactly where
/// the new region overlaps none, and puts it at its place in address order.
#[verifier::external_body]
fn collection_insert_region(
    memory: &GuestRegionCollection<GuestRegionMmap<()>>,
    region: &Region,
) -> (r: Result<GuestRegionCollection<GuestRegionMmap<()>>, GuestRegionCollectionError>)
    ensures
        r is Ok <==> fits(guest_regions(*memory), (region.start, region.size)),
        r matches Ok(m) ==> guest_regions(m) == inserted(
            guest_regions(*memory),
            (region.start, region.size),
        ),
        r matches Ok(m) ==> guest_backings(m) == guest_backings(*memory).insert(
            region.start,
            region.backing,
        ),
{
    memory.insert_region(region.backing.clone())
}

/// `vm_memory::GuestRegionCollection::remove_region`: succeeds exactly where a
/// region of that start and length is there, and takes it out.
#[verifier::external_body]
fn collection_remove_region(
    memory: &GuestRegionCollection<GuestRegionMmap<()>>,
    start: u64,
    size: u64,
) -> (r: Result<GuestRegionCollection<GuestRegionMmap<()>>, GuestRegionCollectionError>)
    ensures
        r is Ok <==> guest_regions(*memory).contains((start, size)),
        r matches Ok(m) ==> guest_regions(m) == guest_regions(*memory).filter(
            |x: (u64, u64)| x.0 != start,
        ),
        r matches Ok(m) ==> guest_backings(m) == guest_backings(*memory).remove(start),
{
    Ok(memory.remove_region(GuestAddress(start), size)?.0)
}

/// `vm_memory::GuestMemory::check_range`: whether every byte of the range lies
/// in a region.
#[verifier::external_body]
fn memory_check_range(
    memory: &GuestRegionCollection<GuestRegionMmap<()>>,
    addr: u64,
    len: usize,
) -> (r: bool)
    ensures
        r == covers(guest_regions(*memory), addr as int, len as int),
{
    GuestMemory::check_range(memory, GuestAddress(addr), len, Permissions::ReadWrite)
}

/// `vm_memory::GuestMemory::get_slices`: the lengths of the slices that make up
/// the range. Fails exactly where some byte of it lies in no region.
#[verifier::external_body]
fn memory_get_slices(
    memory: &GuestRegionCollection<GuestRegionMmap<()>>,
    addr: u64,
    len: usize,
) -> (r: Result<Vec<usize>, GuestMemoryError>)
    ensures
        r is Ok <==> covers(guest_regions(*memory), addr as int, len as int),
        r matches Ok(v) ==> v@ == split(guest_regions(*memory), addr as int, len as int).map_values(
            |s: Segment| s.len,
        ),
{
    GuestMemory::get_slices(memory, GuestAddress(addr), len, Permissions::ReadWrite)?
        .map(|s| s.map(|s| s.len()))
        .collect()
}

/// `vm_memory::Bytes::read_slice`: `len` bytes from `addr` on, which does not
/// fail where each of them lies in a region. The read is recorded. The guest may
/// write its memory at any time, so nothing else is said of the bytes.
#[verifier::external_body]
fn guest_read_slice(guest: &mut Guest, addr: u64, len: usize) -> (r: Result<
    Vec<u8>,
    GuestMemoryError,
>)
    requires
        covers(old(guest)@.regions, addr as int, len as int),
    ensures
        r is Ok,
        r matches Ok(v) ==> v@.len() == len && final(guest)@ == old(guest)@.after(
            Access::Read { addr, data: v@ },
        ),
{
    let mut data = vec![0; len];
    guest.memory.read_slice(&mut data, GuestAddress(addr))?;
    Ok(data)
}

/// `vm_memory::Bytes::write_slice`: stores `data` from `addr` on, which does not
/// fail where each byte lies in a region. The write is recorded.
#[verifier::external_body]
fn guest_write_slice(guest: &mut Guest, addr: u64, data: &[u8]) -> (r: Result<
    (),
    GuestMemoryError,
>)
    requires
        covers(old(guest)@.regions, addr as int, data@.len() as int),
    ensures
        r is Ok,
        final(guest)@ == old(guest)@.after(Access::Write { addr, data: data@ }),
{
    guest.memory.write_slice(data, GuestAddress(addr))
}

/// An allocation that backs one range of guest addresses.
pub struct Region {
    start: u64,
    size: u64,
    backing: Arc<GuestRegionMmap<()>>,
}

/// What backs a region: an allocation of the host, which handles share.
pub type Allocation = Arc<GuestRegionMmap<()>>;

/// The allocation of each of `regions`, by its first address.
pub open spec fn allocations(regions: Seq<Region>) -> Map<u64, Allocation>
    decreases regions.len(),
{
    if regions.len() == 0 {
        Map::empty()
    } else {
        allocations(regions.drop_last()).insert(
            regions.last().range().0,
            regions.last().allocation(),
        )
    }
}

/// A region as plain values.
pub struct Piece {
    /// First address and length.
    pub range: (u64, u64),
    /// What backs it.
    pub allocation: Allocation,
}

/// `regions` as plain values.
pub open spec fn pieces(regions: Seq<Region>) -> Seq<Piece> {
    regions.map_values(|r: Region| r.piece())
}

/// The regions of `memory` as plain values.
pub open spec fn seen(memory: Memory) -> Set<Piece> {
    Set::new(
        |p: Piece|
            memory.regions.contains(p.range) && memory.backings.contains_key(p.range.0)
                && memory.backings[p.range.0] == p.allocation,
    )
}

/// First address and length of each of `regions`.
pub open spec fn ranges(regions: Seq<Region>) -> Seq<(u64, u64)> {
    regions.map_values(|r: Region| r.range())
}

/// Whether `new` overlaps none of `regions`.
pub open spec fn fits(regions: Seq<(u64, u64)>, new: (u64, u64)) -> bool {
    forall|i: int|
        0 <= i < regions.len() ==> (#[trigger] regions[i]).0 + regions[i].1 <= new.0 || new.0
            + new.1 <= regions[i].0
}

/// `regions` with `new` at its place in address order.
pub open spec fn inserted(regions: Seq<(u64, u64)>, new: (u64, u64)) -> Seq<(u64, u64)>
    decreases regions.len(),
{
    if regions.len() == 0 || regions.last().0 < new.0 {
        regions.push(new)
    } else {
        inserted(regions.drop_last(), new).push(regions.last())
    }
}

impl Region {
    /// First address and length.
    pub closed spec fn range(&self) -> (u64, u64) {
        (self.start, self.size)
    }

    /// The allocation behind the region.
    pub closed spec fn allocation(&self) -> Arc<GuestRegionMmap<()>> {
        self.backing
    }

    /// The region as plain values.
    pub open spec fn piece(&self) -> Piece {
        Piece { range: self.range(), allocation: self.allocation() }
    }

    /// Allocates `size` bytes of zeros for the addresses from `start` on. The
    /// allocation may fail for want of host memory.
    pub fn new(start: u64, size: usize) -> (r: Result<Region, MemoryError>)
        ensures
            r matches Ok(region) ==> region.range() == (start, size as u64) && 0 < size && start
                + size <= u64::MAX,
            r matches Err(e) ==> e is GuestMemory,
    {
        match region_from_range(start, size) {
            Ok(region) => Ok(region),
            Err(_) => Err(MemoryError::GuestMemory),
        }
    }

    pub fn start(&self) -> (r: u64)
        ensures
            r == self.range().0,
    {
        self.start
    }

    pub fn size(&self) -> (r: u64)
        ensures
            r == self.range().1,
    {
        self.size
    }

    /// Another handle to the same allocation.
    pub fn share(&self) -> (r: Region)
        ensures
            r.range() == self.range(),
            r.allocation() == self.allocation(),
            r.piece() == self.piece(),
    {
        Region { start: self.start, size: self.size, backing: self.backing.clone() }
    }

    /// The allocation itself, for a platform that maps it.
    pub fn backing(&self) -> (r: &Arc<GuestRegionMmap<()>>)
        ensures
            *r == self.allocation(),
    {
        &self.backing
    }
}

/// Inserting a region that fits keeps the regions in order, and maps what was
/// mapped before and the new range.
pub proof fn lemma_inserted(regions: Seq<(u64, u64)>, new: (u64, u64))
    requires
        ordered(regions),
        fits(regions, new),
        0 < new.1,
        new.0 + new.1 <= u64::MAX,
    ensures
        ordered(inserted(regions, new)),
        forall|x: (u64, u64)|
            #[trigger] inserted(regions, new).contains(x) <==> regions.contains(x) || x == new,
        inserted(regions, new).len() == regions.len() + 1,
    decreases regions.len(),
{
    let all = inserted(regions, new);
    if regions.len() == 0 || regions.last().0 < new.0 {
        assert(all =~= regions.push(new));
        assert forall|x: (u64, u64)| #[trigger] all.contains(x) <==> regions.contains(x) || x
            == new by {
            assert(all[regions.len() as int] == new);
            if regions.contains(x) {
                let i = choose|i: int| 0 <= i < regions.len() && regions[i] == x;
                assert(all[i] == x);
            }
        }
    } else {
        let last = regions.last();
        let rest = regions.drop_last();
        assert forall|i: int| 0 <= i < rest.len() implies 0 < (#[trigger] rest[i]).1 && rest[i].0
            + rest[i].1 <= u64::MAX by {
            assert(rest[i] == regions[i]);
        }
        assert forall|i: int, j: int| 0 <= i < j < rest.len() implies (#[trigger] rest[i]).0
            + rest[i].1 <= (#[trigger] rest[j]).0 by {
            assert(rest[i] == regions[i] && rest[j] == regions[j]);
        }
        assert forall|i: int| 0 <= i < rest.len() implies (#[trigger] rest[i]).0 + rest[i].1
            <= new.0 || new.0 + new.1 <= rest[i].0 by {
            assert(rest[i] == regions[i]);
        }
        lemma_inserted(rest, new);
        let most = inserted(rest, new);
        assert(all =~= most.push(last));
        assert(regions[regions.len() - 1] == last);
        assert forall|i: int| 0 <= i < most.len() implies (#[trigger] most[i]).0 + most[i].1
            <= last.0 by {
            assert(most.contains(most[i]));
            if most[i] != new {
                let k = choose|k: int| 0 <= k < rest.len() && rest[k] == most[i];
                assert(regions[k] == most[i]);
            }
        }
        assert forall|x: (u64, u64)| #[trigger] all.contains(x) <==> regions.contains(x) || x
            == new by {
            if all.contains(x) {
                let i = choose|i: int| 0 <= i < all.len() && all[i] == x;
                if i < most.len() {
                    assert(most[i] == x);
                    assert(most.contains(x));
                    if x != new {
                        let k = choose|k: int| 0 <= k < rest.len() && rest[k] == x;
                        assert(regions[k] == x);
                    }
                } else {
                    assert(regions[regions.len() - 1] == x);
                }
            }
            if regions.contains(x) || x == new {
                if regions.contains(x) {
                    let k = choose|k: int| 0 <= k < regions.len() && regions[k] == x;
                    if k < rest.len() {
                        assert(rest[k] == x);
                        assert(rest.contains(x));
                        assert(most.contains(x));
                        let i = choose|i: int| 0 <= i < most.len() && most[i] == x;
                        assert(all[i] == x);
                    } else {
                        assert(all[most.len() as int] == x);
                    }
                } else {
                    assert(most.contains(x));
                    let i = choose|i: int| 0 <= i < most.len() && most[i] == x;
                    assert(all[i] == x);
                }
            }
        }
    }
}

/// Leaving regions out keeps the order of the others.
pub proof fn lemma_filter_ordered(regions: Seq<(u64, u64)>, keep: spec_fn((u64, u64)) -> bool)
    requires
        ordered(regions),
    ensures
        ordered(regions.filter(keep)),
        forall|x: (u64, u64)|
            #[trigger] regions.filter(keep).contains(x) <==> regions.contains(x) && keep(x),
    decreases regions.len(),
{
    reveal(Seq::filter);
    let out = regions.filter(keep);
    if regions.len() > 0 {
        let rest = regions.drop_last();
        let last = regions.last();
        assert forall|i: int| 0 <= i < rest.len() implies 0 < (#[trigger] rest[i]).1 && rest[i].0
            + rest[i].1 <= u64::MAX by {
            assert(rest[i] == regions[i]);
        }
        assert forall|i: int, j: int| 0 <= i < j < rest.len() implies (#[trigger] rest[i]).0
            + rest[i].1 <= (#[trigger] rest[j]).0 by {
            assert(rest[i] == regions[i] && rest[j] == regions[j]);
        }
        lemma_filter_ordered(rest, keep);
        let most = rest.filter(keep);
        assert(regions[regions.len() - 1] == last);
        assert forall|i: int| 0 <= i < most.len() implies (#[trigger] most[i]).0 + most[i].1
            <= last.0 && regions.contains(most[i]) by {
            assert(most.contains(most[i]));
            let k = choose|k: int| 0 <= k < rest.len() && rest[k] == most[i];
            assert(regions[k] == most[i]);
        }
        assert(out =~= if keep(last) {
            most.push(last)
        } else {
            most
        });
        assert forall|x: (u64, u64)| #[trigger] out.contains(x) <==> regions.contains(x) && keep(
            x,
        ) by {
            if out.contains(x) {
                let i = choose|i: int| 0 <= i < out.len() && out[i] == x;
                if i < most.len() {
                    assert(most.contains(most[i]));
                }
            }
            if regions.contains(x) && keep(x) {
                let k = choose|k: int| 0 <= k < regions.len() && regions[k] == x;
                if k < rest.len() {
                    assert(rest[k] == x);
                    assert(rest.contains(x));
                    assert(most.contains(x));
                    let i = choose|i: int| 0 <= i < most.len() && most[i] == x;
                    assert(out[i] == x);
                } else {
                    assert(out[most.len() as int] == x);
                }
            }
        }
    } else {
        assert(out =~= Seq::empty());
    }
}

/// The memory of a guest, as the device models see it.
///
/// Its bytes belong to the guest, which may change them at any time. What is
/// fixed is which addresses are mapped to which allocations, and the record of
/// the accesses made through this view. There is no second view of the same
/// memory: what is not in the record was not done by the device models. What a
/// loader does to the memory itself is not recorded.
pub struct Guest {
    memory: GuestRegionCollection<GuestRegionMmap<()>>,
    record: Record,
}

/// An allocation that no view of guest memory holds yet.
pub struct Ram {
    region: Region,
}

impl Ram {
    /// A handle to the allocation.
    pub closed spec fn handle(&self) -> Region {
        self.region
    }

    /// Allocates `size` bytes of zeros for the addresses from `start` on. The
    /// allocation may fail for want of host memory.
    pub fn new(start: u64, size: usize) -> (r: Result<Ram, MemoryError>)
        ensures
            r matches Ok(ram) ==> ram.handle().range() == (start, size as u64) && 0 < size && start
                + size <= u64::MAX,
            r matches Err(e) ==> e is GuestMemory,
    {
        match Region::new(start, size) {
            Ok(region) => Ok(Ram { region }),
            Err(e) => Err(e),
        }
    }
}

/// Handles to each of `rams`.
pub open spec fn handles(rams: Seq<Ram>) -> Seq<Region> {
    rams.map_values(|r: Ram| r.handle())
}

/// The regions that a guest is to have. They can be changed, but their bytes
/// cannot be reached.
pub struct Plan {
    memory: GuestRegionCollection<GuestRegionMmap<()>>,
}

/// What is fixed of guest memory: its regions, and the accesses so far.
pub struct Memory {
    /// First address and length of each region, in address order.
    pub regions: Seq<(u64, u64)>,
    /// The allocation behind each region, by its first address.
    pub backings: Map<u64, Allocation>,
    /// What was read and written, the latest last.
    pub accesses: Seq<Access>,
}

impl Memory {
    /// The same memory after one more access.
    pub open spec fn after(self, access: Access) -> Memory {
        Memory { accesses: self.accesses.push(access), ..self }
    }

    /// The same memory after the accesses of `log`.
    pub open spec fn after_all(self, log: Seq<Access>) -> Memory {
        Memory { accesses: self.accesses + log, ..self }
    }

    /// Regions are in order, and exactly they are backed.
    pub open spec fn wf(self) -> bool {
        ordered(self.regions) && keyed(self.regions, self.backings)
    }

    /// The same regions are backed by the same allocations.
    pub open spec fn same(self, other: Memory) -> bool {
        self.regions == other.regions && self.backings == other.backings
    }
}

/// There is an allocation exactly for each first address of a region.
pub open spec fn keyed(regions: Seq<(u64, u64)>, backings: Map<u64, Allocation>) -> bool {
    forall|a: u64| #[trigger]
        backings.contains_key(a) <==> exists|i: int|
            0 <= i < regions.len() && (#[trigger] regions[i]).0 == a
}

/// What backs each of `regions`, where no two start at one address.
pub(crate) proof fn lemma_allocations(regions: Seq<Region>)
    requires
        ordered(ranges(regions)),
    ensures
        keyed(ranges(regions), allocations(regions)),
        forall|i: int|
            0 <= i < regions.len() ==> allocations(regions)[(#[trigger] regions[i]).range().0]
                == regions[i].allocation(),
    decreases regions.len(),
{
    let all = ranges(regions);
    if regions.len() > 0 {
        let rest = regions.drop_last();
        let most = ranges(rest);
        let last = regions.last();
        assert(most =~= all.drop_last());
        assert(ordered(most)) by {
            assert forall|i: int| 0 <= i < most.len() implies 0 < (#[trigger] most[i]).1 && most[i].0
                + most[i].1 <= u64::MAX by {
                assert(most[i] == all[i]);
            }
            assert forall|i: int, j: int| 0 <= i < j < most.len() implies (#[trigger] most[i]).0
                + most[i].1 <= (#[trigger] most[j]).0 by {
                assert(most[i] == all[i] && most[j] == all[j]);
            }
        }
        lemma_allocations(rest);
        let n = regions.len() - 1;
        assert(all[n] == last.range());
        assert forall|a: u64| #[trigger]
            allocations(regions).contains_key(a) <==> exists|i: int|
                0 <= i < all.len() && (#[trigger] all[i]).0 == a by {
            if exists|i: int| 0 <= i < all.len() && (#[trigger] all[i]).0 == a {
                let i = choose|i: int| 0 <= i < all.len() && (#[trigger] all[i]).0 == a;
                if i < n {
                    assert(most[i].0 == a);
                    assert(allocations(rest).contains_key(a));
                }
            }
            if allocations(rest).contains_key(a) {
                let i = choose|i: int| 0 <= i < most.len() && (#[trigger] most[i]).0 == a;
                assert(all[i].0 == a);
            }
        }
        assert forall|i: int| 0 <= i < regions.len() implies allocations(regions)[(
        #[trigger] regions[i]).range().0] == regions[i].allocation() by {
            if i < n {
                assert(rest[i] == regions[i]);
                assert(all[i] == regions[i].range());
                assert(all[i].0 + all[i].1 <= all[n].0);
                assert(0 < all[i].1);
            }
        }
    }
}

/// A region that comes or goes brings or takes its allocation.
proof fn lemma_keyed(
    r0: Seq<(u64, u64)>,
    b0: Map<u64, Allocation>,
    r1: Seq<(u64, u64)>,
    b1: Map<u64, Allocation>,
    start: u64,
    comes: bool,
)
    requires
        keyed(r0, b0),
        forall|a: u64| #[trigger]
            b1.contains_key(a) <==> if comes {
                b0.contains_key(a) || a == start
            } else {
                b0.contains_key(a) && a != start
            },
        comes ==> exists|x: (u64, u64)| x.0 == start && #[trigger] r1.contains(x),
        forall|x: (u64, u64)| #[trigger]
            r1.contains(x) ==> if comes {
                r0.contains(x) || x.0 == start
            } else {
                r0.contains(x) && x.0 != start
            },
        forall|x: (u64, u64)| #[trigger]
            r0.contains(x) ==> r1.contains(x) || (!comes && x.0 == start),
    ensures
        keyed(r1, b1),
{
    assert forall|a: u64| #[trigger]
        b1.contains_key(a) <==> exists|i: int| 0 <= i < r1.len() && (#[trigger] r1[i]).0 == a by {
        if exists|i: int| 0 <= i < r1.len() && (#[trigger] r1[i]).0 == a {
            let i = choose|i: int| 0 <= i < r1.len() && (#[trigger] r1[i]).0 == a;
            assert(r1.contains(r1[i]));
            if r0.contains(r1[i]) {
                let k = choose|k: int| 0 <= k < r0.len() && r0[k] == r1[i];
                assert(r0[k].0 == a);
                assert(b0.contains_key(a));
            }
        }
        if b1.contains_key(a) {
            if b0.contains_key(a) {
                let k = choose|k: int| 0 <= k < r0.len() && (#[trigger] r0[k]).0 == a;
                assert(r0.contains(r0[k]));
                assert(r1.contains(r0[k]));
                let i = choose|i: int| 0 <= i < r1.len() && r1[i] == r0[k];
                assert(r1[i].0 == a);
            } else {
                let x = choose|x: (u64, u64)| x.0 == start && #[trigger] r1.contains(x);
                let i = choose|i: int| 0 <= i < r1.len() && r1[i] == x;
                assert(r1[i].0 == a);
            }
        }
    }
}

/// `access` reads, or where it may also writes, within one of `segments`.
pub open spec fn touches(access: Access, segments: Seq<Segment>, may_write: bool) -> bool {
    match access {
        Access::Read { addr, data } => exists|i: int|
            0 <= i < segments.len() && #[trigger] inside(addr, data.len() as int, segments[i]),
        Access::Write { addr, data } => may_write && exists|i: int|
            0 <= i < segments.len() && #[trigger] inside(addr, data.len() as int, segments[i]),
        _ => false,
    }
}

/// The `len` bytes from `addr` on lie in `s`.
pub open spec fn inside(addr: u64, len: int, s: Segment) -> bool {
    s.addr <= addr && addr + len <= s.addr + s.len
}

/// Whoever was handed `segments` has accessed nothing else.
pub open spec fn handled(m0: Memory, m1: Memory, segments: Seq<Segment>, may_write: bool) -> bool {
    exists|log: Seq<Access>|
        m1 == #[trigger] m0.after_all(log) && forall|i: int|
            0 <= i < log.len() ==> touches(#[trigger] log[i], segments, may_write)
}

impl View for Guest {
    type V = Memory;

    closed spec fn view(&self) -> Memory {
        Memory {
            regions: guest_regions(self.memory),
            backings: guest_backings(self.memory),
            accesses: self.record@,
        }
    }
}

impl Plan {
    #[verifier::type_invariant]
    spec fn inv(self) -> bool {
        ordered(guest_regions(self.memory)) && keyed(
            guest_regions(self.memory),
            guest_backings(self.memory),
        )
    }

    /// First address and length of each region, in address order.
    pub closed spec fn regions(&self) -> Seq<(u64, u64)> {
        guest_regions(self.memory)
    }

    /// What backs each region, by its first address.
    pub closed spec fn backings(&self) -> Map<u64, Allocation> {
        guest_backings(self.memory)
    }

    /// The regions of a plan are in address order and do not overlap.
    pub(crate) fn regions_are_ordered(&self)
        ensures
            ordered(self.regions()),
    {
        proof {
            use_type_invariant(self);
        }
    }

    /// This plan with `region` added; refused where it overlaps.
    pub fn with_region(&self, region: &Region) -> (r: Result<Plan, MemoryError>)
        requires
            0 < region.range().1,
            region.range().0 + region.range().1 <= u64::MAX,
        ensures
            r is Ok <==> fits(self.regions(), region.range()),
            r matches Ok(p) ==> p.regions() == inserted(self.regions(), region.range())
                && p.backings() == self.backings().insert(
                region.range().0,
                region.allocation(),
            ),
            r matches Err(e) ==> e is Regions,
    {
        proof {
            use_type_invariant(self);
        }
        match collection_insert_region(&self.memory, region) {
            Ok(memory) => {
                proof {
                    let before = guest_regions(self.memory);
                    let after = guest_regions(memory);
                    lemma_inserted(before, region.range());
                    assert(after.contains(region.range()));
                    lemma_keyed(
                        before,
                        guest_backings(self.memory),
                        after,
                        guest_backings(memory),
                        region.range().0,
                        true,
                    );
                }
                Ok(Plan { memory })
            },
            Err(_) => Err(MemoryError::Regions),
        }
    }

    /// This plan without the region of that start and size; refused where there
    /// is none.
    pub fn without_region(&self, start: u64, size: u64) -> (r: Result<Plan, MemoryError>)
        ensures
            r is Ok <==> self.regions().contains((start, size)),
            r matches Ok(p) ==> p.regions() == self.regions().filter(
                |x: (u64, u64)| x.0 != start,
            ) && p.backings() == self.backings().remove(start),
            r matches Err(e) ==> e is Regions,
    {
        proof {
            use_type_invariant(self);
        }
        match collection_remove_region(&self.memory, start, size) {
            Ok(memory) => {
                proof {
                    let before = guest_regions(self.memory);
                    let keep = |x: (u64, u64)| x.0 != start;
                    lemma_filter_ordered(before, keep);
                    assert(guest_regions(memory) == before.filter(keep));
                    lemma_keyed(
                        before,
                        guest_backings(self.memory),
                        guest_regions(memory),
                        guest_backings(memory),
                        start,
                        false,
                    );
                }
                Ok(Plan { memory })
            },
            Err(_) => Err(MemoryError::Regions),
        }
    }
}

impl Guest {
    #[verifier::type_invariant]
    spec fn inv(self) -> bool {
        ordered(guest_regions(self.memory)) && keyed(
            guest_regions(self.memory),
            guest_backings(self.memory),
        )
    }

    /// The regions of a guest are in address order and do not overlap, and
    /// exactly they are backed.
    pub(crate) fn regions_are_ordered(&self)
        ensures
            ordered(self@.regions),
            self@.wf(),
    {
        proof {
            use_type_invariant(self);
        }
    }

    /// A view of `rams`, which must be in address order and not overlap, and
    /// handles to them.
    pub fn new(rams: Vec<Ram>) -> (r: Result<(Vec<Region>, Guest), MemoryError>)
        requires
            forall|i: int|
                0 <= i < rams@.len() ==> 0 < (#[trigger] rams@[i]).handle().range().1
                    && rams@[i].handle().range().0 + rams@[i].handle().range().1 <= u64::MAX,
        ensures
            r is Ok <==> rams@.len() > 0 && ordered(ranges(handles(rams@))),
            r matches Ok((regions, g)) ==> pieces(regions@) == pieces(handles(rams@))
                && ranges(regions@) == ranges(handles(rams@)) && g@ == (Memory {
                regions: ranges(regions@),
                backings: allocations(regions@),
                accesses: Seq::empty(),
            }),
            r matches Err(e) ==> e is Regions,
    {
        let mut regions: Vec<Region> = Vec::new();
        let mut i: usize = 0;
        while i < rams.len()
            invariant
                i <= rams@.len(),
                regions@.len() == i,
                forall|k: int|
                    0 <= k < i ==> (#[trigger] regions@[k]).piece() == rams@[k].handle().piece(),
            decreases rams@.len() - i,
        {
            regions.push(rams[i].region.share());
            i = i + 1;
        }
        proof {
            let all = handles(rams@);
            assert(forall|k: int| 0 <= k < all.len() ==> #[trigger] all[k] == rams@[k].handle());
            assert forall|k: int| 0 <= k < regions@.len() implies (
            #[trigger] regions@[k]).piece() == all[k].piece() && regions@[k].range()
                == all[k].range() by {
                assert(regions@[k].piece() == rams@[k].handle().piece());
            }
            assert(pieces(regions@) =~= pieces(all));
            assert(ranges(regions@) =~= ranges(all));
            assert forall|k: int| 0 <= k < regions@.len() implies 0 < (
            #[trigger] regions@[k]).range().1 && regions@[k].range().0 + regions@[k].range().1
                <= u64::MAX by {
                assert(regions@[k].piece() == rams@[k].handle().piece());
            }
        }
        match Self::over(regions.as_slice()) {
            Ok(guest) => Ok((regions, guest)),
            Err(e) => Err(e),
        }
    }

    /// A view of `regions`.
    fn over(regions: &[Region]) -> (r: Result<Guest, MemoryError>)
        requires
            forall|i: int|
                0 <= i < regions@.len() ==> 0 < (#[trigger] regions@[i]).range().1
                    && regions@[i].range().0 + regions@[i].range().1 <= u64::MAX,
        ensures
            r is Ok <==> regions@.len() > 0 && ordered(ranges(regions@)),
            r matches Ok(g) ==> g@ == (Memory {
                regions: ranges(regions@),
                backings: allocations(regions@),
                accesses: Seq::empty(),
            }),
            r matches Err(e) ==> e is Regions,
    {
        let ghost all = ranges(regions@);
        assert(forall|i: int| 0 <= i < regions@.len() ==> #[trigger] all[i] == regions@[i].range());
        proof {
            if ordered(all) {
                assert forall|i: int, j: int| 0 <= i < j < regions@.len() implies (
                #[trigger] regions@[i]).start + regions@[i].size <= (#[trigger] regions@[j]).start by {
                    assert(all[i].0 + all[i].1 <= all[j].0);
                }
            }
        }
        match collection_from_arc_regions(regions) {
            Ok(memory) => {
                assert(ordered(all)) by {
                    assert forall|i: int, j: int| 0 <= i < j < all.len() implies (
                    #[trigger] all[i]).0 + all[i].1 <= (#[trigger] all[j]).0 by {
                        assert(regions@[i].start + regions@[i].size <= regions@[j].start);
                    }
                }
                proof {
                    lemma_allocations(regions@);
                }
                Ok(Guest { memory, record: Record::new() })
            },
            Err(_) => Err(MemoryError::Regions),
        }
    }

    /// The memory itself, for a loader that fills it and for queues. What is
    /// done through it is recorded only by the functions of this crate; a loader
    /// or a backend outside it is held to what its trait says.
    pub fn backing(&self) -> (r: &GuestRegionCollection<GuestRegionMmap<()>>)
        ensures
            guest_regions(*r) == self@.regions,
            guest_backings(*r) == self@.backings,
    {
        &self.memory
    }

    /// The regions of this view, to be changed.
    pub fn plan(&self) -> (r: Plan)
        ensures
            r.regions() == self@.regions,
            r.backings() == self@.backings,
    {
        proof {
            use_type_invariant(self);
        }
        Plan { memory: collection_clone(&self.memory) }
    }

    /// Takes over changed regions.
    pub fn adopt(&mut self, plan: Plan)
        ensures
            final(self)@ == (Memory {
                regions: plan.regions(),
                backings: plan.backings(),
                ..old(self)@
            }),
    {
        proof {
            use_type_invariant(&plan);
        }
        let record: Record = self.record.copy();
        *self = Guest { memory: plan.memory, record };
    }

    /// Whether every byte of the range is mapped.
    pub fn check_range(&self, addr: u64, len: usize) -> (r: bool)
        ensures
            r == covers(self@.regions, addr as int, len as int),
    {
        memory_check_range(&self.memory, addr, len)
    }

    /// The segments of a range, if every byte of it is mapped.
    pub fn segments(&self, addr: u64, len: usize) -> (r: Result<Vec<Segment>, GuestMemoryError>)
        ensures
            r is Ok <==> covers(self@.regions, addr as int, len as int),
            r matches Ok(v) ==> {
                &&& v@ == split(self@.regions, addr as int, len as int)
                &&& within(self@.regions, v@)
                &&& total(v@) == len
            },
    {
        proof {
            use_type_invariant(self);
        }
        match memory_get_slices(&self.memory, addr, len) {
            Err(e) => Err(e),
            Ok(lens) => {
                let ghost regions = guest_regions(self.memory);
                let ghost all = split(regions, addr as int, len as int);
                let mut out: Vec<Segment> = Vec::new();
                let mut at: u64 = addr;
                proof {
                    split_is_complete(regions, addr as int, len as int);
                    assert(all.skip(0) =~= all);
                }
                let mut i: usize = 0;
                while i < lens.len()
                    invariant
                        i <= lens.len(),
                        lens@ == all.map_values(|s: Segment| s.len),
                        out@ == all.take(i as int),
                        ordered(regions),
                        within(regions, all),
                        addr <= at <= u64::MAX,
                        at - addr <= len,
                        all.skip(i as int) == split(
                            regions,
                            at as int,
                            len - (at - addr),
                        ),
                    decreases lens.len() - i,
                {
                    let ghost rest = split(regions, at as int, len - (at - addr));
                    assert(lens@[i as int] == all[i as int].len);
                    assert(all.skip(i as int)[0] == all[i as int]);
                    proof {
                        lemma_split_step(regions, at as int, len - (at - addr));
                        assert(all.skip(i as int).skip(1) =~= all.skip(i + 1));
                    }
                    out.push(Segment { addr: at, len: lens[i] });
                    assert(out@ =~= all.take(i + 1));
                    at = at + lens[i] as u64;
                    i = i + 1;
                }
                assert(out@ =~= all);
                Ok(out)
            },
        }
    }

    /// Reads a mapped range, and records it.
    pub fn read(&mut self, addr: u64, len: usize) -> (r: Vec<u8>)
        requires
            covers(old(self)@.regions, addr as int, len as int),
        ensures
            r@.len() == len,
            final(self)@ == old(self)@.after(Access::Read { addr, data: r@ }),
    {
        match guest_read_slice(self, addr, len) {
            Ok(data) => data,
            Err(_) => Vec::new(),
        }
    }

    /// Writes a mapped range, and records it.
    pub fn write(&mut self, addr: u64, data: &[u8])
        requires
            covers(old(self)@.regions, addr as int, data@.len() as int),
        ensures
            final(self)@ == old(self)@.after(Access::Write { addr, data: data@ }),
    {
        let _ = guest_write_slice(self, addr, data);
    }

    /// Reads a range, if every byte of it is mapped.
    pub fn peek(&mut self, addr: u64, len: usize) -> (r: Option<Vec<u8>>)
        ensures
            r is Some <==> covers(old(self)@.regions, addr as int, len as int),
            r matches Some(v) ==> v@.len() == len && final(self)@ == old(self)@.after(
                Access::Read { addr, data: v@ },
            ),
            r is None ==> final(self)@ == old(self)@,
    {
        if !self.check_range(addr, len) {
            return None;
        }
        Some(self.read(addr, len))
    }

    /// Writes a range, if every byte of it is mapped, and tells whether it is.
    pub fn poke(&mut self, addr: u64, data: &[u8]) -> (r: bool)
        ensures
            r == covers(old(self)@.regions, addr as int, data@.len() as int),
            final(self)@ == if r {
                old(self)@.after(Access::Write { addr, data: data@ })
            } else {
                old(self)@
            },
    {
        if !self.check_range(addr, data.len()) {
            return false;
        }
        self.write(addr, data);
        true
    }
}

} // verus!
