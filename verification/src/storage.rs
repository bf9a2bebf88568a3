//! Disks: the contract of a backend, and the checks and the batching of a
//! qcow2 image.
use crate::bytes::{be32, be64, get_be32, get_be64};
use crate::devices::buffers::{meet, meets};
use crate::error::StorageError;
use crate::guest::{handled, total, Guest, Segment};
use crate::math::power_of_two;
use vstd::arithmetic::power2::pow2;
use vstd::prelude::*;

verus! {

/// One request that a disk was handed, and its outcome.
pub enum BlockCall {
    Read { offset: u64, data: Seq<Segment>, result: Result<(), StorageError> },
    Write { offset: u64, data: Seq<Segment>, result: Result<(), StorageError> },
    Flush { result: Result<(), StorageError> },
}

/// Complete synchronous requests; implementations must not retain guest memory,
/// and access nothing of it but the segments they are handed. Backends choose
/// their own copying strategy, through `Guest::peek` and `Guest::poke`. A failed
/// read may have modified part of the destination.
///
/// Only proofs look at the ghost functions: an implementation that stands
/// outside them may leave them out.
pub trait BlockStorage {
    /// The requests so far, the latest last.
    open spec fn calls(&self) -> Seq<BlockCall> {
        arbitrary()
    }

    /// What `size` reports.
    open spec fn capacity(&self) -> u64 {
        arbitrary()
    }

    /// What `read_only` reports.
    open spec fn sealed(&self) -> bool {
        arbitrary()
    }

    fn size(&self) -> (r: u64)
        ensures
            r == self.capacity(),
    ;

    fn read_only(&self) -> (r: bool)
        ensures
            r == self.sealed(),
    ;

    /// Fills the segments with the bytes from `offset` on.
    fn read(&mut self, offset: u64, data: &[Segment], mem: &mut Guest) -> (r: Result<
        (),
        StorageError,
    >)
        ensures
            final(self).calls() == old(self).calls().push(
                BlockCall::Read { offset, data: data@, result: r },
            ),
            handled(old(mem)@, final(mem)@, data@, true),
    ;

    /// Stores the bytes of the segments from `offset` on.
    fn write(&mut self, offset: u64, data: &[Segment], mem: &mut Guest) -> (r: Result<
        (),
        StorageError,
    >)
        ensures
            final(self).calls() == old(self).calls().push(
                BlockCall::Write { offset, data: data@, result: r },
            ),
            handled(old(mem)@, final(mem)@, data@, false),
    ;

    fn flush(&mut self) -> (r: Result<(), StorageError>)
        ensures
            final(self).calls() == old(self).calls().push(BlockCall::Flush { result: r }),
    ;
}

impl<T: BlockStorage + ?Sized> BlockStorage for Box<T> {
    open spec fn calls(&self) -> Seq<BlockCall> {
        (**self).calls()
    }

    open spec fn capacity(&self) -> u64 {
        (**self).capacity()
    }

    open spec fn sealed(&self) -> bool {
        (**self).sealed()
    }

    fn size(&self) -> (r: u64) {
        (**self).size()
    }

    fn read_only(&self) -> (r: bool) {
        (**self).read_only()
    }

    fn read(&mut self, offset: u64, data: &[Segment], mem: &mut Guest) -> (r: Result<
        (),
        StorageError,
    >) {
        (**self).read(offset, data, mem)
    }

    fn write(&mut self, offset: u64, data: &[Segment], mem: &mut Guest) -> (r: Result<
        (),
        StorageError,
    >) {
        (**self).write(offset, data, mem)
    }

    fn flush(&mut self) -> (r: Result<(), StorageError>) {
        (**self).flush()
    }
}

/// Refuses a request that ends beyond `size`.
pub fn bounds(size: u64, offset: u64, len: usize) -> (r: Result<(), StorageError>)
    ensures
        r == if offset + len <= size {
            Ok::<(), StorageError>(())
        } else {
            Err(StorageError::OutOfBounds { size, offset, len })
        },
{
    match offset.checked_add(len as u64) {
        Some(end) if end <= size => Ok(()),
        _ => Err(StorageError::OutOfBounds { size, offset, len }),
    }
}

/// Whether `h` starts with the magic number of a qcow2 image.
pub open spec fn has_magic(h: Seq<u8>) -> bool {
    h[0] == 0x51 && h[1] == 0x46 && h[2] == 0x49 && h[3] == 0xfb
}

/// The virtual size that a qcow2 header announces, or why the image is refused.
pub open spec fn header_verdict(h: Seq<u8>) -> Result<u64, StorageError> {
    let version = be32(h, 4) as u32;
    let bits = be32(h, 20) as u32;
    let size = be64(h, 24) as u64;
    if h.len() < 104 || !has_magic(h) {
        Err(StorageError::InvalidHeader)
    } else if version != 2 && version != 3 {
        Err(StorageError::UnsupportedVersion { version })
    } else if be64(h, 8) != 0 || be32(h, 16) != 0 {
        Err(StorageError::BackingChainsUnsupported)
    } else if bits < 9 || 21 < bits {
        Err(StorageError::InvalidQcow2ClusterSize { bits })
    } else if be32(h, 32) != 0 {
        Err(StorageError::EncryptedImagesUnsupported)
    } else if be32(h, 60) != 0 || be64(h, 64) != 0 {
        Err(StorageError::InternalSnapshotsUnsupported)
    } else if version == 3 && be64(h, 72) != 0 {
        Err(StorageError::IncompatibleFeatures { features: be64(h, 72) as u64 })
    } else if version == 3 && (be32(h, 100) < 104 || pow2(bits as nat) < be32(h, 100)) {
        Err(StorageError::InvalidHeaderLength { length: be32(h, 100) as u32 })
    } else if size == 0 || size % 512 != 0 {
        Err(StorageError::InvalidCapacity { size })
    } else {
        Ok(size)
    }
}

/// The virtual size of the image that starts with the header `h`. Images with a
/// backing file, encryption, snapshots or unknown features are refused.
pub fn validate_header(h: &[u8]) -> (r: Result<u64, StorageError>)
    ensures
        r == header_verdict(h@),
{
    if h.len() < 104 || !(h[0] == 0x51 && h[1] == 0x46 && h[2] == 0x49 && h[3] == 0xfb) {
        return Err(StorageError::InvalidHeader);
    }
    let version: u32 = get_be32(h, 4);
    if version != 2 && version != 3 {
        return Err(StorageError::UnsupportedVersion { version });
    }
    if get_be64(h, 8) != 0 || get_be32(h, 16) != 0 {
        return Err(StorageError::BackingChainsUnsupported);
    }
    let bits: u32 = get_be32(h, 20);
    if bits < 9 || 21 < bits {
        return Err(StorageError::InvalidQcow2ClusterSize { bits });
    }
    if get_be32(h, 32) != 0 {
        return Err(StorageError::EncryptedImagesUnsupported);
    }
    if get_be32(h, 60) != 0 || get_be64(h, 64) != 0 {
        return Err(StorageError::InternalSnapshotsUnsupported);
    }
    if version == 3 {
        let features: u64 = get_be64(h, 72);
        if features != 0 {
            return Err(StorageError::IncompatibleFeatures { features });
        }
        let length: u32 = get_be32(h, 100);
        if length < 104 || power_of_two(bits) < length as u64 {
            return Err(StorageError::InvalidHeaderLength { length });
        }
    }
    let size: u64 = get_be64(h, 24);
    if size == 0 || size % 512 != 0 {
        return Err(StorageError::InvalidCapacity { size });
    }
    Ok(size)
}

/// A run of segments that one vectored transfer moves, from `offset` on.
pub struct Batch {
    pub offset: u64,
    pub segments: Vec<Segment>,
}

/// Offset and segments of each batch.
pub open spec fn batch_views(batches: Seq<Batch>) -> Seq<(int, Seq<Segment>)> {
    batches.map_values(|b: Batch| (b.offset as int, b.segments@))
}

/// The segments that hold a byte.
pub open spec fn filled(segments: Seq<Segment>) -> Seq<Segment> {
    segments.filter(|s: Segment| s.len > 0)
}

/// Whether `s` may join `batch`: there is place, and a read does not fill the
/// same byte twice.
pub open spec fn joins(batch: Seq<Segment>, s: Segment, limit: int, write: bool) -> bool {
    &&& batch.len() < limit
    &&& write || forall|i: int| 0 <= i < batch.len() ==> !#[trigger] meet(s, batch[i])
}

/// `batch` and as many of the segments that follow as may join it.
pub open spec fn grown(
    batch: Seq<Segment>,
    rest: Seq<Segment>,
    limit: int,
    write: bool,
) -> Seq<Segment>
    decreases rest.len(),
{
    if rest.len() == 0 || !joins(batch, rest[0], limit, write) {
        batch
    } else {
        grown(batch.push(rest[0]), rest.skip(1), limit, write)
    }
}

/// The batches of a transfer: each takes as many segments as may join it.
pub open spec fn plan(
    segments: Seq<Segment>,
    offset: int,
    limit: int,
    write: bool,
) -> Seq<(int, Seq<Segment>)>
    decreases segments.len(),
{
    let batch = grown(Seq::empty(), segments, limit, write);
    if !(0 < batch.len() <= segments.len()) {
        Seq::empty()
    } else {
        seq![(offset, batch)] + plan(
            segments.skip(batch.len() as int),
            offset + total(batch),
            limit,
            write,
        )
    }
}

proof fn lemma_grown(batch: Seq<Segment>, rest: Seq<Segment>, limit: int, write: bool)
    ensures
        ({
            let g = grown(batch, rest, limit, write);
            &&& batch.len() <= g.len() <= batch.len() + rest.len()
            &&& g == batch + rest.take(g.len() - batch.len())
            &&& batch.len() <= limit ==> g.len() <= limit
            &&& rest.len() > 0 && joins(batch, rest[0], limit, write) ==> g.len() > batch.len()
            &&& (forall|i: int, j: int|
                0 <= i < j < batch.len() ==> write || !#[trigger] meet(batch[j], batch[i])) ==> (
            forall|i: int, j: int| 0 <= i < j < g.len() ==> write || !#[trigger] meet(g[j], g[i]))
        }),
    decreases rest.len(),
{
    let g = grown(batch, rest, limit, write);
    if rest.len() == 0 || !joins(batch, rest[0], limit, write) {
        assert(g =~= batch + rest.take(0));
    } else {
        let more = batch.push(rest[0]);
        let tail = rest.skip(1);
        lemma_grown(more, tail, limit, write);
        assert(more + tail.take(g.len() - more.len()) =~= batch + rest.take(
            g.len() - batch.len(),
        ));
    }
}

proof fn lemma_total_push(a: Seq<Segment>, s: Segment)
    ensures
        total(a.push(s)) == total(a) + s.len,
{
    assert(a.push(s) =~= a + seq![s]);
    crate::guest::lemma_total_concat(a, seq![s]);
    assert(seq![s].skip(1) =~= Seq::empty());
    reveal_with_fuel(total, 2);
}

/// How many segments one vectored transfer may hold, by what the host reports.
pub fn vector_limit(reported: i64) -> (r: usize)
    ensures
        r > 0,
        r == if 0 < reported <= usize::MAX {
            reported as usize
        } else {
            16
        },
{
    if reported > 0 && reported as u64 <= usize::MAX as u64 {
        reported as usize
    } else {
        16
    }
}

/// Plans the transfer of the segments `data` at `offset` of a disk of `size`
/// bytes, in batches of at most `limit` segments. The whole request is checked
/// first, so nothing is moved of one that does not fit. There is no plan for
/// segments that are longer together than an address space.
pub fn transfer_plan(
    size: u64,
    offset: u64,
    data: &[Segment],
    write: bool,
    limit: usize,
) -> (r: Option<Result<Vec<Batch>, StorageError>>)
    requires
        limit > 0,
    ensures
        r is None <==> total(data@) > usize::MAX,
        r matches Some(Err(e)) ==> offset + total(data@) > size && e == (StorageError::OutOfBounds {
            size,
            offset,
            len: total(data@) as usize,
        }),
        r matches Some(Ok(v)) ==> offset + total(data@) <= size && batch_views(v@) == plan(
            filled(data@),
            offset as int,
            limit as int,
            write,
        ),
{
    let mut all: Vec<Segment> = Vec::new();
    let mut len: usize = 0;
    let mut i: usize = 0;
    assert(data@.take(0) =~= Seq::empty());
    assert(filled(Seq::empty()) =~= Seq::empty()) by {
        reveal(Seq::filter);
    }
    while i < data.len()
        invariant
            i <= data.len(),
            len == total(data@.take(i as int)),
            len == total(all@),
            all@ == filled(data@.take(i as int)),
        decreases data.len() - i,
    {
        let s: Segment = data[i];
        proof {
            let before = data@.take(i as int);
            let after = data@.take(i + 1);
            assert(after =~= before.push(s));
            lemma_total_push(before, s);
            lemma_total_push(all@, s);
            reveal(Seq::filter);
            assert(after.drop_last() =~= before);
        }
        match len.checked_add(s.len) {
            None => {
                proof {
                    assert(data@ =~= data@.take(i + 1) + data@.skip(i + 1));
                    crate::guest::lemma_total_concat(data@.take(i + 1), data@.skip(i + 1));
                    crate::guest::lemma_total_nonneg(data@.skip(i + 1));
                }
                return None;
            },
            Some(sum) => {
                len = sum;
            },
        }
        if s.len > 0 {
            all.push(s);
        }
        i = i + 1;
    }
    assert(data@.take(data@.len() as int) =~= data@);
    match bounds(size, offset, len) {
        Err(e) => {
            return Some(Err(e));
        },
        Ok(_) => {},
    }
    let mut out: Vec<Batch> = Vec::new();
    let mut at: u64 = offset;
    let mut next: usize = 0;
    let ghost whole = plan(all@, offset as int, limit as int, write);
    assert(all@.skip(0) =~= all@);
    assert(batch_views(out@) + whole =~= whole);
    while next < all.len()
        invariant
            next <= all.len(),
            limit > 0,
            offset <= at,
            at - offset + total(all@.skip(next as int)) == len,
            offset + len <= size,
            batch_views(out@) + plan(all@.skip(next as int), at as int, limit as int, write)
                == whole,
        decreases all.len() - next,
    {
        let ghost rest = all@.skip(next as int);
        let (batch, bytes): (Vec<Segment>, u64) = take_batch(&all, next, limit, write);
        let count: usize = batch.len();
        proof {
            lemma_grown(Seq::empty(), rest, limit as int, write);
            assert(rest.take(count as int) + rest.skip(count as int) =~= rest);
            crate::guest::lemma_total_concat(rest.take(count as int), rest.skip(count as int));
            assert(Seq::<Segment>::empty() + rest.take(count as int) =~= rest.take(count as int));
            crate::guest::lemma_total_nonneg(rest.skip(count as int));
            assert(rest.skip(count as int) =~= all@.skip(next + count));
        }
        let ghost before = batch_views(out@);
        let ghost tail = plan(all@.skip(next + count), at + bytes, limit as int, write);
        let one: Batch = Batch { offset: at, segments: batch };
        let ghost item = (at as int, batch@);
        out.push(one);
        assert(batch_views(out@) =~= before.push(item));
        assert(batch_views(out@) + tail =~= before + (seq![item] + tail));
        at = at + bytes;
        next = next + count;
    }
    assert(batch_views(out@) + Seq::<(int, Seq<Segment>)>::empty() =~= batch_views(out@));
    Some(Ok(out))
}

/// The segments from number `from` on that go into one batch, and their bytes.
fn take_batch(all: &Vec<Segment>, from: usize, limit: usize, write: bool) -> (r: (
    Vec<Segment>,
    u64,
))
    requires
        from < all@.len(),
        limit > 0,
        total(all@.skip(from as int)) <= u64::MAX,
    ensures
        r.0@ == grown(Seq::empty(), all@.skip(from as int), limit as int, write),
        0 < r.0@.len() <= all@.len() - from,
        r.1 == total(r.0@),
{
    let mut batch: Vec<Segment> = Vec::new();
    let mut bytes: u64 = 0;
    let mut next: usize = from;
    let ghost rest = all@.skip(from as int);
    let ghost whole = grown(Seq::empty(), rest, limit as int, write);
    assert(batch@ =~= Seq::empty());
    proof {
        lemma_grown(Seq::empty(), rest, limit as int, write);
        assert(joins(Seq::<Segment>::empty(), rest[0], limit as int, write));
    }
    while next < all.len()
        invariant
            from <= next <= all.len(),
            rest == all@.skip(from as int),
            whole == grown(Seq::empty(), rest, limit as int, write),
            grown(batch@, all@.skip(next as int), limit as int, write) == whole,
            batch@ =~= rest.take(next - from),
            bytes == total(batch@),
            bytes + total(all@.skip(next as int)) <= u64::MAX,
            whole.len() > 0,
        ensures
            batch@ == whole,
            bytes == total(batch@),
        decreases all.len() - next,
    {
        let s: Segment = all[next];
        let ghost here = all@.skip(next as int);
        assert(here[0] == s);
        if batch.len() >= limit {
            break ;
        }
        if !write && touches(&batch, s) {
            break ;
        }
        proof {
            assert(here.skip(1) =~= all@.skip(next + 1));
            lemma_total_push(batch@, s);
            assert(total(here) == s.len + total(here.skip(1)));
            crate::guest::lemma_total_nonneg(here.skip(1));
        }
        bytes = bytes + s.len as u64;
        batch.push(s);
        next = next + 1;
    }
    proof {
        lemma_grown(Seq::empty(), rest, limit as int, write);
    }
    (batch, bytes)
}

/// Whether `s` shares a byte with one of `batch`.
fn touches(batch: &Vec<Segment>, s: Segment) -> (r: bool)
    ensures
        r == exists|i: int| 0 <= i < batch@.len() && #[trigger] meet(s, batch@[i]),
{
    let mut i: usize = 0;
    while i < batch.len()
        invariant
            i <= batch.len(),
            forall|k: int| 0 <= k < i ==> !#[trigger] meet(s, batch@[k]),
        decreases batch.len() - i,
    {
        if meets(s, batch[i]) {
            return true;
        }
        i = i + 1;
    }
    false
}

/// All segments of the batches, one after the other.
pub open spec fn joined(batches: Seq<(int, Seq<Segment>)>) -> Seq<Segment>
    decreases batches.len(),
{
    if batches.len() == 0 {
        Seq::empty()
    } else {
        batches[0].1 + joined(batches.skip(1))
    }
}

/// A plan moves every filled segment once and in order. Each batch starts where
/// the bytes before it end, is not empty, keeps to the limit, and never reads
/// into one byte twice.
pub proof fn plan_is_faithful(segments: Seq<Segment>, offset: int, limit: int, write: bool)
    requires
        limit > 0,
    ensures
        joined(plan(segments, offset, limit, write)) == segments,
        forall|i: int|
            0 <= i < plan(segments, offset, limit, write).len() ==> {
                let b = #[trigger] plan(segments, offset, limit, write)[i];
                &&& b.0 == offset + total(joined(plan(segments, offset, limit, write).take(i)))
                &&& 0 < b.1.len() <= limit
                &&& write || !crate::devices::buffers::overlapping(b.1)
            },
    decreases segments.len(),
{
    let all = plan(segments, offset, limit, write);
    let batch = grown(Seq::empty(), segments, limit, write);
    lemma_grown(Seq::empty(), segments, limit, write);
    if segments.len() > 0 {
        assert(joins(Seq::<Segment>::empty(), segments[0], limit, write));
        let n = batch.len() as int;
        let rest = segments.skip(n);
        let tail = plan(rest, offset + total(batch), limit, write);
        plan_is_faithful(rest, offset + total(batch), limit, write);
        assert(all == seq![(offset, batch)] + tail);
        assert(all.skip(1) =~= tail);
        assert(batch =~= segments.take(n));
        assert(batch + rest =~= segments);
        assert forall|i: int| 0 <= i < all.len() implies {
            let b = #[trigger] all[i];
            &&& b.0 == offset + total(joined(all.take(i)))
            &&& 0 < b.1.len() <= limit
            &&& write || !crate::devices::buffers::overlapping(b.1)
        } by {
            if i == 0 {
                assert(all.take(0) =~= Seq::empty());
                if !write && crate::devices::buffers::overlapping(batch) {
                    let (x, y) = choose|x: int, y: int|
                        0 <= x < y < batch.len() && #[trigger] meet(batch[x], batch[y]);
                    assert(meet(batch[y], batch[x]));
                }
            } else {
                assert(all[i] == tail[i - 1]);
                assert(all.take(i).skip(1) =~= tail.take(i - 1));
                assert(all.take(i)[0] == all[0]);
                crate::guest::lemma_total_concat(batch, joined(tail.take(i - 1)));
            }
        }
    } else {
        assert(all =~= Seq::empty());
        assert(joined(all) =~= segments);
    }
}

} // verus!
