//! Which disk images are taken, and which bytes of them a request is for.
use crate::described::big;
use crate::devices::places::{from, places};
use crate::disk::{opened, transferred, DiskView, Found, OpenStep, OpeningView};
use crate::error::StorageError;
use crate::guest::Segment;
use crate::storage::{batch_views, filled, header_verdict, joined, plan, plan_is_faithful, Batch};
use vstd::arithmetic::power2::pow2;
use vstd::prelude::*;

verus! {

/// The image is a plain qcow2 image: of the second or third version, with a
/// cluster size that the format has, without a backing file, encryption, snapshots
/// or features that must be understood, and its size is in whole sectors.
pub open spec fn plain_image(h: Seq<u8>) -> bool {
    let version = big(h, 4, 4);
    let bits = big(h, 20, 4);
    &&& h.len() >= 104
    &&& big(h, 0, 4) == 0x5146_49fb
    &&& version == 2 || version == 3
    &&& big(h, 8, 8) == 0 && big(h, 16, 4) == 0
    &&& 9 <= bits <= 21
    &&& big(h, 32, 4) == 0
    &&& big(h, 60, 4) == 0 && big(h, 64, 8) == 0
    &&& version == 3 ==> big(h, 72, 8) == 0 && 104 <= big(h, 100, 4) <= pow2(bits as nat)
    &&& big(h, 24, 8) > 0 && big(h, 24, 8) % 512 == 0
}

proof fn lemma_be32(h: Seq<u8>, p: int)
    requires
        0 <= p,
        p + 4 <= h.len(),
    ensures
        crate::bytes::be32(h, p) == big(h, p, 4),
        0 <= big(h, p, 4) <= u32::MAX,
{
    reveal_with_fuel(big, 5);
}

proof fn lemma_be64(h: Seq<u8>, p: int)
    requires
        0 <= p,
        p + 8 <= h.len(),
    ensures
        crate::bytes::be64(h, p) == big(h, p, 8),
        0 <= big(h, p, 8) <= u64::MAX,
{
    reveal_with_fuel(big, 9);
}

/// Plain images are taken, with the size that their header tells, and nothing else
/// is.
pub proof fn plain_images_are_taken(h: Seq<u8>, size: u64)
    ensures
        header_verdict(h) == Ok::<u64, StorageError>(size) <==> plain_image(h) && big(h, 24, 8)
            == size,
{
    if h.len() >= 104 {
        lemma_be32(h, 0);
        lemma_be32(h, 4);
        lemma_be64(h, 8);
        lemma_be32(h, 16);
        lemma_be32(h, 20);
        lemma_be64(h, 24);
        lemma_be32(h, 32);
        lemma_be32(h, 60);
        lemma_be64(h, 64);
        lemma_be64(h, 72);
        lemma_be32(h, 100);
    }
}

/// A refusal names something that the image has.
pub proof fn images_are_refused_for_what_they_have(h: Seq<u8>)
    ensures
        header_verdict(h) matches Err(e) ==> match e {
            StorageError::InvalidHeader => h.len() < 104 || big(h, 0, 4) != 0x5146_49fb,
            StorageError::UnsupportedVersion { version } => version == big(h, 4, 4) && version != 2
                && version != 3,
            StorageError::BackingChainsUnsupported => big(h, 8, 8) != 0 || big(h, 16, 4) != 0,
            StorageError::InvalidQcow2ClusterSize { bits } => bits == big(h, 20, 4) && !(9 <= bits
                <= 21),
            StorageError::EncryptedImagesUnsupported => big(h, 32, 4) != 0,
            StorageError::InternalSnapshotsUnsupported => big(h, 60, 4) != 0 || big(h, 64, 8) != 0,
            StorageError::IncompatibleFeatures { features } => features == big(h, 72, 8) && features
                != 0 && big(h, 4, 4) == 3,
            StorageError::InvalidHeaderLength { length } => length == big(h, 100, 4) && (length
                < 104 || length > pow2(big(h, 20, 4) as nat)) && big(h, 4, 4) == 3,
            StorageError::InvalidCapacity { size } => size == big(h, 24, 8) && (size == 0 || size
                % 512 != 0),
            _ => false,
        },
{
    if h.len() >= 104 {
        lemma_be32(h, 0);
        lemma_be32(h, 4);
        lemma_be64(h, 8);
        lemma_be32(h, 16);
        lemma_be32(h, 20);
        lemma_be64(h, 24);
        lemma_be32(h, 32);
        lemma_be32(h, 60);
        lemma_be64(h, 64);
        lemma_be64(h, 72);
        lemma_be32(h, 100);
    }
}

/// A disk that is to be written is locked for this VM alone, one that is only read
/// is shared; and it is used only if the image driver sees the size that the header
/// told.
pub proof fn disks_are_locked_for_their_use(o: OpeningView, found: Found)
    ensures
        o.step is Metadata && found == Found::Regular(true) ==> opened(o, found) == Ok::<
            (Option<OpenStep>, u64),
            StorageError,
        >((Some(OpenStep::Lock { exclusive: !o.readonly }), o.size)),
        o.step is Metadata && found == Found::Regular(false) ==> opened(o, found) == Err::<
            (Option<OpenStep>, u64),
            StorageError,
        >(StorageError::NotRegularFile),
        o.step is Image ==> (found matches Found::Size(actual) ==> (opened(o, found) is Ok <==> actual
            == o.size)),
{
}

proof fn lemma_filled(segments: Seq<Segment>)
    ensures
        places(filled(segments)) == places(segments),
    decreases segments.len(),
{
    reveal(Seq::filter);
    if segments.len() > 0 {
        let fewer = segments.drop_last();
        let last = segments.last();
        lemma_filled(fewer);
        if last.len > 0 {
            assert(filled(segments) =~= filled(fewer).push(last));
            assert(filled(segments).drop_last() =~= filled(fewer));
        } else {
            assert(filled(segments) =~= filled(fewer));
            assert(from(last.addr as int, 0) =~= Seq::empty());
            assert(places(segments) =~= places(fewer));
        }
    } else {
        assert(filled(segments) =~= segments);
    }
}

/// The bytes of a request go to one place on the disk: those of the guest in their
/// order, those of the disk from the offset on without a gap. A request that ends
/// on the disk is carried out, and no other.
pub proof fn requests_are_for_one_place(
    d: DiskView,
    offset: u64,
    data: Seq<Segment>,
    write: bool,
    limit: usize,
    r: Result<Vec<Batch>, StorageError>,
)
    requires
        limit > 0,
        transferred(d, offset, data, write, limit, r),
    ensures
        r is Ok <==> offset + places(data).len() <= d.size && places(data).len() <= usize::MAX,
        r matches Ok(v) ==> {
            let all = batch_views(v@);
            &&& places(joined(all)) == places(data)
            &&& forall|i: int|
                0 <= i < all.len() ==> {
                    &&& (#[trigger] all[i]).0 == offset + places(joined(all.take(i))).len()
                    &&& 0 < all[i].1.len() <= limit
                }
        },
        r matches Err(StorageError::OutOfBounds { size, offset: o, len }) ==> size == d.size && o
            == offset && len == places(data).len(),
{
    crate::devices::places::lemma_places_len(data);
    lemma_filled(data);
    if let Ok(v) = r {
        let all = plan(filled(data), offset as int, limit as int, write);
        plan_is_faithful(filled(data), offset as int, limit as int, write);
        assert forall|i: int| 0 <= i < all.len() implies {
            &&& (#[trigger] all[i]).0 == offset + places(joined(all.take(i))).len()
            &&& 0 < all[i].1.len() <= limit
        } by {
            crate::devices::places::lemma_places_len(joined(all.take(i)));
        }
    }
}

} // verus!
