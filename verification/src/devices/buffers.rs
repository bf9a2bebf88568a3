//! The buffers of a descriptor chain, as segments of guest memory.
use crate::error::DeviceError;
use crate::guest::{
    covers, lemma_total_concat, lemma_total_nonneg, split, split_is_complete, total, within, Access,
    Guest, Segment,
};
use crate::ring::Descriptor;
use vstd::prelude::*;

verus! {

/// Number of bytes in the buffers of `desc`.
pub open spec fn length(desc: Seq<Descriptor>) -> int
    decreases desc.len(),
{
    if desc.len() == 0 {
        0
    } else {
        length(desc.drop_last()) + desc.last().len
    }
}

/// Every buffer of `desc` is mapped.
pub open spec fn reachable(regions: Seq<(u64, u64)>, desc: Seq<Descriptor>) -> bool {
    forall|i: int|
        0 <= i < desc.len() ==> covers(
            regions,
            (#[trigger] desc[i]).addr as int,
            desc[i].len as int,
        )
}

/// The segments of the buffers of `desc`, one after the other.
pub open spec fn spread(regions: Seq<(u64, u64)>, desc: Seq<Descriptor>) -> Seq<Segment>
    decreases desc.len(),
{
    if desc.len() == 0 {
        Seq::empty()
    } else {
        spread(regions, desc.drop_last()) + split(
            regions,
            desc.last().addr as int,
            desc.last().len as int,
        )
    }
}

/// The bytes number `skip` up to `skip + len` of `segments`, in segments.
pub open spec fn span(segments: Seq<Segment>, skip: int, len: int) -> Seq<Segment>
    decreases segments.len(),
{
    if segments.len() == 0 || len <= 0 {
        Seq::empty()
    } else {
        let s = segments[0];
        let offset = if skip <= s.len {
            skip
        } else {
            s.len as int
        };
        let n = if s.len - offset <= len {
            s.len - offset
        } else {
            len
        };
        let rest = span(segments.skip(1), skip - offset, len - n);
        if n > 0 {
            seq![(Segment { addr: (s.addr + offset) as u64, len: n as usize })] + rest
        } else {
            rest
        }
    }
}

/// Reading `segments` one after the other, which gave `data`.
pub open spec fn reads(segments: Seq<Segment>, data: Seq<u8>) -> Seq<Access>
    decreases segments.len(),
{
    if segments.len() == 0 {
        Seq::empty()
    } else {
        let k = data.len() - segments.last().len;
        reads(segments.drop_last(), data.take(k)).push(
            Access::Read { addr: segments.last().addr, data: data.skip(k) },
        )
    }
}

/// Writing `data` to `segments` one after the other.
pub open spec fn writes(segments: Seq<Segment>, data: Seq<u8>) -> Seq<Access>
    decreases segments.len(),
{
    if segments.len() == 0 {
        Seq::empty()
    } else {
        let k = data.len() - segments.last().len;
        writes(segments.drop_last(), data.take(k)).push(
            Access::Write { addr: segments.last().addr, data: data.skip(k) },
        )
    }
}

/// Two of `segments` share a byte.
pub open spec fn overlapping(segments: Seq<Segment>) -> bool {
    exists|i: int, j: int|
        0 <= i < j < segments.len() && #[trigger] meet(segments[i], segments[j])
}

/// `a` and `b` share a byte.
pub open spec fn meet(a: Segment, b: Segment) -> bool {
    a.addr < b.addr + b.len && b.addr < a.addr + a.len
}

/// A span of mapped segments is mapped, and holds the bytes it is asked for.
pub proof fn lemma_span(regions: Seq<(u64, u64)>, segments: Seq<Segment>, skip: int, len: int)
    requires
        within(regions, segments),
        0 <= skip,
        0 <= len,
        skip + len <= total(segments),
    ensures
        within(regions, span(segments, skip, len)),
        total(span(segments, skip, len)) == len,
    decreases segments.len(),
{
    if segments.len() > 0 && len > 0 {
        let s = segments[0];
        let offset = if skip <= s.len {
            skip
        } else {
            s.len as int
        };
        let n = if s.len - offset <= len {
            s.len - offset
        } else {
            len
        };
        let tail = segments.skip(1);
        assert forall|i: int| 0 <= i < tail.len() implies covers(
            regions,
            (#[trigger] tail[i]).addr as int,
            tail[i].len as int,
        ) && 0 < tail[i].len && tail[i].addr + tail[i].len <= u64::MAX by {
            assert(tail[i] == segments[i + 1]);
        }
        lemma_total_nonneg(tail);
        lemma_span(regions, tail, skip - offset, len - n);
        let rest = span(tail, skip - offset, len - n);
        let all = span(segments, skip, len);
        if n > 0 {
            let first = Segment { addr: (s.addr + offset) as u64, len: n as usize };
            assert(all == seq![first] + rest);
            assert(all.skip(1) =~= rest);
            assert(covers(regions, s.addr as int, s.len as int));
            assert forall|i: int| 0 <= i < all.len() implies covers(
                regions,
                (#[trigger] all[i]).addr as int,
                all[i].len as int,
            ) && 0 < all[i].len && all[i].addr + all[i].len <= u64::MAX by {
                if i > 0 {
                    assert(all[i] == rest[i - 1]);
                }
            }
        }
    }
}

/// The segments of a descriptor chain, if all of its buffers are mapped.
pub fn slices(mem: &Guest, desc: &[Descriptor]) -> (r: Result<Vec<Segment>, DeviceError>)
    ensures
        r is Ok <==> reachable(mem@.regions, desc@),
        r matches Ok(v) ==> {
            &&& v@ == spread(mem@.regions, desc@)
            &&& within(mem@.regions, v@)
            &&& total(v@) == length(desc@)
        },
        r matches Err(e) ==> e is GuestAccess,
{
    let ghost regions = mem@.regions;
    let mut out: Vec<Segment> = Vec::new();
    let mut i: usize = 0;
    while i < desc.len()
        invariant
            i <= desc.len(),
            regions == mem@.regions,
            reachable(regions, desc@.take(i as int)),
            out@ == spread(regions, desc@.take(i as int)),
            within(regions, out@),
            total(out@) == length(desc@.take(i as int)),
        decreases desc.len() - i,
    {
        let ghost before = desc@.take(i as int);
        let ghost after = desc@.take(i + 1);
        assert(after.drop_last() =~= before);
        assert(after.last() == desc@[i as int]);
        match mem.segments(desc[i].addr, desc[i].len as usize) {
            Err(_) => {
                return Err(DeviceError::GuestAccess);
            },
            Ok(more) => {
                let mut more: Vec<Segment> = more;
                let ghost old_out = out@;
                let ghost added = more@;
                out.append(&mut more);
                proof {
                    lemma_total_concat(old_out, added);
                    assert forall|k: int| 0 <= k < out@.len() implies covers(
                        regions,
                        (#[trigger] out@[k]).addr as int,
                        out@[k].len as int,
                    ) && 0 < out@[k].len && out@[k].addr + out@[k].len <= u64::MAX by {
                        if k < old_out.len() {
                            assert(out@[k] == old_out[k]);
                        } else {
                            assert(out@[k] == added[k - old_out.len()]);
                        }
                    }
                    assert forall|k: int| 0 <= k < after.len() implies covers(
                        regions,
                        (#[trigger] after[k]).addr as int,
                        after[k].len as int,
                    ) by {
                        if k < before.len() {
                            assert(after[k] == before[k]);
                        }
                    }
                }
            },
        }
        i = i + 1;
    }
    assert(desc@.take(desc@.len() as int) =~= desc@);
    Ok(out)
}

/// The bytes number `skip` up to `skip + len` of `segments`.
pub fn range(segments: &[Segment], skip: usize, len: usize) -> (r: Vec<Segment>)
    requires
        skip + len <= total(segments@),
        forall|i: int|
            0 <= i < segments@.len() ==> (#[trigger] segments@[i]).addr + segments@[i].len
                <= u64::MAX,
    ensures
        r@ == span(segments@, skip as int, len as int),
{
    let mut result: Vec<Segment> = Vec::new();
    let mut skip_left: usize = skip;
    let mut len_left: usize = len;
    let mut i: usize = 0;
    assert(segments@.skip(0) =~= segments@);
    while i < segments.len() && len_left > 0
        invariant
            i <= segments.len(),
            result@ + span(segments@.skip(i as int), skip_left as int, len_left as int) == span(
                segments@,
                skip as int,
                len as int,
            ),
            forall|i: int|
                0 <= i < segments@.len() ==> (#[trigger] segments@[i]).addr + segments@[i].len
                    <= u64::MAX,
        decreases segments.len() - i,
    {
        let s: Segment = segments[i];
        let offset: usize = if skip_left <= s.len {
            skip_left
        } else {
            s.len
        };
        let n: usize = if s.len - offset <= len_left {
            s.len - offset
        } else {
            len_left
        };
        let ghost here = segments@.skip(i as int);
        assert(here[0] == s);
        assert(here.skip(1) =~= segments@.skip(i + 1));
        let ghost before = result@;
        let ghost rest = span(segments@.skip(i + 1), skip_left - offset, len_left - n);
        skip_left = skip_left - offset;
        if n > 0 {
            let piece: Segment = Segment { addr: s.addr + offset as u64, len: n };
            result.push(piece);
            assert(result@ + rest =~= before + (seq![piece] + rest));
            len_left = len_left - n;
        }
        i = i + 1;
    }
    assert(result@ + Seq::<Segment>::empty() =~= result@);
    result
}

/// Reads the first `len` bytes of `segments`.
pub fn copy_to(segments: &[Segment], len: usize, mem: &mut Guest) -> (r: Vec<u8>)
    requires
        len <= total(segments@),
        within(old(mem)@.regions, segments@),
    ensures
        r@.len() == len,
        final(mem)@ == old(mem)@.after_all(reads(span(segments@, 0, len as int), r@)),
{
    let pieces: Vec<Segment> = range(segments, 0, len);
    let ghost start = mem@;
    proof {
        lemma_span(mem@.regions, segments@, 0, len as int);
    }
    let mut data: Vec<u8> = Vec::new();
    let mut i: usize = 0;
    assert(start.after_all(Seq::empty()).accesses =~= start.accesses);
    assert(pieces@.take(0) =~= Seq::empty());
    while i < pieces.len()
        invariant
            i <= pieces.len(),
            within(start.regions, pieces@),
            total(pieces@.take(i as int)) == data@.len(),
            mem@ == start.after_all(reads(pieces@.take(i as int), data@)),
        decreases pieces.len() - i,
    {
        let ghost before = pieces@.take(i as int);
        let ghost after = pieces@.take(i + 1);
        let ghost old_data = data@;
        let ghost old_mem = mem@;
        let piece: Segment = pieces[i];
        let mut bytes: Vec<u8> = mem.read(piece.addr, piece.len);
        let ghost added = bytes@;
        data.append(&mut bytes);
        proof {
            assert(after.drop_last() =~= before);
            let k = data@.len() - piece.len;
            assert(data@.take(k) =~= old_data);
            assert(data@.skip(k) =~= added);
            assert(after =~= before + seq![piece]);
            lemma_total_concat(before, seq![piece]);
            assert(seq![piece].skip(1) =~= Seq::empty());
            reveal_with_fuel(total, 2);
            assert(mem@.accesses =~= start.after_all(reads(after, data@)).accesses);
        }
        i = i + 1;
    }
    assert(pieces@.take(pieces@.len() as int) =~= pieces@);
    data
}

/// Writes `data` to the first bytes of `segments`.
pub fn copy_from(segments: &[Segment], data: &[u8], mem: &mut Guest)
    requires
        data@.len() <= total(segments@),
        within(old(mem)@.regions, segments@),
    ensures
        final(mem)@ == old(mem)@.after_all(
            writes(span(segments@, 0, data@.len() as int), data@),
        ),
{
    let len: usize = data.len();
    let pieces: Vec<Segment> = range(segments, 0, len);
    let ghost start = mem@;
    proof {
        lemma_span(mem@.regions, segments@, 0, data@.len() as int);
        assert(pieces@.take(0) =~= Seq::empty());
        assert(pieces@.skip(0) =~= pieces@);
    }
    let mut done: usize = 0;
    let mut i: usize = 0;
    assert(start.after_all(Seq::empty()).accesses =~= start.accesses);
    while i < pieces.len()
        invariant
            i <= pieces.len(),
            within(start.regions, pieces@),
            done <= len,
            len == data@.len(),
            total(pieces@.skip(i as int)) == data@.len() - done,
            mem@ == start.after_all(writes(pieces@.take(i as int), data@.take(done as int))),
        decreases pieces.len() - i,
    {
        let ghost before = pieces@.take(i as int);
        let ghost after = pieces@.take(i + 1);
        let piece: Segment = pieces[i];
        proof {
            assert(pieces@.skip(i as int)[0] == piece);
            assert(pieces@.skip(i as int).skip(1) =~= pieces@.skip(i + 1));
            lemma_total_nonneg(pieces@.skip(i + 1));
            assert(total(pieces@.skip(i as int)) == piece.len + total(pieces@.skip(i + 1)));
        }
        let part: &[u8] = vstd::slice::slice_subrange(data, done, done + piece.len);
        mem.write(piece.addr, part);
        proof {
            assert(after.drop_last() =~= before);
            let so_far = data@.take(done + piece.len);
            assert(so_far.take(done as int) =~= data@.take(done as int));
            assert(so_far.skip(done as int) =~= part@);
            assert(mem@.accesses =~= start.after_all(writes(after, so_far)).accesses);
        }
        done = done + piece.len;
        i = i + 1;
    }
    assert(pieces@.take(pieces@.len() as int) =~= pieces@);
    assert(pieces@.skip(pieces@.len() as int) =~= Seq::empty());
    assert(data@.take(done as int) =~= data@);
}

/// Whether `a` and `b` share a byte.
pub fn meets(a: Segment, b: Segment) -> (r: bool)
    ensures
        r == meet(a, b),
{
    let a_end: u128 = a.addr as u128 + a.len as u128;
    let b_end: u128 = b.addr as u128 + b.len as u128;
    (a.addr as u128) < b_end && (b.addr as u128) < a_end
}

/// Whether two of `segments` share a byte.
pub fn overlaps(segments: &[Segment]) -> (r: bool)
    ensures
        r == overlapping(segments@),
{
    let mut j: usize = 0;
    while j < segments.len()
        invariant
            j <= segments.len(),
            forall|a: int, b: int|
                0 <= a < b < j ==> !#[trigger] meet(segments@[a], segments@[b]),
        decreases segments.len() - j,
    {
        let mut i: usize = 0;
        while i < j
            invariant
                i <= j < segments.len(),
                forall|a: int| 0 <= a < i ==> !#[trigger] meet(segments@[a], segments@[j as int]),
            decreases j - i,
        {
            if meets(segments[i], segments[j]) {
                return true;
            }
            i = i + 1;
        }
        j = j + 1;
    }
    false
}

/// A chain's segments hold as many bytes as its descriptors announce, and every
/// one of them is mapped, if every buffer is.
pub proof fn spread_is_complete(regions: Seq<(u64, u64)>, desc: Seq<Descriptor>)
    requires
        crate::guest::ordered(regions),
        reachable(regions, desc),
    ensures
        total(spread(regions, desc)) == length(desc),
        within(regions, spread(regions, desc)),
    decreases desc.len(),
{
    if desc.len() > 0 {
        let most = desc.drop_last();
        assert forall|i: int| 0 <= i < most.len() implies covers(
            regions,
            (#[trigger] most[i]).addr as int,
            most[i].len as int,
        ) by {
            assert(most[i] == desc[i]);
        }
        spread_is_complete(regions, most);
        let last = desc[desc.len() - 1];
        split_is_complete(regions, last.addr as int, last.len as int);
        let a = spread(regions, most);
        let b = split(regions, last.addr as int, last.len as int);
        lemma_total_concat(a, b);
        assert forall|k: int| 0 <= k < (a + b).len() implies covers(
            regions,
            (#[trigger] (a + b)[k]).addr as int,
            (a + b)[k].len as int,
        ) && 0 < (a + b)[k].len && (a + b)[k].addr + (a + b)[k].len <= u64::MAX by {
            if k < a.len() {
                assert((a + b)[k] == a[k]);
            } else {
                assert((a + b)[k] == b[k - a.len()]);
            }
        }
    }
}

/// Every buffer is writable, or none is.
pub open spec fn all_writable(data: Seq<Descriptor>, writable: bool) -> bool {
    forall|i: int| 0 <= i < data.len() ==> (#[trigger] data[i]).writable() == writable
}

/// Whether every buffer is writable, or none is.
pub fn is_all_writable(data: &[Descriptor], writable: bool) -> (r: bool)
    ensures
        r == all_writable(data@, writable),
{
    let mut i: usize = 0;
    while i < data.len()
        invariant
            i <= data@.len(),
            forall|k: int| 0 <= k < i ==> (#[trigger] data@[k]).writable() == writable,
        decreases data@.len() - i,
    {
        if data[i].is_write_only() != writable {
            return false;
        }
        i = i + 1;
    }
    true
}

/// Number of bytes in the buffers of `desc`, if it can be counted.
pub fn sum_lengths(desc: &[Descriptor]) -> (r: Option<usize>)
    ensures
        r == if length(desc@) <= usize::MAX {
            Some(length(desc@) as usize)
        } else {
            None
        },
        0 <= length(desc@),
{
    proof {
        lemma_length_grows(desc@, 0);
    }
    let mut sum: usize = 0;
    let mut i: usize = 0;
    assert(desc@.take(0) =~= Seq::empty());
    while i < desc.len()
        invariant
            i <= desc@.len(),
            sum == length(desc@.take(i as int)),
        decreases desc@.len() - i,
    {
        proof {
            assert(desc@.take(i + 1).drop_last() =~= desc@.take(i as int));
        }
        match sum.checked_add(desc[i].len as usize) {
            None => {
                proof {
                    lemma_length_grows(desc@, i + 1);
                }
                return None;
            },
            Some(more) => {
                sum = more;
            },
        }
        i = i + 1;
    }
    assert(desc@.take(desc@.len() as int) =~= desc@);
    Some(sum)
}

proof fn lemma_length_grows(desc: Seq<Descriptor>, n: int)
    requires
        0 <= n <= desc.len(),
    ensures
        length(desc.take(n)) <= length(desc),
    decreases desc.len() - n,
{
    if n == desc.len() {
        assert(desc.take(n) =~= desc);
    } else {
        assert(desc.take(n + 1).drop_last() =~= desc.take(n));
        lemma_length_grows(desc, n + 1);
    }
}

} // verus!
