//! Which bytes of guest memory are meant: a chain is one row of bytes, its parts
//! are parts of that row, and what is read or written goes byte by byte along it.
use crate::devices::buffers::{length, meet, overlapping, reachable, reads, span, spread, writes};
use crate::guest::{covers, ordered, split, total, Access, Segment};
use crate::ring::Descriptor;
use vstd::prelude::*;

verus! {

/// The addresses of `n` bytes from `a` on.
pub open spec fn from(a: int, n: int) -> Seq<int> {
    Seq::new(n as nat, |i: int| a + i)
}

/// The addresses of the bytes of `segments`, in order.
pub open spec fn places(segments: Seq<Segment>) -> Seq<int>
    decreases segments.len(),
{
    if segments.len() == 0 {
        Seq::empty()
    } else {
        places(segments.drop_last()) + from(
            segments.last().addr as int,
            segments.last().len as int,
        )
    }
}

/// The addresses of the bytes of a chain, in order.
pub open spec fn chain_places(desc: Seq<Descriptor>) -> Seq<int>
    decreases desc.len(),
{
    if desc.len() == 0 {
        Seq::empty()
    } else {
        chain_places(desc.drop_last()) + from(desc.last().addr as int, desc.last().len as int)
    }
}

/// The bytes that `log` reads or writes, each with its address, in order.
pub open spec fn trace(log: Seq<Access>) -> Seq<(int, u8)>
    decreases log.len(),
{
    if log.len() == 0 {
        Seq::empty()
    } else {
        trace(log.drop_last()) + match log.last() {
            Access::Read { addr, data } => Seq::new(data.len(), |i: int| (addr + i, data[i])),
            Access::Write { addr, data } => Seq::new(data.len(), |i: int| (addr + i, data[i])),
            _ => Seq::empty(),
        }
    }
}

/// `data`, each byte with its address.
pub open spec fn laid(at: Seq<int>, data: Seq<u8>) -> Seq<(int, u8)> {
    Seq::new(data.len(), |i: int| (at[i], data[i]))
}

proof fn lemma_places_concat(a: Seq<Segment>, b: Seq<Segment>)
    ensures
        places(a + b) == places(a) + places(b),
    decreases b.len(),
{
    if b.len() == 0 {
        assert(a + b =~= a);
        assert(places(a) + places(b) =~= places(a));
    } else {
        assert((a + b).drop_last() =~= a + b.drop_last());
        assert((a + b).last() == b.last());
        lemma_places_concat(a, b.drop_last());
        assert(places(a + b) =~= places(a) + places(b));
    }
}

pub(crate) proof fn lemma_places_len(a: Seq<Segment>)
    ensures
        places(a).len() == total(a),
    decreases a.len(),
{
    if a.len() > 0 {
        lemma_places_len(a.drop_last());
        assert(a =~= a.drop_last() + seq![a.last()]);
        crate::guest::lemma_total_concat(a.drop_last(), seq![a.last()]);
        let one = seq![a.last()];
        assert(one.skip(1) =~= Seq::empty());
        assert(total(one.skip(1)) == 0);
        assert(total(one) == a.last().len);
    }
}

/// The segments of a mapped range are its bytes, in order.
proof fn lemma_split_places(regions: Seq<(u64, u64)>, addr: int, len: int)
    requires
        ordered(regions),
        covers(regions, addr, len),
        0 <= addr,
        0 <= len <= usize::MAX,
    ensures
        places(split(regions, addr, len)) == from(addr, len),
    decreases len,
{
    crate::guest::lemma_room(regions, addr);
    if len > 0 {
        assert(crate::guest::mapped(regions, addr));
        let n = if crate::guest::room(regions, addr) <= len {
            crate::guest::room(regions, addr)
        } else {
            len
        };
        crate::guest::lemma_covers_tail(regions, addr, len, n);
        lemma_split_places(regions, addr + n, len - n);
        let first = seq![Segment { addr: addr as u64, len: n as usize }];
        let rest = split(regions, addr + n, len - n);
        assert(split(regions, addr, len) =~= first + rest);
        lemma_places_concat(first, rest);
        assert(first.drop_last() =~= Seq::empty());
        assert(places(first.drop_last()) =~= Seq::empty());
        assert(places(first) =~= from(addr, n));
        assert(from(addr, n) + from(addr + n, len - n) =~= from(addr, len));
    } else {
        assert(split(regions, addr, len) =~= Seq::empty());
        assert(places(split(regions, addr, len)) =~= from(addr, len));
    }
}

/// However memory is divided into regions, the segments of a chain are its
/// bytes: all of them, in order, and no others.
pub proof fn segments_are_the_bytes_of_the_chain(
    regions: Seq<(u64, u64)>,
    desc: Seq<Descriptor>,
)
    requires
        ordered(regions),
        reachable(regions, desc),
    ensures
        places(spread(regions, desc)) == chain_places(desc),
        chain_places(desc).len() == length(desc),
    decreases desc.len(),
{
    if desc.len() > 0 {
        let fewer = desc.drop_last();
        let last = desc.last();
        assert(reachable(regions, fewer)) by {
            assert forall|i: int| 0 <= i < fewer.len() implies covers(
                regions,
                (#[trigger] fewer[i]).addr as int,
                fewer[i].len as int,
            ) by {
                assert(fewer[i] == desc[i]);
            }
        }
        segments_are_the_bytes_of_the_chain(regions, fewer);
        assert(desc[desc.len() - 1] == last);
        lemma_split_places(regions, last.addr as int, last.len as int);
        lemma_places_concat(
            spread(regions, fewer),
            split(regions, last.addr as int, last.len as int),
        );
    } else {
        assert(places(spread(regions, desc)) =~= chain_places(desc));
    }
}

/// A part of some segments is that part of their bytes.
pub proof fn a_span_is_a_part_of_the_bytes(segments: Seq<Segment>, skip: int, len: int)
    requires
        0 <= skip,
        0 <= len,
        skip + len <= total(segments),
        forall|i: int|
            0 <= i < segments.len() ==> (#[trigger] segments[i]).addr + segments[i].len
                <= u64::MAX,
    ensures
        places(span(segments, skip, len)) == places(segments).subrange(skip, skip + len),
    decreases segments.len(),
{
    lemma_places_len(segments);
    if segments.len() == 0 || len <= 0 {
        assert(places(span(segments, skip, len)) =~= places(segments).subrange(skip, skip + len));
    } else {
        let s = segments[0];
        let rest = segments.skip(1);
        let offset = if skip <= s.len {
            skip
        } else {
            s.len as int
        };
        let n = if s.len - offset <= len {
            s.len - offset
        } else {
            len
        };
        assert(s.addr + s.len <= u64::MAX);
        assert forall|i: int| 0 <= i < rest.len() implies (#[trigger] rest[i]).addr + rest[i].len
            <= u64::MAX by {
            assert(rest[i] == segments[i + 1]);
        }
        lemma_places_len(rest);
        crate::guest::lemma_total_nonneg(rest);
        assert(total(segments) == s.len + total(rest));
        let one = seq![s];
        assert(segments =~= one + rest);
        lemma_places_concat(one, rest);
        assert(one.drop_last() =~= Seq::empty());
        assert(places(one.drop_last()) =~= Seq::empty());
        assert(places(one) =~= from(s.addr as int, s.len as int));
        a_span_is_a_part_of_the_bytes(rest, skip - offset, len - n);
        let tail = span(rest, skip - offset, len - n);
        let all = places(segments);
        let wanted = all.subrange(skip, skip + len);
        if n > 0 {
            let head = seq![Segment { addr: (s.addr + offset) as u64, len: n as usize }];
            assert(span(segments, skip, len) =~= head + tail);
            lemma_places_concat(head, tail);
            assert(head.drop_last() =~= Seq::empty());
            assert(places(head.drop_last()) =~= Seq::empty());
            assert(places(head) =~= from(s.addr + offset, n));
            assert(places(head) + places(tail) =~= wanted);
        } else {
            assert(places(tail) =~= wanted);
        }
    }
}

/// Reading or writing some segments goes through their bytes in order, and gives
/// or takes one byte of the data for each.
pub proof fn transfers_go_byte_by_byte(segments: Seq<Segment>, data: Seq<u8>)
    requires
        data.len() == total(segments),
    ensures
        trace(reads(segments, data)) == laid(places(segments), data),
        trace(writes(segments, data)) == laid(places(segments), data),
        reads(segments, data).len() == segments.len(),
        writes(segments, data).len() == segments.len(),
        forall|i: int| 0 <= i < segments.len() ==> (#[trigger] reads(segments, data)[i]) is Read,
        forall|i: int| 0 <= i < segments.len() ==> (#[trigger] writes(segments, data)[i]) is Write,
    decreases segments.len(),
{
    lemma_places_len(segments);
    if segments.len() > 0 {
        let fewer = segments.drop_last();
        let last = segments.last();
        lemma_places_len(fewer);
        let k = data.len() - last.len;
        assert(places(segments).len() == places(fewer).len() + last.len);
        transfers_go_byte_by_byte(fewer, data.take(k));
        let r = reads(segments, data);
        let w = writes(segments, data);
        assert(r.drop_last() =~= reads(fewer, data.take(k)));
        assert(w.drop_last() =~= writes(fewer, data.take(k)));
        assert(r.last() == (Access::Read { addr: last.addr, data: data.skip(k) }));
        assert(w.last() == (Access::Write { addr: last.addr, data: data.skip(k) }));
        assert(trace(r) =~= laid(places(segments), data));
        assert(trace(w) =~= laid(places(segments), data));
        assert forall|i: int| 0 <= i < segments.len() implies (#[trigger] r[i]) is Read by {
            if i < segments.len() - 1 {
                assert(r[i] == reads(fewer, data.take(k))[i]);
            }
        }
        assert forall|i: int| 0 <= i < segments.len() implies (#[trigger] w[i]) is Write by {
            if i < segments.len() - 1 {
                assert(w[i] == writes(fewer, data.take(k))[i]);
            }
        }
    } else {
        assert(trace(reads(segments, data)) =~= laid(places(segments), data));
        assert(trace(writes(segments, data)) =~= laid(places(segments), data));
    }
}

/// Segments overlap exactly where two of them hold the same byte.
pub proof fn overlapping_segments_share_a_byte(segments: Seq<Segment>)
    requires
        forall|i: int| 0 <= i < segments.len() ==> (#[trigger] segments[i]).len > 0,
    ensures
        overlapping(segments) <==> exists|i: int, j: int, x: int|
            0 <= i < j < segments.len() && (#[trigger] from(
                segments[i].addr as int,
                segments[i].len as int,
            ).contains(x)) && #[trigger] from(
                segments[j].addr as int,
                segments[j].len as int,
            ).contains(x),
{
    if overlapping(segments) {
        let (i, j) = choose|i: int, j: int|
            0 <= i < j < segments.len() && #[trigger] meet(segments[i], segments[j]);
        let a = segments[i];
        let b = segments[j];
        assert(a.len > 0 && b.len > 0);
        let x = if a.addr < b.addr {
            b.addr as int
        } else {
            a.addr as int
        };
        assert(from(a.addr as int, a.len as int)[x - a.addr] == x);
        assert(from(b.addr as int, b.len as int)[x - b.addr] == x);
        assert(from(a.addr as int, a.len as int).contains(x));
        assert(from(b.addr as int, b.len as int).contains(x));
    }
    if exists|i: int, j: int, x: int|
        0 <= i < j < segments.len() && (#[trigger] from(
            segments[i].addr as int,
            segments[i].len as int,
        ).contains(x)) && #[trigger] from(
            segments[j].addr as int,
            segments[j].len as int,
        ).contains(x) {
        let (i, j, x) = choose|i: int, j: int, x: int|
            0 <= i < j < segments.len() && (#[trigger] from(
                segments[i].addr as int,
                segments[i].len as int,
            ).contains(x)) && #[trigger] from(
                segments[j].addr as int,
                segments[j].len as int,
            ).contains(x);
        assert(meet(segments[i], segments[j]));
    }
}

} // verus!
