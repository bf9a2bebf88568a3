//! What the network of the host promises: addresses as they are written, frames
//! that fit, and answers as they are given.
use crate::devices::places::{from, places};
use crate::error::NetError;
use crate::guest::Segment;
use crate::vmnet::{
    lowered, mac_of, occupied, parameters_rel, plain_bytes, receivable, received_rel, sendable,
    sent_rel, written, written_mac_reads_back_in_either_case, Parameters, Report,
};
use vstd::prelude::*;
use vstd::utf8::{encode_utf8, is_ascii_chars_encode_utf8};

verus! {

/// What a digit in base sixteen stands for.
pub open spec fn worth(c: u8) -> int {
    if 48 <= c <= 57 {
        c - 48
    } else if 65 <= c <= 70 {
        c - 55
    } else if 97 <= c <= 102 {
        c - 87
    } else {
        -1
    }
}

/// Six numbers of two digits each, with colons between them.
pub open spec fn address_text(b: Seq<u8>) -> bool {
    &&& b.len() == 17
    &&& forall|i: int|
        0 <= i < 17 ==> if i % 3 == 2 {
            #[trigger] b[i] == 58
        } else {
            worth(b[i]) >= 0
        }
}

/// An address is read digit by digit, the higher one first.
pub proof fn addresses_are_read_digit_by_digit(b: Seq<u8>)
    requires
        address_text(b),
    ensures
        mac_of(b) matches Ok(mac) && mac.len() == 6 && forall|i: int|
            0 <= i < 6 ==> #[trigger] mac[i] == 16 * worth(b[3 * i]) + worth(b[3 * i + 1]),
{
    let mac = Seq::new(6, |i: int| (16 * worth(b[3 * i]) + worth(b[3 * i + 1])) as u8);
    let text = written(mac, 6);
    reveal_with_fuel(written, 7);
    crate::vmnet::lemma_written_is_ascii(mac, 6);
    is_ascii_chars_encode_utf8(text);
    assert(text.len() == 17);
    assert forall|i: int| 0 <= i < 17 implies lowered(b)[i] == #[trigger] plain_bytes(text)[i] by {
        lemma_letter(b, mac, i);
    }
    assert(lowered(b) =~= plain_bytes(text));
    assert(encode_utf8(text) =~= plain_bytes(text));
    written_mac_reads_back_in_either_case(mac, b);
    assert forall|i: int| 0 <= i < 6 implies #[trigger] mac[i] == 16 * worth(b[3 * i]) + worth(
        b[3 * i + 1],
    ) by {
        assert(b[3 * i] == b[3 * i] && worth(b[3 * i]) >= 0) by {
            assert((3 * i) % 3 == 0);
        }
        assert(worth(b[3 * i + 1]) >= 0) by {
            assert((3 * i + 1) % 3 == 1);
        }
    }
}

proof fn lemma_letter(b: Seq<u8>, mac: Seq<u8>, i: int)
    requires
        address_text(b),
        mac == Seq::new(6, |i: int| (16 * worth(b[3 * i]) + worth(b[3 * i + 1])) as u8),
        0 <= i < 17,
    ensures
        crate::vmnet::lower(b[i]) == plain_bytes(written(mac, 6))[i],
{
    reveal_with_fuel(written, 7);
    let k = i / 3;
    let text = written(mac, 6);
    assert(b[3 * k] == b[3 * k] && worth(b[3 * k]) >= 0) by {
        assert((3 * k) % 3 == 0);
    }
    assert(worth(b[3 * k + 1]) >= 0) by {
        assert((3 * k + 1) % 3 == 1);
    }
    let hi = worth(b[3 * k]);
    let lo = worth(b[3 * k + 1]);
    assert(mac[k] as int / 16 == hi && mac[k] as int % 16 == lo);
    if i % 3 == 2 {
        assert(b[i] == 58);
        assert(text[i] == ':');
    } else if i % 3 == 0 {
        assert(text[i] == crate::fdt::hex_digit(hi));
    } else {
        assert(text[i] == crate::fdt::hex_digit(lo));
    }
}

/// A link that is used carries packets of 1500 bytes, with their header of 14, and
/// a frame of any size from the header alone up to what the link takes may be sent.
pub proof fn full_frames_fit_the_link(
    report: Report,
    p: Parameters,
    length: usize,
    segments: usize,
)
    requires
        parameters_rel(Some(report), Ok(p)),
    ensures
        report.mtu == 1500,
        p.max_frame == report.max_packet,
        1514 <= p.max_frame <= 65553,
        report.mac matches Ok(Some(text)) && mac_of(encode_utf8(text@)) == Ok::<Seq<u8>, NetError>(
            p.mac@,
        ),
        report.gateway == Ok::<Option<String>, NetError>(p.ipv4.gateway),
        report.pool_end == Ok::<Option<String>, NetError>(p.ipv4.pool_end),
        report.subnet_mask == Ok::<Option<String>, NetError>(p.ipv4.subnet_mask),
        segments <= 0xffff_ffff ==> (sendable(length, segments, p.max_frame) is Ok <==> 14 <= length
            <= p.max_frame),
        14 <= length <= 1514 && segments <= 0xffff_ffff ==> sendable(length, segments, p.max_frame)
            is Ok,
        segments <= 0xffff_ffff ==> (receivable(length, segments, p.max_frame) is Ok <==> length
            >= p.max_frame),
{
}

/// Links that are not as they must be are refused, others are taken.
pub proof fn links_are_taken_as_they_are(report: Report, r: Result<Parameters, NetError>)
    requires
        parameters_rel(Some(report), r),
    ensures
        r is Ok <==> (report.mac matches Ok(Some(text)) && mac_of(encode_utf8(text@)) is Ok)
            && report.mtu == 1500 && 1514 <= report.max_packet <= 65553 && report.gateway is Ok
            && report.pool_end is Ok && report.subnet_mask is Ok,
{
}

/// A frame counts as sent if the framework took it, and waits while the framework
/// has no room or took none.
pub proof fn answers_to_frames_are_taken_as_given(
    status: u32,
    count: i32,
    r: Result<bool, NetError>,
)
    requires
        sent_rel(status, count, r),
    ensures
        r == Ok::<bool, NetError>(true) <==> status == 1000 && count == 1,
        r == Ok::<bool, NetError>(false) <==> status == 1007 || (status == 1000 && count == 0),
        r matches Err(NetError::PermissionDenied { operation, status: s }) ==> s == status && (status
            == 1005 || status == 1010),
        status == 1005 || status == 1010 ==> r is Err && r->Err_0 is PermissionDenied,
{
}

/// A frame was received if the framework tells of one that a buffer can hold.
pub proof fn answers_to_buffers_are_taken_as_given(
    status: u32,
    count: i32,
    size: usize,
    max_frame: usize,
    r: Result<Option<usize>, NetError>,
)
    requires
        received_rel(status, count, size, max_frame, r),
    ensures
        r == Ok::<Option<usize>, NetError>(None) <==> status == 1000 && count == 0,
        r matches Ok(Some(n)) ==> n == size,
        (r matches Ok(Some(_))) <==> status == 1000 && count == 1 && 14 <= size <= max_frame,
        status == 1005 || status == 1010 ==> r is Err && r->Err_0 is PermissionDenied,
{
}

/// What is handed to the framework are the bytes of the frame, in order.
pub proof fn frames_are_handed_over_whole(frame: Seq<Segment>)
    ensures
        places(occupied(frame)) == places(frame),
        forall|i: int| 0 <= i < occupied(frame).len() ==> (#[trigger] occupied(frame)[i]).len > 0,
    decreases frame.len(),
{
    if frame.len() > 0 {
        let fewer = frame.drop_last();
        frames_are_handed_over_whole(fewer);
        if frame.last().len == 0 {
            assert(from(frame.last().addr as int, 0) =~= Seq::empty());
            assert(places(frame) =~= places(fewer));
        } else {
            assert(occupied(frame).drop_last() =~= occupied(fewer));
        }
    }
}

} // verus!
