//! The rules of a macOS shared-mode interface: its parameters, its status codes
//! and the frames it takes and gives.
use crate::error::NetError;
use crate::fdt::{digit_text, hex_digit};
use crate::guest::{total, Segment};
use vstd::prelude::*;
use vstd::utf8::*;

verus! {

pub const SUCCESS: u32 = 1000;

pub const BUFFER_EXHAUSTED: u32 = 1007;

/// The MTU that an interface is asked for.
pub const MTU: u16 = 1500;

/// The error of a status that is no success.
pub open spec fn refused(e: NetError, status: u32, operation: Seq<char>) -> bool {
    if status == 1005 || status == 1010 {
        e is PermissionDenied && e->PermissionDenied_operation@ == operation
            && e->PermissionDenied_status == status
    } else {
        e is Vmnet && e->Vmnet_operation@ == operation && e->Vmnet_status == status
    }
}

/// The status of a framework call.
pub fn check(status: u32, operation: &str) -> (r: Result<(), NetError>)
    ensures
        r is Ok <==> status == SUCCESS,
        r matches Err(e) ==> refused(e, status, operation@),
{
    if status == SUCCESS {
        Ok(())
    } else if status == 1005 || status == 1010 {
        Err(NetError::PermissionDenied { operation: operation.to_owned(), status })
    } else {
        Err(NetError::Vmnet { operation: operation.to_owned(), status })
    }
}

/// What stands between the colons of `b`.
pub open spec fn pieces(b: Seq<u8>) -> Seq<Seq<u8>>
    decreases b.len(),
{
    if b.len() == 0 {
        seq![Seq::empty()]
    } else {
        let p = pieces(b.drop_last());
        if b.last() == 0x3a {
            p.push(Seq::empty())
        } else {
            p.update(p.len() - 1, p.last().push(b.last()))
        }
    }
}

/// The value of a hexadecimal digit, in either case.
pub open spec fn digit_of(b: u8) -> Option<u8> {
    if 0x30 <= b <= 0x39 {
        Some((b - 0x30) as u8)
    } else if 0x41 <= b <= 0x46 {
        Some((b - 0x37) as u8)
    } else if 0x61 <= b <= 0x66 {
        Some((b - 0x57) as u8)
    } else {
        None
    }
}

/// The number that two bytes write: two digits, or a plus sign and one.
pub open spec fn octet_of(p: Seq<u8>) -> Result<u8, NetError> {
    if p.len() != 2 {
        Err(NetError::InvalidVmnetMacAddress)
    } else {
        match (digit_of(p[0]), digit_of(p[1])) {
            (Some(a), Some(b)) => Ok((a * 16 + b) as u8),
            (None, Some(b)) => if p[0] == 0x2b {
                Ok(b)
            } else {
                Err(NetError::MacParse)
            },
            _ => Err(NetError::MacParse),
        }
    }
}

/// The numbers of the first `n` pieces; the first that is wrong decides.
pub open spec fn octets(p: Seq<Seq<u8>>, n: int) -> Result<Seq<u8>, NetError>
    decreases n,
{
    if n <= 0 {
        Ok(Seq::empty())
    } else {
        match octets(p, n - 1) {
            Err(e) => Err(e),
            Ok(s) => match octet_of(p[n - 1]) {
                Err(e) => Err(e),
                Ok(v) => Ok(s.push(v)),
            },
        }
    }
}

/// The six numbers that `b` writes with colons between them.
pub open spec fn mac_of(b: Seq<u8>) -> Result<Seq<u8>, NetError> {
    if pieces(b).len() != 6 {
        Err(NetError::InvalidVmnetMacAddress)
    } else {
        octets(pieces(b), 6)
    }
}

fn digit(b: u8) -> (r: Option<u8>)
    ensures
        r == digit_of(b),
{
    if 0x30 <= b && b <= 0x39 {
        Some(b - 0x30)
    } else if 0x41 <= b && b <= 0x46 {
        Some(b - 0x37)
    } else if 0x61 <= b && b <= 0x66 {
        Some(b - 0x57)
    } else {
        None
    }
}

fn octet(p: &Vec<u8>) -> (r: Result<u8, NetError>)
    ensures
        r == octet_of(p@),
{
    if p.len() != 2 {
        return Err(NetError::InvalidVmnetMacAddress);
    }
    match (digit(p[0]), digit(p[1])) {
        (Some(a), Some(b)) => Ok(a * 16 + b),
        (None, Some(b)) => if p[0] == 0x2b {
            Ok(b)
        } else {
            Err(NetError::MacParse)
        },
        _ => Err(NetError::MacParse),
    }
}

/// The bytes of each part.
pub open spec fn contents(parts: Seq<Vec<u8>>) -> Seq<Seq<u8>> {
    parts.map_values(|p: Vec<u8>| p@)
}

fn split_colons(b: &[u8]) -> (r: Vec<Vec<u8>>)
    ensures
        contents(r@) == pieces(b@),
{
    let mut parts: Vec<Vec<u8>> = Vec::new();
    let mut current: Vec<u8> = Vec::new();
    let mut i: usize = 0;
    assert(b@.take(0) =~= Seq::empty());
    assert(pieces(b@.take(0)) =~= contents(parts@).push(current@));
    while i < b.len()
        invariant
            i <= b@.len(),
            pieces(b@.take(i as int)) == contents(parts@).push(current@),
        decreases b@.len() - i,
    {
        let ghost more = b@.take(i + 1);
        let ghost before = contents(parts@).push(current@);
        assert(more.drop_last() =~= b@.take(i as int));
        assert(more.last() == b@[i as int]);
        if b[i] == 0x3a {
            parts.push(current);
            current = Vec::new();
            assert(contents(parts@) =~= before);
            assert(current@ =~= Seq::empty());
        } else {
            current.push(b[i]);
            assert(contents(parts@).push(current@) =~= before.update(
                before.len() - 1,
                current@,
            ));
        }
        i = i + 1;
    }
    assert(b@.take(b@.len() as int) =~= b@);
    let ghost before = contents(parts@).push(current@);
    parts.push(current);
    assert(contents(parts@) =~= before);
    parts
}

proof fn lemma_octets_error(p: Seq<Seq<u8>>, n: int, m: int, e: NetError)
    requires
        0 <= n <= m,
        octets(p, n) == Err::<Seq<u8>, NetError>(e),
    ensures
        octets(p, m) == Err::<Seq<u8>, NetError>(e),
    decreases m,
{
    if n < m {
        lemma_octets_error(p, n, m - 1, e);
    }
}

/// Reads a MAC address: six pairs of hexadecimal digits with colons between.
pub fn parse_mac(value: &str) -> (r: Result<[u8; 6], NetError>)
    ensures
        match mac_of(encode_utf8(value@)) {
            Ok(mac) => r is Ok && r->Ok_0@ == mac,
            Err(e) => r == Err::<[u8; 6], NetError>(e),
        },
{
    let parts: Vec<Vec<u8>> = split_colons(value.as_bytes());
    let ghost p = pieces(encode_utf8(value@));
    if parts.len() != 6 {
        return Err(NetError::InvalidVmnetMacAddress);
    }
    let mut mac: [u8; 6] = [0; 6];
    let mut i: usize = 0;
    assert(mac@.take(0) =~= Seq::empty());
    while i < 6
        invariant
            i <= 6,
            p == pieces(encode_utf8(value@)),
            contents(parts@) == p,
            parts@.len() == 6,
            octets(p, i as int) == Ok::<Seq<u8>, NetError>(mac@.take(i as int)),
        decreases 6 - i,
    {
        assert(p[i as int] == parts@[i as int]@);
        match octet(&parts[i]) {
            Ok(v) => {
                let ghost before = mac@;
                mac[i] = v;
                assert(mac@.take(i + 1) =~= before.take(i as int).push(v));
            },
            Err(e) => {
                assert(octets(p, i + 1) == Err::<Seq<u8>, NetError>(e));
                proof {
                    lemma_octets_error(p, i + 1, 6, e);
                }
                return Err(e);
            },
        }
        i = i + 1;
    }
    assert(mac@.take(6) =~= mac@);
    Ok(mac)
}

/// The two digits of `v`.
pub open spec fn pair(v: u8) -> Seq<char> {
    seq![hex_digit(v as int / 16), hex_digit(v as int % 16)]
}

/// The first `n` numbers of `mac` in digits, with colons between them.
pub open spec fn written(mac: Seq<u8>, n: int) -> Seq<char>
    decreases n,
{
    if n <= 0 {
        Seq::empty()
    } else if n == 1 {
        pair(mac[0])
    } else {
        written(mac, n - 1) + seq![':'] + pair(mac[n - 1])
    }
}

/// Writes a MAC address.
pub fn mac_text(mac: &[u8; 6]) -> (r: String)
    ensures
        r@ == written(mac@, 6),
{
    proof {
        reveal_strlit("");
        reveal_strlit(":");
    }
    let mut text: String = "".to_owned();
    let mut i: usize = 0;
    assert(text@ =~= Seq::empty());
    while i < 6
        invariant
            ":"@ =~= seq![':'],
            i <= 6,
            text@ == written(mac@, i as int),
        decreases 6 - i,
    {
        let ghost before = text@;
        if i > 0 {
            text.append(":");
        }
        let v: u8 = mac[i];
        text.append(digit_text((v / 16) as u64));
        text.append(digit_text((v % 16) as u64));
        assert(text@ =~= if i == 0 {
            pair(v)
        } else {
            before + seq![':'] + pair(v)
        });
        i = i + 1;
    }
    text
}

/// The bytes of plain characters.
pub open spec fn plain_bytes(chars: Seq<char>) -> Seq<u8> {
    Seq::new(chars.len(), |i: int| chars[i] as u8)
}

pub(crate) proof fn lemma_written_is_ascii(mac: Seq<u8>, n: int)
    requires
        0 <= n <= mac.len(),
    ensures
        is_ascii_chars(written(mac, n)),
    decreases n,
{
    if n > 1 {
        lemma_written_is_ascii(mac, n - 1);
    }
}

proof fn lemma_pair_read(v: u8)
    ensures
        octet_of(plain_bytes(pair(v))) == Ok::<u8, NetError>(v),
        plain_bytes(pair(v)).len() == 2,
        plain_bytes(pair(v))[0] != 0x3a,
        plain_bytes(pair(v))[1] != 0x3a,
{
}

proof fn lemma_written_pieces(mac: Seq<u8>, n: int)
    requires
        0 < n <= mac.len(),
    ensures
        pieces(plain_bytes(written(mac, n))) == Seq::new(
            n as nat,
            |i: int| plain_bytes(pair(mac[i])),
        ),
    decreases n,
{
    let b = plain_bytes(written(mac, n));
    let v = plain_bytes(pair(mac[n - 1]));
    lemma_pair_read(mac[n - 1]);
    let c = b.drop_last();
    let d = c.drop_last();
    assert(b.last() == v[1]);
    assert(c.last() == v[0]);
    if n == 1 {
        assert(d =~= Seq::empty());
        assert(pieces(d) =~= seq![Seq::empty()]);
        assert(pieces(c) =~= seq![Seq::<u8>::empty().push(v[0])]);
        assert(pieces(b) =~= seq![Seq::<u8>::empty().push(v[0]).push(v[1])]);
        assert(v =~= Seq::<u8>::empty().push(v[0]).push(v[1]));
        assert(pieces(b) =~= Seq::new(n as nat, |i: int| plain_bytes(pair(mac[i]))));
    } else {
        lemma_written_pieces(mac, n - 1);
        let before = plain_bytes(written(mac, n - 1));
        assert(d.last() == 0x3a);
        assert(d.drop_last() =~= before);
        let p = pieces(before);
        assert(pieces(d) =~= p.push(Seq::empty()));
        assert(pieces(c) =~= p.push(Seq::<u8>::empty().push(v[0])));
        assert(pieces(b) =~= p.push(Seq::<u8>::empty().push(v[0]).push(v[1])));
        assert(v =~= Seq::<u8>::empty().push(v[0]).push(v[1]));
        assert(pieces(b) =~= Seq::new(n as nat, |i: int| plain_bytes(pair(mac[i]))));
    }
}

proof fn lemma_octets_read(mac: Seq<u8>, p: Seq<Seq<u8>>, n: int)
    requires
        0 <= n <= mac.len(),
        p == Seq::new(mac.len(), |i: int| plain_bytes(pair(mac[i]))),
    ensures
        octets(p, n) == Ok::<Seq<u8>, NetError>(mac.take(n)),
    decreases n,
{
    if n > 0 {
        lemma_octets_read(mac, p, n - 1);
        lemma_pair_read(mac[n - 1]);
        assert(mac.take(n - 1).push(mac[n - 1]) =~= mac.take(n));
    } else {
        assert(mac.take(0) =~= Seq::empty());
    }
}

/// A MAC address that was written reads back as the same address.
pub proof fn written_mac_reads_back(mac: Seq<u8>)
    requires
        mac.len() == 6,
    ensures
        mac_of(encode_utf8(written(mac, 6))) == Ok::<Seq<u8>, NetError>(mac),
{
    lemma_written_is_ascii(mac, 6);
    is_ascii_chars_encode_utf8(written(mac, 6));
    assert(encode_utf8(written(mac, 6)) =~= plain_bytes(written(mac, 6)));
    lemma_written_pieces(mac, 6);
    lemma_octets_read(mac, pieces(plain_bytes(written(mac, 6))), 6);
    assert(mac.take(6) =~= mac);
}

/// An ASCII letter in lower case; any other byte as it is.
pub open spec fn lower(b: u8) -> u8 {
    if 0x41 <= b <= 0x5a {
        (b + 0x20) as u8
    } else {
        b
    }
}

/// `b` in lower case.
pub open spec fn lowered(b: Seq<u8>) -> Seq<u8> {
    b.map_values(|x: u8| lower(x))
}

/// `p` in lower case.
spec fn lowered_pieces(p: Seq<Seq<u8>>) -> Seq<Seq<u8>> {
    p.map_values(|x: Seq<u8>| lowered(x))
}

proof fn lemma_lowered_pieces(b: Seq<u8>)
    ensures
        pieces(lowered(b)) == lowered_pieces(pieces(b)),
        pieces(b).len() > 0,
    decreases b.len(),
{
    if b.len() == 0 {
        assert(lowered(b) =~= Seq::empty());
        assert(lowered(Seq::empty()) =~= Seq::<u8>::empty());
        assert(pieces(lowered(b)) =~= lowered_pieces(pieces(b)));
    } else {
        let c = b.drop_last();
        lemma_lowered_pieces(c);
        let l = lowered(b);
        assert(l.drop_last() =~= lowered(c));
        assert(l.last() == lower(b.last()));
        let p = pieces(c);
        if b.last() == 0x3a {
            assert(lowered(Seq::empty()) =~= Seq::<u8>::empty());
            assert(lowered_pieces(p.push(Seq::empty())) =~= lowered_pieces(p).push(Seq::empty()));
        } else {
            let x = b.last();
            assert(lowered(p.last().push(x)) =~= lowered(p.last()).push(lower(x)));
            assert(lowered_pieces(p.update(p.len() - 1, p.last().push(x))) =~= lowered_pieces(
                p,
            ).update(p.len() - 1, lowered(p.last()).push(lower(x))));
        }
    }
}

proof fn lemma_lowered_octets(p: Seq<Seq<u8>>, n: int)
    requires
        0 <= n <= p.len(),
    ensures
        octets(lowered_pieces(p), n) == octets(p, n),
    decreases n,
{
    if n > 0 {
        lemma_lowered_octets(p, n - 1);
        let x = p[n - 1];
        assert(lowered_pieces(p)[n - 1] == lowered(x));
        assert(octet_of(lowered(x)) == octet_of(x));
    }
}

/// Digits are read in either case.
pub proof fn case_does_not_matter(b: Seq<u8>)
    ensures
        mac_of(lowered(b)) == mac_of(b),
{
    lemma_lowered_pieces(b);
    if pieces(b).len() == 6 {
        lemma_lowered_octets(pieces(b), 6);
    }
}

/// A MAC address reads back in whichever case its digits are written.
pub proof fn written_mac_reads_back_in_either_case(mac: Seq<u8>, b: Seq<u8>)
    requires
        mac.len() == 6,
        lowered(b) == encode_utf8(written(mac, 6)),
    ensures
        mac_of(b) == Ok::<Seq<u8>, NetError>(mac),
{
    written_mac_reads_back(mac);
    case_does_not_matter(b);
}

/// How many bytes `p` has together.
spec fn span_of(p: Seq<Seq<u8>>) -> int
    decreases p.len(),
{
    if p.len() == 0 {
        0
    } else {
        span_of(p.drop_last()) + p.last().len()
    }
}

proof fn lemma_span(b: Seq<u8>)
    ensures
        span_of(pieces(b)) + pieces(b).len() == b.len() + 1,
        pieces(b).len() > 0,
    decreases b.len(),
{
    reveal_with_fuel(span_of, 2);
    if b.len() == 0 {
        assert(pieces(b).drop_last() =~= Seq::empty());
    } else {
        let c = b.drop_last();
        lemma_span(c);
        let p = pieces(c);
        if b.last() == 0x3a {
            assert(p.push(Seq::empty()).drop_last() =~= p);
        } else {
            assert(p.update(p.len() - 1, p.last().push(b.last())).drop_last() =~= p.drop_last());
        }
    }
}

proof fn lemma_pairs(p: Seq<Seq<u8>>, n: int)
    requires
        0 <= n <= p.len(),
        octets(p, n) is Ok,
    ensures
        span_of(p.take(n)) == 2 * n,
        octets(p, n)->Ok_0.len() == n,
    decreases n,
{
    if n > 0 {
        lemma_pairs(p, n - 1);
        assert(p.take(n).drop_last() =~= p.take(n - 1));
    }
}

/// What is read as a MAC address is seventeen bytes long and gives six numbers.
pub proof fn addresses_have_one_length(b: Seq<u8>)
    ensures
        mac_of(b) matches Ok(mac) ==> b.len() == 17 && mac.len() == 6,
{
    if mac_of(b) is Ok {
        lemma_span(b);
        lemma_pairs(pieces(b), 6);
        assert(pieces(b).take(6) =~= pieces(b));
    }
}

/// Network information returned by this concrete backend, useful for manual
/// setup.
#[derive(Clone, Debug, Default)]
pub struct SharedIpv4 {
    pub gateway: Option<String>,
    pub pool_end: Option<String>,
    pub subnet_mask: Option<String>,
}

/// What an interface reports when it has started, each value as it was read.
#[derive(Debug)]
pub struct Report {
    pub mac: Result<Option<String>, NetError>,
    pub mtu: u64,
    pub max_packet: u64,
    pub gateway: Result<Option<String>, NetError>,
    pub pool_end: Result<Option<String>, NetError>,
    pub subnet_mask: Result<Option<String>, NetError>,
}

/// What the device is told of an interface.
#[derive(Debug)]
pub struct Parameters {
    pub mac: [u8; 6],
    pub max_frame: usize,
    pub ipv4: SharedIpv4,
}

/// Why the link part of a report is refused, or its address.
pub open spec fn link_of(
    mac: Result<Option<String>, NetError>,
    mtu: u64,
    max_packet: u64,
) -> Result<Seq<u8>, NetError> {
    match mac {
        Err(e) => Err(e),
        Ok(None) => Err(NetError::MissingMac),
        Ok(Some(text)) => match mac_of(encode_utf8(text@)) {
            Err(e) => Err(e),
            Ok(mac) => if mtu > u16::MAX || max_packet > usize::MAX {
                Err(NetError::Integer)
            } else if mtu != MTU {
                Err(NetError::UnexpectedMtu { mtu: mtu as u16 })
            } else if max_packet < MTU + 14 || 65553 < max_packet {
                Err(NetError::InvalidVmnetFrameCapacity)
            } else {
                Ok(mac)
            },
        },
    }
}

/// The addresses of a report, or the first that could not be read.
pub open spec fn ipv4_of(
    gateway: Result<Option<String>, NetError>,
    pool_end: Result<Option<String>, NetError>,
    subnet_mask: Result<Option<String>, NetError>,
) -> Result<SharedIpv4, NetError> {
    match gateway {
        Err(e) => Err(e),
        Ok(gateway) => match pool_end {
            Err(e) => Err(e),
            Ok(pool_end) => match subnet_mask {
                Err(e) => Err(e),
                Ok(subnet_mask) => Ok(SharedIpv4 { gateway, pool_end, subnet_mask }),
            },
        },
    }
}

/// `r` is what is used of the framework's report.
pub open spec fn parameters_rel(report: Option<Report>, r: Result<Parameters, NetError>) -> bool {
    match report {
        None => r == Err::<Parameters, NetError>(NetError::MissingVmnetInterfaceParameters),
        Some(d) => match link_of(d.mac, d.mtu, d.max_packet) {
            Err(e) => r == Err::<Parameters, NetError>(e),
            Ok(mac) => match ipv4_of(d.gateway, d.pool_end, d.subnet_mask) {
                Err(e) => r == Err::<Parameters, NetError>(e),
                Ok(ipv4) => r is Ok && r->Ok_0.mac@ == mac && r->Ok_0.max_frame == d.max_packet
                    && r->Ok_0.ipv4 == ipv4,
            },
        },
    }
}

/// Checks what an interface reports; no report at all is an error too.
pub fn parameters(report: Option<Report>) -> (r: Result<Parameters, NetError>)
    ensures
        parameters_rel(report, r),
{
    let d: Report = match report {
        Some(d) => d,
        None => {
            return Err(NetError::MissingVmnetInterfaceParameters);
        },
    };
    let text: String = match d.mac {
        Err(e) => {
            return Err(e);
        },
        Ok(None) => {
            return Err(NetError::MissingMac);
        },
        Ok(Some(text)) => text,
    };
    let mac: [u8; 6] = match parse_mac(text.as_str()) {
        Err(e) => {
            return Err(e);
        },
        Ok(mac) => mac,
    };
    if d.mtu > u16::MAX as u64 || d.max_packet > usize::MAX as u64 {
        return Err(NetError::Integer);
    }
    if d.mtu != MTU as u64 {
        return Err(NetError::UnexpectedMtu { mtu: d.mtu as u16 });
    }
    if d.max_packet < MTU as u64 + 14 || 65553 < d.max_packet {
        return Err(NetError::InvalidVmnetFrameCapacity);
    }
    let gateway: Option<String> = match d.gateway {
        Err(e) => {
            return Err(e);
        },
        Ok(v) => v,
    };
    let pool_end: Option<String> = match d.pool_end {
        Err(e) => {
            return Err(e);
        },
        Ok(v) => v,
    };
    let subnet_mask: Option<String> = match d.subnet_mask {
        Err(e) => {
            return Err(e);
        },
        Ok(v) => v,
    };
    Ok(
        Parameters {
            mac,
            max_frame: d.max_packet as usize,
            ipv4: SharedIpv4 { gateway, pool_end, subnet_mask },
        },
    )
}

/// The segments that hold a byte.
pub open spec fn occupied(frame: Seq<Segment>) -> Seq<Segment>
    decreases frame.len(),
{
    if frame.len() == 0 {
        Seq::empty()
    } else if frame.last().len == 0 {
        occupied(frame.drop_last())
    } else {
        occupied(frame.drop_last()).push(frame.last())
    }
}

proof fn lemma_total_last(frame: Seq<Segment>)
    requires
        frame.len() > 0,
    ensures
        total(frame) == total(frame.drop_last()) + frame.last().len,
    decreases frame.len(),
{
    if frame.len() > 1 {
        lemma_total_last(frame.skip(1));
        assert(frame.skip(1).drop_last() =~= frame.drop_last().skip(1));
    } else {
        assert(frame.skip(1) =~= Seq::empty());
        assert(frame.drop_last() =~= Seq::empty());
    }
}

proof fn lemma_total_grows(frame: Seq<Segment>, n: int)
    requires
        0 <= n <= frame.len(),
    ensures
        0 <= total(frame.take(n)) <= total(frame),
    decreases frame.len() - n,
{
    if n < frame.len() {
        lemma_total_grows(frame, n + 1);
        assert(frame.take(n + 1).drop_last() =~= frame.take(n));
        lemma_total_last(frame.take(n + 1));
        lemma_total_positive(frame.take(n));
    } else {
        assert(frame.take(n) =~= frame);
        lemma_total_positive(frame);
    }
}

proof fn lemma_total_positive(frame: Seq<Segment>)
    ensures
        0 <= total(frame),
    decreases frame.len(),
{
    if frame.len() > 0 {
        lemma_total_positive(frame.skip(1));
    }
}

/// The length of a frame and the segments that the framework is handed: it takes
/// none that is empty.
pub fn gather(frame: &[Segment]) -> (r: (usize, Vec<Segment>))
    requires
        total(frame@) <= usize::MAX,
    ensures
        r.0 == total(frame@),
        r.1@ == occupied(frame@),
{
    let mut length: usize = 0;
    let mut segments: Vec<Segment> = Vec::new();
    let mut i: usize = 0;
    assert(frame@.take(0) =~= Seq::empty());
    while i < frame.len()
        invariant
            i <= frame@.len(),
            total(frame@) <= usize::MAX,
            length == total(frame@.take(i as int)),
            segments@ == occupied(frame@.take(i as int)),
        decreases frame@.len() - i,
    {
        let ghost more = frame@.take(i + 1);
        assert(more.drop_last() =~= frame@.take(i as int));
        proof {
            lemma_total_last(more);
            lemma_total_grows(frame@, i + 1);
        }
        let s: Segment = frame[i];
        length = length + s.len;
        if s.len != 0 {
            segments.push(s);
        }
        i = i + 1;
    }
    assert(frame@.take(frame@.len() as int) =~= frame@);
    (length, segments)
}

/// Why a frame may not be sent, if so.
pub open spec fn sendable(length: usize, segments: usize, max_frame: usize) -> Result<
    (),
    NetError,
> {
    if length < 14 || max_frame < length {
        Err(NetError::InvalidVmnetTxFrameSize { length, capacity: max_frame })
    } else if segments > u32::MAX {
        Err(NetError::Integer)
    } else {
        Ok(())
    }
}

/// Whether a frame may be sent, by its length and the number of its segments.
pub fn check_send(length: usize, segments: usize, max_frame: usize) -> (r: Result<(), NetError>)
    ensures
        r == sendable(length, segments, max_frame),
{
    if length < 14 || max_frame < length {
        return Err(NetError::InvalidVmnetTxFrameSize { length, capacity: max_frame });
    }
    if segments as u64 > u32::MAX as u64 {
        return Err(NetError::Integer);
    }
    Ok(())
}

/// `r` is what a frame's sender learns from the framework's answer.
pub open spec fn sent_rel(status: u32, count: i32, r: Result<bool, NetError>) -> bool {
    &&& status == BUFFER_EXHAUSTED ==> r == Ok::<bool, NetError>(false)
    &&& status != BUFFER_EXHAUSTED && status != SUCCESS ==> r is Err && refused(
        r->Err_0,
        status,
        "vmnet write"@,
    )
    &&& status == SUCCESS ==> r == if 0 <= count <= 1 {
        Ok::<bool, NetError>(count == 1)
    } else {
        Err(NetError::InvalidVmnetTxCount { count })
    }
}

/// What the framework answered to a frame: whether it was taken.
pub fn sent(status: u32, count: i32) -> (r: Result<bool, NetError>)
    ensures
        sent_rel(status, count, r),
{
    if status == BUFFER_EXHAUSTED {
        return Ok(false);
    }
    match check(status, "vmnet write") {
        Err(e) => {
            return Err(e);
        },
        Ok(()) => {},
    }
    if !(0 <= count && count <= 1) {
        return Err(NetError::InvalidVmnetTxCount { count });
    }
    Ok(count == 1)
}

/// Why a buffer cannot take every frame, if so.
pub open spec fn receivable(length: usize, segments: usize, max_frame: usize) -> Result<
    (),
    NetError,
> {
    if length < max_frame {
        Err(NetError::VmnetRxBufferTooSmall { length, capacity: max_frame })
    } else if segments > u32::MAX {
        Err(NetError::Integer)
    } else {
        Ok(())
    }
}

/// Whether a buffer can take any frame, by its length and the number of its
/// segments.
pub fn check_recv(length: usize, segments: usize, max_frame: usize) -> (r: Result<(), NetError>)
    ensures
        r == receivable(length, segments, max_frame),
{
    if length < max_frame {
        return Err(NetError::VmnetRxBufferTooSmall { length, capacity: max_frame });
    }
    if segments as u64 > u32::MAX as u64 {
        return Err(NetError::Integer);
    }
    Ok(())
}

/// `r` is what a buffer's owner learns from the framework's answer.
pub open spec fn received_rel(
    status: u32,
    count: i32,
    size: usize,
    max_frame: usize,
    r: Result<Option<usize>, NetError>,
) -> bool {
    &&& status != SUCCESS ==> r is Err && refused(r->Err_0, status, "vmnet read"@)
    &&& status == SUCCESS ==> r == if count < 0 || 1 < count {
        Err::<Option<usize>, NetError>(NetError::InvalidVmnetRxCount { count })
    } else if count == 0 {
        Ok(None)
    } else if size < 14 || max_frame < size {
        Err(NetError::InvalidVmnetRxFrameSize { length: size, capacity: max_frame })
    } else {
        Ok(Some(size))
    }
}

/// What the framework answered to a buffer: the length of the frame in it.
pub fn received(status: u32, count: i32, size: usize, max_frame: usize) -> (r: Result<
    Option<usize>,
    NetError,
>)
    ensures
        received_rel(status, count, size, max_frame, r),
{
    match check(status, "vmnet read") {
        Err(e) => {
            return Err(e);
        },
        Ok(()) => {},
    }
    if count < 0 || 1 < count {
        return Err(NetError::InvalidVmnetRxCount { count });
    }
    if count == 0 {
        return Ok(None);
    }
    if size < 14 || max_frame < size {
        return Err(NetError::InvalidVmnetRxFrameSize { length: size, capacity: max_frame });
    }
    Ok(Some(size))
}

} // verus!
