//! virtio-blk.
use crate::bytes::{get_le32, get_le64, le32, le64, le64_bytes, put_le64};
use crate::devices::buffers::{
    all_writable, copy_from, copy_to, is_all_writable, length, range, reachable, reads, slices,
    span, spread, sum_lengths, writes,
};
use crate::devices::mmio::{read_config, window, VirtioDevice};
use crate::devices::queues::{
    available_rel, chain_view, complete_rel, pop_rel, Chain, Queues, QueuesView,
};
use crate::error::{DeviceError, StorageError};
use crate::guest::{covers, handled, total, within, Access, Guest, Memory, Segment};
use crate::math::through;
use crate::ring::Descriptor;
use crate::storage::{bounds, BlockCall, BlockStorage};
use vstd::prelude::*;
use vstd::utf8::encode_utf8;

verus! {

/// Most bytes that one request may move.
pub const MAX_REQUEST: usize = 0x10_0000;

/// Feature bit of a device that can flush.
pub const F_FLUSH: u64 = 0x200;

/// Feature bit of a read-only device.
pub const F_RO: u64 = 0x20;

pub const T_IN: u32 = 0;

pub const T_OUT: u32 = 1;

pub const T_FLUSH: u32 = 4;

pub const T_GET_ID: u32 = 8;

pub const S_OK: u8 = 0;

pub const S_IOERR: u8 = 1;

pub const S_UNSUPP: u8 = 2;

/// A disk behind the transport. Its name is its serial number.
pub struct Block<BS: BlockStorage> {
    pub disk: BS,
    pub name: String,
    /// The name, padded with zeros.
    pub id: Vec<u8>,
}

/// An ASCII letter, digit, dot, underscore or dash.
pub open spec fn name_byte(b: u8) -> bool {
    ||| 0x30 <= b <= 0x39
    ||| 0x41 <= b <= 0x5a
    ||| 0x61 <= b <= 0x7a
    ||| b == 0x2e
    ||| b == 0x5f
    ||| b == 0x2d
}

/// One to twenty bytes, each of which a name may hold.
pub open spec fn valid_name(name: Seq<u8>) -> bool {
    0 < name.len() <= 20 && forall|i: int| 0 <= i < name.len() ==> name_byte(#[trigger] name[i])
}

/// Some descriptor that holds a byte of the header is writable.
pub open spec fn header_writable(body: Seq<Descriptor>, left: int) -> bool
    decreases body.len(),
{
    if body.len() == 0 || left <= 0 {
        false
    } else {
        ||| body[0].len > 0 && body[0].writable()
        ||| header_writable(body.skip(1), left - body[0].len)
    }
}

/// The descriptors that hold bytes beyond the header.
pub open spec fn payload(body: Seq<Descriptor>, left: int) -> Seq<Descriptor>
    decreases body.len(),
{
    if body.len() == 0 {
        Seq::empty()
    } else {
        let h = if left <= body[0].len {
            left
        } else {
            body[0].len as int
        };
        let rest = payload(body.skip(1), left - h);
        if body[0].len > h {
            seq![body[0]] + rest
        } else {
            rest
        }
    }
}

/// Why a chain is no request at all, if it is none.
pub open spec fn malformed(desc: Seq<Descriptor>, regions: Seq<(u64, u64)>) -> Option<DeviceError> {
    let body = desc.drop_last();
    if desc.len() < 2 {
        Some(DeviceError::TruncatedBlockDescriptorChain)
    } else if !desc.last().writable() || desc.last().len != 1 {
        Some(DeviceError::InvalidBlockHeaderStatus)
    } else if !reachable(regions, desc) {
        Some(DeviceError::GuestAccess)
    } else if length(body) > usize::MAX {
        Some(DeviceError::RequestLengthOverflow)
    } else if length(body) < 16 {
        Some(DeviceError::InvalidBlockHeaderStatus)
    } else if length(body) - 16 > MAX_REQUEST {
        Some(
            DeviceError::BlockRequestTooLarge {
                length: (length(body) - 16) as usize,
                limit: MAX_REQUEST,
            },
        )
    } else if header_writable(body, 16) {
        Some(DeviceError::InvalidBlockHeaderStatus)
    } else {
        None
    }
}

/// What a request asks of the disk.
#[derive(Clone, Copy, Debug, PartialEq, Eq, Structural)]
pub enum Command {
    Read { offset: u64 },
    /// `through` asks for a flush after the write.
    Write { offset: u64, through: bool },
    Flush,
    Identify,
    Unsupported,
}

/// The command of a request of `total` bytes in the buffers `data`, or why it
/// fails without reaching the disk.
pub open spec fn command_of(
    kind: u32,
    sector: u64,
    total: usize,
    data: Seq<Descriptor>,
    negotiated: u64,
    sealed: bool,
    capacity: u64,
) -> Result<Command, DeviceError> {
    let flushes = negotiated & F_FLUSH != 0;
    if kind == T_IN || kind == T_OUT {
        let read = kind == T_IN;
        if !all_writable(data, read) {
            Err(DeviceError::BlockDescriptorDirectionMismatch)
        } else if total % 512 != 0 {
            Err(DeviceError::UnalignedBlockRequest { length: total })
        } else if !read && sealed {
            Err(DeviceError::WriteToReadOnlyDisk)
        } else if sector * 512 > u64::MAX {
            Err(DeviceError::SectorOverflow { sector })
        } else if sector * 512 + total > capacity {
            Err(
                DeviceError::Storage(
                    StorageError::OutOfBounds {
                        size: capacity,
                        offset: (sector * 512) as u64,
                        len: total,
                    },
                ),
            )
        } else if read {
            Ok(Command::Read { offset: (sector * 512) as u64 })
        } else {
            Ok(Command::Write { offset: (sector * 512) as u64, through: !flushes })
        }
    } else if kind == T_FLUSH {
        if total == 0 && flushes {
            Ok(Command::Flush)
        } else {
            Err(DeviceError::InvalidFlush)
        }
    } else if kind == T_GET_ID {
        if total >= 20 && all_writable(data, true) {
            Ok(Command::Identify)
        } else {
            Err(DeviceError::InvalidGetId)
        }
    } else {
        Ok(Command::Unsupported)
    }
}

/// Decides what a request asks of the disk.
pub fn command(
    kind: u32,
    sector: u64,
    total: usize,
    data: &[Descriptor],
    negotiated: u64,
    sealed: bool,
    capacity: u64,
) -> (r: Result<Command, DeviceError>)
    ensures
        r == command_of(kind, sector, total, data@, negotiated, sealed, capacity),
{
    if kind == T_IN || kind == T_OUT {
        let read: bool = kind == T_IN;
        if !is_all_writable(data, read) {
            return Err(DeviceError::BlockDescriptorDirectionMismatch);
        }
        if total % 512 != 0 {
            return Err(DeviceError::UnalignedBlockRequest { length: total });
        }
        if !read && sealed {
            return Err(DeviceError::WriteToReadOnlyDisk);
        }
        let offset: u64 = match sector.checked_mul(512) {
            Some(offset) => offset,
            None => {
                return Err(DeviceError::SectorOverflow { sector });
            },
        };
        if let Err(e) = bounds(capacity, offset, total) {
            return Err(DeviceError::Storage(e));
        }
        if read {
            Ok(Command::Read { offset })
        } else {
            Ok(Command::Write { offset, through: negotiated & F_FLUSH == 0 })
        }
    } else if kind == T_FLUSH {
        if !(total == 0 && negotiated & F_FLUSH != 0) {
            return Err(DeviceError::InvalidFlush);
        }
        Ok(Command::Flush)
    } else if kind == T_GET_ID {
        if !(total >= 20 && is_all_writable(data, true)) {
            return Err(DeviceError::InvalidGetId);
        }
        Ok(Command::Identify)
    } else {
        Ok(Command::Unsupported)
    }
}

/// The status of a request whose last disk operation ended so.
pub open spec fn status_of(result: Result<(), StorageError>) -> u8 {
    if result is Ok {
        S_OK
    } else {
        S_IOERR
    }
}

/// Carrying out a command: what the disk is asked for, what is written to the
/// guest, the status and the number of bytes used.
pub open spec fn execute_rel<BS: BlockStorage>(
    c: Result<Command, DeviceError>,
    buffers: Seq<Segment>,
    total: int,
    b0: Block<BS>,
    m0: Memory,
    b1: Block<BS>,
    m1: Memory,
    status: u8,
    used: u32,
) -> bool {
    let calls = b0.disk.calls();
    &&& b1.name == b0.name && b1.id == b0.id
    &&& match c {
        Err(_) => b1 == b0 && m1 == m0 && status == S_IOERR && used == 1,
        Ok(Command::Unsupported) => b1 == b0 && m1 == m0 && status == S_UNSUPP && used == 1,
        Ok(Command::Identify) => {
            &&& b1 == b0
            &&& m1 == m0.after_all(writes(span(buffers, 0, 20), b0.id@))
            &&& status == S_OK
            &&& used == 21
        },
        Ok(Command::Flush) => m1 == m0 && used == 1 && exists|x: Result<(), StorageError>|
            #[trigger] through(x) && status == status_of(x) && b1.disk.calls() == calls.push(
                BlockCall::Flush { result: x },
            ),
        Ok(Command::Read { offset }) => handled(m0, m1, buffers, true) && exists|
            x: Result<(), StorageError>,
        |
            {
                &&& #[trigger] through(x)
                &&& status == status_of(x)
                &&& used == if x is Ok {
                    1 + total
                } else {
                    1
                }
                &&& b1.disk.calls() == calls.push(
                    BlockCall::Read { offset, data: buffers, result: x },
                )
            },
        Ok(Command::Write { offset, through: flush }) => handled(m0, m1, buffers, false) && used
            == 1 && exists|
            x: Result<(), StorageError>,
            y: Result<(), StorageError>,
        |
            {
                let write = BlockCall::Write { offset, data: buffers, result: x };
                &&& #[trigger] through((x, y))
                &&& if x is Ok && flush {
                    status == status_of(y) && b1.disk.calls() == calls.push(write).push(
                        BlockCall::Flush { result: y },
                    )
                } else {
                    status == status_of(x) && b1.disk.calls() == calls.push(write)
                }
            },
    }
}

/// Serving one chain: a malformed one is refused and touches nothing; any other
/// gets a status.
pub open spec fn request_rel<BS: BlockStorage>(
    b0: Block<BS>,
    m0: Memory,
    desc: Seq<Descriptor>,
    negotiated: u64,
    b1: Block<BS>,
    m1: Memory,
    r: Result<u32, DeviceError>,
) -> bool {
    let all = spread(m0.regions, desc);
    let body = desc.drop_last();
    let size = length(body) - 16;
    match malformed(desc, m0.regions) {
        Some(e) => b1 == b0 && m1 == m0 && r == Err::<u32, DeviceError>(e),
        None => exists|h: Seq<u8>, m: Memory, status: u8, used: u32|
            {
                &&& #[trigger] through((h, m, status, used))
                &&& h.len() == 16
                &&& execute_rel(
                    command_of(
                        le32(h, 0) as u32,
                        le64(h, 8) as u64,
                        size as usize,
                        payload(body, 16),
                        negotiated,
                        b0.disk.sealed(),
                        b0.disk.capacity(),
                    ),
                    span(all, 16, size),
                    size,
                    b0,
                    m0.after_all(reads(span(all, 0, 16), h)),
                    b1,
                    m,
                    status,
                    used,
                )
                &&& m1 == m.after(Access::Write { addr: desc.last().addr, data: seq![status] })
                &&& r == Ok::<u32, DeviceError>(used)
            },
    }
}

/// A storage failure as a device failure.
pub open spec fn lifted(r: Result<(), StorageError>) -> Result<(), DeviceError> {
    match r {
        Ok(()) => Ok(()),
        Err(e) => Err(DeviceError::Storage(e)),
    }
}

/// Serving the chain that is next.
pub open spec fn serve_one<BS: BlockStorage>(
    b0: Block<BS>,
    q0: QueuesView,
    m0: Memory,
    b1: Block<BS>,
    q1: QueuesView,
    m1: Memory,
    r: Result<(), DeviceError>,
) -> bool {
    exists|q: QueuesView, m: Memory, c: Result<Option<(u16, Seq<Descriptor>)>, DeviceError>|
        #[trigger] pop_rel(q0, 0, m0, q, m, c) && match c {
            Err(e) => b1 == b0 && q1 == q && m1 == m && r == Err::<(), DeviceError>(e),
            Ok(None) => b1 == b0 && q1 == q && m1 == m && r == Err::<(), DeviceError>(
                DeviceError::MissingBlockChain,
            ),
            Ok(Some(chain)) => exists|n: Memory, used: Result<u32, DeviceError>|
                #[trigger] request_rel(b0, m, chain.1, q.negotiated, b1, n, used) && match used {
                    Err(e) => q1 == q && m1 == n && r == Err::<(), DeviceError>(e),
                    Ok(used) => complete_rel(q, 0, n, chain.0, used, q1, m1, r),
                },
        }
}

/// Serving `n` chains, one after the other, up to the first failure.
pub open spec fn serve_rel<BS: BlockStorage>(
    n: nat,
    b0: Block<BS>,
    q0: QueuesView,
    m0: Memory,
    b1: Block<BS>,
    q1: QueuesView,
    m1: Memory,
    r: Result<(), DeviceError>,
) -> bool
    decreases n,
{
    if n == 0 {
        b1 == b0 && q1 == q0 && m1 == m0 && r == Ok::<(), DeviceError>(())
    } else {
        exists|b: Block<BS>, q: QueuesView, m: Memory, e: Result<(), DeviceError>|
            {
                &&& #[trigger] through((b, q, m, e))
                &&& serve_rel((n - 1) as nat, b0, q0, m0, b, q, m, e)
                &&& if e is Err {
                    b1 == b && q1 == q && m1 == m && r == e
                } else {
                    serve_one(b, q, m, b1, q1, m1, r)
                }
            }
    }
}

proof fn lemma_serve_error<BS: BlockStorage>(
    k: nat,
    n: nat,
    b0: Block<BS>,
    q0: QueuesView,
    m0: Memory,
    b1: Block<BS>,
    q1: QueuesView,
    m1: Memory,
    r: Result<(), DeviceError>,
)
    requires
        k <= n,
        r is Err,
        serve_rel(k, b0, q0, m0, b1, q1, m1, r),
    ensures
        serve_rel(n, b0, q0, m0, b1, q1, m1, r),
    decreases n - k,
{
    if k < n {
        assert(through((b1, q1, m1, r)));
        assert(serve_rel(k + 1, b0, q0, m0, b1, q1, m1, r));
        lemma_serve_error(k + 1, n, b0, q0, m0, b1, q1, m1, r);
    }
}

proof fn lemma_length_split(desc: Seq<Descriptor>)
    requires
        desc.len() > 0,
    ensures
        length(desc) == length(desc.drop_last()) + desc.last().len,
{
}

impl<BS: BlockStorage> Block<BS> {
    /// A disk named `name`, which must be one to twenty ASCII letters, digits,
    /// dots, underscores or dashes.
    pub fn new(name: String, disk: BS) -> (r: Result<Self, DeviceError>)
        ensures
            r is Ok <==> valid_name(encode_utf8(name@)),
            r matches Ok(b) ==> {
                &&& b.disk == disk
                &&& b.name == name
                &&& b.id@ == window(encode_utf8(name@), 0, 20)
                &&& b.wf()
            },
            r matches Err(e) ==> e == (DeviceError::InvalidBlockName { name }),
    {
        let bytes: &[u8] = name.as_str().as_bytes();
        if bytes.len() == 0 || bytes.len() > 20 {
            return Err(DeviceError::InvalidBlockName { name });
        }
        let mut i: usize = 0;
        while i < bytes.len()
            invariant
                i <= bytes@.len(),
                bytes@ == encode_utf8(name@),
                0 < bytes@.len() <= 20,
                forall|k: int| 0 <= k < i ==> name_byte(#[trigger] bytes@[k]),
            decreases bytes@.len() - i,
        {
            let b: u8 = bytes[i];
            if !((0x30 <= b && b <= 0x39) || (0x41 <= b && b <= 0x5a) || (0x61 <= b && b <= 0x7a)
                || b == 0x2e || b == 0x5f || b == 0x2d) {
                assert(!name_byte(bytes@[i as int]));
                return Err(DeviceError::InvalidBlockName { name });
            }
            i = i + 1;
        }
        let id: Vec<u8> = read_config(bytes, 0, 20);
        Ok(Block { disk, name, id })
    }

    /// Serves one chain, and returns how many bytes were written to it.
    pub fn request(&mut self, mem: &mut Guest, desc: &[Descriptor], negotiated: u64) -> (r: Result<
        u32,
        DeviceError,
    >)
        requires
            old(self).wf(),
        ensures
            final(self).wf(),
            final(self).name == old(self).name,
            final(self).id == old(self).id,
            final(mem)@.same(old(mem)@),
            request_rel(
                *old(self),
                old(mem)@,
                desc@,
                negotiated,
                *final(self),
                final(mem)@,
                r,
            ),
    {
        let ghost regions = mem@.regions;
        let ghost m0 = mem@;
        let ghost b0 = *self;
        let n: usize = desc.len();
        if n < 2 {
            return Err(DeviceError::TruncatedBlockDescriptorChain);
        }
        let status: Descriptor = desc[n - 1];
        if !status.is_write_only() || status.len != 1 {
            return Err(DeviceError::InvalidBlockHeaderStatus);
        }
        // The entire request, including the status, is checked before the disk
        // is reached.
        let all: Vec<Segment> = match slices(mem, desc) {
            Ok(all) => all,
            Err(e) => {
                return Err(e);
            },
        };
        let body: &[Descriptor] = vstd::slice::slice_subrange(desc, 0, n - 1);
        assert(body@ =~= desc@.drop_last());
        let size: usize = match request_size(body) {
            Ok(size) => size,
            Err(e) => {
                return Err(e);
            },
        };
        let data: Vec<Descriptor> = match data_buffers(body) {
            Some(data) => data,
            None => {
                return Err(DeviceError::InvalidBlockHeaderStatus);
            },
        };
        proof {
            lemma_length_split(desc@);
        }
        let h: Vec<u8> = copy_to(all.as_slice(), 16, mem);
        let ghost m1 = mem@;
        let kind: u32 = get_le32(h.as_slice(), 0);
        let sector: u64 = get_le64(h.as_slice(), 8);
        let buffers: Vec<Segment> = range(all.as_slice(), 16, size);
        proof {
            crate::devices::buffers::lemma_span(regions, all@, 16, size as int);
        }
        let c: Result<Command, DeviceError> = command(
            kind,
            sector,
            size,
            data.as_slice(),
            negotiated,
            self.disk.read_only(),
            self.disk.size(),
        );
        let (code, used): (u8, u32) = self.execute(&c, &buffers, size, mem);
        let ghost m2 = mem@;
        proof {
            assert(desc@[n - 1] == desc@.last());
            assert(covers(regions, status.addr as int, status.len as int));
        }
        let mut answer: Vec<u8> = Vec::new();
        answer.push(code);
        assert(answer@ =~= seq![code]);
        mem.write(status.addr, answer.as_slice());
        assert(through((h@, m2, code, used)));
        Ok(used)
    }

    /// Carries out a command on the disk.
    fn execute(
        &mut self,
        c: &Result<Command, DeviceError>,
        buffers: &Vec<Segment>,
        size: usize,
        mem: &mut Guest,
    ) -> (r: (u8, u32))
        requires
            old(self).wf(),
            size <= MAX_REQUEST,
            total(buffers@) == size,
            within(old(mem)@.regions, buffers@),
            c matches Ok(Command::Identify) ==> size >= 20,
        ensures
            final(self).wf(),
            final(self).name == old(self).name,
            final(self).id == old(self).id,
            final(mem)@.same(old(mem)@),
            execute_rel(
                *c,
                buffers@,
                size as int,
                *old(self),
                old(mem)@,
                *final(self),
                final(mem)@,
                r.0,
                r.1,
            ),
    {
        match c {
            Err(_) => (S_IOERR, 1),
            Ok(Command::Unsupported) => (S_UNSUPP, 1),
            Ok(Command::Identify) => {
                copy_from(buffers.as_slice(), self.id.as_slice(), mem);
                (S_OK, 21)
            },
            Ok(Command::Flush) => {
                let x: Result<(), StorageError> = self.disk.flush();
                assert(through(x));
                (if x.is_ok() {
                    S_OK
                } else {
                    S_IOERR
                }, 1)
            },
            Ok(Command::Read { offset }) => {
                let x: Result<(), StorageError> = self.disk.read(*offset, buffers.as_slice(), mem);
                assert(through(x));
                if x.is_ok() {
                    (S_OK, 1 + size as u32)
                } else {
                    (S_IOERR, 1)
                }
            },
            Ok(Command::Write { offset, through: flush }) => {
                let x: Result<(), StorageError> = self.disk.write(*offset, buffers.as_slice(), mem);
                if x.is_ok() && *flush {
                    let y: Result<(), StorageError> = self.disk.flush();
                    assert(through((x, y)));
                    (if y.is_ok() {
                        S_OK
                    } else {
                        S_IOERR
                    }, 1)
                } else {
                    assert(through((x, x)));
                    (if x.is_ok() {
                        S_OK
                    } else {
                        S_IOERR
                    }, 1)
                }
            },
        }
    }

    /// Serves the chain that is next.
    fn serve(&mut self, queues: &mut Queues, mem: &mut Guest) -> (r: Result<(), DeviceError>)
        requires
            old(self).wf(),
            old(queues)@.wf(),
            old(queues).rings@.len() == 1,
        ensures
            final(self).wf(),
            final(queues)@.wf(),
            final(queues)@.kept(old(queues)@),
            final(mem)@.same(old(mem)@),
            serve_one(
                *old(self),
                old(queues)@,
                old(mem)@,
                *final(self),
                final(queues)@,
                final(mem)@,
                r,
            ),
    {
        let ghost b0 = *self;
        let ghost q0 = queues@;
        let ghost m0 = mem@;
        let popped: Result<Option<Chain>, DeviceError> = queues.pop(0, mem);
        let ghost q = queues@;
        let ghost m = mem@;
        let ghost c = chain_view(popped);
        assert(pop_rel(q0, 0, m0, q, m, c));
        let chain: Chain = match popped {
            Err(e) => {
                return Err(e);
            },
            Ok(None) => {
                return Err(DeviceError::MissingBlockChain);
            },
            Ok(Some(chain)) => chain,
        };
        let used: Result<u32, DeviceError> = self.request(
            mem,
            chain.descriptors.as_slice(),
            queues.negotiated,
        );
        let ghost n = mem@;
        assert(c == Ok::<Option<(u16, Seq<Descriptor>)>, DeviceError>(
            Some((chain.head, chain.descriptors@)),
        ));
        let r: Result<(), DeviceError> = match used {
            Err(e) => Err(e),
            Ok(used) => queues.complete(0, mem, chain.head, used),
        };
        assert(request_rel(b0, m, (c->Ok_0->0).1, q.negotiated, *self, n, used));
        assert(serve_one(b0, q0, m0, *self, queues@, mem@, r));
        r
    }
}

/// Number of bytes beyond the header in the request `body`.
fn request_size(body: &[Descriptor]) -> (r: Result<usize, DeviceError>)
    ensures
        r == if length(body@) > usize::MAX {
            Err::<usize, DeviceError>(DeviceError::RequestLengthOverflow)
        } else if length(body@) < 16 {
            Err(DeviceError::InvalidBlockHeaderStatus)
        } else if length(body@) - 16 > MAX_REQUEST {
            Err(
                DeviceError::BlockRequestTooLarge {
                    length: (length(body@) - 16) as usize,
                    limit: MAX_REQUEST,
                },
            )
        } else {
            Ok((length(body@) - 16) as usize)
        },
{
    match sum_lengths(body) {
        None => Err(DeviceError::RequestLengthOverflow),
        Some(sum) => {
            if sum < 16 {
                return Err(DeviceError::InvalidBlockHeaderStatus);
            }
            let size: usize = sum - 16;
            if size > MAX_REQUEST {
                return Err(DeviceError::BlockRequestTooLarge { length: size, limit: MAX_REQUEST });
            }
            Ok(size)
        },
    }
}

/// The descriptors with bytes beyond the header, unless the header is writable.
fn data_buffers(body: &[Descriptor]) -> (r: Option<Vec<Descriptor>>)
    ensures
        r is None <==> header_writable(body@, 16),
        r matches Some(v) ==> v@ == payload(body@, 16),
{
    let mut left: usize = 16;
    let mut data: Vec<Descriptor> = Vec::new();
    let mut i: usize = 0;
    assert(body@.skip(0) =~= body@);
    assert(data@ + payload(body@, 16) =~= payload(body@, 16));
    while i < body.len()
        invariant
            i <= body@.len(),
            left <= 16,
            header_writable(body@.skip(i as int), left as int) == header_writable(body@, 16),
            data@ + payload(body@.skip(i as int), left as int) == payload(body@, 16),
        decreases body@.len() - i,
    {
        let d: Descriptor = body[i];
        let len: usize = d.len as usize;
        let h: usize = if left <= len {
            left
        } else {
            len
        };
        let ghost here = body@.skip(i as int);
        let ghost seen = data@;
        let ghost rest = payload(body@.skip(i + 1), left - h);
        proof {
            assert(here[0] == d);
            assert(here.skip(1) =~= body@.skip(i + 1));
            lemma_header_left(body@.skip(i + 1), left - len, left - h);
        }
        if h != 0 && d.is_write_only() {
            return None;
        }
        left = left - h;
        if len > h {
            data.push(d);
            assert(data@ + rest =~= seen + (seq![d] + rest));
        }
        i = i + 1;
    }
    assert(data@ + Seq::<Descriptor>::empty() =~= data@);
    Some(data)
}

proof fn lemma_header_left(body: Seq<Descriptor>, a: int, b: int)
    requires
        a == b || (a <= 0 && b <= 0),
    ensures
        header_writable(body, a) == header_writable(body, b),
{
}

/// The disk is asked for whole sectors that it has, at most as many bytes as a
/// request may move, and a read-only one is not asked to store anything.
pub open spec fn proper(call: BlockCall, sealed: bool, capacity: u64) -> bool {
    match call {
        BlockCall::Read { offset, data, result } => on_disk(offset, total(data), capacity),
        BlockCall::Write { offset, data, result } => !sealed && on_disk(
            offset,
            total(data),
            capacity,
        ),
        BlockCall::Flush { result } => true,
    }
}

/// Whole sectors of a disk of `capacity` bytes.
pub open spec fn on_disk(offset: u64, size: int, capacity: u64) -> bool {
    offset % 512 == 0 && size % 512 == 0 && 0 <= size <= MAX_REQUEST && offset + size <= capacity
}

/// Whatever a chain holds, serving it asks the disk only for what it has: whole
/// sectors within its size, and no write to a read-only disk.
pub proof fn requests_stay_on_the_disk<BS: BlockStorage>(
    b0: Block<BS>,
    m0: Memory,
    desc: Seq<Descriptor>,
    negotiated: u64,
    b1: Block<BS>,
    m1: Memory,
    r: Result<u32, DeviceError>,
)
    requires
        crate::guest::ordered(m0.regions),
        request_rel(b0, m0, desc, negotiated, b1, m1, r),
    ensures
        b0.disk.calls().len() <= b1.disk.calls().len(),
        b1.disk.calls().take(b0.disk.calls().len() as int) == b0.disk.calls(),
        forall|i: int|
            b0.disk.calls().len() <= i < b1.disk.calls().len() ==> proper(
                #[trigger] b1.disk.calls()[i],
                b0.disk.sealed(),
                b0.disk.capacity(),
            ),
{
    let calls = b0.disk.calls();
    if malformed(desc, m0.regions) is None {
        let all = spread(m0.regions, desc);
        let body = desc.drop_last();
        let size = length(body) - 16;
        lemma_length_split(desc);
        crate::devices::buffers::spread_is_complete(m0.regions, desc);
        crate::devices::buffers::lemma_span(m0.regions, all, 16, size);
    }
    assert(b1.disk.calls().take(calls.len() as int) =~= calls);
}

impl<BS: BlockStorage> VirtioDevice for Block<BS> {
    open spec fn wf(&self) -> bool {
        self.id@.len() == 20
    }

    open spec fn id_of(&self) -> u32 {
        2
    }

    open spec fn offered(&self) -> u64 {
        if self.disk.sealed() {
            F_FLUSH | F_RO
        } else {
            F_FLUSH
        }
    }

    open spec fn required(&self) -> u64 {
        0
    }

    open spec fn queues_of(&self) -> nat {
        1
    }

    open spec fn config(&self) -> Seq<u8> {
        le64_bytes((self.disk.capacity() / 512) as u64)
    }

    open spec fn generation_of(&self) -> u32 {
        0
    }

    open spec fn notify_rel(
        d0: Self,
        queue: int,
        q0: QueuesView,
        m0: Memory,
        d1: Self,
        q1: QueuesView,
        m1: Memory,
        r: Result<(), DeviceError>,
    ) -> bool {
        exists|m: Memory, n: Result<u16, DeviceError>|
            #[trigger] available_rel(q0.rings[0], m0, m, n) && match n {
                Err(e) => d1 == d0 && q1 == q0 && m1 == m && r == Err::<(), DeviceError>(e),
                Ok(count) => serve_rel(count as nat, d0, q0, m, d1, q1, m1, r),
            }
    }

    open spec fn poll_rel(
        d0: Self,
        q0: QueuesView,
        m0: Memory,
        d1: Self,
        q1: QueuesView,
        m1: Memory,
        r: Result<(), DeviceError>,
    ) -> bool {
        d1 == d0 && q1 == q0 && m1 == m0 && r == Ok::<(), DeviceError>(())
    }

    open spec fn reset_rel(d0: Self, d1: Self, r: Result<(), DeviceError>) -> bool {
        Self::flush_rel(d0, d1, r)
    }

    open spec fn flush_rel(d0: Self, d1: Self, r: Result<(), DeviceError>) -> bool {
        &&& d1.name == d0.name
        &&& d1.id == d0.id
        &&& exists|x: Result<(), StorageError>|
            #[trigger] through(x) && r == lifted(x) && d1.disk.calls() == d0.disk.calls().push(
                BlockCall::Flush { result: x },
            )
    }

    fn required_features(&self) -> (r: u64) {
        0
    }

    fn generation(&self) -> (r: u32) {
        0
    }

    fn device_id(&self) -> (r: u32) {
        2
    }

    fn features(&self) -> (r: u64) {
        if self.disk.read_only() {
            F_FLUSH | F_RO
        } else {
            F_FLUSH
        }
    }

    fn queue_count(&self) -> (r: usize) {
        1
    }

    fn read_config(&self, offset: usize, width: usize) -> (r: Vec<u8>) {
        let config: Vec<u8> = put_le64(self.disk.size() / 512);
        read_config(config.as_slice(), offset, width)
    }

    fn notify(&mut self, queue: usize, queues: &mut Queues, mem: &mut Guest) -> (r: Result<
        (),
        DeviceError,
    >) {
        let ghost b0 = *self;
        let ghost q0 = queues@;
        let ghost m0 = mem@;
        let n: Result<u16, DeviceError> = queues.available(0, mem);
        let ghost m = mem@;
        assert(available_rel(q0.rings[0], m0, m, n));
        let count: u16 = match n {
            Ok(count) => count,
            Err(e) => {
                return Err(e);
            },
        };
        let mut i: u16 = 0;
        while i < count
            invariant
                i <= count,
                self.wf(),
                queues@.wf(),
                queues.rings@.len() == 1,
                queues@.kept(q0),
                m.same(m0),
                mem@.same(m0),
                b0 == *old(self),
                q0 == old(queues)@,
                m0 == old(mem)@,
                n == Ok::<u16, DeviceError>(count),
                available_rel(q0.rings[0], m0, m, n),
                serve_rel(i as nat, b0, q0, m, *self, queues@, mem@, Ok::<(), DeviceError>(())),
            decreases count - i,
        {
            let ghost b2 = *self;
            let ghost q2 = queues@;
            let ghost m2 = mem@;
            let e: Result<(), DeviceError> = self.serve(queues, mem);
            proof {
                assert(through((b2, q2, m2, Ok::<(), DeviceError>(()))));
                assert(serve_rel((i + 1) as nat, b0, q0, m, *self, queues@, mem@, e));
                if e is Err {
                    lemma_serve_error(
                        (i + 1) as nat,
                        count as nat,
                        b0,
                        q0,
                        m,
                        *self,
                        queues@,
                        mem@,
                        e,
                    );
                }
            }
            if e.is_err() {
                return e;
            }
            i = i + 1;
        }
        Ok(())
    }

    fn poll(&mut self, queues: &mut Queues, mem: &mut Guest) -> (r: Result<(), DeviceError>) {
        Ok(())
    }

    fn reset(&mut self) -> (r: Result<(), DeviceError>) {
        self.flush()
    }

    fn flush(&mut self) -> (r: Result<(), DeviceError>) {
        let x: Result<(), StorageError> = self.disk.flush();
        assert(through(x));
        match x {
            Ok(()) => Ok(()),
            Err(e) => Err(DeviceError::Storage(e)),
        }
    }
}

} // verus!
