//! Typed errors at the backend and VM boundaries.
use crate::serial::IoFault;
use vstd::prelude::*;
use vstd::utf8::encode_utf8;

verus! {

pub type Result<T> = std::result::Result<T, Error>;

/// Any failure of a VM.
#[derive(Debug)]
pub enum Error {
    Storage(StorageError),
    Memory(MemoryError),
    Net(NetError),
    Platform(PlatformError),
    Boot(BootError),
    Device(DeviceError),
    Control(ControlError),
    Runtime(RuntimeError),
    Serial(SerialError),
}

/// A host failure, told by its messages: the outermost first, then its causes.
#[derive(Debug)]
pub struct Failure {
    pub chain: Vec<String>,
}

/// `e` is a single message.
pub open spec fn says(e: Failure, message: Seq<char>) -> bool {
    e.chain@.len() == 1 && e.chain@[0]@ == message
}

#[allow(inconsistent_fields)]
#[derive(Debug)]
pub enum StorageError {
    ReadOnly,
    CapacityMismatch { expected: u64, actual: u64 },
    NotRegularFile,
    InvalidCapacity { size: u64 },
    InvalidHeaderLength { length: u32 },
    IncompatibleFeatures { features: u64 },
    InternalSnapshotsUnsupported,
    EncryptedImagesUnsupported,
    InvalidQcow2ClusterSize { bits: u32 },
    BackingChainsUnsupported,
    UnsupportedVersion { version: u32 },
    InvalidHeader,
    OutOfBounds { size: u64, offset: u64, len: usize },
    /// Error supplied by a caller-provided backend.
    Backend(Failure),
    /// A host operation on the image at `path` failed.
    Operation { operation: String, path: String, source: Failure },
}

#[allow(inconsistent_fields)]
#[derive(Debug)]
pub enum MemoryError {
    Stopped,
    InvalidTarget { requested: u64, capacity: u64, block_size_mib: u64 },
    CapacityOverflow { mib: u64 },
    ReadableDescriptorAfterWritableDescriptor,
    InvalidVirtioMemRequestBuffers { read: usize, write: usize },
    IpaOverflow,
    HotplugOverflow,
    HotplugAlignment { address: u64 },
    InvalidRegionSize { mib: u64 },
    InvalidBlockSize { mib: u64 },
    RollbackFailed { source: Box<MemoryError>, rollback: Box<MemoryError> },
    /// Error supplied by a caller-provided backend.
    Backend(Failure),
    /// A region of guest memory could not be allocated.
    GuestMemory,
    /// Guest memory was accessed outside its regions.
    GuestAccess,
    /// Regions overlap, are out of order or are missing.
    Regions,
    Mapping(Box<PlatformError>),
}

#[allow(inconsistent_fields)]
#[derive(Debug)]
pub enum NetError {
    InvalidVmnetRxFrameSize { length: usize, capacity: usize },
    InvalidVmnetRxCount { count: i32 },
    VmnetRxBufferTooSmall { length: usize, capacity: usize },
    InvalidVmnetTxCount { count: i32 },
    InvalidVmnetTxFrameSize { length: usize, capacity: usize },
    CreateVmnetDescription,
    InvalidVmnetFrameCapacity,
    UnexpectedMtu { mtu: u16 },
    MissingVmnetInterfaceParameters,
    InvalidVmnetMacAddress,
    Vmnet { operation: String, status: u32 },
    PermissionDenied { operation: String, status: u32 },
    /// Error supplied by a caller-provided backend.
    Backend(Failure),
    /// A value does not fit the integer that holds it.
    Integer,
    /// A string of the interface parameters is not UTF-8.
    Utf8,
    /// A part of a MAC address is not a hexadecimal number.
    MacParse,
    /// Waiting for the interface failed.
    Wait { operation: String, source: Failure },
    Start(Box<NetError>),
    MissingMac,
    MissingInterface,
    Closed,
}

#[allow(inconsistent_fields)]
#[derive(Debug)]
pub enum PlatformError {
    NoDefaultPlatform,
    HotplugLayoutMismatch,
    InvalidHotplugCapacityAlignment { address: u64, size: u64, capacity: u64, alignment: u64 },
    InvalidVirtioMmioRegion,
    RamCapacityMismatch { expected_mib: u64, actual: u64 },
    RamCapacityOverflow { total: u64, size: u64 },
    OverlappingRegions { address: u64, size: u64 },
    PortRangeOverflow { address: u64, size: u64 },
    RegionOverflow { address: u64, size: u64 },
    EmptyRegion,
    UartRegionTooSmall { size: u64 },
    DeviceCountMismatch { expected: usize, actual: usize },
    NoBaseRam,
    InvalidVcpuCount,
    EventChannelDisconnected,
    VmNotPrepared,
    HotplugOverflow,
    UnsupportedVcpuCount,
    HvfHostPageAlignment,
    GicOverlapsRam,
    CreateGicConfiguration,
    GicSpiRange { base: u32, end: u32 },
    InvalidGicSpiRange,
    Hypervisor { operation: String, code: i32 },
    UnexpectedHvfExit { reason: u32, syndrome: u64 },
    UnhandledException { syndrome: u64, address: u64, pc: u64 },
    UnsupportedSysreg { sysreg: u64, esr: u64 },
    UnsupportedDataAbort { syndrome: u64, address: u64 },
    VcpuInitializationThreadFailed,
    VcpuThreadPanicked,
    StartupCancelled,
    VmStoppedDuringMemoryTransaction,
    /// Error supplied by a caller-provided backend.
    Backend(Failure),
    Memory(MemoryError),
    Boot(BootError),
    /// A value does not fit the integer that holds it.
    Integer,
    Io(Failure),
}

#[allow(inconsistent_fields)]
#[derive(Debug)]
pub enum BootError {
    LoaderLayoutDisagreement,
    FdtExceedsReservedSpace { length: usize },
    AtLeastOneCpuRequired,
    TooManyVirtioDevicesForGicSpis { count: usize },
    KernelInitramfsFdtOverlapOrExceedRam,
    ImageSizeOverflow,
    InitrdTooLarge { length: usize },
    RamAddressOverflow,
    RamExceedsHostAllocationSize { size: usize },
    KernelOffsetOverflow { offset: u64 },
    UnalignedKernelTextOffset { offset: u64 },
    BigEndianKernelUnsupported,
    LegacyImageWithoutImageSizeIsUnsupported,
    InvalidArm64Image,
    MemoryMustBeAtLeast128Mib { mib: u64 },
    IpaRange { start: u64, end: u64, bits: u32 },
    MemoryAddressOverflow { start: u64, size: u64 },
    InvalidIpaWidth { bits: u32 },
    MemoryCapacityConversionOverflow { mib: u64 },
    /// A value does not fit the integer that holds it.
    Integer,
    /// Guest memory was accessed outside its regions.
    GuestAccess,
    /// The device tree could not be written.
    Fdt,
    /// The kernel image could not be loaded.
    Loader(Failure),
}

#[allow(inconsistent_fields)]
#[derive(Debug)]
pub enum DeviceError {
    InvalidGetId,
    InvalidFlush,
    SectorOverflow { sector: u64 },
    WriteToReadOnlyDisk,
    UnalignedBlockRequest { length: usize },
    BlockDescriptorDirectionMismatch,
    BlockRequestTooLarge { length: usize, limit: usize },
    RequestLengthOverflow,
    InvalidBlockHeaderStatus,
    TruncatedBlockDescriptorChain,
    InvalidBlockName { name: String },
    MissingBlockChain,
    RxLengthOverflow,
    RxDescriptorMustBeWritable,
    MissingRxChain,
    InvalidBackendRxPacketSize { length: usize, capacity: usize },
    UnnegotiatedTxChecksumGsoOffload,
    InvalidTxPacketSize { length: usize, capacity: usize },
    TxLengthOverflow,
    TxDescriptorMustBeReadable,
    NetworkMacMustBeNonzeroUnicast,
    InvalidNetworkMtuFrameCapacity { mtu: u16, capacity: usize },
    InvalidQueueMemory,
    InvalidQueueReady { value: u32 },
    QueueTooLarge { size: u32, max: u16 },
    QueueConfigurationWhileReady,
    QueueConfigurationAfterDriverOk,
    DriverNotReady,
    StatusBitsCleared,
    CyclicDescriptorChain,
    InvalidDescriptorFlagsRange { address: u64, length: u32, flags: u16 },
    UnnegotiatedIndirectDescriptor,
    DescriptorIndexOutOfRange { index: u16, size: u16 },
    InvalidAvailableDescriptor,
    AvailableRingOverrun { count: u16, size: u16 },
    InvalidVirtqueue,
    CyclicPendingDescriptorChain,
    InvalidPendingDescriptor { address: u64, length: u32, flags: u16 },
    InvalidLiveQueue,
    Storage(StorageError),
    Net(NetError),
    Memory(MemoryError),
    /// Guest memory was accessed outside its regions.
    GuestAccess,
    /// The queue's rings could not be read or written.
    Queue,
}

#[derive(Debug)]
pub enum ControlError {
    Cancelled,
    OwnerThread,
    Disconnected,
    NotRunning,
    MemoryNotConfigured,
    CleanupFailed { message: String },
    Memory(MemoryError),
    ReplyFailed(String),
}

#[derive(Debug)]
pub enum RuntimeError {
    VmmThreadPanicked,
    UnmappedIo { address: u64, width: usize },
    InvalidMmioWidth { width: usize },
    InvalidIoWidth { width: usize },
}

#[derive(Debug)]
pub enum SerialError {
    InvalidReceiveLength { count: usize, capacity: usize },
    /// Input failed.
    Io(IoFault),
    /// Output of the UART failed.
    Uart(IoFault),
}

/// `whole` ends with `part`.
pub open spec fn ends_with(whole: Seq<u8>, part: Seq<u8>) -> bool {
    part.len() <= whole.len() && whole.skip(whole.len() - part.len()) == part
}

/// The messages of `chain` in one line: each cause behind a colon, unless the
/// line ends with it already.
pub open spec fn rendered(chain: Seq<String>) -> Seq<char>
    decreases chain.len(),
{
    if chain.len() == 0 {
        Seq::empty()
    } else if chain.len() == 1 {
        chain[0]@
    } else {
        let line = rendered(chain.drop_last());
        let cause = chain.last()@;
        if ends_with(encode_utf8(line), encode_utf8(cause)) {
            line
        } else {
            line + seq![':', ' '] + cause
        }
    }
}

fn has_ending(whole: &str, part: &str) -> (r: bool)
    ensures
        r == ends_with(encode_utf8(whole@), encode_utf8(part@)),
{
    let a: &[u8] = whole.as_bytes();
    let b: &[u8] = part.as_bytes();
    if b.len() > a.len() {
        return false;
    }
    let total: usize = a.len();
    let offset: usize = total - b.len();
    let mut i: usize = 0;
    while i < b.len()
        invariant
            total == a@.len(),
            a@ == encode_utf8(whole@),
            b@ == encode_utf8(part@),
            offset + b@.len() == a@.len(),
            i <= b@.len(),
            forall|k: int| 0 <= k < i ==> a@[offset + k] == #[trigger] b@[k],
        decreases b@.len() - i,
    {
        if a[offset + i] != b[i] {
            assert(a@.skip(offset as int)[i as int] == a@[offset + i]);
            return false;
        }
        i = i + 1;
    }
    assert(a@.skip(offset as int) =~= b@);
    true
}

/// Renders a failure and all its causes for logs and text protocols.
pub fn diagnostic(error: &Failure) -> (r: String)
    ensures
        r@ == rendered(error.chain@),
{
    proof {
        reveal_strlit("");
        reveal_strlit(": ");
    }
    let chain: &Vec<String> = &error.chain;
    if chain.len() == 0 {
        let none: String = "".to_owned();
        assert(none@ =~= Seq::empty());
        return none;
    }
    let mut message: String = chain[0].clone();
    let mut i: usize = 1;
    assert(chain@.take(1)[0] == chain@[0]);
    while i < chain.len()
        invariant
            ": "@ =~= seq![':', ' '],
            1 <= i <= chain@.len(),
            message@ == rendered(chain@.take(i as int)),
        decreases chain@.len() - i,
    {
        assert(chain@.take(i + 1).drop_last() =~= chain@.take(i as int));
        let cause: &String = &chain[i];
        if !has_ending(message.as_str(), cause.as_str()) {
            message.append(": ");
            message.append(cause.as_str());
        }
        i = i + 1;
    }
    assert(chain@.take(chain@.len() as int) =~= chain@);
    message
}

proof fn lemma_encode_joined(a: Seq<char>, b: Seq<char>)
    ensures
        encode_utf8(a + b) == encode_utf8(a) + encode_utf8(b),
    decreases a.len(),
{
    if a.len() == 0 {
        assert(a + b =~= b);
        assert(encode_utf8(a) + encode_utf8(b) =~= encode_utf8(b));
    } else {
        lemma_encode_joined(a.drop_first(), b);
        assert((a + b).drop_first() =~= a.drop_first() + b);
        assert(encode_utf8(a + b) =~= encode_utf8(a) + encode_utf8(b));
    }
}

/// `part` stands in `whole` from `at` on.
pub open spec fn stands_at(whole: Seq<u8>, part: Seq<u8>, at: int) -> bool {
    0 <= at && at + part.len() <= whole.len() && whole.subrange(at, at + part.len()) == part
}

/// `part` stands somewhere in `whole`.
pub open spec fn occurs(whole: Seq<u8>, part: Seq<u8>) -> bool {
    exists|at: int| stands_at(whole, part, at)
}

/// The line starts with the failure itself, and every cause stands in it.
pub proof fn every_cause_is_told(chain: Seq<String>)
    requires
        chain.len() > 0,
    ensures
        rendered(chain).len() >= chain[0]@.len(),
        rendered(chain).take(chain[0]@.len() as int) == chain[0]@,
        forall|i: int|
            0 <= i < chain.len() ==> occurs(
                encode_utf8(rendered(chain)),
                encode_utf8((#[trigger] chain[i])@),
            ),
    decreases chain.len(),
{
    let line = rendered(chain);
    let bytes = encode_utf8(line);
    if chain.len() == 1 {
        assert(line.take(line.len() as int) =~= line);
        assert(bytes.subrange(0, bytes.len() as int) =~= bytes);
        assert(stands_at(bytes, encode_utf8(chain[0]@), 0));
        assert forall|i: int| 0 <= i < chain.len() implies occurs(
            bytes,
            encode_utf8((#[trigger] chain[i])@),
        ) by {
            assert(stands_at(bytes, encode_utf8(chain[i]@), 0));
        }
    } else {
        let less = chain.drop_last();
        every_cause_is_told(less);
        let before = rendered(less);
        let cause = chain.last()@;
        let n = encode_utf8(before).len() as int;
        if ends_with(encode_utf8(before), encode_utf8(cause)) {
            let at = n - encode_utf8(cause).len();
            assert(bytes.subrange(at, n) =~= bytes.skip(at));
            assert(stands_at(bytes, encode_utf8(cause), at));
        } else {
            lemma_encode_joined(before + seq![':', ' '], cause);
            lemma_encode_joined(before, seq![':', ' ']);
            let head = encode_utf8(before + seq![':', ' ']);
            assert(bytes.subrange(head.len() as int, bytes.len() as int) =~= encode_utf8(cause));
            assert(stands_at(bytes, encode_utf8(cause), head.len() as int));
            assert(line.take(chain[0]@.len() as int) =~= before.take(chain[0]@.len() as int));
        }
        assert forall|i: int| 0 <= i < chain.len() implies occurs(
            bytes,
            encode_utf8((#[trigger] chain[i])@),
        ) by {
            if i < chain.len() - 1 {
                assert(less[i] == chain[i]);
                let at = choose|at: int|
                    stands_at(encode_utf8(before), encode_utf8(less[i]@), at);
                let part = encode_utf8(chain[i]@);
                assert(bytes.subrange(at, at + part.len()) =~= encode_utf8(before).subrange(
                    at,
                    at + part.len(),
                ));
                assert(stands_at(bytes, part, at));
            }
        }
    }
}

} // verus!
