//! qcow2 images on the host: how one is opened, and what it does about requests.
use crate::error::{says, Failure, StorageError};
use crate::guest::{total, Segment};
use crate::storage::{
    batch_views, filled, header_verdict, plan, transfer_plan, validate_header, Batch,
};
use vstd::prelude::*;

verus! {

/// How many bytes of an image are read to check its header.
pub const HEADER: usize = 104;

/// `e` tells that `operation` failed on the image at `path`, and why.
pub open spec fn told(
    e: StorageError,
    operation: Seq<char>,
    path: Seq<char>,
    source: Failure,
) -> bool {
    e matches StorageError::Operation { operation: o, path: p, source: s } && o@ == operation && p@
        == path && s == source
}

/// The host operations that open an image, in order.
#[derive(Clone, Copy, Debug, PartialEq, Eq, Structural)]
pub enum OpenStep {
    /// Open the file.
    File,
    /// Look what kind of file it is.
    Metadata,
    /// Lock it, for as long as the image is open: for this image alone, or
    /// shared with others that only read.
    Lock { exclusive: bool },
    /// Read its first bytes.
    Header,
    /// Duplicate its descriptor, so that the check, the lock and later requests
    /// are about the same file.
    Duplicate,
    /// Hand the descriptor to the image driver.
    Create,
    /// Let the driver read the metadata of the image.
    Image,
}

pub open spec fn step_name(step: OpenStep) -> Seq<char> {
    match step {
        OpenStep::File => "open"@,
        OpenStep::Metadata => "metadata"@,
        OpenStep::Lock { .. } => "disk is already locked"@,
        OpenStep::Header => "read qcow2 header"@,
        OpenStep::Duplicate => "duplicate disk descriptor"@,
        OpenStep::Create => "create image file"@,
        OpenStep::Image => "open qcow2 metadata"@,
    }
}

impl OpenStep {
    /// What an operation is called where it fails.
    pub fn operation(self) -> (r: &'static str)
        ensures
            r@ == step_name(self),
    {
        match self {
            OpenStep::File => "open",
            OpenStep::Metadata => "metadata",
            OpenStep::Lock { .. } => "disk is already locked",
            OpenStep::Header => "read qcow2 header",
            OpenStep::Duplicate => "duplicate disk descriptor",
            OpenStep::Create => "create image file",
            OpenStep::Image => "open qcow2 metadata",
        }
    }
}

/// What came of an operation.
#[derive(Debug)]
pub enum Found {
    Done,
    /// Whether the file is a regular one.
    Regular(bool),
    /// The first bytes of the file.
    Bytes(Vec<u8>),
    /// The virtual size of the image, as the driver sees it.
    Size(u64),
    Failed(Failure),
}

/// What is next.
pub enum Progress {
    /// Another step is to be done.
    Step(Opening),
    /// The image may be used.
    Ready(Disk),
}

/// An image that is being opened.
pub struct Opening {
    path: String,
    readonly: bool,
    size: u64,
    step: OpenStep,
}

/// An image that is being opened, as plain values.
pub struct OpeningView {
    pub path: Seq<char>,
    pub readonly: bool,
    /// What the header announced, once it was read.
    pub size: u64,
    pub step: OpenStep,
}

impl View for Opening {
    type V = OpeningView;

    closed spec fn view(&self) -> OpeningView {
        OpeningView {
            path: self.path@,
            readonly: self.readonly,
            size: self.size,
            step: self.step,
        }
    }
}

/// Whether `found` is what `step` finds.
pub open spec fn finds(step: OpenStep, found: Found) -> bool {
    found is Failed || match step {
        OpenStep::Metadata => found is Regular,
        OpenStep::Header => found is Bytes,
        OpenStep::Image => found is Size,
        _ => found is Done,
    }
}

/// The step that follows where nothing is wrong, and the size that is known then;
/// or why the image is refused. No step means that the image may be used.
pub open spec fn opened(o: OpeningView, found: Found) -> Result<
    (Option<OpenStep>, u64),
    StorageError,
> {
    match (o.step, found) {
        (OpenStep::File, _) => Ok((Some(OpenStep::Metadata), o.size)),
        (OpenStep::Metadata, Found::Regular(true)) => Ok(
            (Some(OpenStep::Lock { exclusive: !o.readonly }), o.size),
        ),
        (OpenStep::Metadata, _) => Err(StorageError::NotRegularFile),
        (OpenStep::Lock { .. }, _) => Ok((Some(OpenStep::Header), o.size)),
        (OpenStep::Header, Found::Bytes(h)) => match header_verdict(h@) {
            Ok(size) => Ok((Some(OpenStep::Duplicate), size)),
            Err(e) => Err(e),
        },
        (OpenStep::Duplicate, _) => Ok((Some(OpenStep::Create), o.size)),
        (OpenStep::Create, _) => Ok((Some(OpenStep::Image), o.size)),
        (OpenStep::Image, Found::Size(actual)) => if actual == o.size {
            Ok((None, o.size))
        } else {
            Err(StorageError::CapacityMismatch { expected: o.size, actual })
        },
        _ => Err(StorageError::InvalidHeader),
    }
}

/// What is known of the size once the header was read.
pub open spec fn sized(o: OpeningView) -> bool {
    o.step == OpenStep::Duplicate || o.step == OpenStep::Create || o.step == OpenStep::Image
        ==> 0 < o.size && o.size % 512 == 0
}

/// The driver sees an image only after its header passed, and an image that may
/// be used holds whole sectors, as many as its header and the driver say.
pub proof fn open_disks_hold_whole_sectors(o: OpeningView, found: Found)
    requires
        sized(o),
        finds(o.step, found),
        found !is Failed,
    ensures
        opened(o, found) matches Ok((Some(step), size)) ==> sized(
            OpeningView { size, step, ..o },
        ),
        opened(o, found) matches Ok((None, size)) ==> 0 < size && size % 512 == 0 && found
            == Found::Size(size),
{
}

/// What comes of opening an image where the steps find `founds`: the image, or
/// why it is refused; nothing, while steps are left.
pub open spec fn opening(o: OpeningView, founds: Seq<Found>) -> Option<
    Result<DiskView, StorageError>,
>
    decreases founds.len(),
{
    if founds.len() == 0 || founds[0] is Failed || !finds(o.step, founds[0]) {
        None
    } else {
        match opened(o, founds[0]) {
            Err(e) => Some(Err(e)),
            Ok((Some(step), size)) => opening(OpeningView { size, step, ..o }, founds.skip(1)),
            Ok((None, size)) => Some(
                Ok(DiskView { path: o.path, readonly: o.readonly, size }),
            ),
        }
    }
}

/// An image that is about to be opened.
pub open spec fn unopened(path: Seq<char>, readonly: bool) -> OpeningView {
    OpeningView { path, readonly, size: 0, step: OpenStep::File }
}

/// An image that was opened is read-only exactly where that was asked for, and
/// has the size that its header names and the driver sees.
pub proof fn opened_disks_are_as_asked(path: Seq<char>, readonly: bool, founds: Seq<Found>)
    ensures
        opening(unopened(path, readonly), founds) matches Some(Ok(d)) ==> {
            &&& d.path == path
            &&& d.readonly == readonly
            &&& founds.len() >= 7
            &&& founds[1] == Found::Regular(true)
            &&& founds[3] matches Found::Bytes(h) && header_verdict(h@) == Ok::<u64, StorageError>(
                d.size,
            )
            &&& founds[6] == Found::Size(d.size)
        },
{
    reveal_with_fuel(opening, 8);
    let o = unopened(path, readonly);
    let a = founds.skip(1);
    let b = a.skip(1);
    let c = b.skip(1);
    let d = c.skip(1);
    let e = d.skip(1);
    let f = e.skip(1);
    if opening(o, founds) matches Some(Ok(_)) {
        assert(a.len() > 0 && a[0] == founds[1]);
        assert(b.len() > 0 && b[0] == founds[2]);
        assert(c.len() > 0 && c[0] == founds[3]);
        assert(d.len() > 0 && d[0] == founds[4]);
        assert(e.len() > 0 && e[0] == founds[5]);
        assert(f.len() > 0 && f[0] == founds[6]);
    }
}

/// Whether a file that is locked by the step `held` can also be locked by the
/// step `wanted`, as advisory locks go: only shared locks stand beside each
/// other.
pub open spec fn stands_beside(held: OpenStep, wanted: OpenStep) -> bool {
    held == (OpenStep::Lock { exclusive: false }) && wanted == (OpenStep::Lock {
        exclusive: false,
    })
}

/// The lock under which an image is opened.
pub open spec fn lock_of(o: OpeningView) -> OpenStep {
    OpenStep::Lock { exclusive: !o.readonly }
}

/// Of two openings of one image, the second is granted exactly where both only
/// read; where its lock is refused, it fails with the path and what was tried.
pub proof fn second_opening_needs_both_to_read(
    holder: OpeningView,
    second: OpeningView,
    regular: Found,
)
    requires
        holder.step == OpenStep::Metadata,
        second.step == OpenStep::Metadata,
        regular == Found::Regular(true),
    ensures
        opened(holder, regular) == Ok::<(Option<OpenStep>, u64), StorageError>(
            (Some(lock_of(holder)), holder.size),
        ),
        opened(second, regular) == Ok::<(Option<OpenStep>, u64), StorageError>(
            (Some(lock_of(second)), second.size),
        ),
        stands_beside(lock_of(holder), lock_of(second)) <==> holder.readonly && second.readonly,
        step_name(lock_of(second)) == "disk is already locked"@,
{
}

impl Opening {
    /// Nothing is done yet; the first step is to open the file.
    pub fn new(path: String, readonly: bool) -> (r: Self)
        ensures
            r@ == (OpeningView { path: path@, readonly, size: 0, step: OpenStep::File }),
    {
        Opening { path, readonly, size: 0, step: OpenStep::File }
    }

    /// The step that is to be done.
    pub fn step(&self) -> (r: OpenStep)
        ensures
            r == self@.step,
    {
        self.step
    }

    /// Takes in what came of the current step.
    pub fn advance(self, found: Found) -> (r: Result<Progress, StorageError>)
        requires
            finds(self@.step, found),
        ensures
            found matches Found::Failed(source) ==> r is Err && told(
                r->Err_0,
                step_name(self@.step),
                self@.path,
                source,
            ),
            found !is Failed ==> match opened(self@, found) {
                Err(e) => r is Err && r->Err_0 == e,
                Ok((Some(step), size)) => r matches Ok(Progress::Step(next)) && next@ == (
                OpeningView { size, step, ..self@ }),
                Ok((None, size)) => r matches Ok(Progress::Ready(disk)) && disk@ == (DiskView {
                    path: self@.path,
                    readonly: self@.readonly,
                    size,
                }),
            },
    {
        let mut next: Opening = self;
        let step: OpenStep = match (next.step, found) {
            (step, Found::Failed(source)) => {
                return Err(
                    StorageError::Operation {
                        operation: step.operation().to_owned(),
                        path: next.path,
                        source,
                    },
                );
            },
            (OpenStep::File, _) => OpenStep::Metadata,
            (OpenStep::Metadata, Found::Regular(true)) => OpenStep::Lock {
                exclusive: !next.readonly,
            },
            (OpenStep::Metadata, _) => {
                return Err(StorageError::NotRegularFile);
            },
            (OpenStep::Lock { .. }, _) => OpenStep::Header,
            (OpenStep::Header, Found::Bytes(h)) => match validate_header(h.as_slice()) {
                Err(e) => {
                    return Err(e);
                },
                Ok(size) => {
                    next.size = size;
                    OpenStep::Duplicate
                },
            },
            (OpenStep::Duplicate, _) => OpenStep::Create,
            (OpenStep::Create, _) => OpenStep::Image,
            (OpenStep::Image, Found::Size(actual)) => {
                if actual != next.size {
                    return Err(
                        StorageError::CapacityMismatch { expected: next.size, actual },
                    );
                }
                let disk: Disk = Disk {
                    path: next.path,
                    readonly: next.readonly,
                    size: next.size,
                };
                return Ok(Progress::Ready(disk));
            },
            _ => {
                return Err(StorageError::InvalidHeader);
            },
        };
        next.step = step;
        Ok(Progress::Step(next))
    }
}

/// One step of making an image durable.
#[derive(Clone, Copy, Debug, PartialEq, Eq, Structural)]
pub enum FlushStep {
    /// Write the cached metadata of the image.
    Cache,
    /// Sync the image driver.
    Image,
    /// Sync the file itself.
    File,
}

pub open spec fn flush_name(step: FlushStep) -> Seq<char> {
    match step {
        FlushStep::Cache => "qcow2 cache flush"@,
        FlushStep::Image => "qcow2 host sync"@,
        FlushStep::File => "disk fsync"@,
    }
}

impl FlushStep {
    /// What a step is called where it fails.
    pub fn operation(self) -> (r: &'static str)
        ensures
            r@ == flush_name(self),
    {
        match self {
            FlushStep::Cache => "qcow2 cache flush",
            FlushStep::Image => "qcow2 host sync",
            FlushStep::File => "disk fsync",
        }
    }
}

/// What a transfer is called where it fails.
pub open spec fn transfer_name(write: bool) -> Seq<char> {
    if write {
        "qcow2 write"@
    } else {
        "qcow2 read"@
    }
}

pub fn transfer_operation(write: bool) -> (r: &'static str)
    ensures
        r@ == transfer_name(write),
{
    if write {
        "qcow2 write"
    } else {
        "qcow2 read"
    }
}

/// An image that passed every check.
pub struct Disk {
    path: String,
    readonly: bool,
    size: u64,
}

/// An image as plain values.
pub struct DiskView {
    pub path: Seq<char>,
    pub readonly: bool,
    pub size: u64,
}

impl View for Disk {
    type V = DiskView;

    closed spec fn view(&self) -> DiskView {
        DiskView { path: self.path@, readonly: self.readonly, size: self.size }
    }
}

/// The batches of a transfer, or why there are none.
pub open spec fn transferred(
    d: DiskView,
    offset: u64,
    data: Seq<Segment>,
    write: bool,
    limit: usize,
    r: Result<Vec<Batch>, StorageError>,
) -> bool {
    match r {
        Ok(v) => {
            &&& total(data) <= usize::MAX
            &&& offset + total(data) <= d.size
            &&& batch_views(v@) == plan(filled(data), offset as int, limit as int, write)
        },
        Err(e) => if total(data) > usize::MAX {
            exists|source: Failure| #[trigger]
                told(e, transfer_name(write), d.path, source) && says(
                    source,
                    "disk request length overflow"@,
                )
        } else {
            &&& offset + total(data) > d.size
            &&& e == (StorageError::OutOfBounds {
                size: d.size,
                offset,
                len: total(data) as usize,
            })
        },
    }
}

impl Disk {
    pub fn size(&self) -> (r: u64)
        ensures
            r == self@.size,
    {
        self.size
    }

    pub fn read_only(&self) -> (r: bool)
        ensures
            r == self@.readonly,
    {
        self.readonly
    }

    /// Tells that `operation` failed on this image.
    pub fn failed(&self, operation: &str, source: Failure) -> (r: StorageError)
        ensures
            told(r, operation@, self@.path, source),
    {
        StorageError::Operation { operation: operation.to_owned(), path: self.path.clone(), source }
    }

    fn transfer(&self, offset: u64, data: &[Segment], write: bool, limit: usize) -> (r: Result<
        Vec<Batch>,
        StorageError,
    >)
        requires
            limit > 0,
        ensures
            transferred(self@, offset, data@, write, limit, r),
    {
        match transfer_plan(self.size, offset, data, write, limit) {
            Some(r) => r,
            None => {
                let mut chain: Vec<String> = Vec::new();
                chain.push("disk request length overflow".to_owned());
                let source: Failure = Failure { chain };
                let e: StorageError = self.failed(transfer_operation(write), source);
                assert(says(source, "disk request length overflow"@));
                Err(e)
            },
        }
    }

    /// Plans a read of at most `limit` segments at a time.
    pub fn read(&self, offset: u64, data: &[Segment], limit: usize) -> (r: Result<
        Vec<Batch>,
        StorageError,
    >)
        requires
            limit > 0,
        ensures
            transferred(self@, offset, data@, false, limit, r),
    {
        self.transfer(offset, data, false, limit)
    }

    /// Plans a write of at most `limit` segments at a time, which a read-only
    /// image refuses.
    pub fn write(&self, offset: u64, data: &[Segment], limit: usize) -> (r: Result<
        Vec<Batch>,
        StorageError,
    >)
        requires
            limit > 0,
        ensures
            self@.readonly ==> r == Err::<Vec<Batch>, StorageError>(StorageError::ReadOnly),
            !self@.readonly ==> transferred(self@, offset, data@, true, limit, r),
    {
        if self.readonly {
            return Err(StorageError::ReadOnly);
        }
        self.transfer(offset, data, true, limit)
    }

    /// The steps that make the image durable, in order; none for a read-only one.
    pub fn flush(&self) -> (r: Vec<FlushStep>)
        ensures
            r@ == if self@.readonly {
                Seq::<FlushStep>::empty()
            } else {
                seq![FlushStep::Cache, FlushStep::Image, FlushStep::File]
            },
    {
        let mut steps: Vec<FlushStep> = Vec::new();
        if !self.readonly {
            steps.push(FlushStep::Cache);
            steps.push(FlushStep::Image);
            steps.push(FlushStep::File);
        }
        assert(steps@ =~= if self@.readonly {
            Seq::<FlushStep>::empty()
        } else {
            seq![FlushStep::Cache, FlushStep::Image, FlushStep::File]
        });
        steps
    }
}

} // verus!
