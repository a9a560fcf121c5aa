//! Tensor payloads in shared memory.
//!
//! Where the two processes can share memory, a tensor crosses between
//! them as a handle: the id of a region and its length in bytes. The
//! writer fills the region with the encoding of the tensor before it
//! sends the handle, and does not touch it afterwards. The reader maps
//! the same region and decodes what it finds.
//!
//! A handle promises a length. Every read through a handle is checked
//! against it, and a region whose true length differs from the promise is
//! not read at all.
//!
//! Mapping memory is not done here. The functions take the bytes of a
//! region and say what a read gives; the table keeps track of which
//! regions exist and which of the two peers still hold them.

use crate::handle::{Handle, HandleView};
use crate::ids::FdId;
use crate::table::Registry;
use crate::tensor::{Tensor, TensorView};
use crate::tensor_wire::{lemma_tensor_unambiguous, read_tensor, tensor_bytes, write_tensor};
use vstd::prelude::*;
use vstd::slice::{slice_subrange, slice_to_vec};

verus! {

/// Why a handle could not be read.
#[derive(Debug, PartialEq, Eq, Clone, Copy, Structural)]
pub enum HandleError {
    /// The handle carries its payload and names no region.
    NotShared,
    /// The region is not as long as the handle says.
    SizeMismatch,
    /// The read reaches past the length that the handle declares.
    OutOfBounds,
    /// The region does not hold the encoding of a valid tensor.
    Malformed,
    /// The handle names a region, and no region was given to read.
    NotMapped,
}

/// What reading `len` bytes at `offset` through a handle gives, where
/// `region` is what the handle's region holds.
pub open spec fn read_spec<V>(h: HandleView<V>, region: Seq<u8>, offset: u64, len: u64) -> Result<
    Seq<u8>,
    HandleError,
> {
    match h {
        HandleView::Inline { .. } => Err(HandleError::NotShared),
        HandleView::Shared { fd_id, size_bytes } => if region.len() != size_bytes {
            Err(HandleError::SizeMismatch)
        } else if offset + len > size_bytes {
            Err(HandleError::OutOfBounds)
        } else {
            Ok(region.subrange(offset as int, offset + len))
        },
    }
}

/// Reads `len` bytes at `offset` from the region behind a handle.
pub fn read_region<T: View>(h: &Handle<T>, region: &[u8], offset: u64, len: u64) -> (r: Result<
    Vec<u8>,
    HandleError,
>)
    ensures
        match r {
            Ok(b) => read_spec(h@, region@, offset, len) == Ok::<Seq<u8>, HandleError>(b@),
            Err(e) => read_spec(h@, region@, offset, len) == Err::<Seq<u8>, HandleError>(e),
        },
{
    match h {
        Handle::Inline { .. } => Err(HandleError::NotShared),
        Handle::Shared { fd_id, size_bytes, _pd } => {
            let size: u64 = *size_bytes;
            if region.len() as u64 != size {
                return Err(HandleError::SizeMismatch);
            }
            if offset > size || len > size - offset {
                return Err(HandleError::OutOfBounds);
            }
            let from: usize = offset as usize;
            let to: usize = (offset + len) as usize;
            Ok(slice_to_vec(slice_subrange(region, from, to)))
        },
    }
}

/// A read that reaches past the declared length fails, and a read that
/// succeeds gives exactly the bytes asked for: never fewer, and none
/// from beyond the region.
pub proof fn lemma_read_stays_in_bounds<V>(
    h: HandleView<V>,
    region: Seq<u8>,
    offset: u64,
    len: u64,
)
    requires
        h is Shared,
    ensures
        offset + len > h->size_bytes ==> read_spec(h, region, offset, len) is Err,
        offset + len > h->size_bytes && region.len() == h->size_bytes ==> read_spec(
            h,
            region,
            offset,
            len,
        ) == Err::<Seq<u8>, HandleError>(HandleError::OutOfBounds),
        read_spec(h, region, offset, len) matches Ok(b) ==> b.len() == len && offset + len
            <= region.len() && forall|i: int| 0 <= i < len ==> b[i] == region[offset + i],
{
}

/// The bytes that a region must hold for `t`.
pub fn tensor_to_region(t: &Tensor) -> (bytes: Vec<u8>)
    ensures
        bytes@ == tensor_bytes(t@),
{
    let mut out: Vec<u8> = Vec::new();
    write_tensor(&mut out, t);
    assert(out@ =~= tensor_bytes(t@));
    out
}

/// What taking a tensor out of the region behind a handle gives.
pub open spec fn tensor_from_region_spec(
    h: HandleView<TensorView>,
    region: Seq<u8>,
    r: Result<TensorView, HandleError>,
) -> bool {
    match h {
        HandleView::Inline { .. } => r == Err::<TensorView, HandleError>(HandleError::NotShared),
        HandleView::Shared { fd_id, size_bytes } => if region.len() != size_bytes {
            r == Err::<TensorView, HandleError>(HandleError::SizeMismatch)
        } else {
            match r {
                Ok(t) => t.wf() && tensor_bytes(t) == region,
                Err(e) => e == HandleError::Malformed && forall|t: TensorView|
                    t.wf() ==> #[trigger] tensor_bytes(t) != region,
            }
        },
    }
}

/// Takes the tensor out of the region behind a handle: the whole region,
/// of exactly the declared length, must be the encoding of one valid
/// tensor.
pub fn tensor_from_region(h: &Handle<Tensor>, region: &[u8]) -> (r: Result<Tensor, HandleError>)
    ensures
        tensor_from_region_spec(
            h@,
            region@,
            match r {
                Ok(t) => Ok(t@),
                Err(e) => Err(e),
            },
        ),
{
    match h {
        Handle::Inline { .. } => Err(HandleError::NotShared),
        Handle::Shared { fd_id, size_bytes, _pd } => {
            if region.len() as u64 != *size_bytes {
                return Err(HandleError::SizeMismatch);
            }
            let ghost s = region@;
            let ghost e = Seq::<u8>::empty();
            proof {
                assert(s.skip(0) =~= s);
                assert forall|t: TensorView| s == #[trigger] tensor_bytes(t) implies s
                    == tensor_bytes(t) + e by {
                    assert(tensor_bytes(t) + e =~= tensor_bytes(t));
                }
            }
            match read_tensor(region, 0) {
                None => Err(HandleError::Malformed),
                Some((t, end)) => {
                    if end != region.len() {
                        proof {
                            assert forall|x: TensorView| x.wf() implies #[trigger] tensor_bytes(x)
                                != s by {
                                if tensor_bytes(x) == s {
                                    lemma_tensor_unambiguous(t@, s.skip(end as int), x, e);
                                    assert(s.skip(end as int).len() == s.len() - end);
                                }
                            }
                        }
                        return Err(HandleError::Malformed);
                    }
                    proof {
                        assert(s.skip(end as int) =~= e);
                        assert(tensor_bytes(t@) + e =~= tensor_bytes(t@));
                    }
                    Ok(t)
                },
            }
        },
    }
}

/// A valid tensor that was written to a region and is taken out through
/// a handle of the region's length comes out as it went in.
pub proof fn lemma_region_round_trip(
    t: TensorView,
    fd_id: FdId,
    r: Result<TensorView, HandleError>,
)
    requires
        t.wf(),
        tensor_bytes(t).len() <= u64::MAX,
        tensor_from_region_spec(
            HandleView::Shared { fd_id, size_bytes: tensor_bytes(t).len() as u64 },
            tensor_bytes(t),
            r,
        ),
    ensures
        r == Ok::<TensorView, HandleError>(t),
{
    match r {
        Ok(x) => {
            let e = Seq::<u8>::empty();
            assert(tensor_bytes(t) + e =~= tensor_bytes(t));
            assert(tensor_bytes(x) + e =~= tensor_bytes(x));
            lemma_tensor_unambiguous(t, e, x, e);
        },
        Err(_) => {},
    }
}

/// How tensors cross between the processes of one deployment. It is
/// chosen once; nothing that handles tensors depends on the choice.
#[derive(Debug, PartialEq, Eq, Clone, Copy, Structural)]
pub enum TransportKind {
    /// Through regions of shared memory: only the handle is sent.
    SharedMemory,
    /// Inside the handle itself, for peers that share no memory.
    Inline,
}

/// A tensor made ready to be sent.
pub struct Exported {
    /// The handle to send.
    pub handle: Handle<Tensor>,
    /// With a handle to a shared region, the bytes that the region must
    /// hold before the handle is sent.
    pub region: Option<Vec<u8>>,
}

/// What making `t` ready gives with the transport `kind`, where
/// `next_id` is the id that the next region gets.
pub open spec fn export_spec(kind: TransportKind, next_id: u64, t: TensorView) -> (
    HandleView<TensorView>,
    Option<Seq<u8>>,
) {
    match kind {
        TransportKind::Inline => (HandleView::Inline { inner: t }, None),
        TransportKind::SharedMemory => (
            HandleView::Shared {
                fd_id: FdId(next_id),
                size_bytes: tensor_bytes(t).len() as u64,
            },
            Some(tensor_bytes(t)),
        ),
    }
}

/// Makes a tensor ready to be sent. Inline, the handle carries the
/// tensor and no region is touched. Through shared memory, a region as
/// long as the encoding of the tensor is entered in the table. The
/// tensor comes back only where the table has used up all ids.
pub fn export_tensor(kind: TransportKind, regions: &mut RegionTable, t: Tensor) -> (r: Result<
    Exported,
    Tensor,
>)
    requires
        old(regions).wf(),
    ensures
        final(regions).wf(),
        match r {
            Ok(e) => (e.handle@, e.region.deep_view()) == export_spec(
                kind,
                old(regions).next_id(),
                t@,
            ) && (kind == TransportKind::Inline ==> final(regions)@ == old(regions)@ && final(regions).next_id() == old(regions).next_id()) && (kind == TransportKind::SharedMemory
                ==> final(regions)@ == old(regions)@.insert(
                old(regions).next_id(),
                Region {
                    size_bytes: tensor_bytes(t@).len() as u64,
                    held_by_orchestrator: true,
                    held_by_runner: true,
                },
            ) && final(regions).next_id() == old(regions).next_id() + 1),
            Err(back) => kind == TransportKind::SharedMemory && old(regions).next_id()
                == u64::MAX && back == t && final(regions)@ == old(regions)@,
        },
{
    match kind {
        TransportKind::Inline => Ok(Exported { handle: Handle::inline(t), region: None }),
        TransportKind::SharedMemory => {
            let bytes = tensor_to_region(&t);
            let size: u64 = bytes.len() as u64;
            match regions.open(size) {
                Some(handle) => {
                    assert(bytes.deep_view() =~= bytes@);
                    Ok(Exported { handle, region: Some(bytes) })
                },
                None => Err(t),
            }
        },
    }
}

/// What taking the tensor behind a handle gives, where `region` is what
/// the handle's region holds, if it was mapped.
pub open spec fn import_spec(
    h: HandleView<TensorView>,
    region: Option<Seq<u8>>,
    r: Result<TensorView, HandleError>,
) -> bool {
    match h {
        HandleView::Inline { inner } => r == Ok::<TensorView, HandleError>(inner),
        HandleView::Shared { .. } => match region {
            None => r == Err::<TensorView, HandleError>(HandleError::NotMapped),
            Some(bytes) => tensor_from_region_spec(h, bytes, r),
        },
    }
}

/// Takes the tensor behind a handle: out of the handle itself, or out
/// of the region that the handle names.
pub fn import_tensor(h: Handle<Tensor>, region: Option<&[u8]>) -> (r: Result<Tensor, HandleError>)
    ensures
        import_spec(
            h@,
            match region {
                Some(b) => Some(b@),
                None => None,
            },
            match r {
                Ok(t) => Ok(t@),
                Err(e) => Err(e),
            },
        ),
{
    match h {
        Handle::Inline { inner } => Ok(inner),
        Handle::Shared { fd_id, size_bytes, _pd } => match region {
            None => Err(HandleError::NotMapped),
            Some(bytes) => {
                let shared: Handle<Tensor> = Handle::shared(fd_id, size_bytes);
                tensor_from_region(&shared, bytes)
            },
        },
    }
}

/// A valid tensor comes out as it went in, whichever way it travels:
/// what is taken behind the handle that `export_spec` gives, from the
/// region that `export_spec` fills, is the tensor.
pub proof fn lemma_transport_round_trip(
    kind: TransportKind,
    next_id: u64,
    t: TensorView,
    r: Result<TensorView, HandleError>,
)
    requires
        t.wf(),
        tensor_bytes(t).len() <= u64::MAX,
        import_spec(export_spec(kind, next_id, t).0, export_spec(kind, next_id, t).1, r),
    ensures
        r == Ok::<TensorView, HandleError>(t),
{
    if kind == TransportKind::SharedMemory {
        lemma_region_round_trip(t, FdId(next_id), r);
    }
}

/// The two ends of a connection.
#[derive(Debug, PartialEq, Eq, Clone, Copy, Structural)]
pub enum Peer {
    Orchestrator,
    Runner,
}

/// What is known of a region: its length and who still holds it.
#[derive(Debug, PartialEq, Eq, Clone, Copy, Structural)]
pub struct Region {
    pub size_bytes: u64,
    pub held_by_orchestrator: bool,
    pub held_by_runner: bool,
}

/// What giving up a region leads to.
#[derive(Debug, PartialEq, Eq, Clone, Copy, Structural)]
pub enum Release {
    /// No such region is open.
    Unknown,
    /// The other peer still holds the region: it stays mapped.
    StillHeld,
    /// The last holder is gone: the region is to be closed, and its id
    /// stands for nothing from now on.
    Close,
}

/// The region after `peer` has given it up.
pub open spec fn without_peer(r: Region, peer: Peer) -> Region {
    match peer {
        Peer::Orchestrator => Region { held_by_orchestrator: false, ..r },
        Peer::Runner => Region { held_by_runner: false, ..r },
    }
}

/// What giving up a region does to the table, and what is to be done.
pub open spec fn release_spec(regions: Map<u64, Region>, fd_id: FdId, peer: Peer) -> (
    Map<u64, Region>,
    Release,
) {
    if !regions.contains_key(fd_id.0) {
        (regions, Release::Unknown)
    } else {
        let left = without_peer(regions[fd_id.0], peer);
        if left.held_by_orchestrator || left.held_by_runner {
            (regions.insert(fd_id.0, left), Release::StillHeld)
        } else {
            (regions.remove(fd_id.0), Release::Close)
        }
    }
}

/// The shared regions that are open in one session.
pub struct RegionTable {
    regions: Registry<Region>,
}

impl View for RegionTable {
    type V = Map<u64, Region>;

    closed spec fn view(&self) -> Map<u64, Region> {
        self.regions@.entries
    }
}

impl RegionTable {
    /// The table is in order. Every value that `new` made and the
    /// methods below changed is so.
    pub closed spec fn wf(&self) -> bool {
        self.regions.wf()
    }

    /// The id that the next region will get.
    pub closed spec fn next_id(&self) -> u64 {
        self.regions@.next
    }

    /// A session without any region.
    pub fn new() -> (t: Self)
        ensures
            t.wf(),
            t@ == Map::<u64, Region>::empty(),
            t.next_id() == 0,
    {
        RegionTable { regions: Registry::new() }
    }

    /// Enters a region of `size_bytes` bytes that its writer has filled
    /// and returns the handle to send. Both peers hold the region from
    /// now on. Its id is one that no region of this session has had.
    /// `None` only where the session has used up all ids.
    pub fn open<T>(&mut self, size_bytes: u64) -> (r: Option<Handle<T>>)
        requires
            old(self).wf(),
        ensures
            final(self).wf(),
            match r {
                Some(h) => h == Handle::<T>::Shared {
                    fd_id: FdId(old(self).next_id()),
                    size_bytes,
                    _pd: std::marker::PhantomData,
                } && !old(self)@.contains_key(old(self).next_id()) && final(self)@ == old(
                    self,
                )@.insert(
                    old(self).next_id(),
                    Region { size_bytes, held_by_orchestrator: true, held_by_runner: true },
                ) && final(self).next_id() == old(self).next_id() + 1,
                None => old(self).next_id() == u64::MAX && final(self)@ == old(self)@
                    && final(self).next_id() == old(self).next_id(),
            },
    {
        proof {
            if self@.contains_key(self.regions@.next) {
                self.regions.lemma_keys_below_next(self.regions@.next);
            }
        }
        let region = Region { size_bytes, held_by_orchestrator: true, held_by_runner: true };
        match self.regions.register(region) {
            Ok(k) => Some(Handle::shared(FdId(k), size_bytes)),
            Err(_) => None,
        }
    }

    /// What is known of the region `fd_id`.
    pub fn get(&self, fd_id: FdId) -> (r: Option<Region>)
        requires
            self.wf(),
        ensures
            match r {
                Some(region) => self@.contains_key(fd_id.0) && self@[fd_id.0] == region,
                None => !self@.contains_key(fd_id.0),
            },
    {
        match self.regions.get(fd_id.0) {
            Some(r) => Some(*r),
            None => None,
        }
    }

    /// Notes that `peer` has given up the region `fd_id`. The region is
    /// closed when, and only when, the last of its holders has given it
    /// up.
    pub fn release(&mut self, fd_id: FdId, peer: Peer) -> (r: Release)
        requires
            old(self).wf(),
        ensures
            final(self).wf(),
            final(self).next_id() == old(self).next_id(),
            (final(self)@, r) == release_spec(old(self)@, fd_id, peer),
    {
        let ghost before = self@;
        proof {
            if self@.contains_key(fd_id.0) {
                self.regions.lemma_keys_below_next(fd_id.0);
            }
        }
        let region = match self.regions.remove(fd_id.0) {
            Some(r) => r,
            None => {
                return Release::Unknown;
            },
        };
        let left = match peer {
            Peer::Orchestrator => Region {
                size_bytes: region.size_bytes,
                held_by_orchestrator: false,
                held_by_runner: region.held_by_runner,
            },
            Peer::Runner => Region {
                size_bytes: region.size_bytes,
                held_by_orchestrator: region.held_by_orchestrator,
                held_by_runner: false,
            },
        };
        if left.held_by_orchestrator || left.held_by_runner {
            self.regions.put_back(fd_id.0, left);
            assert(self@ =~= before.insert(fd_id.0, left));
            Release::StillHeld
        } else {
            Release::Close
        }
    }
}

} // verus!
