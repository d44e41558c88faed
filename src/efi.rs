//! The firmware's side of the handoff: status codes, the memory map as the
//! firmware writes it, and the decisions of the exit handshake.
use vstd::prelude::*;

verus! {

/// Capacity of the buffer the memory map is captured into (32 KiB).
pub const MEMORY_MAP_BUFFER_SIZE: usize = 32768;

/// Bytes of a memory descriptor's own fields; the firmware may space
/// descriptors further apart than this.
pub const DESCRIPTOR_SIZE: usize = 40;

/// Region type of memory that is free for the operating system to use.
pub const EFI_CONVENTIONAL_MEMORY: u32 = 7;

/// What a firmware call reports.
#[derive(Debug, Clone, Copy, PartialEq, Eq, Structural)]
pub enum EfiStatus {
    Success,
    Error(u64),
}

impl EfiStatus {
    /// Reads a raw status word: zero is success, anything else an error.
    pub fn from_raw(raw: u64) -> (s: EfiStatus)
        ensures
            raw == 0 ==> s == EfiStatus::Success,
            raw != 0 ==> s == EfiStatus::Error(raw),
    {
        if raw == 0 {
            EfiStatus::Success
        } else {
            EfiStatus::Error(raw)
        }
    }
}

/// One region of physical memory, as the firmware describes it.
#[derive(Debug, Clone, Copy, PartialEq, Eq, Structural)]
pub struct EfiMemoryDescriptor {
    pub memory_type: u32,
    pub padding: u32,
    pub physical_start: u64,
    pub virtual_start: u64,
    pub number_of_pages: u64,
    pub attribute: u64,
}

/// Little-endian value of the four bytes at `off`.
pub open spec fn le_u32(s: Seq<u8>, off: int) -> int {
    s[off] + 0x100 * s[off + 1] + 0x1_0000 * s[off + 2] + 0x100_0000 * s[off + 3]
}

/// Little-endian value of the eight bytes at `off`.
pub open spec fn le_u64(s: Seq<u8>, off: int) -> int {
    le_u32(s, off) + 0x1_0000_0000 * le_u32(s, off + 4)
}

/// The descriptor encoded by the first `DESCRIPTOR_SIZE` bytes of `b`.
pub open spec fn descriptor_from_bytes(b: Seq<u8>) -> EfiMemoryDescriptor {
    EfiMemoryDescriptor {
        memory_type: le_u32(b, 0) as u32,
        padding: le_u32(b, 4) as u32,
        physical_start: le_u64(b, 8) as u64,
        virtual_start: le_u64(b, 16) as u64,
        number_of_pages: le_u64(b, 24) as u64,
        attribute: le_u64(b, 32) as u64,
    }
}

/// The descriptor whose bytes start at `off`; only its own
/// `DESCRIPTOR_SIZE` bytes are read.
pub open spec fn descriptor_at(s: Seq<u8>, off: int) -> EfiMemoryDescriptor {
    descriptor_from_bytes(s.subrange(off, off + DESCRIPTOR_SIZE))
}

fn read_u32_le(b: &[u8], off: usize) -> (r: u32)
    requires
        off + 4 <= b.len(),
    ensures
        r == le_u32(b@, off as int),
{
    let v: u32 = b[off + 3] as u32;
    let v: u32 = v * 0x100 + b[off + 2] as u32;
    let v: u32 = v * 0x100 + b[off + 1] as u32;
    v * 0x100 + b[off] as u32
}

fn read_u64_le(b: &[u8], off: usize) -> (r: u64)
    requires
        off + 8 <= b.len(),
    ensures
        r == le_u64(b@, off as int),
{
    let lo = read_u32_le(b, off) as u64;
    let hi = read_u32_le(b, off + 4) as u64;
    hi * 0x1_0000_0000 + lo
}

/// Working buffer for one capture of the firmware's memory map.
pub struct MemoryMapHolder {
    pub memory_map_buffer: [u8; MEMORY_MAP_BUFFER_SIZE],
    /// Bytes of the buffer that the firmware filled.
    pub memory_map_size: usize,
    /// Freshness key of the capture.
    pub map_key: usize,
    /// Distance in bytes between consecutive descriptors.
    pub descriptor_size: usize,
    pub descriptor_version: u32,
}

impl MemoryMapHolder {
    /// The filled part of the buffer can be read as descriptors spaced
    /// `descriptor_size` apart.
    pub open spec fn readable(&self) -> bool {
        &&& DESCRIPTOR_SIZE <= self.descriptor_size
        &&& self.memory_map_size <= self.memory_map_buffer@.len()
    }

    /// Number of descriptors in the capture: the filled bytes over the stride.
    pub open spec fn spec_descriptor_count(&self) -> nat {
        (self.memory_map_size / self.descriptor_size) as nat
    }

    /// The descriptors of the capture, in the order the firmware wrote them.
    pub open spec fn descriptors(&self) -> Seq<EfiMemoryDescriptor> {
        Seq::new(
            self.spec_descriptor_count(),
            |i: int| descriptor_at(self.memory_map_buffer@, i * self.descriptor_size),
        )
    }

    /// An empty holder with a zeroed buffer of `MEMORY_MAP_BUFFER_SIZE` bytes.
    pub fn new() -> (h: Self)
        ensures
            h.memory_map_buffer@ == Seq::new(MEMORY_MAP_BUFFER_SIZE as nat, |i: int| 0u8),
            h.memory_map_size == 0,
            h.map_key == 0,
            h.descriptor_size == 0,
            h.descriptor_version == 0,
    {
        let buffer = [0u8; MEMORY_MAP_BUFFER_SIZE];
        assert(buffer@ =~= Seq::new(MEMORY_MAP_BUFFER_SIZE as nat, |i: int| 0u8));
        MemoryMapHolder {
            memory_map_buffer: buffer,
            memory_map_size: 0,
            map_key: 0,
            descriptor_size: 0,
            descriptor_version: 0,
        }
    }

    /// Offers the whole buffer to the next map query: the firmware reads the
    /// size field as the capacity it may fill, so it is reset before each call.
    pub fn prepare_query(&mut self)
        ensures
            final(self).memory_map_size == old(self).memory_map_buffer@.len(),
            final(self).memory_map_buffer@ == old(self).memory_map_buffer@,
            final(self).map_key == old(self).map_key,
            final(self).descriptor_size == old(self).descriptor_size,
            final(self).descriptor_version == old(self).descriptor_version,
    {
        self.memory_map_size = MEMORY_MAP_BUFFER_SIZE;
    }

    /// Number of descriptors in the capture.
    pub fn descriptor_count(&self) -> (n: usize)
        requires
            self.descriptor_size > 0,
        ensures
            n == self.spec_descriptor_count(),
    {
        self.memory_map_size / self.descriptor_size
    }

    /// The `i`-th descriptor, read at `i * descriptor_size`.
    pub fn descriptor(&self, i: usize) -> (d: EfiMemoryDescriptor)
        requires
            self.readable(),
            i < self.spec_descriptor_count(),
        ensures
            d == self.descriptors()[i as int],
    {
        let stride = self.descriptor_size;
        proof {
            let n = self.spec_descriptor_count() as int;
            assert(i * stride + stride <= n * stride) by (nonlinear_arith)
                requires
                    i < n,
                    stride > 0,
            ;
            assert(n * stride <= self.memory_map_size) by (nonlinear_arith)
                requires
                    n == self.memory_map_size / stride,
                    stride > 0,
            ;
        }
        let off = i * stride;
        let b = self.memory_map_buffer.as_slice();
        let ghost window = b@.subrange(off as int, off + DESCRIPTOR_SIZE);
        assert(forall|k: int| 0 <= k < DESCRIPTOR_SIZE ==> #[trigger] window[k] == b@[off + k]);
        EfiMemoryDescriptor {
            memory_type: read_u32_le(b, off),
            padding: read_u32_le(b, off + 4),
            physical_start: read_u64_le(b, off + 8),
            virtual_start: read_u64_le(b, off + 16),
            number_of_pages: read_u64_le(b, off + 24),
            attribute: read_u64_le(b, off + 32),
        }
    }
}

/// Where the exit handshake stands.
#[derive(Debug, Clone, Copy, PartialEq, Eq, Structural)]
pub enum ExitPhase {
    /// Nothing asked of the firmware yet.
    Idle,
    /// A memory-map query is out.
    MapRequested,
    /// An exit was asked for with the key of the latest capture.
    ExitRequested { map_key: usize },
    /// The firmware let go; its services are gone.
    ExitAccepted,
}

/// What the caller reports back to the handshake.
#[derive(Debug, Clone, Copy, PartialEq, Eq, Structural)]
pub enum FirmwareEvent {
    /// The caller is ready to hand over.
    Start,
    /// The memory-map query returned `status`, with the capture's key.
    MapCaptured { status: EfiStatus, map_key: usize },
    /// The exit request returned `status`.
    ExitAnswered { status: EfiStatus },
}

/// What the caller must do next.
#[derive(Debug, Clone, Copy, PartialEq, Eq, Structural)]
pub enum FirmwareAction {
    /// Capture the memory map into the full buffer.
    GetMemoryMap,
    /// Ask the firmware to exit, presenting `map_key`.
    ExitBootServices { map_key: usize },
    /// The handoff is complete: no firmware call may follow.
    Done,
}

/// Why the handshake cannot go on.
#[derive(Debug, Clone, Copy, PartialEq, Eq, Structural)]
pub enum HandshakeError {
    /// The memory-map query failed; there is no recovery.
    MapQueryFailed { status: EfiStatus },
    /// The event does not answer the action that is out.
    UnexpectedEvent,
}

/// The handshake's rule: the next phase and what to do, given the phase and
/// what the firmware answered.
pub open spec fn handshake_step(
    phase: ExitPhase,
    event: FirmwareEvent,
) -> (ExitPhase, Result<FirmwareAction, HandshakeError>) {
    match (phase, event) {
        (ExitPhase::Idle, FirmwareEvent::Start) => (
            ExitPhase::MapRequested,
            Ok(FirmwareAction::GetMemoryMap),
        ),
        (ExitPhase::MapRequested, FirmwareEvent::MapCaptured { status, map_key }) => {
            if status == EfiStatus::Success {
                (ExitPhase::ExitRequested { map_key }, Ok(FirmwareAction::ExitBootServices { map_key }))
            } else {
                (phase, Err(HandshakeError::MapQueryFailed { status }))
            }
        },
        (ExitPhase::ExitRequested { .. }, FirmwareEvent::ExitAnswered { status }) => {
            if status == EfiStatus::Success {
                (ExitPhase::ExitAccepted, Ok(FirmwareAction::Done))
            } else {
                (ExitPhase::MapRequested, Ok(FirmwareAction::GetMemoryMap))
            }
        },
        _ => (phase, Err(HandshakeError::UnexpectedEvent)),
    }
}

/// The decisions of the exit protocol: capture the map, ask to exit with its
/// key, and on a stale key capture again, until the firmware accepts.
pub struct ExitHandshake {
    pub phase: ExitPhase,
}

impl ExitHandshake {
    pub fn new() -> (h: Self)
        ensures
            h.phase == ExitPhase::Idle,
    {
        ExitHandshake { phase: ExitPhase::Idle }
    }

    /// Takes the firmware's answer to the last action and says what to do
    /// next. An error leaves the phase as it was.
    pub fn step(&mut self, event: FirmwareEvent) -> (r: Result<FirmwareAction, HandshakeError>)
        ensures
            (final(self).phase, r) == handshake_step(old(self).phase, event),
    {
        match (self.phase, event) {
            (ExitPhase::Idle, FirmwareEvent::Start) => {
                self.phase = ExitPhase::MapRequested;
                Ok(FirmwareAction::GetMemoryMap)
            },
            (ExitPhase::MapRequested, FirmwareEvent::MapCaptured { status, map_key }) => {
                match status {
                    EfiStatus::Success => {
                        self.phase = ExitPhase::ExitRequested { map_key };
                        Ok(FirmwareAction::ExitBootServices { map_key })
                    },
                    EfiStatus::Error(_) => Err(HandshakeError::MapQueryFailed { status }),
                }
            },
            (ExitPhase::ExitRequested { .. }, FirmwareEvent::ExitAnswered { status }) => {
                match status {
                    EfiStatus::Success => {
                        self.phase = ExitPhase::ExitAccepted;
                        Ok(FirmwareAction::Done)
                    },
                    EfiStatus::Error(_) => {
                        self.phase = ExitPhase::MapRequested;
                        Ok(FirmwareAction::GetMemoryMap)
                    },
                }
            },
            _ => Err(HandshakeError::UnexpectedEvent),
        }
    }
}

/// Once the firmware has accepted the exit, the handshake asks for no
/// further firmware call, whatever is reported to it; and it says `Done`
/// only on the step where the firmware accepts.
pub proof fn lemma_no_firmware_call_after_exit(phase: ExitPhase, event: FirmwareEvent)
    ensures
        phase == ExitPhase::ExitAccepted ==> handshake_step(phase, event) == (
            phase,
            Err::<FirmwareAction, HandshakeError>(HandshakeError::UnexpectedEvent),
        ),
        handshake_step(phase, event).1 == Ok::<FirmwareAction, HandshakeError>(FirmwareAction::Done)
            <==> (phase is ExitRequested && event == FirmwareEvent::ExitAnswered {
            status: EfiStatus::Success,
        }),
        handshake_step(phase, event).0 == ExitPhase::ExitAccepted ==> (phase == ExitPhase::ExitAccepted
            || handshake_step(phase, event).1 == Ok::<FirmwareAction, HandshakeError>(
            FirmwareAction::Done,
        )),
{
}

/// A rejected exit leads to a fresh capture, and the next exit request
/// presents the key of that fresh capture, never an older one.
pub proof fn lemma_stale_key_is_replaced(old_key: usize, code: u64, fresh_key: usize)
    requires
        code != 0,
    ensures
        handshake_step(
            ExitPhase::ExitRequested { map_key: old_key },
            FirmwareEvent::ExitAnswered { status: EfiStatus::Error(code) },
        ) == (ExitPhase::MapRequested, Ok::<FirmwareAction, HandshakeError>(FirmwareAction::GetMemoryMap)),
        handshake_step(
            ExitPhase::MapRequested,
            FirmwareEvent::MapCaptured { status: EfiStatus::Success, map_key: fresh_key },
        ) == (
            ExitPhase::ExitRequested { map_key: fresh_key },
            Ok::<FirmwareAction, HandshakeError>(FirmwareAction::ExitBootServices { map_key: fresh_key }),
        ),
{
}

/// Stride independence: the descriptors of a capture depend only on how
/// many there are and on the bytes of each descriptor's own window at the
/// capture's stride. Two captures that agree on those have the same
/// descriptors, whatever their strides and whatever the padding between
/// windows holds; a packed copy at the nominal size is one such capture.
pub proof fn lemma_padding_is_ignored(a: MemoryMapHolder, b: MemoryMapHolder)
    requires
        a.readable(),
        b.readable(),
        a.spec_descriptor_count() == b.spec_descriptor_count(),
        forall|i: int|
            0 <= i < a.spec_descriptor_count() ==> #[trigger] a.memory_map_buffer@.subrange(
                i * a.descriptor_size,
                i * a.descriptor_size + DESCRIPTOR_SIZE,
            ) == b.memory_map_buffer@.subrange(
                i * b.descriptor_size,
                i * b.descriptor_size + DESCRIPTOR_SIZE,
            ),
    ensures
        a.descriptors() == b.descriptors(),
        a.descriptors().len() == a.memory_map_size / a.descriptor_size,
{
    assert forall|i: int| 0 <= i < a.spec_descriptor_count() implies #[trigger] a.descriptors()[i]
        == b.descriptors()[i] by {
        assert(a.memory_map_buffer@.subrange(i * a.descriptor_size, i * a.descriptor_size + DESCRIPTOR_SIZE)
            == b.memory_map_buffer@.subrange(i * b.descriptor_size, i * b.descriptor_size + DESCRIPTOR_SIZE));
    }
    assert(a.descriptors() =~= b.descriptors());
}

} // verus!
