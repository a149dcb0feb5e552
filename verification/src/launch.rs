//! Fixed-size records of CUDA kernel launches observed on the host.

use crate::bytes::{
    le16_bytes, le16_round_trip, le32_bytes, le32_round_trip, le64_bytes, le64_round_trip, le_u16,
    le_u32, le_u64, put_u16, put_u32, put_u64, spec_le16, spec_le32, spec_le64,
};
use vstd::prelude::*;

verus! {

/// `GPOB` in little-endian byte order.
pub const CUDA_LAUNCH_MAGIC: u32 = 0x424f_5047;

pub const CUDA_LAUNCH_ABI_VERSION: u16 = 1;

pub const CUDA_LAUNCH_EVENT_BYTES: usize = 88;

pub struct LaunchFlags;

impl LaunchFlags {
    pub const STREAM_VALID: u32 = 1;

    pub const DROPPED_BEFORE: u32 = 2;

    /// The launch entered through `cuLaunchKernelEx` with a launch config.
    pub const EXTENDED_CONFIG: u32 = 4;
}

/// One kernel launch. The sequence counts attempts on one CPU, so a gap means
/// that records were lost.
#[derive(Clone, Copy, Debug, Default, PartialEq, Eq, Structural)]
pub struct CudaLaunchEvent {
    pub timestamp_ns: u64,
    pub sequence: u64,
    pub kernel_function: u64,
    pub stream: u64,
    pub pid: u32,
    pub tid: u32,
    pub cpu_id: u32,
    pub shared_memory_bytes: u32,
    pub grid_x: u32,
    pub grid_y: u32,
    pub grid_z: u32,
    pub block_x: u32,
    pub block_y: u32,
    pub block_z: u32,
    pub magic: u32,
    pub flags: u32,
    pub abi_version: u16,
    pub record_size: u16,
    pub reserved: u32,
}

#[derive(Clone, Copy, Debug, PartialEq, Eq, Structural)]
pub enum DecodeError {
    Length,
    Magic,
    Version,
    RecordSize,
}

impl CudaLaunchEvent {
    pub fn new(
        timestamp_ns: u64,
        sequence: u64,
        kernel_function: u64,
        stream: u64,
        pid: u32,
        tid: u32,
        cpu_id: u32,
        shared_memory_bytes: u32,
        grid_x: u32,
        grid_y: u32,
        grid_z: u32,
        block_x: u32,
        block_y: u32,
        block_z: u32,
        flags: u32,
    ) -> (event: Self)
        ensures
            event == (CudaLaunchEvent {
                timestamp_ns,
                sequence,
                kernel_function,
                stream,
                pid,
                tid,
                cpu_id,
                shared_memory_bytes,
                grid_x,
                grid_y,
                grid_z,
                block_x,
                block_y,
                block_z,
                magic: CUDA_LAUNCH_MAGIC,
                flags,
                abi_version: CUDA_LAUNCH_ABI_VERSION,
                record_size: 88,
                reserved: 0,
            }),
            event.valid(),
    {
        CudaLaunchEvent {
            timestamp_ns,
            sequence,
            kernel_function,
            stream,
            pid,
            tid,
            cpu_id,
            shared_memory_bytes,
            grid_x,
            grid_y,
            grid_z,
            block_x,
            block_y,
            block_z,
            magic: CUDA_LAUNCH_MAGIC,
            flags,
            abi_version: CUDA_LAUNCH_ABI_VERSION,
            record_size: 88,
            reserved: 0,
        }
    }

    pub open spec fn flagged(self, flag: u32) -> bool {
        self.flags & flag != 0
    }

    pub fn has_flag(&self, flag: u32) -> (r: bool)
        ensures
            r == self.flagged(flag),
    {
        self.flags & flag != 0
    }

    /// Whether the magic, the version and the size are those of this format.
    pub open spec fn valid(self) -> bool {
        &&& self.magic == CUDA_LAUNCH_MAGIC
        &&& self.abi_version == CUDA_LAUNCH_ABI_VERSION
        &&& self.record_size == CUDA_LAUNCH_EVENT_BYTES
    }

    /// The fields as they lie in the bytes of a record.
    pub open spec fn from_wire(s: Seq<u8>) -> CudaLaunchEvent {
        CudaLaunchEvent {
            timestamp_ns: spec_le64(s, 0),
            sequence: spec_le64(s, 8),
            kernel_function: spec_le64(s, 16),
            stream: spec_le64(s, 24),
            pid: spec_le32(s, 32),
            tid: spec_le32(s, 36),
            cpu_id: spec_le32(s, 40),
            shared_memory_bytes: spec_le32(s, 44),
            grid_x: spec_le32(s, 48),
            grid_y: spec_le32(s, 52),
            grid_z: spec_le32(s, 56),
            block_x: spec_le32(s, 60),
            block_y: spec_le32(s, 64),
            block_z: spec_le32(s, 68),
            magic: spec_le32(s, 72),
            flags: spec_le32(s, 76),
            abi_version: spec_le16(s, 80),
            record_size: spec_le16(s, 82),
            reserved: spec_le32(s, 84),
        }
    }

    /// What decoding the bytes gives: the first check that fails, or the record.
    pub open spec fn decoded(s: Seq<u8>) -> Result<CudaLaunchEvent, DecodeError> {
        let event = CudaLaunchEvent::from_wire(s);
        if s.len() != CUDA_LAUNCH_EVENT_BYTES {
            Err(DecodeError::Length)
        } else if event.magic != CUDA_LAUNCH_MAGIC {
            Err(DecodeError::Magic)
        } else if event.abi_version != CUDA_LAUNCH_ABI_VERSION {
            Err(DecodeError::Version)
        } else if event.record_size != CUDA_LAUNCH_EVENT_BYTES {
            Err(DecodeError::RecordSize)
        } else {
            Ok(event)
        }
    }

    /// Reads a record and validates its magic, version and size.
    pub fn decode(bytes: &[u8]) -> (r: Result<Self, DecodeError>)
        ensures
            r == CudaLaunchEvent::decoded(bytes@),
    {
        if bytes.len() != CUDA_LAUNCH_EVENT_BYTES {
            return Err(DecodeError::Length);
        }
        let event = CudaLaunchEvent {
            timestamp_ns: le_u64(bytes, 0),
            sequence: le_u64(bytes, 8),
            kernel_function: le_u64(bytes, 16),
            stream: le_u64(bytes, 24),
            pid: le_u32(bytes, 32),
            tid: le_u32(bytes, 36),
            cpu_id: le_u32(bytes, 40),
            shared_memory_bytes: le_u32(bytes, 44),
            grid_x: le_u32(bytes, 48),
            grid_y: le_u32(bytes, 52),
            grid_z: le_u32(bytes, 56),
            block_x: le_u32(bytes, 60),
            block_y: le_u32(bytes, 64),
            block_z: le_u32(bytes, 68),
            magic: le_u32(bytes, 72),
            flags: le_u32(bytes, 76),
            abi_version: le_u16(bytes, 80),
            record_size: le_u16(bytes, 82),
            reserved: le_u32(bytes, 84),
        };
        if event.magic != CUDA_LAUNCH_MAGIC {
            return Err(DecodeError::Magic);
        }
        if event.abi_version != CUDA_LAUNCH_ABI_VERSION {
            return Err(DecodeError::Version);
        }
        if event.record_size as usize != CUDA_LAUNCH_EVENT_BYTES {
            return Err(DecodeError::RecordSize);
        }
        Ok(event)
    }

    /// The bytes of a record.
    pub open spec fn wire(self) -> Seq<u8> {
        le64_bytes(self.timestamp_ns) + le64_bytes(self.sequence) + le64_bytes(self.kernel_function)
            + le64_bytes(self.stream) + le32_bytes(self.pid) + le32_bytes(self.tid) + le32_bytes(
            self.cpu_id,
        ) + le32_bytes(self.shared_memory_bytes) + le32_bytes(self.grid_x) + le32_bytes(self.grid_y)
            + le32_bytes(self.grid_z) + le32_bytes(self.block_x) + le32_bytes(self.block_y)
            + le32_bytes(self.block_z) + le32_bytes(self.magic) + le32_bytes(self.flags)
            + le16_bytes(self.abi_version) + le16_bytes(self.record_size) + le32_bytes(
            self.reserved,
        )
    }

    /// Writes the record in the layout that `decode` reads.
    pub fn encode(&self) -> (bytes: Vec<u8>)
        ensures
            bytes@ == self.wire(),
    {
        let mut out: Vec<u8> = Vec::new();
        put_u64(&mut out, self.timestamp_ns);
        put_u64(&mut out, self.sequence);
        put_u64(&mut out, self.kernel_function);
        put_u64(&mut out, self.stream);
        put_u32(&mut out, self.pid);
        put_u32(&mut out, self.tid);
        put_u32(&mut out, self.cpu_id);
        put_u32(&mut out, self.shared_memory_bytes);
        put_u32(&mut out, self.grid_x);
        put_u32(&mut out, self.grid_y);
        put_u32(&mut out, self.grid_z);
        put_u32(&mut out, self.block_x);
        put_u32(&mut out, self.block_y);
        put_u32(&mut out, self.block_z);
        put_u32(&mut out, self.magic);
        put_u32(&mut out, self.flags);
        put_u16(&mut out, self.abi_version);
        put_u16(&mut out, self.record_size);
        put_u32(&mut out, self.reserved);
        assert(out@ =~= self.wire());
        out
    }
}

/// A record is read back from its bytes as it was written.
#[verifier::rlimit(40)]
pub proof fn wire_round_trips(event: CudaLaunchEvent)
    ensures
        event.wire().len() == CUDA_LAUNCH_EVENT_BYTES,
        CudaLaunchEvent::from_wire(event.wire()) == event,
        event.valid() ==> CudaLaunchEvent::decoded(event.wire()) == Ok::<
            CudaLaunchEvent,
            DecodeError,
        >(event),
{
    let s = event.wire();
    assert(s.subrange(0, 8) =~= le64_bytes(event.timestamp_ns));
    assert(s.subrange(8, 16) =~= le64_bytes(event.sequence));
    assert(s.subrange(16, 24) =~= le64_bytes(event.kernel_function));
    assert(s.subrange(24, 32) =~= le64_bytes(event.stream));
    assert(s.subrange(32, 36) =~= le32_bytes(event.pid));
    assert(s.subrange(36, 40) =~= le32_bytes(event.tid));
    assert(s.subrange(40, 44) =~= le32_bytes(event.cpu_id));
    assert(s.subrange(44, 48) =~= le32_bytes(event.shared_memory_bytes));
    assert(s.subrange(48, 52) =~= le32_bytes(event.grid_x));
    assert(s.subrange(52, 56) =~= le32_bytes(event.grid_y));
    assert(s.subrange(56, 60) =~= le32_bytes(event.grid_z));
    assert(s.subrange(60, 64) =~= le32_bytes(event.block_x));
    assert(s.subrange(64, 68) =~= le32_bytes(event.block_y));
    assert(s.subrange(68, 72) =~= le32_bytes(event.block_z));
    assert(s.subrange(72, 76) =~= le32_bytes(event.magic));
    assert(s.subrange(76, 80) =~= le32_bytes(event.flags));
    assert(s.subrange(80, 82) =~= le16_bytes(event.abi_version));
    assert(s.subrange(82, 84) =~= le16_bytes(event.record_size));
    assert(s.subrange(84, 88) =~= le32_bytes(event.reserved));
    le64_round_trip(s, 0, event.timestamp_ns);
    le64_round_trip(s, 8, event.sequence);
    le64_round_trip(s, 16, event.kernel_function);
    le64_round_trip(s, 24, event.stream);
    le32_round_trip(s, 32, event.pid);
    le32_round_trip(s, 36, event.tid);
    le32_round_trip(s, 40, event.cpu_id);
    le32_round_trip(s, 44, event.shared_memory_bytes);
    le32_round_trip(s, 48, event.grid_x);
    le32_round_trip(s, 52, event.grid_y);
    le32_round_trip(s, 56, event.grid_z);
    le32_round_trip(s, 60, event.block_x);
    le32_round_trip(s, 64, event.block_y);
    le32_round_trip(s, 68, event.block_z);
    le32_round_trip(s, 72, event.magic);
    le32_round_trip(s, 76, event.flags);
    le16_round_trip(s, 80, event.abi_version);
    le16_round_trip(s, 82, event.record_size);
    le32_round_trip(s, 84, event.reserved);
}

/// What one CPU remembers between the launches it observes.
#[derive(Clone, Copy, Debug, Default, PartialEq, Eq, Structural)]
pub struct ProbeState {
    pub next_sequence: u64,
    pub dropped_pending: bool,
}

impl ProbeState {
    /// The sequence and flags of the next record. The sequence advances for
    /// every attempt, so a record that finds no room leaves a gap.
    pub fn attempt(&mut self, stream_valid: bool, extended: bool) -> (r: (u64, u32))
        ensures
            r.0 == old(self).next_sequence,
            final(self).next_sequence == old(self).next_sequence.wrapping_add(1),
            final(self).dropped_pending == old(self).dropped_pending,
            r.1 == (if stream_valid || extended {
                LaunchFlags::STREAM_VALID
            } else {
                0
            }) + (if extended {
                LaunchFlags::EXTENDED_CONFIG
            } else {
                0
            }) + (if old(self).dropped_pending {
                LaunchFlags::DROPPED_BEFORE
            } else {
                0
            }),
    {
        let sequence: u64 = self.next_sequence;
        self.next_sequence = self.next_sequence.wrapping_add(1);
        let mut flags: u32 = 0;
        if stream_valid || extended {
            flags = flags + LaunchFlags::STREAM_VALID;
        }
        if extended {
            flags = flags + LaunchFlags::EXTENDED_CONFIG;
        }
        if self.dropped_pending {
            flags = flags + LaunchFlags::DROPPED_BEFORE;
        }
        (sequence, flags)
    }

    /// Notes whether the record of the last attempt found room.
    pub fn settle(&mut self, published: bool)
        ensures
            final(self).next_sequence == old(self).next_sequence,
            final(self).dropped_pending == !published,
    {
        self.dropped_pending = !published;
    }
}

/// What a capture of launch records saw.
#[derive(Clone, Copy, Debug, Default, PartialEq, Eq, Structural)]
pub struct LaunchTally {
    pub events: u64,
    pub regular: u64,
    pub extended: u64,
    pub malformed: u64,
    pub loss_markers: u64,
}

pub open spec fn saturating_next(count: u64) -> u64 {
    if count < u64::MAX {
        (count + 1) as u64
    } else {
        u64::MAX
    }
}

impl LaunchTally {
    pub open spec fn with(self, outcome: Result<CudaLaunchEvent, DecodeError>) -> LaunchTally {
        match outcome {
            Err(_) => LaunchTally { malformed: saturating_next(self.malformed), ..self },
            Ok(event) => LaunchTally {
                events: saturating_next(self.events),
                regular: if event.flagged(LaunchFlags::EXTENDED_CONFIG) {
                    self.regular
                } else {
                    saturating_next(self.regular)
                },
                extended: if event.flagged(LaunchFlags::EXTENDED_CONFIG) {
                    saturating_next(self.extended)
                } else {
                    self.extended
                },
                loss_markers: if event.flagged(LaunchFlags::DROPPED_BEFORE) {
                    saturating_next(self.loss_markers)
                } else {
                    self.loss_markers
                },
                ..self
            },
        }
    }

    /// Counts the record, or the failure to decode it.
    pub fn record(&mut self, outcome: &Result<CudaLaunchEvent, DecodeError>)
        ensures
            *final(self) == old(self).with(*outcome),
    {
        match outcome {
            Err(_) => {
                self.malformed = self.malformed.saturating_add(1);
            },
            Ok(event) => {
                self.events = self.events.saturating_add(1);
                if event.has_flag(LaunchFlags::EXTENDED_CONFIG) {
                    self.extended = self.extended.saturating_add(1);
                } else {
                    self.regular = self.regular.saturating_add(1);
                }
                if event.has_flag(LaunchFlags::DROPPED_BEFORE) {
                    self.loss_markers = self.loss_markers.saturating_add(1);
                }
            },
        }
    }
}

} // verus!
