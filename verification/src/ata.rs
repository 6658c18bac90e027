//! Decisions of the ATA PIO driver (28-bit LBA, primary slave).
//!
//! The driver itself reads and writes I/O ports; what it decides from the
//! values it reads, and what it writes for a request, is here.

use vstd::prelude::*;
use crate::block::{BlockError, BLOCK_SIZE};

verus! {

pub const STATUS_ERR: u8 = 0x01;
pub const STATUS_DRQ: u8 = 0x08;
pub const STATUS_DF: u8 = 0x20;
pub const STATUS_BSY: u8 = 0x80;

pub const CMD_READ_SECTORS: u8 = 0x20;
pub const CMD_WRITE_SECTORS: u8 = 0x30;
pub const CMD_IDENTIFY: u8 = 0xEC;

/// The legacy I/O ports the driver addresses: the command block of the
/// primary ATA channel and its device-control register.
pub const ATA_PRIMARY_BASE: u16 = 0x1F0;
pub const ATA_PRIMARY_CTRL: u16 = 0x3F6;

/// How many status reads a wait takes before it gives up.
pub const POLL_LIMIT: usize = 100_000;

/// What one status read tells a waiting driver.
#[derive(Debug, Clone, Copy, PartialEq, Eq, Structural)]
pub enum Poll {
    /// Read the status again.
    Wait,
    /// The drive is ready.
    Ready,
    /// The drive reported an error or a device fault.
    Fault,
}

pub open spec fn busy(s: u8) -> bool {
    s & STATUS_BSY != 0
}

pub open spec fn faulted(s: u8) -> bool {
    s & STATUS_ERR != 0 || s & STATUS_DF != 0
}

pub open spec fn data_requested(s: u8) -> bool {
    s & STATUS_DRQ != 0
}

/// Waiting for the drive to leave the busy state.
pub fn not_busy_step(s: u8) -> (p: Poll)
    ensures
        busy(s) ==> p == Poll::Wait,
        !busy(s) && faulted(s) ==> p == Poll::Fault,
        !busy(s) && !faulted(s) ==> p == Poll::Ready,
{
    if s & STATUS_BSY == 0 {
        if s & STATUS_ERR != 0 || s & STATUS_DF != 0 {
            Poll::Fault
        } else {
            Poll::Ready
        }
    } else {
        Poll::Wait
    }
}

/// Waiting for the drive to request data.
pub fn drq_step(s: u8) -> (p: Poll)
    ensures
        busy(s) ==> p == Poll::Wait,
        !busy(s) && faulted(s) ==> p == Poll::Fault,
        !busy(s) && !faulted(s) && data_requested(s) ==> p == Poll::Ready,
        !busy(s) && !faulted(s) && !data_requested(s) ==> p == Poll::Wait,
{
    if s & STATUS_BSY != 0 {
        Poll::Wait
    } else if s & STATUS_ERR != 0 || s & STATUS_DF != 0 {
        Poll::Fault
    } else if s & STATUS_DRQ != 0 {
        Poll::Ready
    } else {
        Poll::Wait
    }
}

/// Whether an IDENTIFY answer comes from an ATA drive: a status of zero
/// means no drive, a non-zero signature in the LBA mid/high registers means
/// a drive of another kind.
pub fn identify_ok(status: u8, lba_mid: u8, lba_hi: u8) -> (r: Result<(), BlockError>)
    ensures
        status == 0 ==> r == Err::<(), BlockError>(BlockError::DriveError),
        status != 0 && (lba_mid != 0 || lba_hi != 0) ==> r == Err::<(), BlockError>(BlockError::DriveError),
        status != 0 && lba_mid == 0 && lba_hi == 0 ==> r is Ok,
{
    if status == 0 {
        Err(BlockError::DriveError)
    } else if lba_mid != 0 || lba_hi != 0 {
        Err(BlockError::DriveError)
    } else {
        Ok(())
    }
}

/// The 28-bit sector count from words 60 (low) and 61 (high) of the
/// IDENTIFY answer.
pub fn sector_count(lo: u16, hi: u16) -> (n: u32)
    ensures
        n == lo + hi * 0x10000,
{
    let r = (lo as u32) | ((hi as u32) << 16);
    assert(r == lo + hi * 0x10000) by (bit_vector)
        requires
            r == (lo as u32) | ((hi as u32) << 16u32),
    ;
    r
}

/// The drive/head, sector count and LBA low/mid/high register values that
/// select `count` sectors from `lba` on the slave drive in LBA mode.
pub fn lba28_registers(lba: u32, count: u8) -> (r: (u8, u8, u8, u8, u8))
    ensures
        r.0 == 0xF0 + (lba / 0x100_0000) % 16,
        r.1 == count,
        r.2 == lba % 0x100,
        r.3 == (lba / 0x100) % 0x100,
        r.4 == (lba / 0x1_0000) % 0x100,
{
    let head = 0xF0u8 | (((lba >> 24) & 0x0F) as u8);
    let lo = (lba & 0xFF) as u8;
    let mid = ((lba >> 8) & 0xFF) as u8;
    let hi = ((lba >> 16) & 0xFF) as u8;
    assert(head == 0xF0 + (lba / 0x100_0000) % 16) by (bit_vector)
        requires
            head == 0xF0u8 | (((lba >> 24u32) & 0x0Fu32) as u8),
    ;
    assert(lo == lba % 0x100) by (bit_vector)
        requires
            lo == (lba & 0xFFu32) as u8,
    ;
    assert(mid == (lba / 0x100) % 0x100) by (bit_vector)
        requires
            mid == ((lba >> 8u32) & 0xFFu32) as u8,
    ;
    assert(hi == (lba / 0x1_0000) % 0x100) by (bit_vector)
        requires
            hi == ((lba >> 16u32) & 0xFFu32) as u8,
    ;
    (head, count, lo, mid, hi)
}

/// Whether a one-block request at `lba` with a buffer of `buf_len` bytes
/// fits a drive of `sectors` sectors.
pub fn check_request(lba: u64, sectors: u32, buf_len: usize) -> (r: Result<(), BlockError>)
    ensures
        r is Ok <==> lba < sectors && buf_len >= 512,
        r is Err ==> r == Err::<(), BlockError>(BlockError::OutOfRange),
{
    if lba >= sectors as u64 {
        return Err(BlockError::OutOfRange);
    }
    if buf_len < BLOCK_SIZE {
        return Err(BlockError::OutOfRange);
    }
    Ok(())
}

/// The data-port word carrying the bytes `lo`, `hi` (little-endian).
pub fn word_of(lo: u8, hi: u8) -> (w: u16)
    ensures
        w == lo + hi * 0x100,
{
    let w = (lo as u16) | ((hi as u16) << 8);
    assert(w == lo + hi * 0x100) by (bit_vector)
        requires
            w == (lo as u16) | ((hi as u16) << 8u16),
    ;
    w
}

/// The bytes of the data-port word `w`, low first.
pub fn bytes_of(w: u16) -> (r: (u8, u8))
    ensures
        r.0 == w % 0x100,
        r.1 == w / 0x100,
        w == r.0 + r.1 * 0x100,
{
    let lo = w as u8;
    let hi = (w >> 8) as u8;
    assert(lo == w % 0x100 && hi == w / 0x100) by (bit_vector)
        requires
            lo == w as u8,
            hi == (w >> 8u16) as u8,
    ;
    (lo, hi)
}

/// Whether the data disk has been probed and identified. Setting it up is
/// idempotent: the probe runs until it first succeeds, and never after.
pub struct DriveSetup {
    pub done: bool,
}

impl DriveSetup {
    /// Nothing probed yet.
    pub fn new() -> (s: Self)
        ensures
            !s.done,
    {
        DriveSetup { done: false }
    }

    /// Whether setting up the drive has to probe it: only while no probe
    /// has succeeded.
    pub fn needs_probe(&self) -> (r: bool)
        ensures
            r == !self.done,
    {
        !self.done
    }

    /// Record what a probe answered; setting up answers the same. A
    /// success marks the drive as set up for good.
    pub fn record(&mut self, probe: Result<(), BlockError>) -> (r: Result<(), BlockError>)
        ensures
            r == probe,
            final(self).done == (old(self).done || probe is Ok),
    {
        if probe.is_ok() {
            self.done = true;
        }
        probe
    }
}

} // verus!
