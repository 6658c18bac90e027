//! Generic block-device abstraction: a disk of 512-byte blocks.

use vstd::prelude::*;

verus! {

#[derive(Debug, Clone, Copy, PartialEq, Eq, Structural)]
pub enum BlockError {
    /// Drive timed out responding to a status poll.
    Timeout,
    /// Drive reported the ERR bit in its status register.
    DriveError,
    /// Caller asked for an LBA past the end of the disk.
    OutOfRange,
}

pub const BLOCK_SIZE: usize = 512;

/// The bytes of block `lba` of the disk image `disk`.
pub open spec fn block_of(disk: Seq<u8>, lba: int) -> Seq<u8> {
    disk.subrange(lba * 512, lba * 512 + 512)
}

/// `disk` with the block at `lba` replaced by the first 512 bytes of `data`.
pub open spec fn with_block(disk: Seq<u8>, lba: int, data: Seq<u8>) -> Seq<u8> {
    disk.subrange(0, lba * 512) + data.take(512) + disk.skip(lba * 512 + 512)
}

/// 512-byte-block device. Methods take `&mut self` because reads and writes
/// drive hardware registers.
///
/// An implementation promises: the disk's contents are a byte image whose
/// length is `num_blocks() * 512`; a successful read copies block `lba` into
/// the front of `buf`; a successful write stores the first 512 bytes of `buf`
/// as block `lba`; a failed write may leave block `lba` partly written but
/// touches no other block; an `lba` past the end, or a buffer shorter than a
/// block, fails with `OutOfRange`. Timeouts and drive errors may happen on
/// any call, except on a device that is `reliable`, where every call on a
/// block of the disk with a long enough buffer succeeds.
pub trait BlockDevice {
    /// The disk's bytes, block after block.
    spec fn contents(&self) -> Seq<u8>;

    /// The device never times out nor reports a drive error.
    spec fn reliable(&self) -> bool;

    /// Total number of 512-byte blocks the disk holds.
    fn num_blocks(&self) -> (n: u64)
        ensures
            n * 512 == self.contents().len(),
    ;

    /// Read block `lba` into the first 512 bytes of `buf`. Returns the number
    /// of bytes written into `buf`.
    fn read_block(&mut self, lba: u64, buf: &mut [u8]) -> (r: Result<usize, BlockError>)
        ensures
            final(self).contents() == old(self).contents(),
            final(self).reliable() == old(self).reliable(),
            final(buf)@.len() == old(buf)@.len(),
            old(self).reliable() && (lba + 1) * 512 <= old(self).contents().len() && old(buf)@.len() >= 512
                ==> r is Ok,
            (lba + 1) * 512 > old(self).contents().len() || old(buf)@.len() < 512 ==> r == Err::<
                usize,
                BlockError,
            >(BlockError::OutOfRange),
            r is Ok ==> r == Ok::<usize, BlockError>(512) && final(buf)@ == block_of(
                old(self).contents(),
                lba as int,
            ) + old(buf)@.skip(512),
    ;

    /// Write the first 512 bytes of `buf` to block `lba`. Returns the number
    /// of bytes consumed from `buf`.
    fn write_block(&mut self, lba: u64, buf: &[u8]) -> (r: Result<usize, BlockError>)
        ensures
            final(self).contents().len() == old(self).contents().len(),
            final(self).reliable() == old(self).reliable(),
            old(self).reliable() && (lba + 1) * 512 <= old(self).contents().len() && buf@.len() >= 512
                ==> r is Ok,
            (lba + 1) * 512 > old(self).contents().len() || buf@.len() < 512 ==> r == Err::<
                usize,
                BlockError,
            >(BlockError::OutOfRange) && final(self).contents() == old(self).contents(),
            forall|i: int|
                0 <= i < old(self).contents().len() && !(lba * 512 <= i < lba * 512 + 512)
                    ==> #[trigger] final(self).contents()[i] == old(self).contents()[i],
            r is Ok ==> r == Ok::<usize, BlockError>(512) && final(self).contents() == with_block(
                old(self).contents(),
                lba as int,
                buf@,
            ),
    ;
}

/// A disk held in memory: a byte image of whole blocks.
pub struct MemDisk {
    bytes: Vec<u8>,
}

impl MemDisk {

    /// The whole blocks of the disk's bytes.
    pub closed spec fn image(&self) -> Seq<u8> {
        self.bytes@.take(((self.bytes@.len() / 512) * 512) as int)
    }

    /// A zero-filled disk of `blocks` blocks.
    pub fn new(blocks: u32) -> (d: MemDisk)
        requires
            blocks * 512 <= usize::MAX,
        ensures
            d.image() == Seq::new(blocks as nat * 512, |i: int| 0u8),
    {
        let n: usize = blocks as usize * BLOCK_SIZE;
        assert(n / 512 * 512 == n) by (nonlinear_arith)
            requires
                n == blocks * 512,
        ;
        let bytes = vec![0u8; n];
        assert(bytes@ =~= Seq::new(blocks as nat * 512, |i: int| 0u8));
        MemDisk { bytes }
    }

    /// A disk holding `image`, padded with zero bytes to whole blocks.
    pub fn from_image(image: Vec<u8>) -> (d: MemDisk)
        requires
            image@.len() + 512 <= usize::MAX,
        ensures
            d.image().len() % 512 == 0,
            image@.len() <= d.image().len() < image@.len() + 512,
            d.image().take(image@.len() as int) == image@,
            forall|i: int| image@.len() <= i < d.image().len() ==> d.image()[i] == 0u8,
    {
        let mut bytes = image;
        let ghost orig = bytes@;
        let pad: usize = (BLOCK_SIZE - bytes.len() % BLOCK_SIZE) % BLOCK_SIZE;
        assert((orig.len() + pad) % 512 == 0) by (nonlinear_arith)
            requires
                pad == (512 - orig.len() % 512) % 512,
        ;
        let mut k: usize = 0;
        while k < pad
            invariant
                k <= pad < 512,
                bytes@.len() == orig.len() + k,
                bytes@.take(orig.len() as int) == orig,
                forall|i: int| orig.len() <= i < bytes@.len() ==> bytes@[i] == 0u8,
                orig.len() + 512 <= usize::MAX,
            decreases pad - k,
        {
            bytes.push(0u8);
            k = k + 1;
            assert(bytes@.take(orig.len() as int) =~= orig);
        }
        MemDisk { bytes }
    }

    /// The disk's bytes.
    pub fn to_image(&self) -> (r: Vec<u8>)
        ensures
            r@ == self.image(),
    {
        let mut v = self.bytes.clone();
        let len = v.len();
        v.truncate((len / BLOCK_SIZE) * BLOCK_SIZE);
        v
    }
}

impl BlockDevice for MemDisk {
    open spec fn contents(&self) -> Seq<u8> {
        self.image()
    }

    open spec fn reliable(&self) -> bool {
        true
    }

    fn num_blocks(&self) -> (n: u64) {
        let len = self.bytes.len();
        assert((len / 512) * 512 <= len) by (nonlinear_arith);
        (len / BLOCK_SIZE) as u64
    }

    fn read_block(&mut self, lba: u64, buf: &mut [u8]) -> (r: Result<usize, BlockError>) {
        let len = self.bytes.len();
        if buf.len() < BLOCK_SIZE || lba >= (len / BLOCK_SIZE) as u64 {
            return Err(BlockError::OutOfRange);
        }
        let start: usize = lba as usize * BLOCK_SIZE;
        let mut i: usize = 0;
        while i < BLOCK_SIZE
            invariant
                start + 512 <= self.bytes@.len(),
                start == lba * 512,
                buf@.len() == old(buf)@.len(),
                buf@.len() >= 512,
                i <= 512,
                forall|k: int| 0 <= k < i ==> buf@[k] == self.bytes@[start + k],
                forall|k: int| 512 <= k < buf@.len() ==> buf@[k] == old(buf)@[k],
            decreases 512 - i,
        {
            buf[i] = self.bytes[start + i];
            i = i + 1;
        }
        assert(buf@ =~= block_of(self.bytes@, lba as int) + old(buf)@.skip(512));
        Ok(BLOCK_SIZE)
    }

    fn write_block(&mut self, lba: u64, buf: &[u8]) -> (r: Result<usize, BlockError>) {
        let len = self.bytes.len();
        if buf.len() < BLOCK_SIZE || lba >= (len / BLOCK_SIZE) as u64 {
            return Err(BlockError::OutOfRange);
        }
        let start: usize = lba as usize * BLOCK_SIZE;
        let mut i: usize = 0;
        while i < BLOCK_SIZE
            invariant
                start + 512 <= self.bytes@.len(),
                start == lba * 512,
                self.bytes@.len() == old(self).bytes@.len(),
                buf@.len() >= 512,
                i <= 512,
                forall|k: int| 0 <= k < i ==> self.bytes@[start + k] == buf@[k],
                forall|k: int|
                    0 <= k < self.bytes@.len() && !(start <= k < start + i) ==> self.bytes@[k]
                        == old(self).bytes@[k],
            decreases 512 - i,
        {
            self.bytes[start + i] = buf[i];
            i = i + 1;
        }
        assert(self.bytes@ =~= with_block(old(self).bytes@, lba as int, buf@));
        Ok(BLOCK_SIZE)
    }
}

} // verus!
