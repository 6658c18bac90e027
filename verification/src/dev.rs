//! Device filesystem.
//!
//! `/dev` exposes a small fixed set of pseudo-files: the console, the
//! discard sink, an infinite-zero source, the serial port and the raw data
//! disk. Bytes written to the console and the serial port are queued here;
//! the kernel's driver loop hands them to the framebuffer and the UART.

use vstd::prelude::*;
use crate::block::{BlockDevice, BLOCK_SIZE, block_of, with_block};
use crate::path::{no_slash, chars_of, chars_eq, strings_view, string_of};
use crate::vfs::FsError;
use vstd::slice::slice_to_vec;

verus! {

/// The device nodes of `/dev`.
#[derive(Debug, Clone, Copy, PartialEq, Eq, Structural)]
pub enum DevNode {
    Console,
    Null,
    Zero,
    Serial0,
    Disk0,
}

/// How many bytes a whole-file read of `/dev/zero` gives.
pub const ZERO_READ_FILE_BYTES: usize = 4096;

pub struct DevFs {
    /// Writes to `/dev/console`, one entry per write, not yet shown.
    console_out: Vec<Vec<u8>>,
    /// Bytes written to `/dev/serial0`, not yet sent.
    serial_out: Vec<u8>,
    /// Whether a serial port is attached.
    serial_attached: bool,
}

/// `rel` without one leading `/`; a name with a further `/` is `NotFound`
/// (devfs is a flat namespace).
pub open spec fn flat_name(rel: Seq<char>) -> Result<Seq<char>, FsError> {
    let t = if rel.len() > 0 && rel[0] == '/' {
        rel.drop_first()
    } else {
        rel
    };
    if no_slash(t) {
        Ok(t)
    } else {
        Err(FsError::NotFound)
    }
}

/// The node called `name`.
pub open spec fn node_named(name: Seq<char>) -> Option<DevNode> {
    if name == "console"@ {
        Some(DevNode::Console)
    } else if name == "null"@ {
        Some(DevNode::Null)
    } else if name == "zero"@ {
        Some(DevNode::Zero)
    } else if name == "serial0"@ {
        Some(DevNode::Serial0)
    } else if name == "disk0"@ {
        Some(DevNode::Disk0)
    } else {
        None
    }
}

/// The node names, in listing order.
pub open spec fn node_names() -> Seq<Seq<char>> {
    seq!["console"@, "null"@, "zero"@, "serial0"@, "disk0"@]
}

/// A whole-file read of `rel`.
pub open spec fn spec_read_file(rel: Seq<char>) -> Result<Seq<u8>, FsError> {
    match flat_name(rel) {
        Err(e) => Err(e),
        Ok(name) => if name.len() == 0 {
            Err(FsError::IsADir)
        } else {
            match node_named(name) {
                Some(DevNode::Null) => Ok(Seq::empty()),
                Some(DevNode::Zero) => Ok(Seq::new(4096, |i: int| 0u8)),
                Some(_) => Err(FsError::Unsupported),
                None => Err(FsError::NotFound),
            }
        },
    }
}

/// `disk` with `data` stored from byte `at` on.
pub open spec fn overwrite(disk: Seq<u8>, at: int, data: Seq<u8>) -> Seq<u8> {
    disk.subrange(0, at) + data + disk.skip(at + data.len())
}

/// Whether `off` and `len` address whole blocks.
pub open spec fn aligned(off: u64, len: nat) -> bool {
    off % 512 == 0 && len % 512 == 0
}

spec fn lba_end_ok(start_lba: u64, blocks: usize, len: nat) -> bool {
    (start_lba + blocks) * 512 <= len
}

/// Read `buf.len()` bytes of the disk from byte `off` on, whole blocks only.
pub fn disk_read<D: BlockDevice>(dev: &mut D, off: u64, buf: &mut [u8]) -> (r: Result<usize, FsError>)
    ensures
        final(dev).contents() == old(dev).contents(),
        final(dev).reliable() == old(dev).reliable(),
        final(buf)@.len() == old(buf)@.len(),
        old(buf)@.len() == 0 ==> r == Ok::<usize, FsError>(0) && final(buf)@ == old(buf)@,
        old(dev).reliable() && aligned(off, old(buf)@.len()) && off + old(buf)@.len()
            <= old(dev).contents().len() ==> r is Ok,
        old(buf)@.len() > 0 && !aligned(off, old(buf)@.len()) ==> r == Err::<usize, FsError>(FsError::Io),
        old(buf)@.len() > 0 && off + old(buf)@.len() > old(dev).contents().len() ==> r is Err,
        r is Err ==> r == Err::<usize, FsError>(FsError::Io),
        r is Ok && old(buf)@.len() > 0 ==> r == Ok::<usize, FsError>(old(buf)@.len() as usize) && off
            + old(buf)@.len() <= old(dev).contents().len() && final(buf)@ == old(dev).contents().subrange(
            off as int,
            off + old(buf)@.len(),
        ),
{
    if buf.len() == 0 {
        return Ok(0);
    }
    if off % (BLOCK_SIZE as u64) != 0 || buf.len() % BLOCK_SIZE != 0 {
        return Err(FsError::Io);
    }
    let ghost disk = dev.contents();
    let blocks: usize = buf.len() / BLOCK_SIZE;
    let start_lba: u64 = off / (BLOCK_SIZE as u64);
    assert(blocks * 512 == buf@.len()) by (nonlinear_arith)
        requires
            buf@.len() % 512 == 0,
            blocks == buf@.len() / 512,
    ;
    assert(start_lba * 512 == off) by (nonlinear_arith)
        requires
            off % 512 == 0,
            start_lba == off / 512,
    ;
    let mut i: usize = 0;
    let n: usize = buf.len();
    while i < blocks
        invariant
            dev.contents() == disk,
            disk == old(dev).contents(),
            dev.reliable() == old(dev).reliable(),
            off + buf@.len() <= disk.len() ==> (lba_end_ok(start_lba, blocks, disk.len())),
            buf@.len() == n,
            blocks * 512 == buf@.len(),
            buf@.len() == old(buf)@.len(),
            start_lba * 512 == off,
            i <= blocks,
            i > 0 ==> i * 512 + off <= disk.len(),
            start_lba < 0x80_0000_0000_0000,
            forall|k: int| 0 <= k < i * 512 ==> #[trigger] buf@[k] == disk[off + k],
        decreases blocks - i,
    {
        let mut tmp: Vec<u8> = vec![0u8; BLOCK_SIZE];
        assert(i < 0x80_0000_0000_0000) by (nonlinear_arith)
            requires
                i < blocks,
                blocks * 512 == buf@.len(),
                buf@.len() <= usize::MAX,
        ;
        let lba: u64 = start_lba + i as u64;
        match dev.read_block(lba, tmp.as_mut_slice()) {
            Ok(_) => {},
            Err(_) => {
                proof {
                    if off + buf@.len() <= disk.len() {
                    }
                }
                return Err(FsError::Io);
            },
        }
        assert(tmp@ =~= block_of(disk, lba as int));
        let mut j: usize = 0;
        while j < BLOCK_SIZE
            invariant
                blocks * 512 == buf@.len(),
                buf@.len() == old(buf)@.len(),
                buf@.len() == n,
                i < blocks,
                j <= 512,
                tmp@ == block_of(disk, lba as int),
                lba * 512 == off + i * 512,
                (lba + 1) * 512 <= disk.len(),
                forall|k: int| 0 <= k < i * 512 + j ==> #[trigger] buf@[k] == disk[off + k],
            decreases 512 - j,
        {
            assert(i * 512 + j < blocks * 512) by (nonlinear_arith)
                requires
                    i < blocks,
                    j < 512,
            ;
            buf[i * BLOCK_SIZE + j] = tmp[j];
            j = j + 1;
        }
        i = i + 1;
    }
    assert(buf@ =~= disk.subrange(off as int, off + buf@.len()));
    Ok(buf.len())
}

/// Write `buf` to the disk from byte `off` on, whole blocks only.
pub fn disk_write<D: BlockDevice>(dev: &mut D, off: u64, buf: &[u8]) -> (r: Result<usize, FsError>)
    ensures
        final(dev).contents().len() == old(dev).contents().len(),
        final(dev).reliable() == old(dev).reliable(),
        buf@.len() == 0 ==> r == Ok::<usize, FsError>(0) && final(dev).contents() == old(dev).contents(),
        old(dev).reliable() && aligned(off, buf@.len()) && off + buf@.len() <= old(dev).contents().len()
            ==> r is Ok,
        buf@.len() > 0 && !aligned(off, buf@.len()) ==> r == Err::<usize, FsError>(FsError::Io)
            && final(dev).contents() == old(dev).contents(),
        buf@.len() > 0 && off + buf@.len() > old(dev).contents().len() ==> r is Err,
        r is Err ==> r == Err::<usize, FsError>(FsError::Io),
        forall|k: int|
            0 <= k < old(dev).contents().len() && !(off <= k < off + buf@.len()) ==> #[trigger] final(dev).contents()[k] == old(dev).contents()[k],
        r is Ok && buf@.len() > 0 ==> r == Ok::<usize, FsError>(buf@.len() as usize) && off + buf@.len()
            <= old(dev).contents().len() && final(dev).contents() == overwrite(
            old(dev).contents(),
            off as int,
            buf@,
        ),
{
    if buf.len() == 0 {
        return Ok(0);
    }
    if off % (BLOCK_SIZE as u64) != 0 || buf.len() % BLOCK_SIZE != 0 {
        return Err(FsError::Io);
    }
    let ghost disk = dev.contents();
    let blocks: usize = buf.len() / BLOCK_SIZE;
    let start_lba: u64 = off / (BLOCK_SIZE as u64);
    assert(blocks * 512 == buf@.len()) by (nonlinear_arith)
        requires
            buf@.len() % 512 == 0,
            blocks == buf@.len() / 512,
    ;
    assert(start_lba * 512 == off) by (nonlinear_arith)
        requires
            off % 512 == 0,
            start_lba == off / 512,
    ;
    let mut i: usize = 0;
    let n: usize = buf.len();
    while i < blocks
        invariant
            dev.contents().len() == disk.len(),
            disk == old(dev).contents(),
            dev.reliable() == old(dev).reliable(),
            off + buf@.len() <= disk.len() ==> (lba_end_ok(start_lba, blocks, disk.len())),
            buf@.len() == n,
            i == 0 ==> dev.contents() == disk,
            forall|k: int|
                0 <= k < disk.len() && !(off <= k < off + buf@.len()) ==> #[trigger] dev.contents()[k]
                    == disk[k],
            blocks * 512 == buf@.len(),
            start_lba * 512 == off,
            i <= blocks,
            i > 0 ==> i * 512 + off <= disk.len(),
            start_lba < 0x80_0000_0000_0000,
            i > 0 ==> dev.contents() == overwrite(disk, off as int, buf@.take(i * 512)),
        decreases blocks - i,
    {
        assert(i < 0x80_0000_0000_0000) by (nonlinear_arith)
            requires
                i < blocks,
                blocks * 512 == buf@.len(),
                buf@.len() <= usize::MAX,
        ;
        let lba: u64 = start_lba + i as u64;
        assert((i + 1) * 512 <= blocks * 512) by (nonlinear_arith)
            requires
                i < blocks,
        ;
        let chunk = &buf[i * BLOCK_SIZE..(i + 1) * BLOCK_SIZE];
        let ghost before = dev.contents();
        match dev.write_block(lba, chunk) {
            Ok(_) => {},
            Err(_) => {
                proof {
                    assert forall|k: int|
                        0 <= k < disk.len() && !(off <= k < off + buf@.len()) implies #[trigger] dev.contents()[k]
                        == disk[k] by {
                        assert(!(lba * 512 <= k < lba * 512 + 512)) by (nonlinear_arith)
                            requires
                                lba * 512 == off + i * 512,
                                i < blocks,
                                blocks * 512 == buf@.len(),
                                !(off <= k < off + buf@.len()),
                        ;
                        assert(before[k] == disk[k]);
                    }
                }
                return Err(FsError::Io);
            },
        }
        proof {
            assert(chunk@ =~= buf@.subrange(i * 512, i * 512 + 512));
            if i == 0 {
                assert(before == disk);
            }
            assert(dev.contents() =~= overwrite(disk, off as int, buf@.take((i + 1) * 512)));
            assert forall|k: int|
                0 <= k < disk.len() && !(off <= k < off + buf@.len()) implies #[trigger] dev.contents()[k]
                == disk[k] by {
                assert(!(lba * 512 <= k < lba * 512 + 512)) by (nonlinear_arith)
                    requires
                        lba * 512 == off + i * 512,
                        i < blocks,
                        blocks * 512 == buf@.len(),
                        !(off <= k < off + buf@.len()),
                ;
                assert(before[k] == disk[k]);
            }
        }
        i = i + 1;
    }
    assert(buf@.take(blocks * 512) =~= buf@);
    Ok(buf.len())
}

/// The node called `name`.
fn node(name: &[char]) -> (r: Option<DevNode>)
    ensures
        r == node_named(name@),
{
    if chars_eq(name, chars_of("console").as_slice()) {
        Some(DevNode::Console)
    } else if chars_eq(name, chars_of("null").as_slice()) {
        Some(DevNode::Null)
    } else if chars_eq(name, chars_of("zero").as_slice()) {
        Some(DevNode::Zero)
    } else if chars_eq(name, chars_of("serial0").as_slice()) {
        Some(DevNode::Serial0)
    } else if chars_eq(name, chars_of("disk0").as_slice()) {
        Some(DevNode::Disk0)
    } else {
        None
    }
}

/// The name part of `rel` (see [`flat_name`]).
fn flat_name_of(rel: &str) -> (r: Result<Vec<char>, FsError>)
    ensures
        match r {
            Ok(v) => flat_name(rel@) == Ok::<Seq<char>, FsError>(v@),
            Err(e) => flat_name(rel@) == Err::<Seq<char>, FsError>(e),
        },
{
    let cs = chars_of(rel);
    let mut out: Vec<char> = Vec::new();
    let start: usize = if cs.len() > 0 && cs[0] == '/' { 1 } else { 0 };
    let ghost t = if rel@.len() > 0 && rel@[0] == '/' { rel@.drop_first() } else { rel@ };
    let mut i: usize = start;
    while i < cs.len()
        invariant
            start <= i <= cs@.len(),
            cs@ == rel@,
            start == (if rel@.len() > 0 && rel@[0] == '/' { 1int } else { 0int }),
            t == cs@.skip(start as int),
            out@ == cs@.subrange(start as int, i as int),
            no_slash(out@),
        decreases cs@.len() - i,
    {
        if cs[i] == '/' {
            assert(t[i - start] == '/');
            return Err(FsError::NotFound);
        }
        out.push(cs[i]);
        i = i + 1;
        assert(out@ =~= cs@.subrange(start as int, i as int));
    }
    assert(out@ =~= t);
    Ok(out)
}

impl DevFs {
    pub closed spec fn console_pending(&self) -> Seq<Seq<u8>> {
        self.console_out@.map_values(|v: Vec<u8>| v@)
    }

    pub closed spec fn serial_pending(&self) -> Seq<u8> {
        self.serial_out@
    }

    pub closed spec fn serial_is_attached(&self) -> bool {
        self.serial_attached
    }

    /// A devfs with nothing queued; `serial_attached` tells whether the
    /// serial port came up.
    pub fn new(serial_attached: bool) -> (d: DevFs)
        ensures
            d.console_pending() == Seq::<Seq<u8>>::empty(),
            d.serial_pending() == Seq::<u8>::empty(),
            d.serial_is_attached() == serial_attached,
    {
        let d = DevFs { console_out: Vec::new(), serial_out: Vec::new(), serial_attached };
        assert(d.console_pending() =~= Seq::<Seq<u8>>::empty());
        d
    }

    /// Hand over the console writes queued so far, oldest first.
    pub fn take_console(&mut self) -> (r: Vec<Vec<u8>>)
        ensures
            r@.map_values(|v: Vec<u8>| v@) == old(self).console_pending(),
            final(self).console_pending() == Seq::<Seq<u8>>::empty(),
            final(self).serial_pending() == old(self).serial_pending(),
            final(self).serial_is_attached() == old(self).serial_is_attached(),
    {
        let mut r: Vec<Vec<u8>> = Vec::new();
        core::mem::swap(&mut r, &mut self.console_out);
        assert(self.console_pending() =~= Seq::<Seq<u8>>::empty());
        r
    }

    /// Hand over the serial bytes queued so far.
    pub fn take_serial(&mut self) -> (r: Vec<u8>)
        ensures
            r@ == old(self).serial_pending(),
            final(self).serial_pending() == Seq::<u8>::empty(),
            final(self).console_pending() == old(self).console_pending(),
            final(self).serial_is_attached() == old(self).serial_is_attached(),
    {
        let mut r: Vec<u8> = Vec::new();
        core::mem::swap(&mut r, &mut self.serial_out);
        r
    }

    /// A whole-file read: `/dev/null` is empty, `/dev/zero` gives a
    /// fixed-size block of zeros, the streaming nodes are `Unsupported`.
    pub fn read_file(&self, rel: &str) -> (r: Result<Vec<u8>, FsError>)
        ensures
            match r {
                Ok(v) => spec_read_file(rel@) == Ok::<Seq<u8>, FsError>(v@),
                Err(e) => spec_read_file(rel@) == Err::<Seq<u8>, FsError>(e),
            },
    {
        let name = match flat_name_of(rel) {
            Ok(n) => n,
            Err(e) => return Err(e),
        };
        if name.len() == 0 {
            return Err(FsError::IsADir);
        }
        match node(name.as_slice()) {
            Some(DevNode::Null) => Ok(Vec::new()),
            Some(DevNode::Zero) => {
                let v = vec![0u8; ZERO_READ_FILE_BYTES];
                assert(v@ =~= Seq::new(4096, |i: int| 0u8));
                Ok(v)
            },
            Some(_) => Err(FsError::Unsupported),
            None => Err(FsError::NotFound),
        }
    }

    /// The node names, for the root of `/dev`.
    pub fn list_dir(&self, rel: &str) -> (r: Result<Vec<String>, FsError>)
        ensures
            match r {
                Ok(v) => flat_name(rel@) == Ok::<Seq<char>, FsError>(Seq::empty()) && strings_view(v@)
                    == node_names(),
                Err(e) => match flat_name(rel@) {
                    Ok(n) => n.len() > 0 && e == FsError::NotADir,
                    Err(e2) => e == e2,
                },
            },
    {
        let name = match flat_name_of(rel) {
            Ok(n) => n,
            Err(e) => return Err(e),
        };
        if name.len() != 0 {
            return Err(FsError::NotADir);
        }
        assert(name@ =~= Seq::<char>::empty());
        let mut v: Vec<String> = Vec::new();
        v.push(string_of(chars_of("console").as_slice()));
        v.push(string_of(chars_of("null").as_slice()));
        v.push(string_of(chars_of("zero").as_slice()));
        v.push(string_of(chars_of("serial0").as_slice()));
        v.push(string_of(chars_of("disk0").as_slice()));
        assert(strings_view(v@) =~= node_names());
        Ok(v)
    }

    /// Only the root of `/dev` is a directory.
    pub fn is_dir(&self, rel: &str) -> (r: bool)
        ensures
            r == (flat_name(rel@) == Ok::<Seq<char>, FsError>(Seq::empty())),
    {
        match flat_name_of(rel) {
            Ok(n) => {
                if n.len() == 0 {
                    assert(n@ =~= Seq::<char>::empty());
                    true
                } else {
                    false
                }
            },
            Err(_) => false,
        }
    }

    pub fn writable(&self) -> (r: bool)
        ensures
            r,
    {
        true
    }

    pub fn backing(&self) -> (r: &'static str)
        ensures
            r@ == "devfs"@,
    {
        "devfs"
    }

    /// Streaming read from the node at `rel`, starting at byte `off`.
    pub fn read_at<D: BlockDevice>(&self, dev: &mut D, rel: &str, off: u64, buf: &mut [u8]) -> (r: Result<usize, FsError>)
        ensures
            final(dev).contents() == old(dev).contents(),
            final(buf)@.len() == old(buf)@.len(),
            final(dev).reliable() == old(dev).reliable(),
            read_at_effect(old(dev).contents(), old(dev).reliable(), rel@, off, old(buf)@, final(buf)@, r),
    {
        let name = match flat_name_of(rel) {
            Ok(n) => n,
            Err(e) => return Err(e),
        };
        match node(name.as_slice()) {
            None => Err(FsError::NotFound),
            Some(DevNode::Console) => Err(FsError::Unsupported),
            Some(DevNode::Null) => Ok(0),
            Some(DevNode::Serial0) => Ok(0),
            Some(DevNode::Zero) => {
                let mut i: usize = 0;
                while i < buf.len()
                    invariant
                        i <= buf@.len(),
                        buf@.len() == old(buf)@.len(),
                        forall|k: int| 0 <= k < i ==> buf@[k] == 0u8,
                    decreases buf@.len() - i,
                {
                    buf[i] = 0u8;
                    i = i + 1;
                }
                assert(buf@ =~= Seq::new(old(buf)@.len(), |i: int| 0u8));
                Ok(buf.len())
            },
            Some(DevNode::Disk0) => disk_read(dev, off, buf),
        }
    }

    /// Streaming write to the node at `rel`, starting at byte `off`.
    pub fn write_at<D: BlockDevice>(&mut self, dev: &mut D, rel: &str, off: u64, buf: &[u8]) -> (r: Result<usize, FsError>)
        ensures
            final(dev).reliable() == old(dev).reliable(),
            write_at_effect(*old(self), *final(self), old(dev).contents(), final(dev).contents(), old(dev).reliable(), rel@, off, buf@, r),
    {
        let name = match flat_name_of(rel) {
            Ok(n) => n,
            Err(e) => return Err(e),
        };
        match node(name.as_slice()) {
            None => Err(FsError::NotFound),
            Some(DevNode::Console) => {
                let v = slice_to_vec(buf);
                let ghost before = self.console_pending();
                self.console_out.push(v);
                assert(self.console_pending() =~= before.push(buf@));
                Ok(buf.len())
            },
            Some(DevNode::Null) => Ok(buf.len()),
            Some(DevNode::Zero) => Ok(buf.len()),
            Some(DevNode::Serial0) => {
                if self.serial_attached {
                    let mut v = slice_to_vec(buf);
                    self.serial_out.append(&mut v);
                    Ok(buf.len())
                } else {
                    Err(FsError::Io)
                }
            },
            Some(DevNode::Disk0) => disk_write(dev, off, buf),
        }
    }

    /// Write all of `data` from the start of the node at `rel`.
    pub fn write_file<D: BlockDevice>(&mut self, dev: &mut D, rel: &str, data: &[u8]) -> (r: Result<(), FsError>)
        ensures
            final(dev).reliable() == old(dev).reliable(),
            write_file_effect(*old(self), *final(self), old(dev).contents(), final(dev).contents(), old(dev).reliable(), rel@, data@, r),
    {
        match self.write_at(dev, rel, 0, data) {
            Ok(n) => {
                if n == data.len() {
                    proof {
                        if data@.len() == 0 {
                            assert(overwrite(old(dev).contents(), 0, data@) =~= old(dev).contents());
                        }
                    }
                    Ok(())
                } else {
                    Err(FsError::Io)
                }
            },
            Err(e) => Err(e),
        }
    }
}

/// What a write of `data` to the node at `rel` (other than `disk0`) does to
/// the queues, and what it returns.
pub open spec fn spec_write_at_effect(old: DevFs, new: DevFs, rel: Seq<char>, data: Seq<u8>, r: Result<usize, FsError>) -> bool {
    match flat_name(rel) {
        Err(e) => r == Err::<usize, FsError>(e) && unchanged(old, new),
        Ok(name) => match node_named(name) {
            None => r == Err::<usize, FsError>(FsError::NotFound) && unchanged(old, new),
            Some(DevNode::Console) => r == Ok::<usize, FsError>(data.len() as usize)
                && new.console_pending() == old.console_pending().push(data)
                && new.serial_pending() == old.serial_pending(),
            Some(DevNode::Serial0) => if old.serial_is_attached() {
                r == Ok::<usize, FsError>(data.len() as usize) && new.serial_pending() == old.serial_pending() + data
                    && new.console_pending() == old.console_pending()
            } else {
                r == Err::<usize, FsError>(FsError::Io) && unchanged(old, new)
            },
            Some(_) => r == Ok::<usize, FsError>(data.len() as usize) && unchanged(old, new),
        },
    }
}

pub open spec fn unchanged(old: DevFs, new: DevFs) -> bool {
    new.console_pending() == old.console_pending() && new.serial_pending() == old.serial_pending()
}

/// What a streaming read of `rel` from byte `off` does with the buffer
/// (`b0` → `b1`), over the disk contents `disk`, answering `r`.
pub open spec fn read_at_effect(
    disk: Seq<u8>,
    reliable: bool,
    rel: Seq<char>,
    off: u64,
    b0: Seq<u8>,
    b1: Seq<u8>,
    r: Result<usize, FsError>,
) -> bool {
    &&& b1.len() == b0.len()
    &&& match flat_name(rel) {
        Err(e) => r == Err::<usize, FsError>(e) && b1 == b0,
        Ok(name) => match node_named(name) {
            None => r == Err::<usize, FsError>(FsError::NotFound) && b1 == b0,
            Some(DevNode::Console) => r == Err::<usize, FsError>(FsError::Unsupported) && b1 == b0,
            Some(DevNode::Null) => r == Ok::<usize, FsError>(0) && b1 == b0,
            Some(DevNode::Serial0) => r == Ok::<usize, FsError>(0) && b1 == b0,
            Some(DevNode::Zero) => r == Ok::<usize, FsError>(b0.len() as usize) && b1 == Seq::new(b0.len(), |i: int| 0u8),
            Some(DevNode::Disk0) => {
                &&& b0.len() == 0 ==> r == Ok::<usize, FsError>(0)
                &&& b0.len() > 0 && !aligned(off, b0.len()) ==> r == Err::<usize, FsError>(FsError::Io)
                &&& b0.len() > 0 && off + b0.len() > disk.len() ==> r is Err
                &&& reliable && aligned(off, b0.len()) && off + b0.len() <= disk.len() ==> r is Ok
                &&& r is Err ==> r == Err::<usize, FsError>(FsError::Io)
                &&& r is Ok && b0.len() > 0 ==> r == Ok::<usize, FsError>(b0.len() as usize) && b1 == disk.subrange(
                    off as int,
                    off + b0.len(),
                )
            },
        },
    }
}

/// What a streaming write of `buf` to `rel` from byte `off` does to the
/// devfs (`old` → `new`) and the disk contents (`c0` → `c1`), answering `r`.
pub open spec fn write_at_effect(
    old: DevFs,
    new: DevFs,
    c0: Seq<u8>,
    c1: Seq<u8>,
    reliable: bool,
    rel: Seq<char>,
    off: u64,
    buf: Seq<u8>,
    r: Result<usize, FsError>,
) -> bool {
    &&& new.serial_is_attached() == old.serial_is_attached()
    &&& c1.len() == c0.len()
    &&& match flat_name(rel) {
        Ok(name) if node_named(name) == Some(DevNode::Disk0) => {
            &&& unchanged(old, new)
            &&& buf.len() == 0 ==> r == Ok::<usize, FsError>(0) && c1 == c0
            &&& buf.len() > 0 && !aligned(off, buf.len()) ==> r == Err::<usize, FsError>(FsError::Io) && c1 == c0
            &&& buf.len() > 0 && off + buf.len() > c0.len() ==> r is Err
            &&& reliable && aligned(off, buf.len()) && off + buf.len() <= c0.len() ==> r is Ok
            &&& r is Err ==> r == Err::<usize, FsError>(FsError::Io)
            &&& forall|k: int| 0 <= k < c0.len() && !(off <= k < off + buf.len()) ==> #[trigger] c1[k] == c0[k]
            &&& r is Ok && buf.len() > 0 ==> r == Ok::<usize, FsError>(buf.len() as usize) && c1 == overwrite(
                c0,
                off as int,
                buf,
            )
        },
        _ => c1 == c0 && spec_write_at_effect(old, new, rel, buf, r),
    }
}

/// What `write_file` of `data` at `rel` does to the devfs (`old` → `new`)
/// and the disk contents (`c0` → `c1`), answering `r`.
pub open spec fn write_file_effect(
    old: DevFs,
    new: DevFs,
    c0: Seq<u8>,
    c1: Seq<u8>,
    reliable: bool,
    rel: Seq<char>,
    data: Seq<u8>,
    r: Result<(), FsError>,
) -> bool {
    &&& new.serial_is_attached() == old.serial_is_attached()
    &&& c1.len() == c0.len()
    &&& match flat_name(rel) {
        Ok(name) if node_named(name) == Some(DevNode::Disk0) => {
            &&& unchanged(old, new)
            &&& data.len() == 0 ==> r is Ok && c1 == c0
            &&& data.len() > 0 && !aligned(0, data.len()) ==> r == Err::<(), FsError>(FsError::Io) && c1 == c0
            &&& data.len() > c0.len() ==> r is Err
            &&& reliable && aligned(0, data.len()) && data.len() <= c0.len() ==> r is Ok
            &&& r is Err ==> r == Err::<(), FsError>(FsError::Io)
            &&& r is Ok ==> c1 == overwrite(c0, 0, data)
        },
        _ => c1 == c0 && spec_write_at_effect(
            old,
            new,
            rel,
            data,
            match r {
                Ok(()) => Ok::<usize, FsError>(data.len() as usize),
                Err(e) => Err::<usize, FsError>(e),
            },
        ),
    }
}

} // verus!
