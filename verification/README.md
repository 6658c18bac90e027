# willo

The filesystem and shell core of the Willo hobby kernel, as a verified
library.

- `path` — path segments, `normalize` (`.`/`..`/`//` against a working
  directory), mount-prefix helpers.
- `block` — the 512-byte block-device interface and an in-memory disk.
- `fat` — a FAT32 volume: mount, lookup, read, list, and the write path
  (create, overwrite, append, mkdir, remove) with the FAT copies and FsInfo
  kept in step.
- `clusters`, `dirscan`, `dirparse`, `fatwrite` — the volume seen cluster by
  cluster: which clusters a change leaves alone, directory chains and their
  records, and the proofs that what the write path leaves reads back as
  written on a volume sound where the change goes (`FatFs::write_ready`,
  `FatFs::remove_ready`), while the directory keeps its other names and
  the clusters outside the change keep their bytes.
- `tree`, `tmp`, `ram` — the in-memory filesystems (writable tmpfs,
  read-only seed ramfs with `/proc/uptime`).
- `dev` — `/dev`: console, null, zero, serial0, disk0.
- `vfs` — the mount table: longest-prefix resolution, mount points shown in
  listings, `mount_root`.
- `shell` — the command interpreter (`ls`, `cd`, `cat`, `write`, ...).
- `editor` — line editing and scrollback keys for the interactive driver.
- `ata`, `machine`, `runner` — what the ATA driver, the interrupt setup and
  the QEMU runner decide.

Every function carries a contract that Verus proves; the `law_*` proof
functions state properties across calls (a read after a write on tmpfs and
on FAT, other files keeping their contents through a FAT change, a removed
file being gone, a new directory being empty, an unmount after a mount,
the boot sector surviving writes, a FAT change keeping every FAT copy in
agreement and every cluster in use but the chain it gives back, ...).

`app/` is the host program: the QEMU runner, a data-disk builder, an
interactive shell over a disk image, and the port-I/O, keyboard and serial
edges of the kernel's shell loop.
