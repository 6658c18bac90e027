use willo::block::MemDisk;
use willo::dev::DevFs;
use willo::ram::seed;
use willo::tmp::TmpFs;
use willo::vfs::FsError;

#[test]
fn tmpfs_write_read_append_remove() {
    let mut tmp = TmpFs::new();

    // 1. write/read across two paths.
    tmp.create_dir("/work").expect("mkdir /work");
    tmp.write_file("/work/log", b"line1\n").expect("write log");
    tmp.write_file("/note", b"jot\n").expect("write note");
    assert_eq!(tmp.read_file("/work/log").unwrap(), b"line1\n".to_vec());
    assert_eq!(tmp.read_file("/note").unwrap(), b"jot\n".to_vec());

    // 2. listing reflects entries, sorted.
    assert_eq!(tmp.list_dir("/").unwrap(), vec!["note".to_string(), "work".to_string()]);

    // 3. append extends the file.
    tmp.append_file("/work/log", b"line2\n").expect("append log");
    assert_eq!(tmp.read_file("/work/log").unwrap(), b"line1\nline2\n".to_vec());

    // 4. removal works; a non-empty directory refuses removal.
    assert_eq!(tmp.remove("/work"), Err(FsError::Io));
    tmp.remove("/work/log").expect("rm log");
    tmp.remove("/work").expect("rm /work");
    assert_eq!(tmp.read_file("/work/log"), Err(FsError::NotFound));

    // 5. a fresh tmpfs is empty.
    let fresh = TmpFs::new();
    assert!(fresh.list_dir("/").unwrap().is_empty());
}

#[test]
fn tmpfs_errors() {
    let mut tmp = TmpFs::new();
    assert_eq!(tmp.write_file("/missing/file", b"x"), Err(FsError::NotFound));
    tmp.write_file("/f", b"x").unwrap();
    assert_eq!(tmp.write_file("/f/g", b"x"), Err(FsError::NotADir));
    tmp.create_dir("/d").unwrap();
    assert_eq!(tmp.create_dir("/d"), Err(FsError::Io));
    assert_eq!(tmp.create_dir("/f"), Err(FsError::Io));
    assert_eq!(tmp.write_file("/d", b"x"), Err(FsError::IsADir));
    assert_eq!(tmp.read_file("/d"), Err(FsError::IsADir));
    assert_eq!(tmp.list_dir("/f"), Err(FsError::NotADir));
    assert_eq!(tmp.remove("/nothing"), Err(FsError::NotFound));
    assert!(tmp.is_dir("/"));
    assert!(tmp.is_dir("/d"));
    assert!(!tmp.is_dir("/f"));
    assert!(tmp.writable());
    assert_eq!(tmp.backing(), "tmpfs");
}

#[test]
fn tmpfs_create_file_truncates() {
    let mut tmp = TmpFs::new();
    tmp.write_file("/a", b"abc").unwrap();
    tmp.create_file("/a").unwrap();
    assert_eq!(tmp.read_file("/a").unwrap(), Vec::<u8>::new());
    tmp.append_file("/new", b"hi").unwrap();
    assert_eq!(tmp.read_file("/new").unwrap(), b"hi".to_vec());
}

#[test]
fn ramfs_seed_lookup_read_list() {
    let r = seed();
    assert_eq!(r.read_file("/etc/version", 0).unwrap().as_slice(), b"willo 0.9 (M9)\n");
    assert_eq!(r.read_file("/welcome.txt", 0).unwrap().as_slice(), b"Welcome to Willo!\nType `help`.\n");
    assert_eq!(r.read_file("/etc/motd", 0).unwrap().as_slice(), b"the kernel that fits in your head\n");
    assert_eq!(r.read_file("/etc", 0), Err(FsError::IsADir));
    assert_eq!(r.read_file("/nope", 0), Err(FsError::NotFound));
    assert_eq!(r.read_file("/welcome.txt/x", 0), Err(FsError::NotADir));

    assert_eq!(r.list_dir("/etc").unwrap(), vec!["motd".to_string(), "version".to_string()]);
    assert_eq!(
        r.list_dir("/").unwrap(),
        vec!["bin".to_string(), "etc".to_string(), "proc".to_string(), "welcome.txt".to_string()]
    );
    assert!(r.list_dir("/bin").unwrap().is_empty());

    assert!(r.is_dir("/"));
    assert!(r.is_dir("/proc"));
    assert!(!r.is_dir("/welcome.txt"));
    assert!(!r.writable());
    assert_eq!(r.backing(), "ramfs (no data disk)");
}

#[test]
fn ramfs_uptime_reports_ticks() {
    let r = seed();
    assert_eq!(r.read_file("/proc/uptime", 0).unwrap(), b"0 ticks\n".to_vec());
    assert_eq!(r.read_file("/proc/uptime", 1234).unwrap(), b"1234 ticks\n".to_vec());
    let s = String::from_utf8(r.read_file("/proc/uptime", 99).unwrap()).unwrap();
    assert!(s.ends_with(" ticks\n"), "got {s:?}");
}

#[test]
fn devfs_list_null_zero_serial() {
    let mut dev = DevFs::new(true);
    let mut disk = MemDisk::new(8);

    let entries = dev.list_dir("/").unwrap();
    assert_eq!(entries, vec!["console", "null", "zero", "serial0", "disk0"]);

    // 4 KiB of /dev/zero through read_at.
    let mut buf = vec![0xFFu8; 4096];
    let n = dev.read_at(&mut disk, "/zero", 0, &mut buf).expect("read zero");
    assert_eq!(n, 4096);
    assert!(buf.iter().all(|&b| b == 0));

    // /dev/null discards writes and reads as end of file.
    assert_eq!(dev.write_at(&mut disk, "/null", 0, b"discard me"), Ok(10));
    let mut sink = [7u8; 8];
    assert_eq!(dev.read_at(&mut disk, "/null", 0, &mut sink), Ok(0));
    assert_eq!(sink, [7u8; 8]);

    // /dev/serial0 queues what is written.
    let msg = b"[devfs] hello from /dev/serial0\n";
    assert_eq!(dev.write_at(&mut disk, "/serial0", 0, msg), Ok(msg.len()));
    assert_eq!(dev.take_serial(), msg.to_vec());
    assert!(dev.take_serial().is_empty());

    // whole-file reads.
    let z = dev.read_file("/zero").unwrap();
    assert_eq!(z.len(), 4096);
    assert!(z.iter().all(|&b| b == 0));
    assert!(dev.read_file("/null").unwrap().is_empty());
    assert_eq!(dev.read_file("/console"), Err(FsError::Unsupported));
    assert_eq!(dev.read_file("/nope"), Err(FsError::NotFound));
    assert_eq!(dev.read_file("/"), Err(FsError::IsADir));
    assert_eq!(dev.read_file("/a/b"), Err(FsError::NotFound));

    assert!(dev.is_dir("/"));
    assert!(!dev.is_dir("/zero"));
    assert_eq!(dev.list_dir("/zero"), Err(FsError::NotADir));
}

#[test]
fn devfs_console_and_detached_serial() {
    let mut dev = DevFs::new(false);
    let mut disk = MemDisk::new(8);
    assert_eq!(dev.write_at(&mut disk, "/console", 0, b"one"), Ok(3));
    assert_eq!(dev.write_file(&mut disk, "/console", b"two"), Ok(()));
    assert_eq!(dev.take_console(), vec![b"one".to_vec(), b"two".to_vec()]);
    assert!(dev.take_console().is_empty());
    assert_eq!(dev.write_at(&mut disk, "/serial0", 0, b"x"), Err(FsError::Io));
    assert_eq!(dev.write_at(&mut disk, "/nope", 0, b"x"), Err(FsError::NotFound));
    let mut buf = [1u8; 4];
    assert_eq!(dev.read_at(&mut disk, "/console", 0, &mut buf), Err(FsError::Unsupported));
}

#[test]
fn devfs_disk0_whole_blocks() {
    let mut dev = DevFs::new(true);
    let mut disk = MemDisk::new(4);
    let block: Vec<u8> = (0..512u32).map(|i| (i % 251) as u8).collect();
    assert_eq!(dev.write_at(&mut disk, "/disk0", 512, &block), Ok(512));
    let mut back = vec![0u8; 512];
    assert_eq!(dev.read_at(&mut disk, "/disk0", 512, &mut back), Ok(512));
    assert_eq!(back, block);
    let image = disk.to_image();
    assert_eq!(&image[512..1024], block.as_slice());
    assert!(image[..512].iter().all(|&b| b == 0));

    // Unaligned and out-of-range requests are refused.
    assert_eq!(dev.write_at(&mut disk, "/disk0", 100, &block), Err(FsError::Io));
    let mut small = vec![0u8; 100];
    assert_eq!(dev.read_at(&mut disk, "/disk0", 0, &mut small), Err(FsError::Io));
    let mut big = vec![0u8; 512];
    assert_eq!(dev.read_at(&mut disk, "/disk0", 4 * 512, &mut big), Err(FsError::Io));
    let mut empty: Vec<u8> = Vec::new();
    assert_eq!(dev.read_at(&mut disk, "/disk0", 3, &mut empty), Ok(0));
}
