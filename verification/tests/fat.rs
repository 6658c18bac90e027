use std::io::{Cursor, Read, Write};
use willo::block::{BlockDevice, MemDisk};
use willo::fat::FatFs;
use willo::vfs::FsError;

const DATA_DISK_BYTES: usize = 64 * 1024 * 1024;

/// A FAT32 data disk seeded like the runner's: `/welcome.txt`,
/// `/etc/{version,motd}` and an empty `/bin`.
fn seeded_image() -> Vec<u8> {
    let mut img = Cursor::new(vec![0u8; DATA_DISK_BYTES]);
    let opts = fatfs::FormatVolumeOptions::new().fat_type(fatfs::FatType::Fat32);
    fatfs::format_volume(&mut img, opts).unwrap();
    img.set_position(0);
    {
        let fs = fatfs::FileSystem::new(&mut img, fatfs::FsOptions::new()).unwrap();
        {
            let root = fs.root_dir();
            let mut welcome = root.create_file("welcome.txt").unwrap();
            welcome.write_all(b"Welcome to Willo!\nType `help`.\n").unwrap();
            welcome.flush().unwrap();
            let etc = root.create_dir("etc").unwrap();
            let mut version = etc.create_file("version").unwrap();
            version.write_all(b"willo 0.9 (M9)\n").unwrap();
            version.flush().unwrap();
            let mut motd = etc.create_file("motd").unwrap();
            motd.write_all(b"the kernel that fits in your head\n").unwrap();
            motd.flush().unwrap();
            root.create_dir("bin").unwrap();
        }
        fs.unmount().unwrap();
    }
    img.into_inner()
}

fn make_filler(len: usize) -> Vec<u8> {
    (0..len).map(|i| ((i % 26) as u8) + b'a').collect()
}

fn sorted(mut v: Vec<String>) -> Vec<String> {
    v.sort();
    v
}

#[test]
fn fat_read_mount_lookup_read() {
    let mut disk = MemDisk::from_image(seeded_image());
    let fs = FatFs::mount(&mut disk).expect("FAT mount");
    assert_eq!(fs.bytes_per_sector, 512);
    assert_eq!(fs.fat_start_lba, fs.reserved_sectors);
    assert_eq!(fs.data_start_lba, fs.reserved_sectors + fs.num_fats * fs.sectors_per_fat);

    assert!(fs.is_dir(&mut disk, "/"));
    assert!(fs.is_dir(&mut disk, "/etc"));
    assert!(!fs.is_dir(&mut disk, "/welcome.txt"));

    let welcome = fs.read_file(&mut disk, "/welcome.txt").expect("read welcome");
    assert_eq!(welcome, b"Welcome to Willo!\nType `help`.\n".to_vec());
    let version = fs.read_file(&mut disk, "/etc/version").expect("read version");
    assert!(version.starts_with(b"willo 0.9"));

    let root = sorted(fs.list_dir(&mut disk, "/").expect("list root"));
    assert_eq!(root, vec!["bin", "etc", "welcome.txt"]);
    let etc = sorted(fs.list_dir(&mut disk, "/etc").expect("list etc"));
    assert_eq!(etc, vec!["motd", "version"]);
    assert!(fs.list_dir(&mut disk, "/bin").unwrap().is_empty());

    // Names match without regard to case.
    assert_eq!(fs.read_file(&mut disk, "/ETC/VERSION").unwrap(), version);

    assert_eq!(fs.read_file(&mut disk, "/nope"), Err(FsError::NotFound));
    assert_eq!(fs.read_file(&mut disk, "/etc"), Err(FsError::IsADir));
    assert_eq!(fs.list_dir(&mut disk, "/welcome.txt"), Err(FsError::NotADir));
    assert_eq!(fs.read_file(&mut disk, "/welcome.txt/x"), Err(FsError::NotADir));
    assert!(fs.writable());
    assert_eq!(fs.backing(), "fat32 on /dev/ata1");
}

#[test]
fn fat_mount_refuses_a_blank_disk() {
    let mut disk = MemDisk::new(64);
    assert!(FatFs::mount(&mut disk).is_err());
    let mut tiny = MemDisk::new(0);
    assert_eq!(FatFs::mount(&mut tiny).err(), Some(FsError::Io));
}

#[test]
fn fat_write_create_dir_remove() {
    let mut disk = MemDisk::from_image(seeded_image());
    let fs = FatFs::mount(&mut disk).expect("FAT mount");

    // 1. Create a fresh file at root and read it back.
    fs.write_file(&mut disk, "/notes.txt", b"first line\n").expect("write notes");
    assert_eq!(fs.read_file(&mut disk, "/notes.txt").unwrap(), b"first line\n".to_vec());

    // 1b. Append a second line.
    fs.append_file(&mut disk, "/notes.txt", b"second line\n").expect("append notes");
    assert_eq!(fs.read_file(&mut disk, "/notes.txt").unwrap(), b"first line\nsecond line\n".to_vec());

    // 1c. Append to a missing path creates it.
    fs.append_file(&mut disk, "/created.txt", b"hello\n").expect("append-create");
    assert_eq!(fs.read_file(&mut disk, "/created.txt").unwrap(), b"hello\n".to_vec());
    fs.remove(&mut disk, "/created.txt").expect("rm created");

    // 2. Overwrite with longer content.
    let big = make_filler(2500);
    fs.write_file(&mut disk, "/notes.txt", &big).expect("rewrite notes");
    assert_eq!(fs.read_file(&mut disk, "/notes.txt").unwrap(), big);

    // 3. A new directory with a file inside.
    fs.create_dir(&mut disk, "/work").expect("mkdir work");
    assert!(fs.is_dir(&mut disk, "/work"));
    assert!(fs.list_dir(&mut disk, "/work").unwrap().is_empty());
    fs.write_file(&mut disk, "/work/log.txt", b"hello from /work\n").expect("write log");
    assert_eq!(fs.read_file(&mut disk, "/work/log.txt").unwrap(), b"hello from /work\n".to_vec());

    // 4. Listing reflects the new entries.
    let root = sorted(fs.list_dir(&mut disk, "/").unwrap());
    assert!(root.iter().any(|n| n == "notes.txt"), "got {root:?}");
    assert!(root.iter().any(|n| n == "work"), "got {root:?}");

    // 5. Remove the file, then the empty directory, then the notes.
    assert_eq!(fs.remove(&mut disk, "/work"), Err(FsError::Io));
    fs.remove(&mut disk, "/work/log.txt").expect("rm log");
    assert_eq!(fs.read_file(&mut disk, "/work/log.txt"), Err(FsError::NotFound));
    fs.remove(&mut disk, "/work").expect("rmdir work");
    assert!(!fs.is_dir(&mut disk, "/work"));
    fs.remove(&mut disk, "/notes.txt").expect("rm notes");
    let root = sorted(fs.list_dir(&mut disk, "/").unwrap());
    assert_eq!(root, vec!["bin", "etc", "welcome.txt"]);
}

#[test]
fn fat_write_errors() {
    let mut disk = MemDisk::from_image(seeded_image());
    let fs = FatFs::mount(&mut disk).expect("FAT mount");
    let before = disk.to_image();
    assert_eq!(fs.write_file(&mut disk, "/welcome.txt/x", b"x"), Err(FsError::NotADir));
    assert_eq!(fs.write_file(&mut disk, "/no/such/file", b"x"), Err(FsError::NotADir));
    assert_eq!(fs.write_file(&mut disk, "/etc", b"x"), Err(FsError::IsADir));
    assert_eq!(fs.create_dir(&mut disk, "/etc"), Err(FsError::Io));
    assert_eq!(fs.remove(&mut disk, "/nope"), Err(FsError::NotFound));
    assert_eq!(fs.create_file(&mut disk, "/"), Err(FsError::Io));
    assert_eq!(fs.create_file(&mut disk, "/etc"), Err(FsError::IsADir));
    assert_eq!(fs.append_file(&mut disk, "/etc", b"x"), Err(FsError::IsADir));
    assert_eq!(fs.remove(&mut disk, "/nope/x"), Err(FsError::NotFound));
    assert_eq!(fs.remove(&mut disk, "/welcome.txt/x"), Err(FsError::NotADir));
    assert_eq!(fs.create_dir(&mut disk, "/welcome.txt"), Err(FsError::Io));
    // None of the refused requests changed the disk.
    assert!(disk.to_image() == before, "a refused request changed the disk");
}

#[test]
fn fat_create_file_truncates() {
    let mut disk = MemDisk::from_image(seeded_image());
    let fs = FatFs::mount(&mut disk).expect("FAT mount");
    fs.create_file(&mut disk, "/empty.txt").unwrap();
    assert_eq!(fs.read_file(&mut disk, "/empty.txt").unwrap(), Vec::<u8>::new());
    fs.create_file(&mut disk, "/welcome.txt").unwrap();
    assert_eq!(fs.read_file(&mut disk, "/welcome.txt").unwrap(), Vec::<u8>::new());
}

#[test]
fn fat_writes_are_readable_by_another_implementation() {
    let mut disk = MemDisk::from_image(seeded_image());
    let fs = FatFs::mount(&mut disk).expect("FAT mount");
    let big = make_filler(5000);
    fs.create_dir(&mut disk, "/work").unwrap();
    fs.write_file(&mut disk, "/work/big.txt", &big).unwrap();
    fs.write_file(&mut disk, "/etc/motd", b"new motd\n").unwrap();

    let image = disk.to_image();
    let mut cur = Cursor::new(image);
    let other = fatfs::FileSystem::new(&mut cur, fatfs::FsOptions::new()).unwrap();
    let root = other.root_dir();
    let mut s = Vec::new();
    root.open_file("work/big.txt").unwrap().read_to_end(&mut s).unwrap();
    assert_eq!(s, big);
    let mut m = Vec::new();
    root.open_file("etc/motd").unwrap().read_to_end(&mut m).unwrap();
    assert_eq!(m, b"new motd\n".to_vec());
}

#[test]
fn fat_writes_keep_the_boot_sector() {
    let image = seeded_image();
    let boot: Vec<u8> = image[..512].to_vec();
    let mut disk = MemDisk::from_image(image);
    let fs = FatFs::mount(&mut disk).expect("FAT mount");
    fs.write_file(&mut disk, "/a.txt", b"abc").unwrap();
    fs.create_dir(&mut disk, "/d").unwrap();
    fs.remove(&mut disk, "/a.txt").unwrap();
    let after = disk.to_image();
    assert_eq!(&after[..512], boot.as_slice());
    let again = FatFs::mount(&mut disk).expect("remount");
    assert_eq!(again.root_cluster, fs.root_cluster);
    assert_eq!(again.data_start_lba, fs.data_start_lba);
}

#[test]
fn fat_short_name_reads_back_lowercase() {
    let mut disk = MemDisk::from_image(seeded_image());
    let fs = FatFs::mount(&mut disk).expect("FAT mount");
    fs.write_file(&mut disk, "/ReadMe.TXT", b"r").unwrap();
    let root = sorted(fs.list_dir(&mut disk, "/").unwrap());
    assert!(root.iter().any(|n| n == "readme.txt"), "got {root:?}");
    assert_eq!(fs.read_file(&mut disk, "/readme.txt").unwrap(), b"r".to_vec());
}

#[test]
fn memdisk_blocks_round_trip() {
    let mut disk = MemDisk::new(4);
    assert_eq!(disk.num_blocks(), 4);
    let data = vec![0xABu8; 512];
    assert_eq!(disk.write_block(2, &data), Ok(512));
    let mut buf = vec![0u8; 600];
    assert_eq!(disk.read_block(2, &mut buf), Ok(512));
    assert!(buf[..512].iter().all(|&b| b == 0xAB));
    assert!(buf[512..].iter().all(|&b| b == 0));
    assert_eq!(disk.read_block(4, &mut buf), Err(willo::block::BlockError::OutOfRange));
    let mut short = vec![0u8; 10];
    assert_eq!(disk.read_block(0, &mut short), Err(willo::block::BlockError::OutOfRange));
}

#[test]
fn fat_directory_grows_past_its_first_cluster() {
    let mut disk = MemDisk::from_image(seeded_image());
    let fs = FatFs::mount(&mut disk).expect("FAT mount");
    fs.create_dir(&mut disk, "/many").unwrap();
    let per_cluster = fs.sectors_per_cluster as usize * 16;
    let count = per_cluster * 2 + 5;
    for i in 0..count {
        let path = format!("/many/f{i}.txt");
        fs.write_file(&mut disk, &path, format!("file {i}\n").as_bytes()).unwrap();
    }
    for i in 0..count {
        let path = format!("/many/f{i}.txt");
        assert_eq!(fs.read_file(&mut disk, &path).unwrap(), format!("file {i}\n").into_bytes());
    }
    assert_eq!(fs.list_dir(&mut disk, "/many").unwrap().len(), count);

    let image = disk.to_image();
    let mut cur = Cursor::new(image);
    let other = fatfs::FileSystem::new(&mut cur, fatfs::FsOptions::new()).unwrap();
    let dir = other.root_dir().open_dir("many").unwrap();
    let names: Vec<String> = dir.iter().map(|e| e.unwrap().file_name()).filter(|n| n != "." && n != "..").collect();
    assert_eq!(names.len(), count);
    let mut s = Vec::new();
    dir.open_file(&format!("f{}.txt", count - 1)).unwrap().read_to_end(&mut s).unwrap();
    assert_eq!(s, format!("file {}\n", count - 1).into_bytes());
}

#[test]
fn fat_write_keeps_other_files() {
    let mut disk = MemDisk::from_image(seeded_image());
    let fs = FatFs::mount(&mut disk).expect("FAT mount");
    let welcome = fs.read_file(&mut disk, "/welcome.txt").unwrap();
    let version = fs.read_file(&mut disk, "/etc/version").unwrap();
    let motd = fs.read_file(&mut disk, "/etc/motd").unwrap();

    let big = make_filler(9000);
    fs.write_file(&mut disk, "/bin/tool", &big).expect("write tool");
    assert_eq!(fs.read_file(&mut disk, "/bin/tool").unwrap(), big);
    assert_eq!(fs.read_file(&mut disk, "/welcome.txt").unwrap(), welcome);
    assert_eq!(fs.read_file(&mut disk, "/etc/version").unwrap(), version);
    assert_eq!(fs.read_file(&mut disk, "/etc/motd").unwrap(), motd);

    fs.write_file(&mut disk, "/bin/tool", b"short\n").expect("rewrite tool");
    assert_eq!(fs.read_file(&mut disk, "/bin/tool").unwrap(), b"short\n".to_vec());
    assert_eq!(fs.read_file(&mut disk, "/welcome.txt").unwrap(), welcome);
    assert_eq!(fs.read_file(&mut disk, "/etc/motd").unwrap(), motd);

    fs.append_file(&mut disk, "/bin/tool", &big).expect("append tool");
    let mut both = b"short\n".to_vec();
    both.extend_from_slice(&big);
    assert_eq!(fs.read_file(&mut disk, "/bin/tool").unwrap(), both);
    assert_eq!(fs.read_file(&mut disk, "/welcome.txt").unwrap(), welcome);
    assert_eq!(fs.read_file(&mut disk, "/etc/version").unwrap(), version);

    fs.remove(&mut disk, "/bin/tool").expect("rm tool");
    assert_eq!(fs.read_file(&mut disk, "/bin/tool"), Err(FsError::NotFound));
    assert_eq!(fs.read_file(&mut disk, "/welcome.txt").unwrap(), welcome);
    assert_eq!(fs.read_file(&mut disk, "/etc/version").unwrap(), version);
    assert_eq!(fs.read_file(&mut disk, "/etc/motd").unwrap(), motd);

    fs.create_file(&mut disk, "/bin/empty").expect("touch empty");
    fs.create_dir(&mut disk, "/bin/sub").expect("mkdir sub");
    assert_eq!(fs.read_file(&mut disk, "/bin/empty").unwrap(), Vec::<u8>::new());
    assert!(fs.list_dir(&mut disk, "/bin/sub").unwrap().is_empty());
    assert_eq!(fs.read_file(&mut disk, "/welcome.txt").unwrap(), welcome);
    assert_eq!(fs.read_file(&mut disk, "/etc/version").unwrap(), version);
    assert_eq!(fs.read_file(&mut disk, "/etc/motd").unwrap(), motd);

    // Files beside the one changed, in the same directory, keep theirs too.
    fs.write_file(&mut disk, "/etc/version", &big).expect("rewrite version");
    assert_eq!(fs.read_file(&mut disk, "/etc/version").unwrap(), big);
    assert_eq!(fs.read_file(&mut disk, "/etc/motd").unwrap(), motd);
    fs.write_file(&mut disk, "/bin/sub/deep", b"deep\n").expect("write deep");
    fs.remove(&mut disk, "/bin/empty").expect("rm empty");
    assert_eq!(fs.read_file(&mut disk, "/bin/sub/deep").unwrap(), b"deep\n".to_vec());
    fs.remove(&mut disk, "/etc/version").expect("rm version");
    assert_eq!(fs.read_file(&mut disk, "/etc/motd").unwrap(), motd);
    assert_eq!(fs.read_file(&mut disk, "/welcome.txt").unwrap(), welcome);
}

/// The FAT copies of `image`, each as its bytes.
fn fat_copies(fs: &FatFs, image: &[u8]) -> Vec<Vec<u8>> {
    let spf = fs.sectors_per_fat as usize * 512;
    let start = fs.fat_start_lba as usize * 512;
    (0..fs.num_fats as usize).map(|j| image[start + j * spf..start + (j + 1) * spf].to_vec()).collect()
}

/// How many clusters the first FAT copy marks free.
fn free_clusters(fs: &FatFs, image: &[u8]) -> usize {
    let start = fs.fat_start_lba as usize * 512;
    let entries = fs.sectors_per_fat as usize * 128;
    (2..entries)
        .filter(|c| {
            let p = start + 4 * c;
            u32::from_le_bytes([image[p], image[p + 1], image[p + 2], image[p + 3]]) & 0x0FFF_FFFF == 0
        })
        .count()
}

#[test]
fn fat_writes_keep_the_fat_copies_alike() {
    let mut disk = MemDisk::from_image(seeded_image());
    let fs = FatFs::mount(&mut disk).expect("FAT mount");
    assert!(fs.num_fats >= 2);
    fs.write_file(&mut disk, "/big.txt", &make_filler(9000)).unwrap();
    fs.create_dir(&mut disk, "/d").unwrap();
    for i in 0..40 {
        fs.create_file(&mut disk, &format!("/d/f{}.txt", i)).unwrap();
    }
    fs.remove(&mut disk, "/etc/motd").unwrap();
    let image = disk.to_image();
    let copies = fat_copies(&fs, &image);
    for c in &copies[1..] {
        assert!(c == &copies[0]);
    }
}

#[test]
fn fat_overwrite_frees_the_old_clusters() {
    let mut disk = MemDisk::from_image(seeded_image());
    let fs = FatFs::mount(&mut disk).expect("FAT mount");
    let before = free_clusters(&fs, &disk.to_image());
    let cluster_bytes = fs.sectors_per_cluster as usize * 512;
    fs.write_file(&mut disk, "/big.txt", &make_filler(4 * cluster_bytes)).unwrap();
    let after_big = free_clusters(&fs, &disk.to_image());
    assert!(after_big + 4 <= before);
    fs.write_file(&mut disk, "/big.txt", b"small\n").unwrap();
    assert_eq!(free_clusters(&fs, &disk.to_image()), after_big + 3);
    fs.remove(&mut disk, "/big.txt").unwrap();
    assert_eq!(free_clusters(&fs, &disk.to_image()), after_big + 4);
    assert_eq!(fs.read_file(&mut disk, "/etc/motd").unwrap(), b"the kernel that fits in your head\n".to_vec());
}
