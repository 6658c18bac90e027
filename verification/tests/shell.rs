use std::io::{Cursor, Write};
use willo::block::MemDisk;
use willo::shell::{Shell, CLEAR_SENTINEL, HELP_TEXT};
use willo::vfs::{mount_root, Vfs};

fn seeded_image() -> Vec<u8> {
    let mut img = Cursor::new(vec![0u8; 64 * 1024 * 1024]);
    let opts = fatfs::FormatVolumeOptions::new().fat_type(fatfs::FatType::Fat32);
    fatfs::format_volume(&mut img, opts).unwrap();
    img.set_position(0);
    {
        let fs = fatfs::FileSystem::new(&mut img, fatfs::FsOptions::new()).unwrap();
        {
            let root = fs.root_dir();
            let mut welcome = root.create_file("welcome.txt").unwrap();
            welcome.write_all(b"Welcome to Willo!\nType `help`.\n").unwrap();
            welcome.flush().unwrap();
            let etc = root.create_dir("etc").unwrap();
            let mut version = etc.create_file("version").unwrap();
            version.write_all(b"willo 0.9 (M9)\n").unwrap();
            version.flush().unwrap();
            let mut motd = etc.create_file("motd").unwrap();
            motd.write_all(b"the kernel that fits in your head\n").unwrap();
            motd.flush().unwrap();
            root.create_dir("bin").unwrap();
        }
        fs.unmount().unwrap();
    }
    img.into_inner()
}

fn fat_shell() -> Shell<MemDisk> {
    Shell::new(mount_root(MemDisk::from_image(seeded_image()), true, true))
}

fn ram_shell() -> Shell<MemDisk> {
    Shell::new(mount_root(MemDisk::new(0), false, true))
}

fn check_shell_commands(mut sh: Shell<MemDisk>) {
    assert_eq!(sh.execute_line("pwd"), "/\n");
    assert_eq!(sh.execute_line(""), "");

    let ls_root = sh.execute_line("ls");
    assert!(ls_root.contains("etc/"), "got {ls_root:?}");
    assert!(ls_root.contains("welcome.txt"), "got {ls_root:?}");
    assert!(ls_root.contains("tmp/"), "got {ls_root:?}");
    assert!(ls_root.contains("dev/"), "got {ls_root:?}");
    assert!(ls_root.contains("ram/"), "got {ls_root:?}");

    let mounts = sh.execute_line("mount");
    assert!(mounts.contains("/ on "), "got {mounts:?}");
    assert!(mounts.contains("/tmp on tmpfs"), "got {mounts:?}");
    assert!(mounts.contains("/dev on devfs"), "got {mounts:?}");
    assert!(mounts.contains("/ram on "), "got {mounts:?}");

    assert_eq!(sh.execute_line("write /tmp/note hello world"), "");
    let cat_tmp = sh.execute_line("cat /tmp/note");
    assert!(cat_tmp.contains("hello world"), "got {cat_tmp:?}");

    let touch_dev = sh.execute_line("touch /dev/foo");
    assert!(touch_dev.starts_with("touch:"), "expected refusal, got {touch_dev:?}");

    let ls_etc = sh.execute_line("ls /etc");
    assert!(ls_etc.contains("version"));
    assert!(ls_etc.contains("motd"));

    assert_eq!(sh.execute_line("cd /etc"), "");
    assert_eq!(sh.execute_line("pwd"), "/etc\n");
    assert_eq!(sh.execute_line("cd .."), "");
    assert_eq!(sh.execute_line("pwd"), "/\n");

    let cat_motd = sh.execute_line("cat /etc/motd");
    assert!(cat_motd.contains("the kernel"), "got {cat_motd:?}");

    assert_eq!(sh.execute_line("echo hi  there"), "hi there\n");
    assert_eq!(sh.execute_line("echo"), "\n");

    let nope = sh.execute_line("nope");
    assert!(nope.starts_with("willo: command not found"), "got {nope:?}");

    let bad_cd = sh.execute_line("cd /no/such");
    assert!(bad_cd.starts_with("cd: "), "got {bad_cd:?}");

    let help = sh.execute_line("help");
    assert!(help.contains("pwd"));
    assert!(help.contains("cat"));
}

#[test]
fn shell_commands_on_fat_root() {
    check_shell_commands(fat_shell());
}

#[test]
fn shell_commands_on_ramfs_fallback() {
    check_shell_commands(ram_shell());
}

#[test]
fn shell_exact_outputs() {
    let mut sh = fat_shell();
    assert_eq!(sh.prompt(), "willo:/$ ");
    assert_eq!(sh.execute_line("ls /"), "bin/\ndev/\netc/\nram/\ntmp/\nwelcome.txt\n");
    assert_eq!(sh.execute_line("ls /etc"), "motd\nversion\n");
    assert_eq!(
        sh.execute_line("mount"),
        "/ on fat32 on /dev/ata1\n/tmp on tmpfs\n/dev on devfs\n/ram on ramfs (no data disk)\n"
    );
    assert_eq!(sh.execute_line("  echo   a\tb  "), "a b\n");
    assert_eq!(sh.execute_line("clear"), CLEAR_SENTINEL);
    assert_eq!(sh.execute_line("help"), HELP_TEXT);
    assert_eq!(sh.execute_line("cat /etc/version"), "willo 0.9 (M9)\n");
    assert_eq!(sh.execute_line("cd etc"), "");
    assert_eq!(sh.prompt(), "willo:/etc$ ");
    assert_eq!(sh.execute_line("cat version"), "willo 0.9 (M9)\n");
    assert_eq!(sh.execute_line("cd"), "");
    assert_eq!(sh.execute_line("pwd"), "/\n");
    assert_eq!(sh.execute_line("cd /welcome.txt"), "cd: not a directory: /welcome.txt\n");
    assert_eq!(sh.execute_line("frobnicate now"), "willo: command not found: frobnicate\n");
}

#[test]
fn shell_missing_operands() {
    let mut sh = ram_shell();
    assert_eq!(sh.execute_line("cat"), "cat: missing operand\n");
    assert_eq!(sh.execute_line("touch"), "touch: missing operand\n");
    assert_eq!(sh.execute_line("mkdir"), "mkdir: missing operand\n");
    assert_eq!(sh.execute_line("rm"), "rm: missing operand\n");
    assert_eq!(sh.execute_line("write"), "write: missing operand: <path> <text...>\n");
}

#[test]
fn shell_error_messages() {
    let mut sh = ram_shell();
    assert_eq!(sh.execute_line("cat /nope"), "cat: not found: /nope\n");
    assert_eq!(sh.execute_line("cat /etc"), "cat: is a directory: /etc\n");
    assert_eq!(sh.execute_line("cat /welcome.txt/x"), "cat: not a directory: /welcome.txt/x\n");
    assert_eq!(sh.execute_line("cat /dev/console"), "cat: unsupported: /dev/console\n");
    assert_eq!(sh.execute_line("ls /nope"), "ls: not found: /nope\n");
    assert_eq!(sh.execute_line("ls /welcome.txt"), "ls: not a directory: /welcome.txt\n");
    assert_eq!(sh.execute_line("touch /etc/x"), "touch: read-only filesystem\n");
    assert_eq!(sh.execute_line("mkdir /tmp/a/b"), "mkdir: /tmp/a/b: NotFound\n");
    assert_eq!(sh.execute_line("rm /tmp/none"), "rm: /tmp/none: NotFound\n");
    assert_eq!(sh.execute_line("write /tmp x y"), "write: /tmp: Io\n");
}

#[test]
fn shell_tmp_round_trip() {
    let mut sh = ram_shell();
    assert_eq!(sh.execute_line("mkdir /tmp/a"), "");
    assert_eq!(sh.execute_line("touch /tmp/a/empty"), "");
    assert_eq!(sh.execute_line("write /tmp/a/f one two   three"), "");
    assert_eq!(sh.execute_line("cat /tmp/a/f"), "one two three\n");
    assert_eq!(sh.execute_line("cat /tmp/a/empty"), "\n");
    assert_eq!(sh.execute_line("ls /tmp/a"), "empty\nf\n");
    assert_eq!(sh.execute_line("ls /tmp"), "a/\n");
    assert_eq!(sh.execute_line("rm /tmp/a"), "rm: /tmp/a: Io\n");
    assert_eq!(sh.execute_line("rm /tmp/a/f"), "");
    assert_eq!(sh.execute_line("rm /tmp/a/empty"), "");
    assert_eq!(sh.execute_line("rm /tmp/a"), "");
    assert_eq!(sh.execute_line("ls /tmp"), "");
    assert_eq!(sh.execute_line("write /tmp/w"), "");
    assert_eq!(sh.execute_line("cat /tmp/w"), "\n");
}

#[test]
fn shell_fat_write_persists_on_disk() {
    let mut sh = fat_shell();
    assert_eq!(sh.execute_line("write /hello.txt hi there"), "");
    assert_eq!(sh.execute_line("cat /hello.txt"), "hi there\n");
    assert_eq!(sh.execute_line("mkdir /docs"), "");
    assert_eq!(sh.execute_line("ls /docs"), "");
    assert!(sh.execute_line("ls").contains("docs/"));
    assert_eq!(sh.execute_line("rm /hello.txt"), "");
    assert_eq!(sh.execute_line("cat /hello.txt"), "cat: not found: /hello.txt\n");
}

#[test]
fn shell_uptime_and_proc() {
    let mut sh = ram_shell();
    assert_eq!(sh.execute_line("uptime"), "0 ticks\n");
    sh.set_ticks(4242);
    assert_eq!(sh.execute_line("uptime"), "4242 ticks\n");
    assert_eq!(sh.execute_line("cat /proc/uptime"), "4242 ticks\n");
    assert_eq!(sh.execute_line("cat /ram/proc/uptime"), "4242 ticks\n");
}

#[test]
fn shell_cat_non_utf8_bytes() {
    let mut sh = ram_shell();
    // /dev/zero gives 4096 NUL bytes: valid UTF-8, shown as NUL characters.
    let z = sh.execute_line("cat /dev/zero");
    assert_eq!(z.len(), 4097);
    assert!(z.ends_with('\n'));
}

#[test]
fn shell_console_writes_are_queued() {
    let mut sh = ram_shell();
    assert_eq!(sh.execute_line("write /dev/console to the screen"), "");
    assert_eq!(sh.take_console(), vec![b"to the screen\n".to_vec()]);
    assert_eq!(sh.execute_line("write /dev/serial0 over the wire"), "");
    assert_eq!(sh.take_serial(), b"over the wire\n".to_vec());
    assert_eq!(sh.execute_line("write /dev/null gone"), "");
}

#[test]
fn vfs_resolution_and_listing() {
    let mut v: Vfs<MemDisk> = mount_root(MemDisk::from_image(seeded_image()), true, true);
    assert_eq!(v.read_file("/etc/motd").unwrap(), b"the kernel that fits in your head\n".to_vec());
    assert_eq!(v.read_file("/ram/etc/version").unwrap(), b"willo 0.9 (M9)\n".to_vec());
    let motd_before = v.read_file("/etc/motd").unwrap();
    assert_eq!(v.write_file("/tmp/log", b"x"), Ok(()));
    assert_eq!(v.read_file("/tmp/log").unwrap(), b"x".to_vec());
    assert_eq!(v.read_file("/etc/motd").unwrap(), motd_before);
    assert_eq!(v.read_file("tmp/log"), Err(willo::vfs::FsError::NotFound));
    assert!(v.is_dir("/"));
    assert!(v.is_dir("/tmp"));
    assert!(v.is_dir("/tmp/"));
    assert!(v.is_dir("/dev"));
    assert!(!v.is_dir("/tmp/log"));
    assert!(v.writable("/tmp/x"));
    assert!(!v.writable("/ram/x"));
    assert!(!v.writable("relative"));
    assert_eq!(v.backing("/tmp/x"), "tmpfs");
    assert_eq!(v.backing("/tmpfoo"), "fat32 on /dev/ata1");
    assert_eq!(v.backing("nowhere"), "?");
    let mut root = v.list_dir("/").unwrap();
    root.sort();
    assert_eq!(root, vec!["bin", "dev", "etc", "ram", "tmp", "welcome.txt"]);
    assert_eq!(v.list_dir("/dev").unwrap(), vec!["console", "null", "zero", "serial0", "disk0"]);
    let m: Vec<(String, &str)> = v.mounts();
    assert_eq!(m.len(), 4);
    assert_eq!(m[0].0, "/");
    assert_eq!(m[1], ("/tmp".to_string(), "tmpfs"));
}

#[test]
fn vfs_mount_and_unmount() {
    let mut v: Vfs<MemDisk> = mount_root(MemDisk::new(0), false, true);
    assert_eq!(v.mount("/mnt/", willo::vfs::MountedFs::Tmp(willo::tmp::TmpFs::new())), Ok(()));
    assert_eq!(v.mounts()[4].0, "/mnt");
    assert_eq!(v.mount("/mnt", willo::vfs::MountedFs::Tmp(willo::tmp::TmpFs::new())), Err(willo::vfs::FsError::Io));
    assert_eq!(v.mount("mnt2", willo::vfs::MountedFs::Tmp(willo::tmp::TmpFs::new())), Err(willo::vfs::FsError::Io));
    assert_eq!(v.write_file("/mnt/a", b"1"), Ok(()));
    assert_eq!(v.read_file("/mnt/a").unwrap(), b"1".to_vec());
    assert_eq!(v.unmount("/mnt"), Ok(()));
    assert_eq!(v.unmount("/mnt"), Err(willo::vfs::FsError::NotFound));
    assert_eq!(v.read_file("/mnt/a"), Err(willo::vfs::FsError::NotFound));
    assert_eq!(v.mounts().len(), 4);
    for i in 0..4 {
        let p = format!("/m{i}");
        assert_eq!(v.mount(&p, willo::vfs::MountedFs::Tmp(willo::tmp::TmpFs::new())), Ok(()));
    }
    assert_eq!(v.mount("/full", willo::vfs::MountedFs::Tmp(willo::tmp::TmpFs::new())), Err(willo::vfs::FsError::Unsupported));
}

#[test]
fn vfs_read_at_slices_files() {
    let mut v: Vfs<MemDisk> = mount_root(MemDisk::new(0), false, true);
    let mut buf = [0u8; 4];
    assert_eq!(v.read_at("/etc/version", 6, &mut buf), Ok(4));
    assert_eq!(&buf, b"0.9 ");
    let mut big = [9u8; 32];
    assert_eq!(v.read_at("/etc/version", 10, &mut big), Ok(5));
    assert_eq!(&big[..5], b"(M9)\n");
    assert_eq!(big[5], 9);
    assert_eq!(v.read_at("/etc/version", 100, &mut buf), Ok(0));
    assert_eq!(v.read_at("/etc", 0, &mut buf), Err(willo::vfs::FsError::IsADir));
    let mut z = [1u8; 16];
    assert_eq!(v.read_at("/dev/zero", 3, &mut z), Ok(16));
    assert_eq!(z, [0u8; 16]);
    assert_eq!(v.write_at("/dev/null", 0, b"abc"), Ok(3));
    assert_eq!(v.write_at("/tmp/x", 0, b"abc"), Err(willo::vfs::FsError::Unsupported));
}

#[test]
fn console_text_passes_bytes_through() {
    assert_eq!(willo::shell::console_text(&[b'h', 0xFF]), "h\u{ff}");
    assert_eq!(willo::shell::console_text("héllo".as_bytes()), "héllo");
    assert_eq!(willo::shell::console_text(&[]), "");
}
