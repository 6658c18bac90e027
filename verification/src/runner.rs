//! Decisions of the host-side runner that boots the kernel in QEMU: whether
//! a binary is a test, how QEMU is started, and what the runner exits with.

use vstd::prelude::*;
use crate::path::{chars_of, chars_eq, push_str_chars, strings_view};
use crate::machine::QemuExitCode;
use crate::ata::{ATA_PRIMARY_BASE, ATA_PRIMARY_CTRL};

verus! {

/// Cargo places test binaries in a directory called `deps`.
pub fn is_test_dir(parent_name: &str) -> (r: bool)
    ensures
        r == (parent_name@ == "deps"@),
{
    chars_eq(chars_of(parent_name).as_slice(), chars_of("deps").as_slice())
}

/// The file name of a binary of the FAT write test starts with `fat_write`.
pub fn is_fat_write_name(file_name: &str) -> (r: bool)
    ensures
        r == ("fat_write"@.len() <= file_name@.len() && file_name@.take("fat_write"@.len() as int) == "fat_write"@),
{
    let name = chars_of(file_name);
    let prefix = chars_of("fat_write");
    if prefix.len() > name.len() {
        return false;
    }
    let mut i: usize = 0;
    while i < prefix.len()
        invariant
            i <= prefix@.len() <= name@.len(),
            prefix@ == "fat_write"@,
            name@ == file_name@,
            forall|k: int| 0 <= k < i ==> name@[k] == prefix@[k],
        decreases prefix@.len() - i,
    {
        if name[i] != prefix[i] {
            assert(name@.take(prefix@.len() as int)[i as int] != prefix@[i as int]);
            return false;
        }
        i = i + 1;
    }
    assert(name@.take(prefix@.len() as int) =~= prefix@);
    true
}

/// Run without a window when asked to, and for tests unless a window is
/// asked for.
pub fn headless(headless_env: bool, gui_env: bool, is_test: bool) -> (r: bool)
    ensures
        r == (headless_env || (is_test && !gui_env)),
{
    headless_env || (is_test && !gui_env)
}

/// The QEMU arguments for the boot image `disk` and the data disk `data`.
pub open spec fn spec_qemu_args(disk: Seq<char>, data: Seq<char>, headless: bool) -> Seq<Seq<char>> {
    let common = seq![
        "-drive"@,
        "file="@ + disk + ",if=ide,index=0,format=raw"@,
        "-drive"@,
        "file="@ + data + ",if=ide,index=1,format=raw"@,
        "-no-reboot"@,
        "-device"@,
        "isa-debug-exit,iobase=0xf4,iosize=0x04"@,
        "-m"@,
        "256M"@,
    ];
    if headless {
        common + seq!["-display"@, "none"@, "-serial"@, "stdio"@]
    } else {
        common + seq!["-serial"@, "mon:stdio"@]
    }
}

fn lit(s: &str) -> (r: String)
    ensures
        r@ == s@,
{
    let mut out = String::new();
    push_str_chars(&mut out, s);
    out
}

fn joined(a: &str, b: &str, c: &str) -> (r: String)
    ensures
        r@ == a@ + b@ + c@,
{
    let mut out = String::new();
    push_str_chars(&mut out, a);
    push_str_chars(&mut out, b);
    push_str_chars(&mut out, c);
    out
}

/// The arguments QEMU is started with.
pub fn qemu_args(disk: &str, data: &str, headless: bool) -> (r: Vec<String>)
    ensures
        strings_view(r@) == spec_qemu_args(disk@, data@, headless),
{
    let mut v: Vec<String> = Vec::new();
    v.push(lit("-drive"));
    v.push(joined("file=", disk, ",if=ide,index=0,format=raw"));
    v.push(lit("-drive"));
    v.push(joined("file=", data, ",if=ide,index=1,format=raw"));
    v.push(lit("-no-reboot"));
    v.push(lit("-device"));
    v.push(lit("isa-debug-exit,iobase=0xf4,iosize=0x04"));
    v.push(lit("-m"));
    v.push(lit("256M"));
    if headless {
        v.push(lit("-display"));
        v.push(lit("none"));
        v.push(lit("-serial"));
        v.push(lit("stdio"));
    } else {
        v.push(lit("-serial"));
        v.push(lit("mon:stdio"));
    }
    assert(strings_view(v@) =~= spec_qemu_args(disk@, data@, headless));
    v
}

/// The lines printed once both disks are converted for VirtualBox: where the
/// images are, the commands that register the VM with the disks on the IDE
/// (PIIX4) controller the ATA driver speaks to and boot it, how to remove
/// it, and why the VM idles at the end of a run.
pub open spec fn spec_vbox_lines(vdi: Seq<char>, data_vdi: Seq<char>) -> Seq<Seq<char>> {
    seq![
        ""@,
        "[willo] boot VDI: "@ + vdi,
        "[willo] data VDI: "@ + data_vdi,
        "[willo] copy-paste these commands to register and boot in VirtualBox:"@,
        ""@,
        "  VBoxManage createvm --name Willo --ostype Other_64 --register"@,
        "  VBoxManage modifyvm Willo --memory 256 --firmware bios \\\n    --boot1 disk --boot2 none --boot3 none --boot4 none"@,
        "  VBoxManage storagectl Willo --name IDE --add ide \\\n    --controller PIIX4 --bootable on"@,
        "  VBoxManage storageattach Willo --storagectl IDE --port 0 --device 0 \\\n    --type hdd --medium "@ + vdi,
        "  VBoxManage storageattach Willo --storagectl IDE --port 0 --device 1 \\\n    --type hdd --medium "@ + data_vdi,
        "  VBoxManage startvm Willo"@,
        ""@,
        "  # teardown later:"@,
        "  VBoxManage unregistervm Willo --delete"@,
        ""@,
        "note: the kernel uses QEMU's isa-debug-exit (port 0xf4) to exit."@,
        "      VirtualBox doesn't wire that port, so on Success/Failed the"@,
        "      kernel will idle in a nop loop. Power-off the VM to stop."@,
    ]
}

/// The lines printed once both disks are converted for VirtualBox.
pub fn vbox_lines(vdi: &str, data_vdi: &str) -> (r: Vec<String>)
    ensures
        strings_view(r@) == spec_vbox_lines(vdi@, data_vdi@),
{
    let mut v: Vec<String> = Vec::new();
    v.push(lit(""));
    v.push(joined("[willo] boot VDI: ", vdi, ""));
    v.push(joined("[willo] data VDI: ", data_vdi, ""));
    v.push(lit("[willo] copy-paste these commands to register and boot in VirtualBox:"));
    v.push(lit(""));
    v.push(lit("  VBoxManage createvm --name Willo --ostype Other_64 --register"));
    v.push(lit("  VBoxManage modifyvm Willo --memory 256 --firmware bios \\\n    --boot1 disk --boot2 none --boot3 none --boot4 none"));
    v.push(lit("  VBoxManage storagectl Willo --name IDE --add ide \\\n    --controller PIIX4 --bootable on"));
    v.push(joined("  VBoxManage storageattach Willo --storagectl IDE --port 0 --device 0 \\\n    --type hdd --medium ", vdi, ""));
    v.push(joined("  VBoxManage storageattach Willo --storagectl IDE --port 0 --device 1 \\\n    --type hdd --medium ", data_vdi, ""));
    v.push(lit("  VBoxManage startvm Willo"));
    v.push(lit(""));
    v.push(lit("  # teardown later:"));
    v.push(lit("  VBoxManage unregistervm Willo --delete"));
    v.push(lit(""));
    v.push(lit("note: the kernel uses QEMU's isa-debug-exit (port 0xf4) to exit."));
    v.push(lit("      VirtualBox doesn't wire that port, so on Success/Failed the"));
    v.push(lit("      kernel will idle in a nop loop. Power-off the VM to stop."));
    proof {
        assert(vdi@ + ""@ =~= vdi@) by {
            reveal_strlit("");
        }
        assert(data_vdi@ + ""@ =~= data_vdi@) by {
            reveal_strlit("");
        }
    }
    assert(strings_view(v@) =~= spec_vbox_lines(vdi@, data_vdi@));
    v
}

/// The arguments `VBoxManage` converts the raw image `raw` into the VDI
/// image `vdi` with.
pub open spec fn spec_vdi_convert_args(raw: Seq<char>, vdi: Seq<char>) -> Seq<Seq<char>> {
    seq!["convertfromraw"@, raw, vdi, "--format"@, "VDI"@]
}

pub fn vdi_convert_args(raw: &str, vdi: &str) -> (r: Vec<String>)
    ensures
        strings_view(r@) == spec_vdi_convert_args(raw@, vdi@),
{
    let mut v: Vec<String> = Vec::new();
    v.push(lit("convertfromraw"));
    v.push(lit(raw));
    v.push(lit(vdi));
    v.push(lit("--format"));
    v.push(lit("VDI"));
    assert(strings_view(v@) =~= spec_vdi_convert_args(raw@, vdi@));
    v
}

/// What the runner exits with after QEMU ended with `status` (`None` when
/// QEMU was killed by a signal): the kernel's success and plain exit are 0,
/// the kernel's failure is 1, another status is passed on.
pub open spec fn spec_exit_status(status: Option<i32>) -> i32 {
    match status {
        Some(s) => if s == QemuExitCode::Success.spec_status() || s == 0 {
            0
        } else if s == QemuExitCode::Failed.spec_status() {
            1
        } else {
            s
        },
        None => 1,
    }
}

pub fn exit_status(status: Option<i32>) -> (r: i32)
    ensures
        r == spec_exit_status(status),
{
    match status {
        Some(s) => {
            if s == QemuExitCode::Success.status() || s == 0 {
                0
            } else if s == QemuExitCode::Failed.status() {
                1
            } else {
                s
            }
        },
        None => 1,
    }
}


/// The VirtualBox storage controller (bus type, chipset) that answers at
/// the legacy ports of a driver whose channel has its command block at
/// `base` and its control register at `ctrl`: the primary channel of an
/// IDE bus on a PIIX4 sits at 0x1F0/0x3F6; a SATA/AHCI controller has no
/// such legacy ports.
pub open spec fn vbox_controller_for(base: int, ctrl: int) -> Option<(Seq<char>, Seq<char>)> {
    if base == 0x1F0 && ctrl == 0x3F6 {
        Some(("ide"@, "PIIX4"@))
    } else {
        None
    }
}

/// QEMU boots the image at IDE index 0 (the disk the BIOS starts from) and
/// attaches the data disk at index 1, whichever way the run is displayed;
/// only the display and serial arguments at the end depend on `headless`
/// (a headless run has no display and the serial port on stdio; a
/// graphical one multiplexes the monitor onto it).
pub proof fn law_qemu_disks_in_place(disk: Seq<char>, data: Seq<char>, headless: bool)
    ensures
        spec_qemu_args(disk, data, headless)[0] == "-drive"@,
        spec_qemu_args(disk, data, headless)[1] == "file="@ + disk + ",if=ide,index=0,format=raw"@,
        spec_qemu_args(disk, data, headless)[2] == "-drive"@,
        spec_qemu_args(disk, data, headless)[3] == "file="@ + data + ",if=ide,index=1,format=raw"@,
        spec_qemu_args(disk, data, headless).take(9) == spec_qemu_args(disk, data, !headless).take(9),
        headless ==> spec_qemu_args(disk, data, headless).skip(9) == seq!["-display"@, "none"@, "-serial"@, "stdio"@],
        !headless ==> spec_qemu_args(disk, data, headless).skip(9) == seq!["-serial"@, "mon:stdio"@],
{
    let a = spec_qemu_args(disk, data, headless);
    let b = spec_qemu_args(disk, data, !headless);
    assert(a.take(9) =~= b.take(9));
    if headless {
        assert(a.skip(9) =~= seq!["-display"@, "none"@, "-serial"@, "stdio"@]);
    } else {
        assert(a.skip(9) =~= seq!["-serial"@, "mon:stdio"@]);
    }
}

/// The VirtualBox instructions put both disks on the controller that
/// answers at the ATA driver's legacy ports (see [`vbox_controller_for`]):
/// the storage-controller line adds that bus and chipset, the boot image
/// is unit 0 and the data disk unit 1 of its primary channel.
pub proof fn law_vbox_controller_matches_driver(vdi: Seq<char>, data_vdi: Seq<char>)
    ensures
        vbox_controller_for(ATA_PRIMARY_BASE as int, ATA_PRIMARY_CTRL as int) is Some,
        ({
            let (bus, chip) = vbox_controller_for(ATA_PRIMARY_BASE as int, ATA_PRIMARY_CTRL as int)->Some_0;
            spec_vbox_lines(vdi, data_vdi)[7] == "  VBoxManage storagectl Willo --name IDE --add "@ + bus + " \\\n    --controller "@
                + chip + " --bootable on"@
        }),
        spec_vbox_lines(vdi, data_vdi)[8] == "  VBoxManage storageattach Willo --storagectl IDE --port 0 --device 0 \\\n    --type hdd --medium "@ + vdi,
        spec_vbox_lines(vdi, data_vdi)[9] == "  VBoxManage storageattach Willo --storagectl IDE --port 0 --device 1 \\\n    --type hdd --medium "@ + data_vdi,
{
    reveal_strlit("  VBoxManage storagectl Willo --name IDE --add ide \\\n    --controller PIIX4 --bootable on");
    reveal_strlit("  VBoxManage storagectl Willo --name IDE --add ");
    reveal_strlit(" \\\n    --controller ");
    reveal_strlit(" --bootable on");
    reveal_strlit("ide");
    reveal_strlit("PIIX4");
    let (bus, chip) = vbox_controller_for(ATA_PRIMARY_BASE as int, ATA_PRIMARY_CTRL as int)->Some_0;
    assert(spec_vbox_lines(vdi, data_vdi)[7] =~= "  VBoxManage storagectl Willo --name IDE --add "@ + bus + " \\\n    --controller "@
        + chip + " --bootable on"@);
}

} // verus!
