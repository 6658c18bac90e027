use willo::ata::{
    bytes_of, check_request, drq_step, identify_ok, lba28_registers, not_busy_step, sector_count, word_of, DriveSetup, Poll,
};
use willo::block::BlockError;
use willo::machine::{page_fault_action, FaultAction, Irq, QemuExitCode};
use willo::runner::{exit_status, headless, is_fat_write_name, is_test_dir, qemu_args, vbox_lines, vdi_convert_args};

#[test]
fn irq_vectors() {
    assert_eq!(Irq::Timer.vector(), 32);
    assert_eq!(Irq::Keyboard.vector(), 33);
}

#[test]
fn qemu_exit_codes() {
    assert_eq!(QemuExitCode::Success.code(), 0x10);
    assert_eq!(QemuExitCode::Failed.code(), 0x11);
    assert_eq!(QemuExitCode::Success.status(), 33);
    assert_eq!(QemuExitCode::Failed.status(), 35);
}

#[test]
fn runner_exit_mapping() {
    assert_eq!(exit_status(Some(33)), 0);
    assert_eq!(exit_status(Some(35)), 1);
    assert_eq!(exit_status(Some(0)), 0);
    assert_eq!(exit_status(Some(7)), 7);
    assert_eq!(exit_status(None), 1);
}

#[test]
fn runner_detects_tests() {
    assert!(is_test_dir("deps"));
    assert!(!is_test_dir("debug"));
    assert!(is_fat_write_name("fat_write-1a2b3c"));
    assert!(is_fat_write_name("fat_write"));
    assert!(!is_fat_write_name("fat_read-1a2b"));
    assert!(!is_fat_write_name("fat"));
}

#[test]
fn runner_headless_choice() {
    assert!(headless(true, false, false));
    assert!(headless(false, false, true));
    assert!(!headless(false, true, true));
    assert!(!headless(false, false, false));
    assert!(headless(true, true, true));
}

#[test]
fn runner_qemu_arguments() {
    let a = qemu_args("/tmp/k.img", "/tmp/d.img", true);
    assert_eq!(
        a,
        vec![
            "-drive",
            "file=/tmp/k.img,if=ide,index=0,format=raw",
            "-drive",
            "file=/tmp/d.img,if=ide,index=1,format=raw",
            "-no-reboot",
            "-device",
            "isa-debug-exit,iobase=0xf4,iosize=0x04",
            "-m",
            "256M",
            "-display",
            "none",
            "-serial",
            "stdio",
        ]
    );
    let b = qemu_args("k", "d", false);
    assert_eq!(b[b.len() - 2..], ["-serial".to_string(), "mon:stdio".to_string()]);
    assert_eq!(b.len(), 11);
}

#[test]
fn ata_status_polling() {
    assert_eq!(not_busy_step(0x80), Poll::Wait);
    assert_eq!(not_busy_step(0x50), Poll::Ready);
    assert_eq!(not_busy_step(0x51), Poll::Fault);
    assert_eq!(not_busy_step(0x70), Poll::Fault);
    assert_eq!(drq_step(0x88), Poll::Wait);
    assert_eq!(drq_step(0x58), Poll::Ready);
    assert_eq!(drq_step(0x50), Poll::Wait);
    assert_eq!(drq_step(0x09), Poll::Fault);
}

#[test]
fn ata_identify_checks() {
    assert_eq!(identify_ok(0, 0, 0), Err(BlockError::DriveError));
    assert_eq!(identify_ok(0x50, 0x14, 0xEB), Err(BlockError::DriveError));
    assert_eq!(identify_ok(0x50, 0, 0), Ok(()));
    assert_eq!(sector_count(0x0000, 0x0002), 0x20000);
    assert_eq!(sector_count(0x1234, 0x0001), 0x11234);
}

#[test]
fn ata_register_values() {
    assert_eq!(lba28_registers(0x0ABC_DEF1, 1), (0xFA, 1, 0xF1, 0xDE, 0xBC));
    assert_eq!(lba28_registers(0, 1), (0xF0, 1, 0, 0, 0));
    assert_eq!(check_request(5, 10, 512), Ok(()));
    assert_eq!(check_request(10, 10, 512), Err(BlockError::OutOfRange));
    assert_eq!(check_request(5, 10, 511), Err(BlockError::OutOfRange));
    assert_eq!(word_of(0x34, 0x12), 0x1234);
    assert_eq!(bytes_of(0xBEEF), (0xEF, 0xBE));
}

#[test]
fn page_fault_decisions() {
    assert_eq!(page_fault_action(0x1B, 0), FaultAction::HaltUser);
    assert_eq!(page_fault_action(0x23, 0x4000), FaultAction::HaltUser);
    assert_eq!(page_fault_action(0x08, 0x1000), FaultAction::Resume(0x1000));
    assert_eq!(page_fault_action(0x08, 0), FaultAction::Fail);
    assert_eq!(page_fault_action(0x09, 0), FaultAction::Fail);
}

#[test]
fn runner_vbox_instructions() {
    let lines = vbox_lines("/tmp/w.vdi", "/tmp/w-data.vdi");
    assert_eq!(lines.len(), 18);
    assert_eq!(lines[0], "");
    assert_eq!(lines[1], "[willo] boot VDI: /tmp/w.vdi");
    assert_eq!(lines[2], "[willo] data VDI: /tmp/w-data.vdi");
    assert_eq!(
        lines[6],
        "  VBoxManage modifyvm Willo --memory 256 --firmware bios \\\n    --boot1 disk --boot2 none --boot3 none --boot4 none"
    );
    assert_eq!(
        lines[8],
        "  VBoxManage storageattach Willo --storagectl IDE --port 0 --device 0 \\\n    --type hdd --medium /tmp/w.vdi"
    );
    assert_eq!(
        lines[9],
        "  VBoxManage storageattach Willo --storagectl IDE --port 0 --device 1 \\\n    --type hdd --medium /tmp/w-data.vdi"
    );
    assert_eq!(lines[13], "  VBoxManage unregistervm Willo --delete");
    assert_eq!(vdi_convert_args("a.img", "a.vdi"), vec!["convertfromraw", "a.img", "a.vdi", "--format", "VDI"]);
}

#[test]
fn drive_setup_probes_until_it_succeeds() {
    let mut setup = DriveSetup::new();
    assert!(setup.needs_probe());
    assert_eq!(setup.record(Err(BlockError::Timeout)), Err(BlockError::Timeout));
    assert!(setup.needs_probe());
    assert_eq!(setup.record(Ok(())), Ok(()));
    assert!(!setup.needs_probe());
}
