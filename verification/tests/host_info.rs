//! Tests of the host-facing data, the error messages and the text helpers.

use ch347_flasher::ch347::{interface_for_pid, Ch347Error, CH347F_PID, CH347T_PID};
use ch347_flasher::flash::identify_chip;
use ch347_flasher::info::{ChipInfo, CmdResult};
use ch347_flasher::text::{push_dec, push_hex_byte};

#[test]
fn cmd_result_ok_and_err() {
    let ok: CmdResult<u32> = CmdResult::ok(7);
    assert!(ok.success);
    assert_eq!(ok.data, Some(7));
    assert!(ok.error.is_none());

    let err: CmdResult<u32> = CmdResult::err("boom".to_string());
    assert!(!err.success);
    assert!(err.data.is_none());
    assert_eq!(err.error.as_deref(), Some("boom"));
}

#[test]
fn chip_info_summary() {
    let chip = identify_chip(&[0xEF, 0x40, 0x17]).unwrap();
    let info = ChipInfo::from_chip(&chip);
    assert!(info.detected);
    assert_eq!(info.name, "W25Q64");
    assert_eq!(info.manufacturer, "Winbond");
    assert_eq!(info.jedec_id, "EF 40 17");
    assert_eq!(info.size, 8 * 1024 * 1024);
    assert_eq!(info.size_str, "8MB");
}

#[test]
fn error_messages() {
    assert_eq!(Ch347Error::DeviceNotFound.message(), "Device not found");
    assert_eq!(
        Ch347Error::DeviceBusy.message(),
        "Device busy or permission denied"
    );
    assert_eq!(
        Ch347Error::InvalidResponse.message(),
        "Invalid response from device"
    );
    assert_eq!(Ch347Error::SpiNotInitialized.message(), "SPI not initialized");
    assert_eq!(
        Ch347Error::TransferFailed("Write enable failed".to_string()).message(),
        "Transfer failed: Write enable failed"
    );
}

#[test]
fn interface_numbers_per_product() {
    assert_eq!(interface_for_pid(CH347T_PID), Some(2));
    assert_eq!(interface_for_pid(CH347F_PID), Some(4));
    assert_eq!(interface_for_pid(0x1234), None);
}

#[test]
fn decimal_and_hex_text() {
    let mut s = String::new();
    push_dec(0, &mut s);
    assert_eq!(s, "0");
    let mut s = String::new();
    push_dec(1234567890, &mut s);
    assert_eq!(s, "1234567890");
    let mut s = String::new();
    push_hex_byte(0xEF, &mut s);
    push_hex_byte(0x05, &mut s);
    assert_eq!(s, "EF05");
}
