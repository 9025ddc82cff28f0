use keyswitch::device::{Device, Error};
use std::path::PathBuf;

#[test]
fn a_device_name_loses_its_trailing_nuls() {
    let path = PathBuf::from("/dev/input/event3");
    let device = Device::from_name_bytes(path.clone(), b"AT Keyboard\0\0\0").unwrap();
    assert_eq!(device.name, "AT Keyboard");
    assert_eq!(device.dev_path, path);
}

#[test]
fn a_device_name_keeps_inner_text() {
    let device =
        Device::from_name_bytes(PathBuf::from("/dev/input/event0"), "Clavier é\0".as_bytes())
            .unwrap();
    assert_eq!(device.name, "Clavier é");
}

#[test]
fn a_device_name_without_padding_is_kept_whole() {
    let device = Device::from_name_bytes(PathBuf::from("/dev/input/event1"), b"Mouse").unwrap();
    assert_eq!(device.name, "Mouse");
}

#[test]
fn a_device_name_of_only_nuls_is_empty() {
    let device = Device::from_name_bytes(PathBuf::from("/dev/input/event2"), b"\0\0").unwrap();
    assert_eq!(device.name, "");
    let device = Device::from_name_bytes(PathBuf::from("/dev/input/event2"), b"").unwrap();
    assert_eq!(device.name, "");
}

#[test]
fn a_device_name_that_is_not_utf8_is_refused() {
    let result = Device::from_name_bytes(PathBuf::from("/dev/input/event4"), &[0x41, 0xff, 0]);
    assert!(matches!(result, Err(Error::Utf8Error(_))));
}
