use keychord::focus::{active_window, class_name, process_id, FocusError};

#[test]
fn active_window_decodes_little_endian() {
    assert_eq!(active_window(&[0x01, 0x02, 0x00, 0x04]), Ok(0x0400_0201));
}

#[test]
fn active_window_errors() {
    assert_eq!(active_window(&[]), Err(FocusError::NoActiveWindow));
    assert_eq!(active_window(&[0, 0, 0, 0]), Err(FocusError::NoWindowFocused));
    assert_eq!(active_window(&[1, 2]), Err(FocusError::Malformed));
}

#[test]
fn process_id_decodes() {
    assert_eq!(process_id(&[0x39, 0x30, 0, 0]), Ok(12345));
    assert_eq!(process_id(&[]), Err(FocusError::NoProcessId));
    assert_eq!(process_id(&[1, 2, 3, 4, 5]), Err(FocusError::Malformed));
}

#[test]
fn class_name_stops_at_nul() {
    assert_eq!(class_name(b"firefox\0Firefox\0"), b"firefox".to_vec());
    assert_eq!(class_name(b"xterm"), b"xterm".to_vec());
    assert_eq!(class_name(b"\0x"), Vec::<u8>::new());
}
