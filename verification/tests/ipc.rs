use imageviewer::ipc::{
    choose_role, LockOutcome, RoleChoice,
    decode_path, encode_path, mutex_name, pipe_name, read_request, request_payload, socket_file_name,
    user_suffix, wide,
};

#[test]
fn a_path_travels_as_its_raw_bytes() {
    let path = "/home/me/写真/a.png".as_bytes();
    assert_eq!(read_request(request_payload(Some(path))), Some(path.to_vec()));
    assert_eq!(read_request(request_payload(None)), None);
}

#[test]
fn a_path_travels_as_utf16_little_endian() {
    let units: Vec<u16> = "C:\\写真\\a.png".encode_utf16().collect();
    let bytes = encode_path(&units);
    assert_eq!(bytes.len(), 2 * units.len());
    assert_eq!(&bytes[..2], &[b'C', 0]);
    assert_eq!(decode_path(&bytes), Some(units));
    assert_eq!(decode_path(&[]), None);
    assert_eq!(decode_path(&[7]), None);
    assert_eq!(decode_path(&[0x34, 0x12, 9]), Some(vec![0x1234]));
}

#[test]
fn wide_strings_end_with_a_nul() {
    for value in ["", "abc", "写真", "😀 x"] {
        let mut expected: Vec<u16> = value.encode_utf16().collect();
        expected.push(0);
        assert_eq!(wide(value), expected);
    }
}

#[test]
fn user_names_are_made_safe_for_object_names() {
    assert_eq!(user_suffix(Some("DOMAIN\\me:x/y")), "DOMAIN_me_x_y");
    assert_eq!(user_suffix(None), "default");
    assert_eq!(mutex_name("me"), r"Local\imageviewer-me");
    assert_eq!(pipe_name("me"), r"\\.\pipe\imageviewer-me");
}

#[test]
fn the_socket_is_named_after_the_user() {
    assert_eq!(socket_file_name(Some("alice"), Some("bob")), "imageviewer-alice.sock");
    assert_eq!(socket_file_name(None, Some("bob")), "imageviewer-bob.sock");
    assert_eq!(socket_file_name(None, None), "imageviewer-default.sock");
}

#[test]
fn the_lock_decides_the_role_and_the_socket_settles_what_it_cannot() {
    let never_probed = || -> bool { panic!("the socket is probed only when locking is impossible") };
    assert_eq!(choose_role(LockOutcome::Acquired, never_probed), RoleChoice::Primary { holds_lock: true });
    assert_eq!(choose_role(LockOutcome::HeldElsewhere, never_probed), RoleChoice::Secondary);
    assert_eq!(choose_role(LockOutcome::Unsupported, || true), RoleChoice::Secondary);
    assert_eq!(
        choose_role(LockOutcome::Unsupported, || false),
        RoleChoice::Primary { holds_lock: false }
    );
}
