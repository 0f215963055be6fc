use ml_dsa::hex::hex_to_bytes;

#[test]
fn hex_decodes_pairs() {
    assert_eq!(hex_to_bytes("00ff10Ab"), Some(vec![0x00, 0xff, 0x10, 0xab]));
    assert_eq!(hex_to_bytes(""), Some(vec![]));
}

#[test]
fn hex_rejects_bad_digits() {
    assert_eq!(hex_to_bytes("0g"), None);
    assert_eq!(hex_to_bytes("zz"), None);
}

#[test]
fn hex_follows_from_str_radix_on_pairs() {
    // A leading `+` is accepted by `u8::from_str_radix`, so "+f" is the byte 0x0f.
    assert_eq!(hex_to_bytes("+f10"), Some(vec![0x0f, 0x10]));
    assert_eq!(hex_to_bytes("-1"), None);
    // An odd number of characters leaves an incomplete pair.
    assert_eq!(hex_to_bytes("abc"), None);
}
