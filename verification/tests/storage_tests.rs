use archive_router::storage::encode_auth_key;

#[test]
fn auth_key_is_base64_of_the_signed_address() {
    assert_eq!(encode_auth_key("0xab", "cd"), "ZXRoLTB4YWI6Y2Q=");
    assert_eq!(encode_auth_key("0x1234abcd", "ff00ee"), "ZXRoLTB4MTIzNGFiY2Q6ZmYwMGVl");
    assert_eq!(encode_auth_key("é", "x"), "ZXRoLcOpOng=");
}
