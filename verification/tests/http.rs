use worklog_core::http::basic_auth_header;

#[test]
fn basic_auth_header_encodes_correctly() {
    let h = basic_auth_header("tomas@p5.is", "secret");
    assert_eq!(h, "Basic dG9tYXNAcDUuaXM6c2VjcmV0");
}

#[test]
fn basic_auth_header_encodes_an_empty_token() {
    assert_eq!(basic_auth_header("a", ""), "Basic YTo=");
}
