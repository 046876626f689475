use smartproxy::SuccessValidator;

#[test]
fn validator_access_denied_is_network_only() {
    let v = SuccessValidator::new();
    let r = v.validate_http(200, b"<html>access denied</html>");
    assert_eq!(r, (true, false));
}

#[test]
fn validator_plain_ok_body() {
    let v = SuccessValidator::new();
    let r = v.validate_http(200, b"ok");
    assert_eq!(r, (true, true));
}

#[test]
fn validator_error_status() {
    let v = SuccessValidator::new();
    let r = v.validate_http(404, b"anything");
    assert_eq!(r, (false, false));
}

#[test]
fn validator_empty_body() {
    let v = SuccessValidator::new();
    let r = v.validate_http(200, b"");
    assert_eq!(r, (true, false));
}

#[test]
fn validator_lowercases_before_matching() {
    // an upper-case marker must still be caught: the body is lowercased first
    let v = SuccessValidator::new();
    assert_eq!(v.validate_http(200, b"ACCESS DENIED"), (true, false));
    assert_eq!(v.validate_http(200, b"BlOcKeD content"), (true, false));
    assert_eq!(v.validate_http(200, b"Forbidden!"), (true, false));
}

#[test]
fn validator_marker_variants() {
    let v = SuccessValidator::new();
    assert_eq!(v.validate_http(200, b"error 403"), (true, false));
    assert_eq!(v.validate_http(200, b"error 404 not found"), (true, false));
    assert_eq!(v.validate_http(200, b"error 500"), (true, true));
}

#[test]
fn validator_redirect_statuses_are_network_success() {
    let v = SuccessValidator::new();
    assert_eq!(v.validate_http(301, b"moved").0, true);
    assert_eq!(v.validate_http(399, b"x").0, true);
    assert_eq!(v.validate_http(400, b"x").0, false);
    assert_eq!(v.validate_http(199, b"x").0, false);
}
