use wave::cli::parse_key_val;

fn pair(a: &str, b: &str) -> (String, String) {
    (a.to_string(), b.to_string())
}

#[test]
fn splits_name_and_version() {
    assert_eq!(parse_key_val("react@17.0.2"), pair("react", "17.0.2"));
}

#[test]
fn request_without_version_is_latest() {
    assert_eq!(parse_key_val("lodash"), pair("lodash", "latest"));
}

#[test]
fn scoped_name_keeps_leading_at() {
    assert_eq!(parse_key_val("@types/node@^18"), pair("@types/node", "^18"));
}

#[test]
fn splits_at_last_at_sign() {
    assert_eq!(parse_key_val("a@b@c"), pair("a@b", "c"));
}

#[test]
fn empty_version_after_at() {
    assert_eq!(parse_key_val("pkg@"), pair("pkg", ""));
}

#[test]
fn empty_request_is_latest() {
    assert_eq!(parse_key_val(""), pair("", "latest"));
}

#[test]
fn round_trip_of_name_and_version() {
    let (k, v) = parse_key_val(&format!("{}@{}", "left-pad", "1.3.0"));
    assert_eq!(format!("{}@{}", k, v), "left-pad@1.3.0");
}

#[test]
fn non_ascii_request() {
    assert_eq!(parse_key_val("paquet-é@1.0.0"), pair("paquet-é", "1.0.0"));
}
