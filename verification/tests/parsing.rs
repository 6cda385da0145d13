use matchbox_server::adapter::{parse_next_param, parse_room_request};

#[test]
fn next_param_plain_numbers() {
    assert_eq!(parse_next_param("2"), Some(2));
    assert_eq!(parse_next_param("3"), Some(3));
    assert_eq!(parse_next_param("10"), Some(10));
    assert_eq!(parse_next_param("007"), Some(7));
}

#[test]
fn next_param_malformed_means_absent() {
    assert_eq!(parse_next_param(""), None);
    assert_eq!(parse_next_param("abc"), None);
    assert_eq!(parse_next_param("12x"), None);
    assert_eq!(parse_next_param("x12"), None);
    assert_eq!(parse_next_param("-3"), None);
    assert_eq!(parse_next_param("+3"), None);
    assert_eq!(parse_next_param("3.5"), None);
    assert_eq!(parse_next_param(" 3"), None);
}

#[test]
fn next_param_zero_is_not_a_positive_threshold() {
    assert_eq!(parse_next_param("0"), None);
    assert_eq!(parse_next_param("000"), None);
}

#[test]
fn next_param_overflow_means_absent() {
    assert_eq!(parse_next_param("99999999999999999999999999999999"), None);
    // largest value that fits
    assert_eq!(parse_next_param("18446744073709551615"), Some(usize::MAX));
    assert_eq!(parse_next_param("18446744073709551616"), None);
}

#[test]
fn room_request_takes_path_and_next() {
    let r = parse_room_request(Some(String::from("lobby")), Some("3"));
    assert_eq!(r.id.0, "lobby");
    assert_eq!(r.next, Some(3));
}

#[test]
fn room_request_defaults() {
    let r = parse_room_request(None, None);
    assert_eq!(r.id.0, "");
    assert_eq!(r.next, None);
    let r = parse_room_request(Some(String::from("lobby")), Some("nope"));
    assert_eq!(r.id.0, "lobby");
    assert_eq!(r.next, None);
}
