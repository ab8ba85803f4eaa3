use matchlib::config::{
    allowed_origin, listen_host, listen_port, mode_of, parse_port, relay_url, Mode, DEFAULT_PORT,
    FALLBACK_PORT,
};

#[test]
fn unset_port_is_the_default() {
    assert_eq!(listen_port(None), 3536);
    assert_eq!(DEFAULT_PORT, 3536);
}

#[test]
fn configured_port_is_taken() {
    assert_eq!(listen_port(Some("8080")), 8080);
    assert_eq!(listen_port(Some("0")), 0);
    assert_eq!(listen_port(Some("65535")), 65535);
    assert_eq!(listen_port(Some("+443")), 443);
    assert_eq!(listen_port(Some("0003536")), 3536);
}

#[test]
fn text_that_is_no_port_gives_the_fallback() {
    assert_eq!(FALLBACK_PORT, 3000);
    for text in ["", "+", "-1", "65536", "99999999999", "80a", " 80", "80 ", "8_0", "++1", "٣"] {
        assert_eq!(listen_port(Some(text)), 3000);
    }
}

#[test]
fn parse_port_agrees_with_the_standard_parser() {
    let texts = [
        "", "+", "-", "0", "+0", "-0", "1", "42", "3536", "65535", "65536", "65540", "70000",
        "100000", "4294967296", "4294967297", "00000000000000000001", "+65535", "+65536", "12x",
        "x12", "1 2", "１２", "1.0", "0x10", "++5", "+-5", "18446744073709551616",
    ];
    for text in texts {
        assert_eq!(parse_port(text), text.parse::<u16>().ok());
    }
}

#[test]
fn host_depends_on_the_mode() {
    assert_eq!(listen_host(Mode::Local), [127, 0, 0, 1]);
    assert_eq!(listen_host(Mode::Hosted), [0, 0, 0, 0]);
}

#[test]
fn origin_depends_on_the_mode() {
    assert_eq!(allowed_origin(Mode::Local), "https://localhost:5173");
    assert_eq!(allowed_origin(Mode::Hosted), "https://matchboy.stevenhuyn.com");
}

#[test]
fn mode_follows_the_platform() {
    assert_eq!(mode_of(true), Mode::Hosted);
    assert_eq!(mode_of(false), Mode::Local);
}

#[test]
fn relay_url_defaults_to_the_local_relay() {
    assert_eq!(relay_url(None), "ws://localhost:3536/");
    assert_eq!(relay_url(Some("wss://relay.example/room".to_string())), "wss://relay.example/room");
}
