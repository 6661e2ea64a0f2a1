use wschat::handshake::{
    accept_token, bad_request_response, decimal_text, negotiate, parse_request, upgrade_response,
    HandshakeError,
};

fn request(lines: &[&str]) -> Vec<u8> {
    let mut s = String::from("GET /chat HTTP/1.1\r\nHost: localhost:3333\r\n");
    for l in lines {
        s.push_str(l);
        s.push_str("\r\n");
    }
    s.push_str("\r\n");
    s.into_bytes()
}

#[test]
fn canonical_accept_token() {
    assert_eq!(accept_token(b"dGhlIHNhbXBsZSBub25jZQ=="), "s3pPLMBiTxaQ9kYGzzhZRbK+xOo=");
}

#[test]
fn full_handshake_produces_switching_protocols() {
    let req = request(&[
        "Upgrade: websocket",
        "Connection: Upgrade",
        "Sec-WebSocket-Key: dGhlIHNhbXBsZSBub25jZQ==",
        "Sec-WebSocket-Version: 13",
    ]);
    let response = negotiate(&req).unwrap();
    assert_eq!(
        response,
        "HTTP/1.1 101 Switching Protocols\r\nUpgrade: websocket\r\nConnection: Upgrade\r\nSec-WebSocket-Accept: s3pPLMBiTxaQ9kYGzzhZRbK+xOo=\r\n\r\n"
    );
}

#[test]
fn upgrade_response_embeds_token() {
    let r = upgrade_response("abc=");
    assert!(r.starts_with("HTTP/1.1 101 Switching Protocols\r\n"));
    assert!(r.ends_with("Sec-WebSocket-Accept: abc=\r\n\r\n"));
}

#[test]
fn parse_request_returns_key() {
    let req = request(&["Sec-WebSocket-Version: 13", "Upgrade: websocket", "Sec-WebSocket-Key: a2V5"]);
    assert_eq!(parse_request(&req).unwrap(), b"a2V5".to_vec());
}

#[test]
fn missing_version_fails() {
    let req = request(&["Upgrade: websocket", "Sec-WebSocket-Key: dGhlIHNhbXBsZSBub25jZQ=="]);
    assert_eq!(negotiate(&req), Err(HandshakeError::UnsupportedVersion));
}

#[test]
fn version_eight_fails() {
    let req = request(&[
        "Upgrade: websocket",
        "Sec-WebSocket-Version: 8",
        "Sec-WebSocket-Key: dGhlIHNhbXBsZSBub25jZQ==",
    ]);
    assert_eq!(negotiate(&req), Err(HandshakeError::UnsupportedVersion));
}

#[test]
fn bad_upgrade_fails() {
    let req = request(&["Upgrade: h2c", "Sec-WebSocket-Version: 13", "Sec-WebSocket-Key: a2V5"]);
    assert_eq!(negotiate(&req), Err(HandshakeError::BadUpgrade));
    let req = request(&["Sec-WebSocket-Version: 13", "Sec-WebSocket-Key: a2V5"]);
    assert_eq!(negotiate(&req), Err(HandshakeError::BadUpgrade));
}

#[test]
fn bad_connection_fails() {
    let req = request(&[
        "Upgrade: websocket",
        "Connection: keep-alive",
        "Sec-WebSocket-Version: 13",
        "Sec-WebSocket-Key: a2V5",
    ]);
    assert_eq!(negotiate(&req), Err(HandshakeError::BadConnection));
}

#[test]
fn missing_key_fails() {
    let req = request(&["Upgrade: websocket", "Sec-WebSocket-Version: 13"]);
    assert_eq!(negotiate(&req), Err(HandshakeError::MissingKey));
}

#[test]
fn non_utf8_request_fails() {
    let mut req = request(&["Upgrade: websocket"]);
    req.push(0xff);
    assert_eq!(negotiate(&req), Err(HandshakeError::InvalidEncoding));
}

#[test]
fn first_bad_line_decides() {
    let req = request(&["Sec-WebSocket-Version: 12", "Upgrade: nope"]);
    assert_eq!(negotiate(&req), Err(HandshakeError::UnsupportedVersion));
}

#[test]
fn bad_request_carries_message_and_length() {
    let r = bad_request_response(HandshakeError::UnsupportedVersion);
    let body = HandshakeError::UnsupportedVersion.message();
    assert_eq!(body, "unsupported WebSocket version");
    assert_eq!(
        r,
        format!(
            "HTTP/1.1 400 Bad Request\r\nContent-Type: text/plain\r\nContent-Length: 29\r\n\r\n{body}"
        )
    );
}

#[test]
fn every_refusal_has_a_message() {
    for e in [
        HandshakeError::InvalidEncoding,
        HandshakeError::BadUpgrade,
        HandshakeError::UnsupportedVersion,
        HandshakeError::BadConnection,
        HandshakeError::MissingKey,
    ] {
        let body = e.message();
        let r = bad_request_response(e);
        assert!(r.ends_with(body));
        assert!(r.contains(&format!("Content-Length: {}\r\n", body.len())));
    }
}

#[test]
fn decimal_text_writes_digits() {
    assert_eq!(decimal_text(0), "0");
    assert_eq!(decimal_text(7), "7");
    assert_eq!(decimal_text(10), "10");
    assert_eq!(decimal_text(4096), "4096");
    assert_eq!(decimal_text(usize::MAX), usize::MAX.to_string());
}

#[test]
fn accept_token_differs_per_key() {
    assert_ne!(accept_token(b"a2V5"), accept_token(b"a2V6"));
    assert_eq!(accept_token(b"a2V5").len(), 28);
}
