use load_balancer::errors::RateLimitingError;
use load_balancer::responder::decode_request;
use load_balancer::response::{
    generator, http_error_response, next_connection_step, ConnectionEvent, ConnectionStep,
};

#[test]
fn generator_builds_the_response() {
    let response = generator("200 OK", "text/plain", "Hello, World!");
    assert_eq!(response, "HTTP/1.1 200 OK\r\nContent-Type: text/plain\r\n\r\nHello, World!");
}

#[test]
fn error_response_uses_status_300() {
    assert_eq!(
        http_error_response("broken pipe"),
        "HTTP/1.1 300 OK\r\nContent-Type: text/plain\r\n\r\nbroken pipe"
    );
}

fn reply_text(step: ConnectionStep) -> Option<String> {
    match step {
        ConnectionStep::Reply(t) => Some(t),
        _ => None,
    }
}

#[test]
fn connection_steps_answer_503_and_429() {
    assert_eq!(
        reply_text(next_connection_step(ConnectionEvent::Chosen(Ok(None), false), 1)),
        Some("HTTP/1.1 503\r\nContent-Type: text/plain\r\n\r\nService Unavailable".to_string())
    );
    assert_eq!(
        reply_text(next_connection_step(ConnectionEvent::Chosen(
            Err(RateLimitingError::ExceededMaxRequests),
            false
        ), 1)),
        Some("HTTP/1.1 429\r\nContent-Type: text/plain\r\n\r\nToo Many Requests".to_string())
    );
    assert!(matches!(
        next_connection_step(ConnectionEvent::Chosen(Err(RateLimitingError::FailedToConnect), false), 1),
        ConnectionStep::Close
    ));
}

#[test]
fn connection_steps_forward_or_retry() {
    match next_connection_step(ConnectionEvent::Chosen(Ok(Some("a:1".to_string())), true), 0) {
        ConnectionStep::Forward(s) => assert_eq!(s, "a:1"),
        _ => panic!("expected a forward step"),
    }
    match next_connection_step(ConnectionEvent::Chosen(Ok(Some("a:1".to_string())), false), 2) {
        ConnectionStep::Retry(s) => assert_eq!(s, "a:1"),
        _ => panic!("expected a retry step"),
    }
    match next_connection_step(ConnectionEvent::ForwardFailed("b:2".to_string()), 1) {
        ConnectionStep::Retry(s) => assert_eq!(s, "b:2"),
        _ => panic!("expected a retry step"),
    }
    let unavailable =
        Some("HTTP/1.1 503\r\nContent-Type: text/plain\r\n\r\nService Unavailable".to_string());
    assert_eq!(
        reply_text(next_connection_step(ConnectionEvent::Chosen(Ok(Some("a:1".to_string())), false), 0)),
        unavailable
    );
    assert_eq!(
        reply_text(next_connection_step(ConnectionEvent::ForwardFailed("b:2".to_string()), 0)),
        unavailable
    );
}

#[test]
fn request_bytes_are_decoded() {
    assert_eq!(decode_request("GET / HTTP/1.1\r\n\u{e9}".as_bytes()), "GET / HTTP/1.1\r\n\u{e9}");
    let mut buffer = [0u8; 4];
    buffer[0] = b'A';
    assert_eq!(decode_request(&buffer), "A\0\0\0");
    assert_eq!(decode_request(&[0xff, 0x41]), "Invalid UTF-8");
}
