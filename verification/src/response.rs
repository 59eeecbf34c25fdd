//! HTTP response text.

use vstd::prelude::*;
use vstd::string::*;
use crate::errors::RateLimitingError;

verus! {

/// The text of the response with status `code`, content type `ct` and body `content`.
pub open spec fn response_text(code: Seq<char>, ct: Seq<char>, content: Seq<char>) -> Seq<char> {
    "HTTP/1.1 "@ + code + "\r\nContent-Type: "@ + ct + "\r\n\r\n"@ + content
}

/// Generates an HTTP response with the given status code, content type and content.
pub fn generator(code: &str, ct: &str, content: &str) -> (r: String)
    ensures
        r@ == response_text(code@, ct@, content@),
{
    let mut r = String::from_str("HTTP/1.1 ");
    r.append(code);
    r.append("\r\nContent-Type: ");
    r.append(ct);
    r.append("\r\n\r\n");
    r.append(content);
    r
}


/// The response that reports `error` to a client.
pub fn http_error_response(error: &str) -> (r: String)
    ensures
        r@ == response_text("300 OK"@, "text/plain"@, error@),
{
    generator("300 OK", "text/plain", error)
}

/// What the handler of a client connection learnt from its last outside step.
pub enum ConnectionEvent {
    /// An upstream server was chosen (or none, or the request was refused), and a
    /// test connection to the chosen server did or did not open.
    Chosen(Result<Option<String>, RateLimitingError>, bool),
    /// The connection to this server, opened to forward the request, failed.
    ForwardFailed(String),
}

/// What the handler of a client connection does next.
pub enum ConnectionStep {
    /// Send this response to the client and close.
    Reply(String),
    /// Close the connection without a reply.
    Close,
    /// Connect to this upstream server and forward the request to it.
    Forward(String),
    /// Mark this upstream server dead, then start over with another one.
    Retry(String),
}

/// The handler's next step, with `retries_left` more tries allowed: forward to a
/// server that could be reached; when the chosen server cannot be reached, or the
/// connection to forward the request fails, mark it dead and retry with another
/// server while tries are left, else answer 503; answer 503 when there is no server
/// and 429 when the rate limit is reached; close when nothing was chosen to retry with.
pub fn next_connection_step(event: ConnectionEvent, retries_left: usize) -> (r: ConnectionStep)
    ensures
        event matches ConnectionEvent::Chosen(Ok(Some(s)), true) ==> (r matches ConnectionStep::Forward(
            t,
        ) && t == s),
        retries_left > 0 ==> (event matches ConnectionEvent::Chosen(Ok(Some(s)), false) ==> (
        r matches ConnectionStep::Retry(t) && t == s)),
        retries_left > 0 ==> (event matches ConnectionEvent::ForwardFailed(s) ==> (
        r matches ConnectionStep::Retry(t) && t == s)),
        retries_left == 0 ==> (event matches ConnectionEvent::Chosen(Ok(Some(_)), false)
            || event is ForwardFailed ==> (r matches ConnectionStep::Reply(t) && t@ == response_text(
            "503"@,
            "text/plain"@,
            "Service Unavailable"@,
        ))),
        event matches ConnectionEvent::Chosen(Ok(None), _) ==> (r matches ConnectionStep::Reply(t)
            && t@ == response_text("503"@, "text/plain"@, "Service Unavailable"@)),
        event matches ConnectionEvent::Chosen(Err(RateLimitingError::ExceededMaxRequests), _) ==> (
        r matches ConnectionStep::Reply(t) && t@ == response_text(
            "429"@,
            "text/plain"@,
            "Too Many Requests"@,
        )),
        event matches ConnectionEvent::Chosen(Err(RateLimitingError::FailedToConnect), _) ==> r matches ConnectionStep::Close,
{
    match event {
        ConnectionEvent::Chosen(Ok(Some(upstream)), true) => ConnectionStep::Forward(upstream),
        ConnectionEvent::Chosen(Ok(Some(upstream)), false) | ConnectionEvent::ForwardFailed(upstream) => {
            if retries_left > 0 {
                ConnectionStep::Retry(upstream)
            } else {
                ConnectionStep::Reply(generator("503", "text/plain", "Service Unavailable"))
            }
        },
        ConnectionEvent::Chosen(Ok(None), _) => ConnectionStep::Reply(
            generator("503", "text/plain", "Service Unavailable"),
        ),
        ConnectionEvent::Chosen(Err(RateLimitingError::ExceededMaxRequests), _) => ConnectionStep::Reply(
            generator("429", "text/plain", "Too Many Requests"),
        ),
        ConnectionEvent::Chosen(Err(RateLimitingError::FailedToConnect), _) => ConnectionStep::Close,
    }
}

} // verus!
