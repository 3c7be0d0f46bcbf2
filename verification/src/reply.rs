//! Responses that the load balancer gives on its own.

use vstd::prelude::*;
use vstd::utf8::encode_utf8;

use crate::number::{decimal, decimal_text};
use crate::request::Bytes;
use crate::text::bytes_of;

verus! {

/// A response that closes the connection, on the wire.
pub open spec fn closing_response(status_line: Seq<char>, body: Seq<char>) -> Seq<u8> {
    encode_utf8(
        status_line + "\r\nContent-Length: "@ + decimal(encode_utf8(body).len()) + "\r\nConnection: close\r\n\r\n"@
            + body,
    )
}

/// A `503 Service Unavailable` response, on the wire.
pub open spec fn unavailable_response(message: Seq<char>) -> Seq<u8> {
    closing_response("HTTP/1.1 503 Service Unavailable"@, "service unavailable: "@ + message)
}

/// The `413 Payload Too Large` response, on the wire.
pub open spec fn too_large_response() -> Seq<u8> {
    closing_response("HTTP/1.1 413 Payload Too Large"@, "payload too large"@)
}

fn close_with(status_line: &str, body: &str) -> (r: Bytes)
    ensures
        r@ == closing_response(status_line@, body@),
{
    let mut text: String = status_line.to_owned();
    text.append("\r\nContent-Length: ");
    text.append(decimal_text(bytes_of(body).len() as u128).as_str());
    text.append("\r\nConnection: close\r\n\r\n");
    text.append(body);
    bytes_of(text.as_str())
}

/// A `503 Service Unavailable` response with the given reason.
#[must_use]
pub fn service_unavailable(message: &str) -> (r: Bytes)
    ensures
        r@ == unavailable_response(message@),
{
    let mut body: String = "service unavailable: ".to_owned();
    body.append(message);
    close_with("HTTP/1.1 503 Service Unavailable", body.as_str())
}

/// The `413 Payload Too Large` response.
#[must_use]
pub fn payload_too_large() -> (r: Bytes)
    ensures
        r@ == too_large_response(),
{
    close_with("HTTP/1.1 413 Payload Too Large", "payload too large")
}

} // verus!
