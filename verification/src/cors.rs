//! The response payload for endpoints that answer with a body and CORS
//! headers; the HTTP layer turns it into an actual response.
use vstd::prelude::*;

verus! {

/// A response body with its content type and the CORS method and header
/// lists to advertise.
#[derive(Debug)]
pub struct SendFileAsWithCors {
    pub content_type: &'static str,
    pub content: Vec<u8>,
    pub methods: &'static str,
    pub headers: &'static str,
}

} // verus!
