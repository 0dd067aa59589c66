//! The application-level error type and its mapping to HTTP responses.
use vstd::prelude::*;

verus! {

/// Everything an endpoint can reject with.
#[derive(Debug)]
pub enum Error {
    SceneNotFound,
    InvalidOrigin,
    InvalidDimensions,
    BadFormField(String),
    BadGrant,
    BadEventStream(String),
    MethodNotSupported,
    NotFound,
}

impl Error {
    /// The HTTP status code of the rejection.
    pub fn status_code(&self) -> (r: u16)
        ensures
            r == match self {
                Error::SceneNotFound => 404u16,
                Error::NotFound => 404u16,
                Error::MethodNotSupported => 405u16,
                Error::InvalidOrigin => 403u16,
                Error::InvalidDimensions => 422u16,
                Error::BadFormField(_) => 422u16,
                Error::BadGrant => 422u16,
                Error::BadEventStream(_) => 422u16,
            },
    {
        match self {
            Error::SceneNotFound => 404,
            Error::NotFound => 404,
            Error::MethodNotSupported => 405,
            Error::InvalidOrigin => 403,
            Error::InvalidDimensions => 422,
            Error::BadFormField(_) => 422,
            Error::BadGrant => 422,
            Error::BadEventStream(_) => 422,
        }
    }

    /// The status line text of the rejection.
    pub fn status_text(&self) -> &'static str {
        match self {
            Error::SceneNotFound => "Scene not found",
            Error::NotFound => "Not found",
            Error::MethodNotSupported => "Method not supported",
            Error::InvalidOrigin => "Forbidden",
            Error::InvalidDimensions => "Invalid dimensions",
            Error::BadFormField(_) => "Bad form field",
            Error::BadGrant => "Bad grant",
            Error::BadEventStream(_) => "Bad event stream",
        }
    }

    /// The plain-text response body of the rejection.
    pub fn body(&self) -> String {
        match self {
            Error::SceneNotFound => String::from_str("Scene not found\n"),
            Error::NotFound => String::from_str("Not found\n"),
            Error::MethodNotSupported => String::from_str("Method not supported\n"),
            Error::InvalidOrigin => String::from_str("Invalid origin\n"),
            Error::InvalidDimensions => String::from_str("Invalid dimensions\n"),
            Error::BadFormField(f) => {
                let mut s = String::from_str("Bad form field: ");
                s.append(f.as_str());
                s.append("\n");
                s
            },
            Error::BadGrant => String::from_str("Bad grant\n"),
            Error::BadEventStream(f) => {
                let mut s = String::from_str("Bad event stream ");
                s.append(f.as_str());
                s.append("\n");
                s
            },
        }
    }
}

} // verus!
