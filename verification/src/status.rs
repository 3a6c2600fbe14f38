//! HTTP status codes and their reason phrases.

use vstd::prelude::*;

verus! {

/// The status codes the framework knows a reason phrase for.  Any other
/// numeric code a handler sets is carried through [`HttpStatus::Other`].
#[derive(Clone, Copy, PartialEq, Eq, Structural, Debug)]
pub enum HttpStatus {
    Okay,
    Created,
    Accepted,
    NoContent,
    MovedPermanently,
    Found,
    NotModified,
    BadRequest,
    Unauthorized,
    Forbidden,
    NotFound,
    MethodNotAllowed,
    RequestTimeout,
    LengthRequired,
    PayloadTooLarge,
    InternalServerError,
    NotImplemented,
    BadGateway,
    ServiceUnavailable,
    Other(u16),
}

/// The numeric code of each status.
pub open spec fn spec_code(s: HttpStatus) -> u16 {
    match s {
        HttpStatus::Okay => 200,
        HttpStatus::Created => 201,
        HttpStatus::Accepted => 202,
        HttpStatus::NoContent => 204,
        HttpStatus::MovedPermanently => 301,
        HttpStatus::Found => 302,
        HttpStatus::NotModified => 304,
        HttpStatus::BadRequest => 400,
        HttpStatus::Unauthorized => 401,
        HttpStatus::Forbidden => 403,
        HttpStatus::NotFound => 404,
        HttpStatus::MethodNotAllowed => 405,
        HttpStatus::RequestTimeout => 408,
        HttpStatus::LengthRequired => 411,
        HttpStatus::PayloadTooLarge => 413,
        HttpStatus::InternalServerError => 500,
        HttpStatus::NotImplemented => 501,
        HttpStatus::BadGateway => 502,
        HttpStatus::ServiceUnavailable => 503,
        HttpStatus::Other(c) => c,
    }
}

/// The standard reason phrase for a numeric code; codes outside the known
/// set all share the `"Unknown"` phrase.
pub open spec fn spec_reason(code: u16) -> Seq<char> {
    if code == 200 {
        "OK"@
    } else if code == 201 {
        "Created"@
    } else if code == 202 {
        "Accepted"@
    } else if code == 204 {
        "No Content"@
    } else if code == 301 {
        "Moved Permanently"@
    } else if code == 302 {
        "Found"@
    } else if code == 304 {
        "Not Modified"@
    } else if code == 400 {
        "Bad Request"@
    } else if code == 401 {
        "Unauthorized"@
    } else if code == 403 {
        "Forbidden"@
    } else if code == 404 {
        "Not Found"@
    } else if code == 405 {
        "Method Not Allowed"@
    } else if code == 408 {
        "Request Timeout"@
    } else if code == 411 {
        "Length Required"@
    } else if code == 413 {
        "Payload Too Large"@
    } else if code == 500 {
        "Internal Server Error"@
    } else if code == 501 {
        "Not Implemented"@
    } else if code == 502 {
        "Bad Gateway"@
    } else if code == 503 {
        "Service Unavailable"@
    } else {
        "Unknown"@
    }
}

impl HttpStatus {
    /// The numeric code of this status.
    pub fn code(&self) -> (c: u16)
        ensures
            c == spec_code(*self),
    {
        match *self {
            HttpStatus::Okay => 200,
            HttpStatus::Created => 201,
            HttpStatus::Accepted => 202,
            HttpStatus::NoContent => 204,
            HttpStatus::MovedPermanently => 301,
            HttpStatus::Found => 302,
            HttpStatus::NotModified => 304,
            HttpStatus::BadRequest => 400,
            HttpStatus::Unauthorized => 401,
            HttpStatus::Forbidden => 403,
            HttpStatus::NotFound => 404,
            HttpStatus::MethodNotAllowed => 405,
            HttpStatus::RequestTimeout => 408,
            HttpStatus::LengthRequired => 411,
            HttpStatus::PayloadTooLarge => 413,
            HttpStatus::InternalServerError => 500,
            HttpStatus::NotImplemented => 501,
            HttpStatus::BadGateway => 502,
            HttpStatus::ServiceUnavailable => 503,
            HttpStatus::Other(c) => c,
        }
    }

    /// The status a numeric code stands for; `code(from_code(c)) == c` for
    /// every `c`.
    pub fn from_code(code: u16) -> (s: HttpStatus)
        ensures
            spec_code(s) == code,
    {
        if code == 200 {
            HttpStatus::Okay
        } else if code == 201 {
            HttpStatus::Created
        } else if code == 202 {
            HttpStatus::Accepted
        } else if code == 204 {
            HttpStatus::NoContent
        } else if code == 301 {
            HttpStatus::MovedPermanently
        } else if code == 302 {
            HttpStatus::Found
        } else if code == 304 {
            HttpStatus::NotModified
        } else if code == 400 {
            HttpStatus::BadRequest
        } else if code == 401 {
            HttpStatus::Unauthorized
        } else if code == 403 {
            HttpStatus::Forbidden
        } else if code == 404 {
            HttpStatus::NotFound
        } else if code == 405 {
            HttpStatus::MethodNotAllowed
        } else if code == 408 {
            HttpStatus::RequestTimeout
        } else if code == 411 {
            HttpStatus::LengthRequired
        } else if code == 413 {
            HttpStatus::PayloadTooLarge
        } else if code == 500 {
            HttpStatus::InternalServerError
        } else if code == 501 {
            HttpStatus::NotImplemented
        } else if code == 502 {
            HttpStatus::BadGateway
        } else if code == 503 {
            HttpStatus::ServiceUnavailable
        } else {
            HttpStatus::Other(code)
        }
    }

    /// The reason phrase of this status, as it appears on the status line.
    pub fn reason_phrase(&self) -> (r: &'static str)
        ensures
            r@ == spec_reason(spec_code(*self)),
    {
        match *self {
            HttpStatus::Okay => "OK",
            HttpStatus::Created => "Created",
            HttpStatus::Accepted => "Accepted",
            HttpStatus::NoContent => "No Content",
            HttpStatus::MovedPermanently => "Moved Permanently",
            HttpStatus::Found => "Found",
            HttpStatus::NotModified => "Not Modified",
            HttpStatus::BadRequest => "Bad Request",
            HttpStatus::Unauthorized => "Unauthorized",
            HttpStatus::Forbidden => "Forbidden",
            HttpStatus::NotFound => "Not Found",
            HttpStatus::MethodNotAllowed => "Method Not Allowed",
            HttpStatus::RequestTimeout => "Request Timeout",
            HttpStatus::LengthRequired => "Length Required",
            HttpStatus::PayloadTooLarge => "Payload Too Large",
            HttpStatus::InternalServerError => "Internal Server Error",
            HttpStatus::NotImplemented => "Not Implemented",
            HttpStatus::BadGateway => "Bad Gateway",
            HttpStatus::ServiceUnavailable => "Service Unavailable",
            HttpStatus::Other(c) => {
                if c == 200 {
                    "OK"
                } else if c == 201 {
                    "Created"
                } else if c == 202 {
                    "Accepted"
                } else if c == 204 {
                    "No Content"
                } else if c == 301 {
                    "Moved Permanently"
                } else if c == 302 {
                    "Found"
                } else if c == 304 {
                    "Not Modified"
                } else if c == 400 {
                    "Bad Request"
                } else if c == 401 {
                    "Unauthorized"
                } else if c == 403 {
                    "Forbidden"
                } else if c == 404 {
                    "Not Found"
                } else if c == 405 {
                    "Method Not Allowed"
                } else if c == 408 {
                    "Request Timeout"
                } else if c == 411 {
                    "Length Required"
                } else if c == 413 {
                    "Payload Too Large"
                } else if c == 500 {
                    "Internal Server Error"
                } else if c == 501 {
                    "Not Implemented"
                } else if c == 502 {
                    "Bad Gateway"
                } else if c == 503 {
                    "Service Unavailable"
                } else {
                    "Unknown"
                }
            },
        }
    }
}

} // verus!
