//! The library's error type.
use vstd::prelude::*;
use vstd::string::StringExecFns;

verus! {

/// Why decoding stopped.
#[derive(Debug)]
pub enum Error {
    BadOgg(&'static str),
    BadOpus(&'static str),
    Decode(&'static str),
    Unsupported(&'static str),
    Audio(String),
}

/// The prefix that names an error's kind in its message.
pub open spec fn error_prefix(e: Error) -> Seq<char> {
    match e {
        Error::BadOgg(_) => "ogg: "@,
        Error::BadOpus(_) => "opus: "@,
        Error::Decode(_) => "decode: "@,
        Error::Unsupported(_) => "unsupported: "@,
        Error::Audio(_) => "audio: "@,
    }
}

/// The detail text an error carries.
pub open spec fn error_detail(e: Error) -> Seq<char> {
    match e {
        Error::BadOgg(s) => s@,
        Error::BadOpus(s) => s@,
        Error::Decode(s) => s@,
        Error::Unsupported(s) => s@,
        Error::Audio(s) => s@,
    }
}

impl Error {
    /// The human-readable message: the kind's prefix followed by the detail.
    pub fn message(&self) -> (m: String)
        ensures
            m@ == error_prefix(*self) + error_detail(*self),
    {
        match self {
            Error::BadOgg(s) => String::from_str("ogg: ").concat(s),
            Error::BadOpus(s) => String::from_str("opus: ").concat(s),
            Error::Decode(s) => String::from_str("decode: ").concat(s),
            Error::Unsupported(s) => String::from_str("unsupported: ").concat(s),
            Error::Audio(s) => String::from_str("audio: ").concat(s.as_str()),
        }
    }
}

} // verus!
