//! Base64 encoding and decoding designed to resist software side-channel
//! leakage (timing and cache attacks), with machine-checked functional
//! contracts.
//!
//! The decoder accepts interleaved ASCII whitespace, accepts the standard
//! (`+` `/`) and URL-safe (`-` `_`) alphabets interchangeably, and validates
//! `=` trailers precisely.  The encoder supports both alphabets, optional
//! padding, and line wrapping with LF or CRLF newlines.
//!
//! Every entry point is specified against the mathematical model in
//! [`model`]: encoding returns exactly [`model::encode_model`] and decoding
//! exactly [`model::decode_model`], whichever block implementation runs.
//!
//! The implementations aim for control flow and table probes that do not
//! depend on the data, only on whitespace and the length of the valid
//! input.  That aim cannot be checked by a verifier or a type system; it
//! is a documented contract of the code's shape, and a mitigation rather
//! than a guarantee on hardware with sub-cache-line timing.
use vstd::prelude::*;
use vstd::string::StringSliceAdditionalSpecFns;

pub mod decode;
pub mod encode;
pub mod laws;
pub mod misc;
pub mod model;

pub use decode::Error as FromBase64Error;
pub use CharacterSet::Standard;
pub use CharacterSet::UrlSafe;

use crate::model::{ascii_chars, decode_model, encode_model};

verus! {

/// Available encoding character sets.
#[derive(Clone, Copy, Debug)]
pub enum CharacterSet {
    /// The standard character set (uses `+` and `/`).
    Standard,
    /// The URL safe character set (uses `-` and `_`).
    UrlSafe,
}

/// Available newline types.
#[derive(Clone, Copy, Debug)]
pub enum Newline {
    /// A linefeed (i.e. Unix-style newline).
    LF,
    /// A carriage return and a linefeed (i.e. Windows-style newline).
    CRLF,
}

/// Contains configuration parameters for `to_base64`.
#[derive(Clone, Copy, Debug)]
pub struct Config {
    /// Character set to use.
    pub char_set: CharacterSet,
    /// Newline to use.
    pub newline: Newline,
    /// True to pad output with `=` characters.
    pub pad: bool,
    /// `Some(len)` to wrap lines at `len`, `None` to disable line wrapping.
    pub line_length: Option<usize>,
}

impl Config {
    /// Configuration for RFC 4648 standard base64 encoding.
    pub fn standard() -> (c: Config)
        ensures
            c == (Config {
                char_set: CharacterSet::Standard,
                newline: Newline::CRLF,
                pad: true,
                line_length: Option::<usize>::None,
            }),
    {
        Config {
            char_set: CharacterSet::Standard,
            newline: Newline::CRLF,
            pad: true,
            line_length: Option::None,
        }
    }

    /// Configuration for RFC 4648 base64url encoding.
    pub fn url_safe() -> (c: Config)
        ensures
            c == (Config {
                char_set: CharacterSet::UrlSafe,
                newline: Newline::CRLF,
                pad: false,
                line_length: Option::<usize>::None,
            }),
    {
        Config {
            char_set: CharacterSet::UrlSafe,
            newline: Newline::CRLF,
            pad: false,
            line_length: Option::None,
        }
    }

    /// Configuration for RFC 2045 MIME base64 encoding.
    pub fn mime() -> (c: Config)
        ensures
            c == (Config {
                char_set: CharacterSet::Standard,
                newline: Newline::CRLF,
                pad: true,
                line_length: Option::Some(76usize),
            }),
    {
        Config {
            char_set: CharacterSet::Standard,
            newline: Newline::CRLF,
            pad: true,
            line_length: Option::Some(76),
        }
    }
}

/// A trait for converting a value to base64 encoding.
pub trait ToBase64 {
    /// The bytes that the conversion encodes.
    spec fn b64_bytes(&self) -> Seq<u8>;

    /// Converts the value of `self` to a base64 value following the
    /// specified format configuration, returning the owned string.
    fn to_base64(&self, config: Config) -> (r: String)
        requires
            self.b64_bytes().len() <= usize::MAX as int / 16,
            match config.line_length {
                Option::Some(l) => l >= 1,
                Option::None => true,
            },
        ensures
            r@ == ascii_chars(encode_model(self.b64_bytes(), config)),
    ;
}

impl ToBase64 for [u8] {
    open spec fn b64_bytes(&self) -> Seq<u8> {
        self@
    }

    /// Turn a slice of `u8` bytes into a base64 string.
    fn to_base64(&self, config: Config) -> (r: String) {
        crate::encode::encode64_arch(self, config)
    }
}

/// A trait for converting from base64 encoded values.
pub trait FromBase64 {
    /// The bytes that the conversion decodes.
    spec fn b64_input(&self) -> Seq<u8>;

    /// Converts the value of `self`, interpreted as base64 encoded data,
    /// into an owned vector of bytes, returning the vector.
    fn from_base64(&self) -> (r: Result<Vec<u8>, FromBase64Error>)
        ensures
            match r {
                Result::Ok(v) => decode_model(self.b64_input()) == Result::<
                    Seq<u8>,
                    FromBase64Error,
                >::Ok(v@),
                Result::Err(e) => decode_model(self.b64_input()) == Result::<
                    Seq<u8>,
                    FromBase64Error,
                >::Err(e),
            },
    ;
}

impl FromBase64 for [u8] {
    open spec fn b64_input(&self) -> Seq<u8> {
        self@
    }

    fn from_base64(&self) -> (r: Result<Vec<u8>, FromBase64Error>) {
        crate::decode::decode64_arch(self)
    }
}

impl FromBase64 for str {
    open spec fn b64_input(&self) -> Seq<u8> {
        self.spec_bytes()
    }

    /// Convert any base64 encoded string to the byte values it encodes.
    fn from_base64(&self) -> (r: Result<Vec<u8>, FromBase64Error>) {
        crate::decode::decode64_arch(self.as_bytes())
    }
}

} // verus!
