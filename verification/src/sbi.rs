//! Value-level logic of the firmware call interface: the classification of a
//! call's returned error/value register pair, and the decoding of the
//! specification-version word.  The privileged call itself is a hardware
//! instruction outside this library.

use vstd::prelude::*;

verus! {

/// The error codes the firmware can answer with.
#[derive(Clone, Copy, PartialEq, Eq, Structural, Debug)]
pub enum SbiErrorType {
    Failed,
    NotSupported,
    InvalidParam,
    Denied,
    InvalidAddress,
    AlreadyAvailable,
    AlreadyStarted,
    AlreadyStopped,
    NoSHMEM,
    InvalidState,
    BadRange,
    Timeout,
    IO,
    DeniedLocked,
}

impl SbiErrorType {
    pub open spec fn spec_code(self) -> isize {
        match self {
            SbiErrorType::Failed => -1isize,
            SbiErrorType::NotSupported => -2isize,
            SbiErrorType::InvalidParam => -3isize,
            SbiErrorType::Denied => -4isize,
            SbiErrorType::InvalidAddress => -5isize,
            SbiErrorType::AlreadyAvailable => -6isize,
            SbiErrorType::AlreadyStarted => -7isize,
            SbiErrorType::AlreadyStopped => -8isize,
            SbiErrorType::NoSHMEM => -9isize,
            SbiErrorType::InvalidState => -10isize,
            SbiErrorType::BadRange => -11isize,
            SbiErrorType::Timeout => -12isize,
            SbiErrorType::IO => -13isize,
            SbiErrorType::DeniedLocked => -14isize,
        }
    }

    /// The wire value of this error code.
    pub fn code(self) -> (c: isize)
        ensures
            c == self.spec_code(),
    {
        match self {
            SbiErrorType::Failed => -1,
            SbiErrorType::NotSupported => -2,
            SbiErrorType::InvalidParam => -3,
            SbiErrorType::Denied => -4,
            SbiErrorType::InvalidAddress => -5,
            SbiErrorType::AlreadyAvailable => -6,
            SbiErrorType::AlreadyStarted => -7,
            SbiErrorType::AlreadyStopped => -8,
            SbiErrorType::NoSHMEM => -9,
            SbiErrorType::InvalidState => -10,
            SbiErrorType::BadRange => -11,
            SbiErrorType::Timeout => -12,
            SbiErrorType::IO => -13,
            SbiErrorType::DeniedLocked => -14,
        }
    }
}

/// A nonzero firmware error register, kept verbatim; zero (no error) is
/// represented as no code at all.
#[derive(Clone, Copy, PartialEq, Eq, Structural, Debug)]
pub struct SbiError {
    code: Option<isize>,
}

impl SbiError {
    pub closed spec fn spec_code(self) -> Option<isize> {
        self.code
    }

    pub fn new(error: isize) -> (r: SbiError)
        ensures
            r.spec_code() == (if error == 0 {
                Option::<isize>::None
            } else {
                Option::<isize>::Some(error)
            }),
    {
        if error == 0 {
            SbiError { code: None }
        } else {
            SbiError { code: Some(error) }
        }
    }

    /// The raw code, `None` when the register read zero.
    pub fn raw_code(&self) -> (c: Option<isize>)
        ensures
            c == self.spec_code(),
    {
        self.code
    }
}

pub type SbiResult<T> = Result<T, SbiError>;

/// Identifies a set of processors for the inter-processor firmware calls:
/// a base index and a bit mask relative to it.
#[derive(Clone, Copy, PartialEq, Eq, Structural, Debug)]
pub struct HartMask {
    pub base: usize,
    pub mask: usize,
}

/// Classifies the error/value register pair that every firmware call
/// returns: error zero means success with `value`, anything else carries the
/// error code.
pub fn sbi_result(error: isize, value: usize) -> (r: SbiResult<usize>)
    ensures
        error == 0 ==> r == SbiResult::<usize>::Ok(value),
        error != 0 ==> (r matches Err(e) && e.spec_code() == Some(error)),
{
    match error {
        0 => Ok(value),
        _ => Err(SbiError::new(error)),
    }
}

/// Classifies the result register of a legacy-extension call: zero is
/// success, anything else the raw error code.
pub fn sbi_legacy_result(result: isize) -> (r: Result<(), isize>)
    ensures
        result == 0 ==> r == Result::<(), isize>::Ok(()),
        result != 0 ==> r == Result::<(), isize>::Err(result),
{
    match result {
        0 => Ok(()),
        e => Err(e),
    }
}

/// Splits the specification-version word: major in bits 24 and up, minor in
/// the low 24 bits.
pub fn decode_spec_version(v: usize) -> (r: (usize, usize))
    ensures
        r.0 == v >> 24,
        r.1 == v & 0xFFFFFF,
{
    let major = v >> 24;
    let minor = v & 0xFFFFFF;
    (major, minor)
}

/// Decodes the console-read result: -1 is no character, otherwise the low
/// byte.
pub fn decode_console_char(result: isize) -> (r: Option<u8>)
    ensures
        result == -1 ==> r is None,
        result != -1 ==> r == Some((result as i64 & 0xFF) as u8),
{
    if result == -1 {
        None
    } else {
        let low = (result as i64) & 0xFF;
        proof {
            assert(0 <= (result as i64) & 0xFF < 256) by (bit_vector);
        }
        Some(low as u8)
    }
}

} // verus!
