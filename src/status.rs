//! Status codes, failures, and the per-caller diagnostic slot.
use vstd::prelude::*;
use vstd::string::*;

verus! {

/// The status that every fallible entry point returns.
#[derive(PartialEq, Eq, Structural, Clone, Copy, Debug)]
pub enum ErrorCode {
    Success,
    NullPointer,
    InvalidUtf8,
    PdfParseError,
    AllocationError,
    SerializationError,
}

impl ErrorCode {
    /// The integer that stands for this status at the foreign boundary.
    pub fn code(&self) -> (r: i32)
        ensures
            r == match self {
                ErrorCode::Success => 0i32,
                ErrorCode::NullPointer => 1i32,
                ErrorCode::InvalidUtf8 => 2i32,
                ErrorCode::PdfParseError => 3i32,
                ErrorCode::AllocationError => 4i32,
                ErrorCode::SerializationError => 5i32,
            },
    {
        match self {
            ErrorCode::Success => 0,
            ErrorCode::NullPointer => 1,
            ErrorCode::InvalidUtf8 => 2,
            ErrorCode::PdfParseError => 3,
            ErrorCode::AllocationError => 4,
            ErrorCode::SerializationError => 5,
        }
    }
}

/// A failed call: its status and the diagnostic that explains it.
pub struct Failure {
    pub code: ErrorCode,
    pub message: String,
}

/// The failure `f` has status `code` and diagnostic `message`.
pub open spec fn failure_is(f: Failure, code: ErrorCode, message: Seq<char>) -> bool {
    f.code == code && f.message@ == message
}

/// The diagnostic left by the most recent failed call of one caller.
pub struct LastError {
    pub message: Option<String>,
}

impl LastError {
    /// A slot that holds no diagnostic.
    pub fn new() -> (r: Self)
        ensures
            r.message is None,
    {
        LastError { message: None }
    }
}

/// Records `msg` as the diagnostic of `slot`.
pub fn set_last_error(slot: &mut LastError, msg: String)
    ensures
        final(slot).message == Some(msg),
{
    slot.message = Some(msg);
}

/// Empties the diagnostic of `slot`.
pub fn clear_last_error(slot: &mut LastError)
    ensures
        final(slot).message is None,
{
    slot.message = None;
}

/// The diagnostic recorded in `slot`, if there is a non-empty one; reading
/// it leaves the slot as it is.
pub fn last_error_message(slot: &LastError) -> (r: Option<String>)
    ensures
        match slot.message {
            Some(m) => if m@.len() > 0 {
                r matches Some(s) && s@ == m@
            } else {
                r is None
            },
            None => r is None,
        },
{
    match &slot.message {
        Some(m) => {
            if m.as_str().is_empty() {
                None
            } else {
                Some(m.clone())
            }
        },
        None => None,
    }
}

/// The diagnostic for a missing pointer on the entry point `entry`.
pub open spec fn null_pointer_message(entry: Seq<char>) -> Seq<char> {
    "Null pointer provided to "@ + entry
}

/// Opens a call on the entry point `entry`: clears the diagnostic, then
/// refuses the call with `NullPointer` when a required pointer is missing.
pub fn enter_call(slot: &mut LastError, pointers_present: bool, entry: &str) -> (r: Result<
    (),
    ErrorCode,
>)
    ensures
        pointers_present ==> r is Ok && final(slot).message is None,
        !pointers_present ==> r == Err::<(), ErrorCode>(ErrorCode::NullPointer),
        !pointers_present ==> (final(slot).message matches Some(m) && m@ == null_pointer_message(
            entry@,
        )),
{
    clear_last_error(slot);
    if pointers_present {
        Ok(())
    } else {
        set_last_error(slot, String::from_str("Null pointer provided to ").concat(entry));
        Err(ErrorCode::NullPointer)
    }
}

/// Closes a call: a success passes through and leaves the slot as it is; a
/// failure leaves its diagnostic in the slot and yields its status.
pub fn finish_call<T>(slot: &mut LastError, outcome: Result<T, Failure>) -> (r: Result<T, ErrorCode>)
    ensures
        match outcome {
            Ok(v) => r == Ok::<T, ErrorCode>(v) && *final(slot) == *old(slot),
            Err(f) => r == Err::<T, ErrorCode>(f.code) && final(slot).message == Some(f.message),
        },
{
    match outcome {
        Ok(v) => Ok(v),
        Err(f) => {
            set_last_error(slot, f.message);
            Err(f.code)
        },
    }
}

} // verus!
