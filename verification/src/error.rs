//! Why a field could not be read.
use vstd::prelude::*;

verus! {

/// Why a field could not be read.
///
/// No variant carries data: an error never holds a path, file contents or the words of the
/// operating system. Every name starts with `RsLsf` (read single line string field), so that it
/// can be traced in logs.
#[derive(Debug, Clone, Copy, PartialEq, Eq, Structural)]
pub enum ReadTomlFieldError {
    /// The key is empty.
    RsLsfEmptyKey,
    /// Reserved. The key is compared in place, byte by byte, and may have any length, so no
    /// function of this library reports this.
    RsLsfKeyTooLong,
    /// The output buffer has no room for a single byte.
    RsLsfOutputBufferZeroSized,
    /// The file could not be opened.
    RsLsfFileOpenFailed,
    /// Reading from the file failed.
    RsLsfFileReadFailed,
    /// No line of the file holds the key.
    RsLsfFieldNotFound,
    /// The value does not fit in the output buffer. It is never cut short instead.
    RsLsfValueExceedsOutputBuffer,
    /// Reserved. No line is held in memory, so a line may have any length and no function of
    /// this library reports this.
    RsLsfMatchingLineExceedsScanBuffer,
    /// The file ended inside the value: a quoted value without its closing `"`, or an unquoted
    /// value without a line feed.
    RsLsfValueUnterminatedAtEndOfFile,
    /// The byte budget of a scan ran out.
    RsLsfSafetyBudgetExhausted,
}

/// The code under which an error appears in logs.
pub open spec fn error_code(error: ReadTomlFieldError) -> Seq<char> {
    match error {
        ReadTomlFieldError::RsLsfEmptyKey => "E_EMPTY_KEY"@,
        ReadTomlFieldError::RsLsfKeyTooLong => "E_KEY_TOO_LONG"@,
        ReadTomlFieldError::RsLsfOutputBufferZeroSized => "E_OUTBUF_ZERO"@,
        ReadTomlFieldError::RsLsfFileOpenFailed => "E_OPEN"@,
        ReadTomlFieldError::RsLsfFileReadFailed => "E_READ"@,
        ReadTomlFieldError::RsLsfFieldNotFound => "E_NOT_FOUND"@,
        ReadTomlFieldError::RsLsfValueExceedsOutputBuffer => "E_VALUE_TOO_BIG"@,
        ReadTomlFieldError::RsLsfMatchingLineExceedsScanBuffer => "E_LINE_TOO_BIG"@,
        ReadTomlFieldError::RsLsfValueUnterminatedAtEndOfFile => "E_UNTERMINATED"@,
        ReadTomlFieldError::RsLsfSafetyBudgetExhausted => "E_SAFETY_BUDGET"@,
    }
}

/// Maps each error to a short, fixed code that is safe to log.
pub fn terse_error_code(error_variant: ReadTomlFieldError) -> (code: &'static str)
    ensures
        code@ == error_code(error_variant),
{
    match error_variant {
        ReadTomlFieldError::RsLsfEmptyKey => "E_EMPTY_KEY",
        ReadTomlFieldError::RsLsfKeyTooLong => "E_KEY_TOO_LONG",
        ReadTomlFieldError::RsLsfOutputBufferZeroSized => "E_OUTBUF_ZERO",
        ReadTomlFieldError::RsLsfFileOpenFailed => "E_OPEN",
        ReadTomlFieldError::RsLsfFileReadFailed => "E_READ",
        ReadTomlFieldError::RsLsfFieldNotFound => "E_NOT_FOUND",
        ReadTomlFieldError::RsLsfValueExceedsOutputBuffer => "E_VALUE_TOO_BIG",
        ReadTomlFieldError::RsLsfMatchingLineExceedsScanBuffer => "E_LINE_TOO_BIG",
        ReadTomlFieldError::RsLsfValueUnterminatedAtEndOfFile => "E_UNTERMINATED",
        ReadTomlFieldError::RsLsfSafetyBudgetExhausted => "E_SAFETY_BUDGET",
    }
}

} // verus!
