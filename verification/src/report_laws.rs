//! What the line about a field tells, and when a program goes on.
use vstd::prelude::*;
use vstd::utf8::{
    decode_utf8, encode_utf8, encode_utf8_decode_utf8, encode_utf8_valid_utf8, valid_utf8,
};

use crate::error::{terse_error_code, ReadTomlFieldError};
use crate::laws::law_error_codes_differ;
use crate::report::{field_report, FieldReport};

verus! {

/// A report can be had of every error, and of every value that lies within its buffer.
pub proof fn law_every_result_is_reported<const N: usize>(
    key: &str,
    read_result: Result<([u8; N], usize), ReadTomlFieldError>,
)
    requires
        read_result matches Ok((_, length)) ==> length <= N,
    ensures
        call_requires(field_report::<N>, (key, read_result)),
{
}

/// Text of any length is shown whole, behind its key: whatever text the value encodes is what the
/// line says.
pub proof fn law_text_is_shown<const N: usize>(
    key: &str,
    buffer: [u8; N],
    length: usize,
    text: Seq<char>,
    report: FieldReport,
)
    requires
        length <= N,
        buffer@.take(length as int) == encode_utf8(text),
        call_ensures(
            field_report::<N>,
            (key, Ok::<([u8; N], usize), ReadTomlFieldError>((buffer, length))),
            report,
        ),
    ensures
        report.line@ == seq!['O', 'K', ' '] + key@ + seq![' ', '=', ' '] + text,
        report.exit_code is None,
{
    reveal_strlit("OK ");
    reveal_strlit(" = ");
    encode_utf8_valid_utf8(text);
    encode_utf8_decode_utf8(text);
    assert("OK "@ =~= seq!['O', 'K', ' ']);
    assert(" = "@ =~= seq![' ', '=', ' ']);
}

/// The line about a value is an error line exactly if the value is not UTF-8; else it shows the
/// text that the value encodes. Either way the program goes on.
pub proof fn law_only_other_bytes_are_withheld<const N: usize>(
    key: &str,
    buffer: [u8; N],
    length: usize,
    report: FieldReport,
)
    requires
        length <= N,
        call_ensures(
            field_report::<N>,
            (key, Ok::<([u8; N], usize), ReadTomlFieldError>((buffer, length))),
            report,
        ),
    ensures
        ({
            let value = buffer@.take(length as int);
            &&& report.line@.len() > 0
            &&& report.line@[0] == 'O' <==> valid_utf8(value)
            &&& report.line@[0] == 'E' <==> !valid_utf8(value)
            &&& valid_utf8(value) ==> report.line@ == seq!['O', 'K', ' '] + key@
                + seq![' ', '=', ' '] + decode_utf8(value)
            &&& !valid_utf8(value) ==> report.line@ == seq!['E', 'R', 'R', ' '] + key@
                + " non_utf8_value"@
            &&& report.exit_code is None
        }),
{
    reveal_strlit("OK ");
    reveal_strlit(" = ");
    reveal_strlit("ERR ");
    reveal_strlit(" ");
    reveal_strlit("non_utf8_value");
    reveal_strlit(" non_utf8_value");
    assert("OK "@ =~= seq!['O', 'K', ' ']);
    assert(" = "@ =~= seq![' ', '=', ' ']);
    assert("ERR "@ =~= seq!['E', 'R', 'R', ' ']);
    assert(" non_utf8_value"@ =~= " "@ + "non_utf8_value"@);
    assert("ERR "@ + key@ + " "@ + "non_utf8_value"@ =~= "ERR "@ + key@ + " non_utf8_value"@);
}

/// An error is shown by its key and its code. A missing field lets the program go on; every other
/// error ends it.
pub proof fn law_errors_are_shown_by_code<const N: usize>(
    key: &str,
    error: ReadTomlFieldError,
    code: &'static str,
    report: FieldReport,
)
    requires
        call_ensures(terse_error_code, (error,), code),
        call_ensures(
            field_report::<N>,
            (key, Err::<([u8; N], usize), ReadTomlFieldError>(error)),
            report,
        ),
    ensures
        report.line@ == seq!['E', 'R', 'R', ' '] + key@ + seq![' '] + code@,
        report.exit_code is None <==> error == ReadTomlFieldError::RsLsfFieldNotFound,
        error != ReadTomlFieldError::RsLsfFieldNotFound ==> report.exit_code == Some(20i32),
{
    reveal_strlit("ERR ");
    reveal_strlit(" ");
    assert("ERR "@ =~= seq!['E', 'R', 'R', ' ']);
    assert(" "@ =~= seq![' ']);
}

/// Codes tell errors apart.
pub proof fn law_codes_tell_errors_apart(
    a: ReadTomlFieldError,
    b: ReadTomlFieldError,
    code_of_a: &'static str,
    code_of_b: &'static str,
)
    requires
        call_ensures(terse_error_code, (a,), code_of_a),
        call_ensures(terse_error_code, (b,), code_of_b),
    ensures
        code_of_a@ == code_of_b@ <==> a == b,
{
    if a != b {
        law_error_codes_differ(a, b);
    }
}

} // verus!
