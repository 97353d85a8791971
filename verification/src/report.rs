//! One line about one field, for people and logs.
use vstd::prelude::*;
use vstd::slice::slice_subrange;
use vstd::utf8::{decode_utf8, valid_utf8};

use crate::error::{error_code, terse_error_code, ReadTomlFieldError};

verus! {

/// The exit code of a program that could not read a field for another reason than that the field
/// is missing.
pub const EXIT_READ_FAILED: i32 = 20;

/// What to print about a field, and what to exit with where the program cannot go on.
pub struct FieldReport {
    pub line: String,
    pub exit_code: Option<i32>,
}

/// The line about the field `key`: `OK <key> = <value>`, or `ERR <key> <code>`. An error line
/// holds nothing of the file.
pub open spec fn report_line(
    key: Seq<char>,
    outcome: Result<Seq<u8>, ReadTomlFieldError>,
) -> Seq<char> {
    match outcome {
        Ok(value) => if valid_utf8(value) {
            "OK "@ + key + " = "@ + decode_utf8(value)
        } else {
            "ERR "@ + key + " "@ + "non_utf8_value"@
        },
        Err(error) => "ERR "@ + key + " "@ + error_code(error),
    }
}

/// Whether to go on after `outcome`. A missing field is no reason to stop; neither is a value
/// that is not text.
pub open spec fn exit_code_after(outcome: Result<Seq<u8>, ReadTomlFieldError>) -> Option<i32> {
    match outcome {
        Ok(_) => None,
        Err(ReadTomlFieldError::RsLsfFieldNotFound) => None,
        Err(_) => Some(EXIT_READ_FAILED),
    }
}

/// The value or error that `read_result` carries.
pub open spec fn carried<const OUTPUT_BUFFER_BYTES: usize>(
    read_result: Result<([u8; OUTPUT_BUFFER_BYTES], usize), ReadTomlFieldError>,
) -> Result<Seq<u8>, ReadTomlFieldError> {
    match read_result {
        Ok((output_buffer, written_length)) => Ok(output_buffer@.take(written_length as int)),
        Err(error) => Err(error),
    }
}

/// `core::str::from_utf8`: the bytes as text, if they are UTF-8. Taken on trust: it accepts
/// exactly the valid encodings, and the text is the one that they encode.
#[verifier::external_body]
fn text_from_utf8(bytes: &[u8]) -> (text: Option<&str>)
    ensures
        text is Some <==> valid_utf8(bytes@),
        text matches Some(text) ==> text@ == decode_utf8(bytes@),
{
    core::str::from_utf8(bytes).ok()
}

/// Says what to print about the field `target_field_key`, given what reading it came to, and
/// whether the program can go on.
pub fn field_report<const OUTPUT_BUFFER_BYTES: usize>(
    target_field_key: &str,
    read_result: Result<([u8; OUTPUT_BUFFER_BYTES], usize), ReadTomlFieldError>,
) -> (report: FieldReport)
    requires
        read_result matches Ok((_, written_length)) ==> written_length <= OUTPUT_BUFFER_BYTES,
    ensures
        report.line@ == report_line(target_field_key@, carried(read_result)),
        report.exit_code == exit_code_after(carried(read_result)),
{
    match read_result {
        Ok((output_buffer, written_length)) => {
            let value = slice_subrange(output_buffer.as_slice(), 0, written_length);
            assert(value@ =~= output_buffer@.take(written_length as int));
            match text_from_utf8(value) {
                Some(value_as_str) => FieldReport {
                    line: joined("OK ", target_field_key, " = ", value_as_str),
                    exit_code: None,
                },
                None => FieldReport {
                    line: joined("ERR ", target_field_key, " ", "non_utf8_value"),
                    exit_code: None,
                },
            }
        },
        Err(error_variant) => FieldReport {
            line: joined("ERR ", target_field_key, " ", terse_error_code(error_variant)),
            exit_code: match error_variant {
                ReadTomlFieldError::RsLsfFieldNotFound => None,
                _ => Some(EXIT_READ_FAILED),
            },
        },
    }
}

/// Four pieces of text in a row.
fn joined(a: &str, b: &str, c: &str, d: &str) -> (line: String)
    ensures
        line@ == a@ + b@ + c@ + d@,
{
    let mut line = String::new();
    line.append(a);
    line.append(b);
    line.append(c);
    line.append(d);
    assert(line@ =~= a@ + b@ + c@ + d@);
    line
}

} // verus!
