use toml_read_field_noheap::report::{field_report, EXIT_READ_FAILED};
use toml_read_field_noheap::{terse_error_code, ReadTomlFieldError};

const CODES: [(ReadTomlFieldError, &str); 10] = [
    (ReadTomlFieldError::RsLsfEmptyKey, "E_EMPTY_KEY"),
    (ReadTomlFieldError::RsLsfKeyTooLong, "E_KEY_TOO_LONG"),
    (ReadTomlFieldError::RsLsfOutputBufferZeroSized, "E_OUTBUF_ZERO"),
    (ReadTomlFieldError::RsLsfFileOpenFailed, "E_OPEN"),
    (ReadTomlFieldError::RsLsfFileReadFailed, "E_READ"),
    (ReadTomlFieldError::RsLsfFieldNotFound, "E_NOT_FOUND"),
    (ReadTomlFieldError::RsLsfValueExceedsOutputBuffer, "E_VALUE_TOO_BIG"),
    (ReadTomlFieldError::RsLsfMatchingLineExceedsScanBuffer, "E_LINE_TOO_BIG"),
    (ReadTomlFieldError::RsLsfValueUnterminatedAtEndOfFile, "E_UNTERMINATED"),
    (ReadTomlFieldError::RsLsfSafetyBudgetExhausted, "E_SAFETY_BUDGET"),
];

#[test]
fn each_error_has_its_code() {
    for (error, code) in CODES {
        assert_eq!(terse_error_code(error), code);
    }
}

#[test]
fn text_is_reported_with_its_key() {
    let report = field_report::<8>("node", Ok((*b"h\xc3\xa9 o\0\0\0", 5)));
    assert_eq!(report.line, "OK node = h\u{e9} o");
    assert_eq!(report.exit_code, None);
}

#[test]
fn other_bytes_are_not_reported() {
    for value in [*b"\xffa", *b"\xfeb"] {
        let report = field_report::<2>("node", Ok((value, 2)));
        assert_eq!(report.line, "ERR node non_utf8_value");
        assert_eq!(report.exit_code, None);
    }
}

#[test]
fn errors_are_reported_by_code_and_only_a_missing_field_is_survived() {
    for (error, code) in CODES {
        let report = field_report::<2>("node", Err(error));
        assert_eq!(report.line, format!("ERR node {}", code));
        if error == ReadTomlFieldError::RsLsfFieldNotFound {
            assert_eq!(report.exit_code, None);
        } else {
            assert_eq!(report.exit_code, Some(EXIT_READ_FAILED));
        }
    }
    assert_eq!(EXIT_READ_FAILED, 20);
}
