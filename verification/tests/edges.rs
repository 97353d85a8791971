use toml_read_field_noheap::bytes::is_ascii_space_or_tab_byte;
use toml_read_field_noheap::{
    read_single_line_string_field_from_toml_no_heap, FieldScanner, FileEvent, ReadTomlFieldError,
    ScanStep, TomlFile, RSLSF_MAX_BYTES_SCANNED,
};

type Outcome = Result<Vec<u8>, ReadTomlFieldError>;

/// The value, after a check that the buffer holds zeros behind it.
fn value_of<const N: usize>(result: Result<([u8; N], usize), ReadTomlFieldError>) -> Outcome {
    let (buffer, length) = result?;
    assert!(buffer[length..].iter().all(|byte| *byte == 0));
    Ok(buffer[..length].to_vec())
}

fn read(contents: &[u8], key: &str) -> Outcome {
    value_of(read_single_line_string_field_from_toml_no_heap::<16>(
        TomlFile::Readable(contents),
        key,
    ))
}

fn ok(value: &[u8]) -> Outcome {
    Ok(value.to_vec())
}

#[test]
fn only_space_and_tab_make_a_gap() {
    let gaps: Vec<u8> = (0..=255u8).filter(|b| is_ascii_space_or_tab_byte(*b)).collect();
    assert_eq!(gaps, vec![b'\t', b' ']);
}

#[test]
fn inline_comment_belongs_to_an_unquoted_value() {
    assert_eq!(read(b"port = 8080  # note\n", "port"), ok(b"8080  # note"));
}

#[test]
fn inline_comment_behind_quotes_is_ignored() {
    assert_eq!(read(b"port = \"8080\"  # note\n", "port"), ok(b"8080"));
}

#[test]
fn quoted_value_may_hold_line_feeds() {
    assert_eq!(read(b"k = \"a\nk = 1\n\"", "k"), ok(b"a\nk = 1\n"));
}

#[test]
fn carriage_returns_inside_an_unquoted_value_are_kept() {
    assert_eq!(read(b"k = a\rb\n", "k"), ok(b"a\rb"));
    assert_eq!(read(b"k = a\r\r\n", "k"), ok(b"a\r"));
    assert_eq!(read(b"k = \ra\r\n", "k"), ok(b"\ra"));
}

#[test]
fn empty_value_before_carriage_return_and_line_feed() {
    assert_eq!(read(b"k =\r\n", "k"), ok(b""));
}

#[test]
fn carriage_return_in_the_indent_is_skipped() {
    assert_eq!(read(b"\r \r\tk = 1\n", "k"), ok(b"1"));
}

#[test]
fn carriage_return_behind_the_key_spoils_the_line() {
    assert_eq!(read(b"k\r= 1\nk = 2\n", "k"), ok(b"2"));
}

#[test]
fn key_without_equals_sign_is_no_entry() {
    assert_eq!(read(b"k\nk \nk x = 0\nk = 2\n", "k"), ok(b"2"));
}

#[test]
fn part_of_the_key_at_the_end_of_a_line() {
    assert_eq!(read(b"na\nname = 1\n", "name"), ok(b"1"));
}

#[test]
fn file_that_ends_before_the_value_lacks_the_field() {
    for contents in [&b""[..], b"na", b"name", b"name  ", b"# name = 1", b"x = 1"] {
        assert_eq!(read(contents, "name"), Err(ReadTomlFieldError::RsLsfFieldNotFound));
    }
}

#[test]
fn file_that_ends_behind_the_equals_sign_is_unterminated() {
    for contents in [&b"k="[..], b"k = ", b"k = \"", b"k = \r", b"k = 1\r"] {
        assert_eq!(
            read(contents, "k"),
            Err(ReadTomlFieldError::RsLsfValueUnterminatedAtEndOfFile)
        );
    }
}

#[test]
fn comment_is_skipped_even_for_a_key_that_looks_like_one() {
    assert_eq!(read(b"#k = 1\n", "#k"), Err(ReadTomlFieldError::RsLsfFieldNotFound));
}

#[test]
fn key_with_equals_sign_and_quote_is_compared_byte_by_byte() {
    assert_eq!(read(b"a=\"b = 1\n", "a=\"b"), ok(b"1"));
}

#[test]
fn key_of_several_lines_is_given_up_where_it_departs() {
    assert_eq!(read(b"a\nb = 1\n", "a\nb"), ok(b"1"));
    assert_eq!(
        read(b"a\na\nb = 1\n", "a\nb"),
        Err(ReadTomlFieldError::RsLsfFieldNotFound)
    );
}

#[test]
fn value_need_not_be_text() {
    assert_eq!(read(b"k = \xff\xfe\n", "k"), ok(b"\xff\xfe"));
}

#[test]
fn byte_order_mark_hides_the_first_line() {
    assert_eq!(read(b"\xef\xbb\xbfk = 1\nk = 2\n", "k"), ok(b"2"));
}

#[test]
fn value_fits_or_is_refused_whole() {
    let contents = b"a = \"12345678\"\nb = 12345678\r\nc = 1234567\rx\n";
    for key in ["a", "b"] {
        let fits = read_single_line_string_field_from_toml_no_heap::<8>(
            TomlFile::Readable(contents),
            key,
        );
        assert_eq!(value_of(fits), ok(b"12345678"));
        let refused = read_single_line_string_field_from_toml_no_heap::<7>(
            TomlFile::Readable(contents),
            key,
        );
        assert_eq!(refused, Err(ReadTomlFieldError::RsLsfValueExceedsOutputBuffer));
    }
    let held_back = read_single_line_string_field_from_toml_no_heap::<7>(
        TomlFile::Readable(contents),
        "c",
    );
    assert_eq!(held_back, Err(ReadTomlFieldError::RsLsfValueExceedsOutputBuffer));
    let behind_it = read_single_line_string_field_from_toml_no_heap::<8>(
        TomlFile::Readable(contents),
        "c",
    );
    assert_eq!(behind_it, Err(ReadTomlFieldError::RsLsfValueExceedsOutputBuffer));
}

#[test]
fn overlong_value_is_refused_before_its_end_is_missed() {
    let result = read_single_line_string_field_from_toml_no_heap::<2>(
        TomlFile::Readable(b"k = 123"),
        "k",
    );
    assert_eq!(result, Err(ReadTomlFieldError::RsLsfValueExceedsOutputBuffer));
}

#[test]
fn failing_read_is_reported_unless_the_answer_came_first() {
    let fails = read_single_line_string_field_from_toml_no_heap::<4>(
        TomlFile::FailsAfter(b"k = 1"),
        "k",
    );
    assert_eq!(fails, Err(ReadTomlFieldError::RsLsfFileReadFailed));
    let answered = read_single_line_string_field_from_toml_no_heap::<4>(
        TomlFile::FailsAfter(b"k = 1\n"),
        "k",
    );
    assert_eq!(value_of(answered), ok(b"1"));
}

#[test]
fn buffer_is_refused_before_key_and_key_before_file() {
    let both = read_single_line_string_field_from_toml_no_heap::<0>(TomlFile::Unopenable, "");
    assert_eq!(both, Err(ReadTomlFieldError::RsLsfOutputBufferZeroSized));
    let key = read_single_line_string_field_from_toml_no_heap::<1>(TomlFile::Unopenable, "");
    assert_eq!(key, Err(ReadTomlFieldError::RsLsfEmptyKey));
}

#[test]
fn budget_covers_exactly_its_bytes() {
    let budget = RSLSF_MAX_BYTES_SCANNED as usize;
    assert_eq!(budget, 1 << 20);

    let mut filler = vec![b'x'; budget];
    assert_eq!(read(&filler, "k"), Err(ReadTomlFieldError::RsLsfFieldNotFound));
    filler.push(b'x');
    assert_eq!(read(&filler, "k"), Err(ReadTomlFieldError::RsLsfSafetyBudgetExhausted));
    let fails = read_single_line_string_field_from_toml_no_heap::<4>(
        TomlFile::FailsAfter(&filler[..budget]),
        "k",
    );
    assert_eq!(fails, Err(ReadTomlFieldError::RsLsfFileReadFailed));

    let mut last = vec![b'\n'; budget - 4];
    last.extend_from_slice(b"k=1\n");
    last.extend_from_slice(b"more");
    assert_eq!(read(&last, "k"), ok(b"1"));

    let mut late = vec![b'\n'; budget - 3];
    late.extend_from_slice(b"k=1\n");
    assert_eq!(read(&late, "k"), Err(ReadTomlFieldError::RsLsfSafetyBudgetExhausted));
}

#[test]
fn lines_before_and_bytes_behind_an_entry_do_not_matter() {
    let alone = read(b"\t name \t= \"v w\"", "name");
    assert_eq!(alone, ok(b"v w"));
    assert_eq!(read(b"names = 1\n#\n\r\n\t name \t= \"v w\" \xff\nname = 2", "name"), alone);
}

#[test]
fn no_key_is_too_long_and_no_line_either() {
    let key = "k".repeat(5000);
    let contents = format!("{}{} = 1\n", " ".repeat(5000), key);
    assert_eq!(read(contents.as_bytes(), &key), ok(b"1"));
}

#[test]
fn scanner_stops_at_the_closing_quote() {
    let mut scanner = FieldScanner::<4>::new("k").expect("key and buffer are there");
    for byte in *b"k = \"ab" {
        assert_eq!(scanner.step(FileEvent::Byte(byte)), ScanStep::ReadByte);
    }
    assert_eq!(
        scanner.step(FileEvent::Byte(b'"')),
        ScanStep::Finished(Ok((*b"ab\0\0", 2)))
    );
}

#[test]
fn scanner_turns_each_failure_into_its_error() {
    let failures = [
        (FileEvent::OpenFailed, ReadTomlFieldError::RsLsfFileOpenFailed),
        (FileEvent::ReadFailed, ReadTomlFieldError::RsLsfFileReadFailed),
        (FileEvent::EndOfFile, ReadTomlFieldError::RsLsfFieldNotFound),
    ];
    for (event, error) in failures {
        let mut scanner = FieldScanner::<4>::new("k").expect("key and buffer are there");
        assert_eq!(scanner.step(event), ScanStep::Finished(Err(error)));
    }
}

#[test]
fn scanner_is_not_made_without_key_or_room() {
    assert_eq!(
        FieldScanner::<4>::new("").err(),
        Some(ReadTomlFieldError::RsLsfEmptyKey)
    );
    assert_eq!(
        FieldScanner::<0>::new("k").err(),
        Some(ReadTomlFieldError::RsLsfOutputBufferZeroSized)
    );
}
