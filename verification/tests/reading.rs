use toml_read_field_noheap::{
    read_single_line_string_field_from_toml_no_heap, ReadTomlFieldError, TomlFile,
};

fn file(contents: &str) -> TomlFile<'_> {
    TomlFile::Readable(contents.as_bytes())
}

#[test]
fn rslsf_finds_simple_quoted_value() {
    let test_file = "name = \"alice\"\n";
    let (output_buffer, written_length) =
        read_single_line_string_field_from_toml_no_heap::<16>(file(&test_file), "name")
            .expect("should find value");
    assert_eq!(&output_buffer[..written_length], b"alice");
}

#[test]
fn rslsf_finds_unquoted_value() {
    let test_file = "port = 8080\n";
    let (output_buffer, written_length) =
        read_single_line_string_field_from_toml_no_heap::<16>(file(&test_file), "port")
            .expect("should find value");
    assert_eq!(&output_buffer[..written_length], b"8080");
}

#[test]
fn rslsf_handles_crlf_endings() {
    let test_file = "name = \"bob\"\r\nother = \"x\"\r\n";
    let (output_buffer, written_length) =
        read_single_line_string_field_from_toml_no_heap::<16>(file(&test_file), "name")
            .expect("should find value");
    assert_eq!(&output_buffer[..written_length], b"bob");
}

#[test]
fn rslsf_handles_crlf_endings_for_unquoted_value() {
    let test_file = "port = 8080\r\nx = 1\r\n";
    let (output_buffer, written_length) =
        read_single_line_string_field_from_toml_no_heap::<16>(file(&test_file), "port")
            .expect("should find unquoted value with CRLF terminator");
    // The trailing CR before LF must NOT appear in the value.
    assert_eq!(&output_buffer[..written_length], b"8080");
}

#[test]
fn rslsf_skips_comments_and_blank_lines() {
    let test_file = "# a header comment\n\n   # indented comment\nname = \"carol\"\n";
    let (output_buffer, written_length) =
        read_single_line_string_field_from_toml_no_heap::<16>(file(&test_file), "name")
            .expect("should find value");
    assert_eq!(&output_buffer[..written_length], b"carol");
}

#[test]
fn rslsf_does_not_match_key_with_extra_prefix_chars() {
    // "name_long" must NOT be accepted when caller asked for "name".
    let test_file = "name_long = \"WRONG\"\nname = \"RIGHT\"\n";
    let (output_buffer, written_length) =
        read_single_line_string_field_from_toml_no_heap::<16>(file(&test_file), "name")
            .expect("should find value");
    assert_eq!(&output_buffer[..written_length], b"RIGHT");
}

#[test]
fn rslsf_returns_field_not_found_when_missing() {
    let test_file = "other = \"x\"\n";
    let result =
        read_single_line_string_field_from_toml_no_heap::<16>(file(&test_file), "name");
    assert_eq!(result, Err(ReadTomlFieldError::RsLsfFieldNotFound));
}

#[test]
fn rslsf_returns_value_too_long_when_output_too_small() {
    // "toolongxx" is 9 bytes, which exceeds the 8-byte output buffer.
    let test_file = "name = \"toolongxx\"\n";
    let result =
        read_single_line_string_field_from_toml_no_heap::<8>(file(&test_file), "name");
    assert_eq!(
        result,
        Err(ReadTomlFieldError::RsLsfValueExceedsOutputBuffer)
    );
}

#[test]
fn rslsf_returns_open_failed_for_nonexistent_path() {
    let result = read_single_line_string_field_from_toml_no_heap::<16>(TomlFile::Unopenable, "name");
    assert_eq!(result, Err(ReadTomlFieldError::RsLsfFileOpenFailed));
}

#[test]
fn rslsf_rejects_empty_key() {
    let test_file = "name = \"x\"\n";
    let result =
        read_single_line_string_field_from_toml_no_heap::<16>(file(&test_file), "");
    assert_eq!(result, Err(ReadTomlFieldError::RsLsfEmptyKey));
}

#[test]
fn rslsf_quoted_value_finds_at_eof_via_closing_quote() {
    // Quoted value with no trailing newline; closing quote IS present.
    // This is valid per policy.
    let test_file = "name = \"dora\"";
    let (output_buffer, written_length) =
        read_single_line_string_field_from_toml_no_heap::<16>(file(&test_file), "name")
            .expect("quoted value terminated by closing quote should succeed at EOF");
    assert_eq!(&output_buffer[..written_length], b"dora");
}

#[test]
fn rslsf_unquoted_value_without_newline_is_unterminated() {
    // An unquoted value needs its newline.
    let test_file = "port = 8080";
    let result =
        read_single_line_string_field_from_toml_no_heap::<16>(file(&test_file), "port");
    assert_eq!(
        result,
        Err(ReadTomlFieldError::RsLsfValueUnterminatedAtEndOfFile),
    );
}

#[test]
fn rslsf_quoted_value_without_closing_quote_is_unterminated() {
    let test_file = "name = \"alice\n";
    let result =
        read_single_line_string_field_from_toml_no_heap::<16>(file(&test_file), "name");
    // A newline inside quotes is data, so the value runs on to the end of
    // the file.
    assert_eq!(
        result,
        Err(ReadTomlFieldError::RsLsfValueUnterminatedAtEndOfFile),
    );
}

#[test]
fn rslsf_finds_key_after_many_unrelated_lines() {
    // Force the scanner to traverse a large number of unrelated lines
    // before reaching the target key.
    let mut contents = String::new();
    for i in 0..200 {
        contents.push_str(&format!("noise_key_{:03} = \"junkjunkjunk\"\n", i));
    }
    contents.push_str("target = \"eve\"\n");
    let test_file = contents;
    let (output_buffer, written_length) =
        read_single_line_string_field_from_toml_no_heap::<16>(
            file(&test_file),
            "target",
        )
        .expect("should find value after many lines");
    assert_eq!(&output_buffer[..written_length], b"eve");
}

#[test]
fn rslsf_unrelated_long_line_does_not_abort_scan() {
    // No line is kept, so the only limit is the output buffer, which
    // takes the matched value alone.
    let mut contents = String::new();
    contents.push_str("other_key = \"");
    for _ in 0..4096 {
        contents.push('X');
    }
    contents.push_str("\"\n");
    contents.push_str("name = \"frank\"\n");
    let test_file = contents;
    let (output_buffer, written_length) =
        read_single_line_string_field_from_toml_no_heap::<16>(file(&test_file), "name")
            .expect("unrelated long line should not block finding the real key");
    assert_eq!(&output_buffer[..written_length], b"frank");
}

#[test]
fn rslsf_handles_whitespace_around_key_and_equals() {
    let test_file = "   name\t=\t  \"grace\"   \n";
    let (output_buffer, written_length) =
        read_single_line_string_field_from_toml_no_heap::<16>(file(&test_file), "name")
            .expect("should find value with varied whitespace");
    assert_eq!(&output_buffer[..written_length], b"grace");
}

#[test]
fn rslsf_first_match_wins_when_key_appears_twice() {
    let test_file = "name = \"first\"\nname = \"second\"\n";
    let (output_buffer, written_length) =
        read_single_line_string_field_from_toml_no_heap::<16>(file(&test_file), "name")
            .expect("should find first value");
    assert_eq!(&output_buffer[..written_length], b"first");
}

#[test]
fn rslsf_zero_sized_output_buffer_is_rejected() {
    let result = read_single_line_string_field_from_toml_no_heap::<0>(TomlFile::Unopenable, "name");
    assert_eq!(result, Err(ReadTomlFieldError::RsLsfOutputBufferZeroSized));
}

#[test]
fn rslsf_unquoted_value_with_trailing_whitespace_includes_whitespace() {
    // Policy: trailing whitespace before '\n' IS included in the value.
    // A caller who wants it trimmed trims it.
    let test_file = "port = 8080   \n";
    let (output_buffer, written_length) =
        read_single_line_string_field_from_toml_no_heap::<16>(file(&test_file), "port")
            .expect("should find unquoted value");
    assert_eq!(&output_buffer[..written_length], b"8080   ");
}

#[test]
fn rslsf_empty_unquoted_value_returns_zero_length() {
    // "key = \n" is an empty unquoted value with newline. Returns OK, len 0.
    let test_file = "name = \n";
    let (output_buffer, written_length) =
        read_single_line_string_field_from_toml_no_heap::<16>(file(&test_file), "name")
            .expect("empty unquoted value with newline is valid");
    assert_eq!(written_length, 0);
    // Buffer untouched.
    assert_eq!(output_buffer[0], 0);
}

#[test]
fn rslsf_empty_quoted_value_returns_zero_length() {
    let test_file = "name = \"\"\n";
    let (output_buffer, written_length) =
        read_single_line_string_field_from_toml_no_heap::<16>(file(&test_file), "name")
            .expect("empty quoted value is valid");
    assert_eq!(written_length, 0);
    assert_eq!(output_buffer[0], 0);
}

#[test]
fn rslsf_single_byte_key_works() {
    let test_file = "x = \"yes\"\n";
    let (output_buffer, written_length) =
        read_single_line_string_field_from_toml_no_heap::<16>(file(&test_file), "x")
            .expect("single-byte key should work");
    assert_eq!(&output_buffer[..written_length], b"yes");
}
