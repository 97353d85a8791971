//! What a caller gets: laws on the results of calls, in terms of the bytes of the file, of the key
//! and of the buffer.
use vstd::prelude::*;
use vstd::string::StringSliceAdditionalSpecFns;

use crate::bytes::{extends, gap, indent, other_than, LINE_FEED};
use crate::error::ReadTomlFieldError;
use crate::field::{delivers, end_of_file_error, settled, value_start};
use crate::laws::{
    entry_head, law_quoted_value_reads_back, law_unclosed_quote_is_unterminated,
    law_unended_line_is_unterminated, law_unquoted_value_reads_back,
    law_values_are_never_truncated, lemma_value_behind, lemma_value_start_behind,
};
use crate::reader::{read_outcome, read_single_line_string_field_from_toml_no_heap, TomlFile};
use crate::tracking::{
    key_begun, lemma_mismatch, lemma_next_line, lemma_no_equals, lemma_no_text,
    lemma_unfound_after_key, lemma_unfound_in_indent, lemma_unfound_in_key, lemma_unfound_past_stop,
    passed_over, resumes_at,
};

verus! {

/// Reading the field `key` of `file` may return `result`.
pub open spec fn read_returns<const N: usize>(
    file: TomlFile<'_>,
    key: &str,
    result: Result<([u8; N], usize), ReadTomlFieldError>,
) -> bool {
    call_ensures(read_single_line_string_field_from_toml_no_heap::<N>, (file, key), result)
}

/// `result` is a success: byte for byte `value`, its length, and a buffer that is zero behind it.
pub open spec fn is_value<const N: usize>(
    result: Result<([u8; N], usize), ReadTomlFieldError>,
    value: Seq<u8>,
) -> bool {
    match result {
        Ok((buffer, length)) => {
            &&& length == value.len()
            &&& value.len() <= N
            &&& forall|i: int| 0 <= i < value.len() ==> #[trigger] buffer@[i] == value[i]
            &&& forall|i: int| value.len() <= i < N ==> #[trigger] buffer@[i] == 0
        },
        Err(_) => false,
    }
}

/// `result` is this error.
pub open spec fn is_error<const N: usize>(
    result: Result<([u8; N], usize), ReadTomlFieldError>,
    error: ReadTomlFieldError,
) -> bool {
    match result {
        Ok(_) => false,
        Err(reported) => reported == error,
    }
}

/// Spaces, tabs and carriage returns only.
pub open spec fn blank(s: Seq<u8>) -> bool {
    forall|i: int|
        0 <= i < s.len() ==> #[trigger] s[i] == 0x20 || s[i] == 0x09 || s[i] == 0x0d
}

/// Spaces and tabs only.
pub open spec fn spaces(s: Seq<u8>) -> bool {
    forall|i: int| 0 <= i < s.len() ==> #[trigger] s[i] == 0x20 || s[i] == 0x09
}

/// `byte` does not occur.
pub open spec fn lacks(s: Seq<u8>, byte: u8) -> bool {
    forall|i: int| 0 <= i < s.len() ==> #[trigger] s[i] != byte
}

/// The text of a line can start with `key`: its first byte is neither space, tab, carriage return,
/// line feed nor `#`.
pub open spec fn starts_text(key: Seq<u8>) -> bool {
    &&& key.len() > 0
    &&& key[0] != 0x20
    &&& key[0] != 0x09
    &&& key[0] != 0x0d
    &&& key[0] != 0x0a
    &&& key[0] != 0x23
}

/// A line up to its value: `lead`, the key, `left`, `=` and `right`.
pub open spec fn head(lead: Seq<u8>, key: Seq<u8>, left: Seq<u8>, right: Seq<u8>) -> Seq<u8> {
    lead + key + left + seq![0x3du8] + right
}

/// Both results are the same, to the last byte of the buffer.
pub open spec fn same_result<const N: usize>(
    a: Result<([u8; N], usize), ReadTomlFieldError>,
    b: Result<([u8; N], usize), ReadTomlFieldError>,
) -> bool {
    match (a, b) {
        (Ok((buffer, length)), Ok((other_buffer, other_length))) => {
            buffer@ == other_buffer@ && length == other_length
        },
        (Err(error), Err(other_error)) => error == other_error,
        _ => false,
    }
}

/// Every file may be read for every key into a buffer of every size.
pub proof fn law_every_read_is_allowed<const N: usize>(file: TomlFile<'_>, key: &str)
    ensures
        call_requires(read_single_line_string_field_from_toml_no_heap::<N>, (file, key)),
{
}

/// An unusable buffer is refused first, then an empty key, then a file that cannot be opened; and
/// these errors have no other cause.
pub proof fn law_refusals<const N: usize>(
    file: TomlFile<'_>,
    key: &str,
    result: Result<([u8; N], usize), ReadTomlFieldError>,
)
    requires
        read_returns(file, key, result),
    ensures
        is_error(result, ReadTomlFieldError::RsLsfOutputBufferZeroSized) <==> N == 0,
        is_error(result, ReadTomlFieldError::RsLsfEmptyKey) <==> N > 0 && key.spec_bytes().len()
            == 0,
        is_error(result, ReadTomlFieldError::RsLsfFileOpenFailed) <==> N > 0
            && key.spec_bytes().len() > 0 && file is Unopenable,
        !is_error(result, ReadTomlFieldError::RsLsfKeyTooLong),
        !is_error(result, ReadTomlFieldError::RsLsfMatchingLineExceedsScanBuffer),
{
}

/// Reading again gives the same: no call leaves anything behind for the next.
pub proof fn law_reading_is_repeatable<const N: usize>(
    file: TomlFile<'_>,
    key: &str,
    result: Result<([u8; N], usize), ReadTomlFieldError>,
    again: Result<([u8; N], usize), ReadTomlFieldError>,
)
    requires
        read_returns(file, key, result),
        read_returns(file, key, again),
    ensures
        same_result(result, again),
{
    lemma_same_buffers(result, again);
}

/// What stands behind whole lines that were passed over decides alone.
proof fn lemma_rest_decides(before: Seq<u8>, rest: Seq<u8>, key: Seq<u8>, room: nat)
    requires
        resumes_at(before, key, before.len() as int),
    ensures
        settled(before + rest, key, room) == settled(rest, key, room),
        end_of_file_error(before + rest, key) == end_of_file_error(rest, key),
{
    assert(extends(before + rest, before));
    lemma_value_start_behind(before, rest, key, 0);
    if let Some(start) = value_start(rest, key, 0) {
        lemma_value_behind(before, rest, start);
    }
}

/// Files that settle the same are read the same.
proof fn lemma_same_answer<const N: usize>(
    contents: &[u8],
    rest: &[u8],
    key: &str,
    whole: Result<([u8; N], usize), ReadTomlFieldError>,
    alone: Result<([u8; N], usize), ReadTomlFieldError>,
)
    requires
        contents@.len() <= 1_048_576,
        rest@.len() <= 1_048_576,
        settled(contents@, key.spec_bytes(), N as nat) == settled(rest@, key.spec_bytes(), N as nat),
        end_of_file_error(contents@, key.spec_bytes()) == end_of_file_error(
            rest@,
            key.spec_bytes(),
        ),
        read_returns(TomlFile::Readable(contents), key, whole),
        read_returns(TomlFile::Readable(rest), key, alone),
    ensures
        same_result(whole, alone),
{
    lemma_same_buffers(whole, alone);
}

/// A blank line and a comment line are skipped: the file is read as if it started with the next
/// line.
pub proof fn law_blank_and_comment_lines_are_skipped<const N: usize>(
    lead: Seq<u8>,
    tail: Seq<u8>,
    rest: &[u8],
    contents: &[u8],
    key: &str,
    whole: Result<([u8; N], usize), ReadTomlFieldError>,
    alone: Result<([u8; N], usize), ReadTomlFieldError>,
)
    requires
        blank(lead),
        tail.len() > 0 ==> tail[0] == 0x23,
        lacks(tail, 0x0a),
        contents@ == lead + tail + seq![0x0au8] + rest@,
        contents@.len() <= 1_048_576,
        read_returns(TomlFile::Readable(contents), key, whole),
        read_returns(TomlFile::Readable(rest), key, alone),
    ensures
        same_result(whole, alone),
{
    let line = lead + tail + seq![0x0au8];
    let text = lead.len() as int;
    let bytes = key.spec_bytes();
    assert(line + rest@ =~= contents@);
    assert forall|i: int| 0 <= i < text implies indent()(#[trigger] line[i]) by {
        assert(line[i] == lead[i]);
    }
    assert(line[text] == (tail + seq![0x0au8])[0]);
    lemma_no_text(line, bytes, 0, text);
    assert forall|i: int| text <= i < line.len() - 1 implies other_than(LINE_FEED)(
        #[trigger] line[i],
    ) by {
        assert(line[i] == tail[i - text]);
    }
    assert(resumes_at(line, bytes, 0));
    lemma_next_line(line, bytes, 0, text);
    lemma_rest_decides(line, rest@, bytes, N as nat);
    lemma_same_answer(contents, rest, key, whole, alone);
}

/// The line `lead + key.take(m) + tail` is no entry of `key`, and shows this behind the part of
/// the key.
proof fn lemma_departs(lead: Seq<u8>, key: Seq<u8>, m: int, tail: Seq<u8>, line: Seq<u8>)
    requires
        blank(lead),
        0 <= m < key.len(),
        m > 0 ==> starts_text(key),
        tail.len() > 0,
        tail[0] != key[m],
        m == 0 ==> tail[0] != 0x20 && tail[0] != 0x09 && tail[0] != 0x0d,
        line == lead + key.take(m) + tail,
    ensures
        passed_over(line, key, 0, lead.len() + m),
        resumes_at(line, key, 0),
{
    let text = lead.len() as int;
    assert forall|i: int| 0 <= i < text implies indent()(#[trigger] line[i]) by {
        assert(line[i] == lead[i]);
    }
    assert forall|i: int| 0 <= i < m implies line[text + i] == key[i] by {
        assert(line[text + i] == key.take(m)[i]);
    }
    assert(line[text + m] == tail[0]);
    if m > 0 {
        assert(line[text + 0] == key[0]);
    }
    if m == 0 && (tail[0] == 0x0a || tail[0] == 0x23) {
        lemma_no_text(line, key, 0, text);
    } else {
        lemma_mismatch(line, key, 0, text, m);
    }
}

/// A line that departs from the key is skipped: behind the indent come the first `m` bytes of the
/// key and then something else than the next one.
pub proof fn law_other_lines_are_skipped<const N: usize>(
    lead: Seq<u8>,
    m: int,
    tail: Seq<u8>,
    rest: &[u8],
    contents: &[u8],
    key: &str,
    whole: Result<([u8; N], usize), ReadTomlFieldError>,
    alone: Result<([u8; N], usize), ReadTomlFieldError>,
)
    requires
        blank(lead),
        0 <= m < key.spec_bytes().len(),
        m > 0 ==> starts_text(key.spec_bytes()),
        lacks(tail, 0x0a),
        (tail + seq![0x0au8])[0] != key.spec_bytes()[m],
        m == 0 && tail.len() > 0 ==> tail[0] != 0x20 && tail[0] != 0x09 && tail[0] != 0x0d,
        contents@ == lead + key.spec_bytes().take(m) + tail + seq![0x0au8] + rest@,
        contents@.len() <= 1_048_576,
        read_returns(TomlFile::Readable(contents), key, whole),
        read_returns(TomlFile::Readable(rest), key, alone),
    ensures
        same_result(whole, alone),
{
    let bytes = key.spec_bytes();
    let ended = tail + seq![0x0au8];
    let line = lead + bytes.take(m) + ended;
    let stop = lead.len() + m;
    assert(line + rest@ =~= contents@);
    lemma_departs(lead, bytes, m, ended, line);
    assert forall|i: int| stop <= i < line.len() - 1 implies other_than(LINE_FEED)(
        #[trigger] line[i],
    ) by {
        assert(line[i] == tail[i - stop]);
    }
    lemma_next_line(line, bytes, 0, stop);
    lemma_rest_decides(line, rest@, bytes, N as nat);
    lemma_same_answer(contents, rest, key, whole, alone);
}

/// The line `lead + key + left + tail` is no entry of `key`, and shows this at `tail`.
proof fn lemma_lacks_equals(
    lead: Seq<u8>,
    key: Seq<u8>,
    left: Seq<u8>,
    tail: Seq<u8>,
    line: Seq<u8>,
)
    requires
        blank(lead),
        starts_text(key),
        spaces(left),
        tail.len() > 0,
        tail[0] != 0x20 && tail[0] != 0x09 && tail[0] != 0x3d,
        line == lead + key + left + tail,
    ensures
        passed_over(line, key, 0, (lead.len() + key.len() + left.len()) as int),
        resumes_at(line, key, 0),
{
    let text = lead.len() as int;
    let stop = (lead.len() + key.len() + left.len()) as int;
    assert forall|i: int| 0 <= i < text implies indent()(#[trigger] line[i]) by {
        assert(line[i] == lead[i]);
    }
    assert forall|i: int| 0 <= i < key.len() implies line[text + i] == key[i] by {}
    assert(line[text + 0] == key[0]);
    assert forall|i: int| text + key.len() <= i < stop implies gap()(#[trigger] line[i]) by {
        assert(line[i] == left[i - text - key.len()]);
    }
    assert(line[stop] == tail[0]);
    lemma_no_equals(line, key, 0, text, stop);
}

/// A line with the key but without `=` behind it is skipped, and so is one whose word only starts
/// with the key.
pub proof fn law_lines_without_equals_are_skipped<const N: usize>(
    lead: Seq<u8>,
    left: Seq<u8>,
    tail: Seq<u8>,
    rest: &[u8],
    contents: &[u8],
    key: &str,
    whole: Result<([u8; N], usize), ReadTomlFieldError>,
    alone: Result<([u8; N], usize), ReadTomlFieldError>,
)
    requires
        blank(lead),
        starts_text(key.spec_bytes()),
        spaces(left),
        lacks(tail, 0x0a),
        tail.len() > 0 ==> tail[0] != 0x20 && tail[0] != 0x09 && tail[0] != 0x3d,
        contents@ == lead + key.spec_bytes() + left + tail + seq![0x0au8] + rest@,
        contents@.len() <= 1_048_576,
        read_returns(TomlFile::Readable(contents), key, whole),
        read_returns(TomlFile::Readable(rest), key, alone),
    ensures
        same_result(whole, alone),
{
    let bytes = key.spec_bytes();
    let ended = tail + seq![0x0au8];
    let line = lead + bytes + left + ended;
    let stop = (lead.len() + bytes.len() + left.len()) as int;
    assert(line + rest@ =~= contents@);
    lemma_lacks_equals(lead, bytes, left, ended, line);
    assert forall|i: int| stop <= i < line.len() - 1 implies other_than(LINE_FEED)(
        #[trigger] line[i],
    ) by {
        assert(line[i] == tail[i - stop]);
    }
    lemma_next_line(line, bytes, 0, stop);
    lemma_rest_decides(line, rest@, bytes, N as nat);
    lemma_same_answer(contents, rest, key, whole, alone);
}

/// A file that ends in a blank line, or in a comment, has nothing more: the field is missing.
pub proof fn law_missing_in_last_blank_or_comment_line<const N: usize>(
    lead: Seq<u8>,
    tail: Seq<u8>,
    contents: &[u8],
    key: &str,
    result: Result<([u8; N], usize), ReadTomlFieldError>,
)
    requires
        N > 0,
        key.spec_bytes().len() > 0,
        blank(lead),
        tail.len() > 0 ==> tail[0] == 0x23,
        lacks(tail, 0x0a),
        contents@ == lead + tail,
        contents@.len() <= 1_048_576,
        read_returns(TomlFile::Readable(contents), key, result),
    ensures
        is_error(result, ReadTomlFieldError::RsLsfFieldNotFound),
{
    let line = contents@;
    let bytes = key.spec_bytes();
    let text = lead.len() as int;
    assert(resumes_at(line, bytes, 0));
    assert forall|i: int| 0 <= i < text implies indent()(#[trigger] line[i]) by {
        assert(line[i] == lead[i]);
    }
    if tail.len() > 0 {
        assert(line[text] == tail[0]);
        lemma_no_text(line, bytes, 0, text);
        assert forall|i: int| text <= i < line.len() implies other_than(LINE_FEED)(
            #[trigger] line[i],
        ) by {
            assert(line[i] == tail[i - text]);
        }
        lemma_unfound_past_stop(line, bytes, 0, text);
    } else {
        lemma_unfound_in_indent(line, bytes, 0);
    }
}

/// A file that ends in a line that departs from the key, or in a part of the key, lacks the field.
pub proof fn law_missing_in_last_other_line<const N: usize>(
    lead: Seq<u8>,
    m: int,
    tail: Seq<u8>,
    contents: &[u8],
    key: &str,
    result: Result<([u8; N], usize), ReadTomlFieldError>,
)
    requires
        N > 0,
        blank(lead),
        0 <= m < key.spec_bytes().len(),
        m > 0 ==> starts_text(key.spec_bytes()),
        lacks(tail, 0x0a),
        tail.len() > 0 ==> tail[0] != key.spec_bytes()[m],
        m == 0 && tail.len() > 0 ==> tail[0] != 0x20 && tail[0] != 0x09 && tail[0] != 0x0d,
        contents@ == lead + key.spec_bytes().take(m) + tail,
        contents@.len() <= 1_048_576,
        read_returns(TomlFile::Readable(contents), key, result),
    ensures
        is_error(result, ReadTomlFieldError::RsLsfFieldNotFound),
{
    let line = contents@;
    let bytes = key.spec_bytes();
    let text = lead.len() as int;
    let stop = text + m;
    assert(resumes_at(line, bytes, 0));
    assert forall|i: int| 0 <= i < text implies indent()(#[trigger] line[i]) by {
        assert(line[i] == lead[i]);
    }
    assert forall|i: int| 0 <= i < m implies line[text + i] == bytes[i] by {
        assert(line[text + i] == bytes.take(m)[i]);
    }
    if tail.len() > 0 {
        lemma_departs(lead, bytes, m, tail, line);
        assert forall|i: int| stop <= i < line.len() implies other_than(LINE_FEED)(
            #[trigger] line[i],
        ) by {
            assert(line[i] == tail[i - stop]);
        }
        lemma_unfound_past_stop(line, bytes, 0, stop);
    } else if m > 0 {
        assert(line[text + 0] == bytes[0]);
        lemma_unfound_in_key(line, bytes, 0, text, m);
    } else {
        lemma_unfound_in_indent(line, bytes, 0);
    }
}

/// A file that ends in a line with the key but without `=` lacks the field.
pub proof fn law_missing_in_last_line_without_equals<const N: usize>(
    lead: Seq<u8>,
    left: Seq<u8>,
    tail: Seq<u8>,
    contents: &[u8],
    key: &str,
    result: Result<([u8; N], usize), ReadTomlFieldError>,
)
    requires
        N > 0,
        blank(lead),
        starts_text(key.spec_bytes()),
        spaces(left),
        lacks(tail, 0x0a),
        tail.len() > 0 ==> tail[0] != 0x20 && tail[0] != 0x09 && tail[0] != 0x3d,
        contents@ == lead + key.spec_bytes() + left + tail,
        contents@.len() <= 1_048_576,
        read_returns(TomlFile::Readable(contents), key, result),
    ensures
        is_error(result, ReadTomlFieldError::RsLsfFieldNotFound),
{
    let line = contents@;
    let bytes = key.spec_bytes();
    let text = lead.len() as int;
    let stop = (lead.len() + bytes.len() + left.len()) as int;
    assert(resumes_at(line, bytes, 0));
    if tail.len() > 0 {
        lemma_lacks_equals(lead, bytes, left, tail, line);
        assert forall|i: int| stop <= i < line.len() implies other_than(LINE_FEED)(
            #[trigger] line[i],
        ) by {
            assert(line[i] == tail[i - stop]);
        }
        lemma_unfound_past_stop(line, bytes, 0, stop);
    } else {
        assert forall|i: int| 0 <= i < text implies indent()(#[trigger] line[i]) by {
            assert(line[i] == lead[i]);
        }
        assert forall|i: int| 0 <= i < bytes.len() implies line[text + i] == bytes[i] by {}
        assert(line[text + 0] == bytes[0]);
        assert forall|i: int| text + bytes.len() <= i < line.len() implies gap()(
            #[trigger] line[i],
        ) by {
            assert(line[i] == left[i - text - bytes.len()]);
        }
        assert(key_begun(line, bytes, 0, text, bytes.len() as int));
        lemma_unfound_after_key(line, bytes, 0, text);
    }
}

/// What was written in quotes is read back byte for byte, whatever follows the closing quote. It
/// is refused exactly if it is longer than the buffer.
pub proof fn law_quoted_value_is_returned<const N: usize>(
    lead: Seq<u8>,
    left: Seq<u8>,
    right: Seq<u8>,
    value: Seq<u8>,
    after: Seq<u8>,
    contents: &[u8],
    key: &str,
    result: Result<([u8; N], usize), ReadTomlFieldError>,
)
    requires
        N > 0,
        blank(lead),
        starts_text(key.spec_bytes()),
        spaces(left),
        spaces(right),
        lacks(value, 0x22),
        contents@ == head(lead, key.spec_bytes(), left, right) + seq![0x22u8] + value
            + seq![0x22u8] + after,
        contents@.len() - after.len() <= 1_048_576,
        read_returns(TomlFile::Readable(contents), key, result),
    ensures
        value.len() <= N ==> is_value(result, value),
        value.len() > N ==> is_error(result, ReadTomlFieldError::RsLsfValueExceedsOutputBuffer),
{
    let bytes = key.spec_bytes();
    let none = Seq::<u8>::empty();
    let line = entry_head(lead, bytes, left, right) + seq![0x22u8] + value + seq![0x22u8];
    assert(none + line + after =~= contents@);
    law_quoted_value_reads_back(
        none,
        lead,
        bytes,
        left,
        right,
        value,
        after,
        N as nat,
        end_of_file_error(contents@, bytes),
    );
    lemma_is_value(result, value);
}

/// A delivered value is in the buffer byte for byte.
proof fn lemma_is_value<const N: usize>(
    result: Result<([u8; N], usize), ReadTomlFieldError>,
    value: Seq<u8>,
)
    ensures
        delivers(result, Ok(value)) ==> is_value(result, value),
{
    if delivers(result, Ok(value)) {
        let (buffer, length) = result->Ok_0;
        assert forall|i: int| 0 <= i < value.len() implies #[trigger] buffer@[i] == value[i] by {
            assert(buffer@.take(length as int)[i] == buffer@[i]);
        }
    }
}

/// What was written without quotes is read back byte for byte: everything up to the line feed, or
/// up to the carriage return right before it. It is refused exactly if it is longer than the
/// buffer.
pub proof fn law_unquoted_value_is_returned<const N: usize>(
    lead: Seq<u8>,
    left: Seq<u8>,
    right: Seq<u8>,
    value: Seq<u8>,
    carriage_return: bool,
    after: Seq<u8>,
    contents: &[u8],
    key: &str,
    result: Result<([u8; N], usize), ReadTomlFieldError>,
)
    requires
        N > 0,
        blank(lead),
        starts_text(key.spec_bytes()),
        spaces(left),
        spaces(right),
        lacks(value, 0x0a),
        value.len() > 0 ==> value[0] != 0x20 && value[0] != 0x09 && value[0] != 0x22,
        value.len() > 0 && value.last() == 0x0d ==> carriage_return,
        contents@ == head(lead, key.spec_bytes(), left, right) + value + (if carriage_return {
            seq![0x0du8, 0x0au8]
        } else {
            seq![0x0au8]
        }) + after,
        contents@.len() - after.len() <= 1_048_576,
        read_returns(TomlFile::Readable(contents), key, result),
    ensures
        value.len() <= N ==> is_value(result, value),
        value.len() > N ==> is_error(result, ReadTomlFieldError::RsLsfValueExceedsOutputBuffer),
{
    let bytes = key.spec_bytes();
    let none = Seq::<u8>::empty();
    let line_end = if carriage_return {
        seq![0x0du8, 0x0au8]
    } else {
        seq![0x0au8]
    };
    let line = entry_head(lead, bytes, left, right) + value + line_end;
    assert(none + line + after =~= contents@);
    law_unquoted_value_reads_back(
        none,
        lead,
        bytes,
        left,
        right,
        value,
        carriage_return,
        after,
        N as nat,
        end_of_file_error(contents@, bytes),
    );
    lemma_is_value(result, value);
}

/// A file that ends inside quotes is an error: the value is too long, or it is unterminated.
pub proof fn law_unclosed_quotes_are_reported<const N: usize>(
    lead: Seq<u8>,
    left: Seq<u8>,
    right: Seq<u8>,
    value: Seq<u8>,
    contents: &[u8],
    key: &str,
    result: Result<([u8; N], usize), ReadTomlFieldError>,
)
    requires
        N > 0,
        blank(lead),
        starts_text(key.spec_bytes()),
        spaces(left),
        spaces(right),
        lacks(value, 0x22),
        contents@ == head(lead, key.spec_bytes(), left, right) + seq![0x22u8] + value,
        contents@.len() <= 1_048_576,
        read_returns(TomlFile::Readable(contents), key, result),
    ensures
        value.len() <= N ==> is_error(
            result,
            ReadTomlFieldError::RsLsfValueUnterminatedAtEndOfFile,
        ),
        value.len() > N ==> is_error(result, ReadTomlFieldError::RsLsfValueExceedsOutputBuffer),
{
    let bytes = key.spec_bytes();
    let none = Seq::<u8>::empty();
    law_unclosed_quote_is_unterminated(none, lead, bytes, left, right, value, N as nat);
    assert(none + (entry_head(lead, bytes, left, right) + seq![0x22u8] + value) =~= contents@);
}

/// A file that ends behind `=`, or inside an unquoted value, is an error: the value is too long,
/// or it is unterminated. A carriage return at the very end does not count, for a line feed could
/// have followed it.
pub proof fn law_unended_values_are_reported<const N: usize>(
    lead: Seq<u8>,
    left: Seq<u8>,
    right: Seq<u8>,
    value: Seq<u8>,
    contents: &[u8],
    key: &str,
    result: Result<([u8; N], usize), ReadTomlFieldError>,
)
    requires
        N > 0,
        blank(lead),
        starts_text(key.spec_bytes()),
        spaces(left),
        spaces(right),
        lacks(value, 0x0a),
        value.len() > 0 ==> value[0] != 0x20 && value[0] != 0x09 && value[0] != 0x22,
        contents@ == head(lead, key.spec_bytes(), left, right) + value,
        contents@.len() <= 1_048_576,
        read_returns(TomlFile::Readable(contents), key, result),
    ensures
        ({
            let counted = if value.len() > 0 && value.last() == 0x0d {
                value.len() - 1
            } else {
                value.len() as int
            };
            &&& counted <= N ==> is_error(
                result,
                ReadTomlFieldError::RsLsfValueUnterminatedAtEndOfFile,
            )
            &&& counted > N ==> is_error(result, ReadTomlFieldError::RsLsfValueExceedsOutputBuffer)
        }),
{
    let bytes = key.spec_bytes();
    let none = Seq::<u8>::empty();
    law_unended_line_is_unterminated(none, lead, bytes, left, right, value, N as nat);
    assert(none + (entry_head(lead, bytes, left, right) + value) =~= contents@);
}

/// A file beyond the budget is read as far as the budget goes: the answer found there stands, and
/// where there is none the budget is what ran out.
pub proof fn law_budget_cuts_the_file<const N: usize>(
    contents: &[u8],
    front: &[u8],
    key: &str,
    result: Result<([u8; N], usize), ReadTomlFieldError>,
    front_result: Result<([u8; N], usize), ReadTomlFieldError>,
)
    requires
        N > 0,
        key.spec_bytes().len() > 0,
        contents@.len() > 1_048_576,
        front@ == contents@.take(1_048_576),
        read_returns(TomlFile::Readable(contents), key, result),
        read_returns(TomlFile::Readable(front), key, front_result),
    ensures
        if is_error(front_result, ReadTomlFieldError::RsLsfFieldNotFound) || is_error(
            front_result,
            ReadTomlFieldError::RsLsfValueUnterminatedAtEndOfFile,
        ) {
            is_error(result, ReadTomlFieldError::RsLsfSafetyBudgetExhausted)
        } else {
            same_result(result, front_result)
        },
        !is_error(front_result, ReadTomlFieldError::RsLsfSafetyBudgetExhausted),
{
    lemma_same_buffers(result, front_result);
}

/// Buffers that hold the same value are the same.
pub(crate) proof fn lemma_same_buffers<const N: usize>(
    a: Result<([u8; N], usize), ReadTomlFieldError>,
    b: Result<([u8; N], usize), ReadTomlFieldError>,
)
    ensures
        forall|value: Seq<u8>| #[trigger]
            delivers(a, Ok(value)) && delivers(b, Ok(value)) ==> same_result(a, b),
{
    assert forall|value: Seq<u8>| #[trigger]
        delivers(a, Ok(value)) && delivers(b, Ok(value)) implies same_result(a, b) by {
        lemma_is_value(a, value);
        lemma_is_value(b, value);
        assert(a->Ok_0.0@ =~= b->Ok_0.0@);
    }
}

/// A file that fails while it is read gives the answer that the bytes before the failure hold, and
/// where they hold none, the failure.
pub proof fn law_failing_reads_are_reported<const N: usize>(
    contents: &[u8],
    key: &str,
    result: Result<([u8; N], usize), ReadTomlFieldError>,
    readable_result: Result<([u8; N], usize), ReadTomlFieldError>,
)
    requires
        read_returns(TomlFile::FailsAfter(contents), key, result),
        read_returns(TomlFile::Readable(contents), key, readable_result),
    ensures
        if is_error(readable_result, ReadTomlFieldError::RsLsfFieldNotFound) || is_error(
            readable_result,
            ReadTomlFieldError::RsLsfValueUnterminatedAtEndOfFile,
        ) {
            is_error(result, ReadTomlFieldError::RsLsfFileReadFailed)
        } else {
            same_result(result, readable_result)
        },
        !is_error(readable_result, ReadTomlFieldError::RsLsfFileReadFailed),
{
    lemma_same_buffers(result, readable_result);
}

/// The size of the buffer never changes a value: what one size returns every other size returns
/// too, or refuses as too long.
pub proof fn law_buffer_size_only_refuses<const N: usize, const M: usize>(
    file: TomlFile<'_>,
    key: &str,
    value: Seq<u8>,
    result: Result<([u8; N], usize), ReadTomlFieldError>,
    other: Result<([u8; M], usize), ReadTomlFieldError>,
)
    requires
        M > 0,
        is_value(result, value),
        read_returns(file, key, result),
        read_returns(file, key, other),
    ensures
        value.len() <= M ==> is_value(other, value),
        value.len() > M ==> is_error(other, ReadTomlFieldError::RsLsfValueExceedsOutputBuffer),
{
    let bytes = key.spec_bytes();
    let outcome = read_outcome(file, bytes, N as nat);
    assert(outcome->Ok_0 =~= value);
    law_values_are_never_truncated(file, bytes, N as nat, M as nat);
    lemma_is_value(other, value);
}

} // verus!
