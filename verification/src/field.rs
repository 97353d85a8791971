//! What a field of a TOML file is: where its value starts, what the value is, and what a scan for
//! it reports.
use vstd::prelude::*;

use crate::bytes::{
    find, gap, indent, lemma_run_end, other_than, run_end, CARRIAGE_RETURN, DOUBLE_QUOTE,
    EQUALS_SIGN, HASH, LINE_FEED,
};
use crate::error::ReadTomlFieldError;

verus! {

/// The most bytes that one scan takes from a file. A file that has not yielded its answer by then
/// is given up.
pub const RSLSF_MAX_BYTES_SCANNED: u64 = 1_048_576;

/// Where the text of the line that starts at `line` starts.
pub open spec fn text_start(s: Seq<u8>, line: int) -> int {
    run_end(s, line, indent())
}

/// The text at `text` is there, and neither is empty nor is a comment.
pub open spec fn has_text(s: Seq<u8>, text: int) -> bool {
    text < s.len() && s[text] != LINE_FEED && s[text] != HASH
}

/// How many bytes from `from` on agree with `key`, given that `m` bytes do.
pub open spec fn agreement(s: Seq<u8>, from: int, key: Seq<u8>, m: int) -> int
    decreases key.len() - m,
{
    if 0 <= m < key.len() && 0 <= from + m < s.len() && s[from + m] == key[m] {
        agreement(s, from, key, m + 1)
    } else {
        m
    }
}

/// Where the line that starts at `line` shows what it is: at its `=` if it is an entry of `key`,
/// else at the first byte that such an entry could not have there.
pub open spec fn line_stop(s: Seq<u8>, key: Seq<u8>, line: int) -> int {
    let text = text_start(s, line);
    let m = agreement(s, text, key, 0);
    if !has_text(s, text) {
        text
    } else if m < key.len() {
        text + m
    } else {
        run_end(s, text + m, gap())
    }
}

/// The line that starts at `line` is an entry of `key`: after its indent come the key, spaces and
/// tabs, and `=`.
pub open spec fn is_entry(s: Seq<u8>, key: Seq<u8>, line: int) -> bool {
    let text = text_start(s, line);
    let stop = line_stop(s, key, line);
    &&& has_text(s, text)
    &&& agreement(s, text, key, 0) == key.len()
    &&& stop < s.len()
    &&& s[stop] == EQUALS_SIGN
}

/// Where the value of the first entry of `key`, at or after the line that starts at `line`,
/// starts: right after its `=`.
pub open spec fn value_start(s: Seq<u8>, key: Seq<u8>, line: int) -> Option<int>
    decreases s.len() - line,
    when 0 <= line <= s.len()
{
    proof {
        lemma_line_stop_bounds(s, key, line);
        lemma_run_end(s, line_stop(s, key, line), other_than(LINE_FEED));
    }
    let stop = line_stop(s, key, line);
    let line_feed = find(s, stop, LINE_FEED);
    if is_entry(s, key, line) {
        Some(stop + 1)
    } else if line_feed < s.len() {
        value_start(s, key, line_feed + 1)
    } else {
        None
    }
}

/// The bytes of a value as far as they are there, and whether its terminator is there too.
pub struct FieldValue {
    pub bytes: Seq<u8>,
    pub terminated: bool,
}

/// `s` without the carriage return that it may end in.
pub open spec fn without_final_cr(s: Seq<u8>) -> Seq<u8> {
    if s.len() > 0 && s.last() == CARRIAGE_RETURN {
        s.drop_last()
    } else {
        s
    }
}

/// The value that starts, after spaces and tabs, at `from`. One that opens with `"` runs to the
/// next `"`; any other runs to the line feed, and a carriage return right before that is no part
/// of it.
pub open spec fn value_at(s: Seq<u8>, from: int) -> FieldValue {
    let first = run_end(s, from, gap());
    if first < s.len() && s[first] == DOUBLE_QUOTE {
        let close = find(s, first + 1, DOUBLE_QUOTE);
        FieldValue { bytes: s.subrange(first + 1, close), terminated: close < s.len() }
    } else {
        let line_feed = find(s, first, LINE_FEED);
        FieldValue {
            bytes: without_final_cr(s.subrange(first, line_feed)),
            terminated: line_feed < s.len(),
        }
    }
}

/// What the bytes `s` alone decide about the field `key`, read into `room` bytes. `None` while
/// what comes after `s` still matters.
pub open spec fn settled(s: Seq<u8>, key: Seq<u8>, room: nat) -> Option<
    Result<Seq<u8>, ReadTomlFieldError>,
> {
    match value_start(s, key, 0) {
        Some(start) => {
            let value = value_at(s, start);
            if value.bytes.len() > room {
                Some(Err(ReadTomlFieldError::RsLsfValueExceedsOutputBuffer))
            } else if value.terminated {
                Some(Ok(value.bytes))
            } else {
                None
            }
        },
        None => None,
    }
}

/// The error to report where the file ends after `s` and nothing is settled.
pub open spec fn end_of_file_error(s: Seq<u8>, key: Seq<u8>) -> ReadTomlFieldError {
    match value_start(s, key, 0) {
        Some(_) => ReadTomlFieldError::RsLsfValueUnterminatedAtEndOfFile,
        None => ReadTomlFieldError::RsLsfFieldNotFound,
    }
}

/// What a scan reports of a file that yields the bytes `s` and then, if it is still being read,
/// gives cause for `last_error`.
pub open spec fn scan_outcome(
    s: Seq<u8>,
    key: Seq<u8>,
    room: nat,
    last_error: ReadTomlFieldError,
) -> Result<Seq<u8>, ReadTomlFieldError> {
    let over_budget = s.len() > RSLSF_MAX_BYTES_SCANNED;
    let scanned = if over_budget {
        s.take(RSLSF_MAX_BYTES_SCANNED as int)
    } else {
        s
    };
    match settled(scanned, key, room) {
        Some(outcome) => outcome,
        None => if over_budget {
            Err(ReadTomlFieldError::RsLsfSafetyBudgetExhausted)
        } else {
            Err(last_error)
        },
    }
}

/// What a scan reports of a file with the contents `s`, all of which can be read.
pub open spec fn field_outcome(s: Seq<u8>, key: Seq<u8>, room: nat) -> Result<
    Seq<u8>,
    ReadTomlFieldError,
> {
    scan_outcome(s, key, room, end_of_file_error(s, key))
}

/// `result` carries `outcome`: the same error, or the value at the front of the buffer, its
/// length, and zeros behind it.
pub open spec fn delivers<const N: usize>(
    result: Result<([u8; N], usize), ReadTomlFieldError>,
    outcome: Result<Seq<u8>, ReadTomlFieldError>,
) -> bool {
    match (result, outcome) {
        (Ok((buffer, length)), Ok(value)) => {
            &&& length == value.len()
            &&& length <= N
            &&& buffer@.take(length as int) == value
            &&& forall|i: int| length <= i < N ==> buffer@[i] == 0
        },
        (Err(reported), Err(error)) => reported == error,
        _ => false,
    }
}

/// The agreement is a prefix of the key, lies within `s`, and is as long as can be.
pub proof fn lemma_agreement(s: Seq<u8>, from: int, key: Seq<u8>, m: int)
    requires
        0 <= from,
        0 <= m <= key.len(),
        from + m <= s.len(),
        forall|i: int| 0 <= i < m ==> s[from + i] == key[i],
    ensures
        m <= agreement(s, from, key, m) <= key.len(),
        from + agreement(s, from, key, m) <= s.len(),
        forall|i: int| 0 <= i < agreement(s, from, key, m) ==> s[from + i] == key[i],
        ({
            let n = agreement(s, from, key, m);
            n < key.len() && from + n < s.len() ==> s[from + n] != key[n]
        }),
    decreases key.len() - m,
{
    if m < key.len() && from + m < s.len() && s[from + m] == key[m] {
        lemma_agreement(s, from, key, m + 1);
    }
}

/// No other length is the agreement.
pub proof fn lemma_agreement_is(s: Seq<u8>, from: int, key: Seq<u8>, m: int, n: int)
    requires
        0 <= from,
        0 <= m <= n <= key.len(),
        from + n <= s.len(),
        forall|i: int| m <= i < n ==> s[from + i] == key[i],
        n < key.len() && from + n < s.len() ==> s[from + n] != key[n],
    ensures
        agreement(s, from, key, m) == n,
    decreases n - m,
{
    if m < n {
        lemma_agreement_is(s, from, key, m + 1, n);
    }
}

/// A line shows what it is at or behind its text.
pub proof fn lemma_line_stop_bounds(s: Seq<u8>, key: Seq<u8>, line: int)
    requires
        0 <= line <= s.len(),
    ensures
        line <= text_start(s, line) <= line_stop(s, key, line) <= s.len(),
{
    lemma_run_end(s, line, indent());
    let text = text_start(s, line);
    lemma_agreement(s, text, key, 0);
    let m = agreement(s, text, key, 0);
    if m == key.len() {
        lemma_run_end(s, text + m, gap());
    }
}

} // verus!
