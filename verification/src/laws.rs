//! What holds of every file, key and buffer size.
use vstd::prelude::*;
use vstd::utf8::valid_utf8;

use crate::bytes::{
    all_in, extends, find, gap, indent, lemma_run_end, lemma_run_end_is, other_than, run_end,
    CARRIAGE_RETURN, DOUBLE_QUOTE, EQUALS_SIGN, HASH, LINE_FEED,
};
use crate::error::{error_code, ReadTomlFieldError};
use crate::field::{
    agreement, end_of_file_error, field_outcome, is_entry, lemma_agreement, lemma_agreement_is,
    lemma_line_stop_bounds, line_stop, scan_outcome, settled, text_start, value_at, value_start,
    without_final_cr, RSLSF_MAX_BYTES_SCANNED,
};
use crate::reader::{read_outcome, TomlFile};
use crate::report::{exit_code_after, report_line};
use crate::scanner::{event_outcome, FileEvent};
use crate::stability::{
    lemma_line_decided, lemma_run_end_in_longer, lemma_value_grows, lemma_value_start_stays,
};
use crate::tracking::{
    key_begun, lemma_equals, lemma_no_equals, lemma_value_quoted, lemma_value_unbegun,
    lemma_value_unquoted, resumes_at,
};

verus! {

/// An answer that is settled stays the answer, whatever the file holds behind it.
pub proof fn law_settled_answer_stays(s: Seq<u8>, longer: Seq<u8>, key: Seq<u8>, room: nat)
    requires
        extends(longer, s),
        settled(s, key, room) is Some,
    ensures
        settled(longer, key, room) == settled(s, key, room),
{
    lemma_value_start_stays(s, longer, key, 0);
    lemma_value_grows(s, longer, value_start(s, key, 0)->0);
}

/// `key` stands in one line.
pub open spec fn is_single_line(key: Seq<u8>) -> bool {
    all_in(key, 0, key.len() as int, other_than(LINE_FEED))
}

/// A line of `s` starts at `line`.
pub open spec fn is_line_start(s: Seq<u8>, line: int) -> bool {
    line == 0 || 0 < line <= s.len() && s[line - 1] == LINE_FEED
}

/// A line shows what it is before it ends.
proof fn lemma_stop_within_line(s: Seq<u8>, key: Seq<u8>, line: int)
    requires
        is_single_line(key),
        0 <= line <= s.len(),
    ensures
        line <= line_stop(s, key, line) <= s.len(),
        all_in(s, line, line_stop(s, key, line), other_than(LINE_FEED)),
{
    let text = text_start(s, line);
    let m = agreement(s, text, key, 0);
    let stop = line_stop(s, key, line);
    lemma_line_stop_bounds(s, key, line);
    lemma_run_end(s, line, indent());
    lemma_agreement(s, text, key, 0);
    if m == key.len() {
        lemma_run_end(s, text + m, gap());
    }
    assert forall|i: int| line <= i < stop implies other_than(LINE_FEED)(#[trigger] s[i]) by {
        if i < text {
            assert(indent()(s[i]));
        } else if i < text + m {
            assert(s[text + (i - text)] == key[i - text]);
            assert(other_than(LINE_FEED)(key[i - text]));
        } else {
            assert(gap()(s[i]));
        }
    }
}

/// The lines from `line` on are gone through in order, and none is left out.
proof fn lemma_first_entry_from(s: Seq<u8>, key: Seq<u8>, line: int)
    requires
        is_single_line(key),
        0 <= line <= s.len(),
        is_line_start(s, line),
    ensures
        match value_start(s, key, line) {
            Some(start) => exists|entry: int| #[trigger]
                is_entry(s, key, entry) && line <= entry <= s.len() && is_line_start(s, entry)
                    && start == line_stop(s, key, entry) + 1 && forall|earlier: int|
                    line <= earlier < entry && #[trigger] is_line_start(s, earlier) ==> !is_entry(
                        s,
                        key,
                        earlier,
                    ),
            None => forall|other: int|
                line <= other <= s.len() && #[trigger] is_line_start(s, other) ==> !is_entry(
                    s,
                    key,
                    other,
                ),
        },
    decreases s.len() - line,
{
    let stop = line_stop(s, key, line);
    let line_feed = find(s, stop, LINE_FEED);
    lemma_stop_within_line(s, key, line);
    lemma_run_end(s, stop, other_than(LINE_FEED));
    if !is_entry(s, key, line) {
        assert forall|other: int|
            line < other <= s.len() && #[trigger] is_line_start(s, other) implies line_feed
            < other by {
            if other - 1 < stop {
                assert(other_than(LINE_FEED)(s[other - 1]));
            } else if other - 1 < line_feed {
                assert(other_than(LINE_FEED)(s[other - 1]));
            }
        }
        if line_feed < s.len() {
            lemma_first_entry_from(s, key, line_feed + 1);
        }
    }
}

/// The first entry wins: a value is found exactly if some line is an entry of the key, and it is
/// the value of the first such line.
pub proof fn law_first_entry_wins(s: Seq<u8>, key: Seq<u8>)
    requires
        is_single_line(key),
    ensures
        match value_start(s, key, 0) {
            Some(start) => exists|entry: int| #[trigger]
                is_entry(s, key, entry) && 0 <= entry <= s.len() && is_line_start(s, entry)
                    && start == line_stop(s, key, entry) + 1 && forall|earlier: int|
                    0 <= earlier < entry && #[trigger] is_line_start(s, earlier) ==> !is_entry(
                        s,
                        key,
                        earlier,
                    ),
            None => forall|line: int|
                0 <= line <= s.len() && #[trigger] is_line_start(s, line) ==> !is_entry(
                    s,
                    key,
                    line,
                ),
        },
{
    lemma_first_entry_from(s, key, 0);
}

/// A field is reported missing exactly if the whole file was read and no line of it is an entry
/// of the key.
pub proof fn law_missing_means_no_entry(s: Seq<u8>, key: Seq<u8>, room: nat)
    requires
        is_single_line(key),
    ensures
        field_outcome(s, key, room) == Err::<Seq<u8>, ReadTomlFieldError>(
            ReadTomlFieldError::RsLsfFieldNotFound,
        ) <==> {
            &&& s.len() <= RSLSF_MAX_BYTES_SCANNED
            &&& forall|line: int|
                0 <= line <= s.len() && #[trigger] is_line_start(s, line) ==> !is_entry(
                    s,
                    key,
                    line,
                )
        },
{
    law_first_entry_wins(s, key);
}

/// A line whose first byte behind the indent is `#`, and a line with nothing behind the indent,
/// is no entry of any key.
pub proof fn law_comments_and_blank_lines_hold_no_entry(
    s: Seq<u8>,
    key: Seq<u8>,
    line: int,
    text: int,
)
    requires
        0 <= line <= text <= s.len(),
        all_in(s, line, text, indent()),
        text < s.len() ==> s[text] == HASH || s[text] == LINE_FEED,
    ensures
        !is_entry(s, key, line),
{
    lemma_run_end_is(s, line, text, indent());
}

/// A run is the same behind other text.
proof fn lemma_run_end_behind(
    before: Seq<u8>,
    s: Seq<u8>,
    from: int,
    class: spec_fn(u8) -> bool,
)
    requires
        0 <= from <= s.len(),
    ensures
        run_end(before + s, before.len() + from, class) == before.len() + run_end(s, from, class),
{
    let end = run_end(s, from, class);
    lemma_run_end(s, from, class);
    assert forall|i: int| before.len() + from <= i < before.len() + end implies class(
        #[trigger] (before + s)[i],
    ) by {
        assert((before + s)[i] == s[i - before.len()]);
    }
    lemma_run_end_is(before + s, before.len() + from, before.len() + end, class);
}

/// A line is the same behind other text.
proof fn lemma_line_behind(before: Seq<u8>, s: Seq<u8>, key: Seq<u8>, line: int)
    requires
        0 <= line <= s.len(),
    ensures
        line_stop(before + s, key, before.len() + line) == before.len() + line_stop(s, key, line),
        is_entry(before + s, key, before.len() + line) == is_entry(s, key, line),
{
    let text = text_start(s, line);
    let m = agreement(s, text, key, 0);
    lemma_line_stop_bounds(s, key, line);
    lemma_run_end_behind(before, s, line, indent());
    lemma_agreement(s, text, key, 0);
    assert forall|i: int| 0 <= i < m implies (before + s)[before.len() + text + i] == key[i] by {
        assert((before + s)[before.len() + text + i] == s[text + i]);
    }
    if text + m < s.len() {
        assert((before + s)[before.len() + text + m] == s[text + m]);
    }
    lemma_agreement_is(before + s, before.len() + text, key, 0, m);
    if m == key.len() {
        lemma_run_end_behind(before, s, text + m, gap());
    }
}

/// The first entry is the same behind other text.
pub(crate) proof fn lemma_value_start_behind(before: Seq<u8>, s: Seq<u8>, key: Seq<u8>, line: int)
    requires
        0 <= line <= s.len(),
    ensures
        match value_start(s, key, line) {
            Some(start) => {
                &&& 0 <= start <= s.len()
                &&& value_start(before + s, key, before.len() + line) == Some(
                    before.len() + start,
                )
            },
            None => value_start(before + s, key, before.len() + line) is None,
        },
    decreases s.len() - line,
{
    let stop = line_stop(s, key, line);
    lemma_line_stop_bounds(s, key, line);
    lemma_line_behind(before, s, key, line);
    lemma_run_end(s, stop, other_than(LINE_FEED));
    lemma_run_end_behind(before, s, stop, other_than(LINE_FEED));
    if !is_entry(s, key, line) && find(s, stop, LINE_FEED) < s.len() {
        lemma_value_start_behind(before, s, key, find(s, stop, LINE_FEED) + 1);
    }
}

/// A value is the same behind other text.
pub(crate) proof fn lemma_value_behind(before: Seq<u8>, s: Seq<u8>, from: int)
    requires
        0 <= from <= s.len(),
    ensures
        value_at(before + s, before.len() + from) == value_at(s, from),
{
    let n = before.len() as int;
    let first = run_end(s, from, gap());
    lemma_run_end(s, from, gap());
    lemma_run_end_behind(before, s, from, gap());
    if first < s.len() && s[first] == DOUBLE_QUOTE {
        let close = find(s, first + 1, DOUBLE_QUOTE);
        lemma_run_end(s, first + 1, other_than(DOUBLE_QUOTE));
        lemma_run_end_behind(before, s, first + 1, other_than(DOUBLE_QUOTE));
        assert((before + s).subrange(n + first + 1, n + close) =~= s.subrange(first + 1, close));
    } else {
        let line_feed = find(s, first, LINE_FEED);
        lemma_run_end(s, first, other_than(LINE_FEED));
        lemma_run_end_behind(before, s, first, other_than(LINE_FEED));
        assert((before + s).subrange(n + first, n + line_feed) =~= s.subrange(first, line_feed));
    }
}

/// Whole lines without an entry are passed over.
proof fn lemma_lines_passed_over(before: Seq<u8>, s: Seq<u8>, key: Seq<u8>, line: int)
    requires
        is_single_line(key),
        0 <= line <= before.len(),
        line < before.len() ==> before.last() == LINE_FEED,
        value_start(before, key, line) is None,
    ensures
        value_start(before + s, key, line) == value_start(before + s, key, before.len() as int),
    decreases before.len() - line,
{
    if line < before.len() {
        let stop = line_stop(before, key, line);
        let line_feed = find(before, stop, LINE_FEED);
        lemma_stop_within_line(before, key, line);
        lemma_run_end(before, stop, other_than(LINE_FEED));
        if stop == before.len() {
            assert(other_than(LINE_FEED)(before[before.len() - 1]));
        }
        if line_feed == before.len() {
            assert(other_than(LINE_FEED)(before[before.len() - 1]));
        }
        assert(extends(before + s, before));
        lemma_line_decided(before, before + s, key, line);
        lemma_run_end_in_longer(before, before + s, stop, other_than(LINE_FEED));
        lemma_lines_passed_over(before, s, key, line_feed + 1);
    }
}

/// `before` is made of whole lines, none of which is an entry of `key`.
pub open spec fn holds_no_entry(before: Seq<u8>, key: Seq<u8>) -> bool {
    before.len() > 0 ==> {
        &&& is_single_line(key)
        &&& before.last() == LINE_FEED
        &&& value_start(before, key, 0) is None
    }
}

/// Lines that are no entry of the key do not matter, however many there are and however long they
/// are: what stands behind them is read as if it stood alone.
pub proof fn law_lines_without_entry_are_skipped(
    before: Seq<u8>,
    s: Seq<u8>,
    key: Seq<u8>,
    room: nat,
)
    requires
        holds_no_entry(before, key),
    ensures
        settled(before + s, key, room) == settled(s, key, room),
        end_of_file_error(before + s, key) == end_of_file_error(s, key),
        before.len() + s.len() <= RSLSF_MAX_BYTES_SCANNED ==> field_outcome(before + s, key, room)
            == field_outcome(s, key, room),
        before.len() + s.len() <= RSLSF_MAX_BYTES_SCANNED ==> forall|last_error| #[trigger]
            scan_outcome(before + s, key, room, last_error) == scan_outcome(
                s,
                key,
                room,
                last_error,
            ),
{
    if before.len() > 0 {
        lemma_lines_passed_over(before, s, key, 0);
    }
    lemma_value_start_behind(before, s, key, 0);
    if let Some(start) = value_start(s, key, 0) {
        lemma_value_behind(before, s, start);
    }
}

/// A line up to its value: an indent, the key, a gap, `=` and another gap.
pub open spec fn entry_head(
    lead: Seq<u8>,
    key: Seq<u8>,
    left: Seq<u8>,
    right: Seq<u8>,
) -> Seq<u8> {
    lead + key + left + seq![EQUALS_SIGN] + right
}

/// The parts of a line are what they should be. A key that starts like an indent, like a comment
/// or like the end of a line cannot be told from these.
pub open spec fn is_entry_head(
    lead: Seq<u8>,
    key: Seq<u8>,
    left: Seq<u8>,
    right: Seq<u8>,
) -> bool {
    &&& key.len() > 0
    &&& !indent()(key[0])
    &&& key[0] != HASH
    &&& key[0] != LINE_FEED
    &&& all_in(lead, 0, lead.len() as int, indent())
    &&& all_in(left, 0, left.len() as int, gap())
    &&& all_in(right, 0, right.len() as int, gap())
}

/// The value starts behind the head of its line.
proof fn lemma_entry_found(
    lead: Seq<u8>,
    key: Seq<u8>,
    left: Seq<u8>,
    right: Seq<u8>,
    rest: Seq<u8>,
)
    requires
        is_entry_head(lead, key, left, right),
    ensures
        ({
            let s = entry_head(lead, key, left, right) + rest;
            let start = (lead.len() + key.len() + left.len() + 1) as int;
            &&& value_start(s, key, 0) == Some(start)
            &&& all_in(s, start, start + right.len(), gap())
        }),
{
    let s = entry_head(lead, key, left, right) + rest;
    let text = lead.len() as int;
    let stop = (lead.len() + key.len() + left.len()) as int;
    assert forall|i: int| 0 <= i < text implies indent()(#[trigger] s[i]) by {
        assert(s[i] == lead[i]);
    }
    assert forall|i: int| 0 <= i < key.len() implies s[text + i] == key[i] by {}
    assert(s[text] == key[0]) by {
        assert(s[text + 0] == key[0]);
    }
    assert forall|i: int| text + key.len() <= i < stop implies gap()(#[trigger] s[i]) by {
        assert(s[i] == left[i - text - key.len()]);
    }
    assert(s[stop] == EQUALS_SIGN);
    assert forall|i: int| stop + 1 <= i < stop + 1 + right.len() implies gap()(#[trigger] s[i]) by {
        assert(s[i] == right[i - stop - 1]);
    }
    assert(resumes_at(s, key, 0));
    assert(key_begun(s, key, 0, text, key.len() as int));
    lemma_equals(s, key, 0, text, stop);
    assert(extends(s, s));
}

/// A line whose text only starts with the key, and goes on with something else than a gap or `=`,
/// is no entry, wherever in the file it stands.
pub proof fn law_longer_word_is_no_entry(lead: Seq<u8>, key: Seq<u8>, next: u8, rest: Seq<u8>)
    requires
        key.len() > 0,
        all_in(lead, 0, lead.len() as int, indent()),
        !gap()(next),
        next != EQUALS_SIGN,
    ensures
        !is_entry(lead + key + seq![next] + rest, key, 0),
        forall|before: Seq<u8>|
            !#[trigger] is_entry(
                before + (lead + key + seq![next] + rest),
                key,
                before.len() as int,
            ),
{
    let s = lead + key + seq![next] + rest;
    let text = lead.len() as int;
    let stop = (lead.len() + key.len()) as int;
    if indent()(key[0]) || key[0] == HASH || key[0] == LINE_FEED {
        lemma_run_end(s, 0, indent());
        lemma_agreement(s, text_start(s, 0), key, 0);
        assert(is_entry(s, key, 0) ==> s[text_start(s, 0) + 0] == key[0]);
    } else {
        assert forall|i: int| 0 <= i < text implies indent()(#[trigger] s[i]) by {
            assert(s[i] == lead[i]);
        }
        assert forall|i: int| 0 <= i < key.len() implies s[text + i] == key[i] by {}
        assert(s[text] == key[0]) by {
            assert(s[text + 0] == key[0]);
        }
        assert(s[stop] == next);
        assert(key_begun(s, key, 0, text, key.len() as int));
        lemma_no_equals(s, key, 0, text, stop);
        assert(extends(s, s));
    }
    assert forall|before: Seq<u8>| !#[trigger] is_entry(before + s, key, before.len() as int) by {
        lemma_line_behind(before, s, key, 0);
    }
}

/// An answer that is settled within the budget is the answer for every longer file, and for one
/// that fails later.
proof fn lemma_settled_is_outcome(
    s: Seq<u8>,
    after: Seq<u8>,
    key: Seq<u8>,
    room: nat,
    last_error: ReadTomlFieldError,
)
    requires
        settled(s, key, room) is Some,
        s.len() <= RSLSF_MAX_BYTES_SCANNED,
    ensures
        scan_outcome(s + after, key, room, last_error) == settled(s, key, room)->0,
{
    let all = s + after;
    let scanned = if all.len() > RSLSF_MAX_BYTES_SCANNED {
        all.take(RSLSF_MAX_BYTES_SCANNED as int)
    } else {
        all
    };
    assert(extends(scanned, s));
    law_settled_answer_stays(s, scanned, key, room);
}

/// What was written in quotes is read back: the bytes between the quotes, whatever stands before
/// the line and behind the closing quote, or an error where they do not fit in the buffer.
pub proof fn law_quoted_value_reads_back(
    before: Seq<u8>,
    lead: Seq<u8>,
    key: Seq<u8>,
    left: Seq<u8>,
    right: Seq<u8>,
    value: Seq<u8>,
    after: Seq<u8>,
    room: nat,
    last_error: ReadTomlFieldError,
)
    requires
        holds_no_entry(before, key),
        is_entry_head(lead, key, left, right),
        all_in(value, 0, value.len() as int, other_than(DOUBLE_QUOTE)),
        before.len() + entry_head(lead, key, left, right).len() + value.len() + 2
            <= RSLSF_MAX_BYTES_SCANNED,
    ensures
        ({
            let line = entry_head(lead, key, left, right) + seq![DOUBLE_QUOTE] + value
                + seq![DOUBLE_QUOTE];
            scan_outcome(before + line + after, key, room, last_error) == if value.len() <= room {
                Ok::<Seq<u8>, ReadTomlFieldError>(value)
            } else {
                Err(ReadTomlFieldError::RsLsfValueExceedsOutputBuffer)
            }
        }),
{
    let head = entry_head(lead, key, left, right);
    let rest = seq![DOUBLE_QUOTE] + value + seq![DOUBLE_QUOTE];
    let line = head + seq![DOUBLE_QUOTE] + value + seq![DOUBLE_QUOTE];
    assert(line =~= head + rest);
    lemma_entry_found(lead, key, left, right, rest);
    let start = (lead.len() + key.len() + left.len() + 1) as int;
    let first = head.len() as int;
    let close = first + 1 + value.len();
    assert forall|i: int| first + 1 <= i < close implies other_than(DOUBLE_QUOTE)(
        #[trigger] line[i],
    ) by {
        assert(line[i] == value[i - first - 1]);
    }
    lemma_value_quoted(line, start, first, close);
    assert(line.subrange(first + 1, close) =~= value);
    law_lines_without_entry_are_skipped(before, line, key, room);
    lemma_settled_is_outcome(before + line, after, key, room, last_error);
}

/// What was written without quotes is read back: the bytes up to the line feed, or up to the
/// carriage return and line feed, with trailing spaces and whatever else stands there, or an
/// error where they do not fit in the buffer.
pub proof fn law_unquoted_value_reads_back(
    before: Seq<u8>,
    lead: Seq<u8>,
    key: Seq<u8>,
    left: Seq<u8>,
    right: Seq<u8>,
    value: Seq<u8>,
    carriage_return: bool,
    after: Seq<u8>,
    room: nat,
    last_error: ReadTomlFieldError,
)
    requires
        holds_no_entry(before, key),
        is_entry_head(lead, key, left, right),
        all_in(value, 0, value.len() as int, other_than(LINE_FEED)),
        value.len() > 0 ==> !gap()(value[0]) && value[0] != DOUBLE_QUOTE,
        value.len() > 0 && value.last() == CARRIAGE_RETURN ==> carriage_return,
        before.len() + entry_head(lead, key, left, right).len() + value.len() + (if carriage_return {
            2int
        } else {
            1int
        }) <= RSLSF_MAX_BYTES_SCANNED,
    ensures
        ({
            let line_end = if carriage_return {
                seq![CARRIAGE_RETURN, LINE_FEED]
            } else {
                seq![LINE_FEED]
            };
            let line = entry_head(lead, key, left, right) + value + line_end;
            scan_outcome(before + line + after, key, room, last_error) == if value.len() <= room {
                Ok::<Seq<u8>, ReadTomlFieldError>(value)
            } else {
                Err(ReadTomlFieldError::RsLsfValueExceedsOutputBuffer)
            }
        }),
{
    let line_end = if carriage_return {
        seq![CARRIAGE_RETURN, LINE_FEED]
    } else {
        seq![LINE_FEED]
    };
    let head = entry_head(lead, key, left, right);
    let rest = value + line_end;
    let line = head + value + line_end;
    assert(line =~= head + rest);
    lemma_entry_found(lead, key, left, right, rest);
    let start = (lead.len() + key.len() + left.len() + 1) as int;
    let first = head.len() as int;
    let end = line.len() - 1;
    assert forall|i: int| first <= i < end implies other_than(LINE_FEED)(#[trigger] line[i]) by {
        if i < first + value.len() {
            assert(line[i] == value[i - first]);
        }
    }
    if value.len() > 0 {
        assert(line[first] == value[0]);
    }
    lemma_value_unquoted(line, start, first, end);
    let raw = line.subrange(first, end);
    if carriage_return {
        assert(raw =~= value.push(CARRIAGE_RETURN));
        assert(raw.drop_last() =~= value);
    } else {
        assert(raw =~= value);
    }
    law_lines_without_entry_are_skipped(before, line, key, room);
    lemma_settled_is_outcome(before + line, after, key, room, last_error);
}

/// A quoted value that the file ends in, without the closing quote, is an error.
pub proof fn law_unclosed_quote_is_unterminated(
    before: Seq<u8>,
    lead: Seq<u8>,
    key: Seq<u8>,
    left: Seq<u8>,
    right: Seq<u8>,
    value: Seq<u8>,
    room: nat,
)
    requires
        holds_no_entry(before, key),
        is_entry_head(lead, key, left, right),
        all_in(value, 0, value.len() as int, other_than(DOUBLE_QUOTE)),
        before.len() + entry_head(lead, key, left, right).len() + value.len() + 1
            <= RSLSF_MAX_BYTES_SCANNED,
    ensures
        ({
            let line = entry_head(lead, key, left, right) + seq![DOUBLE_QUOTE] + value;
            field_outcome(before + line, key, room) == Err::<Seq<u8>, ReadTomlFieldError>(
                if value.len() <= room {
                    ReadTomlFieldError::RsLsfValueUnterminatedAtEndOfFile
                } else {
                    ReadTomlFieldError::RsLsfValueExceedsOutputBuffer
                },
            )
        }),
{
    let head = entry_head(lead, key, left, right);
    let rest = seq![DOUBLE_QUOTE] + value;
    let line = head + seq![DOUBLE_QUOTE] + value;
    assert(line =~= head + rest);
    lemma_entry_found(lead, key, left, right, rest);
    let start = (lead.len() + key.len() + left.len() + 1) as int;
    let first = head.len() as int;
    let end = line.len() as int;
    assert forall|i: int| first + 1 <= i < end implies other_than(DOUBLE_QUOTE)(
        #[trigger] line[i],
    ) by {
        assert(line[i] == value[i - first - 1]);
    }
    lemma_value_quoted(line, start, first, end);
    assert(line.subrange(first + 1, end) =~= value);
    law_lines_without_entry_are_skipped(before, line, key, room);
}

/// An unquoted value that the file ends in, without a line feed, is an error, and so is a missing
/// value.
pub proof fn law_unended_line_is_unterminated(
    before: Seq<u8>,
    lead: Seq<u8>,
    key: Seq<u8>,
    left: Seq<u8>,
    right: Seq<u8>,
    value: Seq<u8>,
    room: nat,
)
    requires
        holds_no_entry(before, key),
        is_entry_head(lead, key, left, right),
        all_in(value, 0, value.len() as int, other_than(LINE_FEED)),
        value.len() > 0 ==> !gap()(value[0]) && value[0] != DOUBLE_QUOTE,
        before.len() + entry_head(lead, key, left, right).len() + value.len()
            <= RSLSF_MAX_BYTES_SCANNED,
    ensures
        ({
            let line = entry_head(lead, key, left, right) + value;
            field_outcome(before + line, key, room) == Err::<Seq<u8>, ReadTomlFieldError>(
                if without_final_cr(value).len() <= room {
                    ReadTomlFieldError::RsLsfValueUnterminatedAtEndOfFile
                } else {
                    ReadTomlFieldError::RsLsfValueExceedsOutputBuffer
                },
            )
        }),
{
    let head = entry_head(lead, key, left, right);
    let line = head + value;
    lemma_entry_found(lead, key, left, right, value);
    let start = (lead.len() + key.len() + left.len() + 1) as int;
    let first = head.len() as int;
    let end = line.len() as int;
    if value.len() > 0 {
        assert forall|i: int| first <= i < end implies other_than(LINE_FEED)(
            #[trigger] line[i],
        ) by {
            assert(line[i] == value[i - first]);
        }
        assert(line[first] == value[0]);
        lemma_value_unquoted(line, start, first, end);
        assert(line.subrange(first, end) =~= value);
    } else {
        lemma_value_unbegun(line, start);
    }
    law_lines_without_entry_are_skipped(before, line, key, room);
}

/// The size of the buffer decides whether a value is returned, never which: a value is returned
/// whole or not at all.
pub proof fn law_values_are_never_truncated(
    file: TomlFile<'_>,
    key: Seq<u8>,
    room: nat,
    other_room: nat,
)
    requires
        read_outcome(file, key, room) is Ok,
        other_room > 0,
    ensures
        ({
            let value = read_outcome(file, key, room)->Ok_0;
            &&& value.len() <= room
            &&& read_outcome(file, key, other_room) == if value.len() <= other_room {
                Ok::<Seq<u8>, ReadTomlFieldError>(value)
            } else {
                Err(ReadTomlFieldError::RsLsfValueExceedsOutputBuffer)
            }
        }),
{
}

/// Bytes beyond the budget are never looked at, nor is how the file ends behind them.
pub proof fn law_bytes_beyond_the_budget_do_not_matter(
    s: Seq<u8>,
    t: Seq<u8>,
    key: Seq<u8>,
    room: nat,
    last_error: ReadTomlFieldError,
    other_last_error: ReadTomlFieldError,
)
    requires
        s.len() > RSLSF_MAX_BYTES_SCANNED,
        t.len() > RSLSF_MAX_BYTES_SCANNED,
        s.take(RSLSF_MAX_BYTES_SCANNED as int) == t.take(RSLSF_MAX_BYTES_SCANNED as int),
    ensures
        scan_outcome(s, key, room, last_error) == scan_outcome(t, key, room, other_last_error),
{
}

/// A scan gives up exactly on the files that exceed the budget without an answer within it.
pub proof fn law_budget_runs_out_only_beyond_it(
    s: Seq<u8>,
    key: Seq<u8>,
    room: nat,
    last_error: ReadTomlFieldError,
)
    requires
        last_error != ReadTomlFieldError::RsLsfSafetyBudgetExhausted,
    ensures
        scan_outcome(s, key, room, last_error) == Err::<Seq<u8>, ReadTomlFieldError>(
            ReadTomlFieldError::RsLsfSafetyBudgetExhausted,
        ) <==> s.len() > RSLSF_MAX_BYTES_SCANNED && settled(
            s.take(RSLSF_MAX_BYTES_SCANNED as int),
            key,
            room,
        ) is None,
{
}

/// Every scan ends: once the budget is used up no event asks for another byte.
pub proof fn law_every_scan_ends(s: Seq<u8>, key: Seq<u8>, room: nat, event: FileEvent)
    requires
        s.len() >= RSLSF_MAX_BYTES_SCANNED,
    ensures
        event_outcome(s, key, room, event) is Some,
{
}

/// Neither the length of the key nor that of a line is ever a reason to fail.
pub proof fn law_lengths_of_key_and_line_do_not_matter(file: TomlFile<'_>, key: Seq<u8>, room: nat)
    ensures
        read_outcome(file, key, room) != Err::<Seq<u8>, ReadTomlFieldError>(
            ReadTomlFieldError::RsLsfKeyTooLong,
        ),
        read_outcome(file, key, room) != Err::<Seq<u8>, ReadTomlFieldError>(
            ReadTomlFieldError::RsLsfMatchingLineExceedsScanBuffer,
        ),
{
}

/// Different errors have different codes.
pub proof fn law_error_codes_differ(a: ReadTomlFieldError, b: ReadTomlFieldError)
    requires
        a != b,
    ensures
        error_code(a) != error_code(b),
{
    reveal_strlit("E_EMPTY_KEY");
    reveal_strlit("E_KEY_TOO_LONG");
    reveal_strlit("E_OUTBUF_ZERO");
    reveal_strlit("E_OPEN");
    reveal_strlit("E_READ");
    reveal_strlit("E_NOT_FOUND");
    reveal_strlit("E_VALUE_TOO_BIG");
    reveal_strlit("E_LINE_TOO_BIG");
    reveal_strlit("E_UNTERMINATED");
    reveal_strlit("E_SAFETY_BUDGET");
    assert(error_code(a).len() != error_code(b).len() || error_code(a)[2] != error_code(b)[2]
        || error_code(a)[4] != error_code(b)[4]);
}

/// Both outcomes are failures of one kind: the same error, or values that are not text.
pub open spec fn fail_alike(
    a: Result<Seq<u8>, ReadTomlFieldError>,
    b: Result<Seq<u8>, ReadTomlFieldError>,
) -> bool {
    match (a, b) {
        (Ok(value), Ok(other_value)) => !valid_utf8(value) && !valid_utf8(other_value),
        (Err(error), Err(other_error)) => error == other_error,
        _ => false,
    }
}

/// A failure tells nothing of the file: failures of one kind have the same line and the same exit
/// code, whatever the files hold.
pub proof fn law_failures_tell_nothing_of_the_file(
    key: Seq<char>,
    a: Result<Seq<u8>, ReadTomlFieldError>,
    b: Result<Seq<u8>, ReadTomlFieldError>,
)
    requires
        fail_alike(a, b),
    ensures
        report_line(key, a) == report_line(key, b),
        exit_code_after(a) == exit_code_after(b),
{
}

} // verus!
