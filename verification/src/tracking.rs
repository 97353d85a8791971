//! What the bytes read so far say about every file that begins with them.
use vstd::prelude::*;

use crate::bytes::{
    all_in, extends, gap, indent, lemma_run_end_is, other_than, DOUBLE_QUOTE, EQUALS_SIGN, HASH,
    LINE_FEED,
};
use crate::field::{
    agreement, has_text, is_entry, lemma_agreement_is, line_stop, text_start, value_at, value_start,
    without_final_cr, FieldValue,
};

verus! {

/// The search for `key` has come down to the line that starts at `line`: no line before it is an
/// entry.
pub open spec fn resumes_at(s: Seq<u8>, key: Seq<u8>, line: int) -> bool {
    &&& 0 <= line <= s.len()
    &&& forall|t: Seq<u8>| #[trigger]
        extends(t, s) ==> value_start(t, key, 0) == value_start(t, key, line)
}

/// The line that starts at `line` is no entry of `key`, and shows this at `stop`.
pub open spec fn passed_over(s: Seq<u8>, key: Seq<u8>, line: int, stop: int) -> bool {
    &&& 0 <= line <= stop <= s.len()
    &&& forall|t: Seq<u8>| #[trigger]
        extends(t, s) ==> !is_entry(t, key, line) && line_stop(t, key, line) == stop
}

/// The first entry of `key` is there and its value starts at `start`.
pub open spec fn found(s: Seq<u8>, key: Seq<u8>, start: int) -> bool {
    &&& 0 <= start <= s.len()
    &&& forall|t: Seq<u8>| #[trigger] extends(t, s) ==> value_start(t, key, 0) == Some(start)
}

/// The text of the line that starts at `line` starts at `text`, and its first `m` bytes are those
/// of `key`.
pub open spec fn key_begun(s: Seq<u8>, key: Seq<u8>, line: int, text: int, m: int) -> bool {
    &&& 0 <= line <= text < s.len()
    &&& all_in(s, line, text, indent())
    &&& !indent()(s[text])
    &&& has_text(s, text)
    &&& 0 <= m <= key.len()
    &&& text + m <= s.len()
    &&& forall|i: int| 0 <= i < m ==> s[text + i] == key[i]
}

/// What holds of every file that begins with `s` holds of every file that begins with more.
pub proof fn lemma_one_more(s: Seq<u8>, b: u8)
    ensures
        extends(s.push(b), s),
        forall|t: Seq<u8>| #[trigger] extends(t, s.push(b)) ==> extends(t, s),
        forall|key: Seq<u8>, line: int| #[trigger]
            resumes_at(s, key, line) ==> resumes_at(s.push(b), key, line),
        forall|key: Seq<u8>, line: int, stop: int| #[trigger]
            passed_over(s, key, line, stop) ==> passed_over(s.push(b), key, line, stop),
        forall|key: Seq<u8>, start: int| #[trigger]
            found(s, key, start) ==> found(s.push(b), key, start),
{
    assert forall|t: Seq<u8>| #[trigger] extends(t, s.push(b)) implies extends(t, s) by {
        assert forall|i: int| 0 <= i < s.len() implies t[i] == #[trigger] s[i] by {
            assert(s.push(b)[i] == s[i]);
        }
    }
}

/// The search starts at the first line.
pub proof fn lemma_resumes_at_start(key: Seq<u8>)
    ensures
        resumes_at(Seq::empty(), key, 0),
{
}

/// A line without text, or with a comment, is no entry.
pub proof fn lemma_no_text(s: Seq<u8>, key: Seq<u8>, line: int, text: int)
    requires
        0 <= line <= text < s.len(),
        all_in(s, line, text, indent()),
        s[text] == LINE_FEED || s[text] == HASH,
    ensures
        passed_over(s, key, line, text),
{
    assert forall|t: Seq<u8>| #[trigger] extends(t, s) implies !is_entry(t, key, line)
        && line_stop(t, key, line) == text by {
        assert(t[text] == s[text]);
        lemma_run_end_is(t, line, text, indent());
    }
}

/// A line whose text departs from the key is no entry.
pub proof fn lemma_mismatch(s: Seq<u8>, key: Seq<u8>, line: int, text: int, m: int)
    requires
        key_begun(s, key, line, text, m),
        m < key.len(),
        text + m < s.len(),
        s[text + m] != key[m],
    ensures
        passed_over(s, key, line, text + m),
{
    assert forall|t: Seq<u8>| #[trigger] extends(t, s) implies !is_entry(t, key, line)
        && line_stop(t, key, line) == text + m by {
        assert(t[text] == s[text]);
        assert(t[text + m] == s[text + m]);
        lemma_run_end_is(t, line, text, indent());
        assert forall|i: int| 0 <= i < m implies t[text + i] == key[i] by {
            assert(t[text + i] == s[text + i]);
        }
        lemma_agreement_is(t, text, key, 0, m);
    }
}

/// The key and the gap after it fix where the line shows what it is.
proof fn lemma_stop_after_key(s: Seq<u8>, key: Seq<u8>, line: int, text: int, stop: int)
    requires
        key_begun(s, key, line, text, key.len() as int),
        text + key.len() <= stop < s.len(),
        all_in(s, text + key.len(), stop, gap()),
        !gap()(s[stop]),
    ensures
        forall|t: Seq<u8>| #[trigger]
            extends(t, s) ==> {
                &&& text_start(t, line) == text
                &&& has_text(t, text)
                &&& agreement(t, text, key, 0) == key.len()
                &&& line_stop(t, key, line) == stop
                &&& stop < t.len()
                &&& t[stop] == s[stop]
            },
{
    assert forall|t: Seq<u8>| #[trigger] extends(t, s) implies {
        &&& text_start(t, line) == text
        &&& has_text(t, text)
        &&& agreement(t, text, key, 0) == key.len()
        &&& line_stop(t, key, line) == stop
        &&& stop < t.len()
        &&& t[stop] == s[stop]
    } by {
        assert(t[text] == s[text]);
        assert(t[stop] == s[stop]);
        lemma_run_end_is(t, line, text, indent());
        assert forall|i: int| 0 <= i < key.len() implies t[text + i] == key[i] by {
            assert(t[text + i] == s[text + i]);
        }
        lemma_agreement_is(t, text, key, 0, key.len() as int);
        lemma_run_end_is(t, text + key.len(), stop, gap());
    }
}

/// A line with something else than `=` behind the key and the gap is no entry.
pub proof fn lemma_no_equals(s: Seq<u8>, key: Seq<u8>, line: int, text: int, stop: int)
    requires
        key_begun(s, key, line, text, key.len() as int),
        text + key.len() <= stop < s.len(),
        all_in(s, text + key.len(), stop, gap()),
        !gap()(s[stop]),
        s[stop] != EQUALS_SIGN,
    ensures
        passed_over(s, key, line, stop),
{
    lemma_stop_after_key(s, key, line, text, stop);
}

/// A line with `=` behind the key and the gap is an entry.
pub proof fn lemma_equals(s: Seq<u8>, key: Seq<u8>, line: int, text: int, stop: int)
    requires
        resumes_at(s, key, line),
        key_begun(s, key, line, text, key.len() as int),
        text + key.len() <= stop < s.len(),
        all_in(s, text + key.len(), stop, gap()),
        s[stop] == EQUALS_SIGN,
    ensures
        found(s, key, stop + 1),
{
    lemma_stop_after_key(s, key, line, text, stop);
    assert forall|t: Seq<u8>| #[trigger] extends(t, s) implies value_start(t, key, 0) == Some(
        stop + 1,
    ) by {
        assert(is_entry(t, key, line));
    }
}

/// Past the line feed of a line that is no entry, the search goes on with the next line.
pub proof fn lemma_next_line(s: Seq<u8>, key: Seq<u8>, line: int, stop: int)
    requires
        resumes_at(s, key, line),
        passed_over(s, key, line, stop),
        stop < s.len(),
        all_in(s, stop, s.len() - 1, other_than(LINE_FEED)),
        s.last() == LINE_FEED,
    ensures
        resumes_at(s, key, s.len() as int),
{
    assert forall|t: Seq<u8>| #[trigger] extends(t, s) implies value_start(t, key, 0)
        == value_start(t, key, s.len() as int) by {
        let line_feed = s.len() - 1;
        assert(t[line_feed] == s[line_feed]);
        lemma_run_end_is(t, stop, line_feed, other_than(LINE_FEED));
    }
}

/// An indent alone starts no value.
pub proof fn lemma_unfound_in_indent(s: Seq<u8>, key: Seq<u8>, line: int)
    requires
        resumes_at(s, key, line),
        all_in(s, line, s.len() as int, indent()),
    ensures
        value_start(s, key, 0) is None,
{
    let end = s.len() as int;
    assert(extends(s, s));
    lemma_run_end_is(s, line, end, indent());
    lemma_run_end_is(s, end, end, other_than(LINE_FEED));
}

/// A part of the key starts no value.
pub proof fn lemma_unfound_in_key(s: Seq<u8>, key: Seq<u8>, line: int, text: int, m: int)
    requires
        resumes_at(s, key, line),
        key_begun(s, key, line, text, m),
        m < key.len(),
        text + m == s.len(),
    ensures
        value_start(s, key, 0) is None,
{
    let end = s.len() as int;
    assert(extends(s, s));
    lemma_run_end_is(s, line, text, indent());
    lemma_agreement_is(s, text, key, 0, m);
    lemma_run_end_is(s, end, end, other_than(LINE_FEED));
}

/// The key and the gap after it start no value.
pub proof fn lemma_unfound_after_key(s: Seq<u8>, key: Seq<u8>, line: int, text: int)
    requires
        resumes_at(s, key, line),
        key_begun(s, key, line, text, key.len() as int),
        all_in(s, text + key.len(), s.len() as int, gap()),
    ensures
        value_start(s, key, 0) is None,
{
    let end = s.len() as int;
    assert(extends(s, s));
    lemma_run_end_is(s, line, text, indent());
    lemma_agreement_is(s, text, key, 0, key.len() as int);
    lemma_run_end_is(s, text + key.len(), end, gap());
    lemma_run_end_is(s, end, end, other_than(LINE_FEED));
}

/// The rest of a line that is no entry starts no value.
pub proof fn lemma_unfound_past_stop(s: Seq<u8>, key: Seq<u8>, line: int, stop: int)
    requires
        resumes_at(s, key, line),
        passed_over(s, key, line, stop),
        all_in(s, stop, s.len() as int, other_than(LINE_FEED)),
    ensures
        value_start(s, key, 0) is None,
{
    assert(extends(s, s));
    lemma_run_end_is(s, stop, s.len() as int, other_than(LINE_FEED));
}

/// Behind `=` and a gap the value is still empty.
pub proof fn lemma_value_unbegun(s: Seq<u8>, start: int)
    requires
        0 <= start <= s.len(),
        all_in(s, start, s.len() as int, gap()),
    ensures
        value_at(s, start) == (FieldValue { bytes: Seq::empty(), terminated: false }),
{
    let end = s.len() as int;
    lemma_run_end_is(s, start, end, gap());
    lemma_run_end_is(s, end, end, other_than(LINE_FEED));
    assert(s.subrange(end, end) =~= Seq::empty());
}

/// A quoted value that ends, or so far extends, at `close`.
pub proof fn lemma_value_quoted(s: Seq<u8>, start: int, first: int, close: int)
    requires
        0 <= start <= first < close <= s.len(),
        all_in(s, start, first, gap()),
        s[first] == DOUBLE_QUOTE,
        all_in(s, first + 1, close, other_than(DOUBLE_QUOTE)),
        close < s.len() ==> s[close] == DOUBLE_QUOTE,
    ensures
        value_at(s, start) == (FieldValue {
            bytes: s.subrange(first + 1, close),
            terminated: close < s.len(),
        }),
{
    lemma_run_end_is(s, start, first, gap());
    lemma_run_end_is(s, first + 1, close, other_than(DOUBLE_QUOTE));
}

/// An unquoted value that ends, or so far extends, at `end`.
pub proof fn lemma_value_unquoted(s: Seq<u8>, start: int, first: int, end: int)
    requires
        0 <= start <= first <= end <= s.len(),
        first < s.len(),
        all_in(s, start, first, gap()),
        !gap()(s[first]),
        s[first] != DOUBLE_QUOTE,
        all_in(s, first, end, other_than(LINE_FEED)),
        end < s.len() ==> s[end] == LINE_FEED,
    ensures
        value_at(s, start) == (FieldValue {
            bytes: without_final_cr(s.subrange(first, end)),
            terminated: end < s.len(),
        }),
{
    lemma_run_end_is(s, start, first, gap());
    lemma_run_end_is(s, first, end, other_than(LINE_FEED));
}

} // verus!
