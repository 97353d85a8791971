//! What shows in the front of a file stays when the file grows.
use vstd::prelude::*;

use crate::bytes::{
    extends, find, gap, indent, lemma_run_end, lemma_run_end_is, other_than, run_end, DOUBLE_QUOTE,
    LINE_FEED,
};
use crate::field::{
    agreement, has_text, is_entry, lemma_agreement, lemma_agreement_is, lemma_line_stop_bounds,
    line_stop, text_start, value_at, value_start,
};

verus! {

/// A run that ends within `s` ends there in every longer sequence; one that does not goes on.
pub proof fn lemma_run_end_in_longer(
    s: Seq<u8>,
    longer: Seq<u8>,
    from: int,
    class: spec_fn(u8) -> bool,
)
    requires
        extends(longer, s),
        0 <= from <= s.len(),
    ensures
        run_end(s, from, class) < s.len() ==> run_end(longer, from, class) == run_end(
            s,
            from,
            class,
        ),
        run_end(s, from, class) <= run_end(longer, from, class) <= longer.len(),
{
    let end = run_end(s, from, class);
    lemma_run_end(s, from, class);
    lemma_run_end(longer, from, class);
    assert forall|i: int| from <= i < end implies class(#[trigger] longer[i]) by {
        assert(longer[i] == s[i]);
    }
    if end < s.len() {
        assert(longer[end] == s[end]);
        lemma_run_end_is(longer, from, end, class);
    } else {
        let longer_end = run_end(longer, from, class);
        if longer_end < end {
            assert(class(longer[longer_end]));
        }
    }
}

/// A line that shows within `s` what it is shows the same in every longer sequence.
pub proof fn lemma_line_decided(s: Seq<u8>, longer: Seq<u8>, key: Seq<u8>, line: int)
    requires
        extends(longer, s),
        0 <= line <= s.len(),
        line_stop(s, key, line) < s.len(),
    ensures
        line_stop(longer, key, line) == line_stop(s, key, line),
        is_entry(longer, key, line) == is_entry(s, key, line),
{
    let text = text_start(s, line);
    let stop = line_stop(s, key, line);
    let m = agreement(s, text, key, 0);
    lemma_line_stop_bounds(s, key, line);
    lemma_run_end_in_longer(s, longer, line, indent());
    assert(longer[text] == s[text]);
    assert(longer[stop] == s[stop]);
    lemma_agreement(s, text, key, 0);
    if has_text(s, text) {
        assert forall|i: int| 0 <= i < m implies longer[text + i] == key[i] by {
            assert(longer[text + i] == s[text + i]);
        }
        lemma_agreement_is(longer, text, key, 0, m);
        if m == key.len() {
            lemma_run_end_in_longer(s, longer, text + m, gap());
        }
    }
}

/// A value that starts within `s` starts there in every longer sequence.
pub proof fn lemma_value_start_stays(s: Seq<u8>, longer: Seq<u8>, key: Seq<u8>, line: int)
    requires
        extends(longer, s),
        0 <= line <= s.len(),
        value_start(s, key, line) is Some,
    ensures
        value_start(longer, key, line) == value_start(s, key, line),
        0 <= value_start(s, key, line)->0 <= s.len(),
    decreases s.len() - line,
{
    let stop = line_stop(s, key, line);
    lemma_line_stop_bounds(s, key, line);
    lemma_run_end(s, stop, other_than(LINE_FEED));
    lemma_run_end_in_longer(s, longer, stop, other_than(LINE_FEED));
    lemma_line_decided(s, longer, key, line);
    if !is_entry(s, key, line) {
        lemma_value_start_stays(s, longer, key, find(s, stop, LINE_FEED) + 1);
    }
}

/// A terminated value stays as it is; any other can only grow.
pub proof fn lemma_value_grows(s: Seq<u8>, longer: Seq<u8>, from: int)
    requires
        extends(longer, s),
        0 <= from <= s.len(),
    ensures
        value_at(s, from).terminated ==> value_at(longer, from) == value_at(s, from),
        value_at(s, from).bytes.len() <= value_at(longer, from).bytes.len(),
{
    let first = run_end(s, from, gap());
    lemma_run_end(s, from, gap());
    lemma_run_end_in_longer(s, longer, from, gap());
    lemma_run_end(longer, from, gap());
    if first < s.len() {
        assert(longer[first] == s[first]);
        if s[first] == DOUBLE_QUOTE {
            let close = find(s, first + 1, DOUBLE_QUOTE);
            lemma_run_end(s, first + 1, other_than(DOUBLE_QUOTE));
            lemma_run_end_in_longer(s, longer, first + 1, other_than(DOUBLE_QUOTE));
            assert(longer.subrange(first + 1, close) =~= s.subrange(first + 1, close));
        } else {
            let line_feed = find(s, first, LINE_FEED);
            let longer_line_feed = find(longer, first, LINE_FEED);
            lemma_run_end(s, first, other_than(LINE_FEED));
            lemma_run_end_in_longer(s, longer, first, other_than(LINE_FEED));
            let raw = s.subrange(first, line_feed);
            let longer_raw = longer.subrange(first, longer_line_feed);
            assert(longer.subrange(first, line_feed) =~= raw);
            if longer_line_feed == line_feed {
                assert(longer_raw =~= raw);
            }
        }
    } else {
        lemma_run_end_is(s, first, first, other_than(LINE_FEED));
        assert(s.subrange(first, first).len() == 0);
    }
}

} // verus!
