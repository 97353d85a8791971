//! Bytes that carry meaning in a TOML line, and runs of bytes.
use vstd::prelude::*;

verus! {

/// `\t`
pub const TAB: u8 = 0x09;

/// `\n`, the line terminator
pub const LINE_FEED: u8 = 0x0a;

/// `\r`
pub const CARRIAGE_RETURN: u8 = 0x0d;

/// A plain space
pub const SPACE: u8 = 0x20;

/// `"`, opens and closes a quoted value
pub const DOUBLE_QUOTE: u8 = 0x22;

/// `#`, opens a comment line
pub const HASH: u8 = 0x23;

/// `=`, stands between key and value
pub const EQUALS_SIGN: u8 = 0x3d;

pub open spec fn is_space_or_tab(b: u8) -> bool {
    b == SPACE || b == TAB
}

/// True for a space and for a tab.
pub fn is_ascii_space_or_tab_byte(byte_value: u8) -> (answer: bool)
    ensures
        answer == is_space_or_tab(byte_value),
{
    byte_value == SPACE || byte_value == TAB
}

/// The bytes that may stand around `=`: spaces and tabs.
pub open spec fn gap() -> spec_fn(u8) -> bool {
    |b: u8| is_space_or_tab(b)
}

/// The bytes that may stand before the text of a line: spaces, tabs and carriage returns.
pub open spec fn indent() -> spec_fn(u8) -> bool {
    |b: u8| is_space_or_tab(b) || b == CARRIAGE_RETURN
}

/// Every byte but `byte`.
pub open spec fn other_than(byte: u8) -> spec_fn(u8) -> bool {
    |b: u8| b != byte
}

/// The bytes of `s` from `from` up to, and without, `to` all belong to `class`.
pub open spec fn all_in(s: Seq<u8>, from: int, to: int, class: spec_fn(u8) -> bool) -> bool {
    forall|i: int| from <= i < to ==> class(#[trigger] s[i])
}

/// Where the run of bytes of `class` that starts at `from` ends: the first position at or after
/// `from` that holds no such byte, or the end of `s`.
pub open spec fn run_end(s: Seq<u8>, from: int, class: spec_fn(u8) -> bool) -> int
    decreases s.len() - from,
{
    if 0 <= from < s.len() && class(s[from]) {
        run_end(s, from + 1, class)
    } else {
        from
    }
}

/// The first position at or after `from` that holds `byte`, or the end of `s`.
pub open spec fn find(s: Seq<u8>, from: int, byte: u8) -> int {
    run_end(s, from, other_than(byte))
}

/// `longer` begins with `s`.
pub open spec fn extends(longer: Seq<u8>, s: Seq<u8>) -> bool {
    &&& s.len() <= longer.len()
    &&& forall|i: int|
        #![trigger s[i]]
        #![trigger longer[i]]
        0 <= i < s.len() ==> longer[i] == s[i]
}

/// A run ends at or after its start, holds bytes of its class only, and is as long as can be.
pub proof fn lemma_run_end(s: Seq<u8>, from: int, class: spec_fn(u8) -> bool)
    requires
        0 <= from <= s.len(),
    ensures
        from <= run_end(s, from, class) <= s.len(),
        all_in(s, from, run_end(s, from, class), class),
        run_end(s, from, class) < s.len() ==> !class(s[run_end(s, from, class)]),
    decreases s.len() - from,
{
    if from < s.len() && class(s[from]) {
        lemma_run_end(s, from + 1, class);
    }
}

/// No other position ends the run.
pub proof fn lemma_run_end_is(s: Seq<u8>, from: int, end: int, class: spec_fn(u8) -> bool)
    requires
        0 <= from <= end <= s.len(),
        all_in(s, from, end, class),
        end < s.len() ==> !class(s[end]),
    ensures
        run_end(s, from, class) == end,
    decreases end - from,
{
    if from < end {
        assert(class(s[from]));
        lemma_run_end_is(s, from + 1, end, class);
    }
}

} // verus!
