//! The scanner: takes what a file yields one event at a time and says when the answer is there.
use vstd::prelude::*;
use vstd::string::StringSliceAdditionalSpecFns;

use crate::bytes::{
    all_in, extends, gap, indent, is_ascii_space_or_tab_byte, other_than, CARRIAGE_RETURN, DOUBLE_QUOTE,
    EQUALS_SIGN, HASH, LINE_FEED,
};
use crate::error::ReadTomlFieldError;
use crate::field::{
    delivers, end_of_file_error, settled, value_start, without_final_cr,
    RSLSF_MAX_BYTES_SCANNED,
};
use crate::tracking::{
    found, key_begun, lemma_equals, lemma_mismatch, lemma_next_line, lemma_no_equals, lemma_no_text,
    lemma_one_more, lemma_resumes_at_start, lemma_unfound_after_key, lemma_unfound_in_indent,
    lemma_unfound_in_key, lemma_unfound_past_stop, lemma_value_quoted, lemma_value_unbegun,
    lemma_value_unquoted, passed_over, resumes_at,
};

verus! {

/// How an attempt on the file came out.
#[derive(Debug, Clone, Copy, PartialEq, Eq, Structural)]
pub enum FileEvent {
    /// The file could not be opened.
    OpenFailed,
    /// The next byte could not be read.
    ReadFailed,
    /// There is no next byte.
    EndOfFile,
    /// The next byte.
    Byte(u8),
}

/// What to do next.
#[derive(Debug, Clone, Copy, PartialEq, Eq)]
pub enum ScanStep<const OUTPUT_BUFFER_BYTES: usize> {
    /// Read one more byte from the file.
    ReadByte,
    /// Stop: this is the answer.
    Finished(Result<([u8; OUTPUT_BUFFER_BYTES], usize), ReadTomlFieldError>),
}

/// What `event` brings about when it follows the bytes `s`: an answer, or `None` where the next
/// byte is needed.
pub open spec fn event_outcome(
    s: Seq<u8>,
    key: Seq<u8>,
    room: nat,
    event: FileEvent,
) -> Option<Result<Seq<u8>, ReadTomlFieldError>> {
    match event {
        FileEvent::OpenFailed => Some(Err(ReadTomlFieldError::RsLsfFileOpenFailed)),
        FileEvent::ReadFailed => Some(Err(ReadTomlFieldError::RsLsfFileReadFailed)),
        FileEvent::EndOfFile => Some(Err(end_of_file_error(s, key))),
        FileEvent::Byte(byte) => if s.len() >= RSLSF_MAX_BYTES_SCANNED {
            Some(Err(ReadTomlFieldError::RsLsfSafetyBudgetExhausted))
        } else {
            settled(s.push(byte), key, room)
        },
    }
}

/// Where in a line the scanner is.
#[derive(Debug, Clone, Copy, PartialEq, Eq, Structural)]
enum LineScanState {
    /// At the start of a line.
    AtLineStart,
    /// In the indent of a line.
    SkippingLeadingWhitespace,
    /// The text of the line so far is the first `matched_key_bytes` bytes of the key.
    MatchingKey { matched_key_bytes: usize },
    /// Behind the whole key. Spaces and tabs may come, then `=` must.
    AwaitingEquals,
    /// Behind `=`. Spaces and tabs may come before the value.
    AwaitingValueStart,
    /// In an unquoted value, which ends at a line feed.
    CopyingUnquotedValue,
    /// In a quoted value, which ends at `"`.
    CopyingQuotedValue,
    /// In a line that is no entry of the key.
    SkippingToEndOfLine,
    /// In a comment line.
    InCommentToEndOfLine,
}

/// A scan for one key that has taken in the front of a file.
///
/// It holds the key by reference, the value as far as it was seen, and a few words of state. No
/// line and no other part of the file is kept.
pub struct FieldScanner<'k, const OUTPUT_BUFFER_BYTES: usize> {
    key_bytes: &'k [u8],
    current_state: LineScanState,
    output_buffer: [u8; OUTPUT_BUFFER_BYTES],
    output_write_cursor: usize,
    /// The last byte of an unquoted value was a carriage return. The next byte decides whether it
    /// belongs to the value.
    unquoted_value_has_pending_cr: bool,
    cumulative_bytes_scanned: u64,
    /// The bytes taken in so far.
    seen: Ghost<Seq<u8>>,
    /// Where the current line starts.
    line: Ghost<int>,
    /// Where the text of the current line starts or, in a line that is no entry, where it shows
    /// this.
    mark: Ghost<int>,
    /// Where the value starts, right behind `=`.
    start: Ghost<int>,
    /// Where the first byte of the value that is neither space nor tab stands.
    first: Ghost<int>,
}

impl<'k, const OUTPUT_BUFFER_BYTES: usize> FieldScanner<'k, OUTPUT_BUFFER_BYTES> {
    /// The bytes taken in so far.
    pub closed spec fn bytes(&self) -> Seq<u8> {
        self.seen@
    }

    /// The key that is looked for.
    pub closed spec fn key(&self) -> Seq<u8> {
        self.key_bytes@
    }

    /// The part of the value that is in the output buffer.
    spec fn written(&self) -> Seq<u8> {
        self.output_buffer@.take(self.output_write_cursor as int)
    }

    /// The output buffer holds zeros behind its cursor.
    spec fn buffer_ok(&self) -> bool {
        &&& self.output_write_cursor <= OUTPUT_BUFFER_BYTES
        &&& forall|i: int|
            self.output_write_cursor <= i < OUTPUT_BUFFER_BYTES ==> self.output_buffer@[i] == 0
    }

    /// The state says what the bytes taken in amount to.
    spec fn state_ok(&self) -> bool {
        let s = self.seen@;
        let key = self.key_bytes@;
        let end = s.len() as int;
        match self.current_state {
            LineScanState::AtLineStart | LineScanState::SkippingLeadingWhitespace => {
                &&& resumes_at(s, key, self.line@)
                &&& all_in(s, self.line@, end, indent())
                &&& self.nothing_written()
            },
            LineScanState::MatchingKey { matched_key_bytes } => {
                &&& resumes_at(s, key, self.line@)
                &&& key_begun(s, key, self.line@, self.mark@, matched_key_bytes as int)
                &&& 0 < matched_key_bytes < key.len()
                &&& self.mark@ + matched_key_bytes == end
                &&& self.nothing_written()
            },
            LineScanState::AwaitingEquals => {
                &&& resumes_at(s, key, self.line@)
                &&& key_begun(s, key, self.line@, self.mark@, key.len() as int)
                &&& all_in(s, self.mark@ + key.len(), end, gap())
                &&& self.nothing_written()
            },
            LineScanState::AwaitingValueStart => {
                &&& found(s, key, self.start@)
                &&& all_in(s, self.start@, end, gap())
                &&& self.nothing_written()
            },
            LineScanState::CopyingUnquotedValue => {
                &&& found(s, key, self.start@)
                &&& self.start@ <= self.first@ < end
                &&& all_in(s, self.start@, self.first@, gap())
                &&& !gap()(s[self.first@])
                &&& s[self.first@] != DOUBLE_QUOTE
                &&& all_in(s, self.first@, end, other_than(LINE_FEED))
                &&& self.unquoted_value_has_pending_cr == (s.last() == CARRIAGE_RETURN)
                &&& self.written() == without_final_cr(s.subrange(self.first@, end))
            },
            LineScanState::CopyingQuotedValue => {
                &&& found(s, key, self.start@)
                &&& self.start@ <= self.first@ < end
                &&& all_in(s, self.start@, self.first@, gap())
                &&& s[self.first@] == DOUBLE_QUOTE
                &&& all_in(s, self.first@ + 1, end, other_than(DOUBLE_QUOTE))
                &&& self.written() == s.subrange(self.first@ + 1, end)
            },
            LineScanState::SkippingToEndOfLine | LineScanState::InCommentToEndOfLine => {
                &&& resumes_at(s, key, self.line@)
                &&& passed_over(s, key, self.line@, self.mark@)
                &&& all_in(s, self.mark@, end, other_than(LINE_FEED))
                &&& self.nothing_written()
            },
        }
    }

    /// No byte of a value was seen.
    spec fn nothing_written(&self) -> bool {
        self.output_write_cursor == 0 && !self.unquoted_value_has_pending_cr
    }

    /// Counters, buffer and state agree with the bytes taken in.
    pub closed spec fn inv(&self) -> bool {
        &&& self.cumulative_bytes_scanned == self.seen@.len()
        &&& self.buffer_ok()
        &&& self.state_ok()
    }

    /// The scan is under way: the key is not empty, there is room for a value, the budget is
    /// kept, and the bytes taken in do not settle the answer.
    pub open spec fn running(&self) -> bool {
        &&& self.inv()
        &&& OUTPUT_BUFFER_BYTES > 0
        &&& self.key().len() > 0
        &&& self.bytes().len() <= RSLSF_MAX_BYTES_SCANNED
        &&& settled(self.bytes(), self.key(), OUTPUT_BUFFER_BYTES as nat) is None
    }

    /// Taking in `event` turned `self` into `after` and brought `step`: the answer, if there is one
    /// now, or else the demand for another byte, with this one taken in.
    pub open spec fn steps_to(
        &self,
        after: &Self,
        event: FileEvent,
        step: ScanStep<OUTPUT_BUFFER_BYTES>,
    ) -> bool {
        match event_outcome(self.bytes(), self.key(), OUTPUT_BUFFER_BYTES as nat, event) {
            Some(outcome) => step matches ScanStep::Finished(result) && delivers(result, outcome),
            None => {
                &&& step is ReadByte
                &&& after.running()
                &&& after.key() == self.key()
                &&& event matches FileEvent::Byte(byte) && after.bytes() == self.bytes().push(byte)
            },
        }
    }

    /// A state that fits the bytes leaves the answer open.
    proof fn lemma_unsettled(&self)
        requires
            self.inv(),
        ensures
            settled(self.bytes(), self.key(), OUTPUT_BUFFER_BYTES as nat) is None,
            value_start(self.bytes(), self.key(), 0) is Some <==> (self.current_state
                == LineScanState::AwaitingValueStart || self.current_state
                == LineScanState::CopyingUnquotedValue || self.current_state
                == LineScanState::CopyingQuotedValue),
    {
        let s = self.seen@;
        let key = self.key_bytes@;
        let end = s.len() as int;
        assert(extends(s, s));
        match self.current_state {
            LineScanState::AtLineStart | LineScanState::SkippingLeadingWhitespace => {
                lemma_unfound_in_indent(s, key, self.line@);
            },
            LineScanState::MatchingKey { matched_key_bytes } => {
                lemma_unfound_in_key(s, key, self.line@, self.mark@, matched_key_bytes as int);
            },
            LineScanState::AwaitingEquals => {
                lemma_unfound_after_key(s, key, self.line@, self.mark@);
            },
            LineScanState::AwaitingValueStart => {
                lemma_value_unbegun(s, self.start@);
            },
            LineScanState::CopyingUnquotedValue => {
                lemma_value_unquoted(s, self.start@, self.first@, end);
            },
            LineScanState::CopyingQuotedValue => {
                lemma_value_quoted(s, self.start@, self.first@, end);
            },
            LineScanState::SkippingToEndOfLine | LineScanState::InCommentToEndOfLine => {
                lemma_unfound_past_stop(s, key, self.line@, self.mark@);
            },
        }
    }

    /// Starts a scan for `target_field_key`, before the file is touched.
    pub fn new(target_field_key: &'k str) -> (scanner: Result<Self, ReadTomlFieldError>)
        ensures
            match scanner {
                Ok(scanner) => {
                    &&& OUTPUT_BUFFER_BYTES > 0
                    &&& target_field_key.spec_bytes().len() > 0
                    &&& scanner.running()
                    &&& scanner.key() == target_field_key.spec_bytes()
                    &&& scanner.bytes() == Seq::<u8>::empty()
                },
                Err(ReadTomlFieldError::RsLsfOutputBufferZeroSized) => OUTPUT_BUFFER_BYTES == 0,
                Err(ReadTomlFieldError::RsLsfEmptyKey) => {
                    &&& OUTPUT_BUFFER_BYTES > 0
                    &&& target_field_key.spec_bytes().len() == 0
                },
                Err(_) => false,
            },
    {
        if OUTPUT_BUFFER_BYTES == 0 {
            return Err(ReadTomlFieldError::RsLsfOutputBufferZeroSized);
        }
        let key_bytes = target_field_key.as_bytes();
        if key_bytes.len() == 0 {
            return Err(ReadTomlFieldError::RsLsfEmptyKey);
        }
        let output_buffer = [0u8; OUTPUT_BUFFER_BYTES];
        proof {
            vstd::array::axiom_spec_array_fill_for_copy_type::<u8, OUTPUT_BUFFER_BYTES>(0u8);
        }
        let scanner = FieldScanner {
            key_bytes,
            current_state: LineScanState::AtLineStart,
            output_buffer,
            output_write_cursor: 0,
            unquoted_value_has_pending_cr: false,
            cumulative_bytes_scanned: 0,
            seen: Ghost(Seq::empty()),
            line: Ghost(0),
            mark: Ghost(0),
            start: Ghost(0),
            first: Ghost(0),
        };
        proof {
            lemma_resumes_at_start(scanner.key_bytes@);
            scanner.lemma_unsettled();
        }
        Ok(scanner)
    }

    /// Appends `byte` to the value in the output buffer. False where there is no room.
    fn store(&mut self, byte: u8) -> (stored: bool)
        requires
            old(self).buffer_ok(),
        ensures
            stored == (old(self).output_write_cursor < OUTPUT_BUFFER_BYTES),
            final(self).buffer_ok(),
            stored ==> final(self).written() == old(self).written().push(byte),
            *final(self) == (FieldScanner {
                output_buffer: final(self).output_buffer,
                output_write_cursor: final(self).output_write_cursor,
                ..*old(self)
            }),
    {
        if self.output_write_cursor >= OUTPUT_BUFFER_BYTES {
            return false;
        }
        self.output_buffer[self.output_write_cursor] = byte;
        self.output_write_cursor = self.output_write_cursor + 1;
        assert(self.written() =~= old(self).written().push(byte));
        true
    }

    /// The scan is under way and the budget allows for one more byte.
    spec fn takes_byte(&self) -> bool {
        self.running() && self.bytes().len() < RSLSF_MAX_BYTES_SCANNED
    }

    /// Counts `byte` in.
    fn count_byte(&mut self, byte: u8)
        requires
            old(self).cumulative_bytes_scanned < RSLSF_MAX_BYTES_SCANNED,
        ensures
            *final(self) == (FieldScanner {
                cumulative_bytes_scanned: (old(self).cumulative_bytes_scanned + 1) as u64,
                seen: Ghost(old(self).seen@.push(byte)),
                ..*old(self)
            }),
    {
        self.cumulative_bytes_scanned = self.cumulative_bytes_scanned + 1;
        self.seen = Ghost(self.seen@.push(byte));
    }

    /// Leaves a line that has just shown, by `byte`, that it is no entry.
    fn give_up_line(&mut self, byte: u8)
        requires
            resumes_at(old(self).seen@, old(self).key_bytes@, old(self).line@),
            passed_over(old(self).seen@, old(self).key_bytes@, old(self).line@, old(self).mark@),
            old(self).mark@ == old(self).seen@.len() - 1,
            old(self).seen@.last() == byte,
            old(self).nothing_written(),
        ensures
            final(self).state_ok(),
            *final(self) == (FieldScanner {
                current_state: final(self).current_state,
                line: final(self).line,
                ..*old(self)
            }),
    {
        if byte == LINE_FEED {
            proof {
                lemma_next_line(self.seen@, self.key_bytes@, self.line@, self.mark@);
                self.line@ = self.seen@.len() as int;
            }
            self.current_state = LineScanState::AtLineStart;
        } else {
            self.current_state = LineScanState::SkippingToEndOfLine;
        }
    }

    /// Takes in one byte of an indent, or the first byte behind it.
    fn byte_in_indent(&mut self, byte: u8) -> (step: ScanStep<OUTPUT_BUFFER_BYTES>)
        requires
            old(self).takes_byte(),
            old(self).current_state == LineScanState::AtLineStart || old(self).current_state
                == LineScanState::SkippingLeadingWhitespace,
        ensures
            old(self).steps_to(final(self), FileEvent::Byte(byte), step),
    {
        let ghost s = self.seen@;
        let ghost next = s.push(byte);
        let ghost key = self.key_bytes@;
        let ghost text = s.len() as int;
        proof {
            lemma_one_more(s, byte);
        }
        self.count_byte(byte);
        if byte == LINE_FEED {
            proof {
                lemma_no_text(next, key, self.line@, text);
                lemma_next_line(next, key, self.line@, text);
                self.line@ = next.len() as int;
            }
            self.current_state = LineScanState::AtLineStart;
        } else if byte == CARRIAGE_RETURN {
            // Part of the indent, or of the end of a blank line.
        } else if is_ascii_space_or_tab_byte(byte) {
            self.current_state = LineScanState::SkippingLeadingWhitespace;
        } else if byte == HASH {
            proof {
                lemma_no_text(next, key, self.line@, text);
                self.mark@ = text;
            }
            self.current_state = LineScanState::InCommentToEndOfLine;
        } else {
            proof {
                self.mark@ = text;
            }
            if byte == self.key_bytes[0] {
                if self.key_bytes.len() == 1 {
                    self.current_state = LineScanState::AwaitingEquals;
                } else {
                    self.current_state = LineScanState::MatchingKey { matched_key_bytes: 1 };
                }
            } else {
                proof {
                    lemma_mismatch(next, key, self.line@, text, 0);
                }
                self.current_state = LineScanState::SkippingToEndOfLine;
            }
        }
        proof {
            self.lemma_unsettled();
        }
        ScanStep::ReadByte
    }

    /// Takes in one byte behind the first `matched_key_bytes` bytes of the key.
    fn byte_in_key(&mut self, byte: u8, matched_key_bytes: usize) -> (step: ScanStep<
        OUTPUT_BUFFER_BYTES,
    >)
        requires
            old(self).takes_byte(),
            old(self).current_state == (LineScanState::MatchingKey { matched_key_bytes }),
        ensures
            old(self).steps_to(final(self), FileEvent::Byte(byte), step),
    {
        let ghost s = self.seen@;
        let ghost next = s.push(byte);
        let ghost key = self.key_bytes@;
        let ghost text = self.mark@;
        proof {
            lemma_one_more(s, byte);
            assert(key_begun(next, key, self.line@, text, matched_key_bytes as int));
        }
        self.count_byte(byte);
        if byte == self.key_bytes[matched_key_bytes] {
            let next_matched: usize = matched_key_bytes + 1;
            if next_matched == self.key_bytes.len() {
                self.current_state = LineScanState::AwaitingEquals;
            } else {
                self.current_state = LineScanState::MatchingKey { matched_key_bytes: next_matched };
            }
        } else {
            proof {
                lemma_mismatch(next, key, self.line@, text, matched_key_bytes as int);
                self.mark@ = text + matched_key_bytes;
            }
            self.give_up_line(byte);
        }
        proof {
            self.lemma_unsettled();
        }
        ScanStep::ReadByte
    }

    /// Takes in one byte behind the whole key.
    fn byte_after_key(&mut self, byte: u8) -> (step: ScanStep<OUTPUT_BUFFER_BYTES>)
        requires
            old(self).takes_byte(),
            old(self).current_state == LineScanState::AwaitingEquals,
        ensures
            old(self).steps_to(final(self), FileEvent::Byte(byte), step),
    {
        let ghost s = self.seen@;
        let ghost next = s.push(byte);
        let ghost key = self.key_bytes@;
        let ghost text = self.mark@;
        let ghost stop = s.len() as int;
        proof {
            lemma_one_more(s, byte);
            assert(key_begun(next, key, self.line@, text, key.len() as int));
        }
        self.count_byte(byte);
        if is_ascii_space_or_tab_byte(byte) {
            // The gap goes on.
        } else if byte == EQUALS_SIGN {
            proof {
                lemma_equals(next, key, self.line@, text, stop);
                self.start@ = stop + 1;
            }
            self.current_state = LineScanState::AwaitingValueStart;
        } else {
            proof {
                lemma_no_equals(next, key, self.line@, text, stop);
                self.mark@ = stop;
            }
            self.give_up_line(byte);
        }
        proof {
            self.lemma_unsettled();
        }
        ScanStep::ReadByte
    }

    /// Takes in one byte of a line that is no entry.
    fn byte_past_stop(&mut self, byte: u8) -> (step: ScanStep<OUTPUT_BUFFER_BYTES>)
        requires
            old(self).takes_byte(),
            old(self).current_state == LineScanState::SkippingToEndOfLine
                || old(self).current_state == LineScanState::InCommentToEndOfLine,
        ensures
            old(self).steps_to(final(self), FileEvent::Byte(byte), step),
    {
        let ghost next = self.seen@.push(byte);
        proof {
            lemma_one_more(self.seen@, byte);
        }
        self.count_byte(byte);
        if byte == LINE_FEED {
            proof {
                lemma_next_line(next, self.key_bytes@, self.line@, self.mark@);
                self.line@ = next.len() as int;
            }
            self.current_state = LineScanState::AtLineStart;
        }
        proof {
            self.lemma_unsettled();
        }
        ScanStep::ReadByte
    }

    /// Takes in one byte behind `=`, before the value has begun.
    fn byte_before_value(&mut self, byte: u8) -> (step: ScanStep<OUTPUT_BUFFER_BYTES>)
        requires
            old(self).takes_byte(),
            old(self).current_state == LineScanState::AwaitingValueStart,
        ensures
            old(self).steps_to(final(self), FileEvent::Byte(byte), step),
    {
        let ghost s = self.seen@;
        let ghost next = s.push(byte);
        let ghost first = s.len() as int;
        proof {
            lemma_one_more(s, byte);
            assert(extends(next, next));
        }
        self.count_byte(byte);
        if is_ascii_space_or_tab_byte(byte) {
            // The gap goes on.
        } else if byte == DOUBLE_QUOTE {
            proof {
                self.first@ = first;
                assert(self.written() =~= next.subrange(first + 1, first + 1));
            }
            self.current_state = LineScanState::CopyingQuotedValue;
        } else if byte == LINE_FEED {
            proof {
                lemma_value_unquoted(next, self.start@, first, first);
                assert(next.subrange(first, first) =~= Seq::empty());
                assert(self.output_buffer@.take(0) =~= Seq::empty());
            }
            return ScanStep::Finished(Ok((self.output_buffer, 0)));
        } else if byte == CARRIAGE_RETURN {
            self.unquoted_value_has_pending_cr = true;
            proof {
                self.first@ = first;
                assert(self.written() =~= without_final_cr(next.subrange(first, first + 1)));
            }
            self.current_state = LineScanState::CopyingUnquotedValue;
        } else {
            proof {
                self.first@ = first;
                lemma_value_unquoted(next, self.start@, first, first + 1);
            }
            if !self.store(byte) {
                return ScanStep::Finished(Err(ReadTomlFieldError::RsLsfValueExceedsOutputBuffer));
            }
            self.current_state = LineScanState::CopyingUnquotedValue;
            assert(self.written() =~= without_final_cr(next.subrange(first, first + 1)));
        }
        proof {
            self.lemma_unsettled();
        }
        ScanStep::ReadByte
    }

    /// Takes in one byte of an unquoted value, or its line feed.
    fn byte_in_unquoted_value(&mut self, byte: u8) -> (step: ScanStep<OUTPUT_BUFFER_BYTES>)
        requires
            old(self).takes_byte(),
            old(self).current_state == LineScanState::CopyingUnquotedValue,
        ensures
            old(self).steps_to(final(self), FileEvent::Byte(byte), step),
    {
        let ghost s = self.seen@;
        let ghost next = s.push(byte);
        let ghost raw = s.subrange(self.first@, s.len() as int);
        proof {
            lemma_one_more(s, byte);
            assert(extends(next, next));
            if byte == LINE_FEED {
                lemma_value_unquoted(next, self.start@, self.first@, s.len() as int);
                assert(next.subrange(self.first@, s.len() as int) =~= raw);
            } else {
                lemma_value_unquoted(next, self.start@, self.first@, next.len() as int);
                assert(next.subrange(self.first@, next.len() as int) =~= raw.push(byte));
                assert(raw.push(byte).drop_last() =~= raw);
            }
            assert(raw.last() == s.last());
            if raw.last() == CARRIAGE_RETURN {
                assert(raw =~= raw.drop_last().push(CARRIAGE_RETURN));
            }
        }
        self.count_byte(byte);
        if byte == LINE_FEED {
            return ScanStep::Finished(Ok((self.output_buffer, self.output_write_cursor)));
        } else if byte == CARRIAGE_RETURN {
            if self.unquoted_value_has_pending_cr {
                if !self.store(CARRIAGE_RETURN) {
                    return ScanStep::Finished(
                        Err(ReadTomlFieldError::RsLsfValueExceedsOutputBuffer),
                    );
                }
            }
            self.unquoted_value_has_pending_cr = true;
        } else {
            if self.unquoted_value_has_pending_cr {
                if !self.store(CARRIAGE_RETURN) {
                    return ScanStep::Finished(
                        Err(ReadTomlFieldError::RsLsfValueExceedsOutputBuffer),
                    );
                }
                self.unquoted_value_has_pending_cr = false;
            }
            if !self.store(byte) {
                return ScanStep::Finished(Err(ReadTomlFieldError::RsLsfValueExceedsOutputBuffer));
            }
        }
        proof {
            self.lemma_unsettled();
        }
        ScanStep::ReadByte
    }

    /// Takes in one byte of a quoted value, or its closing `"`.
    fn byte_in_quoted_value(&mut self, byte: u8) -> (step: ScanStep<OUTPUT_BUFFER_BYTES>)
        requires
            old(self).takes_byte(),
            old(self).current_state == LineScanState::CopyingQuotedValue,
        ensures
            old(self).steps_to(final(self), FileEvent::Byte(byte), step),
    {
        let ghost s = self.seen@;
        let ghost next = s.push(byte);
        let ghost content = s.subrange(self.first@ + 1, s.len() as int);
        proof {
            lemma_one_more(s, byte);
            assert(extends(next, next));
            if byte == DOUBLE_QUOTE {
                lemma_value_quoted(next, self.start@, self.first@, s.len() as int);
                assert(next.subrange(self.first@ + 1, s.len() as int) =~= content);
            } else {
                lemma_value_quoted(next, self.start@, self.first@, next.len() as int);
                assert(next.subrange(self.first@ + 1, next.len() as int) =~= content.push(byte));
            }
        }
        self.count_byte(byte);
        if byte == DOUBLE_QUOTE {
            return ScanStep::Finished(Ok((self.output_buffer, self.output_write_cursor)));
        }
        if !self.store(byte) {
            return ScanStep::Finished(Err(ReadTomlFieldError::RsLsfValueExceedsOutputBuffer));
        }
        proof {
            self.lemma_unsettled();
        }
        ScanStep::ReadByte
    }

    /// Takes in one byte.
    fn take_byte(&mut self, byte: u8) -> (step: ScanStep<OUTPUT_BUFFER_BYTES>)
        requires
            old(self).takes_byte(),
        ensures
            old(self).steps_to(final(self), FileEvent::Byte(byte), step),
    {
        match self.current_state {
            LineScanState::AtLineStart | LineScanState::SkippingLeadingWhitespace => {
                self.byte_in_indent(byte)
            },
            LineScanState::MatchingKey { matched_key_bytes } => {
                self.byte_in_key(byte, matched_key_bytes)
            },
            LineScanState::AwaitingEquals => self.byte_after_key(byte),
            LineScanState::AwaitingValueStart => self.byte_before_value(byte),
            LineScanState::CopyingUnquotedValue => self.byte_in_unquoted_value(byte),
            LineScanState::CopyingQuotedValue => self.byte_in_quoted_value(byte),
            LineScanState::SkippingToEndOfLine | LineScanState::InCommentToEndOfLine => {
                self.byte_past_stop(byte)
            },
        }
    }

    /// Takes in `event` and says what to do next.
    pub fn step(&mut self, event: FileEvent) -> (step: ScanStep<OUTPUT_BUFFER_BYTES>)
        requires
            old(self).running(),
        ensures
            old(self).steps_to(final(self), event, step),
    {
        match event {
            FileEvent::OpenFailed => {
                ScanStep::Finished(Err(ReadTomlFieldError::RsLsfFileOpenFailed))
            },
            FileEvent::ReadFailed => {
                ScanStep::Finished(Err(ReadTomlFieldError::RsLsfFileReadFailed))
            },
            FileEvent::EndOfFile => {
                proof {
                    self.lemma_unsettled();
                }
                match self.current_state {
                    LineScanState::CopyingUnquotedValue
                    | LineScanState::CopyingQuotedValue
                    | LineScanState::AwaitingValueStart => ScanStep::Finished(
                        Err(ReadTomlFieldError::RsLsfValueUnterminatedAtEndOfFile),
                    ),
                    _ => ScanStep::Finished(Err(ReadTomlFieldError::RsLsfFieldNotFound)),
                }
            },
            FileEvent::Byte(byte) => {
                if self.cumulative_bytes_scanned >= RSLSF_MAX_BYTES_SCANNED {
                    return ScanStep::Finished(Err(ReadTomlFieldError::RsLsfSafetyBudgetExhausted));
                }
                self.take_byte(byte)
            },
        }
    }
}

} // verus!
