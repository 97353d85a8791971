//! Scanning byte by byte comes to what reading the whole file comes to.
use vstd::prelude::*;
use vstd::string::StringSliceAdditionalSpecFns;

use crate::bytes::{extends, is_ascii_space_or_tab_byte};
use crate::error::ReadTomlFieldError;
use crate::laws::law_settled_answer_stays;
use crate::read_laws::{is_error, lemma_same_buffers, read_returns, same_result};
use crate::reader::TomlFile;
use crate::scanner::{FieldScanner, FileEvent, ScanStep};

verus! {

/// A scan may be started for every key and a buffer of every size.
pub proof fn law_every_scan_may_start<'k, const N: usize>(key: &'k str)
    ensures
        call_requires(FieldScanner::<'k, N>::new, (key,)),
{
}

/// A scan starts with the key that was asked for and with nothing seen. It is refused exactly
/// where a read is refused before the file is touched.
pub proof fn law_scan_starts_afresh<'k, const N: usize>(
    key: &'k str,
    scanner: Result<FieldScanner<'k, N>, ReadTomlFieldError>,
)
    requires
        call_ensures(FieldScanner::<'k, N>::new, (key,), scanner),
    ensures
        match scanner {
            Ok(scanner) => {
                &&& N > 0
                &&& key.spec_bytes().len() > 0
                &&& scanner.running()
                &&& scanner.key() == key.spec_bytes()
                &&& scanner.bytes().len() == 0
            },
            Err(error) => {
                ||| N == 0 && error == ReadTomlFieldError::RsLsfOutputBufferZeroSized
                ||| N > 0 && key.spec_bytes().len() == 0 && error
                    == ReadTomlFieldError::RsLsfEmptyKey
            },
        },
{
}

/// An answer that a byte brings is the answer of every file that begins with the bytes seen.
pub proof fn law_scan_answers_as_reading_does<const N: usize>(
    before: FieldScanner<'_, N>,
    after: FieldScanner<'_, N>,
    byte: u8,
    step: ScanStep<N>,
    more: Seq<u8>,
    contents: &[u8],
    key: &str,
    result: Result<([u8; N], usize), ReadTomlFieldError>,
)
    requires
        before.running(),
        before.steps_to(&after, FileEvent::Byte(byte), step),
        key.spec_bytes() == before.key(),
        contents@ == before.bytes() + seq![byte] + more,
        read_returns(TomlFile::Readable(contents), key, result),
    ensures
        step matches ScanStep::Finished(answer) ==> same_result(answer, result),
{
    if let ScanStep::Finished(answer) = step {
        let s = before.bytes().push(byte);
        let scanned = if contents@.len() > 1_048_576 {
            contents@.take(1_048_576)
        } else {
            contents@
        };
        if s.len() <= 1_048_576 {
            assert(extends(scanned, s));
            law_settled_answer_stays(s, scanned, before.key(), N as nat);
        } else {
            assert(scanned =~= before.bytes());
        }
        lemma_same_buffers(answer, result);
    }
}

/// Another byte is asked for exactly where the bytes seen hold no answer: a read that fails right
/// there can report nothing but the failure. The scan then has the byte, and the key is the same.
pub proof fn law_scan_reads_no_more_than_needed<const N: usize>(
    before: FieldScanner<'_, N>,
    after: FieldScanner<'_, N>,
    byte: u8,
    step: ScanStep<N>,
    contents: &[u8],
    key: &str,
    result: Result<([u8; N], usize), ReadTomlFieldError>,
)
    requires
        before.running(),
        before.steps_to(&after, FileEvent::Byte(byte), step),
        key.spec_bytes() == before.key(),
        contents@ == before.bytes() + seq![byte],
        read_returns(TomlFile::FailsAfter(contents), key, result),
    ensures
        step is ReadByte <==> is_error(result, ReadTomlFieldError::RsLsfFileReadFailed),
        step is ReadByte ==> after.running(),
        step is ReadByte ==> after.key() == before.key(),
        step is ReadByte ==> after.bytes() == before.bytes() + seq![byte],
{
    let s = before.bytes().push(byte);
    assert(contents@ =~= s);
    if s.len() > 1_048_576 {
        assert(s.take(1_048_576) =~= before.bytes());
    }
}

/// Where the file ends the scan ends, with the answer of the file.
pub proof fn law_scan_ends_with_the_file<const N: usize>(
    before: FieldScanner<'_, N>,
    after: FieldScanner<'_, N>,
    step: ScanStep<N>,
    contents: &[u8],
    key: &str,
    result: Result<([u8; N], usize), ReadTomlFieldError>,
)
    requires
        before.running(),
        before.steps_to(&after, FileEvent::EndOfFile, step),
        key.spec_bytes() == before.key(),
        contents@ == before.bytes(),
        read_returns(TomlFile::Readable(contents), key, result),
    ensures
        step matches ScanStep::Finished(answer) && same_result(answer, result),
{
}

/// A failure ends the scan with the error that belongs to it.
pub proof fn law_failures_end_the_scan<const N: usize>(
    before: FieldScanner<'_, N>,
    after: FieldScanner<'_, N>,
    event: FileEvent,
    step: ScanStep<N>,
)
    requires
        before.running(),
        before.steps_to(&after, event, step),
    ensures
        event is OpenFailed ==> (step matches ScanStep::Finished(answer) && is_error(
            answer,
            ReadTomlFieldError::RsLsfFileOpenFailed,
        )),
        event is ReadFailed ==> (step matches ScanStep::Finished(answer) && is_error(
            answer,
            ReadTomlFieldError::RsLsfFileReadFailed,
        )),
{
}

/// No scan takes in more than the budget.
pub proof fn law_scan_keeps_the_budget<const N: usize>(scanner: FieldScanner<'_, N>)
    requires
        scanner.running(),
    ensures
        scanner.bytes().len() <= 1_048_576,
{
}

/// A space and a tab are told from every other byte.
pub proof fn law_only_space_and_tab(byte: u8, answer: bool)
    requires
        call_ensures(is_ascii_space_or_tab_byte, (byte,), answer),
    ensures
        answer <==> byte == 0x20 || byte == 0x09,
{
}

} // verus!
