//! Reads one field of one file.
use vstd::prelude::*;
use vstd::string::StringSliceAdditionalSpecFns;

use crate::bytes::extends;
use crate::error::ReadTomlFieldError;
use crate::field::{
    delivers, end_of_file_error, field_outcome, scan_outcome, RSLSF_MAX_BYTES_SCANNED,
};
use crate::laws::law_settled_answer_stays;
use crate::scanner::{FieldScanner, FileEvent, ScanStep};

verus! {

/// A file as its reader meets it.
#[derive(Debug, Clone, Copy, PartialEq, Eq)]
pub enum TomlFile<'a> {
    /// Cannot be opened.
    Unopenable,
    /// Yields these bytes and then ends.
    Readable(&'a [u8]),
    /// Yields these bytes, and then reading fails.
    FailsAfter(&'a [u8]),
}

/// What reading the field `key` of `file` into `room` bytes comes to. A buffer without room and an
/// empty key are refused, in this order, before the file is touched.
pub open spec fn read_outcome(file: TomlFile<'_>, key: Seq<u8>, room: nat) -> Result<
    Seq<u8>,
    ReadTomlFieldError,
> {
    if room == 0 {
        Err(ReadTomlFieldError::RsLsfOutputBufferZeroSized)
    } else if key.len() == 0 {
        Err(ReadTomlFieldError::RsLsfEmptyKey)
    } else {
        match file {
            TomlFile::Unopenable => Err(ReadTomlFieldError::RsLsfFileOpenFailed),
            TomlFile::Readable(contents) => field_outcome(contents@, key, room),
            TomlFile::FailsAfter(contents) => scan_outcome(
                contents@,
                key,
                room,
                ReadTomlFieldError::RsLsfFileReadFailed,
            ),
        }
    }
}

/// Reads the single-line field `target_field_key` of a TOML file.
///
/// `OUTPUT_BUFFER_BYTES` is the size of the returned buffer, and so the longest value that is
/// accepted. The second part of the result is the length of the value; the buffer holds zeros
/// behind it. The value is not checked to be UTF-8.
pub fn read_single_line_string_field_from_toml_no_heap<const OUTPUT_BUFFER_BYTES: usize>(
    toml_file: TomlFile<'_>,
    target_field_key: &str,
) -> (result: Result<([u8; OUTPUT_BUFFER_BYTES], usize), ReadTomlFieldError>)
    ensures
        delivers(
            result,
            read_outcome(
                toml_file,
                target_field_key.spec_bytes(),
                OUTPUT_BUFFER_BYTES as nat,
            ),
        ),
{
    let mut scanner = match FieldScanner::<OUTPUT_BUFFER_BYTES>::new(target_field_key) {
        Ok(scanner) => scanner,
        Err(error) => return Err(error),
    };
    match toml_file {
        TomlFile::Unopenable => finish(&mut scanner, FileEvent::OpenFailed),
        TomlFile::Readable(contents) => scan(&mut scanner, contents, FileEvent::EndOfFile),
        TomlFile::FailsAfter(contents) => scan(&mut scanner, contents, FileEvent::ReadFailed),
    }
}

/// Takes in an event that ends every scan.
fn finish<const OUTPUT_BUFFER_BYTES: usize>(
    scanner: &mut FieldScanner<'_, OUTPUT_BUFFER_BYTES>,
    event: FileEvent,
) -> (result: Result<([u8; OUTPUT_BUFFER_BYTES], usize), ReadTomlFieldError>)
    requires
        old(scanner).running(),
        event !is Byte,
    ensures
        delivers(result, Err(ending_error(event, old(scanner).bytes(), old(scanner).key()))),
{
    match scanner.step(event) {
        ScanStep::Finished(result) => result,
        // Only a byte can ask for another one.
        ScanStep::ReadByte => Err(ReadTomlFieldError::RsLsfFileReadFailed),
    }
}

/// The error that an event other than a byte ends a scan with.
pub open spec fn ending_error(event: FileEvent, s: Seq<u8>, key: Seq<u8>) -> ReadTomlFieldError {
    match event {
        FileEvent::OpenFailed => ReadTomlFieldError::RsLsfFileOpenFailed,
        FileEvent::EndOfFile => end_of_file_error(s, key),
        _ => ReadTomlFieldError::RsLsfFileReadFailed,
    }
}

/// Takes in `contents` until the answer is there and, where it never is, `last_event`.
fn scan<const OUTPUT_BUFFER_BYTES: usize>(
    scanner: &mut FieldScanner<'_, OUTPUT_BUFFER_BYTES>,
    contents: &[u8],
    last_event: FileEvent,
) -> (result: Result<([u8; OUTPUT_BUFFER_BYTES], usize), ReadTomlFieldError>)
    requires
        old(scanner).running(),
        old(scanner).bytes() == Seq::<u8>::empty(),
        last_event !is Byte,
    ensures
        delivers(
            result,
            scan_outcome(
                contents@,
                old(scanner).key(),
                OUTPUT_BUFFER_BYTES as nat,
                ending_error(last_event, contents@, old(scanner).key()),
            ),
        ),
{
    let ghost key = scanner.key();
    let ghost room = OUTPUT_BUFFER_BYTES as nat;
    let mut position: usize = 0;
    while position < contents.len()
        invariant
            0 <= position <= contents@.len(),
            scanner.running(),
            scanner.bytes() == contents@.take(position as int),
            scanner.key() == key,
            key == old(scanner).key(),
            room == OUTPUT_BUFFER_BYTES,
            last_event !is Byte,
        decreases contents@.len() - position,
    {
        let ghost before = contents@.take(position as int);
        match scanner.step(FileEvent::Byte(contents[position])) {
            ScanStep::Finished(result) => {
                proof {
                    let s = before.push(contents@[position as int]);
                    if before.len() < RSLSF_MAX_BYTES_SCANNED {
                        let scanned = if contents@.len() > RSLSF_MAX_BYTES_SCANNED {
                            contents@.take(RSLSF_MAX_BYTES_SCANNED as int)
                        } else {
                            contents@
                        };
                        assert(extends(scanned, s));
                        law_settled_answer_stays(s, scanned, key, room);
                    } else {
                        assert(before =~= contents@.take(RSLSF_MAX_BYTES_SCANNED as int));
                    }
                }
                return result;
            },
            ScanStep::ReadByte => {},
        }
        assert(contents@.take(position + 1) =~= before.push(contents@[position as int]));
        position = position + 1;
    }
    assert(contents@.take(position as int) =~= contents@);
    finish(scanner, last_event)
}

} // verus!
