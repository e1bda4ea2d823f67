//! How errors are told apart.

use crate::error::{Error, ErrorKind};
use crate::text::decimal;
use vstd::prelude::*;

verus! {

/// What has no room is a full store; what ends too early is an unexpected end; what reads as
/// something else, or not as it was written, is invalid data; what cannot be asked for is invalid
/// input. Everything of the index, and a writer that is gone, has no class of its own.
pub proof fn law_kinds(len: u32, have: usize, a: u64, b: u64)
    ensures
        (Error::PayloadTooBig).spec_kind() == ErrorKind::StorageFull,
        (Error::NoSpaceForRecord).spec_kind() == ErrorKind::StorageFull,
        (Error::NoStorageSpace).spec_kind() == ErrorKind::StorageFull,
        (Error::RecordTooShort).spec_kind() == ErrorKind::UnexpectedEof,
        (Error::RecordLengthWrong).spec_kind() == ErrorKind::UnexpectedEof,
        (Error::TransactionTooShort).spec_kind() == ErrorKind::UnexpectedEof,
        (Error::FrameOverrunsBuffer).spec_kind() == ErrorKind::UnexpectedEof,
        (Error::FrameTooShort).spec_kind() == ErrorKind::UnexpectedEof,
        (Error::NotARecord).spec_kind() == ErrorKind::InvalidData,
        (Error::FrameLengthOutOfRange { len }).spec_kind() == ErrorKind::InvalidData,
        (Error::FrameCorrupted).spec_kind() == ErrorKind::InvalidData,
        (Error::FrameMagicMissing).spec_kind() == ErrorKind::InvalidData,
        (Error::FileNotSealed).spec_kind() == ErrorKind::InvalidData,
        (Error::FileCorrupted).spec_kind() == ErrorKind::InvalidData,
        (Error::FrameTooBig { len }).spec_kind() == ErrorKind::InvalidInput,
        (Error::FrameBufferTooSmall { have, need: len }).spec_kind() == ErrorKind::InvalidInput,
        (Error::ScanBufferEmpty).spec_kind() == ErrorKind::InvalidInput,
        (Error::ScanNotAdvancing { resume: a, pos: b }).spec_kind() == ErrorKind::InvalidInput,
        (Error::TruncatePastEnd { offset: a, durable: b }).spec_kind() == ErrorKind::InvalidInput,
        (Error::AppendTooBig).spec_kind() == ErrorKind::InvalidInput,
        (Error::BlockTooShort).spec_kind() == ErrorKind::WriteZero,
        (Error::BlockMagicMismatch).spec_kind() == ErrorKind::Other,
        (Error::BlockHashMismatch).spec_kind() == ErrorKind::Other,
        (Error::BlockLengthWrong).spec_kind() == ErrorKind::Other,
        (Error::WriterStopped).spec_kind() == ErrorKind::Other,
        (Error::NotAnIndex).spec_kind() == ErrorKind::Other,
        (Error::IndexDirty).spec_kind() == ErrorKind::Other,
        (Error::HeightCeiling).spec_kind() == ErrorKind::Other,
{
}

/// What an outside service reported comes through as it was: its class, its code and its text. No
/// other error has a code.
pub proof fn law_outside(e: Error)
    ensures
        match e {
            Error::Outside { kind, code, message } => {
                &&& e.spec_kind() == kind
                &&& e.spec_code() == code
                &&& e.text() == message@
            },
            _ => e.spec_code() is None,
        },
{
}

/// An error that is about a number says that number, in decimal.
pub proof fn law_numbers_said(len: u32, have: usize, a: u64, b: u64, key: u32, last: u32)
    ensures
        (Error::FrameLengthOutOfRange { len }).text() == "frame length "@ + decimal(len as int)
            + " out of range"@,
        (Error::FrameTooBig { len }).text() == "total frame size exceeded: "@ + decimal(len as int)
            + " Byte"@,
        (Error::FrameBufferTooSmall { have, need: len }).text() == "frame buffer too small: "@
            + decimal(have as int) + " Byte for a "@ + decimal(len as int) + " Byte frame"@,
        (Error::ScanNotAdvancing { resume: a, pos: b }).text() == "scan resumed at "@ + decimal(
            a as int,
        ) + ", which is not past "@ + decimal(b as int),
        (Error::TruncatePastEnd { offset: a, durable: b }).text() == "cannot truncate to "@
            + decimal(a as int) + ", past the durable length "@ + decimal(b as int),
        (Error::IndexVersion { version: key, expected: last }).text() == "index format version "@
            + decimal(key as int) + ", expected "@ + decimal(last as int),
        (Error::IndexPageSize { size: key, expected: last }).text() == "index page size "@
            + decimal(key as int) + ", expected "@ + decimal(last as int),
        (Error::IndexStale {
            built_len: a,
            built_frames: key,
            source_len: b,
            source_frames: last,
        }).text() == "index is stale: built over "@ + decimal(a as int) + " bytes / "@ + decimal(
            key as int,
        ) + " frames, source is "@ + decimal(b as int) + " bytes / "@ + decimal(last as int)
            + " frames"@,
        (Error::DuplicateKey { key }).text() == "duplicate pk "@ + decimal(key as int)
            + " in index build"@,
        (Error::UnsortedKey { key, last }).text() == "pk "@ + decimal(key as int)
            + " arrived after "@ + decimal(last as int) + ", input is not sorted"@,
{
    reveal_strlit("");
    assert((Error::ScanNotAdvancing { resume: a, pos: b }).text() =~= "scan resumed at "@
        + decimal(a as int) + ", which is not past "@ + decimal(b as int));
    assert((Error::TruncatePastEnd { offset: a, durable: b }).text() =~= "cannot truncate to "@
        + decimal(a as int) + ", past the durable length "@ + decimal(b as int));
    assert((Error::IndexVersion { version: key, expected: last }).text()
        =~= "index format version "@ + decimal(key as int) + ", expected "@ + decimal(
        last as int,
    ));
    assert((Error::IndexPageSize { size: key, expected: last }).text() =~= "index page size "@
        + decimal(key as int) + ", expected "@ + decimal(last as int));
}

/// What the other errors say.
pub proof fn law_texts()
    ensures
        (Error::PayloadTooBig).text() == "payload to big"@,
        (Error::RecordTooShort).text() == "record shorter than a header"@,
        (Error::NotARecord).text() == "type field is not record type"@,
        (Error::RecordLengthWrong).text() == "record data len is false"@,
        (Error::NoSpaceForRecord).text() == "not enough space for record"@,
        (Error::NoStorageSpace).text() == "no storage space"@,
        (Error::TransactionTooShort).text() == "transaction shorter than a header"@,
        (Error::FrameOverrunsBuffer).text() == "frame length overruns the buffer"@,
        (Error::FrameCorrupted).text() == "frame corrupted hashes did not match"@,
        (Error::FrameTooShort).text() == "frame shorter than a header"@,
        (Error::FrameMagicMissing).text() == "frame did not start with magic number"@,
        (Error::BlockMagicMismatch).text() == "magic byte does not match"@,
        (Error::BlockHashMismatch).text() == "hashes do not match"@,
        (Error::ScanBufferEmpty).text() == "scan buffer must be non-empty"@,
        (Error::AppendTooBig).text() == "frame to big"@,
        (Error::WriterStopped).text() == "storage writer stopped"@,
        (Error::FileNotSealed).text() == "invalid data"@,
        (Error::FileCorrupted).text() == "invalid data"@,
        (Error::NotAnIndex).text() == "not a pk index file"@,
        (Error::IndexDirty).text() == "index was not closed cleanly, rebuild it"@,
        (Error::HeightCeiling).text() == "pk index exceeded its height ceiling"@,
{
}

} // verus!
