//! What can go wrong.

use crate::text::{decimal, push_decimal, with_number};
use vstd::prelude::*;
use vstd::string::*;

verus! {

/// The class of an error: one of those of `std::io`, which a store may report, and of which the
/// engine's own errors use a few.
#[derive(Debug, Clone, Copy, PartialEq, Eq, Structural)]
pub enum ErrorKind {
    NotFound,
    PermissionDenied,
    ConnectionRefused,
    ConnectionReset,
    HostUnreachable,
    NetworkUnreachable,
    ConnectionAborted,
    NotConnected,
    AddrInUse,
    AddrNotAvailable,
    NetworkDown,
    BrokenPipe,
    AlreadyExists,
    WouldBlock,
    NotADirectory,
    IsADirectory,
    DirectoryNotEmpty,
    ReadOnlyFilesystem,
    StaleNetworkFileHandle,
    InvalidInput,
    InvalidData,
    TimedOut,
    WriteZero,
    StorageFull,
    NotSeekable,
    QuotaExceeded,
    FileTooLarge,
    ResourceBusy,
    ExecutableFileBusy,
    Deadlock,
    CrossesDevices,
    TooManyLinks,
    InvalidFilename,
    ArgumentListTooLong,
    Interrupted,
    Unsupported,
    UnexpectedEof,
    OutOfMemory,
    Other,
    FilesystemLoop,
    InProgress,
    /// None of the others, and none that has a name.
    Uncategorized,
}

/// Why an operation of the engine failed.
#[derive(Debug)]
pub enum Error {
    /// A record's payload passes the size that one record may have.
    PayloadTooBig,
    /// Fewer bytes than a record header.
    RecordTooShort,
    /// The type byte is not that of a record.
    NotARecord,
    /// A record is longer or shorter than its length field says.
    RecordLengthWrong,
    /// The target cannot hold the encoded record.
    NoSpaceForRecord,
    /// A buffer is too short for what is read from it or written to it.
    NoStorageSpace,
    /// Fewer bytes than an empty transaction takes.
    TransactionTooShort,
    /// A length field that no frame can have.
    FrameLengthOutOfRange { len: u32 },
    /// The length field passes the end of the buffer.
    FrameOverrunsBuffer,
    /// The stored hash is not that of the bytes before it.
    FrameCorrupted,
    /// The payload makes a frame that passes the largest size.
    FrameTooBig { len: u32 },
    /// The target cannot hold the frame.
    FrameBufferTooSmall { have: usize, need: u32 },
    /// Fewer bytes than an empty frame takes.
    FrameTooShort,
    /// The bytes do not start a frame.
    FrameMagicMissing,
    /// The block's first byte is not the magic byte.
    BlockMagicMismatch,
    /// The block's stored hash is not that of its header and data.
    BlockHashMismatch,
    /// The block cannot hold its own header.
    BlockTooShort,
    /// The block is not as long as a block must be.
    BlockLengthWrong,
    /// A scan was given no buffer to read into.
    ScanBufferEmpty,
    /// A scan was told to go on at an offset that it is already at or past.
    ScanNotAdvancing { resume: u64, pos: u64 },
    /// The log cannot be cut at an offset past its end.
    TruncatePastEnd { offset: u64, durable: u64 },
    /// The writer takes no batch of more bytes than the largest frame.
    AppendTooBig,
    /// The writer is gone.
    WriterStopped,
    /// The file does not end in the footer of a sealed file.
    FileNotSealed,
    /// The file's bytes do not have the hash in its footer.
    FileCorrupted,
    /// Page 0 is not an index header.
    NotAnIndex,
    /// The header has another format version.
    IndexVersion { version: u32, expected: u32 },
    /// The header speaks of pages of another size.
    IndexPageSize { size: u32, expected: u32 },
    /// The index was not closed.
    IndexDirty,
    /// The index belongs to another file.
    IndexStale { built_len: u64, built_frames: u32, source_len: u64, source_frames: u32 },
    /// The same key twice in a bulk load.
    DuplicateKey { key: u32 },
    /// A key that came after a larger one in a bulk load.
    UnsortedKey { key: u32, last: u32 },
    /// The tree is too high to grow.
    HeightCeiling,
    /// What an outside service reported, with the code that the operating system gave, if it gave
    /// one.
    Outside { kind: ErrorKind, code: Option<i32>, message: String },
}

impl Error {
    /// The class of this error.
    pub open spec fn spec_kind(&self) -> ErrorKind {
        match self {
            Error::PayloadTooBig | Error::NoSpaceForRecord | Error::NoStorageSpace => {
                ErrorKind::StorageFull
            },
            Error::RecordTooShort
            | Error::RecordLengthWrong
            | Error::TransactionTooShort
            | Error::FrameOverrunsBuffer
            | Error::FrameTooShort => ErrorKind::UnexpectedEof,
            Error::NotARecord
            | Error::FrameLengthOutOfRange { .. }
            | Error::FrameCorrupted
            | Error::FrameMagicMissing
            | Error::FileNotSealed
            | Error::FileCorrupted => ErrorKind::InvalidData,
            Error::FrameTooBig { .. }
            | Error::FrameBufferTooSmall { .. }
            | Error::ScanBufferEmpty
            | Error::ScanNotAdvancing { .. }
            | Error::TruncatePastEnd { .. }
            | Error::AppendTooBig => ErrorKind::InvalidInput,
            Error::BlockTooShort => ErrorKind::WriteZero,
            Error::Outside { kind, .. } => *kind,
            _ => ErrorKind::Other,
        }
    }

    /// The class of this error.
    pub fn kind(&self) -> (kind: ErrorKind)
        ensures
            kind == self.spec_kind(),
    {
        match self {
            Error::PayloadTooBig | Error::NoSpaceForRecord | Error::NoStorageSpace => {
                ErrorKind::StorageFull
            },
            Error::RecordTooShort
            | Error::RecordLengthWrong
            | Error::TransactionTooShort
            | Error::FrameOverrunsBuffer
            | Error::FrameTooShort => ErrorKind::UnexpectedEof,
            Error::NotARecord
            | Error::FrameLengthOutOfRange { .. }
            | Error::FrameCorrupted
            | Error::FrameMagicMissing
            | Error::FileNotSealed
            | Error::FileCorrupted => ErrorKind::InvalidData,
            Error::FrameTooBig { .. }
            | Error::FrameBufferTooSmall { .. }
            | Error::ScanBufferEmpty
            | Error::ScanNotAdvancing { .. }
            | Error::TruncatePastEnd { .. }
            | Error::AppendTooBig => ErrorKind::InvalidInput,
            Error::BlockTooShort => ErrorKind::WriteZero,
            Error::Outside { kind, .. } => *kind,
            _ => ErrorKind::Other,
        }
    }

    /// The code that the operating system gave.
    pub open spec fn spec_code(&self) -> Option<i32> {
        match self {
            Error::Outside { code, .. } => *code,
            _ => None,
        }
    }

    /// The code that the operating system gave.
    pub fn code(&self) -> (code: Option<i32>)
        ensures
            code == self.spec_code(),
    {
        match self {
            Error::Outside { code, .. } => *code,
            _ => None,
        }
    }

    /// What this error says.
    pub open spec fn text(&self) -> Seq<char> {
        match self {
            Error::PayloadTooBig => "payload to big"@,
            Error::RecordTooShort => "record shorter than a header"@,
            Error::NotARecord => "type field is not record type"@,
            Error::RecordLengthWrong => "record data len is false"@,
            Error::NoSpaceForRecord => "not enough space for record"@,
            Error::NoStorageSpace => "no storage space"@,
            Error::TransactionTooShort => "transaction shorter than a header"@,
            Error::FrameLengthOutOfRange { len } => "frame length "@ + decimal(*len as int)
                + " out of range"@,
            Error::FrameOverrunsBuffer => "frame length overruns the buffer"@,
            Error::FrameCorrupted => "frame corrupted hashes did not match"@,
            Error::FrameTooBig { len } => "total frame size exceeded: "@ + decimal(*len as int)
                + " Byte"@,
            Error::FrameBufferTooSmall { have, need } => "frame buffer too small: "@ + decimal(
                *have as int,
            ) + " Byte for a "@ + decimal(*need as int) + " Byte frame"@,
            Error::FrameTooShort => "frame shorter than a header"@,
            Error::FrameMagicMissing => "frame did not start with magic number"@,
            Error::BlockMagicMismatch => "magic byte does not match"@,
            Error::BlockHashMismatch => "hashes do not match"@,
            Error::BlockTooShort => "failed to write whole buffer"@,
            Error::BlockLengthWrong => "could not convert slice to array"@,
            Error::ScanBufferEmpty => "scan buffer must be non-empty"@,
            Error::ScanNotAdvancing { resume, pos } => "scan resumed at "@ + decimal(*resume as int)
                + ", which is not past "@ + decimal(*pos as int) + ""@,
            Error::TruncatePastEnd { offset, durable } => "cannot truncate to "@ + decimal(
                *offset as int,
            ) + ", past the durable length "@ + decimal(*durable as int) + ""@,
            Error::AppendTooBig => "frame to big"@,
            Error::WriterStopped => "storage writer stopped"@,
            Error::FileNotSealed => "invalid data"@,
            Error::FileCorrupted => "invalid data"@,
            Error::NotAnIndex => "not a pk index file"@,
            Error::IndexVersion { version, expected } => "index format version "@ + decimal(
                *version as int,
            ) + ", expected "@ + decimal(*expected as int) + ""@,
            Error::IndexPageSize { size, expected } => "index page size "@ + decimal(*size as int)
                + ", expected "@ + decimal(*expected as int) + ""@,
            Error::IndexDirty => "index was not closed cleanly, rebuild it"@,
            Error::IndexStale { built_len, built_frames, source_len, source_frames } => {
                "index is stale: built over "@ + decimal(*built_len as int) + " bytes / "@
                    + decimal(*built_frames as int) + " frames, source is "@ + decimal(
                    *source_len as int,
                ) + " bytes / "@ + decimal(*source_frames as int) + " frames"@
            },
            Error::DuplicateKey { key } => "duplicate pk "@ + decimal(*key as int)
                + " in index build"@,
            Error::UnsortedKey { key, last } => "pk "@ + decimal(*key as int)
                + " arrived after "@ + decimal(*last as int) + ", input is not sorted"@,
            Error::HeightCeiling => "pk index exceeded its height ceiling"@,
            Error::Outside { message, .. } => message@,
        }
    }

    /// What this error says.
    pub fn message(&self) -> (text: String)
        ensures
            text@ == self.text(),
    {
        match self {
            Error::PayloadTooBig => "payload to big".to_owned(),
            Error::RecordTooShort => "record shorter than a header".to_owned(),
            Error::NotARecord => "type field is not record type".to_owned(),
            Error::RecordLengthWrong => "record data len is false".to_owned(),
            Error::NoSpaceForRecord => "not enough space for record".to_owned(),
            Error::NoStorageSpace => "no storage space".to_owned(),
            Error::TransactionTooShort => "transaction shorter than a header".to_owned(),
            Error::FrameLengthOutOfRange { len } => {
                with_number("frame length ", *len as u64, " out of range")
            },
            Error::FrameOverrunsBuffer => "frame length overruns the buffer".to_owned(),
            Error::FrameCorrupted => "frame corrupted hashes did not match".to_owned(),
            Error::FrameTooBig { len } => {
                with_number("total frame size exceeded: ", *len as u64, " Byte")
            },
            Error::FrameBufferTooSmall { have, need } => {
                two_numbers(
                    "frame buffer too small: ",
                    *have as u64,
                    " Byte for a ",
                    *need as u64,
                    " Byte frame",
                )
            },
            Error::FrameTooShort => "frame shorter than a header".to_owned(),
            Error::FrameMagicMissing => "frame did not start with magic number".to_owned(),
            Error::BlockMagicMismatch => "magic byte does not match".to_owned(),
            Error::BlockHashMismatch => "hashes do not match".to_owned(),
            Error::BlockTooShort => "failed to write whole buffer".to_owned(),
            Error::BlockLengthWrong => "could not convert slice to array".to_owned(),
            Error::ScanBufferEmpty => "scan buffer must be non-empty".to_owned(),
            Error::ScanNotAdvancing { resume, pos } => {
                two_numbers("scan resumed at ", *resume, ", which is not past ", *pos, "")
            },
            Error::TruncatePastEnd { offset, durable } => {
                two_numbers(
                    "cannot truncate to ",
                    *offset,
                    ", past the durable length ",
                    *durable,
                    "",
                )
            },
            Error::AppendTooBig => "frame to big".to_owned(),
            Error::WriterStopped => "storage writer stopped".to_owned(),
            Error::FileNotSealed => "invalid data".to_owned(),
            Error::FileCorrupted => "invalid data".to_owned(),
            Error::NotAnIndex => "not a pk index file".to_owned(),
            Error::IndexVersion { version, expected } => {
                two_numbers(
                    "index format version ",
                    *version as u64,
                    ", expected ",
                    *expected as u64,
                    "",
                )
            },
            Error::IndexPageSize { size, expected } => {
                two_numbers("index page size ", *size as u64, ", expected ", *expected as u64, "")
            },
            Error::IndexDirty => "index was not closed cleanly, rebuild it".to_owned(),
            Error::IndexStale { built_len, built_frames, source_len, source_frames } => {
                let mut text = two_numbers(
                    "index is stale: built over ",
                    *built_len,
                    " bytes / ",
                    *built_frames as u64,
                    " frames, source is ",
                );
                push_decimal(&mut text, *source_len);
                text.append(" bytes / ");
                push_decimal(&mut text, *source_frames as u64);
                text.append(" frames");
                text
            },
            Error::DuplicateKey { key } => {
                with_number("duplicate pk ", *key as u64, " in index build")
            },
            Error::UnsortedKey { key, last } => {
                two_numbers(
                    "pk ",
                    *key as u64,
                    " arrived after ",
                    *last as u64,
                    ", input is not sorted",
                )
            },
            Error::HeightCeiling => "pk index exceeded its height ceiling".to_owned(),
            Error::Outside { message, .. } => message.clone(),
        }
    }
}

fn two_numbers(head: &str, a: u64, mid: &str, b: u64, tail: &str) -> (text: String)
    ensures
        text@ == head@ + decimal(a as int) + mid@ + decimal(b as int) + tail@,
{
    let mut text = with_number(head, a, mid);
    push_decimal(&mut text, b);
    text.append(tail);
    text
}

} // verus!
