//! A composable reader that treats `0x1A` as an end-of-file marker.
//!
//! Historically, `0x1A` (commonly referred to as `CTRL-Z`, `^Z`, or a
//! "substitute character") was used in old systems to explicitly mark the end
//! of a file. While modern systems no longer require this practice, some
//! legacy files still contain this byte to mark the end of a file. This
//! library provides a reader, [`ReadToCtrlZ`](reader::ReadToCtrlZ), that
//! treats `0x1A` as the end of a file rather than reading it as a regular
//! byte.
//!
//! The reader wraps any byte source that offers the copy-read capability
//! ([`CopyRead`](source::CopyRead)) or the buffered peek capability
//! ([`PeekRead`](source::PeekRead)), and truncates the logical stream at the
//! first occurrence of the marker: everything from that byte onward is
//! invisible to the caller, and once the marker has been observed every later
//! read reports end-of-stream.

pub mod mem;
pub mod reader;
pub mod sentinel;
pub mod source;

pub use mem::MemReader;
pub use reader::ReadToCtrlZ;
pub use sentinel::SENTINEL;
pub use source::ByteSource;
pub use source::CopyRead;
pub use source::PeekRead;
pub use source::ReadError;
pub use source::peek_to_end;
pub use source::read_to_end;
