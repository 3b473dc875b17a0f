use ctrl_z::ByteSource;
use ctrl_z::CopyRead;
use ctrl_z::MemReader;
use ctrl_z::PeekRead;
use ctrl_z::ReadError;
use ctrl_z::ReadToCtrlZ;
use ctrl_z::SENTINEL;
use ctrl_z::peek_to_end;
use ctrl_z::read_to_end;
use vstd::seq::Seq;

#[test]
fn sentinel_value() {
    assert_eq!(SENTINEL, 0x1a);
}

#[test]
fn copy_read_passes_sentinel_free_input_through() {
    // A stream without the sentinel is read back unchanged, even across
    // several chunked read calls.
    let data: Vec<u8> = (0u8..200).filter(|b| *b != SENTINEL).collect();
    let mut output = Vec::new();
    let mut reader = ReadToCtrlZ::new(MemReader::new(data.clone()));

    assert_eq!(read_to_end(&mut reader, &mut output).unwrap(), data.len());
    assert_eq!(output, data);
}

#[test]
fn copy_read_cuts_at_sentinel_across_chunks() {
    // The sentinel sits beyond the drain helper's chunk size, so the cut
    // happens in a later read call; everything after it stays invisible.
    let mut data = vec![b'a'; 40];
    data.push(SENTINEL);
    data.extend_from_slice(b"tail");
    let mut output = Vec::new();
    let mut reader = ReadToCtrlZ::new(MemReader::new(data));

    assert_eq!(read_to_end(&mut reader, &mut output).unwrap(), 40);
    assert_eq!(output, vec![b'a'; 40]);
    assert_eq!(read_to_end(&mut reader, &mut output).unwrap(), 0);
}

#[test]
fn copy_read_immediate_sentinel_stays_empty() {
    let mut output = Vec::new();
    let mut reader = ReadToCtrlZ::new(MemReader::new(b"\x1abar".to_vec()));

    assert_eq!(read_to_end(&mut reader, &mut output).unwrap(), 0);
    assert_eq!(output, b"");
    assert_eq!(read_to_end(&mut reader, &mut output).unwrap(), 0);
    assert_eq!(output, b"");
}

#[test]
fn read_empty_input() {
    let mut output = Vec::new();
    let mut reader = ReadToCtrlZ::new(MemReader::new(Vec::new()));

    assert_eq!(read_to_end(&mut reader, &mut output).unwrap(), 0);
    assert_eq!(output, b"");
}

#[test]
fn read_sentinel_only() {
    let mut output = Vec::new();
    let mut reader = ReadToCtrlZ::new(MemReader::new(vec![SENTINEL]));

    assert_eq!(read_to_end(&mut reader, &mut output).unwrap(), 0);
    assert_eq!(output, b"");
}

#[test]
fn read_into_empty_buffer_returns_zero() {
    let mut reader = ReadToCtrlZ::new(MemReader::new(b"foo".to_vec()));
    let mut buf = Vec::new();

    // A zero-length destination produces zero bytes without consuming any.
    assert_eq!(reader.read(&mut buf).unwrap(), 0);

    let mut output = Vec::new();
    assert_eq!(read_to_end(&mut reader, &mut output).unwrap(), 3);
    assert_eq!(output, b"foo");
}

#[test]
fn peek_matches_copy_read() {
    // Draining through peek/consume reconstructs the same output as the
    // copy-read contract applied to the same underlying data.
    for data in [
        b"foo\x1abar".to_vec(),
        b"foo".to_vec(),
        b"\x1abar".to_vec(),
        Vec::new(),
        b"a long stream of sentinel-free bytes to drain".to_vec(),
    ] {
        let mut by_copy = Vec::new();
        let mut by_peek = Vec::new();
        let mut copy_reader = ReadToCtrlZ::new(MemReader::new(data.clone()));
        let mut peek_reader = ReadToCtrlZ::new(MemReader::new(data));

        let n_copy = read_to_end(&mut copy_reader, &mut by_copy).unwrap();
        let n_peek = peek_to_end(&mut peek_reader, &mut by_peek).unwrap();

        assert_eq!(by_copy, by_peek);
        assert_eq!(n_copy, n_peek);
    }
}

#[test]
fn peek_consume_steps_to_termination() {
    let mut reader = ReadToCtrlZ::new(MemReader::new(b"ab\x1acd".to_vec()));

    assert_eq!(reader.fill_buf().unwrap(), b"ab");
    reader.consume(1);
    assert_eq!(reader.fill_buf().unwrap(), b"b");
    reader.consume(1);
    assert_eq!(reader.fill_buf().unwrap(), b"");
    assert_eq!(reader.fill_buf().unwrap(), b"");
}

#[test]
fn peek_partial_consume_without_sentinel() {
    let mut reader = ReadToCtrlZ::new(MemReader::new(b"foobar".to_vec()));

    assert_eq!(reader.fill_buf().unwrap(), b"foobar");
    reader.consume(2);
    assert_eq!(reader.fill_buf().unwrap(), b"obar");
}

struct FailingReader;

impl ByteSource for FailingReader {
    // The model of a byte source is ghost-only: it is never evaluated at
    // run time.
    fn remaining(&self) -> Seq<u8> {
        unreachable!()
    }
}

impl CopyRead for FailingReader {
    fn read(&mut self, _buf: &mut Vec<u8>) -> Result<usize, ReadError> {
        Err(ReadError::InnerSourceError)
    }
}

impl PeekRead for FailingReader {
    fn fill_buf(&mut self) -> Result<Vec<u8>, ReadError> {
        Err(ReadError::InnerSourceError)
    }

    fn consume(&mut self, _amount: usize) {}
}

#[test]
fn inner_error_passes_through_unchanged() {
    let mut reader = ReadToCtrlZ::new(FailingReader);
    let mut buf = vec![0u8; 4];

    assert_eq!(reader.read(&mut buf).unwrap_err(), ReadError::InnerSourceError);
    assert_eq!(reader.fill_buf().unwrap_err(), ReadError::InnerSourceError);
    assert_eq!(
        reader.read(&mut buf).unwrap_err().message(),
        "inner source reported an error",
    );
}

#[test]
fn mem_reader_produces_its_buffer() {
    let mut source = MemReader::new(b"abc".to_vec());
    let mut output = Vec::new();

    assert_eq!(read_to_end(&mut source, &mut output).unwrap(), 3);
    assert_eq!(output, b"abc");

    let mut source = MemReader::new(b"abc".to_vec());
    assert_eq!(source.fill_buf().unwrap(), b"abc");
    source.consume(2);
    assert_eq!(source.fill_buf().unwrap(), b"c");
}
