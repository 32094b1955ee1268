use concat_reader::error::Failure;
use concat_reader::read::ConcatReader;
use concat_reader::render::Render;
use concat_reader::source::{read_to_end, Next, Source};
use concat_reader::ConcatRead;
use std::io::{self, ErrorKind, Read};

/// The failure that an I/O error of this kind and with this message is.
fn failure(kind: ErrorKind, message: &str) -> Failure {
    let error = io::Error::new(kind, message);
    Failure::new(error.kind(), message.to_string(), format!("{:?}", error))
}

/// Lets the provided methods of `std::io::Read` drive a source.
struct Std<'a, S>(&'a mut S);

impl<'a, S: Source> Read for Std<'a, S> {
    fn read(&mut self, buf: &mut [u8]) -> io::Result<usize> {
        match self.0.read(buf) {
            Ok(n) => Ok(n),
            Err(failure) => Err(io::Error::new(failure.kind, failure.description)),
        }
    }
}

/// A source that fails once, then delivers its bytes.
struct Stutter {
    bytes: &'static [u8],
    failed: bool,
}

impl Source for Stutter {
    fn read(&mut self, buf: &mut [u8]) -> Result<usize, Failure> {
        if !self.failed {
            self.failed = true;
            return Err(failure(ErrorKind::TimedOut, "slow"));
        }
        Source::read(&mut self.bytes, buf)
    }
}

#[test]
fn reads_from_multiple_readers() {
    let bytes: Vec<&[u8]> = vec![b"1", b"22", b"333", b"4444"];
    let mut reader = ConcatReader::new(bytes);

    let mut buf = [0; 5];
    Std(&mut reader).read_exact(&mut buf).unwrap();
    assert_eq!(&buf, b"12233");
}

#[test]
fn reading_to_the_end_yields_all_sources_in_order() {
    let bytes: Vec<&[u8]> = vec![b"1", b"22", b"", b"333", b"", b""];
    let mut reader = concat_reader::concat(bytes);
    let mut out = b"0".to_vec();
    assert_eq!(read_to_end(&mut reader, &mut out).unwrap(), 6);
    assert_eq!(out, b"0122333");
    assert!(reader.current().is_none());
    assert_eq!(read_to_end(&mut reader, &mut out).unwrap(), 0);
    assert_eq!(out, b"0122333");
}

#[test]
fn reading_to_the_end_of_a_long_source() {
    let long: Vec<u8> = (0..10_000u32).map(|i| (i % 251) as u8).collect();
    let mut source: &[u8] = &long;
    let mut out = Vec::new();
    assert_eq!(read_to_end(&mut source, &mut out).unwrap(), 10_000);
    assert_eq!(out, long);
    assert!(source.is_empty());
}

#[test]
fn a_read_stays_within_one_source() {
    let bytes: Vec<&[u8]> = vec![b"ab", b"cdef"];
    let mut reader = concat_reader::concat(bytes);
    let mut buf = [0u8; 4];
    assert_eq!(reader.read(&mut buf).unwrap(), 2);
    assert_eq!(buf, [b'a', b'b', 0, 0]);
    assert_eq!(reader.read(&mut buf).unwrap(), 4);
    assert_eq!(&buf, b"cdef");
    assert_eq!(reader.read(&mut buf).unwrap(), 0);
    assert_eq!(&buf, b"cdef");
}

#[test]
fn slice_reads_move_the_slice_forward() {
    let mut source: &[u8] = b"hello";
    let mut buf = [0u8; 3];
    assert_eq!(Source::read(&mut source, &mut buf).unwrap(), 3);
    assert_eq!(&buf, b"hel");
    assert_eq!(source, b"lo");
    assert_eq!(Source::read(&mut source, &mut buf).unwrap(), 2);
    assert_eq!(&buf, b"lol");
    assert_eq!(Source::read(&mut source, &mut buf).unwrap(), 0);
    assert_eq!(Source::read(&mut source, &mut []).unwrap(), 0);
}

#[test]
fn empty_sources_are_passed_over() {
    let bytes: Vec<&[u8]> = vec![b"", b"", b"x", b""];
    let mut reader = ConcatReader::new(bytes);
    let mut buf = [0u8; 2];
    assert_eq!(reader.read(&mut buf).unwrap(), 1);
    assert_eq!(buf[0], b'x');
    assert_eq!(reader.read(&mut buf).unwrap(), 0);
    assert!(reader.current().is_none());
}

#[test]
fn empty_buffer_moves_to_no_other_source() {
    let bytes: Vec<&[u8]> = vec![b"", b"x"];
    let mut reader = ConcatReader::new(bytes);
    assert_eq!(reader.read(&mut []).unwrap(), 0);
    assert_eq!(reader.current(), Some(&&b""[..]));
    assert_eq!(reader.render(), "Concat { curr: Some([]), rest: [[120]] }");
}

#[test]
fn skip_moves_to_the_next_source() {
    let bytes: Vec<&[u8]> = vec![b"some string", b"another string"];
    let mut reader = concat_reader::concat(bytes);
    let mut buf = [0u8; 4];
    Std(&mut reader).read_exact(&mut buf).unwrap();
    assert_eq!(&buf, b"some");
    assert!(reader.skip());
    Std(&mut reader).read_exact(&mut buf).unwrap();
    assert_eq!(&buf, b"anot");
    assert!(!reader.skip());
    assert!(reader.current().is_none());
    assert_eq!(reader.read(&mut buf).unwrap(), 0);
    assert!(!reader.skip());
}

#[test]
fn no_sources_is_the_end_at_once() {
    let mut reader: ConcatReader<&[u8]> = ConcatReader::new(Vec::new());
    let mut buf = [0u8; 2];
    assert_eq!(reader.read(&mut buf).unwrap(), 0);
    assert!(reader.current().is_none());
    assert!(!reader.skip());
    assert_eq!(reader.render(), "Concat { curr: None, rest: [] }");
}

#[test]
fn failed_read_is_passed_on_and_can_be_retried() {
    let mut reader = ConcatReader::new(vec![
        Stutter { bytes: b"ab", failed: false },
        Stutter { bytes: b"c", failed: false },
    ]);
    let mut buf = [0u8; 4];
    let failure = reader.read(&mut buf).unwrap_err();
    assert_eq!(failure.kind(), ErrorKind::TimedOut);
    assert_eq!(failure.description(), "slow");
    assert_eq!(reader.read(&mut buf).unwrap(), 2);
    assert_eq!(&buf[..2], b"ab");
    // the end of the first source leads to the second, which fails at first
    assert!(reader.read(&mut buf).is_err());
    assert_eq!(reader.read(&mut buf).unwrap(), 1);
    assert_eq!(buf[0], b'c');
    assert_eq!(reader.read(&mut buf).unwrap(), 0);
}

#[test]
fn settle_decides_what_follows_a_read_from_a_source() {
    let bytes: Vec<&[u8]> = vec![b"a", b"b"];
    let mut reader = ConcatReader::new(bytes);
    assert!(matches!(reader.settle(Ok(1)), Next::Done(Ok(1))));
    assert_eq!(reader.current(), Some(&&b"a"[..]));
    assert!(matches!(reader.settle(Ok(0)), Next::Again));
    assert_eq!(reader.current(), Some(&&b"b"[..]));
    let failure = failure(ErrorKind::Other, "bad");
    assert!(matches!(reader.settle(Err(failure)), Next::Done(Err(_))));
    assert_eq!(reader.current(), Some(&&b"b"[..]));
    assert!(matches!(reader.settle(Ok(0)), Next::Done(Ok(0))));
    assert!(reader.current().is_none());
}

/// A source that fails whenever it is asked.
struct Broken;

impl Source for Broken {
    fn read(&mut self, _buf: &mut [u8]) -> Result<usize, Failure> {
        Err(failure(ErrorKind::BrokenPipe, "broken"))
    }
}

#[test]
fn empty_buffer_asks_no_source() {
    let mut reader = ConcatReader::new(vec![Broken, Broken]);
    assert_eq!(reader.read(&mut []).unwrap(), 0);
    assert!(reader.current().is_some());
    let failure = reader.read(&mut [0u8; 1]).unwrap_err();
    assert_eq!(failure.kind(), ErrorKind::BrokenPipe);
    assert!(reader.skip());
    assert!(!reader.skip());
}

#[test]
fn empty_sources_are_passed_over_in_one_read() {
    let bytes: Vec<&[u8]> = vec![b"", b"", b"ab"];
    let mut reader = ConcatReader::new(bytes);
    let mut buf = [0u8; 4];
    assert_eq!(reader.read(&mut buf).unwrap(), 2);
    assert_eq!(&buf[..2], b"ab");
    assert_eq!(reader.read(&mut buf).unwrap(), 0);
}

#[test]
fn readers_are_written_out() {
    let bytes: Vec<&[u8]> = vec![b"1", b"22", b"333"];
    let reader = ConcatReader::new(bytes);
    assert_eq!(
        reader.render(),
        "Concat { curr: Some([49]), rest: [[50, 50], [51, 51, 51]] }"
    );
}

#[test]
fn failures_are_written_out() {
    let failure = failure(ErrorKind::NotFound, "say \"what\"?");
    assert_eq!(
        failure.render(),
        "Custom { kind: NotFound, error: \"say \\\"what\\\"?\" }"
    );
    let again = failure.replay();
    assert_eq!(again.kind(), ErrorKind::NotFound);
    assert_eq!(again.description(), "say \"what\"?");
    assert_eq!(failure.kind(), again.kind);
}
