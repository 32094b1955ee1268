use concat_reader::error::Failure;
use concat_reader::file::{FileConcatReader, InnerReader, ReaderState};
use concat_reader::render::Render;
use concat_reader::source::{read_to_end, FileLike, Next, Source};
use concat_reader::{concat_path, ConcatRead, FileConcatRead};
use std::io::{self, ErrorKind, Read};
use std::path::{Path, PathBuf};

/// A file that lives in memory; which bytes it holds goes by its name.
struct Memory(&'static [u8]);

impl Source for Memory {
    fn read(&mut self, buf: &mut [u8]) -> Result<usize, Failure> {
        Source::read(&mut self.0, buf)
    }
}

impl FileLike for Memory {
    fn open(path: &PathBuf) -> Result<Self, Failure> {
        match path.to_str() {
            Some("test1.txt") => Ok(Memory(b"some\ntext\n")),
            Some("1byte") => Ok(Memory(b"1")),
            Some("2byte") => Ok(Memory(b"22")),
            Some("3byte") => Ok(Memory(b"333")),
            Some("4byte") => Ok(Memory(b"4444")),
            Some("empty") => Ok(Memory(b"")),
            Some("dir/other.test.txt") => Ok(Memory(b"here's ")),
            Some("locked") => {
                Err(failure(ErrorKind::PermissionDenied, "not for you"))
            }
            _ => Err(failure(ErrorKind::NotFound, "file missing")),
        }
    }
}

impl Render for Memory {
    fn render(&self) -> String {
        format!("{:?}", self.0)
    }
}

/// A file whose every second read fails.
struct Flaky {
    bytes: &'static [u8],
    calls: usize,
}

impl Source for Flaky {
    fn read(&mut self, buf: &mut [u8]) -> Result<usize, Failure> {
        self.calls += 1;
        if self.calls % 2 == 1 {
            Err(failure(ErrorKind::Interrupted, "try again"))
        } else {
            Source::read(&mut self.bytes, buf)
        }
    }
}

impl FileLike for Flaky {
    fn open(_path: &PathBuf) -> Result<Self, Failure> {
        Ok(Flaky { bytes: b"ab", calls: 0 })
    }
}

/// The failure that an I/O error of this kind and with this message is.
fn failure(kind: ErrorKind, message: &str) -> Failure {
    let error = io::Error::new(kind, message);
    Failure::new(error.kind(), message.to_string(), format!("{:?}", error))
}

/// Lets the provided methods of `std::io::Read` drive a source.
struct Std<'a, S>(&'a mut S);

impl<'a, S: Source> Read for Std<'a, S> {
    fn read(&mut self, buf: &mut [u8]) -> io::Result<usize> {
        match self.0.read(buf) {
            Ok(n) => Ok(n),
            Err(failure) => Err(io::Error::new(failure.kind, failure.description)),
        }
    }
}

fn paths(names: &[&str]) -> Vec<PathBuf> {
    names.iter().map(PathBuf::from).collect()
}

#[test]
fn reads_from_multiple_files() {
    let strs = &["1byte", "2byte", "3byte"];
    let mut reader: InnerReader<Memory> = InnerReader::new(paths(strs));

    let mut buf = [0; 5];
    Std(&mut reader).read_exact(&mut buf).unwrap();
    assert_eq!(&buf, b"12233");
    assert_eq!(
        reader.render(),
        "CatReader { curr: ReaderState::Open([51],\"3byte\"), rest: [] }"
    );
}

#[test]
fn init_next_reader_when_current_is_eof() {
    let strs = &["1byte", "2byte", "3byte"];
    let mut reader: InnerReader<Memory> = InnerReader::new(paths(strs));

    let mut buf = [0];
    assert_eq!(reader.read(&mut buf).unwrap(), 1);
    assert_eq!(&buf, b"1");

    assert_eq!(reader.file_path(), Some(&PathBuf::from("1byte")));

    assert_eq!(reader.read(&mut buf).unwrap(), 1);
    assert_eq!(&buf, b"2");

    assert_eq!(reader.file_path(), Some(&PathBuf::from("2byte")));
}

#[test]
fn fails_on_file_error() {
    let strs = &["1byte", "2byte", "404", "3byte", "4byte"];
    let mut reader: InnerReader<Memory> = InnerReader::new(paths(strs));

    let mut buf = Vec::new();
    assert!(Std(&mut reader).read_to_end(&mut buf).is_err());

    assert_eq!(buf, b"122");
    assert_eq!(reader.file_path(), Some(&PathBuf::from("404")));
}

#[test]
fn can_skip_and_continue() {
    let strs = &["404", "3byte", "4byte"];
    let mut reader: InnerReader<Memory> = InnerReader::new(paths(strs));

    let mut buf = Vec::new();
    assert!(Std(&mut reader).read_to_end(&mut buf).is_err());

    //skip to next reader
    reader.skip();
    assert!(Std(&mut reader).read_to_end(&mut buf).is_ok());
    assert_eq!(buf, b"3334444");
}

#[test]
fn fails_on_file_error2() {
    let strs = &["1byte", "2byte", "404", "3byte", "4byte"];
    let mut reader: InnerReader<Memory> = InnerReader::new(paths(strs));

    let mut buf = [0; 5];
    assert_eq!(reader.read(&mut buf).unwrap(), 1);
    assert_eq!(reader.read(&mut buf).unwrap(), 2);
    assert!(reader.read(&mut buf).is_err());
}

#[test]
fn can_debug_print() {
    let strs = &["dir/other.test.txt", "404", "test1.txt"];
    let mut reader: InnerReader<Memory> = InnerReader::new(paths(strs));

    assert_eq!(
        reader.render(),
        "CatReader { curr: ReaderState::Init(\"dir/other.test.txt\"), rest: [\"404\", \"test1.txt\"] }"
    );

    // read zero bytes no file has been opened
    let mut buf = [];
    assert_eq!(reader.read(&mut buf).unwrap(), 0);
    assert_eq!(
        reader.render(),
        "CatReader { curr: ReaderState::Init(\"dir/other.test.txt\"), rest: [\"404\", \"test1.txt\"] }"
    );

    // read one byte. File should be opened
    let mut buf = [0];
    assert_eq!(reader.read(&mut buf).unwrap(), 1);
    assert_eq!(buf, [104]);
    assert_eq!(
        reader.render(),
        "CatReader { curr: ReaderState::Open([101, 114, 101, 39, 115, 32],\"dir/other.test.txt\"), rest: [\"404\", \"test1.txt\"] }"
    );

    // read rest of files and fail because of missing file
    let mut buf = Vec::new();
    assert!(Std(&mut reader).read_to_end(&mut buf).is_err());
    assert_eq!(
        reader.render(),
        "CatReader { curr: ReaderState::Err(Custom { kind: NotFound, error: \"file missing\" },\"404\"), rest: [\"test1.txt\"] }"
    );

    assert!(Std(&mut reader).read_to_end(&mut buf).is_err());
    assert_eq!(
        reader.render(),
        "CatReader { curr: ReaderState::Err(Custom { kind: NotFound, error: \"file missing\" },\"404\"), rest: [\"test1.txt\"] }"
    );
    // we can skip the file if we want
    reader.skip();
    assert_eq!(
        reader.render(),
        "CatReader { curr: ReaderState::Init(\"test1.txt\"), rest: [] }"
    );

    assert_eq!(Std(&mut reader).read_to_end(&mut buf).unwrap(), 10);
    assert_eq!(buf, b"ere's some\ntext\n");
    assert_eq!(reader.render(), "CatReader { curr: ReaderState::Eof, rest: [] }");
}

#[test]
fn fails_then_skips_then_reads_on() {
    let names = &["1byte", "2byte", "404", "3byte", "4byte"];
    let mut reader: FileConcatReader<Memory> = FileConcatReader::new(paths(names));

    let mut buf = Vec::new();
    let error = Std(&mut reader).read_to_end(&mut buf).unwrap_err();
    assert_eq!(error.kind(), ErrorKind::NotFound);
    assert_eq!(error.to_string(), "file missing");
    assert_eq!(buf, b"122");
    assert_eq!(reader.file_path(), Some(&PathBuf::from("404")));

    assert!(reader.skip());
    let mut buf = Vec::new();
    assert_eq!(Std(&mut reader).read_to_end(&mut buf).unwrap(), 7);
    assert_eq!(buf, b"3334444");
}

#[test]
fn reading_in_order_yields_the_files_one_after_the_other() {
    let mut reader: FileConcatReader<Memory> =
        concat_path(paths(&["1byte", "2byte", "3byte", "4byte"]));
    let mut out = vec![0u8];
    assert_eq!(read_to_end(&mut reader, &mut out).unwrap(), 10);
    assert_eq!(out, b"\x001223334444");
    assert!(reader.current().is_none());
    assert_eq!(reader.file_path(), None);
}

#[test]
fn empty_buffer_opens_nothing() {
    let mut reader: FileConcatReader<Memory> = FileConcatReader::new(paths(&["404", "1byte"]));
    let mut none = [];
    for _ in 0..3 {
        assert_eq!(reader.read(&mut none).unwrap(), 0);
        assert!(reader.current().is_none());
        assert_eq!(reader.file_path(), Some(&PathBuf::from("404")));
        assert_eq!(
            reader.render(),
            "CatReader { curr: ReaderState::Init(\"404\"), rest: [\"1byte\"] }"
        );
    }
}

#[test]
fn empty_files_are_passed_over() {
    let names = &["empty", "empty", "1byte", "empty", "2byte", "empty"];
    let mut reader: InnerReader<Memory> = InnerReader::new(paths(names));
    let mut buf = [0u8; 8];
    assert_eq!(reader.read(&mut buf).unwrap(), 1);
    assert_eq!(buf[0], b'1');
    assert_eq!(reader.file_path(), Some(&PathBuf::from("1byte")));
    assert_eq!(reader.read(&mut buf).unwrap(), 2);
    assert_eq!(&buf[..2], b"22");
    assert_eq!(reader.file_path(), Some(&PathBuf::from("2byte")));
    assert_eq!(reader.read(&mut buf).unwrap(), 0);
    assert_eq!(reader.file_path(), None);
}

#[test]
fn failure_is_reported_until_skipped() {
    let mut reader: InnerReader<Memory> = InnerReader::new(paths(&["locked", "1byte"]));
    let mut buf = [0u8; 4];
    for _ in 0..4 {
        let failure = reader.read(&mut buf).unwrap_err();
        assert_eq!(failure.kind(), ErrorKind::PermissionDenied);
        assert_eq!(failure.description(), "not for you");
        assert_eq!(reader.file_path(), Some(&PathBuf::from("locked")));
        assert!(reader.current().is_none());
        assert_eq!(buf, [0u8; 4]);
    }
    // an empty buffer is still answered with no bytes
    assert_eq!(reader.read(&mut []).unwrap(), 0);
    assert_eq!(reader.file_path(), Some(&PathBuf::from("locked")));

    assert!(reader.skip());
    assert_eq!(reader.file_path(), Some(&PathBuf::from("1byte")));
    assert_eq!(reader.read(&mut buf).unwrap(), 1);
    assert_eq!(buf[0], b'1');
}

#[test]
fn skip_after_last_failure_ends_the_reader() {
    let mut reader: InnerReader<Memory> = InnerReader::new(paths(&["404"]));
    let mut buf = [0u8; 4];
    assert!(reader.read(&mut buf).is_err());
    assert!(!reader.skip());
    assert_eq!(reader.file_path(), None);
    assert_eq!(reader.read(&mut buf).unwrap(), 0);
    assert_eq!(reader.render(), "CatReader { curr: ReaderState::Eof, rest: [] }");
}

#[test]
fn skip_abandons_pending_and_open_files() {
    let mut reader: FileConcatReader<Memory> =
        FileConcatReader::new(paths(&["1byte", "4byte", "3byte"]));
    // the first file is never opened
    assert!(reader.skip());
    assert_eq!(reader.file_path(), Some(&PathBuf::from("4byte")));
    let mut buf = [0u8; 2];
    assert_eq!(reader.read(&mut buf).unwrap(), 2);
    assert_eq!(&buf, b"44");
    assert_eq!(reader.current().map(|open| open.0), Some(&b"44"[..]));
    // the second one is left half read
    assert!(reader.skip());
    assert!(reader.current().is_none());
    assert_eq!(reader.read(&mut buf).unwrap(), 2);
    assert_eq!(&buf, b"33");
    assert!(!reader.skip());
    assert!(!reader.skip());
}

#[test]
fn end_is_final() {
    let mut reader: InnerReader<Memory> = InnerReader::new(paths(&["1byte"]));
    let mut buf = [0u8; 4];
    assert_eq!(reader.read(&mut buf).unwrap(), 1);
    for _ in 0..5 {
        assert_eq!(reader.read(&mut buf).unwrap(), 0);
        assert!(reader.current().is_none());
        assert_eq!(reader.file_path(), None);
    }
    assert!(!reader.skip());
    assert_eq!(reader.read(&mut buf).unwrap(), 0);
}

#[test]
fn no_paths_is_the_end_at_once() {
    let mut reader: InnerReader<Memory> = InnerReader::new(Vec::new());
    let mut buf = [0u8; 4];
    assert_eq!(reader.read(&mut buf).unwrap(), 0);
    assert_eq!(reader.file_path(), None);
    assert!(!reader.skip());
    assert_eq!(reader.render(), "CatReader { curr: ReaderState::Eof, rest: [] }");
}

#[test]
fn failed_read_leaves_the_file_open() {
    let mut reader: InnerReader<Flaky> = InnerReader::new(paths(&["a", "b"]));
    let mut buf = [0u8; 1];
    let failure = reader.read(&mut buf).unwrap_err();
    assert_eq!(failure.kind(), ErrorKind::Interrupted);
    assert!(reader.current().is_some());
    assert_eq!(reader.file_path(), Some(&PathBuf::from("a")));
    // the same file answers the next read
    assert_eq!(reader.read(&mut buf).unwrap(), 1);
    assert_eq!(buf[0], b'a');
    assert_eq!(reader.file_path(), Some(&PathBuf::from("a")));
}

#[test]
fn state_follows_the_outcome_of_opening() {
    let open: ReaderState<Memory> = ReaderState::opened(PathBuf::from("x"), Ok(Memory(b"7")));
    assert!(matches!(open, ReaderState::Open(Memory(b"7"), ref path) if path == Path::new("x")));
    assert!(!open.is_init());

    let failure = failure(ErrorKind::NotFound, "gone");
    let failed: ReaderState<Memory> = ReaderState::opened(PathBuf::from("y"), Err(failure));
    assert!(!failed.is_init());
    let kept = failed.unwrap_err();
    assert_eq!(kept.kind(), ErrorKind::NotFound);
    assert_eq!(kept.description(), "gone");
    assert_eq!(
        failed.render(),
        "ReaderState::Err(Custom { kind: NotFound, error: \"gone\" },\"y\")"
    );
}

#[test]
fn state_from_path() {
    let init: ReaderState<Memory> = ReaderState::from(Some(PathBuf::from("a b")));
    assert!(init.is_init());
    assert_eq!(init.render(), "ReaderState::Init(\"a b\")");
    let eof: ReaderState<Memory> = ReaderState::from(None);
    assert!(!eof.is_init());
    assert_eq!(eof.render(), "ReaderState::Eof");
}

#[test]
fn state_opens_on_demand() {
    let mut state: ReaderState<Memory> = ReaderState::from(Some(PathBuf::from("2byte")));
    assert!(state.open().is_ok());
    assert!(matches!(state, ReaderState::Open(Memory(b"22"), _)));

    let mut state: ReaderState<Memory> = ReaderState::from(Some(PathBuf::from("404")));
    let failure = state.open().unwrap_err();
    assert_eq!(failure.kind(), ErrorKind::NotFound);
    assert_eq!(failure.description(), "file missing");
    assert!(matches!(state, ReaderState::Failed(_, ref path) if path == Path::new("404")));
}

#[test]
fn state_reads() {
    let mut buf = [0u8; 3];
    let mut eof: ReaderState<Memory> = ReaderState::Eof;
    assert_eq!(eof.read(&mut buf).unwrap(), 0);

    let mut init: ReaderState<Memory> = ReaderState::Init(PathBuf::from("4byte"));
    assert_eq!(init.read(&mut buf).unwrap(), 3);
    assert_eq!(&buf, b"444");
    assert_eq!(init.read(&mut buf).unwrap(), 1);
    assert_eq!(init.read(&mut buf).unwrap(), 0);
    // a state does not move on by itself
    assert!(matches!(init, ReaderState::Open(_, _)));
}

#[test]
fn settle_decides_what_follows_a_read() {
    let mut reader: InnerReader<Memory> = InnerReader::new(paths(&["1byte", "2byte"]));
    // bytes were read: the read is over
    assert!(matches!(reader.settle(Ok(3)), Next::Done(Ok(3))));
    assert_eq!(reader.file_path(), Some(&PathBuf::from("1byte")));
    // a failure: the read is over, the reader stays
    let failure = failure(ErrorKind::Other, "bad");
    assert!(matches!(reader.settle(Err(failure)), Next::Done(Err(_))));
    assert_eq!(reader.file_path(), Some(&PathBuf::from("1byte")));
    // the source is at its end and another follows: read again
    assert!(matches!(reader.settle(Ok(0)), Next::Again));
    assert_eq!(reader.file_path(), Some(&PathBuf::from("2byte")));
    // the last source is at its end: the read is over with no bytes
    assert!(matches!(reader.settle(Ok(0)), Next::Done(Ok(0))));
    assert_eq!(reader.file_path(), None);
}
