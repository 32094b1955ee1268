//! Readers that present an ordered collection of byte sources as one stream.
//!
//! `ConcatReader` chains sources that are already open. `FileConcatReader`
//! chains sources named by paths, and opens each only when its first byte is
//! asked for.

use crate::file::Cursor;
use crate::read::Chain;
use crate::source::{FileLike, Source};
use std::path::PathBuf;
use vstd::prelude::*;

pub mod error;
pub mod file;
pub mod read;
pub mod render;
pub mod source;

pub use crate::file::FileConcatReader;
pub use crate::read::ConcatReader;

verus! {

/// Chains sources that are already open into one reader, which delivers the
/// bytes of the first source, then those of the second, and so on.
pub fn concat<R: Source>(items: Vec<R>) -> (reader: ConcatReader<R>)
    ensures
        reader@ == Chain::start(items@),
        reader@.wf(),
{
    ConcatReader::new(items)
}

/// Chains the files at the given paths into one reader, which opens each file
/// only when it gets to it.
pub fn concat_path<R: FileLike>(items: Vec<PathBuf>) -> (reader: FileConcatReader<R>)
    ensures
        reader@ == Cursor::<R>::start(items@),
        reader@.wf(),
{
    FileConcatReader::new(items)
}

/// A source made of several sources read one after the other, which can tell
/// the one it is at and abandon it for the next.
pub trait ConcatRead: Source {
    type Item;

    /// How many sources are still to be read, the current one included, where
    /// the reader knows. A reader that does not say otherwise knows nothing,
    /// and nothing is assumed of what its methods return.
    open spec fn sources_left(&self) -> Option<nat> {
        None
    }

    /// Abandons the current source and moves to the next one. Returns whether
    /// there was a next one.
    fn skip(&mut self) -> (more: bool)
        ensures
            old(self).sources_left() matches Some(left) ==> {
                &&& final(self).sources_left() == Some(
                    if left == 0 {
                        0nat
                    } else {
                        (left - 1) as nat
                    },
                )
                &&& more == (left > 1)
            },
    ;

    /// The source being read from, if one is open.
    fn current(&self) -> (item: Option<&Self::Item>)
        ensures
            self.sources_left() == Some(0nat) ==> item is None,
    ;
}

/// A `ConcatRead` whose sources are named by paths.
pub trait FileConcatRead: ConcatRead {
    /// The path of the source that the reader is at, whether it is open
    /// already, still to be opened, or could not be opened.
    fn file_path(&self) -> (path: Option<&PathBuf>)
        ensures
            self.sources_left() == Some(0nat) ==> path is None,
    ;
}

} // verus!
