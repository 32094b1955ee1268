//! Text for diagnostics: how readers and what they hold are written out.

use crate::error::Failure;
use std::collections::VecDeque;
use std::path::PathBuf;
use vstd::prelude::*;
use vstd::string::StringExecFns;

verus! {

/// A value that can be written out for diagnostics.
///
/// A value whose text is fixed by the value alone says so through `text`, and
/// `render` must then return that text. A value that does not say otherwise
/// fixes nothing, and nothing is assumed of what its `render` returns.
pub trait Render {
    /// The text of this value, where the value fixes it.
    open spec fn text(&self) -> Option<Seq<char>> {
        None
    }

    /// Writes this value out.
    fn render(&self) -> (text: String)
        ensures
            self.text() matches Some(fixed) ==> text@ == fixed,
    ;
}

/// The text that `{:?}` gives for a path.
pub uninterp spec fn path_text(path: PathBuf) -> Seq<char>;

/// The text that `{:?}` gives for a run of bytes.
pub uninterp spec fn bytes_text(bytes: Seq<u8>) -> Seq<char>;

/// Formats a path with `{:?}`, the `Debug` form of `std::path::PathBuf`. The
/// contract only names the text: the same path gives the same text.
#[verifier::external_body]
fn debug_path(path: &PathBuf) -> (text: String)
    ensures
        text@ == path_text(*path),
{
    format!("{:?}", path)
}

/// Formats a run of bytes with `{:?}`, the `Debug` form of a slice of `u8`.
/// The contract only names the text: the same bytes give the same text.
#[verifier::external_body]
fn debug_bytes(bytes: &[u8]) -> (text: String)
    ensures
        text@ == bytes_text(bytes@),
{
    format!("{:?}", bytes)
}

impl Render for PathBuf {
    open spec fn text(&self) -> Option<Seq<char>> {
        Some(path_text(*self))
    }

    fn render(&self) -> (text: String) {
        debug_path(self)
    }
}

impl<'a> Render for &'a [u8] {
    open spec fn text(&self) -> Option<Seq<char>> {
        Some(bytes_text(self@))
    }

    fn render(&self) -> (text: String) {
        debug_bytes(*self)
    }
}

/// A failure is written out as the text that it was reported with.
impl Render for Failure {
    open spec fn text(&self) -> Option<Seq<char>> {
        Some(self.shown@)
    }

    fn render(&self) -> (text: String) {
        assert(self.text() == Some(self.shown@));
        self.shown.clone()
    }
}

/// The texts of `items`, where each item fixes its own.
pub open spec fn texts<T: Render>(items: Seq<T>) -> Option<Seq<Seq<char>>> {
    if forall|i: int| 0 <= i < items.len() ==> (#[trigger] items[i]).text() is Some {
        Some(Seq::new(items.len(), |i: int| items[i].text()->0))
    } else {
        None
    }
}

/// The given texts one after the other, with a comma and a space between
/// each two.
pub open spec fn separated(items: Seq<Seq<char>>) -> Seq<char>
    decreases items.len(),
{
    if items.len() == 0 {
        Seq::empty()
    } else if items.len() == 1 {
        items[0]
    } else {
        separated(items.drop_last()) + ", "@ + items.last()
    }
}

/// How a list is written out: its items in square brackets, separated by
/// commas.
pub open spec fn list_text(items: Seq<Seq<char>>) -> Seq<char> {
    "["@ + separated(items) + "]"@
}

/// Writes out the items of a queue as a list, the front item first.
pub fn render_list<T: Render>(items: &VecDeque<T>) -> (text: String)
    ensures
        texts(items@) matches Some(fixed) ==> text@ == list_text(fixed),
{
    let mut text = String::from_str("[");
    let mut i: usize = 0;
    while i < items.len()
        invariant
            i <= items@.len(),
            texts(items@) matches Some(fixed) ==> text@ == "["@ + separated(fixed.take(i as int)),
        decreases items@.len() - i,
    {
        if i > 0 {
            text.append(", ");
        }
        text.append(items[i].render().as_str());
        proof {
            match texts(items@) {
                Some(fixed) => {
                    let upto = fixed.take(i + 1);
                    assert(upto.drop_last() =~= fixed.take(i as int));
                    assert(upto.last() == items@[i as int].text()->0);
                    if i == 0 {
                        assert("["@ + upto[0] =~= "["@ + Seq::<char>::empty() + upto[0]);
                    } else {
                        assert("["@ + separated(upto.drop_last()) + ", "@ + upto.last() =~= "["@
                            + (separated(upto.drop_last()) + ", "@ + upto.last()));
                    }
                },
                None => {},
            }
        }
        i += 1;
    }
    proof {
        match texts(items@) {
            Some(fixed) => {
                assert(fixed.take(i as int) =~= fixed);
            },
            None => {},
        }
    }
    text.append("]");
    text
}

} // verus!
