//! Byte sources: what the readers of this crate read from, and are themselves.

use crate::error::Failure;
use std::collections::VecDeque;
use std::path::PathBuf;
use vstd::prelude::*;
use vstd::slice::slice_subrange;

verus! {

/// `std::path::PathBuf`, carried through as an opaque value: a path names a
/// source and is handed to `FileLike::open` as it came.
#[verifier::external_type_specification]
#[verifier::external_body]
pub struct ExPathBuf(std::path::PathBuf);

/// Something that bytes can be read from, piece by piece.
///
/// A source whose bytes are fixed in advance says so through `pending`, and
/// `read` must then deliver exactly those bytes, in order and without failing.
/// A source that cannot know what it will deliver (a file, a socket) answers
/// `None`. What a read can answer at all is said by `answers`; a source that
/// does not say otherwise can answer anything.
pub trait Source: Sized {
    /// The bytes that are still to come, where the source knows them. A
    /// source that does not say otherwise knows nothing.
    open spec fn pending(&self) -> Option<Seq<u8>> {
        None
    }

    /// Whether a read of this source into a buffer that holds `buf` can end
    /// in `res`, with the source then being `after` and the buffer holding
    /// `buf_after`.
    open spec fn answers(
        self,
        buf: Seq<u8>,
        res: Result<usize, Failure>,
        after: Self,
        buf_after: Seq<u8>,
    ) -> bool {
        true
    }

    /// Reads some bytes into the front of `buf` and returns how many.
    ///
    /// `Ok(0)` means that the source is at its end, or that `buf` is empty.
    fn read(&mut self, buf: &mut [u8]) -> (res: Result<usize, Failure>)
        ensures
            final(buf)@.len() == old(buf)@.len(),
            old(self).answers(old(buf)@, res, *final(self), final(buf)@),
            old(self).pending() matches Some(bytes) ==> delivers(
                bytes,
                old(buf)@,
                res,
                final(buf)@,
                final(self).pending(),
            ),
    ;
}

/// All that a read of `before` promises: the buffer keeps its length, the
/// read is one that the source can answer, and a source with known bytes
/// delivers them.
pub open spec fn reads<S: Source>(
    before: S,
    buf: Seq<u8>,
    res: Result<usize, Failure>,
    after: S,
    buf_after: Seq<u8>,
) -> bool {
    &&& buf_after.len() == buf.len()
    &&& before.answers(buf, res, after, buf_after)
    &&& before.pending() matches Some(bytes) ==> delivers(
        bytes,
        buf,
        res,
        buf_after,
        after.pending(),
    )
}

/// What a read from a source with known bytes does: it succeeds with some
/// count `n`, which is zero only if the buffer is empty or no byte is left;
/// the first `n` pending bytes now stand at the front of the buffer, whose
/// rest is untouched; and the bytes after those `n` are still pending.
pub open spec fn delivers(
    bytes: Seq<u8>,
    buf_before: Seq<u8>,
    res: Result<usize, Failure>,
    buf_after: Seq<u8>,
    left: Option<Seq<u8>>,
) -> bool {
    &&& res matches Ok(n)
    &&& n <= bytes.len()
    &&& n <= buf_before.len()
    &&& (n == 0 <==> (bytes.len() == 0 || buf_before.len() == 0))
    &&& buf_after == bytes.take(n as int) + buf_before.skip(n as int)
    &&& left == Some(bytes.skip(n as int))
}

/// What a reader does once the source it is at has answered a read.
pub enum Next {
    /// The read is over, with this result.
    Done(Result<usize, Failure>),
    /// The source was at its end and another one has taken its place: read
    /// again.
    Again,
}

/// A source with no byte left delivers nothing and leaves the buffer alone.
pub proof fn lemma_end_delivers_nothing(buf: Seq<u8>)
    ensures
        delivers(Seq::empty(), buf, Ok(0), buf, Some(Seq::empty())),
{
    let none = Seq::<u8>::empty();
    assert(buf =~= none.take(0) + buf.skip(0));
    assert(none.skip(0) =~= none);
}

/// An empty buffer takes nothing from a source, whatever the source holds.
pub proof fn lemma_empty_buffer_takes_nothing(bytes: Seq<u8>, buf: Seq<u8>)
    requires
        buf.len() == 0,
    ensures
        delivers(bytes, buf, Ok(0), buf, Some(bytes)),
{
    assert(buf =~= bytes.take(0) + buf.skip(0));
    assert(bytes.skip(0) =~= bytes);
}

/// A source that can be opened from a path.
///
/// A kind of source for which it is fixed in advance what a path leads to
/// says so through `found`, and `open` must then lead to just that. Of any
/// other nothing is assumed: `open` may fail for any path, and twice
/// differently for the same path.
pub trait FileLike: Source + Sized {
    /// What opening `path` leads to, where that is fixed: the bytes of the
    /// source that is found there, or the failure to open it.
    open spec fn found(path: PathBuf) -> Option<Result<Seq<u8>, Failure>> {
        None
    }

    /// Opens the source that `path` names.
    fn open(path: &PathBuf) -> (res: Result<Self, Failure>)
        ensures
            Self::found(*path) matches Some(known) ==> match known {
                Ok(bytes) => res matches Ok(source) && source.pending() == Some(bytes),
                Err(failure) => res == Err::<Self, Failure>(failure),
            },
    ;
}

/// All that opening `path` promises, for the outcome `outcome`: it is one
/// that `open` can return, and it is what the path is known to lead to.
pub open spec fn opens<R: FileLike>(path: PathBuf, outcome: Result<R, Failure>) -> bool {
    &&& call_ensures(R::open, (&path,), outcome)
    &&& R::found(path) matches Some(known) ==> match known {
        Ok(bytes) => outcome matches Ok(source) && source.pending() == Some(bytes),
        Err(failure) => outcome == Err::<R, Failure>(failure),
    }
}

/// A byte slice is a source of its own bytes. Reading moves the slice forward
/// past what was read.
impl<'a> Source for &'a [u8] {
    open spec fn pending(&self) -> Option<Seq<u8>> {
        Some(self@)
    }

    /// A slice gives as many bytes as it has, or as the buffer has room for.
    open spec fn answers(
        self,
        buf: Seq<u8>,
        res: Result<usize, Failure>,
        after: Self,
        buf_after: Seq<u8>,
    ) -> bool {
        let n = if buf.len() < self@.len() {
            buf.len()
        } else {
            self@.len()
        };
        &&& res matches Ok(count)
        &&& count == n
        &&& after@ == self@.skip(n as int)
        &&& buf_after == self@.take(n as int) + buf.skip(n as int)
    }

    fn read(&mut self, buf: &mut [u8]) -> (res: Result<usize, Failure>) {
        let n: usize = if buf.len() < self.len() {
            buf.len()
        } else {
            self.len()
        };
        let mut i: usize = 0;
        while i < n
            invariant
                i <= n,
                n <= self@.len(),
                n <= buf@.len(),
                buf@.len() == old(buf)@.len(),
                buf@ == self@.take(i as int) + old(buf)@.skip(i as int),
            decreases n - i,
        {
            buf[i] = self[i];
            i += 1;
        }
        *self = slice_subrange(*self, n, self.len());
        Ok(n)
    }
}

/// What is known of a source before it is read.
pub enum Prospect {
    /// It will deliver these bytes and then be at its end.
    Bytes(Seq<u8>),
    /// It cannot be opened, for this reason.
    Fails(Failure),
    /// Nothing is known of it.
    Unknown,
}

/// What is known to come after the bytes that a reader is known to deliver.
pub enum Ending {
    /// The end: no source is left.
    End,
    /// A source that cannot be opened, for this reason.
    Fails(Failure),
    /// A source of which nothing is known.
    Unknown,
}

impl Prospect {
    /// Whether the source is known to hold no byte.
    pub open spec fn is_empty(self) -> bool {
        self matches Prospect::Bytes(bytes) && bytes.len() == 0
    }
}

/// What is known of a source with the given pending bytes.
pub open spec fn prospect_of(pending: Option<Seq<u8>>) -> Prospect {
    match pending {
        Some(bytes) => Prospect::Bytes(bytes),
        None => Prospect::Unknown,
    }
}

/// How many sources at the front are known to hold no byte: a read with room
/// passes over them.
pub open spec fn passed(prospects: Seq<Prospect>) -> nat
    decreases prospects.len(),
{
    if prospects.len() > 0 && prospects[0].is_empty() {
        1 + passed(prospects.drop_first())
    } else {
        0
    }
}

/// The bytes that are known to come: those of the sources at the front whose
/// bytes are known, one source after the other.
pub open spec fn known(prospects: Seq<Prospect>) -> Seq<u8>
    decreases prospects.len(),
{
    if prospects.len() == 0 {
        Seq::empty()
    } else {
        match prospects[0] {
            Prospect::Bytes(bytes) => bytes + known(prospects.drop_first()),
            _ => Seq::empty(),
        }
    }
}

/// What comes after the known bytes: the end, or the first source that fails
/// or of which nothing is known.
pub open spec fn ending(prospects: Seq<Prospect>) -> Ending
    decreases prospects.len(),
{
    if prospects.len() == 0 {
        Ending::End
    } else {
        match prospects[0] {
            Prospect::Bytes(_) => ending(prospects.drop_first()),
            Prospect::Fails(failure) => Ending::Fails(failure),
            Prospect::Unknown => Ending::Unknown,
        }
    }
}

/// The sources that a read passes over are at the front, are all known to be
/// empty, and add nothing to what is known to come.
pub proof fn lemma_passed(prospects: Seq<Prospect>)
    ensures
        passed(prospects) <= prospects.len(),
        forall|i: int| 0 <= i < passed(prospects) ==> (#[trigger] prospects[i]).is_empty(),
        passed(prospects) < prospects.len() ==> !prospects[passed(prospects) as int].is_empty(),
        known(prospects) == known(prospects.skip(passed(prospects) as int)),
        ending(prospects) == ending(prospects.skip(passed(prospects) as int)),
    decreases prospects.len(),
{
    if prospects.len() > 0 && prospects[0].is_empty() {
        let rest = prospects.drop_first();
        lemma_passed(rest);
        assert(rest.skip(passed(rest) as int) =~= prospects.skip(passed(prospects) as int));
        assert(known(prospects) =~= known(rest));
        assert forall|i: int| 0 <= i < passed(prospects) implies (#[trigger] prospects[i])
            .is_empty() by {
            if i > 0 {
                assert(rest[i - 1].is_empty());
            }
        }
    } else {
        assert(prospects.skip(0) =~= prospects);
    }
}

/// When the first of the bytes of a source are delivered, the first of the
/// known bytes are, and what is left of the source comes first in what is
/// then known.
pub proof fn lemma_known_advances(prospects: Seq<Prospect>, n: int)
    requires
        prospects.len() > 0,
        prospects[0] matches Prospect::Bytes(bytes) && 0 <= n <= bytes.len(),
    ensures
        known(prospects).take(n) == prospects[0]->Bytes_0.take(n),
        known(prospects.update(0, Prospect::Bytes(prospects[0]->Bytes_0.skip(n)))) == known(
            prospects,
        ).skip(n),
        ending(prospects.update(0, Prospect::Bytes(prospects[0]->Bytes_0.skip(n)))) == ending(
            prospects,
        ),
{
    let bytes = prospects[0]->Bytes_0;
    let after = prospects.update(0, Prospect::Bytes(bytes.skip(n)));
    assert(after.drop_first() =~= prospects.drop_first());
    assert(known(prospects).take(n) =~= bytes.take(n));
    assert(known(after) =~= known(prospects).skip(n));
}

/// Where the bytes of the sources at the front are known, they are known to
/// come, one source after the other, before whatever is known of the rest.
pub proof fn lemma_known_until(prospects: Seq<Prospect>, held: Seq<Seq<u8>>)
    requires
        held.len() <= prospects.len(),
        forall|i: int| 0 <= i < held.len() ==> #[trigger] prospects[i] == Prospect::Bytes(held[i]),
    ensures
        known(prospects) == held.flatten() + known(prospects.skip(held.len() as int)),
        ending(prospects) == ending(prospects.skip(held.len() as int)),
    decreases held.len(),
{
    if held.len() > 0 {
        let rest = prospects.drop_first();
        lemma_known_until(rest, held.drop_first());
        assert(rest.skip(held.len() - 1) =~= prospects.skip(held.len() as int));
        assert(known(prospects) =~= held.flatten() + known(prospects.skip(held.len() as int)));
    } else {
        assert(prospects.skip(0) =~= prospects);
        assert(held.flatten() + known(prospects) =~= known(prospects));
    }
}

/// The bytes that the first `i` of some reads have delivered, in the order
/// of the reads: read `j` returned `answers[j]` and left the buffer holding
/// `outs[j]`.
pub open spec fn delivered(answers: Seq<Result<usize, Failure>>, outs: Seq<Seq<u8>>, i: int) -> Seq<
    u8,
>
    decreases i,
{
    if i <= 0 {
        Seq::empty()
    } else {
        delivered(answers, outs, i - 1) + match answers[i - 1] {
            Ok(n) => outs[i - 1].take(n as int),
            Err(_) => Seq::empty(),
        }
    }
}

/// Reads `source` until it answers `Ok(0)` and appends all that it delivers
/// to `out`. Returns how many bytes were appended.
///
/// A source with known bytes delivers all of them and is at its end
/// afterwards. With any other source, what `out` held stays at its front, and
/// a failure of the source ends the reading and is returned, with the bytes
/// read before it left in `out`. A count beyond the room that the source was
/// given is taken for that room.
pub fn read_to_end<S: Source>(source: &mut S, out: &mut Vec<u8>) -> (res: Result<usize, Failure>)
    ensures
        old(out)@.is_prefix_of(final(out)@),
        res matches Ok(n) ==> final(out)@.len() == old(out)@.len() + n,
        old(source).pending() matches Some(bytes) ==> {
            &&& res matches Ok(n)
            &&& n == bytes.len()
            &&& final(out)@ == old(out)@ + bytes
            &&& final(source).pending() == Some(Seq::<u8>::empty())
        },
{
    let start: usize = out.len();
    let mut chunk: Vec<u8> = vec![0u8; 4096];
    let ghost mut done: int = 0;
    proof {
        match source.pending() {
            Some(bytes) => {
                assert(out@ =~= out@ + bytes.take(0));
                assert(bytes.skip(0) =~= bytes);
            },
            None => {},
        }
    }
    loop
        invariant
            chunk@.len() == 4096,
            start == old(out)@.len(),
            out@.len() <= usize::MAX,
            done == out@.len() - start,
            old(out)@.is_prefix_of(out@),
            old(source).pending() matches Some(bytes) ==> {
                &&& 0 <= done <= bytes.len()
                &&& out@ == old(out)@ + bytes.take(done)
                &&& source.pending() == Some(bytes.skip(done))
            },
        decreases usize::MAX - out@.len(),
    {
        let ghost held = out@;
        let n: usize = match source.read(chunk.as_mut_slice()) {
            Ok(n) => n,
            Err(failure) => {
                return Err(failure);
            },
        };
        if n == 0 {
            proof {
                match old(source).pending() {
                    Some(bytes) => {
                        assert(bytes.skip(done).skip(0) =~= bytes.skip(done));
                        assert(bytes.take(done) =~= bytes);
                        assert(bytes.skip(done) =~= Seq::<u8>::empty());
                    },
                    None => {},
                }
            }
            return Ok(out.len() - start);
        }
        let n: usize = if n > chunk.len() {
            chunk.len()
        } else {
            n
        };
        let mut i: usize = 0;
        while i < n
            invariant
                i <= n <= chunk@.len(),
                out@ == held + chunk@.take(i as int),
            decreases n - i,
        {
            out.push(chunk[i]);
            i += 1;
            assert(out@ =~= held + chunk@.take(i as int));
        }
        let total: usize = out.len();
        proof {
            assert(out@.len() == total);
            match old(source).pending() {
                Some(bytes) => {
                    let left = bytes.skip(done);
                    assert(chunk@.take(n as int) =~= left.take(n as int));
                    assert(bytes.take(done) + left.take(n as int) =~= bytes.take(done + n));
                    assert(left.skip(n as int) =~= bytes.skip(done + n));
                    assert(out@ =~= old(out)@ + bytes.take(done + n));
                },
                None => {},
            }
            done = done + n;
        }
    }
}

/// The items of `items` as a queue, the first item at the front.
pub(crate) fn queue_of<T>(items: Vec<T>) -> (queue: VecDeque<T>)
    ensures
        queue@ == items@,
{
    let mut items = items;
    let mut queue: VecDeque<T> = VecDeque::new();
    let ghost all = items@;
    loop
        invariant
            items@ + queue@ == all,
        ensures
            queue@ == all,
        decreases items@.len(),
    {
        match items.pop() {
            Some(item) => {
                queue.push_front(item);
                assert(items@ + queue@ =~= all);
            },
            None => {
                assert(items@ + queue@ =~= queue@);
                break ;
            },
        }
    }
    queue
}

} // verus!
