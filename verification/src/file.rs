//! The reader over sources named by paths, which opens each source only when
//! its first byte is asked for.

use crate::error::Failure;
use crate::render::{list_text, path_text, render_list, texts, Render};
use crate::source::{
    delivered, delivers, ending, known, lemma_empty_buffer_takes_nothing,
    lemma_end_delivers_nothing, lemma_known_advances, lemma_known_until, lemma_passed, opens,
    passed, prospect_of, queue_of, reads, Ending, FileLike, Next, Prospect, Source,
};
use crate::{ConcatRead, FileConcatRead};
use std::collections::VecDeque;
use std::path::PathBuf;
use vstd::pervasive::unreached;
use vstd::prelude::*;
use vstd::std_specs::convert::FromSpecImpl;
use vstd::string::StringExecFns;

verus! {

/// Where a reader stands with the source it is at.
pub enum ReaderState<R> {
    /// The source at this path is open and being read.
    Open(R, PathBuf),
    /// The source at this path has not been opened yet.
    Init(PathBuf),
    /// The source at this path could not be opened, for the reason kept here.
    Failed(Failure, PathBuf),
    /// No source is left.
    Eof,
}

impl<R> ReaderState<R> {
    /// The path of the source that the state is about.
    pub open spec fn path(self) -> Option<PathBuf> {
        match self {
            ReaderState::Open(_, path) => Some(path),
            ReaderState::Init(path) => Some(path),
            ReaderState::Failed(_, path) => Some(path),
            ReaderState::Eof => None,
        }
    }

    /// The state that awaits the source at `path`, or the end if there is no
    /// further path.
    pub open spec fn awaiting(path: Option<PathBuf>) -> Self {
        match path {
            Some(path) => ReaderState::Init(path),
            None => ReaderState::Eof,
        }
    }

    /// The state after an attempt to open the source at `path` has ended in
    /// `outcome`.
    pub open spec fn after_open(path: PathBuf, outcome: Result<R, Failure>) -> Self {
        match outcome {
            Ok(source) => ReaderState::Open(source, path),
            Err(failure) => ReaderState::Failed(failure, path),
        }
    }

    /// Whether the source is still to be opened.
    pub fn is_init(&self) -> (init: bool)
        ensures
            init == (self is Init),
    {
        match self {
            ReaderState::Init(_) => true,
            _ => false,
        }
    }

    /// The failure kept in a state that could not open its source, reported
    /// once more.
    pub fn unwrap_err(&self) -> (failure: Failure)
        requires
            self is Failed,
        ensures
            failure == self->Failed_0,
    {
        match self {
            ReaderState::Failed(failure, _) => failure.replay(),
            _ => unreached(),
        }
    }

    /// Turns the outcome of opening the source at `path` into the state that
    /// follows: open on success, failed with the reason kept otherwise.
    pub fn opened(path: PathBuf, outcome: Result<R, Failure>) -> (state: Self)
        ensures
            state == Self::after_open(path, outcome),
    {
        match outcome {
            Ok(source) => ReaderState::Open(source, path),
            Err(failure) => ReaderState::Failed(failure, path),
        }
    }
}

impl<R: FileLike> ReaderState<R> {
    /// The failure that a read of this state is known to end in: the one
    /// kept, or the one that opening the path is known to lead to.
    pub open spec fn fails(self) -> Option<Failure> {
        match self {
            ReaderState::Failed(failure, _) => Some(failure),
            ReaderState::Init(path) => match R::found(path) {
                Some(Err(failure)) => Some(failure),
                _ => None,
            },
            _ => None,
        }
    }

    /// Opens the source that is still to be opened. The state that follows
    /// is the one that `opened` makes of the path and of what `open`
    /// returned for it. On failure the reason is returned as well.
    pub fn open(&mut self) -> (res: Result<(), Failure>)
        requires
            *old(self) is Init,
        ensures
            exists|outcome: Result<R, Failure>| #[trigger]
                opens(old(self)->Init_0, outcome) && *final(self) == Self::after_open(
                    old(self)->Init_0,
                    outcome,
                ),
            match res {
                Ok(_) => *final(self) is Open,
                Err(failure) => {
                    *final(self) matches ReaderState::Failed(kept, _) && kept == failure
                },
            },
    {
        let mut state = ReaderState::Eof;
        core::mem::swap(self, &mut state);
        match state {
            ReaderState::Init(path) => {
                let outcome = R::open(&path);
                proof {
                    assert(opens(path, outcome));
                }
                *self = Self::opened(path, outcome);
            },
            _ => {
                unreached::<()>();
            },
        }
        match self {
            ReaderState::Failed(failure, _) => Err(failure.replay()),
            _ => Ok(()),
        }
    }
}

impl<R: FileLike> Source for ReaderState<R> {
    /// An open source has its own bytes pending, and a source still to be
    /// opened those that its path is known to lead to. The end has none. Of
    /// any other state nothing is known.
    open spec fn pending(&self) -> Option<Seq<u8>> {
        match self {
            ReaderState::Open(source, _) => source.pending(),
            ReaderState::Init(path) => match R::found(*path) {
                Some(Ok(bytes)) => Some(bytes),
                _ => None,
            },
            ReaderState::Eof => Some(Seq::empty()),
            ReaderState::Failed(_, _) => None,
        }
    }

    /// At the end a read is `Ok(0)`, and a state that keeps a failure
    /// returns it; neither touches state or buffer. An open source is read
    /// from, and what it answers is the result. A source still to be opened
    /// is opened first: if that fails, the failure is kept and returned, and
    /// the buffer is untouched; if not, the source is read from as an open
    /// one. The path stays in every case.
    open spec fn answers(
        self,
        buf: Seq<u8>,
        res: Result<usize, Failure>,
        after: Self,
        buf_after: Seq<u8>,
    ) -> bool {
        match self {
            ReaderState::Eof => {
                &&& res == Ok::<usize, Failure>(0)
                &&& after == self
                &&& buf_after == buf
            },
            ReaderState::Failed(failure, _) => {
                &&& res == Err::<usize, Failure>(failure)
                &&& after == self
                &&& buf_after == buf
            },
            ReaderState::Open(source, path) => {
                &&& after matches ReaderState::Open(left, same)
                &&& same == path
                &&& reads(source, buf, res, left, buf_after)
            },
            ReaderState::Init(path) => exists|outcome: Result<R, Failure>| #[trigger]
                opens(path, outcome) && match outcome {
                    Err(failure) => {
                        &&& res == Err::<usize, Failure>(failure)
                        &&& after == ReaderState::<R>::Failed(failure, path)
                        &&& buf_after == buf
                    },
                    Ok(source) => {
                        &&& after matches ReaderState::Open(left, same)
                        &&& same == path
                        &&& reads(source, buf, res, left, buf_after)
                    },
                },
        }
    }

    /// Reads from the source of this state, opening it first if need be.
    ///
    /// What the read can lead to is said by `answers`. Where it is known
    /// that the source cannot be opened, the read ends in that failure.
    fn read(&mut self, buf: &mut [u8]) -> (res: Result<usize, Failure>)
        ensures
            final(self).path() == old(self).path(),
            old(self).fails() matches Some(failure) ==> {
                &&& res == Err::<usize, Failure>(failure)
                &&& *final(self) matches ReaderState::Failed(kept, _)
                &&& kept == failure
                &&& final(buf)@ == old(buf)@
            },
            (*old(self) is Open || old(self).pending() is Some) ==> !(*final(self) is Failed),
    {
        if self.is_init() {
            match self.open() {
                Err(failure) => {
                    return Err(failure);
                },
                Ok(_) => {},
            }
        }
        match self {
            ReaderState::Open(source, _) => source.read(buf),
            ReaderState::Failed(failure, _) => Err(failure.replay()),
            _ => {
                proof {
                    lemma_end_delivers_nothing(buf@);
                }
                Ok(0)
            },
        }
    }
}

impl<R> From<Option<PathBuf>> for ReaderState<R> {
    /// The state that awaits the source at `path`, or the end if there is no
    /// further path.
    fn from(path: Option<PathBuf>) -> (state: Self) {
        match path {
            Some(path) => ReaderState::Init(path),
            None => ReaderState::Eof,
        }
    }
}

impl<R> FromSpecImpl<Option<PathBuf>> for ReaderState<R> {
    open spec fn obeys_from_spec() -> bool {
        true
    }

    open spec fn from_spec(path: Option<PathBuf>) -> Self {
        Self::awaiting(path)
    }
}

impl<R: Render> Render for ReaderState<R> {
    /// A state is written as `ReaderState::`, the word `Init`, `Open`, `Err`
    /// or `Eof`, and in brackets what the state holds, the path last.
    open spec fn text(&self) -> Option<Seq<char>> {
        match *self {
            ReaderState::Init(path) => Some("ReaderState::Init("@ + path_text(path) + ")"@),
            ReaderState::Open(source, path) => match source.text() {
                Some(source) => Some(
                    "ReaderState::Open("@ + source + ","@ + path_text(path) + ")"@,
                ),
                None => None,
            },
            ReaderState::Failed(failure, path) => Some(
                "ReaderState::Err("@ + failure.shown@ + ","@ + path_text(path) + ")"@,
            ),
            ReaderState::Eof => Some("ReaderState::Eof"@),
        }
    }

    fn render(&self) -> (text: String) {
        match self {
            ReaderState::Init(path) => {
                let mut text = String::from_str("ReaderState::Init(");
                text.append(path.render().as_str());
                text.append(")");
                text
            },
            ReaderState::Open(source, path) => {
                let mut text = String::from_str("ReaderState::Open(");
                text.append(source.render().as_str());
                text.append(",");
                text.append(path.render().as_str());
                text.append(")");
                text
            },
            ReaderState::Failed(failure, path) => {
                let mut text = String::from_str("ReaderState::Err(");
                text.append(failure.render().as_str());
                text.append(",");
                text.append(path.render().as_str());
                text.append(")");
                text
            },
            ReaderState::Eof => String::from_str("ReaderState::Eof"),
        }
    }
}

/// What an `InnerReader` holds: the state of the source it is at, and the
/// paths of the sources that follow, in the order in which they will be read.
pub struct Cursor<R> {
    pub curr: ReaderState<R>,
    pub rest: Seq<PathBuf>,
}

impl<R> Cursor<R> {
    /// Once the end is reached no path is left. Every cursor that a reader
    /// starts with is like that, and reading and skipping keep it so.
    pub open spec fn wf(self) -> bool {
        self.curr is Eof ==> self.rest.len() == 0
    }

    /// The cursor of a reader that has not read anything yet: the first path
    /// awaits opening, the others follow.
    pub open spec fn start(paths: Seq<PathBuf>) -> Self {
        if paths.len() == 0 {
            Cursor { curr: ReaderState::Eof, rest: paths }
        } else {
            Cursor { curr: ReaderState::Init(paths[0]), rest: paths.drop_first() }
        }
    }

    /// The paths that have not been left behind: that of the current source,
    /// then those that follow.
    pub open spec fn paths(self) -> Seq<PathBuf> {
        match self.curr.path() {
            Some(path) => seq![path] + self.rest,
            None => self.rest,
        }
    }

    /// The cursor after the current source has been abandoned: whatever its
    /// state was, the next path awaits opening.
    pub open spec fn skip(self) -> Self {
        Self::start(self.rest)
    }

    /// Whether this cursor can be reached from `earlier` by leaving sources
    /// behind: its paths are what is left of the earlier ones.
    pub open spec fn continues(self, earlier: Self) -> bool {
        exists|k: int|
            0 <= k <= earlier.paths().len() && self.paths() == #[trigger] earlier.paths().skip(k)
    }

    /// How many sources are still to be read, the current one included.
    pub open spec fn left(self) -> nat {
        if self.curr is Eof && self.rest.len() == 0 {
            0
        } else {
            self.rest.len() + 1
        }
    }

    /// Whether a read into a buffer of `cap` bytes is answered without asking
    /// any source: the buffer is empty, the end is reached with no path left,
    /// or the current source could not be opened.
    pub open spec fn answers_alone(self, cap: nat) -> bool {
        cap == 0 || (self.curr is Eof && self.rest.len() == 0) || self.curr is Failed
    }

    /// The answer to such a read: the failure kept, if a buffer with room
    /// meets a source that could not be opened, and no bytes otherwise.
    pub open spec fn own_answer(self, cap: nat) -> Result<usize, Failure> {
        match self.curr {
            ReaderState::Failed(failure, _) if cap > 0 => Err(failure),
            _ => Ok(0),
        }
    }

    /// What a read into a buffer of `cap` bytes can lead to: the result `res`
    /// and the cursor `after`.
    ///
    /// Where the reader answers alone, the result is its own answer and the
    /// cursor stays. Otherwise the sources decide, and whatever they answer:
    /// `Ok(0)` is the result only once every source has been read to its
    /// end; a count above zero comes from the source that is then open; and a
    /// failure is either that of opening the source that is then current,
    /// which is kept, or that of a read from the source that is then open.
    /// Sources are only ever left behind, in their order.
    pub open spec fn read_leads_to(
        self,
        cap: nat,
        res: Result<usize, Failure>,
        after: Self,
    ) -> bool {
        &&& self.wf() ==> after.wf()
        &&& after.continues(self)
        &&& if self.answers_alone(cap) {
            res == self.own_answer(cap) && after == self
        } else {
            match res {
                Ok(n) => if n == 0 {
                    after.curr is Eof && after.rest.len() == 0
                } else {
                    after.curr is Open
                },
                Err(failure) => match after.curr {
                    ReaderState::Open(_, _) => true,
                    ReaderState::Failed(kept, _) => kept == failure,
                    _ => false,
                },
            }
        }
    }

    /// What follows when the current source has answered a read with
    /// `outcome`: a source at its end is left for the next one, and the read
    /// is tried again if there is one; anything else is the result of the
    /// read.
    pub open spec fn settle(self, outcome: Result<usize, Failure>) -> (Self, Next) {
        if outcome == Ok::<usize, Failure>(0) {
            let next = self.skip();
            if next.curr is Init {
                (next, Next::Again)
            } else {
                (next, Next::Done(outcome))
            }
        } else {
            (self, Next::Done(outcome))
        }
    }
}

/// A cursor continues itself.
pub proof fn lemma_continues_itself<R>(cursor: Cursor<R>)
    ensures
        cursor.continues(cursor),
{
    assert(cursor.paths() =~= cursor.paths().skip(0));
}

/// Abandoning the current source leads to a cursor that continues the one
/// before, and so does everything that continues that cursor.
pub proof fn lemma_continues_past_skip<R>(earlier: Cursor<R>, cursor: Cursor<R>)
    requires
        cursor.continues(earlier),
    ensures
        cursor.skip().continues(earlier),
{
    let k = choose|k: int|
        0 <= k <= earlier.paths().len() && cursor.paths() == #[trigger] earlier.paths().skip(k);
    let step: int = if cursor.curr is Eof { 0 } else { 1 };
    assert(cursor.skip().paths() =~= cursor.paths().skip(step));
    assert(cursor.skip().paths() =~= earlier.paths().skip(k + step));
}

/// Whether `run` is a run of reads: `run[0]` is the cursor before the first
/// read, `caps[i]` the room of the buffer of read `i`, `answers[i]` its
/// result, and `run[i + 1]` the cursor after it.
pub open spec fn is_run<R>(
    run: Seq<Cursor<R>>,
    caps: Seq<nat>,
    answers: Seq<Result<usize, Failure>>,
) -> bool {
    &&& run.len() == caps.len() + 1
    &&& answers.len() == caps.len()
    &&& forall|i: int|
        0 <= i < caps.len() ==> (#[trigger] run[i]).read_leads_to(caps[i], answers[i], run[i + 1])
}

/// Asking for no bytes opens nothing: a read into an empty buffer returns
/// `Ok(0)` and leaves the reader as it was, whatever state it is in. A reader
/// that has not read anything yet still awaits the opening of its first
/// source afterwards.
pub proof fn law_empty_read_opens_nothing<R>(
    cursor: Cursor<R>,
    res: Result<usize, Failure>,
    after: Cursor<R>,
)
    requires
        cursor.read_leads_to(0, res, after),
    ensures
        res == Ok::<usize, Failure>(0),
        after == cursor,
        cursor.curr is Init ==> after.curr is Init,
{
}

/// No end before the end: a read into a buffer with room returns `Ok(0)` only
/// when no source is left, however many sources were at their end before.
pub proof fn law_no_early_end<R>(cursor: Cursor<R>, cap: nat, after: Cursor<R>)
    requires
        cap > 0,
        cursor.read_leads_to(cap, Ok(0), after),
    ensures
        after.curr is Eof,
        after.left() == 0,
{
}

/// A failure to open is sticky: from then on, and until the source is
/// skipped, every read leaves the reader as it is, and every read into a
/// buffer with room returns the failure that is kept. The path of the failed
/// source stays the current one.
pub proof fn law_failure_is_sticky<R>(
    run: Seq<Cursor<R>>,
    caps: Seq<nat>,
    answers: Seq<Result<usize, Failure>>,
    i: int,
)
    requires
        is_run(run, caps, answers),
        run[0].curr is Failed,
        0 <= i < caps.len(),
    ensures
        run[i + 1] == run[0],
        caps[i] > 0 ==> answers[i] == Err::<usize, Failure>(run[0].curr->Failed_0),
        run[i + 1].curr.path() == Some(run[0].curr->Failed_1),
    decreases i,
{
    if i > 0 {
        law_failure_is_sticky(run, caps, answers, i - 1);
    }
    assert(run[i].read_leads_to(caps[i], answers[i], run[i + 1]));
}

/// Skipping leaves a failed source behind: the reader is then what a new
/// reader over the paths that followed would be. The next path awaits
/// opening, or the reader is at its end if none followed.
pub proof fn law_skip_recovers<R>(cursor: Cursor<R>)
    requires
        cursor.curr is Failed,
    ensures
        cursor.skip() == Cursor::<R>::start(cursor.rest),
        cursor.skip().wf(),
        cursor.skip().paths() == cursor.paths().drop_first(),
        cursor.rest.len() > 0 ==> cursor.skip().curr == ReaderState::<R>::Init(cursor.rest[0]),
        cursor.rest.len() == 0 ==> cursor.skip().curr is Eof,
{
    assert(cursor.skip().paths() =~= cursor.paths().drop_first());
}

/// The end is final: once every source has been read or abandoned, every
/// read returns `Ok(0)` and leaves the reader at its end, where no source is
/// open, no path is current, and skipping changes nothing.
pub proof fn law_end_is_final<R>(
    run: Seq<Cursor<R>>,
    caps: Seq<nat>,
    answers: Seq<Result<usize, Failure>>,
    i: int,
)
    requires
        is_run(run, caps, answers),
        run[0].wf(),
        run[0].curr is Eof,
        0 <= i < caps.len(),
    ensures
        answers[i] == Ok::<usize, Failure>(0),
        run[i + 1] == run[0],
        !(run[i + 1].curr is Open),
        run[i + 1].curr.path() is None,
        run[i + 1].left() == 0,
        run[i + 1].skip() == run[i + 1],
    decreases i,
{
    if i > 0 {
        law_end_is_final(run, caps, answers, i - 1);
    }
    assert(run[i].read_leads_to(caps[i], answers[i], run[i + 1]));
    assert(run[0].skip().rest =~= run[0].rest);
}

impl<R: Render> Cursor<R> {
    /// How a reader is written out: the state of the current source, then
    /// the paths that follow as a list.
    pub open spec fn text(self) -> Option<Seq<char>> {
        match (self.curr.text(), texts(self.rest)) {
            (Some(curr), Some(rest)) => Some(
                "CatReader { curr: "@ + curr + ", rest: "@ + list_text(rest) + " }"@,
            ),
            _ => None,
        }
    }
}

/// What is known of the source at `path` before it is opened.
pub open spec fn path_prospect<R: FileLike>(path: PathBuf) -> Prospect {
    match R::found(path) {
        Some(Ok(bytes)) => Prospect::Bytes(bytes),
        Some(Err(failure)) => Prospect::Fails(failure),
        None => Prospect::Unknown,
    }
}

/// What is known of the sources at `paths` before they are opened.
pub open spec fn path_prospects<R: FileLike>(paths: Seq<PathBuf>) -> Seq<Prospect> {
    Seq::new(paths.len(), |i: int| path_prospect::<R>(paths[i]))
}

impl<R: FileLike> ReaderState<R> {
    /// What is known of the source of this state. The end counts as a source
    /// that holds no byte.
    pub open spec fn prospect(self) -> Prospect {
        match self {
            ReaderState::Open(source, _) => prospect_of(source.pending()),
            ReaderState::Init(path) => path_prospect::<R>(path),
            ReaderState::Failed(failure, _) => Prospect::Fails(failure),
            ReaderState::Eof => Prospect::Bytes(Seq::empty()),
        }
    }
}

impl<R: FileLike> Cursor<R> {
    /// What is known of the sources still to be read: of the current one,
    /// then of each that follows.
    pub open spec fn prospects(self) -> Seq<Prospect> {
        seq![self.curr.prospect()] + path_prospects::<R>(self.rest)
    }

    /// The bytes that the reader is known to deliver next: those of the
    /// current source and of the sources that follow, up to the first that
    /// fails to open or of which nothing is known.
    pub open spec fn known(self) -> Seq<u8> {
        known(self.prospects())
    }

    /// What is known to come after those bytes.
    pub open spec fn ending(self) -> Ending {
        ending(self.prospects())
    }

    /// All the bytes still to come, where every source is known to open and
    /// knows its bytes.
    pub open spec fn pending(self) -> Option<Seq<u8>> {
        match self.ending() {
            Ending::End => Some(self.known()),
            _ => None,
        }
    }

    /// The state in which the source stands that a read gets to after it
    /// has passed over `k` sources: the current state, or the state that
    /// awaits the opening of the path that is reached.
    pub open spec fn landing(self, k: int) -> ReaderState<R> {
        if k == 0 {
            self.curr
        } else {
            ReaderState::Init(self.rest[k - 1])
        }
    }

    /// Whether a read can go this way: from this cursor and a buffer that
    /// holds `buf` to the result `res`, the cursor `after` and a buffer that
    /// holds `buf_after`.
    ///
    /// An empty buffer is answered with `Ok(0)` at once. Otherwise the
    /// current state is read from. If it answers `Ok(0)`, its source is at
    /// its end: the next path takes its place and the read goes on there, or
    /// ends with `Ok(0)` if there is none. Anything else that it answers is
    /// the result, and the state it is then in stays the current one.
    pub open spec fn reads(
        self,
        buf: Seq<u8>,
        res: Result<usize, Failure>,
        after: Self,
        buf_after: Seq<u8>,
    ) -> bool
        decreases self.rest.len(),
    {
        if buf.len() == 0 {
            res == Ok::<usize, Failure>(0) && after == self && buf_after == buf
        } else {
            exists|outcome: Result<usize, Failure>, curr: ReaderState<R>, mid: Seq<u8>|
                {
                    &&& #[trigger] self.curr.answers(buf, outcome, curr, mid)
                    &&& mid.len() == buf.len()
                    &&& if outcome == Ok::<usize, Failure>(0) && self.rest.len() > 0 {
                        Self::start(self.rest).reads(mid, res, after, buf_after)
                    } else {
                        &&& res == outcome
                        &&& after == (Cursor { curr, rest: self.rest }).settle(outcome).0
                        &&& buf_after == mid
                    }
                }
        }
    }

    /// What a read into a buffer with room delivers, as far as it is known.
    ///
    /// The read passes over the sources at the front that are known to hold
    /// no byte. If no source is left then, the result is `Ok(0)` and the
    /// reader is at its end. If the source it gets to is known to hold
    /// bytes, it is opened if need be and read from: the result is a count
    /// above zero and not above what the source holds, the buffer holds that
    /// many of its bytes at the front, and the source stays open and
    /// current with the rest of its bytes. If it is known that the source
    /// cannot be opened, the result is that failure, which is kept with the
    /// path, and the buffer is untouched. In both cases the paths after the
    /// source still follow, and the answer is one that the state of the
    /// source can give.
    pub open spec fn read_delivers(
        self,
        buf: Seq<u8>,
        res: Result<usize, Failure>,
        after: Self,
        buf_after: Seq<u8>,
    ) -> bool {
        let k = passed(self.prospects()) as int;
        if k == self.prospects().len() {
            &&& res == Ok::<usize, Failure>(0)
            &&& after.curr is Eof
            &&& after.rest.len() == 0
            &&& buf_after == buf
        } else {
            match self.prospects()[k] {
                Prospect::Unknown => true,
                Prospect::Bytes(bytes) => {
                    &&& after.rest == self.rest.skip(k)
                    &&& self.landing(k).answers(buf, res, after.curr, buf_after)
                    &&& delivers(bytes, buf, res, buf_after, after.curr.pending())
                    &&& after.curr is Open
                    &&& after.curr.path() == self.landing(k).path()
                },
                Prospect::Fails(failure) => {
                    &&& after.rest == self.rest.skip(k)
                    &&& self.landing(k).answers(buf, res, after.curr, buf_after)
                    &&& res == Err::<usize, Failure>(failure)
                    &&& after.curr matches ReaderState::Failed(kept, _)
                    &&& kept == failure
                    &&& after.curr.path() == self.landing(k).path()
                    &&& buf_after == buf
                },
            }
        }
    }
}

impl<R: FileLike> Cursor<R> {
    /// What a read into a buffer with room delivers of the bytes that are
    /// known to come.
    ///
    /// While such bytes are left, the read returns a count above zero and
    /// puts that many of them at the front of the buffer, in their order;
    /// the others are the bytes known to come next, and what comes after
    /// them is as before. Once none is left, the read ends as is known to
    /// come: at the end with `Ok(0)`, or with the failure of the source that
    /// cannot be opened, which stays the current one.
    pub open spec fn read_follows_known(
        self,
        buf: Seq<u8>,
        res: Result<usize, Failure>,
        after: Self,
        buf_after: Seq<u8>,
    ) -> bool {
        if self.known().len() > 0 {
            &&& delivers(self.known(), buf, res, buf_after, Some(after.known()))
            &&& after.ending() == self.ending()
            &&& after.curr is Open
        } else {
            match self.ending() {
                Ending::End => {
                    &&& res == Ok::<usize, Failure>(0)
                    &&& after.curr is Eof
                    &&& after.rest.len() == 0
                    &&& after.known().len() == 0
                    &&& after.ending() == self.ending()
                    &&& buf_after == buf
                },
                Ending::Fails(failure) => {
                    &&& res == Err::<usize, Failure>(failure)
                    &&& after.curr matches ReaderState::Failed(kept, _)
                    &&& kept == failure
                    &&& after.known().len() == 0
                    &&& after.ending() == self.ending()
                    &&& buf_after == buf
                },
                Ending::Unknown => true,
            }
        }
    }
}

/// What a state answers to a read agrees with what is known of its source:
/// known bytes are delivered, and a known failure to open is returned and
/// kept.
pub proof fn lemma_state_answers<R: FileLike>(
    state: ReaderState<R>,
    buf: Seq<u8>,
    res: Result<usize, Failure>,
    after: ReaderState<R>,
    buf_after: Seq<u8>,
)
    requires
        state.answers(buf, res, after, buf_after),
    ensures
        after.path() == state.path(),
        state.prospect() matches Prospect::Bytes(bytes) ==> {
            &&& delivers(bytes, buf, res, buf_after, after.pending())
            &&& (after is Eof <==> state is Eof)
            &&& !(after is Failed) && !(after is Init)
        },
        state.prospect() matches Prospect::Fails(failure) ==> {
            &&& res == Err::<usize, Failure>(failure)
            &&& after matches ReaderState::Failed(kept, _)
            &&& kept == failure
            &&& buf_after == buf
        },
{
    match state {
        ReaderState::Eof => {
            lemma_end_delivers_nothing(buf);
        },
        ReaderState::Init(path) => {
            let outcome = choose|outcome: Result<R, Failure>| #[trigger]
                opens(path, outcome) && match outcome {
                    Err(failure) => {
                        &&& res == Err::<usize, Failure>(failure)
                        &&& after == ReaderState::<R>::Failed(failure, path)
                        &&& buf_after == buf
                    },
                    Ok(source) => {
                        &&& after matches ReaderState::Open(left, same)
                        &&& same == path
                        &&& reads(source, buf, res, left, buf_after)
                    },
                };
        },
        _ => {},
    }
}

/// A read that goes as `reads` says delivers what `read_delivers` says.
pub proof fn lemma_reads_deliver<R: FileLike>(
    cursor: Cursor<R>,
    buf: Seq<u8>,
    res: Result<usize, Failure>,
    after: Cursor<R>,
    buf_after: Seq<u8>,
)
    requires
        buf.len() > 0,
        cursor.reads(buf, res, after, buf_after),
    ensures
        cursor.read_delivers(buf, res, after, buf_after),
    decreases cursor.rest.len(),
{
    let prospects = cursor.prospects();
    lemma_passed(prospects);
    let (outcome, curr, mid) = choose|
        outcome: Result<usize, Failure>,
        curr: ReaderState<R>,
        mid: Seq<u8>,
    |
        {
            &&& #[trigger] cursor.curr.answers(buf, outcome, curr, mid)
            &&& mid.len() == buf.len()
            &&& if outcome == Ok::<usize, Failure>(0) && cursor.rest.len() > 0 {
                Cursor::<R>::start(cursor.rest).reads(mid, res, after, buf_after)
            } else {
                &&& res == outcome
                &&& after == (Cursor { curr, rest: cursor.rest }).settle(outcome).0
                &&& buf_after == mid
            }
        };
    lemma_state_answers(cursor.curr, buf, outcome, curr, mid);
    let first = prospects[0];
    assert(first == cursor.curr.prospect());
    assert(cursor.rest.skip(0) =~= cursor.rest);
    if first.is_empty() {
        assert(mid =~= buf);
        let next = Cursor::<R>::start(cursor.rest);
        if cursor.rest.len() > 0 {
            lemma_reads_deliver(next, mid, res, after, buf_after);
            assert(next.prospects() =~= prospects.drop_first());
            lemma_passed(next.prospects());
            let j = passed(next.prospects()) as int;
            if j < next.prospects().len() {
                assert(next.rest.skip(j) =~= cursor.rest.skip(j + 1));
                assert(next.landing(j) == cursor.landing(j + 1));
            }
        } else {
            assert(prospects.drop_first() =~= Seq::<Prospect>::empty());
        }
    }
}

/// What is known of the sources after a read that got to a source and
/// stayed there: of that source what its state then says, and of the paths
/// after it what was known before.
pub proof fn lemma_prospects_after<R: FileLike>(cursor: Cursor<R>, k: int, after: Cursor<R>)
    requires
        0 <= k <= cursor.rest.len(),
        after.rest == cursor.rest.skip(k),
    ensures
        after.prospects() == cursor.prospects().skip(k).update(0, after.curr.prospect()),
{
    assert(after.prospects() =~= cursor.prospects().skip(k).update(0, after.curr.prospect()));
}

/// A reader over the sources at the given paths, one after the other. Each
/// source is opened when the first byte is asked of it, and not before.
pub struct InnerReader<R> {
    curr: ReaderState<R>,
    rest: VecDeque<PathBuf>,
}

impl<R> View for InnerReader<R> {
    type V = Cursor<R>;

    closed spec fn view(&self) -> Cursor<R> {
        Cursor { curr: self.curr, rest: self.rest@ }
    }
}

impl<R> InnerReader<R> {
    /// A reader over the sources at `paths`, in that order. Nothing is opened
    /// yet.
    pub fn new(paths: Vec<PathBuf>) -> (reader: Self)
        ensures
            reader@ == Cursor::<R>::start(paths@),
            reader@.wf(),
    {
        let mut rest = queue_of(paths);
        let first = rest.pop_front();
        let curr = ReaderState::from(first);
        InnerReader { curr, rest }
    }

    /// Acts on what the current source has answered to a read: leaves a
    /// source that is at its end for the next one, and says whether the read
    /// is over and with what result.
    pub fn settle(&mut self, outcome: Result<usize, Failure>) -> (next: Next)
        ensures
            (final(self)@, next) == old(self)@.settle(outcome),
            old(self)@.wf() ==> final(self)@.wf(),
    {
        match outcome {
            Ok(0) => {
                let first = self.rest.pop_front();
                self.curr = ReaderState::from(first);
                if self.curr.is_init() {
                    Next::Again
                } else {
                    Next::Done(outcome)
                }
            },
            _ => Next::Done(outcome),
        }
    }
}

/// A read into a buffer with room that delivers what `read_delivers` says
/// delivers the bytes that are known to come, where all are known.
pub proof fn lemma_delivers_known<R: FileLike>(
    cursor: Cursor<R>,
    buf: Seq<u8>,
    res: Result<usize, Failure>,
    after: Cursor<R>,
    buf_after: Seq<u8>,
)
    requires
        buf.len() > 0,
        cursor.read_delivers(buf, res, after, buf_after),
    ensures
        cursor.read_follows_known(buf, res, after, buf_after),
{
    let prospects = cursor.prospects();
    lemma_passed(prospects);
    let k = passed(prospects) as int;
    if k == prospects.len() {
        assert(prospects.skip(k) =~= Seq::<Prospect>::empty());
        assert(after.rest =~= Seq::<PathBuf>::empty());
        assert(after.prospects() =~= seq![Prospect::Bytes(Seq::<u8>::empty())]);
        assert(after.prospects().drop_first() =~= Seq::<Prospect>::empty());
    } else {
        let landed = prospects.skip(k);
        assert(landed[0] == prospects[k]);
        match prospects[k] {
            Prospect::Bytes(bytes) => {
                let n = res->Ok_0 as int;
                lemma_prospects_after(cursor, k, after);
                lemma_known_advances(landed, n);
                assert(after.curr.prospect() == Prospect::Bytes(bytes.skip(n)));
                assert(known(landed).len() >= bytes.len());
            },
            Prospect::Fails(failure) => {
                lemma_prospects_after(cursor, k, after);
                assert(after.prospects() =~= landed);
            },
            Prospect::Unknown => {},
        }
    }
}

/// A reader that has not read anything yet knows of its sources what their
/// paths are known to lead to.
pub proof fn lemma_start_prospects<R: FileLike>(paths: Seq<PathBuf>)
    ensures
        known(Cursor::<R>::start(paths).prospects()) == known(path_prospects::<R>(paths)),
        ending(Cursor::<R>::start(paths).prospects()) == ending(path_prospects::<R>(paths)),
{
    let prospects = Cursor::<R>::start(paths).prospects();
    if paths.len() > 0 {
        assert(prospects =~= path_prospects::<R>(paths));
    } else {
        let tail = prospects.drop_first();
        assert(tail =~= Seq::<Prospect>::empty());
        assert(prospects[0] == Prospect::Bytes(Seq::<u8>::empty()));
        assert(known(tail) =~= Seq::<u8>::empty());
        assert(ending(tail) == Ending::End);
        assert(known(prospects) =~= Seq::<u8>::empty());
        assert(path_prospects::<R>(paths) =~= Seq::<Prospect>::empty());
    }
}

/// Concatenation: where the paths are known to lead to sources that hold
/// `held[0]`, `held[1]` and so on, a reader over them has, before anything
/// is read, the bytes of `held[0]`, then those of `held[1]` and so on
/// pending as one run, and after them the end.
pub proof fn law_concatenation<R: FileLike>(paths: Seq<PathBuf>, held: Seq<Seq<u8>>)
    requires
        held.len() == paths.len(),
        forall|i: int|
            0 <= i < paths.len() ==> R::found(#[trigger] paths[i]) == Some(
                Ok::<Seq<u8>, Failure>(held[i]),
            ),
    ensures
        Cursor::<R>::start(paths).known() == held.flatten(),
        Cursor::<R>::start(paths).ending() == Ending::End,
        Cursor::<R>::start(paths).pending() == Some(held.flatten()),
{
    let prospects = path_prospects::<R>(paths);
    lemma_start_prospects::<R>(paths);
    lemma_known_until(prospects, held);
    assert(prospects.skip(held.len() as int) =~= Seq::<Prospect>::empty());
    assert(held.flatten() + Seq::<u8>::empty() =~= held.flatten());
}

/// No failing source is passed over, and none is reached too early: where a
/// path is known to fail to open and the paths before it are known to lead
/// to sources that hold `held[0]`, `held[1]` and so on, a reader over them
/// has just these bytes known to come, in that order, and after them that
/// failure.
pub proof fn law_failure_after_predecessors<R: FileLike>(
    paths: Seq<PathBuf>,
    held: Seq<Seq<u8>>,
    failure: Failure,
)
    requires
        held.len() < paths.len(),
        forall|i: int|
            0 <= i < held.len() ==> R::found(#[trigger] paths[i]) == Some(
                Ok::<Seq<u8>, Failure>(held[i]),
            ),
        R::found(paths[held.len() as int]) == Some(Err::<Seq<u8>, Failure>(failure)),
    ensures
        Cursor::<R>::start(paths).known() == held.flatten(),
        Cursor::<R>::start(paths).ending() == Ending::Fails(failure),
{
    let prospects = path_prospects::<R>(paths);
    lemma_start_prospects::<R>(paths);
    lemma_known_until(prospects, held);
    let rest = prospects.skip(held.len() as int);
    assert(rest[0] == Prospect::Fails(failure));
    assert(held.flatten() + Seq::<u8>::empty() =~= held.flatten());
}

/// Reading in order: a read into a buffer with room delivers the next of
/// the bytes that are known to come, and no others; what is then known to
/// come are the bytes after them, with the same ending. Once none is left,
/// the read ends as is known: with `Ok(0)` at the end, or with the failure
/// of the source that cannot be opened, which then is the current one.
pub proof fn law_reads_in_order<R: FileLike>(
    cursor: Cursor<R>,
    buf: Seq<u8>,
    res: Result<usize, Failure>,
    after: Cursor<R>,
    buf_after: Seq<u8>,
)
    requires
        buf.len() > 0,
        cursor.reads(buf, res, after, buf_after),
    ensures
        cursor.read_follows_known(buf, res, after, buf_after),
{
    lemma_reads_deliver(cursor, buf, res, after, buf_after);
    lemma_delivers_known(cursor, buf, res, after, buf_after);
}

/// Whether this is a course of reads into buffers with room: `run[0]` is
/// the cursor before the first read; read `i` finds the buffer holding
/// `bufs[i]`, returns `answers[i]`, and leaves the cursor `run[i + 1]` and the
/// buffer holding `outs[i]`.
pub open spec fn is_reading<R: FileLike>(
    run: Seq<Cursor<R>>,
    bufs: Seq<Seq<u8>>,
    answers: Seq<Result<usize, Failure>>,
    outs: Seq<Seq<u8>>,
) -> bool {
    &&& run.len() == bufs.len() + 1
    &&& answers.len() == bufs.len()
    &&& outs.len() == bufs.len()
    &&& forall|i: int|
        0 <= i < bufs.len() ==> bufs[i].len() > 0 && (#[trigger] run[i]).reads(
            bufs[i],
            answers[i],
            run[i + 1],
            outs[i],
        )
}

/// Reading on delivers what was known to come, and nothing else: at every
/// point of a course of reads, the bytes delivered so far and the bytes
/// then known to come make up the bytes that were known to come at the
/// start. A read that finds such bytes left returns a count above zero; a
/// read that finds none left ends as was known at the start: with `Ok(0)` at the end, or with the
/// failure of the source that cannot be opened.
pub proof fn law_reading_delivers_known<R: FileLike>(
    run: Seq<Cursor<R>>,
    bufs: Seq<Seq<u8>>,
    answers: Seq<Result<usize, Failure>>,
    outs: Seq<Seq<u8>>,
    i: int,
)
    requires
        is_reading(run, bufs, answers, outs),
        !(run[0].ending() is Unknown),
        0 <= i <= bufs.len(),
    ensures
        delivered(answers, outs, i) + run[i].known() == run[0].known(),
        run[i].ending() == run[0].ending(),
        i < bufs.len() ==> if run[i].known().len() > 0 {
            answers[i] matches Ok(n) && n > 0
        } else {
            match run[0].ending() {
                Ending::End => answers[i] == Ok::<usize, Failure>(0),
                Ending::Fails(failure) => answers[i] == Err::<usize, Failure>(failure),
                Ending::Unknown => true,
            }
        },
    decreases i,
{
    if i > 0 {
        law_reading_delivers_known(run, bufs, answers, outs, i - 1);
        let before = run[i - 1];
        law_reads_in_order(before, bufs[i - 1], answers[i - 1], run[i], outs[i - 1]);
        let so_far = delivered(answers, outs, i - 1);
        if before.known().len() > 0 {
            let n = answers[i - 1]->Ok_0 as int;
            assert(outs[i - 1].take(n) =~= before.known().take(n));
            assert(so_far + before.known().take(n) + before.known().skip(n) =~= so_far
                + before.known());
        } else {
            assert(outs[i - 1].take(0) =~= Seq::<u8>::empty());
            assert(so_far + Seq::<u8>::empty() + run[i].known() =~= so_far + before.known());
        }
    } else {
        assert(delivered(answers, outs, 0) + run[0].known() =~= run[0].known());
    }
    if i < bufs.len() {
        law_reads_in_order(run[i], bufs[i], answers[i], run[i + 1], outs[i]);
    }
}

/// After a skip the reader starts at the next path: what is then known to
/// come is what the paths that followed are known to lead to, whatever the
/// abandoned source was or held.
pub proof fn law_skip_starts_at_next_path<R: FileLike>(cursor: Cursor<R>)
    ensures
        cursor.skip().known() == known(path_prospects::<R>(cursor.rest)),
        cursor.skip().ending() == ending(path_prospects::<R>(cursor.rest)),
{
    lemma_start_prospects::<R>(cursor.rest);
}

impl<R: FileLike> Source for InnerReader<R> {
    open spec fn pending(&self) -> Option<Seq<u8>> {
        self@.pending()
    }

    open spec fn answers(
        self,
        buf: Seq<u8>,
        res: Result<usize, Failure>,
        after: Self,
        buf_after: Seq<u8>,
    ) -> bool {
        self@.reads(buf, res, after@, buf_after)
    }

    /// Reads from the current source, opening it first if need be, and moves
    /// on to the next source whenever one is at its end.
    ///
    /// How the read goes is said by `Cursor::reads`, step by step and for
    /// every source. What follows from it is stated as well: what the reader
    /// answers alone and where it can stand afterwards (`read_leads_to`),
    /// and what it delivers where the sources are known (`read_delivers`).
    fn read(&mut self, buf: &mut [u8]) -> (res: Result<usize, Failure>)
        ensures
            old(self)@.read_leads_to(old(buf)@.len(), res, final(self)@),
            old(self)@.answers_alone(old(buf)@.len()) ==> final(buf)@ == old(buf)@,
            old(buf)@.len() > 0 ==> old(self)@.read_delivers(
                old(buf)@,
                res,
                final(self)@,
                final(buf)@,
            ),
    {
        if buf.is_empty() {
            proof {
                lemma_continues_itself(self@);
                match self@.pending() {
                    Some(bytes) => lemma_empty_buffer_takes_nothing(bytes, buf@),
                    None => {},
                }
            }
            return Ok(0);
        }
        proof {
            lemma_continues_itself(self@);
        }
        loop
            invariant
                buf@.len() == old(buf)@.len(),
                buf@.len() > 0,
                self@.continues(old(self)@),
                old(self)@.wf() ==> self@.wf(),
                old(self)@.answers_alone(buf@.len()) ==> {
                    &&& self@ == old(self)@
                    &&& buf@ == old(buf)@
                },
                forall|r: Result<usize, Failure>, a: Cursor<R>, o: Seq<u8>| #[trigger]
                    self@.reads(buf@, r, a, o) ==> old(self)@.reads(old(buf)@, r, a, o),
            decreases self@.rest.len(),
        {
            let ghost before = self@;
            let ghost held = buf@;
            let outcome = self.curr.read(buf);
            let ghost asked = self@;
            let ghost answer = outcome;
            proof {
                assert(self@.paths() == before.paths());
                lemma_continues_past_skip(old(self)@, self@);
                assert(before.curr.answers(held, answer, asked.curr, buf@));
            }
            match self.settle(outcome) {
                Next::Done(res) => {
                    proof {
                        assert(before.reads(held, res, self@, buf@));
                        lemma_reads_deliver(old(self)@, old(buf)@, res, self@, buf@);
                        lemma_delivers_known(old(self)@, old(buf)@, res, self@, buf@);
                        match old(self)@.pending() {
                            Some(bytes) => {
                                assert(bytes == old(self)@.known());
                                assert(self@.ending() == old(self)@.ending());
                                if bytes.len() == 0 {
                                    assert(self@.known() =~= bytes.skip(0));
                                    assert(buf@ =~= bytes.take(0) + old(buf)@.skip(0));
                                }
                                assert(delivers(bytes, old(buf)@, res, buf@, self@.pending()));
                            },
                            None => {},
                        }
                    }
                    return res;
                },
                Next::Again => {
                    proof {
                        assert forall|r: Result<usize, Failure>, a: Cursor<R>, o: Seq<u8>|
                            #[trigger] self@.reads(buf@, r, a, o) implies old(self)@.reads(
                            old(buf)@,
                            r,
                            a,
                            o,
                        ) by {
                            assert(before.reads(held, r, a, o));
                        }
                    }
                },
            }
        }
    }
}

impl<R: Render> Render for InnerReader<R> {
    open spec fn text(&self) -> Option<Seq<char>> {
        self@.text()
    }

    fn render(&self) -> (text: String) {
        let mut text = String::from_str("CatReader { curr: ");
        text.append(self.curr.render().as_str());
        text.append(", rest: ");
        text.append(render_list(&self.rest).as_str());
        text.append(" }");
        text
    }
}

impl<R: FileLike> ConcatRead for InnerReader<R> {
    type Item = R;

    open spec fn sources_left(&self) -> Option<nat> {
        Some(self@.left())
    }

    /// Abandons the current source, whatever its state, and lets the next
    /// path await opening. Returns whether there was a next path.
    fn skip(&mut self) -> (more: bool)
        ensures
            final(self)@ == old(self)@.skip(),
            final(self)@.wf(),
            more == (final(self)@.curr is Init),
    {
        let first = self.rest.pop_front();
        self.curr = ReaderState::from(first);
        self.curr.is_init()
    }

    /// The source that is open, if the current one is. Opens nothing.
    fn current(&self) -> (item: Option<&R>)
        ensures
            match item {
                Some(source) => self@.curr matches ReaderState::Open(open, _) && open == *source,
                None => !(self@.curr is Open),
            },
    {
        match &self.curr {
            ReaderState::Open(source, _) => Some(source),
            _ => None,
        }
    }
}

impl<R: FileLike> FileConcatRead for InnerReader<R> {
    /// The path of the current source, whether it is open, still to be
    /// opened, or could not be opened; nothing at the end.
    fn file_path(&self) -> (path: Option<&PathBuf>)
        ensures
            match path {
                Some(path) => self@.curr.path() == Some(*path),
                None => self@.curr.path() is None,
            },
    {
        match &self.curr {
            ReaderState::Init(path) => Some(path),
            ReaderState::Open(_, path) => Some(path),
            ReaderState::Failed(_, path) => Some(path),
            ReaderState::Eof => None,
        }
    }
}

/// A reader over the files at the given paths, one after the other. Each file
/// is opened when the first byte is asked of it, and not before; the reader
/// moves on when a file is at its end, and is at its end after the last one.
pub struct FileConcatReader<R> {
    inner: InnerReader<R>,
}

impl<R> View for FileConcatReader<R> {
    type V = Cursor<R>;

    closed spec fn view(&self) -> Cursor<R> {
        self.inner@
    }
}

impl<R: FileLike> FileConcatReader<R> {
    /// A reader over the files at `paths`, in that order. Nothing is opened
    /// yet.
    pub fn new(paths: Vec<PathBuf>) -> (reader: Self)
        ensures
            reader@ == Cursor::<R>::start(paths@),
            reader@.wf(),
    {
        FileConcatReader { inner: InnerReader::new(paths) }
    }
}

impl<R: FileLike> Source for FileConcatReader<R> {
    open spec fn pending(&self) -> Option<Seq<u8>> {
        self@.pending()
    }

    open spec fn answers(
        self,
        buf: Seq<u8>,
        res: Result<usize, Failure>,
        after: Self,
        buf_after: Seq<u8>,
    ) -> bool {
        self@.reads(buf, res, after@, buf_after)
    }

    /// Reads as `InnerReader` does.
    fn read(&mut self, buf: &mut [u8]) -> (res: Result<usize, Failure>)
        ensures
            old(self)@.read_leads_to(old(buf)@.len(), res, final(self)@),
            old(self)@.answers_alone(old(buf)@.len()) ==> final(buf)@ == old(buf)@,
            old(buf)@.len() > 0 ==> old(self)@.read_delivers(
                old(buf)@,
                res,
                final(self)@,
                final(buf)@,
            ),
    {
        self.inner.read(buf)
    }
}

impl<R: Render> Render for FileConcatReader<R> {
    open spec fn text(&self) -> Option<Seq<char>> {
        self@.text()
    }

    fn render(&self) -> (text: String) {
        self.inner.render()
    }
}

impl<R: FileLike> ConcatRead for FileConcatReader<R> {
    type Item = R;

    open spec fn sources_left(&self) -> Option<nat> {
        Some(self@.left())
    }

    /// Abandons the current file, whatever its state, and lets the next path
    /// await opening. Returns whether there was a next path.
    fn skip(&mut self) -> (more: bool)
        ensures
            final(self)@ == old(self)@.skip(),
            final(self)@.wf(),
            more == (final(self)@.curr is Init),
    {
        self.inner.skip()
    }

    /// The file that is open, if the current one is. Opens nothing.
    fn current(&self) -> (item: Option<&R>)
        ensures
            match item {
                Some(source) => self@.curr matches ReaderState::Open(open, _) && open == *source,
                None => !(self@.curr is Open),
            },
    {
        self.inner.current()
    }
}

impl<R: FileLike> FileConcatRead for FileConcatReader<R> {
    /// The path of the current file, whether it is open, still to be opened,
    /// or could not be opened; nothing at the end.
    fn file_path(&self) -> (path: Option<&PathBuf>)
        ensures
            match path {
                Some(path) => self@.curr.path() == Some(*path),
                None => self@.curr.path() is None,
            },
    {
        self.inner.file_path()
    }
}

} // verus!
