//! The reader over sources that are already open.

use crate::error::Failure;
use crate::render::{list_text, render_list, texts, Render};
use crate::source::{
    delivered, delivers, ending, known, lemma_empty_buffer_takes_nothing,
    lemma_end_delivers_nothing, lemma_known_advances, lemma_known_until, lemma_passed, passed,
    prospect_of, queue_of, reads, Ending, Next, Prospect, Source,
};
use crate::ConcatRead;
use std::collections::VecDeque;
use vstd::prelude::*;
use vstd::string::StringExecFns;

verus! {

/// What a `ConcatReader` holds: the source it is at, and the sources that
/// follow, in the order in which they will be read.
pub struct Chain<R> {
    pub curr: Option<R>,
    pub rest: Seq<R>,
}

impl<R> Chain<R> {
    /// Once there is no current source, none follows either. Every chain that
    /// a reader starts with is like that, and reading and skipping keep it so.
    pub open spec fn wf(self) -> bool {
        self.curr is None ==> self.rest.len() == 0
    }

    /// The chain of a reader that has not read anything yet: the first source
    /// is the current one, the others follow.
    pub open spec fn start(sources: Seq<R>) -> Self {
        if sources.len() == 0 {
            Chain { curr: None, rest: sources }
        } else {
            Chain { curr: Some(sources[0]), rest: sources.drop_first() }
        }
    }

    /// The chain after the current source has been abandoned.
    pub open spec fn skip(self) -> Self {
        Self::start(self.rest)
    }

    /// How many sources are still to be read, the current one included.
    pub open spec fn left(self) -> nat {
        if self.curr is None && self.rest.len() == 0 {
            0
        } else {
            self.rest.len() + 1
        }
    }

    /// Whether this chain can be reached from `earlier` by leaving sources
    /// behind: the sources that follow are what is left of those that
    /// followed.
    pub open spec fn continues(self, earlier: Self) -> bool {
        exists|k: int|
            0 <= k <= earlier.rest.len() && self.rest == #[trigger] earlier.rest.skip(k)
    }

    /// Whether a read into a buffer of `cap` bytes is answered without asking
    /// any source: the buffer is empty, or there is no current source.
    pub open spec fn answers_alone(self, cap: nat) -> bool {
        cap == 0 || self.curr is None
    }

    /// Where a read into a buffer of `cap` bytes can lead: to the result
    /// `res` and the chain `after`.
    ///
    /// Where the reader answers alone, the result is `Ok(0)` and the chain
    /// stays. Otherwise `Ok(0)` is the result only once every source has
    /// been read to its end, and after any other result a source is
    /// current. Sources are only ever left behind, in their order.
    pub open spec fn read_leads_to(
        self,
        cap: nat,
        res: Result<usize, Failure>,
        after: Self,
    ) -> bool {
        &&& self.wf() ==> after.wf()
        &&& after.continues(self)
        &&& if self.answers_alone(cap) {
            res == Ok::<usize, Failure>(0) && after == self
        } else if res == Ok::<usize, Failure>(0) {
            after.curr is None && after.rest.len() == 0
        } else {
            after.curr is Some
        }
    }

    /// What follows when the current source has answered a read into a
    /// buffer with room with `outcome`: a source that gave nothing is at its
    /// end and is left for the next one, and the read is tried again if
    /// there is one; anything else is the result of the read.
    pub open spec fn settle(self, outcome: Result<usize, Failure>) -> (Self, Next) {
        if outcome == Ok::<usize, Failure>(0) {
            let next = self.skip();
            if next.curr is Some {
                (next, Next::Again)
            } else {
                (next, Next::Done(outcome))
            }
        } else {
            (self, Next::Done(outcome))
        }
    }
}

impl<R: Render> Chain<R> {
    /// How a reader is written out: the current source, if there is one,
    /// then the sources that follow as a list.
    pub open spec fn text(self) -> Option<Seq<char>> {
        let curr = match self.curr {
            Some(source) => match source.text() {
                Some(source) => Some("Some("@ + source + ")"@),
                None => None,
            },
            None => Some("None"@),
        };
        match (curr, texts(self.rest)) {
            (Some(curr), Some(rest)) => Some(
                "Concat { curr: "@ + curr + ", rest: "@ + list_text(rest) + " }"@,
            ),
            _ => None,
        }
    }
}

impl<R: Source> Chain<R> {
    /// What is known of the sources still to be read: of the current one,
    /// then of each that follows.
    pub open spec fn prospects(self) -> Seq<Prospect> {
        match self.curr {
            Some(source) => seq![prospect_of(source.pending())] + Seq::new(
                self.rest.len(),
                |i: int| prospect_of(self.rest[i].pending()),
            ),
            None => Seq::empty(),
        }
    }

    /// The bytes that the reader is known to deliver next: those of the
    /// current source and of the sources that follow, up to the first of
    /// which nothing is known.
    pub open spec fn known(self) -> Seq<u8> {
        known(self.prospects())
    }

    /// What is known to come after those bytes.
    pub open spec fn ending(self) -> Ending {
        ending(self.prospects())
    }

    /// All the bytes still to come, where every source knows its own.
    pub open spec fn pending(self) -> Option<Seq<u8>> {
        match self.ending() {
            Ending::End => Some(self.known()),
            _ => None,
        }
    }

    /// The source that a read gets to after it has passed over `k` sources.
    pub open spec fn landing(self, k: int) -> R {
        if k == 0 {
            self.curr->0
        } else {
            self.rest[k - 1]
        }
    }

    /// Whether a read can go this way: from this chain and a buffer that
    /// holds `buf` to the result `res`, the chain `after` and a buffer that
    /// holds `buf_after`.
    ///
    /// An empty buffer, and a reader without a current source, are answered
    /// with `Ok(0)` at once. Otherwise the current source is read from. If
    /// it answers `Ok(0)`, it is at its end: the next source takes its place
    /// and the read goes on there, or ends with `Ok(0)` if there is none.
    /// Anything else that it answers is the result, and the source stays
    /// the current one.
    pub open spec fn reads(
        self,
        buf: Seq<u8>,
        res: Result<usize, Failure>,
        after: Self,
        buf_after: Seq<u8>,
    ) -> bool
        decreases self.rest.len(),
    {
        if buf.len() == 0 || self.curr is None {
            res == Ok::<usize, Failure>(0) && after == self && buf_after == buf
        } else {
            exists|outcome: Result<usize, Failure>, source: R, mid: Seq<u8>|
                {
                    &&& #[trigger] reads(self.curr->0, buf, outcome, source, mid)
                    &&& if outcome == Ok::<usize, Failure>(0) && self.rest.len() > 0 {
                        Self::start(self.rest).reads(mid, res, after, buf_after)
                    } else {
                        &&& res == outcome
                        &&& after == (Chain { curr: Some(source), rest: self.rest }).settle(
                            outcome,
                        ).0
                        &&& buf_after == mid
                    }
                }
        }
    }

    /// What a read into a buffer with room delivers, as far as it is known.
    ///
    /// The read passes over the sources at the front that are known to hold
    /// no byte. If no source is left then, the result is `Ok(0)` and no
    /// source is current. If the source it gets to is known to hold
    /// bytes, that source alone is read from: the result and the buffer are
    /// what it answers, which is a count above zero with that many of its
    /// bytes; it stays the current source, and the sources after it still
    /// follow.
    pub open spec fn read_delivers(
        self,
        buf: Seq<u8>,
        res: Result<usize, Failure>,
        after: Self,
        buf_after: Seq<u8>,
    ) -> bool {
        let k = passed(self.prospects()) as int;
        if k == self.prospects().len() {
            &&& res == Ok::<usize, Failure>(0)
            &&& after.curr is None
            &&& buf_after == buf
        } else {
            match self.prospects()[k] {
                Prospect::Bytes(bytes) => {
                    &&& after.rest == self.rest.skip(k)
                    &&& after.curr matches Some(left)
                    &&& reads(self.landing(k), buf, res, left, buf_after)
                    &&& delivers(bytes, buf, res, buf_after, left.pending())
                },
                _ => true,
            }
        }
    }

    /// What a read into a buffer with room delivers of the bytes that are
    /// known to come.
    ///
    /// While such bytes are left, the read returns a count above zero and
    /// puts that many of them at the front of the buffer, in their order;
    /// the others are the bytes known to come next, and what comes after
    /// them is as before. Once none is left and the end is known to come,
    /// the read returns `Ok(0)` and the reader is at its end.
    pub open spec fn read_follows_known(
        self,
        buf: Seq<u8>,
        res: Result<usize, Failure>,
        after: Self,
        buf_after: Seq<u8>,
    ) -> bool {
        if self.known().len() > 0 {
            &&& delivers(self.known(), buf, res, buf_after, Some(after.known()))
            &&& after.ending() == self.ending()
            &&& after.curr is Some
        } else {
            self.ending() is End ==> {
                &&& res == Ok::<usize, Failure>(0)
                &&& after.curr is None
                &&& after.known().len() == 0
                &&& after.ending() is End
                &&& buf_after == buf
            }
        }
    }
}

/// What is known of the sources after a read that got to a source and
/// stayed there: of that source what it then says, and of the sources after
/// it what was known before.
pub proof fn lemma_prospects_after<R: Source>(chain: Chain<R>, k: int, after: Chain<R>)
    requires
        chain.curr is Some,
        after.curr is Some,
        0 <= k <= chain.rest.len(),
        after.rest == chain.rest.skip(k),
    ensures
        after.prospects() == chain.prospects().skip(k).update(
            0,
            prospect_of(after.curr->0.pending()),
        ),
{
    assert(after.prospects() =~= chain.prospects().skip(k).update(
        0,
        prospect_of(after.curr->0.pending()),
    ));
}

/// A read that goes as `reads` says delivers what `read_delivers` says.
pub proof fn lemma_reads_deliver<R: Source>(
    chain: Chain<R>,
    buf: Seq<u8>,
    res: Result<usize, Failure>,
    after: Chain<R>,
    buf_after: Seq<u8>,
)
    requires
        buf.len() > 0,
        chain.reads(buf, res, after, buf_after),
    ensures
        chain.read_delivers(buf, res, after, buf_after),
    decreases chain.rest.len(),
{
    let prospects = chain.prospects();
    lemma_passed(prospects);
    if chain.curr is Some {
        let (outcome, source, mid) = choose|
            outcome: Result<usize, Failure>,
            source: R,
            mid: Seq<u8>,
        |
            {
                &&& #[trigger] reads(chain.curr->0, buf, outcome, source, mid)
                &&& if outcome == Ok::<usize, Failure>(0) && chain.rest.len() > 0 {
                    Chain::<R>::start(chain.rest).reads(mid, res, after, buf_after)
                } else {
                    &&& res == outcome
                    &&& after == (Chain { curr: Some(source), rest: chain.rest }).settle(
                        outcome,
                    ).0
                    &&& buf_after == mid
                }
            };
        assert(prospects[0] == prospect_of(chain.curr->0.pending()));
        assert(chain.rest.skip(0) =~= chain.rest);
        if prospects[0].is_empty() {
            assert(mid =~= buf);
            let next = Chain::<R>::start(chain.rest);
            if chain.rest.len() > 0 {
                lemma_reads_deliver(next, mid, res, after, buf_after);
                assert(next.prospects() =~= prospects.drop_first());
                lemma_passed(next.prospects());
                let j = passed(next.prospects()) as int;
                if j < next.prospects().len() {
                    assert(next.rest.skip(j) =~= chain.rest.skip(j + 1));
                    assert(next.landing(j) == chain.landing(j + 1));
                }
            } else {
                assert(prospects.drop_first() =~= Seq::<Prospect>::empty());
            }
        }
    }
}

/// A read into a buffer with room that delivers what `read_delivers` says
/// delivers the bytes that are known to come.
pub proof fn lemma_delivers_known<R: Source>(
    chain: Chain<R>,
    buf: Seq<u8>,
    res: Result<usize, Failure>,
    after: Chain<R>,
    buf_after: Seq<u8>,
)
    requires
        buf.len() > 0,
        chain.read_delivers(buf, res, after, buf_after),
    ensures
        chain.read_follows_known(buf, res, after, buf_after),
{
    let prospects = chain.prospects();
    lemma_passed(prospects);
    let k = passed(prospects) as int;
    if k == prospects.len() {
        assert(prospects.skip(k) =~= Seq::<Prospect>::empty());
    } else {
        let landed = prospects.skip(k);
        assert(landed[0] == prospects[k]);
        match prospects[k] {
            Prospect::Bytes(bytes) => {
                let n = res->Ok_0 as int;
                lemma_prospects_after(chain, k, after);
                lemma_known_advances(landed, n);
                assert(known(landed).len() >= bytes.len());
            },
            _ => {},
        }
    }
}

/// Concatenation: a reader over sources that hold `held[0]`, `held[1]` and so
/// on has, before anything is read, the bytes of `held[0]`, then those of
/// `held[1]` and so on pending as one run, and after them the end.
pub proof fn law_concatenation<R: Source>(sources: Seq<R>, held: Seq<Seq<u8>>)
    requires
        held.len() == sources.len(),
        forall|i: int|
            0 <= i < sources.len() ==> (#[trigger] sources[i]).pending() == Some(held[i]),
    ensures
        Chain::start(sources).known() == held.flatten(),
        Chain::start(sources).ending() == Ending::End,
        Chain::start(sources).pending() == Some(held.flatten()),
{
    let prospects = Chain::start(sources).prospects();
    lemma_known_until(prospects, held);
    assert(prospects.skip(held.len() as int) =~= Seq::<Prospect>::empty());
    assert(held.flatten() + Seq::<u8>::empty() =~= held.flatten());
}

/// Reading in order: a read into a buffer with room delivers the next of
/// the bytes that are known to come, and no others; what is then known to
/// come are the bytes after them. Once none is left and the end is known to
/// come, the read returns `Ok(0)`.
pub proof fn law_reads_in_order<R: Source>(
    chain: Chain<R>,
    buf: Seq<u8>,
    res: Result<usize, Failure>,
    after: Chain<R>,
    buf_after: Seq<u8>,
)
    requires
        buf.len() > 0,
        chain.reads(buf, res, after, buf_after),
    ensures
        chain.read_follows_known(buf, res, after, buf_after),
{
    lemma_reads_deliver(chain, buf, res, after, buf_after);
    lemma_delivers_known(chain, buf, res, after, buf_after);
}

/// Whether this is a course of reads into buffers with room: `run[0]` is
/// the chain before the first read; read `i` finds the buffer holding
/// `bufs[i]`, returns `answers[i]`, and leaves the chain `run[i + 1]` and the
/// buffer holding `outs[i]`.
pub open spec fn is_reading<R: Source>(
    run: Seq<Chain<R>>,
    bufs: Seq<Seq<u8>>,
    answers: Seq<Result<usize, Failure>>,
    outs: Seq<Seq<u8>>,
) -> bool {
    &&& run.len() == bufs.len() + 1
    &&& answers.len() == bufs.len()
    &&& outs.len() == bufs.len()
    &&& forall|i: int|
        0 <= i < bufs.len() ==> bufs[i].len() > 0 && (#[trigger] run[i]).reads(
            bufs[i],
            answers[i],
            run[i + 1],
            outs[i],
        )
}

/// Reading on delivers what was known to come, and nothing else: where the
/// bytes of every source are known, then at every point of a course of
/// reads the bytes delivered so far and the bytes then known to come make
/// up the bytes that were known to come at the start. A read that finds
/// such bytes left returns a count above zero, and a read that finds none
/// left returns `Ok(0)`.
pub proof fn law_reading_delivers_known<R: Source>(
    run: Seq<Chain<R>>,
    bufs: Seq<Seq<u8>>,
    answers: Seq<Result<usize, Failure>>,
    outs: Seq<Seq<u8>>,
    i: int,
)
    requires
        is_reading(run, bufs, answers, outs),
        run[0].ending() is End,
        0 <= i <= bufs.len(),
    ensures
        delivered(answers, outs, i) + run[i].known() == run[0].known(),
        run[i].ending() == run[0].ending(),
        i < bufs.len() ==> if run[i].known().len() > 0 {
            answers[i] matches Ok(n) && n > 0
        } else {
            answers[i] == Ok::<usize, Failure>(0)
        },
    decreases i,
{
    if i > 0 {
        law_reading_delivers_known(run, bufs, answers, outs, i - 1);
        let before = run[i - 1];
        law_reads_in_order(before, bufs[i - 1], answers[i - 1], run[i], outs[i - 1]);
        let so_far = delivered(answers, outs, i - 1);
        if before.known().len() > 0 {
            let n = answers[i - 1]->Ok_0 as int;
            assert(outs[i - 1].take(n) =~= before.known().take(n));
            assert(so_far + before.known().take(n) + before.known().skip(n) =~= so_far
                + before.known());
        } else {
            assert(outs[i - 1].take(0) =~= Seq::<u8>::empty());
            assert(so_far + Seq::<u8>::empty() + run[i].known() =~= so_far + before.known());
        }
    } else {
        assert(delivered(answers, outs, 0) + run[0].known() =~= run[0].known());
    }
    if i < bufs.len() {
        law_reads_in_order(run[i], bufs[i], answers[i], run[i + 1], outs[i]);
    }
}

/// Whether `run` is a run of reads: `run[0]` is the chain before the first
/// read, `caps[i]` the room of the buffer of read `i`, `answers[i]` its
/// result, and `run[i + 1]` the chain after it.
pub open spec fn is_run<R>(
    run: Seq<Chain<R>>,
    caps: Seq<nat>,
    answers: Seq<Result<usize, Failure>>,
) -> bool {
    &&& run.len() == caps.len() + 1
    &&& answers.len() == caps.len()
    &&& forall|i: int|
        0 <= i < caps.len() ==> (#[trigger] run[i]).read_leads_to(caps[i], answers[i], run[i + 1])
}

/// No end before the end: a read into a buffer with room returns `Ok(0)` only
/// when no source is left, however many sources were at their end before.
pub proof fn law_no_early_end<R>(chain: Chain<R>, cap: nat, after: Chain<R>)
    requires
        chain.wf(),
        cap > 0,
        chain.read_leads_to(cap, Ok(0), after),
    ensures
        after.curr is None,
        after.left() == 0,
{
}

/// Empty sources hide nothing: as long as a source whose bytes are known to
/// come still holds a byte, the reader has bytes known to come, however many
/// empty sources stand before that one.
pub proof fn law_bytes_behind_empty_sources(prospects: Seq<Prospect>, i: int)
    requires
        0 <= i < prospects.len(),
        forall|j: int| 0 <= j < i ==> (#[trigger] prospects[j]).is_empty(),
        prospects[i] matches Prospect::Bytes(bytes) && bytes.len() > 0,
    ensures
        passed(prospects) == i,
        known(prospects).len() > 0,
    decreases i,
{
    if i > 0 {
        assert(prospects[0].is_empty());
        law_bytes_behind_empty_sources(prospects.drop_first(), i - 1);
    }
}

/// The end is final: once every source has been read or abandoned, every
/// read returns `Ok(0)` and leaves the reader at its end, where nothing is
/// pending, no source is current, and skipping changes nothing.
pub proof fn law_end_is_final<R: Source>(
    run: Seq<Chain<R>>,
    caps: Seq<nat>,
    answers: Seq<Result<usize, Failure>>,
    i: int,
)
    requires
        is_run(run, caps, answers),
        run[0].wf(),
        run[0].curr is None,
        0 <= i < caps.len(),
    ensures
        answers[i] == Ok::<usize, Failure>(0),
        run[i + 1] == run[0],
        run[i + 1].pending() == Some(Seq::<u8>::empty()),
        run[i + 1].left() == 0,
        run[i + 1].skip() == run[i + 1],
    decreases i,
{
    if i > 0 {
        law_end_is_final(run, caps, answers, i - 1);
    }
    assert(run[i].read_leads_to(caps[i], answers[i], run[i + 1]));
    assert(run[0].skip().rest =~= run[0].rest);
}

/// A reader over sources that are already open, read one after the other.
pub struct ConcatReader<R> {
    curr: Option<R>,
    rest: VecDeque<R>,
}

impl<R> View for ConcatReader<R> {
    type V = Chain<R>;

    closed spec fn view(&self) -> Chain<R> {
        Chain { curr: self.curr, rest: self.rest@ }
    }
}

impl<R: Source> ConcatReader<R> {
    /// A reader over `sources`, in that order.
    pub fn new(sources: Vec<R>) -> (reader: Self)
        ensures
            reader@ == Chain::start(sources@),
            reader@.wf(),
    {
        let mut rest = queue_of(sources);
        let curr = rest.pop_front();
        ConcatReader { curr, rest }
    }

    /// Acts on what the current source has answered to a read into a buffer
    /// with room: leaves a source that is at its end for the next one, and
    /// says whether the read is over and with what result.
    pub fn settle(&mut self, outcome: Result<usize, Failure>) -> (next: Next)
        ensures
            (final(self)@, next) == old(self)@.settle(outcome),
            old(self)@.wf() ==> final(self)@.wf(),
    {
        match outcome {
            Ok(0) => {
                self.curr = self.rest.pop_front();
                if self.curr.is_some() {
                    Next::Again
                } else {
                    Next::Done(outcome)
                }
            },
            _ => Next::Done(outcome),
        }
    }
}

impl<R: Source> Source for ConcatReader<R> {
    open spec fn pending(&self) -> Option<Seq<u8>> {
        self@.pending()
    }

    open spec fn answers(
        self,
        buf: Seq<u8>,
        res: Result<usize, Failure>,
        after: Self,
        buf_after: Seq<u8>,
    ) -> bool {
        self@.reads(buf, res, after@, buf_after)
    }

    /// Reads from the current source, and moves on to the next source
    /// whenever one is at its end.
    ///
    /// How the read goes is said by `Chain::reads`, step by step and for
    /// every source. What follows from it is stated as well: what the reader
    /// answers alone and where it can stand afterwards (`read_leads_to`),
    /// and what it delivers where the sources are known (`read_delivers`).
    fn read(&mut self, buf: &mut [u8]) -> (res: Result<usize, Failure>)
        ensures
            old(self)@.read_leads_to(old(buf)@.len(), res, final(self)@),
            old(self)@.answers_alone(old(buf)@.len()) ==> final(buf)@ == old(buf)@,
            old(buf)@.len() > 0 ==> old(self)@.read_delivers(
                old(buf)@,
                res,
                final(self)@,
                final(buf)@,
            ),
    {
        assert(self@.rest =~= self@.rest.skip(0));
        if buf.is_empty() {
            proof {
                match self@.pending() {
                    Some(bytes) => lemma_empty_buffer_takes_nothing(bytes, buf@),
                    None => {},
                }
            }
            return Ok(0);
        }
        loop
            invariant
                buf@.len() == old(buf)@.len(),
                buf@.len() > 0,
                self@.continues(old(self)@),
                old(self)@.wf() ==> self@.wf(),
                old(self)@.curr is None ==> self@ == old(self)@ && buf@ == old(buf)@,
                old(self)@.curr is Some ==> self@.curr is Some,
                forall|r: Result<usize, Failure>, a: Chain<R>, o: Seq<u8>| #[trigger]
                    self@.reads(buf@, r, a, o) ==> old(self)@.reads(old(buf)@, r, a, o),
            decreases self@.rest.len(),
        {
            let ghost before = self@;
            let ghost held = buf@;
            let outcome = match &mut self.curr {
                None => {
                    proof {
                        lemma_end_delivers_nothing(buf@);
                        lemma_passed(self@.prospects());
                        assert(self@.prospects().skip(0) =~= self@.prospects());
                    }
                    return Ok(0);
                },
                Some(source) => source.read(buf),
            };
            let ghost asked = self@;
            let ghost answer = outcome;
            proof {
                assert(reads(before.curr->0, held, answer, asked.curr->0, buf@));
            }
            let next = self.settle(outcome);
            proof {
                let earlier = old(self)@.rest;
                let k = choose|k: int|
                    0 <= k <= earlier.len() && before.rest == #[trigger] earlier.skip(k);
                if self@.rest != before.rest {
                    assert(self@.rest =~= earlier.skip(k + 1));
                }
            }
            match next {
                Next::Done(res) => {
                    proof {
                        assert(before.reads(held, res, self@, buf@));
                        lemma_reads_deliver(old(self)@, old(buf)@, res, self@, buf@);
                        lemma_delivers_known(old(self)@, old(buf)@, res, self@, buf@);
                        match old(self)@.pending() {
                            Some(bytes) => {
                                assert(bytes == old(self)@.known());
                                if bytes.len() == 0 {
                                    assert(self@.known() =~= bytes.skip(0));
                                    assert(buf@ =~= bytes.take(0) + old(buf)@.skip(0));
                                }
                                assert(delivers(bytes, old(buf)@, res, buf@, self@.pending()));
                            },
                            None => {},
                        }
                    }
                    return res;
                },
                Next::Again => {
                    proof {
                        assert forall|r: Result<usize, Failure>, a: Chain<R>, o: Seq<u8>|
                            #[trigger] self@.reads(buf@, r, a, o) implies old(self)@.reads(
                            old(buf)@,
                            r,
                            a,
                            o,
                        ) by {
                            assert(before.reads(held, r, a, o));
                        }
                    }
                },
            }
        }
    }
}

impl<R: Render> Render for ConcatReader<R> {
    open spec fn text(&self) -> Option<Seq<char>> {
        self@.text()
    }

    fn render(&self) -> (text: String) {
        let mut text = String::from_str("Concat { curr: ");
        match &self.curr {
            Some(source) => {
                let mut curr = String::from_str("Some(");
                curr.append(source.render().as_str());
                curr.append(")");
                text.append(curr.as_str());
            },
            None => {
                text.append("None");
            },
        }
        text.append(", rest: ");
        text.append(render_list(&self.rest).as_str());
        text.append(" }");
        text
    }
}

impl<R: Source> ConcatRead for ConcatReader<R> {
    type Item = R;

    open spec fn sources_left(&self) -> Option<nat> {
        Some(self@.left())
    }

    /// Abandons the current source and makes the next one current. Returns
    /// whether there was a next one.
    fn skip(&mut self) -> (more: bool)
        ensures
            final(self)@ == old(self)@.skip(),
            final(self)@.wf(),
            more == (final(self)@.curr is Some),
    {
        self.curr = self.rest.pop_front();
        self.curr.is_some()
    }

    /// The current source, if there is one.
    fn current(&self) -> (item: Option<&R>)
        ensures
            match item {
                Some(source) => self@.curr == Some(*source),
                None => self@.curr is None,
            },
    {
        self.curr.as_ref()
    }
}

} // verus!
