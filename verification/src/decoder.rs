//! Delta emitter: the pull-loop state machine.
//!
//! A [`Decoder`] owns one decoding session.  The consumer drives it by
//! calling [`Decoder::pull`]; when the decoder needs more transport bytes it
//! answers [`PullResult::NeedInput`], and the consumer then reports what the
//! transport produced with [`Decoder::feed_chunk`], [`Decoder::feed_end`] or
//! [`Decoder::feed_fault`] and pulls again.  Every pull behaves exactly as
//! the abstract transition function [`step`] on the decoder's model: already
//! classified fragments are yielded first, in server order; after the last
//! fragment a registered fault is reported exactly once; an observed
//! `[DONE]` sentinel or end of transport closes the stream.
//!
//! The session is consumed exactly once: after the stream has closed no
//! further input is accepted, and a session is not restartable.

use vstd::prelude::*;

use crate::classify::classify;
use crate::classify::classify_line;
use crate::classify::LineEvent;
use crate::classify::ParsedEvent;
use crate::frame::contains_nl;
use crate::frame::lemma_split_append;
use crate::frame::line_rest;
use crate::frame::line_split;
use crate::frame::FrameBuffer;

verus! {

/// The content fragments carried by a sequence of complete lines, in order.
pub open spec fn frags_of_lines(lines: Seq<Seq<u8>>) -> Seq<Seq<char>>
    decreases lines.len(),
{
    if lines.len() == 0 {
        Seq::empty()
    } else {
        (match classify_line(lines[0]) {
            LineEvent::Content(c) => seq![c],
            _ => Seq::empty(),
        }) + frags_of_lines(lines.drop_first())
    }
}

/// True when some line in the sequence is the end-of-generation sentinel.
pub open spec fn done_in_lines(lines: Seq<Seq<u8>>) -> bool
    decreases lines.len(),
{
    if lines.len() == 0 {
        false
    } else {
        classify_line(lines[0]) is Done || done_in_lines(lines.drop_first())
    }
}

/// The content fragments carried by the complete lines of a byte sequence.
/// This function of the fed bytes alone fixes everything a decoder emits.
pub open spec fn frags(s: Seq<u8>) -> Seq<Seq<char>> {
    frags_of_lines(line_split(s))
}

/// True when a complete line of the byte sequence is the sentinel.
pub open spec fn done_in(s: Seq<u8>) -> bool {
    done_in_lines(line_split(s))
}

/// Fragments and sentinel detection distribute over concatenation of line
/// sequences.
pub proof fn lemma_frags_lines_concat(a: Seq<Seq<u8>>, b: Seq<Seq<u8>>)
    ensures
        frags_of_lines(a + b) == frags_of_lines(a) + frags_of_lines(b),
        done_in_lines(a + b) == (done_in_lines(a) || done_in_lines(b)),
    decreases a.len(),
{
    if a.len() == 0 {
        assert(a + b =~= b);
        assert(frags_of_lines(a) + frags_of_lines(b) =~= frags_of_lines(b));
    } else {
        assert((a + b).len() > 0);
        assert((a + b)[0] == a[0]);
        assert((a + b).drop_first() =~= a.drop_first() + b);
        lemma_frags_lines_concat(a.drop_first(), b);
        assert(frags_of_lines(a + b) =~= frags_of_lines(a) + frags_of_lines(b));
    }
}

/// The life of a decoding session.
#[derive(Clone, Copy, Debug)]
pub enum DecodePhase {
    /// More transport bytes may still arrive.
    Active,
    /// The transport has ended; once drained, the stream closes.
    Ended,
    /// The transport has failed; once drained, one fault is reported.
    Faulted,
    /// The stream has closed; nothing further is produced.
    Finished,
}

/// The abstract state of a decoder: every byte ever fed, every fragment
/// already yielded, and the phase of the session.
pub ghost struct DecoderModel {
    pub fed: Seq<u8>,
    pub emitted: Seq<Seq<char>>,
    pub phase: DecodePhase,
}

/// The model of one pull outcome.
pub enum PullObs {
    Fragment(Seq<char>),
    NeedInput,
    Fault,
    End,
}

/// What one pull produces: a content fragment, a request for more transport
/// bytes, the single terminal fault, or end of stream.
pub enum PullResult {
    Fragment(String),
    NeedInput,
    Fault,
    End,
}

impl View for PullResult {
    type V = PullObs;

    open spec fn view(&self) -> PullObs {
        match self {
            PullResult::Fragment(s) => PullObs::Fragment(s@),
            PullResult::NeedInput => PullObs::NeedInput,
            PullResult::Fault => PullObs::Fault,
            PullResult::End => PullObs::End,
        }
    }
}

/// The transition one pull makes on the abstract state.  Fragments not yet
/// yielded come first, in order; only a drained decoder reports its phase,
/// and a fault is reported exactly once, on the way to `Finished`.
pub open spec fn step(st: DecoderModel) -> (DecoderModel, PullObs) {
    if st.emitted.len() < frags(st.fed).len() {
        let c = frags(st.fed)[st.emitted.len() as int];
        (DecoderModel { emitted: st.emitted.push(c), ..st }, PullObs::Fragment(c))
    } else {
        match st.phase {
            DecodePhase::Active => if done_in(st.fed) {
                (DecoderModel { phase: DecodePhase::Finished, ..st }, PullObs::End)
            } else {
                (st, PullObs::NeedInput)
            },
            DecodePhase::Ended => (
                DecoderModel { phase: DecodePhase::Finished, ..st },
                PullObs::End,
            ),
            DecodePhase::Faulted => (
                DecoderModel { phase: DecodePhase::Finished, ..st },
                PullObs::Fault,
            ),
            DecodePhase::Finished => (st, PullObs::End),
        }
    }
}

/// One decoding session over a pull-based transport.
pub struct Decoder {
    frame: FrameBuffer,
    pending: Vec<String>,
    done_seen: bool,
    phase: DecodePhase,
    fed: Ghost<Seq<u8>>,
    emitted: Ghost<Seq<Seq<char>>>,
}

impl Decoder {
    /// The abstract state this decoder is in.
    pub closed spec fn model(self) -> DecoderModel {
        DecoderModel { fed: self.fed@, emitted: self.emitted@, phase: self.phase }
    }

    spec fn pending_views(self) -> Seq<Seq<char>> {
        Seq::new(self.pending@.len(), |k: int| self.pending@[k]@)
    }

    /// The session invariant: the buffer holds exactly the trailing partial
    /// line of everything fed; yielded and queued fragments together are
    /// exactly the fragments of everything fed; the sentinel flag reflects
    /// the fed bytes; a finished session is drained.
    pub closed spec fn wf(self) -> bool {
        &&& self.frame@ == line_rest(self.fed@)
        &&& self.emitted@ + self.pending_views() == frags(self.fed@)
        &&& self.done_seen == done_in(self.fed@)
        &&& (self.phase is Finished ==> self.pending@.len() == 0)
    }

    /// A fresh session: nothing fed, nothing emitted, awaiting input.
    pub fn new() -> (d: Decoder)
        ensures
            d.wf(),
            d.model() == (DecoderModel {
                fed: Seq::<u8>::empty(),
                emitted: Seq::<Seq<char>>::empty(),
                phase: DecodePhase::Active,
            }),
    {
        let d = Decoder {
            frame: FrameBuffer::new(),
            pending: Vec::new(),
            done_seen: false,
            phase: DecodePhase::Active,
            fed: Ghost(Seq::empty()),
            emitted: Ghost(Seq::empty()),
        };
        proof {
            assert(!contains_nl(Seq::<u8>::empty()));
            assert(frags(Seq::<u8>::empty()) =~= Seq::<Seq<char>>::empty());
            assert(d.emitted@ + d.pending_views() =~= frags(d.fed@));
        }
        d
    }

    /// Feed one transport chunk: buffer the bytes, extract every complete
    /// line, classify the lines in arrival order, queue the content
    /// fragments, and record a sentinel.  Nothing is yielded here and the
    /// phase does not change; the chunk only extends the fed bytes.
    #[verifier::rlimit(100)]
    pub fn feed_chunk(&mut self, chunk: &[u8])
        requires
            old(self).wf(),
            old(self).model().phase is Active,
        ensures
            final(self).wf(),
            final(self).model() == (DecoderModel {
                fed: old(self).model().fed + chunk@,
                ..old(self).model()
            }),
    {
        let ghost fed0: Seq<u8> = self.fed@;
        proof {
            lemma_split_append(fed0, chunk@);
        }
        self.frame.append(chunk);
        let lines = self.frame.extract_lines();
        proof {
            self.fed@ = fed0 + chunk@;
        }
        let ghost new_lines: Seq<Seq<u8>> = lines.deep_view();
        proof {
            lemma_frags_lines_concat(line_split(fed0), new_lines);
            assert(frags(self.fed@) == frags(fed0) + frags_of_lines(new_lines));
            assert(done_in(self.fed@) == (done_in(fed0) || done_in_lines(new_lines)));
            assert(new_lines.take(0) =~= Seq::<Seq<u8>>::empty());
            assert(self.emitted@ + self.pending_views() =~= frags(fed0) + frags_of_lines(
                new_lines.take(0),
            ));
        }
        let ghost frame1: Seq<u8> = self.frame@;
        let ghost fed1: Seq<u8> = self.fed@;
        let m = lines.len();
        let mut idx: usize = 0;
        while idx < m
            invariant
                idx <= m == lines@.len(),
                new_lines == lines.deep_view(),
                self.emitted@ + self.pending_views() == frags(fed0) + frags_of_lines(
                    new_lines.take(idx as int),
                ),
                self.done_seen == (done_in(fed0) || done_in_lines(new_lines.take(idx as int))),
                self.frame@ == frame1,
                self.phase == old(self).phase,
                self.fed@ == fed1,
                self.emitted == old(self).emitted,
            decreases m - idx,
        {
            let line = &lines[idx];
            let ghost pv: Seq<Seq<char>> = self.pending_views();
            let ev = classify(line.as_slice());
            proof {
                assert(new_lines[idx as int] =~= line@);
            }
            match ev {
                ParsedEvent::Content(st) => {
                    self.pending.push(st);
                },
                ParsedEvent::Done => {
                    self.done_seen = true;
                },
                ParsedEvent::Skip => {},
            }
            proof {
                assert(new_lines.take(idx + 1) =~= new_lines.take(idx as int) + seq![
                    new_lines[idx as int],
                ]);
                lemma_frags_lines_concat(new_lines.take(idx as int), seq![new_lines[idx as int]]);
                assert(seq![new_lines[idx as int]].drop_first() =~= Seq::<Seq<u8>>::empty());
                assert(frags_of_lines(Seq::<Seq<u8>>::empty()) =~= Seq::<Seq<char>>::empty());
                assert(!done_in_lines(Seq::<Seq<u8>>::empty()));
                match classify_line(new_lines[idx as int]) {
                    LineEvent::Content(c) => {
                        assert(self.pending_views() =~= pv.push(c));
                        assert(frags_of_lines(seq![new_lines[idx as int]]) =~= seq![c]);
                        assert(frags_of_lines(new_lines.take(idx + 1)) == frags_of_lines(
                            new_lines.take(idx as int),
                        ) + seq![c]);
                        assert(self.emitted@ + self.pending_views() =~= (self.emitted@ + pv) + seq![
                            c,
                        ]);
                        assert((frags(fed0) + frags_of_lines(new_lines.take(idx as int))) + seq![c]
                            =~= frags(fed0) + frags_of_lines(new_lines.take(idx + 1)));
                    },
                    _ => {
                        assert(self.pending_views() =~= pv);
                        assert(frags_of_lines(seq![new_lines[idx as int]]) =~= Seq::<
                            Seq<char>,
                        >::empty());
                        assert(self.emitted@ + self.pending_views() =~= frags(fed0)
                            + frags_of_lines(new_lines.take(idx + 1)));
                    },
                }
            }
            idx = idx + 1;
        }
        proof {
            assert(new_lines.take(m as int) =~= new_lines);
        }
    }

    /// The transport has ended normally.  Queued fragments are still
    /// yielded; then the stream closes without an error.
    pub fn feed_end(&mut self)
        requires
            old(self).wf(),
            old(self).model().phase is Active,
        ensures
            final(self).wf(),
            final(self).model() == (DecoderModel {
                phase: DecodePhase::Ended,
                ..old(self).model()
            }),
    {
        self.phase = DecodePhase::Ended;
    }

    /// The transport has failed.  Queued fragments are still yielded; then
    /// exactly one fault is reported and the stream closes.
    pub fn feed_fault(&mut self)
        requires
            old(self).wf(),
            old(self).model().phase is Active,
        ensures
            final(self).wf(),
            final(self).model() == (DecoderModel {
                phase: DecodePhase::Faulted,
                ..old(self).model()
            }),
    {
        self.phase = DecodePhase::Faulted;
    }

    /// Produce the next externally visible item.  Behaves exactly as one
    /// [`step`] of the abstract transition function.
    pub fn pull(&mut self) -> (r: PullResult)
        requires
            old(self).wf(),
        ensures
            final(self).wf(),
            final(self).model() == step(old(self).model()).0,
            r@ == step(old(self).model()).1,
    {
        proof {
            assert(self.emitted@.len() + self.pending_views().len() == frags(self.fed@).len());
        }
        if self.pending.len() > 0 {
            let ghost pv: Seq<Seq<char>> = self.pending_views();
            let st = self.pending.remove(0);
            proof {
                assert(pv[0] == st@);
                assert((self.emitted@ + pv)[self.emitted@.len() as int] == pv[0]);
                assert(frags(self.fed@)[self.emitted@.len() as int] == st@);
                self.emitted@ = self.emitted@.push(st@);
                assert(self.pending_views() =~= pv.drop_first());
                assert(self.emitted@ + self.pending_views() =~= frags(self.fed@));
            }
            PullResult::Fragment(st)
        } else {
            proof {
                assert(self.pending_views() =~= Seq::<Seq<char>>::empty());
                assert(self.emitted@ + self.pending_views() =~= self.emitted@);
                assert(self.emitted@ == frags(self.fed@));
            }
            match self.phase {
                DecodePhase::Active => {
                    if self.done_seen {
                        self.phase = DecodePhase::Finished;
                        PullResult::End
                    } else {
                        PullResult::NeedInput
                    }
                },
                DecodePhase::Ended => {
                    self.phase = DecodePhase::Finished;
                    PullResult::End
                },
                DecodePhase::Faulted => {
                    self.phase = DecodePhase::Finished;
                    PullResult::Fault
                },
                DecodePhase::Finished => PullResult::End,
            }
        }
    }

    /// The session invariant implies the abstract-state invariant
    /// [`wf_model`]: what has been emitted is exactly a prefix of the
    /// fragments of the fed bytes.
    pub proof fn lemma_wf_model(self)
        requires
            self.wf(),
        ensures
            wf_model(self.model()),
            self.model().emitted == frags(self.model().fed).take(self.model().emitted.len() as int),
    {
        assert(self.emitted@ =~= frags(self.fed@).take(self.emitted@.len() as int));
    }
}

/// The abstract-state invariant every well-formed decoder satisfies: the
/// emitted fragments are a prefix of the fragments of the fed bytes, and a
/// finished session has emitted them all.
pub open spec fn wf_model(st: DecoderModel) -> bool {
    &&& st.emitted.len() <= frags(st.fed).len()
    &&& st.emitted == frags(st.fed).take(st.emitted.len() as int)
    &&& (st.phase is Finished ==> st.emitted.len() == frags(st.fed).len())
}

/// One step preserves the abstract-state invariant and never changes the
/// fed bytes.
pub proof fn lemma_step_wf(st: DecoderModel)
    requires
        wf_model(st),
    ensures
        wf_model(step(st).0),
        step(st).0.fed == st.fed,
{
    let st2 = step(st).0;
    if st.emitted.len() < frags(st.fed).len() {
        assert(st2.emitted =~= frags(st2.fed).take(st2.emitted.len() as int));
    }
}

/// The observations of `n` successive pulls from an abstract state.
pub open spec fn run(st: DecoderModel, n: nat) -> Seq<PullObs>
    decreases n,
{
    if n == 0 {
        Seq::empty()
    } else {
        seq![step(st).1] + run(step(st).0, (n - 1) as nat)
    }
}

/// The number of fault observations in a pull trace.
pub open spec fn fault_count(obs: Seq<PullObs>) -> nat
    decreases obs.len(),
{
    if obs.len() == 0 {
        0
    } else {
        (if obs[0] is Fault {
            1nat
        } else {
            0nat
        }) + fault_count(obs.drop_first())
    }
}

/// A finished, drained session answers every pull with end-of-stream.
pub proof fn lemma_finished_run(st: DecoderModel, n: nat)
    requires
        wf_model(st),
        st.phase is Finished,
    ensures
        run(st, n) == Seq::new(n, |k: int| PullObs::End),
    decreases n,
{
    if n > 0 {
        assert(step(st).0 == st);
        assert(step(st).1 == PullObs::End);
        lemma_finished_run(st, (n - 1) as nat);
        assert(run(st, n) =~= Seq::new(n, |k: int| PullObs::End));
    } else {
        assert(run(st, n) =~= Seq::new(n, |k: int| PullObs::End));
    }
}

proof fn lemma_no_fault_in_ends(n: nat)
    ensures
        fault_count(Seq::new(n, |k: int| PullObs::End)) == 0,
    decreases n,
{
    if n > 0 {
        lemma_no_fault_in_ends((n - 1) as nat);
        assert(Seq::new(n, |k: int| PullObs::End).drop_first() =~= Seq::new(
            (n - 1) as nat,
            |k: int| PullObs::End,
        ));
    }
}

/// However long a well-formed session is pulled, at most one fault is ever
/// observed.
pub proof fn lemma_at_most_one_fault(st: DecoderModel, n: nat)
    requires
        wf_model(st),
    ensures
        fault_count(run(st, n)) <= 1,
    decreases n,
{
    if n > 0 {
        let st2 = step(st).0;
        let o = step(st).1;
        lemma_step_wf(st);
        assert(run(st, n).drop_first() =~= run(st2, (n - 1) as nat));
        if o is Fault {
            assert(st2.phase is Finished);
            lemma_finished_run(st2, (n - 1) as nat);
            lemma_no_fault_in_ends((n - 1) as nat);
        } else {
            lemma_at_most_one_fault(st2, (n - 1) as nat);
        }
    }
}

/// Re-decoding is deterministic: two well-formed sessions fed the same
/// bytes that have yielded the same number of fragments have yielded
/// exactly the same fragments, in the same order.
pub proof fn lemma_deterministic_replay(a: DecoderModel, b: DecoderModel)
    requires
        wf_model(a),
        wf_model(b),
        a.fed == b.fed,
        a.emitted.len() == b.emitted.len(),
    ensures
        a.emitted == b.emitted,
{
}

/// Chunk-boundary invariance: the fragments a session emits depend only on
/// the concatenation of the chunks it was fed, never on how the bytes were
/// split.  Two fully drained sessions whose chunkings concatenate to the
/// same byte sequence have emitted exactly the same fragments.
pub proof fn lemma_chunk_boundary_invariance(
    ca: Seq<Seq<u8>>,
    cb: Seq<Seq<u8>>,
    a: DecoderModel,
    b: DecoderModel,
)
    requires
        wf_model(a),
        wf_model(b),
        a.fed == ca.flatten(),
        b.fed == cb.flatten(),
        ca.flatten() == cb.flatten(),
        a.emitted.len() == frags(a.fed).len(),
        b.emitted.len() == frags(b.fed).len(),
    ensures
        a.emitted == b.emitted,
{
    assert(a.emitted =~= frags(a.fed));
    assert(b.emitted =~= frags(b.fed));
}

/// After a transport fault, a session first yields every fragment decoded
/// from the bytes it was fed, then exactly one fault, then only
/// end-of-stream: the consumer sees N content items, one error item, and
/// nothing further.
pub proof fn lemma_fault_drains_then_faults(st: DecoderModel, n: nat)
    requires
        wf_model(st),
        st.phase is Faulted,
        n >= frags(st.fed).len() - st.emitted.len() + 1,
    ensures
        ({
            let rem = frags(st.fed).skip(st.emitted.len() as int);
            run(st, n) == rem.map_values(|c: Seq<char>| PullObs::Fragment(c)) + seq![
                PullObs::Fault,
            ] + Seq::new((n - rem.len() - 1) as nat, |k: int| PullObs::End)
        }),
    decreases n,
{
    let rem = frags(st.fed).skip(st.emitted.len() as int);
    let st2 = step(st).0;
    lemma_step_wf(st);
    if st.emitted.len() < frags(st.fed).len() {
        let c = frags(st.fed)[st.emitted.len() as int];
        assert(rem[0] == c);
        lemma_fault_drains_then_faults(st2, (n - 1) as nat);
        let rem2 = frags(st2.fed).skip(st2.emitted.len() as int);
        assert(rem2 =~= rem.drop_first());
        assert(run(st, n) =~= rem.map_values(|cc: Seq<char>| PullObs::Fragment(cc)) + seq![
            PullObs::Fault,
        ] + Seq::new((n - rem.len() - 1) as nat, |k: int| PullObs::End));
    } else {
        assert(rem =~= Seq::<Seq<char>>::empty());
        assert(step(st).1 == PullObs::Fault);
        assert(st2.phase is Finished);
        lemma_finished_run(st2, (n - 1) as nat);
        assert(run(st, n) =~= rem.map_values(|cc: Seq<char>| PullObs::Fragment(cc)) + seq![
            PullObs::Fault,
        ] + Seq::new((n - rem.len() - 1) as nat, |k: int| PullObs::End));
    }
}

} // verus!
