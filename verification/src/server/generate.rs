//! The loop that generates tokens, as a sequence of decisions.
//!
//! The model runs elsewhere: it is told what to do next and reports what
//! happened.

use vstd::prelude::*;

verus! {

/// What is waited for.
#[derive(Debug, Clone, Copy, PartialEq, Eq, Structural)]
pub enum Phase {
    /// The prompt is being read.
    Prefill,
    /// A token is being chosen.
    Sample,
    /// A token is being handed on.
    Emit,
    /// A token is being read.
    Decode,
    /// Nothing: generation has ended.
    Done,
}

/// What happened.
#[derive(Debug, Clone, Copy, PartialEq, Eq, Structural)]
pub enum GenEvent {
    /// The prompt has been read.
    Prefilled,
    /// This token was chosen.
    Sampled(u32),
    /// The token was handed on. `used` of `capacity` positions are taken.
    Emitted { used: usize, capacity: usize },
    /// The token has been read.
    Decoded,
    /// The model failed, or nobody listens any more.
    Broken,
}

/// What to do next.
#[derive(Debug, Clone, Copy, PartialEq, Eq, Structural)]
pub enum GenAction {
    /// Choose a token from the last scores.
    Sample,
    /// Hand the token on.
    Emit(u32),
    /// Read the token at the position.
    Decode { token: u32, pos: usize },
    /// Report the end.
    Finish,
    /// Stop without a report.
    Abort,
}

/// A generation under way.
#[derive(Debug)]
pub struct Generation {
    tokens: Vec<u32>,
    prompt_len: usize,
    steps_left: usize,
    max_tokens: usize,
    eos: u32,
    keep_eos: bool,
    phase: Phase,
}

/// The contents of a [`Generation`].
#[verifier::ext_equal]
pub struct GenView {
    pub prompt: Seq<u32>,
    /// The tokens that were generated.
    pub made: Seq<u32>,
    /// How many more tokens may be read.
    pub steps_left: nat,
    pub max_tokens: nat,
    pub eos: u32,
    /// The end token is handed on like any other; otherwise it is dropped,
    /// unless it is the first.
    pub keep_eos: bool,
    pub phase: Phase,
}

impl GenView {
    /// The most tokens that are generated: at least one.
    pub open spec fn cap(self) -> nat {
        if self.max_tokens == 0 {
            1
        } else {
            self.max_tokens
        }
    }

    /// The tokens so far, and those that may still come, are within the cap.
    pub open spec fn wf(self) -> bool {
        match self.phase {
            Phase::Prefill => self.made.len() == 0 && self.steps_left < self.cap(),
            Phase::Sample => self.made.len() + self.steps_left < self.cap(),
            Phase::Emit => self.made.len() > 0 && self.made.len() + self.steps_left <= self.cap(),
            Phase::Decode => self.made.len() > 0 && self.made.len() + self.steps_left < self.cap(),
            Phase::Done => self.made.len() <= self.cap(),
        }
    }

    /// The last token.
    pub open spec fn last(self) -> u32 {
        self.made.last()
    }

    /// Where the last token is read.
    pub open spec fn position(self) -> int {
        self.prompt.len() + self.made.len() - 1
    }

    /// Generation goes on behind the last token.
    pub open spec fn goes_on(self, used: usize, capacity: usize) -> bool {
        self.steps_left > 0 && self.last() != self.eos && used < capacity
    }
}

/// What follows an event.
pub open spec fn follows(g: GenView, e: GenEvent) -> (GenView, GenAction) {
    let done = GenView { phase: Phase::Done, ..g };
    match (g.phase, e) {
        (Phase::Prefill, GenEvent::Prefilled) => (
            GenView { phase: Phase::Sample, ..g },
            GenAction::Sample,
        ),
        (Phase::Sample, GenEvent::Sampled(t)) => if g.made.len() > 0 && t == g.eos && !g.keep_eos {
            (done, GenAction::Finish)
        } else {
            (
                GenView { phase: Phase::Emit, made: g.made.push(t), ..g },
                GenAction::Emit(t),
            )
        },
        (Phase::Emit, GenEvent::Emitted { used, capacity }) => if g.goes_on(used, capacity) {
            (
                GenView { phase: Phase::Decode, steps_left: (g.steps_left - 1) as nat, ..g },
                GenAction::Decode { token: g.last(), pos: g.position() as usize },
            )
        } else {
            (done, GenAction::Finish)
        },
        (Phase::Decode, GenEvent::Decoded) => (
            GenView { phase: Phase::Sample, ..g },
            GenAction::Sample,
        ),
        _ => (done, GenAction::Abort),
    }
}

impl View for Generation {
    type V = GenView;

    closed spec fn view(&self) -> GenView {
        GenView {
            prompt: self.tokens@.take(self.prompt_len as int),
            made: self.tokens@.skip(self.prompt_len as int),
            steps_left: self.steps_left as nat,
            max_tokens: self.max_tokens as nat,
            eos: self.eos,
            keep_eos: self.keep_eos,
            phase: self.phase,
        }
    }
}

impl Generation {
    /// The invariant of a generation.
    pub closed spec fn wf(&self) -> bool {
        &&& self.prompt_len <= self.tokens@.len()
        &&& self@.wf()
    }

    /// What is well formed as a value is well formed in content.
    pub proof fn lemma_wf(&self)
        requires
            self.wf(),
        ensures
            self@.wf(),
    {
    }

    /// A generation behind a prompt. The prompt is to be read first.
    pub fn new(prompt: Vec<u32>, max_tokens: usize, eos: u32, keep_eos: bool) -> (g: Generation)
        ensures
            g.wf(),
            g@ == (GenView {
                prompt: prompt@,
                made: Seq::empty(),
                steps_left: if max_tokens == 0 {
                    0
                } else {
                    (max_tokens - 1) as nat
                },
                max_tokens: max_tokens as nat,
                eos,
                keep_eos,
                phase: Phase::Prefill,
            }),
    {
        let prompt_len: usize = prompt.len();
        let steps_left: usize = max_tokens.saturating_sub(1);
        let g = Generation {
            tokens: prompt,
            prompt_len,
            steps_left,
            max_tokens,
            eos,
            keep_eos,
            phase: Phase::Prefill,
        };
        proof {
            assert(g@.prompt =~= prompt@);
            assert(g@.made =~= Seq::<u32>::empty());
        }
        g
    }

    /// What follows an event. An event that is not waited for ends the
    /// generation.
    pub fn step(&mut self, e: GenEvent) -> (a: GenAction)
        requires
            old(self).wf(),
        ensures
            final(self).wf(),
            (final(self)@, a) == follows(old(self)@, e),
    {
        let ghost before = self@;
        let size: usize = self.tokens.len();
        match (self.phase, e) {
            (Phase::Prefill, GenEvent::Prefilled) => {
                self.phase = Phase::Sample;
                GenAction::Sample
            },
            (Phase::Sample, GenEvent::Sampled(t)) => {
                if size > self.prompt_len && t == self.eos && !self.keep_eos {
                    self.phase = Phase::Done;
                    return GenAction::Finish;
                }
                self.tokens.push(t);
                self.phase = Phase::Emit;
                proof {
                    assert(self@.prompt =~= before.prompt);
                    assert(self@.made =~= before.made.push(t));
                }
                GenAction::Emit(t)
            },
            (Phase::Emit, GenEvent::Emitted { used, capacity }) => {
                let last: u32 = self.tokens[size - 1];
                proof {
                    assert(last == before.last());
                }
                if self.steps_left > 0 && last != self.eos && used < capacity {
                    self.steps_left = self.steps_left - 1;
                    self.phase = Phase::Decode;
                    GenAction::Decode { token: last, pos: size - 1 }
                } else {
                    self.phase = Phase::Done;
                    GenAction::Finish
                }
            },
            (Phase::Decode, GenEvent::Decoded) => {
                self.phase = Phase::Sample;
                GenAction::Sample
            },
            _ => {
                self.phase = Phase::Done;
                GenAction::Abort
            },
        }
    }

    /// The prompt and the tokens behind it, by which the next token is chosen.
    pub fn context(&self) -> (t: &Vec<u32>)
        requires
            self.wf(),
        ensures
            t@ == self@.prompt + self@.made,
    {
        proof {
            assert(self.tokens@ =~= self@.prompt + self@.made);
        }
        &self.tokens
    }

    /// The tokens that were generated.
    pub fn generated(&self) -> (t: Vec<u32>)
        requires
            self.wf(),
        ensures
            t@ == self@.made,
    {
        let mut t: Vec<u32> = Vec::new();
        for i in self.prompt_len..self.tokens.len()
            invariant
                self.prompt_len <= self.tokens@.len(),
                t@ == self.tokens@.subrange(self.prompt_len as int, i as int),
        {
            t.push(self.tokens[i]);
            proof {
                assert(t@ =~= self.tokens@.subrange(self.prompt_len as int, i + 1));
            }
        }
        proof {
            assert(t@ =~= self@.made);
        }
        t
    }

    /// How many tokens were generated behind the first.
    pub fn decoded(&self) -> (n: usize)
        requires
            self.wf(),
        ensures
            n == (if self@.made.len() == 0 {
                0
            } else {
                self@.made.len() - 1
            }),
    {
        (self.tokens.len() - self.prompt_len).saturating_sub(1)
    }
}

/// However the model behaves, no more tokens are generated than were asked
/// for.
pub proof fn law_token_cap(g: GenView, events: Seq<GenEvent>)
    requires
        g.wf(),
    ensures
        after_all(g, events).wf(),
        after_all(g, events).made.len() <= g.cap(),
    decreases events.len(),
{
    if events.len() > 0 {
        law_token_cap(g, events.drop_last());
        let h = after_all(g, events.drop_last());
        lemma_cap_stays(g, events.drop_last());
        assert(follows(h, events.last()).0.cap() == h.cap());
    }
}

proof fn lemma_cap_stays(g: GenView, events: Seq<GenEvent>)
    ensures
        after_all(g, events).cap() == g.cap(),
    decreases events.len(),
{
    if events.len() > 0 {
        lemma_cap_stays(g, events.drop_last());
    }
}

/// What is left after a list of events.
pub open spec fn after_all(g: GenView, events: Seq<GenEvent>) -> GenView
    decreases events.len(),
{
    if events.len() == 0 {
        g
    } else {
        follows(after_all(g, events.drop_last()), events.last()).0
    }
}

/// The token that is decoded is the last of prompt and generated tokens, and
/// its position is its place among them; what was sampled is what is emitted
/// and kept.
pub proof fn law_tokens_keep_their_place(g: GenView, e: GenEvent)
    requires
        g.wf(),
        (g.prompt + g.made).len() <= usize::MAX,
    ensures
        follows(g, e).0.prompt == g.prompt,
        follows(g, e).1 matches GenAction::Decode { token, pos } ==> {
            &&& pos == (g.prompt + g.made).len() - 1
            &&& token == (g.prompt + g.made)[pos as int]
            &&& follows(g, e).0.made == g.made
        },
        follows(g, e).1 matches GenAction::Emit(t) ==> {
            &&& e == GenEvent::Sampled(t)
            &&& follows(g, e).0.made == g.made.push(t)
        },
{
}

/// Behind the end token nothing is read, and nothing behind the last position.
pub proof fn law_end_stops(g: GenView, used: usize, capacity: usize)
    requires
        g.phase == Phase::Emit,
        g.last() == g.eos || used >= capacity,
    ensures
        follows(g, GenEvent::Emitted { used, capacity }).1 == GenAction::Finish,
        follows(g, GenEvent::Emitted { used, capacity }).0.phase == Phase::Done,
{
}

/// Once it has ended, a generation stays as it is.
pub proof fn law_done_stays(g: GenView, e: GenEvent)
    requires
        g.phase == Phase::Done,
    ensures
        follows(g, e) == (g, GenAction::Abort),
{
}

} // verus!
