//! A stress test of one configuration, as a sequence of decisions.
//!
//! The model runs elsewhere. What it reports is recorded here, and the record
//! says whether the configuration passed.

use crate::cli::parse::{scenario_label, scenario_name};
use crate::float::{
    infinite, is_infinite, is_nan, larger, max, min, nan, order_key, smaller, HIGHEST, LOWEST, ZERO,
};
use crate::server::generate::{follows, GenAction, GenEvent, GenView, Generation, Phase};
use crate::text::{decimal, push_decimal};
use vstd::prelude::*;
use vstd::string::*;

verus! {

/// The smallest of the largest finite number and the scores.
pub open spec fn lowest_of(v: Seq<u32>) -> u32
    decreases v.len(),
{
    if v.len() == 0 {
        HIGHEST
    } else {
        smaller(lowest_of(v.drop_last()), v.last())
    }
}

/// The largest of the smallest finite number and the scores.
pub open spec fn highest_of(v: Seq<u32>) -> u32
    decreases v.len(),
{
    if v.len() == 0 {
        LOWEST
    } else {
        larger(highest_of(v.drop_last()), v.last())
    }
}

/// The bounds of a list of scores are numbers, and one of them is infinite if
/// and only if one of the scores is.
pub proof fn law_infinite_scores_show(v: Seq<u32>)
    ensures
        !is_nan(lowest_of(v)),
        !is_nan(highest_of(v)),
        (is_infinite(lowest_of(v)) || is_infinite(highest_of(v))) == exists|i: int|
            0 <= i < v.len() && is_infinite(#[trigger] v[i]),
    decreases v.len(),
{
    if v.len() > 0 {
        let d = v.drop_last();
        let x = v.last();
        law_infinite_scores_show(d);
        lemma_bounds(d);
        let n = v.len() - 1;
        assert(v[n] == x);
        if exists|i: int| 0 <= i < d.len() && is_infinite(#[trigger] d[i]) {
            let i = choose|i: int| 0 <= i < d.len() && is_infinite(#[trigger] d[i]);
            assert(v[i] == d[i]);
            assert(is_infinite(v[i]));
        }
        if exists|i: int| 0 <= i < v.len() && is_infinite(#[trigger] v[i]) {
            let i = choose|i: int| 0 <= i < v.len() && is_infinite(#[trigger] v[i]);
            if i < n {
                assert(d[i] == v[i]);
                assert(is_infinite(d[i]));
            }
        }
    }
}

/// The bounds are never on the wrong side.
proof fn lemma_bounds(v: Seq<u32>)
    ensures
        !is_nan(lowest_of(v)),
        !is_nan(highest_of(v)),
        order_key(lowest_of(v)) <= order_key(HIGHEST),
        order_key(highest_of(v)) >= order_key(LOWEST),
    decreases v.len(),
{
    if v.len() > 0 {
        lemma_bounds(v.drop_last());
    }
}

/// The complaint about scores that are not numbers.
pub const NAN_FOUND: &'static str = "NaN detected in prefill logits!";

/// The complaint about infinite scores.
pub const INFINITY_FOUND: &'static str = "Infinity detected in prefill logits!";

/// What is recorded of a scenario.
#[derive(Debug)]
pub struct Scenario {
    label: String,
    errors: Vec<String>,
    prefill_tokens: usize,
    logit_min: u32,
    logit_max: u32,
    run: Option<Generation>,
}

/// The contents of a [`Scenario`].
#[verifier::ext_equal]
pub struct ScenarioView {
    pub label: Seq<char>,
    pub errors: Seq<Seq<char>>,
    pub prefill_tokens: nat,
    pub logit_min: u32,
    pub logit_max: u32,
    pub run: Option<GenView>,
}

impl View for Scenario {
    type V = ScenarioView;

    closed spec fn view(&self) -> ScenarioView {
        ScenarioView {
            label: self.label@,
            errors: Seq::new(self.errors@.len(), |i: int| self.errors@[i]@),
            prefill_tokens: self.prefill_tokens as nat,
            logit_min: self.logit_min,
            logit_max: self.logit_max,
            run: match self.run {
                Some(g) => Some(g@),
                None => None,
            },
        }
    }
}

impl ScenarioView {
    /// With one more complaint.
    pub open spec fn complain(self, what: Seq<char>) -> ScenarioView {
        ScenarioView { errors: self.errors.push(what), ..self }
    }

    /// With the generation in another state.
    pub open spec fn running(self, g: GenView) -> ScenarioView {
        ScenarioView { run: Some(g), ..self }
    }

    /// With the scores behind the prompt.
    pub open spec fn scored(self, logits: Seq<u32>) -> ScenarioView {
        let lo = lowest_of(logits);
        let hi = highest_of(logits);
        let a = ScenarioView { logit_min: lo, logit_max: hi, ..self };
        let b = if exists|i: int| 0 <= i < logits.len() && is_nan(#[trigger] logits[i]) {
            a.complain(NAN_FOUND@)
        } else {
            a
        };
        if is_infinite(lo) || is_infinite(hi) {
            b.complain(INFINITY_FOUND@)
        } else {
            b
        }
    }

    /// The scenario passed: nothing was complained of, and there was a prompt.
    pub open spec fn passed(self) -> bool {
        self.errors.len() == 0 && self.prefill_tokens > 0
    }

    /// How many tokens were generated behind the first.
    pub open spec fn steps(self) -> nat {
        match self.run {
            Some(g) => if g.made.len() == 0 {
                0
            } else {
                (g.made.len() - 1) as nat
            },
            None => 0,
        }
    }
}

/// What follows an event of the generation. Without a generation nothing does.
pub open spec fn moves(s: ScenarioView, e: GenEvent) -> (ScenarioView, GenAction) {
    match s.run {
        Some(g) => (s.running(follows(g, e).0), follows(g, e).1),
        None => (s, GenAction::Abort),
    }
}

impl Scenario {
    /// The invariant of a record.
    pub closed spec fn wf(&self) -> bool {
        self.run matches Some(g) ==> g.wf()
    }

    /// A record of nothing yet. `max_hot` layers are kept at hand, all where it
    /// is zero.
    pub fn new(max_hot: usize) -> (s: Scenario)
        ensures
            s.wf(),
            s@ == (ScenarioView {
                label: scenario_name(max_hot as nat),
                errors: Seq::empty(),
                prefill_tokens: 0,
                logit_min: ZERO,
                logit_max: ZERO,
                run: None,
            }),
    {
        let s = Scenario {
            label: scenario_label(max_hot),
            errors: Vec::new(),
            prefill_tokens: 0,
            logit_min: ZERO,
            logit_max: ZERO,
            run: None,
        };
        proof {
            assert(s@.errors =~= Seq::<Seq<char>>::empty());
        }
        s
    }

    fn push_error(&mut self, what: String)
        requires
            old(self).wf(),
        ensures
            final(self).wf(),
            final(self)@ == old(self)@.complain(what@),
    {
        let ghost before = self@;
        self.errors.push(what);
        proof {
            assert(self@.errors =~= before.errors.push(what@));
        }
    }

    /// The model could not be loaded.
    pub fn load_failed(&mut self, cause: &str)
        requires
            old(self).wf(),
        ensures
            final(self).wf(),
            final(self)@ == old(self)@.complain("Load failed: "@ + cause@),
    {
        let mut what = String::from_str("Load failed: ");
        what.append(cause);
        self.push_error(what);
    }

    /// The model is there, and the prompt is tokens.
    pub fn loaded(&mut self, prompt: Vec<u32>, max_tokens: usize, eos: u32)
        requires
            old(self).wf(),
        ensures
            final(self).wf(),
            final(self)@ == (ScenarioView {
                prefill_tokens: prompt@.len(),
                run: Some(
                    GenView {
                        prompt: prompt@,
                        made: Seq::empty(),
                        steps_left: if max_tokens == 0 {
                            0
                        } else {
                            (max_tokens - 1) as nat
                        },
                        max_tokens: max_tokens as nat,
                        eos,
                        keep_eos: false,
                        phase: Phase::Prefill,
                    },
                ),
                ..old(self)@
            }),
    {
        let ghost before = self@;
        self.prefill_tokens = prompt.len();
        self.run = Some(Generation::new(prompt, max_tokens, eos, false));
        proof {
            assert(self@.errors =~= before.errors);
        }
    }

    /// The prompt could not be read.
    pub fn prefill_failed(&mut self, cause: &str)
        requires
            old(self).wf(),
        ensures
            final(self).wf(),
            final(self)@ == old(self)@.complain("Prefill failed: "@ + cause@),
    {
        let mut what = String::from_str("Prefill failed: ");
        what.append(cause);
        self.push_error(what);
    }

    /// The prompt was read, with these scores behind it.
    pub fn prefilled(&mut self, logits: &Vec<u32>) -> (a: GenAction)
        requires
            old(self).wf(),
        ensures
            final(self).wf(),
            (final(self)@, a) == moves(old(self)@.scored(logits@), GenEvent::Prefilled),
    {
        let ghost before = self@;
        let mut lo: u32 = HIGHEST;
        let mut hi: u32 = LOWEST;
        let mut found: bool = false;
        proof {
            assert(logits@.take(0).len() == 0);
        }
        for i in 0..logits.len()
            invariant
                lo == lowest_of(logits@.take(i as int)),
                hi == highest_of(logits@.take(i as int)),
                found == exists|j: int| 0 <= j < i && is_nan(#[trigger] logits@[j]),
        {
            proof {
                assert(logits@.take(i + 1).drop_last() =~= logits@.take(i as int));
            }
            lo = min(lo, logits[i]);
            hi = max(hi, logits[i]);
            if nan(logits[i]) {
                found = true;
            }
        }
        proof {
            assert(logits@.take(logits@.len() as int) =~= logits@);
        }
        self.logit_min = lo;
        self.logit_max = hi;
        proof {
            assert(self@.errors =~= before.errors);
        }
        if found {
            self.push_error(String::from_str(NAN_FOUND));
        }
        if infinite(lo) || infinite(hi) {
            self.push_error(String::from_str(INFINITY_FOUND));
        }
        self.event(GenEvent::Prefilled)
    }

    /// The generation reports an event.
    pub fn event(&mut self, e: GenEvent) -> (a: GenAction)
        requires
            old(self).wf(),
        ensures
            final(self).wf(),
            (final(self)@, a) == moves(old(self)@, e),
    {
        let ghost before = self@;
        match self.run.take() {
            Some(mut g) => {
                let a = g.step(e);
                self.run = Some(g);
                proof {
                    assert(self@.errors =~= before.errors);
                }
                a
            },
            None => {
                proof {
                    assert(self@ =~= before);
                }
                GenAction::Abort
            },
        }
    }

    /// A token could not be read.
    pub fn decode_failed(&mut self, cause: &str) -> (a: GenAction)
        requires
            old(self).wf(),
        ensures
            final(self).wf(),
            (final(self)@, a) == moves(
                old(self)@.complain(
                    "Decode step "@ + decimal(old(self)@.steps()) + " failed: "@ + cause@,
                ),
                GenEvent::Broken,
            ),
    {
        let mut what = String::from_str("Decode step ");
        let steps: usize = self.decode_tokens();
        push_decimal(&mut what, steps as u64);
        what.append(" failed: ");
        what.append(cause);
        self.push_error(what);
        self.event(GenEvent::Broken)
    }

    /// How many tokens were generated behind the first.
    pub fn decode_tokens(&self) -> (n: usize)
        requires
            self.wf(),
        ensures
            n == self@.steps(),
    {
        match &self.run {
            Some(g) => g.decoded(),
            None => 0,
        }
    }

    /// The tokens that were generated.
    pub fn generated(&self) -> (t: Vec<u32>)
        requires
            self.wf(),
        ensures
            t@ == (match self@.run {
                Some(g) => g.made,
                None => Seq::<u32>::empty(),
            }),
    {
        match &self.run {
            Some(g) => g.generated(),
            None => Vec::new(),
        }
    }

    /// The scenario passed.
    pub fn passed(&self) -> (r: bool)
        ensures
            r == self@.passed(),
    {
        self.errors.len() == 0 && self.prefill_tokens > 0
    }

    /// The name of the scenario.
    pub fn label(&self) -> (s: &str)
        ensures
            s@ == self@.label,
    {
        self.label.as_str()
    }

    /// What was complained of.
    pub fn errors(&self) -> (e: &Vec<String>)
        ensures
            e@.len() == self@.errors.len(),
            forall|i: int| 0 <= i < e@.len() ==> (#[trigger] e@[i])@ == self@.errors[i],
    {
        &self.errors
    }

    /// How many tokens the prompt has.
    pub fn prefill_tokens(&self) -> (n: usize)
        ensures
            n == self@.prefill_tokens,
    {
        self.prefill_tokens
    }

    /// The smallest and the largest score behind the prompt.
    pub fn logit_bounds(&self) -> (r: (u32, u32))
        ensures
            r == (self@.logit_min, self@.logit_max),
    {
        (self.logit_min, self.logit_max)
    }
}

/// How many of the first `n` scenarios passed.
pub open spec fn passes(list: Seq<Scenario>, n: nat) -> nat
    decreases n,
{
    if n == 0 {
        0
    } else {
        passes(list, (n - 1) as nat) + (if list[n - 1]@.passed() {
            1nat
        } else {
            0
        })
    }
}

/// How many scenarios passed, and how many failed.
pub fn tally(list: &Vec<Scenario>) -> (r: (usize, usize))
    ensures
        r.0 == passes(list@, list@.len()),
        r.0 + r.1 == list@.len(),
{
    let size: usize = list.len();
    let mut n: usize = 0;
    for i in 0..size
        invariant
            size == list@.len(),
            n == passes(list@, i as nat),
            n <= i,
    {
        if list[i].passed() {
            n = n + 1;
        }
    }
    (n, size - n)
}

} // verus!
