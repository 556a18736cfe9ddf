//! Which pipelines are there, which are being made.
//!
//! Pipelines live with the graphics device. Here each has a number, and the
//! cache decides who makes a missing one: the first to ask.

use crate::named::Named;
use vstd::prelude::*;
use vstd::string::*;

verus! {

/// What is known of a key.
#[derive(Debug, Clone, Copy, PartialEq, Eq, Structural)]
pub enum CacheEntry {
    /// The pipeline with this number.
    Ready(usize),
    /// Someone is making it.
    Pending,
}

/// What to do for a key.
#[derive(Debug, Clone, Copy, PartialEq, Eq, Structural)]
pub enum CacheAction {
    /// Use the pipeline with this number.
    Use(usize),
    /// Ask again later: someone else is making it.
    Wait,
    /// Make it, then call [`PipelineCache::complete`].
    Compile,
}

/// The pipelines by key.
#[derive(Debug)]
pub struct PipelineCache {
    entries: Named<CacheEntry>,
}

impl View for PipelineCache {
    type V = Map<Seq<char>, CacheEntry>;

    closed spec fn view(&self) -> Map<Seq<char>, CacheEntry> {
        self.entries@
    }
}

/// What is to be done where `known` is what the cache has for a key.
pub open spec fn action_for(known: Option<CacheEntry>) -> CacheAction {
    match known {
        Some(CacheEntry::Ready(p)) => CacheAction::Use(p),
        Some(CacheEntry::Pending) => CacheAction::Wait,
        None => CacheAction::Compile,
    }
}

impl PipelineCache {
    /// Every key has one entry.
    pub closed spec fn wf(&self) -> bool {
        self.entries.wf()
    }

    /// What the cache has for a key.
    pub open spec fn known(&self, key: Seq<char>) -> Option<CacheEntry> {
        if self@.contains_key(key) {
            Some(self@[key])
        } else {
            None
        }
    }

    /// An empty cache.
    pub fn new() -> (c: PipelineCache)
        ensures
            c.wf(),
            c@ == Map::<Seq<char>, CacheEntry>::empty(),
    {
        PipelineCache { entries: Named::new() }
    }

    /// What to do for a key, without claiming it.
    pub fn probe(&self, key: &String) -> (a: CacheAction)
        requires
            self.wf(),
        ensures
            a == action_for(self.known(key@)),
    {
        match self.entries.get(key.as_str()) {
            Some(CacheEntry::Ready(p)) => CacheAction::Use(*p),
            Some(CacheEntry::Pending) => CacheAction::Wait,
            None => CacheAction::Compile,
        }
    }

    /// What to do for a key. Who is told to make the pipeline has claimed it:
    /// the others wait.
    pub fn claim(&mut self, key: &String) -> (a: CacheAction)
        requires
            old(self).wf(),
        ensures
            final(self).wf(),
            a == action_for(old(self).known(key@)),
            final(self)@ == (if a == CacheAction::Compile {
                old(self)@.insert(key@, CacheEntry::Pending)
            } else {
                old(self)@
            }),
    {
        let action = self.probe(key);
        if let CacheAction::Compile = action {
            self.entries.insert(key.clone(), CacheEntry::Pending);
        }
        action
    }

    /// The pipeline of a key has been made and has this number.
    pub fn complete(&mut self, key: &String, pipeline: usize)
        requires
            old(self).wf(),
        ensures
            final(self).wf(),
            final(self)@ == old(self)@.insert(key@, CacheEntry::Ready(pipeline)),
    {
        self.entries.insert(key.clone(), CacheEntry::Ready(pipeline));
    }
}

/// A pipeline is made once: while one is being made the others wait, and once
/// it is there everyone uses it.
pub proof fn law_compiled_once(
    before: Map<Seq<char>, CacheEntry>,
    claimed: Map<Seq<char>, CacheEntry>,
    done: Map<Seq<char>, CacheEntry>,
    key: Seq<char>,
    pipeline: usize,
)
    requires
        !before.contains_key(key),
        claimed == before.insert(key, CacheEntry::Pending),
        done == claimed.insert(key, CacheEntry::Ready(pipeline)),
    ensures
        action_for(Some(claimed[key])) == CacheAction::Wait,
        action_for(Some(done[key])) == CacheAction::Use(pipeline),
        forall|other: Seq<char>|
            other != key ==> (#[trigger] done.contains_key(other) == before.contains_key(other)
                && (before.contains_key(other) ==> done[other] == before[other])),
{
}

} // verus!
