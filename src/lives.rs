//! The record of a bot's recent lives.

use vstd::prelude::*;

verus! {

/// How many lives of a bot are kept.
pub const MAX_LIVES_PER_BOT: usize = 128;

/// One life of a bot: when it was born and died (in ticks of the world), its
/// age when it died and the score it made.
#[derive(Clone, Copy, Debug, PartialEq, Eq, Structural)]
pub struct Life {
    pub born_at: u64,
    pub died_at: Option<u64>,
    pub age: Option<u32>,
    pub score: u32,
}

/// A ring of the last `MAX_LIVES_PER_BOT` lives of a bot, oldest first.
#[derive(Debug)]
pub struct Lives {
    entries: Vec<Life>,
    /// How many lives were ever recorded, kept or not.
    total: u64,
}

impl View for Lives {
    type V = Seq<Life>;

    closed spec fn view(&self) -> Seq<Life> {
        self.entries@
    }
}

impl Lives {
    /// At most `MAX_LIVES_PER_BOT` lives are kept.
    pub open spec fn wf(&self) -> bool {
        self@.len() <= MAX_LIVES_PER_BOT
    }

    pub closed spec fn total_spec(&self) -> nat {
        self.total as nat
    }

    /// No life recorded.
    pub fn new() -> (r: Lives)
        ensures
            r.wf(),
            r@.len() == 0,
            r.total_spec() == 0,
    {
        Lives { entries: Vec::new(), total: 0 }
    }

    /// Records a life; when the ring is full, the oldest life goes.
    pub fn push(&mut self, life: Life)
        requires
            old(self).wf(),
        ensures
            final(self).wf(),
            old(self)@.len() < MAX_LIVES_PER_BOT ==> final(self)@ == old(self)@.push(life),
            old(self)@.len() == MAX_LIVES_PER_BOT ==> final(self)@ == old(self)@.drop_first().push(
                life,
            ),
            final(self).total_spec() == if old(self).total_spec() < u64::MAX {
                old(self).total_spec() + 1
            } else {
                old(self).total_spec()
            },
    {
        if self.entries.len() >= MAX_LIVES_PER_BOT {
            self.entries.remove(0);
        }
        self.entries.push(life);
        self.total = self.total.saturating_add(1);
    }

    /// How many lives are kept.
    pub fn len(&self) -> (r: usize)
        ensures
            r == self@.len(),
    {
        self.entries.len()
    }

    /// How many lives were ever recorded (saturating).
    pub fn total(&self) -> (r: u64)
        ensures
            r == self.total_spec(),
    {
        self.total
    }

    /// The kept lives, oldest first.
    pub fn iter(&self) -> (r: &Vec<Life>)
        ensures
            r@ == self@,
    {
        &self.entries
    }
}

} // verus!
