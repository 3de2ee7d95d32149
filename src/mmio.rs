//! The memory-mapped I/O bus that a CPU talks to, and simple peripherals.

use vstd::prelude::*;

verus! {

/// Start of the timer's window, relative to the MMIO base.
pub const MEM_TIMER: u32 = 0;

/// A word-addressed bus behind the MMIO region: offsets are relative to the
/// region's base, and an offset that no register answers is an error.
pub trait Mmio: Sized {
    /// What a load of the word at `addr` returns.
    spec fn spec_load(&self, addr: u32) -> Result<u32, ()>;

    /// The bus after a store of `val` at `addr`, and the store's result.
    spec fn spec_store(&self, addr: u32, val: u32) -> (Self, Result<(), ()>);

    fn load(&self, addr: u32) -> (r: Result<u32, ()>)
        ensures
            r == self.spec_load(addr),
    ;

    fn store(&mut self, addr: u32, val: u32) -> (r: Result<(), ()>)
        ensures
            (*final(self), r) == old(self).spec_store(addr, val),
    ;
}

/// A bus with nothing on it: every access is out of bounds.
#[derive(Clone, Copy, Debug, PartialEq, Eq, Structural)]
pub struct NoMmio;

impl Mmio for NoMmio {
    open spec fn spec_load(&self, addr: u32) -> Result<u32, ()> {
        Err(())
    }

    open spec fn spec_store(&self, addr: u32, val: u32) -> (Self, Result<(), ()>) {
        (*self, Err(()))
    }

    fn load(&self, addr: u32) -> (r: Result<u32, ()>) {
        Err(())
    }

    fn store(&mut self, addr: u32, val: u32) -> (r: Result<(), ()>) {
        Err(())
    }
}

/// The timer peripheral: word 0 holds the seed drawn when the bot was
/// (re)spawned, word 1 the number of ticks since then. It is read-only.
#[derive(Clone, Copy, Debug, PartialEq, Eq, Structural)]
pub struct Timer {
    pub seed: u32,
    pub ticks: u32,
}

impl Timer {
    /// One tick passes; the counter wraps around.
    pub fn tick(&mut self)
        ensures
            final(self).seed == old(self).seed,
            final(self).ticks == old(self).ticks.wrapping_add(1),
    {
        self.ticks = self.ticks.wrapping_add(1);
    }
}

impl Mmio for Timer {
    open spec fn spec_load(&self, addr: u32) -> Result<u32, ()> {
        if addr == MEM_TIMER {
            Ok(self.seed)
        } else if addr == (MEM_TIMER + 4) as u32 {
            Ok(self.ticks)
        } else {
            Err(())
        }
    }

    open spec fn spec_store(&self, addr: u32, val: u32) -> (Self, Result<(), ()>) {
        (*self, Err(()))
    }

    fn load(&self, addr: u32) -> (r: Result<u32, ()>) {
        if addr == MEM_TIMER {
            Ok(self.seed)
        } else if addr == MEM_TIMER + 4 {
            Ok(self.ticks)
        } else {
            Err(())
        }
    }

    fn store(&mut self, addr: u32, val: u32) -> (r: Result<(), ()>) {
        Err(())
    }
}

/// Firmware side: the seed that the timer was given at (re)spawn. It does not
/// change between calls; it is drawn anew only when the bot is restarted.
pub fn timer_seed<M: Mmio>(mmio: &M) -> (r: Result<u32, ()>)
    ensures
        r == mmio.spec_load(MEM_TIMER),
{
    mmio.load(MEM_TIMER)
}

/// Firmware side: the number of ticks since the bot was spawned.
pub fn timer_ticks<M: Mmio>(mmio: &M) -> (r: Result<u32, ()>)
    ensures
        r == mmio.spec_load((MEM_TIMER + 4) as u32),
{
    mmio.load(MEM_TIMER + 4)
}

} // verus!
