use vstd::prelude::*;

verus! {

/// What a checker waiting on its parts heard next: a part's answer, or
/// nothing before its timeout.
#[derive(Debug, Clone, Copy, PartialEq, Eq, Structural)]
pub enum Heard {
    Answer(bool),
    TimedOut,
}

/// The answer so far of a checker waiting on `remaining` parts: whether
/// every part that answered found its history linearizable.
#[derive(Debug, Clone, Copy, PartialEq, Eq, Structural)]
pub struct Tally {
    pub ok: bool,
    pub remaining: usize,
}

/// What the waiting checker does next.
#[derive(Debug, Clone, Copy, PartialEq, Eq, Structural)]
pub enum Next {
    /// Wait for another answer.
    Wait,
    /// Stop waiting and answer `ok`.
    Stop,
    /// Tell the other parts to stop, and answer `ok`, which is false.
    KillAndStop,
}

impl Tally {
    /// Waiting on `count` parts, none of which answered.
    pub fn new(count: usize) -> (t: Tally)
        ensures
            t.ok,
            t.remaining == count,
    {
        Tally { ok: true, remaining: count }
    }

    /// Takes in what was heard: a part that found no linearization makes
    /// the answer false and stops the others; the last answer, or a
    /// timeout, ends the wait with the answer so far.
    pub fn hear(&mut self, heard: Heard) -> (next: Next)
        requires
            heard is Answer ==> old(self).remaining > 0,
        ensures
            match heard {
                Heard::Answer(res) => {
                    &&& final(self).ok == (old(self).ok && res)
                    &&& !final(self).ok ==> next == Next::KillAndStop && final(self).remaining == old(self).remaining
                    &&& final(self).ok ==> final(self).remaining == old(self).remaining - 1
                        && next == (if final(self).remaining == 0 { Next::Stop } else { Next::Wait })
                },
                Heard::TimedOut => *final(self) == *old(self) && next == Next::Stop,
            },
    {
        match heard {
            Heard::Answer(res) => {
                self.ok = self.ok && res;
                if !self.ok {
                    return Next::KillAndStop;
                }
                self.remaining = self.remaining - 1;
                if self.remaining == 0 {
                    Next::Stop
                } else {
                    Next::Wait
                }
            },
            Heard::TimedOut => Next::Stop,
        }
    }
}

} // verus!
