use vstd::prelude::*;

verus! {

/// A callback that records nothing; it only lets a run dump the trained
/// parameters at its end.
#[derive(Default)]
pub struct DebugCallback {}

impl DebugCallback {
    pub fn new() -> (r: Self)
        ensures
            r == (DebugCallback {}),
    {
        DebugCallback {}
    }
}

/// The counter behind early stopping: how many reports in a row brought no
/// improvement, and when that reaches `patience`, the signal to stop.
#[derive(Clone, Copy, Debug, PartialEq, Eq, Structural)]
pub struct Patience {
    pub patience: usize,
    pub wait: usize,
    pub stopped_epoch: usize,
}

impl Patience {
    pub fn new(patience: usize) -> (p: Patience)
        ensures
            p == (Patience { patience, wait: 0, stopped_epoch: 0 }),
    {
        Patience { patience, wait: 0, stopped_epoch: 0 }
    }

    /// A new run begins: nothing has been waited for yet.
    pub fn reset(&mut self)
        ensures
            *final(self) == (Patience { wait: 0, ..*old(self) }),
    {
        self.wait = 0;
    }

    /// Takes one report, `improved` telling whether the monitored loss beat
    /// the best so far by the required margin. Returns whether to stop.
    pub fn observe(&mut self, improved: bool) -> (stop: bool)
        ensures
            improved ==> !stop && *final(self) == (Patience { wait: 0, ..*old(self) }),
            !improved ==> {
                let wait = if old(self).wait == usize::MAX {
                    usize::MAX
                } else {
                    (old(self).wait + 1) as usize
                };
                &&& final(self).wait == wait
                &&& final(self).patience == old(self).patience
                &&& stop == (wait >= old(self).patience)
                &&& final(self).stopped_epoch == if stop {
                    if old(self).stopped_epoch == usize::MAX {
                        usize::MAX
                    } else {
                        (old(self).stopped_epoch + 1) as usize
                    }
                } else {
                    old(self).stopped_epoch
                }
            },
    {
        if improved {
            self.wait = 0;
            return false;
        }
        self.wait = self.wait.saturating_add(1);
        if self.wait >= self.patience {
            self.stopped_epoch = self.stopped_epoch.saturating_add(1);
            return true;
        }
        false
    }
}

} // verus!
