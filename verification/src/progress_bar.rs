//! The state of a progress bar: how many steps there are and how many are done.
//! Drawing the bar is left to the caller.

use vstd::prelude::*;

verus! {

/// Progress through a fixed number of steps.
pub struct ProgressBar {
    total: usize,
    current: usize,
    width: usize,
}

impl ProgressBar {
    /// The number of steps.
    pub closed spec fn spec_total(&self) -> usize {
        self.total
    }

    /// The number of steps done.
    pub closed spec fn spec_current(&self) -> usize {
        self.current
    }

    /// The number of character slots of the drawn bar.
    pub closed spec fn spec_width(&self) -> usize {
        self.width
    }

    /// No more steps are done than there are.
    #[verifier::type_invariant]
    pub closed spec fn wf(&self) -> bool {
        self.current <= self.total
    }

    /// A bar of `total` steps, none done, to be drawn 40 slots wide.
    pub fn new(total: usize) -> (bar: Self)
        ensures
            bar.spec_total() == total,
            bar.spec_current() == 0,
            bar.spec_width() == 40,
    {
        Self { total, current: 0, width: 40 }
    }

    /// One more step is done, unless all are.
    pub fn tick(&mut self)
        ensures
            final(self).spec_total() == old(self).spec_total(),
            final(self).spec_width() == old(self).spec_width(),
            final(self).spec_current() == (if old(self).spec_current() < old(self).spec_total() {
                (old(self).spec_current() + 1) as usize
            } else {
                old(self).spec_current()
            }),
    {
        proof {
            use_type_invariant(&*self);
        }
        if self.total == 0 {
            return ;
        }
        if self.current < self.total {
            self.current = self.current + 1;
        }
    }

    /// All steps are done.
    pub fn finish(&mut self)
        ensures
            final(self).spec_total() == old(self).spec_total(),
            final(self).spec_width() == old(self).spec_width(),
            final(self).spec_current() == old(self).spec_total(),
    {
        proof {
            use_type_invariant(&*self);
        }
        if self.total == 0 {
            return ;
        }
        self.current = self.total;
    }

    /// The number of steps.
    #[verifier::when_used_as_spec(spec_total)]
    pub fn total(&self) -> (n: usize)
        ensures
            n == self.spec_total(),
    {
        self.total
    }

    /// The number of steps done.
    #[verifier::when_used_as_spec(spec_current)]
    pub fn current(&self) -> (n: usize)
        ensures
            n == self.spec_current(),
            n <= self.spec_total(),
    {
        proof {
            use_type_invariant(self);
        }
        self.current
    }

    /// The number of character slots of the drawn bar.
    #[verifier::when_used_as_spec(spec_width)]
    pub fn width(&self) -> (n: usize)
        ensures
            n == self.spec_width(),
    {
        self.width
    }
}

} // verus!
