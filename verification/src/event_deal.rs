//! Two ways of dealing with events, measured against each other: calling
//! the handlers as each event comes, or recording the events and calling
//! the handler over the record afterwards.
use vstd::prelude::*;

verus! {

/// The number of events in a round.
pub const ROUND: usize = 100000;

/// An event handler.
#[derive(Clone, Copy, Debug, PartialEq, Eq, Structural)]
pub enum Handler {
    /// Counts the event.
    Deal,
}

impl Handler {
    /// Runs the handler on the counter.
    pub fn call(&self, i: &mut usize)
        requires
            *old(i) < usize::MAX,
        ensures
            *final(i) == *old(i) + 1,
    {
        match self {
            Handler::Deal => deal(i),
        }
    }
}

/// Counts one event.
pub fn deal(i: &mut usize)
    requires
        *old(i) < usize::MAX,
    ensures
        *final(i) == *old(i) + 1,
{
    *i = *i + 1;
}

/// `b1` is `b0` after a run: the count is that of one round with every
/// handler, whatever it was before, and the handlers stay.
pub open spec fn immediate_ran(b0: ImmediateBenchmark, b1: ImmediateBenchmark) -> bool {
    &&& b1.0 == ROUND * b0.1@.len()
    &&& b1.1@ == b0.1@
}

/// Running the immediate benchmark again changes nothing: the count after a
/// run depends only on the handlers, which a run keeps.
pub proof fn lemma_immediate_run_again(b0: ImmediateBenchmark, b1: ImmediateBenchmark, b2: ImmediateBenchmark)
    requires
        immediate_ran(b0, b1),
        immediate_ran(b1, b2),
    ensures
        b2.0 == b1.0,
        b2.1@ == b1.1@,
{
}

/// Calls every handler for each event as it comes; the count of calls is
/// kept in the first field.
pub struct ImmediateBenchmark(pub usize, pub Vec<Handler>);

impl ImmediateBenchmark {
    /// Three counting handlers, nothing counted yet.
    pub fn new() -> (r: ImmediateBenchmark)
        ensures
            r.0 == 0,
            r.1@ == seq![Handler::Deal, Handler::Deal, Handler::Deal],
    {
        ImmediateBenchmark(0, vec![Handler::Deal, Handler::Deal, Handler::Deal])
    }

    /// Deals a round of events with every handler; the count becomes the
    /// number of calls of the round.
    pub fn run(&mut self)
        requires
            ROUND * old(self).1@.len() <= usize::MAX,
        ensures
            immediate_ran(*old(self), *final(self)),
    {
        let n = self.1.len();
        let mut i: usize = 0;
        let mut k: usize = 0;
        while k < ROUND
            invariant
                0 <= k <= ROUND,
                n == self.1@.len(),
                self.1@ == old(self).1@,
                ROUND * n <= usize::MAX,
                i == k * n,
            decreases ROUND - k,
        {
            proof {
                assert((k + 1) * n <= ROUND * n) by (nonlinear_arith)
                    requires
                        k < ROUND,
                ;
                assert((k + 1) * n == k * n + n) by (nonlinear_arith);
            }
            let mut j: usize = 0;
            while j < self.1.len()
                invariant
                    0 <= j <= n,
                    n == self.1@.len(),
                    i == k * n + j,
                    k * n + n <= usize::MAX,
                decreases n - j,
            {
                let h = self.1[j];
                h.call(&mut i);
                j = j + 1;
            }
            k = k + 1;
        }
        self.0 = i;
    }
}

/// Records the events first, then calls the handler three times over the
/// record; the count of calls is kept in the first field.
pub struct DelayBenchmark(pub usize, pub Vec<usize>, pub Handler);

impl DelayBenchmark {
    /// A record holding a round of events, nothing counted yet.
    pub fn new() -> (r: DelayBenchmark)
        ensures
            r.0 == 0,
            r.1@ == Seq::new(ROUND as nat, |i: int| i as usize),
            r.2 == Handler::Deal,
    {
        let mut arr: Vec<usize> = Vec::with_capacity(ROUND);
        let mut i: usize = 0;
        while i < ROUND
            invariant
                0 <= i <= ROUND,
                arr@ == Seq::new(i as nat, |j: int| j as usize),
            decreases ROUND - i,
        {
            arr.push(i);
            i = i + 1;
            assert(arr@ =~= Seq::new(i as nat, |j: int| j as usize));
        }
        DelayBenchmark(0, arr, Handler::Deal)
    }

    /// Records another round of events, then deals the whole record three
    /// times; the count becomes three times the record's length.
    pub fn run(&mut self)
        requires
            3 * (old(self).1@.len() + ROUND) <= usize::MAX,
        ensures
            final(self).1@ == old(self).1@ + Seq::new(ROUND as nat, |i: int| i as usize),
            final(self).0 == 3 * final(self).1@.len(),
            final(self).2 == old(self).2,
    {
        let mut i: usize = 0;
        let mut k: usize = 0;
        while k < ROUND
            invariant
                0 <= k <= ROUND,
                self.1@ == old(self).1@ + Seq::new(k as nat, |j: int| j as usize),
                self.2 == old(self).2,
            decreases ROUND - k,
        {
            self.1.push(k);
            k = k + 1;
            assert(self.1@ =~= old(self).1@ + Seq::new(k as nat, |j: int| j as usize));
        }
        let r = self.2;
        let n = self.1.len();
        let mut pass: usize = 0;
        while pass < 3
            invariant
                0 <= pass <= 3,
                n == self.1@.len(),
                3 * n <= usize::MAX,
                i == pass * n,
            decreases 3 - pass,
        {
            assert(pass * n + n <= 3 * n) by (nonlinear_arith)
                requires
                    pass < 3,
            ;
            let mut j: usize = 0;
            while j < self.1.len()
                invariant
                    0 <= j <= n,
                    n == self.1@.len(),
                    3 * n <= usize::MAX,
                    pass < 3,
                    i == pass * n + j,
                    pass * n + n <= 3 * n,
                decreases n - j,
            {
                r.call(&mut i);
                j = j + 1;
            }
            assert((pass + 1) * n == pass * n + n) by (nonlinear_arith);
            pass = pass + 1;
        }
        self.0 = i;
    }
}

} // verus!
