//! The injectable randomness source. The engine only ever needs "an index
//! below `n`"; a scripted source replays a fixed list of draws so that tests
//! can pin every random decision, while the external source draws from the
//! process-wide generator.

use vstd::prelude::*;

use rand::Rng;

verus! {

/// Relies on rand::thread_rng and rand::Rng::gen_range: `gen_range(0..n)`
/// returns a value of the range, so below `n`.
#[verifier::external_body]
fn thread_random_below(n: usize) -> (r: usize)
    requires
        n >= 1,
    ensures
        r < n,
{
    rand::thread_rng().gen_range(0..n)
}

/// Where the engine's random draws come from: the process-wide generator,
/// or a scripted list of values replayed in a cycle.
pub struct RandomSource {
    pub script: Option<Vec<usize>>,
    pub next_draw: usize,
}

impl RandomSource {
    /// A source backed by the process-wide random generator.
    pub fn external() -> (r: RandomSource)
        ensures
            r.script is None,
    {
        RandomSource { script: None, next_draw: 0 }
    }

    /// A deterministic source: draw `i` yields `values[i % values.len()]`,
    /// reduced modulo the bound it is asked for.
    pub fn scripted(values: Vec<usize>) -> (r: RandomSource)
        ensures
            r.script == Some(values),
            r.next_draw == 0,
    {
        RandomSource { script: Some(values), next_draw: 0 }
    }

    /// Draws a value below `n`. An external draw promises nothing beyond
    /// the bound; a scripted draw is a function of the script and the
    /// draw position, so a test can pin every decision.
    pub fn next_below(&mut self, n: usize) -> (r: usize)
        requires
            n >= 1,
        ensures
            r < n,
            final(self).script == old(self).script,
            old(self).script matches Some(values) ==> (if values@.len() > 0 {
                &&& r == (values@[(old(self).next_draw as int) % (values@.len() as int)] as int) % (
                n as int)
                &&& final(self).next_draw == (((old(self).next_draw as int) % (values@.len()
                    as int)) + 1) % (values@.len() as int)
            } else {
                r == 0 && final(self).next_draw == old(self).next_draw
            }),
    {
        let len = match &self.script {
            Option::None => return thread_random_below(n),
            Option::Some(values) => values.len(),
        };
        if len == 0 {
            return 0;
        }
        let draw = self.next_draw % len;
        let v = match &self.script {
            Option::None => 0,
            Option::Some(values) => values[draw],
        };
        self.next_draw = (draw + 1) % len;
        v % n
    }
}

} // verus!
