use vstd::prelude::*;

verus! {

/// What one credited kill does to a killer's bone-shield counter.
#[derive(Debug, Clone, Copy, PartialEq, Eq, Structural)]
pub struct KillCredit {
    /// The counter after the kill.
    pub progress: u32,
    /// How many shields the kill grants.
    pub shields: u32,
}

/// Counts one kill toward the bone shield: the counter goes up by one, and each time it reaches
/// `threshold` a shield is granted and `threshold` kills are spent.
pub fn count_kill(progress: u32, threshold: u32) -> (c: KillCredit)
    requires
        threshold >= 1,
        progress < u32::MAX,
    ensures
        c.progress == (progress + 1) % (threshold as int),
        c.shields == (progress + 1) / (threshold as int),
{
    let mut p: u32 = progress + 1;
    let mut shields: u32 = 0;
    while p >= threshold
        invariant
            threshold >= 1,
            progress < u32::MAX,
            shields * threshold + p == progress + 1,
        decreases p,
    {
        proof {
            assert(shields <= shields * threshold) by (nonlinear_arith)
                requires
                    threshold >= 1,
            ;
            assert((shields + 1) * threshold == shields * threshold + threshold) by (nonlinear_arith);
            assert(shields * threshold <= progress);
            assert(shields < u32::MAX);
        }
        p = p - threshold;
        shields = shields + 1;
    }
    proof {
        vstd::arithmetic::div_mod::lemma_fundamental_div_mod_converse(
            progress + 1,
            threshold as int,
            shields as int,
            p as int,
        );
    }
    KillCredit { progress: p, shields }
}

/// Credits never exceed the threshold: after any kill the counter is below `threshold`, and
/// the kills spent on shields plus the counter account for every kill counted.
pub proof fn lemma_kill_credit_conserves(progress: u32, threshold: u32, c: KillCredit)
    requires
        threshold >= 1,
        progress < u32::MAX,
        c.progress == (progress + 1) % (threshold as int),
        c.shields == (progress + 1) / (threshold as int),
    ensures
        c.progress < threshold,
        c.shields * threshold + c.progress == progress + 1,
{
    vstd::arithmetic::div_mod::lemma_fundamental_div_mod(progress + 1, threshold as int);
    vstd::arithmetic::div_mod::lemma_mod_bound(progress + 1, threshold as int);
    assert(c.shields * threshold == threshold * c.shields) by (nonlinear_arith);
}

} // verus!
