use vstd::prelude::*;

verus! {

/// One phase of a simulation step.
#[derive(Debug, Clone, Copy, PartialEq, Eq, Structural)]
pub enum Phase {
    /// Gravity, force and torque change the velocities of dynamic bodies.
    IntegrateForces,
    /// Every pair of bodies is tested and the contact cache refreshed.
    Detect,
    /// Every cached contact computes its solve parameters.
    PreStep,
    /// One velocity sweep over all cached contacts.
    SolveVelocity,
    /// Velocities move dynamic bodies; force and torque are cleared.
    IntegratePositions,
    /// One position-correction sweep over all cached contacts.
    SolvePosition,
    /// Positions are wrapped round the world's bounds.
    Wrap,
}

/// `n` copies of phase `p`.
pub open spec fn repeat(p: Phase, n: nat) -> Seq<Phase> {
    Seq::new(n, |i: int| p)
}

/// The phases of one step, in their fixed order: forces, detection,
/// pre-step, `iterations` velocity sweeps, positions, `iterations` position
/// sweeps, and, where the world has bounds, the wrap.
pub open spec fn step_plan(iterations: nat, wrap: bool) -> Seq<Phase> {
    seq![Phase::IntegrateForces, Phase::Detect, Phase::PreStep] + repeat(
        Phase::SolveVelocity,
        iterations,
    ) + seq![Phase::IntegratePositions] + repeat(Phase::SolvePosition, iterations) + if wrap {
        seq![Phase::Wrap]
    } else {
        Seq::<Phase>::empty()
    }
}

/// Pushes `n` copies of `p` onto `v`.
fn push_repeated(v: &mut Vec<Phase>, p: Phase, n: usize)
    ensures
        final(v)@ == old(v)@ + repeat(p, n as nat),
{
    let mut i: usize = 0;
    while i < n
        invariant
            i <= n,
            v@ == old(v)@ + repeat(p, i as nat),
        decreases n - i,
    {
        v.push(p);
        i = i + 1;
        assert(v@ =~= old(v)@ + repeat(p, i as nat));
    }
}

/// The phases of one step with `iterations` solver sweeps, in order.
pub fn step_phases(iterations: usize, wrap: bool) -> (r: Vec<Phase>)
    ensures
        r@ == step_plan(iterations as nat, wrap),
{
    let mut r: Vec<Phase> = Vec::new();
    r.push(Phase::IntegrateForces);
    r.push(Phase::Detect);
    r.push(Phase::PreStep);
    push_repeated(&mut r, Phase::SolveVelocity, iterations);
    r.push(Phase::IntegratePositions);
    push_repeated(&mut r, Phase::SolvePosition, iterations);
    if wrap {
        r.push(Phase::Wrap);
    }
    assert(r@ =~= step_plan(iterations as nat, wrap));
    r
}

} // verus!
