//! The ordered render-command list and its per-frame planner.
//!
//! A frame is an ordered sequence of commands: clear a target, or draw one
//! full-screen pass into a target. The planner walks the sequence once, in
//! declaration order, performing no dependency analysis or reordering, and
//! emits one primitive action per command for the GPU binding layer to
//! issue. For a draw it composes the frame state, the pass's channels and
//! the sequencer values into one uniform list, visited in exactly that
//! order.

use vstd::prelude::*;

use crate::uniforms::Pass;
use crate::uniforms::Provider;
use crate::uniforms::State;
use crate::uniforms::SyncVals;
use crate::uniforms::UniformName;
use crate::uniforms::UniformValue;
use crate::uniforms::flat_pairs;
use crate::uniforms::lemma_pairs_of_leaves;

verus! {

/// Where a clear or draw lands: the screen, or an off-screen render target
/// held as a handle into the caller's resource registry.
#[derive(Clone, Copy, PartialEq, Eq, Structural, Debug)]
pub enum Target {
    Screen,
    OffScreen(usize),
}

/// A clear color, each channel an IEEE 754 single-precision bit pattern;
/// the core never computes on the channels.
#[derive(Clone, Copy, PartialEq, Eq, Structural, Debug)]
pub struct Rgba {
    pub r: u32,
    pub g: u32,
    pub b: u32,
    pub a: u32,
}

/// One authored render command.
pub enum Command {
    Clear(Target, Rgba),
    Draw(Target, Pass),
}

/// One primitive action the planner hands the GPU binding layer: clear a
/// target with a color, or draw the full-screen quad into a target with a
/// program and a fully composed, ordered uniform list.
pub enum Action {
    Clear(Target, Rgba),
    Draw(Target, usize, Vec<(UniformName, UniformValue)>),
}

/// What the planner owes for one command: a clear passes through untouched,
/// and a draw carries its command's target, its pass's program, and the
/// uniform pairs of the frame state, then the pass's channels, then the
/// sequencer values, in exactly that order.
pub open spec fn action_for(c: Command, a: Action, frame: State, sync: SyncVals) -> bool {
    match (c, a) {
        (Command::Clear(t, col), Action::Clear(t2, col2)) => t2 == t && col2 == col,
        (Command::Draw(t, p), Action::Draw(t2, prog, us)) => t2 == t && prog == p.program && us@
            == frame.spec_pairs() + p.spec_pairs() + sync.spec_pairs(),
        _ => false,
    }
}

/// Walks the command list once, in declaration order, and plans one action
/// per command against the current frame state and sequencer snapshot.
pub fn plan_frame(commands: &Vec<Command>, frame: &State, sync: &SyncVals) -> (r: Vec<Action>)
    ensures
        r@.len() == commands@.len(),
        forall|i: int| 0 <= i < commands@.len() ==> action_for(commands@[i], r@[i], *frame, *sync),
{
    let n = commands.len();
    let mut out: Vec<Action> = Vec::new();
    let mut i: usize = 0;
    while i < n
        invariant
            i <= n,
            n == commands@.len(),
            out@.len() == i,
            forall|x: int| 0 <= x < i ==> action_for(commands@[x], out@[x], *frame, *sync),
        decreases n - i,
    {
        match &commands[i] {
            Command::Clear(t, col) => {
                out.push(Action::Clear(*t, *col));
            },
            Command::Draw(t, p) => {
                let mut us = frame.pairs();
                let mut cs = p.pairs();
                us.append(&mut cs);
                let mut ss = sync.pairs();
                us.append(&mut ss);
                proof {
                    assert(us@ =~= frame.spec_pairs() + p.spec_pairs() + sync.spec_pairs());
                }
                out.push(Action::Draw(*t, p.program, us));
            },
        }
        i += 1;
    }
    out
}

/// The uniform list the planner hands a draw is exactly what a visit of the
/// composed provider emits, for any composition tree whose leaves are the
/// frame state, then the pass's channels, then the sequencer values — in
/// particular for combining the first two and then the third.
pub proof fn lemma_draw_composition(p: Provider, frame: State, pass: Pass, sync: SyncVals)
    requires
        p.leaves() == seq![
            Provider::Frame(frame),
            Provider::Channels(pass),
            Provider::Tracks(sync),
        ],
    ensures
        p.spec_pairs() == frame.spec_pairs() + pass.spec_pairs() + sync.spec_pairs(),
{
    lemma_pairs_of_leaves(p);
    let l = p.leaves();
    let l1 = seq![Provider::Channels(pass), Provider::Tracks(sync)];
    let l2 = seq![Provider::Tracks(sync)];
    let none = Seq::<Provider>::empty();
    assert(l2.drop_first() =~= none);
    assert(flat_pairs(none) == Seq::<(UniformName, UniformValue)>::empty());
    assert(l2[0] == Provider::Tracks(sync));
    assert(flat_pairs(l2) == sync.spec_pairs() + flat_pairs(none));
    assert(l1.drop_first() =~= l2);
    assert(l1[0] == Provider::Channels(pass));
    assert(flat_pairs(l1) == pass.spec_pairs() + flat_pairs(l2));
    assert(l.drop_first() =~= l1);
    assert(l[0] == Provider::Frame(frame));
    assert(flat_pairs(l) == frame.spec_pairs() + flat_pairs(l1));
    assert(frame.spec_pairs() + (pass.spec_pairs() + (sync.spec_pairs() + Seq::<
        (UniformName, UniformValue),
    >::empty())) =~= frame.spec_pairs() + pass.spec_pairs() + sync.spec_pairs());
}

} // verus!

