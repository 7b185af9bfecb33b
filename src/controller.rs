//! The jump state machine of the kinematic character controller: when a jump starts, for how
//! many physics ticks its impulse is applied, and when it is reset on landing.
use vstd::prelude::*;

verus! {

/// Jump progress of one character: whether a jump is under way with its ground normal captured,
/// and for how many ticks the impulse has been applied since the last landing.
#[derive(Clone, Copy, Debug, PartialEq, Eq, Structural)]
pub struct JumpState {
    pub launched: bool,
    pub ticks: u32,
}

/// What the controller does with its jump on one tick.
#[derive(Clone, Copy, Debug, PartialEq, Eq, Structural)]
pub struct JumpDecision {
    /// Capture the current ground normal as the jump direction.
    pub capture_normal: bool,
    /// Apply the jump impulse along the captured normal.
    pub impulse: bool,
}

/// The tick limit actually used: a maximum below the minimum means exactly the minimum.
pub open spec fn effective_max(jump_min_ticks: u32, jump_max_ticks: u32) -> u32 {
    if jump_max_ticks >= jump_min_ticks {
        jump_max_ticks
    } else {
        jump_min_ticks
    }
}

/// The state after the landing reset: a grounded character that no longer wants to jump and
/// has had at least the minimum impulse ticks starts afresh.
pub open spec fn after_reset(jump_min_ticks: u32, jump: bool, grounded: bool, s: JumpState) -> JumpState {
    if !jump && grounded && s.ticks >= jump_min_ticks {
        JumpState { launched: false, ticks: 0 }
    } else {
        s
    }
}

/// The jump decision of one tick and the state after it. A grounded character that wants to
/// jump and has not jumped since landing captures the ground normal. The impulse is applied while
/// fewer than the maximum ticks have passed, the character still wants to jump or has not had the
/// minimum, and a normal is captured; otherwise the captured normal is dropped.
pub open spec fn after_intent(
    jump_min_ticks: u32,
    jump_max_ticks: u32,
    jump: bool,
    grounded: bool,
    s: JumpState,
) -> (JumpState, JumpDecision) {
    let capture = grounded && jump && s.ticks == 0;
    let launched = s.launched || capture;
    let impulse = s.ticks < effective_max(jump_min_ticks, jump_max_ticks) && (jump || s.ticks
        < jump_min_ticks) && launched;
    if impulse {
        (
            JumpState { launched: true, ticks: (s.ticks + 1) as u32 },
            JumpDecision { capture_normal: capture, impulse: true },
        )
    } else {
        (
            JumpState { launched: false, ticks: s.ticks },
            JumpDecision { capture_normal: capture, impulse: false },
        )
    }
}

/// One physics tick of the jump: the landing reset, then the intent.
pub open spec fn jump_tick(
    jump_min_ticks: u32,
    jump_max_ticks: u32,
    jump: bool,
    grounded: bool,
    s: JumpState,
) -> (JumpState, JumpDecision) {
    after_intent(
        jump_min_ticks,
        jump_max_ticks,
        jump,
        grounded,
        after_reset(jump_min_ticks, jump, grounded, s),
    )
}

/// The state after a run of ticks, each given as `(jump, grounded)`, and how many of those ticks
/// applied the impulse.
pub open spec fn jump_run(
    jump_min_ticks: u32,
    jump_max_ticks: u32,
    inputs: Seq<(bool, bool)>,
    s: JumpState,
) -> (JumpState, nat)
    decreases inputs.len(),
{
    if inputs.len() == 0 {
        (s, 0)
    } else {
        let (s1, n) = jump_run(jump_min_ticks, jump_max_ticks, inputs.drop_last(), s);
        let (s2, d) = jump_tick(jump_min_ticks, jump_max_ticks, inputs.last().0, inputs.last().1, s1);
        (s2, n + if d.impulse {
            1nat
        } else {
            0nat
        })
    }
}

impl JumpState {
    /// No jump under way.
    pub fn new() -> (r: Self)
        ensures
            r == (JumpState { launched: false, ticks: 0 }),
    {
        JumpState { launched: false, ticks: 0 }
    }
}

impl Default for JumpState {
    fn default() -> (r: Self)
        ensures
            r == (JumpState { launched: false, ticks: 0 }),
    {
        JumpState::new()
    }
}

/// The landing reset: clears the jump of a grounded character that no longer wants to jump and
/// has had at least `jump_min_ticks` impulse ticks.
pub fn reset_jump_state(jump_min_ticks: u32, jump: bool, grounded: bool, state: &mut JumpState)
    ensures
        *final(state) == after_reset(jump_min_ticks, jump, grounded, *old(state)),
{
    if !jump && grounded && state.ticks >= jump_min_ticks {
        state.launched = false;
        state.ticks = 0;
    }
}

/// The jump part of applying an intent on one tick: decides whether to capture the ground
/// normal and whether to apply the impulse, and advances the state.
pub fn apply_jump_intent(
    jump_min_ticks: u32,
    jump_max_ticks: u32,
    jump: bool,
    grounded: bool,
    state: &mut JumpState,
) -> (r: JumpDecision)
    ensures
        (*final(state), r) == after_intent(jump_min_ticks, jump_max_ticks, jump, grounded, *old(state)),
{
    let capture = grounded && jump && state.ticks == 0;
    let launched = state.launched || capture;
    let max_ticks = if jump_max_ticks >= jump_min_ticks {
        jump_max_ticks
    } else {
        jump_min_ticks
    };
    if state.ticks < max_ticks && (jump || state.ticks < jump_min_ticks) && launched {
        state.launched = true;
        state.ticks = state.ticks + 1;
        JumpDecision { capture_normal: capture, impulse: true }
    } else {
        state.launched = false;
        JumpDecision { capture_normal: capture, impulse: false }
    }
}

/// One physics tick of the jump: the landing reset followed by the intent.
pub fn step_jump(
    jump_min_ticks: u32,
    jump_max_ticks: u32,
    jump: bool,
    grounded: bool,
    state: &mut JumpState,
) -> (r: JumpDecision)
    ensures
        (*final(state), r) == jump_tick(jump_min_ticks, jump_max_ticks, jump, grounded, *old(state)),
{
    reset_jump_state(jump_min_ticks, jump, grounded, state);
    apply_jump_intent(jump_min_ticks, jump_max_ticks, jump, grounded, state)
}

proof fn lemma_held_jump(min: u32, max: u32, inputs: Seq<(bool, bool)>)
    requires
        min <= max,
        inputs.len() >= 1,
        inputs[0].1,
        forall|i: int| 0 <= i < inputs.len() ==> (#[trigger] inputs[i]).0,
    ensures
        ({
            let (s, n) = jump_run(min, max, inputs, JumpState { launched: false, ticks: 0 });
            let k = inputs.len();
            &&& s.ticks == if k < max {
                k
            } else {
                max as nat
            }
            &&& n == s.ticks
            &&& s.launched == (k <= max)
        }),
    decreases inputs.len(),
{
    let s0 = JumpState { launched: false, ticks: 0 };
    if inputs.len() > 1 {
        let prev = inputs.drop_last();
        assert forall|i: int| 0 <= i < prev.len() implies (#[trigger] prev[i]).0 by {
            assert(prev[i] == inputs[i]);
        }
        assert(prev[0] == inputs[0]);
        lemma_held_jump(min, max, prev);
        assert(inputs.last() == inputs[inputs.len() - 1]);
        let (s1, n1) = jump_run(min, max, prev, s0);
        let (s2, d) = jump_tick(min, max, inputs.last().0, inputs.last().1, s1);
        assert(jump_run(min, max, inputs, s0) == (s2, n1 + if d.impulse {
            1nat
        } else {
            0nat
        }));
    } else {
        assert(inputs.drop_last().len() == 0);
        assert(inputs.last() == inputs[0]);
        let (s2, d) = jump_tick(min, max, inputs.last().0, inputs.last().1, s0);
        assert(jump_run(min, max, inputs.drop_last(), s0) == (s0, 0nat));
        assert(jump_run(min, max, inputs, s0) == (s2, 0nat + if d.impulse {
            1nat
        } else {
            0nat
        }));
    }
}

/// A jump begun on the ground with the jump intent held throughout applies its impulse on one
/// tick after another until `jump_max_ticks` ticks have passed, and never more: over any run of
/// ticks the impulse count is at most `jump_max_ticks`, and it equals `jump_max_ticks`, which is
/// at least `jump_min_ticks`, once that many ticks have run.
pub proof fn held_jump_lasts_max_ticks(
    jump_min_ticks: u32,
    jump_max_ticks: u32,
    inputs: Seq<(bool, bool)>,
)
    requires
        jump_min_ticks <= jump_max_ticks,
        inputs.len() >= 1,
        inputs[0].1,
        forall|i: int| 0 <= i < inputs.len() ==> (#[trigger] inputs[i]).0,
    ensures
        jump_run(jump_min_ticks, jump_max_ticks, inputs, JumpState { launched: false, ticks: 0 }).1
            <= jump_max_ticks,
        inputs.len() >= jump_max_ticks ==> jump_run(
            jump_min_ticks,
            jump_max_ticks,
            inputs,
            JumpState { launched: false, ticks: 0 },
        ).1 == jump_max_ticks,
        inputs.len() >= jump_max_ticks ==> jump_run(
            jump_min_ticks,
            jump_max_ticks,
            inputs,
            JumpState { launched: false, ticks: 0 },
        ).1 >= jump_min_ticks,
{
    lemma_held_jump(jump_min_ticks, jump_max_ticks, inputs);
}

proof fn lemma_started_jump(min: u32, max: u32, inputs: Seq<(bool, bool)>)
    requires
        inputs.len() >= 1,
        inputs[0].0,
        inputs[0].1,
    ensures
        ({
            let (s, n) = jump_run(min, max, inputs, JumpState { launched: false, ticks: 0 });
            let k = inputs.len();
            &&& k <= min ==> s.ticks == k && n == k && s.launched
            &&& k > min ==> n >= min
        }),
    decreases inputs.len(),
{
    if inputs.len() > 1 {
        let prev = inputs.drop_last();
        assert(prev[0] == inputs[0]);
        lemma_started_jump(min, max, prev);
        let s0 = JumpState { launched: false, ticks: 0 };
        let (s1, n1) = jump_run(min, max, prev, s0);
        let (s2, d) = jump_tick(min, max, inputs.last().0, inputs.last().1, s1);
        assert(jump_run(min, max, inputs, s0) == (s2, n1 + if d.impulse {
            1nat
        } else {
            0nat
        }));
    } else {
        let s0 = JumpState { launched: false, ticks: 0 };
        assert(inputs.drop_last().len() == 0);
        assert(inputs.last() == inputs[0]);
        let (s2, d) = jump_tick(min, max, inputs.last().0, inputs.last().1, s0);
        assert(jump_run(min, max, inputs.drop_last(), s0) == (s0, 0nat));
        assert(jump_run(min, max, inputs, s0) == (s2, 0nat + if d.impulse {
            1nat
        } else {
            0nat
        }));
    }
}

/// A jump begun on the ground applies its impulse on at least `jump_min_ticks` ticks, however
/// early the jump intent is released: once that many ticks have run, so many impulses have been
/// applied.
pub proof fn started_jump_lasts_min_ticks(
    jump_min_ticks: u32,
    jump_max_ticks: u32,
    inputs: Seq<(bool, bool)>,
)
    requires
        inputs.len() >= 1,
        inputs[0].0,
        inputs[0].1,
        inputs.len() >= jump_min_ticks,
    ensures
        jump_run(jump_min_ticks, jump_max_ticks, inputs, JumpState { launched: false, ticks: 0 }).1
            >= jump_min_ticks,
{
    lemma_started_jump(jump_min_ticks, jump_max_ticks, inputs);
}

} // verus!
