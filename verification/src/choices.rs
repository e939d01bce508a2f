//! Wrong answers to offer beside the right one.

use vstd::prelude::*;
use crate::rng::{draw_between, shuffled, xorshift, SimpleRng};

verus! {

/// The bounds of the answers that may be offered: a wrong answer differs
/// from the right one by `spread` at most, and lies between `lowest` and
/// `highest`.
#[derive(Clone, Copy, Debug, PartialEq, Eq, Structural)]
pub struct Bounds {
    pub spread: i64,
    pub lowest: i64,
    pub highest: i64,
}

/// The answer that is drawn from `state` beside the right `answer`.
pub open spec fn candidate(state: u64, answer: i64, bounds: Bounds) -> int {
    answer + draw_between(state, -bounds.spread, bounds.spread as int)
}

/// Whether the answer that is drawn from `state` is taken: it is not the
/// right answer, lies within the bounds, and has not been taken before.
pub open spec fn is_taken(state: u64, choices: Seq<i64>, answer: i64, bounds: Bounds) -> bool {
    let c = candidate(state, answer, bounds);
    c != answer && bounds.lowest <= c <= bounds.highest && !choices.contains(c as i64)
}

/// The choices after one draw from `state`.
pub open spec fn after_draw(state: u64, choices: Seq<i64>, answer: i64, bounds: Bounds) -> Seq<
    i64,
> {
    if is_taken(state, choices, answer, bounds) {
        choices.push(candidate(state, answer, bounds) as i64)
    } else {
        choices
    }
}

/// Whether the list holds the value.
pub fn holds(choices: &Vec<i64>, value: i64) -> (r: bool)
    ensures
        r == choices@.contains(value),
{
    let mut i: usize = 0;
    while i < choices.len()
        invariant
            i <= choices.len(),
            forall|k: int| 0 <= k < i ==> choices@[k] != value,
        decreases choices.len() - i,
    {
        if choices[i] == value {
            return true;
        }
        i += 1;
    }
    false
}

/// Draws one answer near the right one and adds it to the choices if it is
/// a new wrong answer within the bounds. Says whether it was added.
pub fn draw_choice(rng: &mut SimpleRng, choices: &mut Vec<i64>, answer: i64, bounds: Bounds) -> (added:
    bool)
    requires
        0 <= bounds.spread,
        bounds.spread < i64::MAX / 2,
        i64::MIN + bounds.spread <= answer <= i64::MAX - bounds.spread,
    ensures
        final(rng).state == xorshift(old(rng).state),
        added == is_taken(old(rng).state, old(choices)@, answer, bounds),
        final(choices)@ == after_draw(old(rng).state, old(choices)@, answer, bounds),
{
    let delta: i64 = rng.gen_range_i64(-bounds.spread, bounds.spread);
    if delta == 0 {
        return false;
    }
    let candidate: i64 = answer + delta;
    if candidate < bounds.lowest || candidate > bounds.highest {
        return false;
    }
    if holds(choices, candidate) {
        return false;
    }
    choices.push(candidate);
    true
}

/// The choices after draws have been added to them until there are four,
/// or until `attempts` draws have been made, and the state after the draws.
pub open spec fn drawn_choices(
    state: u64,
    choices: Seq<i64>,
    answer: i64,
    bounds: Bounds,
    attempts: nat,
) -> (Seq<i64>, u64)
    decreases attempts,
{
    if attempts == 0 || choices.len() >= 4 {
        (choices, state)
    } else {
        drawn_choices(
            xorshift(state),
            after_draw(state, choices, answer, bounds),
            answer,
            bounds,
            (attempts - 1) as nat,
        )
    }
}

/// The right answer and up to three wrong ones near it, in a random order:
/// wrong answers are drawn until there are three of them, but no more than
/// `attempts` times, and the choices are shuffled then. Fewer than four
/// choices come back only if the draws run out.
pub fn build_choices_within(rng: &mut SimpleRng, answer: i64, bounds: Bounds, attempts: usize) -> (choices:
    Vec<i64>)
    requires
        0 <= bounds.spread,
        bounds.spread < i64::MAX / 2,
        i64::MIN + bounds.spread <= answer <= i64::MAX - bounds.spread,
    ensures
        ({
            let (drawn, state) = drawn_choices(
                old(rng).state,
                seq![answer],
                answer,
                bounds,
                attempts as nat,
            );
            &&& (choices@, final(rng).state) == shuffled(state, drawn, drawn.len() - 1)
            &&& choices@.to_multiset() == drawn.to_multiset()
        }),
        choices@.contains(answer),
        1 <= choices@.len() <= 4,
{
    let mut choices: Vec<i64> = Vec::new();
    choices.push(answer);
    assert(choices@ =~= seq![answer]);
    assert(choices@[0] == answer);
    let mut left: usize = attempts;
    while left > 0 && choices.len() < 4
        invariant
            0 <= bounds.spread,
            bounds.spread < i64::MAX / 2,
            i64::MIN + bounds.spread <= answer <= i64::MAX - bounds.spread,
            1 <= choices@.len() <= 4,
            choices@.contains(answer),
            drawn_choices(old(rng).state, seq![answer], answer, bounds, attempts as nat)
                == drawn_choices(rng.state, choices@, answer, bounds, left as nat),
        decreases left,
    {
        let ghost before = choices@;
        let ghost i = choose|i: int| 0 <= i < before.len() && before[i] == answer;
        draw_choice(rng, &mut choices, answer, bounds);
        assert(choices@[i] == answer);
        left -= 1;
    }
    let ghost drawn = choices@;
    let ghost state = rng.state;
    rng.shuffle(&mut choices);
    proof {
        broadcast use vstd::seq_lib::group_to_multiset_ensures;

        assert(drawn.to_multiset().count(answer) > 0);
        assert(choices@.to_multiset().count(answer) > 0);
    }
    choices
}

} // verus!
