//! A counting loop stepped through line by line, and loops to practise on.

use vstd::prelude::*;
use vstd::string::StringExecFns;
use crate::rng::{draw_between, xorshift, SimpleRng};
use crate::text::{push_signed, signed_decimal};

verus! {

/// One step through the loop: the line that runs, the count after it, and
/// what happens there.
#[derive(Debug)]
pub struct LoopStep {
    pub line: usize,
    pub count: i32,
    pub note: String,
}

/// A step with its note as a sequence of characters.
pub struct LoopStepView {
    pub line: nat,
    pub count: int,
    pub note: Seq<char>,
}

impl View for LoopStep {
    type V = LoopStepView;

    open spec fn view(&self) -> LoopStepView {
        LoopStepView { line: self.line as nat, count: self.count as int, note: self.note@ }
    }
}

/// The views of a list of steps.
pub open spec fn shown(steps: Seq<LoopStep>) -> Seq<LoopStepView> {
    Seq::new(steps.len(), |i: int| steps[i]@)
}

/// The greatest number of rounds that are stepped through.
pub const MAX_ROUNDS: usize = 21;

/// The truth value as text.
pub open spec fn truth_text(b: bool) -> Seq<char> {
    if b {
        "true"@
    } else {
        "false"@
    }
}

/// The step that sets the count.
pub open spec fn set_step(count: i32) -> LoopStepView {
    LoopStepView {
        line: 0,
        count: count as int,
        note: "Set count to "@ + signed_decimal(count as int) + "."@,
    }
}

/// The step that checks the condition of the loop.
pub open spec fn check_step(count: i32, limit: i32) -> LoopStepView {
    LoopStepView {
        line: 1,
        count: count as int,
        note: "Check count < "@ + signed_decimal(limit as int) + " -> "@ + truth_text(count < limit)
            + "."@,
    }
}

/// The step at the end of the loop, with the reason for it.
pub open spec fn end_step(count: i32, note: Seq<char>) -> LoopStepView {
    LoopStepView { line: 4, count: count as int, note }
}

/// The count after it has been increased by 1; the largest count stays as
/// it is.
pub open spec fn increased(count: i32) -> i32 {
    if count < i32::MAX {
        (count + 1) as i32
    } else {
        count
    }
}

/// The steps from the check of the condition on, after `done` rounds: the
/// check, then the end of the loop if the condition is false, and else the
/// body, the increase of the count, and the next round. The loop is left
/// after 21 rounds at most.
pub open spec fn rounds(count: i32, limit: i32, done: nat) -> Seq<LoopStepView>
    decreases MAX_ROUNDS - done,
{
    if count >= limit {
        seq![
            check_step(count, limit),
            end_step(count, "Condition is false, so the loop stops."@),
        ]
    } else {
        let next = increased(count);
        let round = seq![
            check_step(count, limit),
            LoopStepView { line: 2, count: count as int, note: "Run the loop body once."@ },
            LoopStepView { line: 3, count: next as int, note: "Increase count by 1."@ },
        ];
        if done + 1 >= MAX_ROUNDS {
            round.push(end_step(next, "Stopped early to avoid an infinite loop."@))
        } else {
            round + rounds(next, limit, done + 1)
        }
    }
}

/// All the steps of the loop that counts from `start` up to `limit`.
pub open spec fn steps_of(start: i32, limit: i32) -> Seq<LoopStepView> {
    seq![set_step(start)] + rounds(start, limit, 0)
}

/// The step that sets the count.
fn make_set_step(count: i32) -> (step: LoopStep)
    ensures
        step@ == set_step(count),
{
    let mut note = String::from_str("Set count to ");
    push_signed(&mut note, count as i64);
    note.append(".");
    LoopStep { line: 0, count, note }
}

/// The step that checks the condition of the loop.
fn make_check_step(count: i32, limit: i32) -> (step: LoopStep)
    ensures
        step@ == check_step(count, limit),
{
    let mut note = String::from_str("Check count < ");
    push_signed(&mut note, limit as i64);
    note.append(" -> ");
    if count < limit {
        note.append("true");
    } else {
        note.append("false");
    }
    note.append(".");
    LoopStep { line: 1, count, note }
}

/// Steps through the loop that sets `count` to `start` and increases it
/// by 1 while it is less than `limit`: one step for each line that runs.
/// After 21 rounds the stepping stops, so that a loop that does not end is
/// not followed for ever.
pub fn build_steps(start: i32, limit: i32) -> (steps: Vec<LoopStep>)
    ensures
        shown(steps@) == steps_of(start, limit),
{
    let mut steps: Vec<LoopStep> = Vec::new();
    let mut count: i32 = start;
    steps.push(make_set_step(count));
    let mut safety: usize = 0;
    assert(shown(steps@) =~= seq![set_step(start)]);
    loop
        invariant
            safety < MAX_ROUNDS,
            steps_of(start, limit) == shown(steps@) + rounds(count, limit, safety as nat),
        decreases MAX_ROUNDS - safety,
    {
        let ghost before = shown(steps@);
        let condition = count < limit;
        steps.push(make_check_step(count, limit));
        if !condition {
            steps.push(
                LoopStep {
                    line: 4,
                    count,
                    note: String::from_str("Condition is false, so the loop stops."),
                },
            );
            assert(shown(steps@) =~= before + rounds(count, limit, safety as nat));
            return steps;
        }
        steps.push(LoopStep { line: 2, count, note: String::from_str("Run the loop body once.") });
        let next: i32 = match count.checked_add(1) {
            Some(n) => n,
            None => count,
        };
        steps.push(LoopStep { line: 3, count: next, note: String::from_str("Increase count by 1.") });
        let ghost round = seq![
            check_step(count, limit),
            LoopStepView { line: 2, count: count as int, note: "Run the loop body once."@ },
            LoopStepView { line: 3, count: next as int, note: "Increase count by 1."@ },
        ];
        assert(shown(steps@) =~= before + round);
        let ghost old_count = count;
        count = next;
        safety += 1;
        if safety > 20 {
            steps.push(
                LoopStep {
                    line: 4,
                    count,
                    note: String::from_str("Stopped early to avoid an infinite loop."),
                },
            );
            assert(shown(steps@) =~= before + rounds(old_count, limit, (safety - 1) as nat));
            return steps;
        }
        assert(before + rounds(old_count, limit, (safety - 1) as nat) =~= shown(steps@) + rounds(
            count,
            limit,
            safety as nat,
        ));
    }
}

/// A loop to practise on: where the count starts, the limit it counts up
/// to, and the number of rounds, which is the answer.
pub open spec fn practice_of(state: u64) -> (i32, i32, i32) {
    let start = draw_between(state, 0, 5);
    let drawn = draw_between(xorshift(state), start + 2, start + 6);
    let limit = if drawn > 12 {
        start + 4
    } else {
        drawn
    };
    (start as i32, limit as i32, (limit - start) as i32)
}

/// Draws a loop to practise on: a start from 0 to 5 and a limit that lies
/// 2 to 6 above it, with the number of rounds that the loop takes.
pub fn generate_practice(rng: &mut SimpleRng) -> (r: (i32, i32, i32))
    ensures
        r == practice_of(old(rng).state),
        final(rng).state == xorshift(xorshift(old(rng).state)),
        0 <= r.0 <= 5,
        2 <= r.2 <= 6,
        r.1 == r.0 + r.2,
{
    let start: i32 = rng.gen_range_i32(0, 5);
    let mut limit: i32 = rng.gen_range_i32(start + 2, start + 6);
    if limit > 12 {
        limit = start + 4;
    }
    let answer: i32 = limit - start;
    (start, limit, answer)
}

/// A loop of which it is asked whether it stops: the count starts at
/// `start` and changes by `delta` in each round, while it stands in the
/// relation `condition` to `limit`.
#[derive(Debug)]
pub struct TerminationScenario {
    pub start: i32,
    pub limit: i32,
    pub delta: i32,
    pub condition: &'static str,
    pub stops: bool,
}

/// A scenario with its condition as a sequence of characters.
pub struct ScenarioView {
    pub start: int,
    pub limit: int,
    pub delta: int,
    pub condition: Seq<char>,
    pub stops: bool,
}

impl View for TerminationScenario {
    type V = ScenarioView;

    open spec fn view(&self) -> ScenarioView {
        ScenarioView {
            start: self.start as int,
            limit: self.limit as int,
            delta: self.delta as int,
            condition: self.condition@,
            stops: self.stops,
        }
    }
}

/// The scenario with the given number, from 0 to 5. A loop stops if its
/// count moves towards the limit, or if its condition is false from the
/// start.
pub open spec fn scenario(index: int) -> ScenarioView {
    if index == 0 {
        ScenarioView { start: 0, limit: 5, delta: 1, condition: "<"@, stops: true }
    } else if index == 1 {
        ScenarioView { start: 0, limit: 5, delta: -1, condition: "<"@, stops: false }
    } else if index == 2 {
        ScenarioView { start: 10, limit: 5, delta: -1, condition: ">"@, stops: true }
    } else if index == 3 {
        ScenarioView { start: 10, limit: 5, delta: 1, condition: ">"@, stops: false }
    } else if index == 4 {
        ScenarioView { start: 3, limit: 3, delta: 1, condition: "<"@, stops: true }
    } else {
        ScenarioView { start: 3, limit: 3, delta: -1, condition: ">"@, stops: true }
    }
}

/// Draws one of the six scenarios.
pub fn pick_termination_scenario(rng: &mut SimpleRng) -> (picked: TerminationScenario)
    ensures
        picked@ == scenario(draw_between(old(rng).state, 0, 5)),
        final(rng).state == xorshift(old(rng).state),
{
    let index: i32 = rng.gen_range_i32(0, 5);
    if index == 0 {
        TerminationScenario { start: 0, limit: 5, delta: 1, condition: "<", stops: true }
    } else if index == 1 {
        TerminationScenario { start: 0, limit: 5, delta: -1, condition: "<", stops: false }
    } else if index == 2 {
        TerminationScenario { start: 10, limit: 5, delta: -1, condition: ">", stops: true }
    } else if index == 3 {
        TerminationScenario { start: 10, limit: 5, delta: 1, condition: ">", stops: false }
    } else if index == 4 {
        TerminationScenario { start: 3, limit: 3, delta: 1, condition: "<", stops: true }
    } else {
        TerminationScenario { start: 3, limit: 3, delta: -1, condition: ">", stops: true }
    }
}

/// The four lines of code of a scenario: the start, the head of the loop,
/// the change of the count, and the end of the loop.
pub open spec fn termination_lines_spec(s: ScenarioView) -> Seq<Seq<char>> {
    let change = if s.delta >= 0 {
        "    count <- count + "@ + signed_decimal(s.delta)
    } else {
        "    count <- count - "@ + signed_decimal(-s.delta)
    };
    seq![
        "count <- "@ + signed_decimal(s.start),
        "while count "@ + s.condition + " "@ + signed_decimal(s.limit) + " {"@,
        change,
        "}"@,
    ]
}

/// The texts of a list of lines.
pub open spec fn texts(lines: Seq<String>) -> Seq<Seq<char>> {
    Seq::new(lines.len(), |i: int| lines[i]@)
}

/// Writes the scenario as four lines of code.
pub fn termination_lines(scenario: &TerminationScenario) -> (lines: Vec<String>)
    ensures
        texts(lines@) == termination_lines_spec(scenario@),
{
    let mut first = String::from_str("count <- ");
    push_signed(&mut first, scenario.start as i64);
    let mut head = String::from_str("while count ");
    head.append(scenario.condition);
    head.append(" ");
    push_signed(&mut head, scenario.limit as i64);
    head.append(" {");
    let mut change: String;
    if scenario.delta >= 0 {
        change = String::from_str("    count <- count + ");
        push_signed(&mut change, scenario.delta as i64);
    } else {
        change = String::from_str("    count <- count - ");
        push_signed(&mut change, -(scenario.delta as i64));
    }
    let mut lines: Vec<String> = Vec::new();
    lines.push(first);
    lines.push(head);
    lines.push(change);
    lines.push(String::from_str("}"));
    assert(texts(lines@) =~= termination_lines_spec(scenario@));
    lines
}

} // verus!
