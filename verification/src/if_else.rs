//! A purchase decided by an `if` and an `else`, stepped through line by line.

use vstd::prelude::*;
use vstd::string::StringExecFns;
use crate::rng::{draw_between, xorshift, SimpleRng};

verus! {

/// A purse and a price, and whether the purse pays the price.
#[derive(Clone, Copy, Debug, PartialEq, Eq, Structural)]
pub struct Scenario {
    pub coins: i32,
    pub price: i32,
    pub can_buy: bool,
}

/// The scenario that is drawn from `state`: coins and a price from 0 to
/// 12 each.
pub open spec fn scenario_of(state: u64) -> Scenario {
    let coins = draw_between(state, 0, 12) as i32;
    let price = draw_between(xorshift(state), 0, 12) as i32;
    Scenario { coins, price, can_buy: coins >= price }
}

/// Draws a scenario: coins and a price from 0 to 12 each. The purse pays
/// the price if it holds as many coins at least.
pub fn generate_scenario(rng: &mut SimpleRng) -> (s: Scenario)
    ensures
        s == scenario_of(old(rng).state),
        final(rng).state == xorshift(xorshift(old(rng).state)),
        s.can_buy == (s.coins >= s.price),
{
    let coins: i32 = rng.gen_range_i32(0, 12);
    let price: i32 = rng.gen_range_i32(0, 12);
    Scenario { coins, price, can_buy: coins >= price }
}

/// One step through the decision: the line that runs, the coins and the
/// message after it, and what happens there.
#[derive(Debug)]
pub struct CodeStep {
    pub line: usize,
    pub coins: i32,
    pub status: Option<&'static str>,
    pub note: String,
}

/// A step with its texts as sequences of characters.
pub struct CodeStepView {
    pub line: nat,
    pub coins: int,
    pub status: Option<Seq<char>>,
    pub note: Seq<char>,
}

impl View for CodeStep {
    type V = CodeStepView;

    open spec fn view(&self) -> CodeStepView {
        CodeStepView {
            line: self.line as nat,
            coins: self.coins as int,
            status: match self.status {
                Some(text) => Some(text@),
                None => None,
            },
            note: self.note@,
        }
    }
}

/// The views of a list of steps.
pub open spec fn shown(steps: Seq<CodeStep>) -> Seq<CodeStepView> {
    Seq::new(steps.len(), |i: int| steps[i]@)
}

/// What is left of the coins after the price has been paid; the coins as
/// they are if the difference does not fit in 32 bits.
pub open spec fn paid(coins: i32, price: i32) -> i32 {
    if i32::MIN <= coins - price <= i32::MAX {
        (coins - price) as i32
    } else {
        coins
    }
}

/// The steps of the decision: the check of the condition, and then either
/// the two lines of the `if` branch, which pay the price and store the
/// message `bought`, or the line of the `else` branch, which stores the
/// message `not enough`.
pub open spec fn steps_of(coins: i32, price: i32) -> Seq<CodeStepView> {
    if coins >= price {
        seq![
            CodeStepView {
                line: 0,
                coins: coins as int,
                status: None,
                note: "Check coins >= price -> true"@,
            },
            CodeStepView {
                line: 1,
                coins: paid(coins, price) as int,
                status: None,
                note: "Take the if branch and subtract the price."@,
            },
            CodeStepView {
                line: 2,
                coins: paid(coins, price) as int,
                status: Some("bought"@),
                note: "Store the message."@,
            },
        ]
    } else {
        seq![
            CodeStepView {
                line: 0,
                coins: coins as int,
                status: None,
                note: "Check coins >= price -> false"@,
            },
            CodeStepView {
                line: 4,
                coins: coins as int,
                status: Some("not enough"@),
                note: "Take the else branch."@,
            },
        ]
    }
}

/// Steps through the decision whether `coins` pay `price`: one step for
/// each line that runs.
pub fn build_steps(coins: i32, price: i32) -> (steps: Vec<CodeStep>)
    ensures
        shown(steps@) == steps_of(coins, price),
{
    let condition = coins >= price;
    let mut steps: Vec<CodeStep> = Vec::new();
    if condition {
        steps.push(
            CodeStep {
                line: 0,
                coins,
                status: None,
                note: String::from_str("Check coins >= price -> true"),
            },
        );
        let next_coins: i32 = match coins.checked_sub(price) {
            Some(n) => n,
            None => coins,
        };
        steps.push(
            CodeStep {
                line: 1,
                coins: next_coins,
                status: None,
                note: String::from_str("Take the if branch and subtract the price."),
            },
        );
        steps.push(
            CodeStep {
                line: 2,
                coins: next_coins,
                status: Some("bought"),
                note: String::from_str("Store the message."),
            },
        );
    } else {
        steps.push(
            CodeStep {
                line: 0,
                coins,
                status: None,
                note: String::from_str("Check coins >= price -> false"),
            },
        );
        steps.push(
            CodeStep {
                line: 4,
                coins,
                status: Some("not enough"),
                note: String::from_str("Take the else branch."),
            },
        );
    }
    assert(shown(steps@) =~= steps_of(coins, price));
    steps
}

/// The place of the first condition that holds, or the number of
/// conditions if none holds: the branch of a chain of `if` and `else if`
/// that is taken, with the `else` branch after the last condition.
pub open spec fn first_holding(holds: Seq<bool>) -> nat
    decreases holds.len(),
{
    if holds.len() == 0 {
        0
    } else if holds[0] {
        0
    } else {
        1 + first_holding(holds.drop_first())
    }
}

/// Finds the branch that is taken in a chain of `if` and `else if` whose
/// conditions hold as `holds` says.
pub fn decision_selected_index(holds: &[bool]) -> (index: usize)
    ensures
        index == first_holding(holds@),
        index <= holds@.len(),
        index < holds@.len() ==> holds@[index as int],
        forall|k: int| 0 <= k < index ==> !holds@[k],
{
    let mut i: usize = 0;
    assert(holds@.skip(0) =~= holds@);
    while i < holds.len()
        invariant
            i <= holds.len(),
            first_holding(holds@) == i + first_holding(holds@.skip(i as int)),
            forall|k: int| 0 <= k < i ==> !holds@[k],
        decreases holds.len() - i,
    {
        if holds[i] {
            return i;
        }
        proof {
            assert(holds@.skip(i as int).drop_first() =~= holds@.skip(i as int + 1));
        }
        i += 1;
    }
    i
}

/// The texts of a list of lines.
pub open spec fn texts(lines: Seq<String>) -> Seq<Seq<char>> {
    Seq::new(lines.len(), |i: int| lines[i]@)
}

/// The lines of a block, each four spaces in.
pub open spec fn indented(code: Seq<&str>) -> Seq<Seq<char>> {
    Seq::new(code.len(), |i: int| "    "@ + code[i]@)
}

/// The head of the branch with the given number: `if` for the first, and
/// `else if` after the end of the block before it for the others.
pub open spec fn branch_head(index: int, condition: Seq<char>) -> Seq<char> {
    if index == 0 {
        "if "@ + condition + " {"@
    } else {
        "} else if "@ + condition + " {"@
    }
}

/// The lines of the branches from the one with number `from` on: for each
/// its head and its block.
pub open spec fn branch_lines(conditions: Seq<&str>, actions: Seq<&[&str]>, from: int) -> Seq<
    Seq<char>,
>
    decreases conditions.len() - from,
{
    if from < 0 || from >= conditions.len() {
        Seq::empty()
    } else {
        seq![branch_head(from, conditions[from]@)] + indented(actions[from]@) + branch_lines(
            conditions,
            actions,
            from + 1,
        )
    }
}

/// The code of a chain of `if` and `else if` with a last `else`: the
/// branches, then the `else` with its block, then the closing brace.
pub open spec fn code_lines(conditions: Seq<&str>, actions: Seq<&[&str]>, otherwise: Seq<&str>) -> Seq<
    Seq<char>,
> {
    branch_lines(conditions, actions, 0) + seq!["} else {"@] + indented(otherwise) + seq!["}"@]
}

/// Appends the lines of a block, each four spaces in.
fn push_indented(lines: &mut Vec<String>, code: &[&str])
    ensures
        texts(final(lines)@) == texts(old(lines)@) + indented(code@),
{
    let mut i: usize = 0;
    assert(texts(lines@) =~= texts(old(lines)@) + indented(code@).subrange(0, 0));
    while i < code.len()
        invariant
            i <= code.len(),
            texts(lines@) == texts(old(lines)@) + indented(code@).subrange(0, i as int),
        decreases code.len() - i,
    {
        let ghost before = texts(lines@);
        let mut line = String::from_str("    ");
        line.append(code[i]);
        lines.push(line);
        assert(texts(lines@) =~= before.push("    "@ + code@[i as int]@));
        assert(texts(lines@) =~= texts(old(lines)@) + indented(code@).subrange(0, i as int + 1));
        i += 1;
    }
    assert(indented(code@).subrange(0, code@.len() as int) =~= indented(code@));
}

/// Writes a chain of decisions as code: `if` with the first condition and
/// its block, `else if` with each further condition and its block, and
/// `else` with the last block.
pub fn decision_code_lines(conditions: &[&str], actions: &[&[&str]], otherwise: &[&str]) -> (lines:
    Vec<String>)
    requires
        conditions@.len() == actions@.len(),
    ensures
        texts(lines@) == code_lines(conditions@, actions@, otherwise@),
{
    let mut lines: Vec<String> = Vec::new();
    let mut i: usize = 0;
    assert(texts(lines@) =~= Seq::<Seq<char>>::empty());
    while i < conditions.len()
        invariant
            i <= conditions.len(),
            conditions@.len() == actions@.len(),
            texts(lines@) + branch_lines(conditions@, actions@, i as int) == branch_lines(
                conditions@,
                actions@,
                0,
            ),
        decreases conditions.len() - i,
    {
        let ghost before = texts(lines@);
        let mut head = if i == 0 {
            String::from_str("if ")
        } else {
            String::from_str("} else if ")
        };
        head.append(conditions[i]);
        head.append(" {");
        lines.push(head);
        assert(texts(lines@) =~= before.push(branch_head(i as int, conditions@[i as int]@)));
        push_indented(&mut lines, actions[i]);
        assert(before + branch_lines(conditions@, actions@, i as int) =~= texts(lines@)
            + branch_lines(conditions@, actions@, i as int + 1));
        i += 1;
    }
    let ghost branches = texts(lines@);
    assert(branches =~= branch_lines(conditions@, actions@, 0));
    lines.push(String::from_str("} else {"));
    assert(texts(lines@) =~= branches.push("} else {"@));
    push_indented(&mut lines, otherwise);
    let ghost almost = texts(lines@);
    lines.push(String::from_str("}"));
    assert(texts(lines@) =~= almost.push("}"@));
    assert(texts(lines@) =~= code_lines(conditions@, actions@, otherwise@));
    lines
}

} // verus!
