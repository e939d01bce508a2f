use stepwise::choices::{build_choices_within, draw_choice, holds, Bounds};
use stepwise::functions::{
    double_plus_one, generate_question, push_output, question_code, step_output, FunctionKind,
};
use stepwise::if_else::{self, decision_selected_index, generate_scenario};
use stepwise::loops::{
    self, generate_practice, pick_termination_scenario, termination_lines, TerminationScenario,
};
use stepwise::rng::SimpleRng;
use stepwise::state::{self, run_ops, Op};

#[test]
fn update_is_applied_with_overflow_detected() {
    assert_eq!(Op::Add(3).apply(4), Some(7));
    assert_eq!(Op::Sub(3).apply(4), Some(1));
    assert_eq!(Op::Mul(3).apply(4), Some(12));
    assert_eq!(Op::Add(1).apply(i32::MAX), None);
    assert_eq!(Op::Sub(1).apply(i32::MIN), None);
    assert_eq!(Op::Mul(2).apply(i32::MAX), None);
}

#[test]
fn update_is_written_as_a_line() {
    assert_eq!(Op::Add(2).update_line("apples", "<-"), "apples <- apples + 2");
    assert_eq!(Op::Sub(10).update_line("n", "\u{2190}"), "n \u{2190} n - 10");
    assert_eq!(Op::Mul(-3).update_line("x", "="), "x = x * -3");
}

#[test]
fn updates_run_in_order_within_bounds() {
    assert_eq!(run_ops(3, &vec![Op::Add(2), Op::Mul(2)]), Some(10));
    assert_eq!(run_ops(3, &vec![]), Some(3));
    assert_eq!(run_ops(3, &vec![Op::Sub(4), Op::Add(9)]), None);
    assert_eq!(run_ops(50, &vec![Op::Mul(2)]), None);
    assert_eq!(run_ops(33, &vec![Op::Mul(3)]), Some(99));
}

#[test]
fn practice_sequence_is_drawn_from_the_seed() {
    let mut rng = SimpleRng::new(1);
    let (start, ops, result) = state::generate_practice(&mut rng);
    assert_eq!((start, result), (2, 7));
    assert_eq!(ops, vec![Op::Mul(3), Op::Add(1)]);
    assert_eq!(rng.state, 17270571163283330953);
    let mut rng = SimpleRng::new(42);
    let (start, ops, result) = state::generate_practice(&mut rng);
    assert_eq!((start, result), (4, 33));
    assert_eq!(ops, vec![Op::Mul(2), Op::Mul(2), Op::Mul(2), Op::Add(1)]);
    for seed in 1..60u64 {
        let mut rng = SimpleRng::new(seed);
        let (start, ops, result) = state::generate_practice(&mut rng);
        assert_eq!(run_ops(start, &ops), Some(result));
    }
}

#[test]
fn loop_is_stepped_through_line_by_line() {
    let steps = loops::build_steps(0, 2);
    let lines: Vec<usize> = steps.iter().map(|s| s.line).collect();
    assert_eq!(lines, vec![0, 1, 2, 3, 1, 2, 3, 1, 4]);
    let counts: Vec<i32> = steps.iter().map(|s| s.count).collect();
    assert_eq!(counts, vec![0, 0, 0, 1, 1, 1, 2, 2, 2]);
    assert_eq!(steps[0].note, "Set count to 0.");
    assert_eq!(steps[1].note, "Check count < 2 -> true.");
    assert_eq!(steps[2].note, "Run the loop body once.");
    assert_eq!(steps[3].note, "Increase count by 1.");
    assert_eq!(steps[7].note, "Check count < 2 -> false.");
    assert_eq!(steps[8].note, "Condition is false, so the loop stops.");
}

#[test]
fn loop_that_never_runs_has_three_steps() {
    let steps = loops::build_steps(5, -1);
    assert_eq!(steps.len(), 3);
    assert_eq!(steps[0].note, "Set count to 5.");
    assert_eq!(steps[1].note, "Check count < -1 -> false.");
    assert_eq!(steps[2].line, 4);
}

#[test]
fn long_loop_is_left_after_twenty_one_rounds() {
    let steps = loops::build_steps(0, 1000);
    assert_eq!(steps.len(), 1 + 21 * 3 + 1);
    let last = &steps[steps.len() - 1];
    assert_eq!(last.line, 4);
    assert_eq!(last.count, 21);
    assert_eq!(last.note, "Stopped early to avoid an infinite loop.");
    let steps = loops::build_steps(i32::MAX, i32::MAX);
    assert_eq!(steps.len(), 3);
}

#[test]
fn loop_practice_is_drawn_from_the_seed() {
    let mut rng = SimpleRng::new(1);
    assert_eq!(generate_practice(&mut rng), (0, 4, 4));
    assert_eq!(rng.state, 1152992998833853505);
    let mut rng = SimpleRng::new(7);
    assert_eq!(generate_practice(&mut rng), (1, 3, 2));
    let mut rng = SimpleRng::new(42);
    assert_eq!(generate_practice(&mut rng), (4, 9, 5));
}

#[test]
fn termination_scenario_is_one_of_six() {
    let mut rng = SimpleRng::new(1);
    let s = pick_termination_scenario(&mut rng);
    assert_eq!((s.start, s.limit, s.delta, s.condition, s.stops), (0, 5, 1, "<", true));
    let mut rng = SimpleRng::new(7);
    let s = pick_termination_scenario(&mut rng);
    assert_eq!((s.start, s.limit, s.delta, s.condition, s.stops), (0, 5, -1, "<", false));
    let mut rng = SimpleRng::new(42);
    let s = pick_termination_scenario(&mut rng);
    assert_eq!((s.start, s.limit, s.delta, s.condition, s.stops), (3, 3, 1, "<", true));
}

#[test]
fn termination_scenario_is_written_as_code() {
    let s = TerminationScenario { start: 10, limit: 5, delta: -1, condition: ">", stops: true };
    assert_eq!(
        termination_lines(&s),
        vec!["count <- 10", "while count > 5 {", "    count <- count - 1", "}"]
    );
    let s = TerminationScenario { start: 0, limit: 5, delta: 2, condition: "<", stops: true };
    assert_eq!(termination_lines(&s)[2], "    count <- count + 2");
}

#[test]
fn purchase_is_stepped_through_line_by_line() {
    let steps = if_else::build_steps(6, 4);
    assert_eq!(steps.len(), 3);
    assert_eq!((steps[0].line, steps[0].coins, steps[0].status), (0, 6, None));
    assert_eq!(steps[0].note, "Check coins >= price -> true");
    assert_eq!((steps[1].line, steps[1].coins, steps[1].status), (1, 2, None));
    assert_eq!(steps[1].note, "Take the if branch and subtract the price.");
    assert_eq!((steps[2].line, steps[2].coins, steps[2].status), (2, 2, Some("bought")));
    assert_eq!(steps[2].note, "Store the message.");
    let steps = if_else::build_steps(3, 4);
    assert_eq!(steps.len(), 2);
    assert_eq!(steps[0].note, "Check coins >= price -> false");
    assert_eq!((steps[1].line, steps[1].coins, steps[1].status), (4, 3, Some("not enough")));
    assert_eq!(steps[1].note, "Take the else branch.");
    let steps = if_else::build_steps(i32::MAX, -1);
    assert_eq!(steps[1].coins, i32::MAX);
}

#[test]
fn purchase_scenario_is_drawn_from_the_seed() {
    let mut rng = SimpleRng::new(1);
    let s = generate_scenario(&mut rng);
    assert_eq!((s.coins, s.price, s.can_buy), (0, 9, false));
    let mut rng = SimpleRng::new(42);
    let s = generate_scenario(&mut rng);
    assert_eq!((s.coins, s.price, s.can_buy), (10, 10, true));
}

#[test]
fn first_condition_that_holds_is_taken() {
    assert_eq!(decision_selected_index(&[false, true, true]), 1);
    assert_eq!(decision_selected_index(&[true]), 0);
    assert_eq!(decision_selected_index(&[false, false]), 2);
    assert_eq!(decision_selected_index(&[]), 0);
}

#[test]
fn functions_are_applied_with_overflow_left_out() {
    assert_eq!(FunctionKind::Double.apply(4), 8);
    assert_eq!(FunctionKind::AddTwo.apply(4), 6);
    assert_eq!(FunctionKind::Square.apply(-4), 16);
    assert_eq!(FunctionKind::Double.apply(i32::MAX), i32::MAX);
    assert_eq!(FunctionKind::Square.apply(65536), 65536);
    assert_eq!(FunctionKind::Double.name(), "double");
    assert_eq!(FunctionKind::AddTwo.body(), "n + 2");
    assert_eq!(double_plus_one(5), 11);
    assert_eq!(double_plus_one(i32::MAX), i32::MAX);
    assert_eq!(step_output(5), 16);
    assert_eq!(step_output(i32::MAX), i32::MAX);
}

#[test]
fn question_is_drawn_from_the_seed_and_written_as_code() {
    let mut rng = SimpleRng::new(42);
    let q = generate_question(&mut rng);
    assert_eq!((q.kind, q.input, q.output), (FunctionKind::AddTwo, 3, 5));
    assert_eq!(
        question_code(&q),
        vec!["function add_two(n) {", "    n + 2", "}", "result <- add_two(3)"]
    );
    let mut rng = SimpleRng::new(1);
    let q = generate_question(&mut rng);
    assert_eq!((q.kind, q.input, q.output), (FunctionKind::Double, 2, 4));
}

#[test]
fn newest_five_outputs_are_kept() {
    let mut outputs = vec![];
    for value in 1..=7 {
        push_output(&mut outputs, value);
    }
    assert_eq!(outputs, vec![3, 4, 5, 6, 7]);
}

#[test]
fn choice_is_added_if_it_is_new_and_within_bounds() {
    let bounds = Bounds { spread: 5, lowest: 0, highest: i64::MAX };
    let mut rng = SimpleRng::new(1);
    let mut choices = vec![7];
    while choices.len() < 4 {
        draw_choice(&mut rng, &mut choices, 7, bounds);
    }
    rng.shuffle(&mut choices);
    assert_eq!(choices, vec![2, 7, 8, 5]);
    assert_eq!(rng.state, 17775799001133815809);
    let bounds = Bounds { spread: 3, lowest: 0, highest: 12 };
    let mut rng = SimpleRng::new(7);
    let mut choices = vec![1];
    while choices.len() < 4 {
        draw_choice(&mut rng, &mut choices, 1, bounds);
    }
    rng.shuffle(&mut choices);
    assert_eq!(choices, vec![3, 2, 1, 4]);
    assert!(holds(&choices, 4));
    assert!(!holds(&choices, 0));
}

#[test]
fn shuffle_keeps_the_values() {
    let mut rng = SimpleRng::new(1);
    let mut values = vec![10, 20, 30, 40, 50];
    rng.shuffle(&mut values);
    assert_eq!(values, vec![50, 40, 20, 30, 10]);
    assert_eq!(rng.state, 17678023832001937445);
    let mut rng = SimpleRng::new(42);
    let mut values = vec![10, 20, 30, 40, 50];
    rng.shuffle(&mut values);
    assert_eq!(values, vec![40, 50, 30, 20, 10]);
    let mut one = vec![1];
    rng.shuffle(&mut one);
    assert_eq!(one, vec![1]);
    let mut none: Vec<u8> = vec![];
    rng.shuffle(&mut none);
    assert!(none.is_empty());
}

#[test]
fn no_attempt_gives_the_fixed_sequence() {
    let mut rng = SimpleRng::new(9);
    let (start, ops, result) = state::generate_practice_within(&mut rng, 0);
    assert_eq!((start, result), (3, 10));
    assert_eq!(ops, vec![Op::Add(2), Op::Mul(2)]);
    assert_eq!(rng.state, 9);
}

#[test]
fn chain_of_decisions_is_written_as_code() {
    let lines = if_else::decision_code_lines(
        &["raining", "temperature >= 25"],
        &[&["plan = \"umbrella\""], &["plan = \"sunglasses\""]],
        &["plan = \"jacket\""],
    );
    assert_eq!(
        lines,
        vec![
            "if raining {",
            "    plan = \"umbrella\"",
            "} else if temperature >= 25 {",
            "    plan = \"sunglasses\"",
            "} else {",
            "    plan = \"jacket\"",
            "}",
        ]
    );
    let lines = if_else::decision_code_lines(
        &["coins >= price"],
        &[&["coins = coins - price", "status = \"bought\""]],
        &["status = \"not enough\""],
    );
    assert_eq!(lines.len(), 6);
    assert_eq!(lines[2], "    status = \"bought\"");
    let lines = if_else::decision_code_lines(&[], &[], &[]);
    assert_eq!(lines, vec!["} else {", "}"]);
}

#[test]
fn choices_are_the_answer_and_three_near_it() {
    let bounds = Bounds { spread: 5, lowest: 0, highest: i64::MAX };
    let mut rng = SimpleRng::new(1);
    assert_eq!(build_choices_within(&mut rng, 7, bounds, 1000), vec![2, 7, 8, 5]);
    assert_eq!(rng.state, 17775799001133815809);
    let bounds = Bounds { spread: 3, lowest: 0, highest: 12 };
    let mut rng = SimpleRng::new(42);
    assert_eq!(build_choices_within(&mut rng, 1, bounds, 1000), vec![2, 4, 1, 0]);
    assert_eq!(rng.state, 6305510500065803557);
}

#[test]
fn choices_stop_when_the_draws_run_out() {
    let bounds = Bounds { spread: 3, lowest: 0, highest: 12 };
    let mut rng = SimpleRng::new(5);
    assert_eq!(build_choices_within(&mut rng, 6, bounds, 0), vec![6]);
    assert_eq!(rng.state, 5);
    let choices = build_choices_within(&mut rng, 6, bounds, 1);
    assert!(choices.len() <= 2);
    assert!(choices.contains(&6));
    let none = Bounds { spread: 0, lowest: 0, highest: 12 };
    let mut rng = SimpleRng::new(5);
    assert_eq!(build_choices_within(&mut rng, 6, none, 50), vec![6]);
}
