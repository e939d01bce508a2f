use stepwise::arithmetic;
use stepwise::boolean;
use stepwise::expr::{count_ops, Expr, Value};
use stepwise::reduce::eval_expr;
use stepwise::render::expr_to_string;
use stepwise::rng::SimpleRng;

#[test]
fn seed_zero_starts_from_one() {
    assert_eq!(SimpleRng::new(0).state, 1);
    assert_eq!(SimpleRng::new(77).state, 77);
}

#[test]
fn generator_is_a_xorshift() {
    let mut rng = SimpleRng::new(1);
    let drawn = [rng.next_u32(), rng.next_u32(), rng.next_u32(), rng.next_u32()];
    assert_eq!(drawn, [0, 268452102, 2602468399, 4115985667]);
    assert_eq!(rng.state, 17678023832001937445);
}

#[test]
fn range_is_the_draw_modulo_the_span() {
    let mut rng = SimpleRng::new(12345);
    let drawn: Vec<i32> = (0..6).map(|_| rng.gen_range_i32(0, 3)).collect();
    assert_eq!(drawn, vec![2, 0, 2, 2, 0, 3]);
    let mut rng = SimpleRng::new(12345);
    let drawn: Vec<i64> = (0..6).map(|_| rng.gen_range_i64(-5, 5)).collect();
    assert_eq!(drawn, vec![-2, 0, 3, -3, 2, -3]);
    let mut rng = SimpleRng::new(9);
    assert_eq!(rng.gen_range_i32(4, 4), 4);
}

#[test]
fn same_seed_gives_the_same_expression() {
    let mut a = SimpleRng::new(42);
    let mut b = SimpleRng::new(42);
    assert_eq!(boolean::random_expr(&mut a, 0, 3), boolean::random_expr(&mut b, 0, 3));
    assert_eq!(a.state, b.state);
}

#[test]
fn boolean_expressions_are_drawn_from_the_seed() {
    let mut rng = SimpleRng::new(42);
    let expr = boolean::random_expr(&mut rng, 0, 3);
    assert_eq!(expr_to_string(&expr), "(false and not (false and false))");
    assert_eq!(rng.state, 14920199445007693788);
    let mut rng = SimpleRng::new(2024);
    let expr = boolean::random_expr(&mut rng, 0, 3);
    assert_eq!(expr_to_string(&expr), "not ((false or true) and false)");
    let mut rng = SimpleRng::new(1);
    assert_eq!(boolean::random_expr(&mut rng, 0, 3), Expr::boolean(false));
    assert_eq!(rng.state, 1152992998833853505);
}

#[test]
fn expression_at_the_greatest_depth_is_a_literal() {
    let mut rng = SimpleRng::new(5);
    assert!(boolean::random_expr(&mut rng, 3, 3).is_literal());
    assert!(arithmetic::random_expr(&mut rng, 2, 2).is_literal());
    assert!(arithmetic::random_expr(&mut rng, 0, 0).is_literal());
}

#[test]
fn boolean_exercise_has_two_operators_and_its_answer() {
    let mut rng = SimpleRng::new(1);
    let exercise = boolean::generate_exercise(&mut rng);
    assert_eq!(expr_to_string(&exercise.expr), "not (not false and (false and true))");
    assert!(exercise.answer);
    assert_eq!(rng.state, 17489430009591986844);
    for seed in 1..50u64 {
        let mut rng = SimpleRng::new(seed);
        let exercise = boolean::generate_exercise(&mut rng);
        assert!(count_ops(&exercise.expr) >= 1);
        assert_eq!(eval_expr(&exercise.expr), Ok(Value::Bool(exercise.answer)));
    }
}

#[test]
fn boolean_tree_has_two_operators() {
    let mut rng = SimpleRng::new(7);
    let expr = boolean::generate_tree_expr(&mut rng);
    assert_eq!(expr_to_string(&expr), "not not (false and false)");
    assert_eq!(rng.state, 12385489502095420092);
}

#[test]
fn arithmetic_expressions_are_drawn_from_the_seed() {
    let mut rng = SimpleRng::new(7);
    let expr = arithmetic::random_expr(&mut rng, 0, 3);
    assert_eq!(expr_to_string(&expr), "(((4 - 7) + (4 * 4)) + (7 - (-2)))");
    assert_eq!(rng.state, 10048748263042813217);
    let mut rng = SimpleRng::new(1);
    assert_eq!(arithmetic::random_expr(&mut rng, 0, 3), Expr::num(4));
}

#[test]
fn arithmetic_exercise_has_a_small_answer() {
    let mut rng = SimpleRng::new(1);
    let exercise = arithmetic::generate_exercise(&mut rng);
    assert_eq!(expr_to_string(&exercise.expr), "(((2 * 2) - (6 - 4)) + ((2 + 4) * 6))");
    assert_eq!(exercise.answer, 38);
    assert_eq!(rng.state, 5341755297032657242);
    let mut rng = SimpleRng::new(42);
    let exercise = arithmetic::generate_exercise(&mut rng);
    assert_eq!(expr_to_string(&exercise.expr), "(-((-3) * (8 * 1)))");
    assert_eq!(exercise.answer, 24);
    for seed in 1..50u64 {
        let mut rng = SimpleRng::new(seed);
        let exercise = arithmetic::generate_exercise(&mut rng);
        assert!(count_ops(&exercise.expr) >= 2);
        assert!((0..=99).contains(&exercise.answer));
        assert_eq!(eval_expr(&exercise.expr), Ok(Value::Num(exercise.answer)));
    }
}

#[test]
fn arithmetic_tree_has_a_value_near_zero() {
    let mut rng = SimpleRng::new(1);
    let expr = arithmetic::generate_tree_expr(&mut rng);
    assert_eq!(expr_to_string(&expr), "(-2)");
    assert_eq!(rng.state, 17489430009591986844);
    let mut rng = SimpleRng::new(42);
    let expr = arithmetic::generate_tree_expr(&mut rng);
    assert_eq!(expr_to_string(&expr), "(1 * ((-2) * 9))");
    assert_eq!(eval_expr(&expr), Ok(Value::Num(-18)));
}

#[test]
fn generated_text_reads_back_with_the_same_value() {
    for seed in 1..40u64 {
        let mut rng = SimpleRng::new(seed);
        let tree = arithmetic::generate_tree_expr(&mut rng);
        let read = arithmetic::parse_expression(&expr_to_string(&tree)).unwrap();
        assert_eq!(eval_expr(&read), eval_expr(&tree));
        let tree = boolean::generate_tree_expr(&mut rng);
        let read = boolean::parse_expression(&expr_to_string(&tree)).unwrap();
        assert_eq!(read, tree);
    }
}

#[test]
fn no_attempt_gives_the_fixed_exercise() {
    let mut rng = SimpleRng::new(42);
    let exercise = boolean::generate_exercise_within(&mut rng, 0);
    assert_eq!(expr_to_string(&exercise.expr), "(true and false)");
    assert!(!exercise.answer);
    assert_eq!(rng.state, 42);
    let exercise = arithmetic::generate_exercise_within(&mut rng, 0);
    assert_eq!(expr_to_string(&exercise.expr), "((2 * 3) + 1)");
    assert_eq!(exercise.answer, 7);
    assert_eq!(boolean::generate_tree_expr_within(&mut rng, 0), Expr::boolean(true));
    assert_eq!(arithmetic::generate_tree_expr_within(&mut rng, 0), Expr::num(1));
    assert_eq!(rng.state, 42);
}

#[test]
fn attempts_that_fail_end_in_the_fixed_exercise() {
    // The first expression drawn from the seed 1 is a single literal.
    let mut rng = SimpleRng::new(1);
    let exercise = boolean::generate_exercise_within(&mut rng, 1);
    assert_eq!(expr_to_string(&exercise.expr), "(true and false)");
    assert_eq!(rng.state, 1152992998833853505);
    let mut rng = SimpleRng::new(1);
    let exercise = arithmetic::generate_exercise_within(&mut rng, 1);
    assert_eq!(expr_to_string(&exercise.expr), "((2 * 3) + 1)");
    assert_eq!(rng.state, 1152992998833853505);
    let mut rng = SimpleRng::new(1);
    assert_eq!(arithmetic::generate_tree_expr_within(&mut rng, 1), Expr::num(1));
    let mut rng = SimpleRng::new(1);
    assert_eq!(boolean::generate_tree_expr_within(&mut rng, 1), Expr::boolean(true));
}
