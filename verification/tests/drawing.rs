use stepwise::arithmetic;
use stepwise::boolean;
use stepwise::expr::Expr;
use stepwise::flowchart::FlowchartNodeKind;
use stepwise::layout::{
    build_interactive_layout, build_nodes, build_tree_layout, halvings_within, height_within,
    layout_fits, layout_scale, leaves_within,
};
use stepwise::path::PathStep;

#[test]
fn literals_take_the_columns_from_the_left() {
    let expr = arithmetic::parse_expression("(3 * 2) + 2").unwrap();
    assert!(layout_fits(&expr));
    let layout = build_tree_layout(&expr, None);
    let labels: Vec<&str> = layout.nodes.iter().map(|n| n.label.as_str()).collect();
    assert_eq!(labels, vec!["3", "2", "*", "2", "+"]);
    assert_eq!(layout.scale, 4);
    let xs: Vec<i64> = layout.nodes.iter().map(|n| n.x).collect();
    assert_eq!(xs, vec![0, 4, 2, 8, 5]);
    let depths: Vec<usize> = layout.nodes.iter().map(|n| n.depth).collect();
    assert_eq!(depths, vec![2, 2, 1, 1, 0]);
    assert_eq!(layout.nodes[2].children, vec![0, 1]);
    assert_eq!(layout.nodes[4].children, vec![2, 3]);
    assert!(layout.nodes[0].children.is_empty());
    assert_eq!(layout.nodes[0].path, vec![PathStep::Left, PathStep::Left]);
    assert_eq!(layout.nodes[1].path, vec![PathStep::Left, PathStep::Right]);
    assert_eq!(layout.nodes[2].path, vec![PathStep::Left]);
    assert_eq!(layout.nodes[3].path, vec![PathStep::Right]);
    assert!(layout.nodes[4].path.is_empty());
    assert_eq!(layout.min_x, 0);
    assert_eq!(layout.max_x, 8);
    assert_eq!(layout.max_depth, 2);
    assert_eq!(layout.max_label_len, 1);
    assert!(layout.nodes.iter().all(|n| !n.highlight));
}

#[test]
fn operator_stands_midway_between_its_operands() {
    let expr = arithmetic::parse_expression("(1 + 2) * (3 + (4 + 5))").unwrap();
    let layout = build_tree_layout(&expr, None);
    assert_eq!(layout.scale, 8);
    let xs: Vec<i64> = layout.nodes.iter().map(|n| n.x).collect();
    assert_eq!(xs, vec![0, 8, 4, 16, 24, 32, 28, 22, 13]);
    assert_eq!(layout.max_x, 32);
    assert_eq!(layout.max_depth, 3);
    for node in &layout.nodes {
        if let [left, right] = node.children[..] {
            assert_eq!(2 * node.x, layout.nodes[left].x + layout.nodes[right].x);
        }
    }
}

#[test]
fn unary_operator_stands_above_its_operand() {
    let expr = boolean::parse_expression("true and not not false").unwrap();
    let layout = build_tree_layout(&expr, None);
    let labels: Vec<&str> = layout.nodes.iter().map(|n| n.label.as_str()).collect();
    assert_eq!(labels, vec!["true", "false", "not", "not", "and"]);
    assert_eq!(layout.scale, 2);
    let xs: Vec<i64> = layout.nodes.iter().map(|n| n.x).collect();
    assert_eq!(xs, vec![0, 2, 2, 2, 1]);
    assert_eq!(layout.nodes[2].children, vec![1]);
    assert_eq!(layout.nodes[3].children, vec![2]);
    assert_eq!(
        layout.nodes[1].path,
        vec![PathStep::Right, PathStep::Unary, PathStep::Unary]
    );
    assert_eq!(layout.max_label_len, 5);
    assert_eq!(layout.max_depth, 3);
}

#[test]
fn highlight_marks_the_node_and_all_below_it() {
    let expr = boolean::parse_expression("not (true and false) or true").unwrap();
    let layout = build_tree_layout(&expr, Some(&[PathStep::Left]));
    let marks: Vec<bool> = layout.nodes.iter().map(|n| n.highlight).collect();
    // true, false, and, not, true, or
    assert_eq!(marks, vec![true, true, true, true, false, false]);
    let layout = build_tree_layout(&expr, Some(&[]));
    assert!(layout.nodes.iter().all(|n| n.highlight));
}

#[test]
fn interactive_layout_marks_only_the_expected_node() {
    let expr = boolean::parse_expression("not (true and false) or true").unwrap();
    let layout = build_interactive_layout(&expr, Some(&[PathStep::Left]));
    let marks: Vec<bool> = layout.nodes.iter().map(|n| n.highlight).collect();
    assert_eq!(marks, vec![false, false, false, true, false, false]);
    let layout = build_interactive_layout(&expr, None);
    assert!(layout.nodes.iter().all(|n| !n.highlight));
    let plain = build_tree_layout(&expr, None);
    let xs: Vec<i64> = layout.nodes.iter().map(|n| n.x).collect();
    let plain_xs: Vec<i64> = plain.nodes.iter().map(|n| n.x).collect();
    assert_eq!(xs, plain_xs);
}

#[test]
fn single_literal_is_one_node() {
    let layout = build_tree_layout(&Expr::num(-12), Some(&[]));
    assert_eq!(layout.nodes.len(), 1);
    assert_eq!(layout.nodes[0].label, "-12");
    assert_eq!(layout.nodes[0].x, 0);
    assert_eq!(layout.nodes[0].depth, 0);
    assert!(layout.nodes[0].children.is_empty());
    assert!(layout.nodes[0].path.is_empty());
    assert!(layout.nodes[0].highlight);
    assert_eq!((layout.min_x, layout.max_x, layout.max_depth), (0, 0, 0));
    assert_eq!(layout.scale, 1);
    assert_eq!(layout.max_label_len, 3);
    let layout = build_tree_layout(&Expr::boolean(true), None);
    assert_eq!(layout.nodes.len(), 1);
    assert!(!layout.nodes[0].highlight);
}

#[test]
fn nodes_are_appended_from_the_given_row_and_column() {
    let expr = arithmetic::parse_expression("1 + 2").unwrap();
    let mut nodes = Vec::new();
    let mut path = vec![PathStep::Right];
    let mut next_leaf_x = 4;
    let first = build_nodes(&expr, 1, &mut path, None, &mut nodes, &mut next_leaf_x, 2);
    assert_eq!(first, 2);
    assert_eq!(next_leaf_x, 6);
    assert_eq!(path, vec![PathStep::Right]);
    let xs: Vec<i64> = nodes.iter().map(|n| n.x).collect();
    assert_eq!(xs, vec![8, 10, 9]);
    let second = build_nodes(&expr, 1, &mut path, None, &mut nodes, &mut next_leaf_x, 2);
    assert_eq!(second, 5);
    assert_eq!(nodes[5].children, vec![3, 4]);
    assert_eq!(nodes[5].x, 13);
    assert_eq!(nodes[5].depth, 1);
    assert_eq!(nodes[3].path, vec![PathStep::Right, PathStep::Left]);
    assert_eq!(nodes[3].depth, 2);
}

#[test]
fn operator_is_the_exact_mean_of_its_operands() {
    let expr = arithmetic::parse_expression("1 + 2").unwrap();
    let layout = build_tree_layout(&expr, None);
    assert_eq!(layout.scale, 2);
    let xs: Vec<i64> = layout.nodes.iter().map(|n| n.x).collect();
    assert_eq!(xs, vec![0, 2, 1]);
    assert_eq!(layout_scale(&expr), Some(2));
    assert_eq!(layout_scale(&Expr::num(7)), Some(1));
}

#[test]
fn columns_may_start_left_of_zero() {
    let expr = arithmetic::parse_expression("1 + 2").unwrap();
    let mut nodes = Vec::new();
    let mut path = Vec::new();
    let mut next_leaf_x = -1;
    build_nodes(&expr, 0, &mut path, None, &mut nodes, &mut next_leaf_x, 4);
    assert_eq!(next_leaf_x, 1);
    let xs: Vec<i64> = nodes.iter().map(|n| n.x).collect();
    assert_eq!(xs, vec![-4, 0, -2]);
}

#[test]
fn size_of_a_tree_is_checked_against_a_limit() {
    let expr = arithmetic::parse_expression("(1 + 2) * -(3 + (4 + 5))").unwrap();
    assert_eq!(leaves_within(&expr, 5), Some(5));
    assert_eq!(leaves_within(&expr, 4), None);
    assert_eq!(height_within(&expr, 4), Some(4));
    assert_eq!(height_within(&expr, 3), None);
    assert_eq!(height_within(&Expr::num(1), 0), Some(0));
    assert_eq!(leaves_within(&Expr::num(1), 0), None);
    assert_eq!(halvings_within(&expr, 3), Some(3));
    assert_eq!(halvings_within(&expr, 2), None);
    let negated = arithmetic::parse_expression("---7").unwrap();
    assert_eq!(halvings_within(&negated, 0), Some(0));
    assert_eq!(height_within(&negated, 3), Some(3));
}

#[test]
fn flowchart_kinds_are_distinct() {
    assert_ne!(FlowchartNodeKind::Start, FlowchartNodeKind::Decision);
    assert_ne!(FlowchartNodeKind::Decision, FlowchartNodeKind::Action);
}

#[test]
fn unary_operators_ask_for_no_scale() {
    let text = format!("{}true", "!".repeat(63));
    let expr = boolean::parse_expression(&text).unwrap();
    assert!(layout_fits(&expr));
    assert_eq!(layout_scale(&expr), Some(1));
    let layout = build_tree_layout(&expr, Some(&[]));
    assert_eq!(layout.nodes.len(), 64);
    assert_eq!(layout.scale, 1);
    assert!(layout.nodes.iter().all(|n| n.x == 0 && n.highlight));
    assert_eq!((layout.min_x, layout.max_x, layout.max_depth), (0, 0, 63));
    assert_eq!(layout.nodes[63].children, vec![62]);
    assert_eq!(layout.nodes[0].path.len(), 63);
}

#[test]
fn binary_operator_below_many_unary_ones_is_laid_out() {
    let text = format!("{}(true and false)", "not ".repeat(62));
    let expr = boolean::parse_expression(&text).unwrap();
    assert_eq!(layout_scale(&expr), Some(2));
    let layout = build_interactive_layout(&expr, None);
    assert_eq!(layout.nodes.len(), 65);
    let xs: Vec<i64> = layout.nodes.iter().take(4).map(|n| n.x).collect();
    assert_eq!(xs, vec![0, 2, 1, 1]);
    assert_eq!(layout.nodes[64].x, 1);
    assert_eq!(layout.max_depth, 63);
    let mut nodes = Vec::new();
    let mut path = Vec::new();
    let mut next_leaf_x = 0;
    let negated = boolean::parse_expression("not true").unwrap();
    build_nodes(&negated, 0, &mut path, None, &mut nodes, &mut next_leaf_x, 1);
    assert_eq!((nodes[0].x, nodes[1].x), (0, 0));
}

#[test]
fn binary_nesting_past_the_scale_does_not_fit() {
    let text = format!("1{}", " + 1".repeat(63));
    let expr = arithmetic::parse_expression(&text).unwrap();
    assert!(!layout_fits(&expr));
    assert_eq!(layout_scale(&expr), None);
    let text = format!("1{}", " + 1".repeat(30));
    let expr = arithmetic::parse_expression(&text).unwrap();
    assert_eq!(layout_scale(&expr), Some(1 << 30));
}
