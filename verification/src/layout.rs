//! A tree laid out on a grid: every node gets a column and a row, and the
//! nodes below the highlighted path are marked.

use vstd::prelude::*;
use vstd::slice::slice_to_vec;
use vstd::string::{StrSliceExecFns, StringExecFns};
use crate::expr::{lemma_height_bounds_size, BinaryOp, Expr, UnaryOp, Value};
use crate::path::{path_in_subtree, paths_equal, subtree_at, PathStep};
use crate::text::{push_signed, signed_decimal};

verus! {

/// A node as it is drawn.
#[derive(Debug)]
pub struct NodeDraw {
    /// The operator symbol or the literal value.
    pub label: String,
    /// The row: the distance from the root.
    pub depth: usize,
    /// The column, counted in steps of which the layout's `scale` make one
    /// whole column. Literals take the whole columns 0, 1, 2, … from left to
    /// right; an operator stands exactly midway between its operands.
    pub x: i64,
    /// Whether the node is marked.
    pub highlight: bool,
    /// The places of the operands in the list of nodes.
    pub children: Vec<usize>,
    /// The path from the root to the node.
    pub path: Vec<PathStep>,
}

/// A drawn node with its texts and lists as sequences.
pub struct NodeView {
    pub label: Seq<char>,
    pub depth: nat,
    pub x: int,
    pub highlight: bool,
    pub children: Seq<usize>,
    pub path: Seq<PathStep>,
}

impl View for NodeDraw {
    type V = NodeView;

    open spec fn view(&self) -> NodeView {
        NodeView {
            label: self.label@,
            depth: self.depth as nat,
            x: self.x as int,
            highlight: self.highlight,
            children: self.children@,
            path: self.path@,
        }
    }
}

/// The views of a list of drawn nodes.
pub open spec fn drawn(nodes: Seq<NodeDraw>) -> Seq<NodeView> {
    Seq::new(nodes.len(), |i: int| nodes[i]@)
}

impl UnaryOp {
    /// The operator as it is written in a node.
    pub open spec fn symbol(self) -> Seq<char> {
        match self {
            UnaryOp::Not => "not"@,
            UnaryOp::Neg => "-"@,
        }
    }
}

impl BinaryOp {
    /// The operator as it is written in a node.
    pub open spec fn symbol(self) -> Seq<char> {
        match self {
            BinaryOp::And => "and"@,
            BinaryOp::Or => "or"@,
            BinaryOp::Add => "+"@,
            BinaryOp::Sub => "-"@,
            BinaryOp::Mul => "*"@,
        }
    }
}

impl Expr {
    /// What is written in the root node.
    pub open spec fn label(self) -> Seq<char> {
        match self {
            Expr::Literal(v) => v.text(),
            Expr::Unary(op, _) => op.symbol(),
            Expr::Binary(op, _, _) => op.symbol(),
        }
    }

    /// The column of the root, in steps of which `scale` make one whole
    /// column, when the first literal of the tree stands in the whole column
    /// `first`: a literal stands in its own column, a unary operator above its
    /// operand, and a binary operator midway between its operands. Where the
    /// scale can be halved as often as the tree asks, the halving is exact.
    pub open spec fn column(self, first: int, scale: int) -> int
        decreases self,
    {
        match self {
            Expr::Literal(_) => first * scale,
            Expr::Unary(_, inner) => inner.column(first, scale),
            Expr::Binary(_, left, right) => (left.column(first, scale) + right.column(
                first + left.leaf_count(),
                scale,
            )) / 2,
        }
    }

    /// The binary operators on the longest way from the root to a literal:
    /// how often a whole column has to be halved for every operator of the
    /// tree to stand exactly midway between its operands. A unary operator
    /// stands above its operand and needs no halving.
    pub open spec fn halvings(self) -> nat
        decreases self,
    {
        match self {
            Expr::Literal(_) => 0,
            Expr::Unary(_, inner) => inner.halvings(),
            Expr::Binary(_, left, right) => 1 + if left.halvings() >= right.halvings() {
                left.halvings()
            } else {
                right.halvings()
            },
        }
    }

    /// The column of the root counted in the finest step that the tree
    /// needs, of which `two_to(halvings)` make one whole column.
    pub open spec fn fine_column(self, first: int) -> int
        decreases self,
    {
        match self {
            Expr::Literal(_) => first,
            Expr::Unary(_, inner) => inner.fine_column(first),
            Expr::Binary(_, left, right) => {
                let top = if left.halvings() >= right.halvings() {
                    left.halvings()
                } else {
                    right.halvings()
                };
                left.fine_column(first) * two_to((top - left.halvings()) as nat)
                    + right.fine_column(first + left.leaf_count()) * two_to(
                    (top - right.halvings()) as nat,
                )
            },
        }
    }
}

/// Two to the power of `n`.
pub open spec fn two_to(n: nat) -> int
    decreases n,
{
    if n == 0 {
        1
    } else {
        2 * two_to((n - 1) as nat)
    }
}

/// Whether `scale` can be halved `times` times without a remainder.
pub open spec fn halvable(scale: int, times: nat) -> bool
    decreases times,
{
    scale >= 1 && (times > 0 ==> scale % 2 == 0 && halvable(scale / 2, (times - 1) as nat))
}

/// What is left of `scale` after it has been halved `times` times.
pub open spec fn halved(scale: int, times: nat) -> int
    decreases times,
{
    if times == 0 {
        scale
    } else {
        halved(scale / 2, (times - 1) as nat)
    }
}

/// Powers of two are positive and multiply by adding their exponents.
pub proof fn lemma_two_to(a: nat, b: nat)
    ensures
        two_to(a) >= 1,
        two_to(a + b) == two_to(a) * two_to(b),
        halvable(two_to(a), a),
    decreases a,
{
    if a > 0 {
        lemma_two_to((a - 1) as nat, b);
        assert(two_to(a + b) == 2 * two_to((a + b - 1) as nat));
        assert(2 * (two_to((a - 1) as nat) * two_to(b)) == (2 * two_to((a - 1) as nat)) * two_to(b))
            by (nonlinear_arith);
        assert(two_to(a) / 2 == two_to((a - 1) as nat));
    }
}

/// A scale that can be halved `times` times is that power of two times
/// what is left of it.
pub proof fn lemma_halved(scale: int, times: nat)
    requires
        halvable(scale, times),
    ensures
        scale == two_to(times) * halved(scale, times),
        halved(scale, times) >= 1,
    decreases times,
{
    if times > 0 {
        lemma_halved(scale / 2, (times - 1) as nat);
        let rest = halved(scale, times);
        let p = two_to((times - 1) as nat);
        assert(2 * (p * rest) == (2 * p) * rest) by (nonlinear_arith);
    }
}

/// A scale that can be halved often can be halved less often, and what is
/// left then is a power of two times what is left in the end.
pub proof fn lemma_halved_less(scale: int, less: nat, times: nat)
    requires
        halvable(scale, times),
        less <= times,
    ensures
        halvable(scale, less),
        halved(scale, less) == two_to((times - less) as nat) * halved(scale, times),
    decreases less,
{
    if less > 0 {
        lemma_halved_less(scale / 2, (less - 1) as nat, (times - 1) as nat);
    } else {
        lemma_halved(scale, times);
    }
}

/// A scale that can be halved often can be halved less often.
pub proof fn lemma_halvable_less(scale: int, less: nat, times: nat)
    requires
        halvable(scale, times),
        less <= times,
    ensures
        halvable(scale, less),
    decreases less,
{
    if less > 0 {
        lemma_halvable_less(scale / 2, (less - 1) as nat, (times - 1) as nat);
    }
}

/// Multiplying by a scale keeps the order of two numbers.
pub proof fn lemma_scaled_order(a: int, b: int, scale: int)
    requires
        a <= b,
        scale >= 0,
    ensures
        a * scale <= b * scale,
{
    assert(a * scale <= b * scale) by (nonlinear_arith)
        requires
            a <= b,
            scale >= 0,
    ;
}

/// The column of a tree is its fine column times what is left of the scale
/// after it has been halved as often as the tree asks.
pub proof fn lemma_column_is_exact(e: Expr, first: int, scale: int)
    requires
        halvable(scale, e.halvings()),
    ensures
        e.column(first, scale) == e.fine_column(first) * halved(scale, e.halvings()),
    decreases e,
{
    let h = e.halvings();
    let rest = halved(scale, h);
    match e {
        Expr::Literal(_) => {},
        Expr::Unary(_, inner) => {
            lemma_column_is_exact(*inner, first, scale);
        },
        Expr::Binary(_, left, right) => {
            let top = (h - 1) as nat;
            let mid = first + left.leaf_count();
            lemma_halved_less(scale, top, h);
            lemma_halved_less(scale, left.halvings(), top);
            lemma_halved_less(scale, right.halvings(), top);
            lemma_column_is_exact(*left, first, scale);
            lemma_column_is_exact(*right, mid, scale);
            assert(two_to(1) == 2) by {
                reveal_with_fuel(two_to, 2);
            }
            let fl = left.fine_column(first);
            let fr = right.fine_column(mid);
            let pl = two_to((top - left.halvings()) as nat);
            let pr = two_to((top - right.halvings()) as nat);
            assert(halved(scale, top) == 2 * rest);
            assert(fl * (pl * (2 * rest)) + fr * (pr * (2 * rest)) == 2 * ((fl * pl + fr * pr)
                * rest)) by (nonlinear_arith);
        },
    }
}

/// A binary operator stands exactly midway between its operands, where the
/// scale can be halved as often as the tree asks.
pub proof fn law_operator_stands_midway(e: Expr, first: int, scale: int)
    requires
        e is Binary,
        halvable(scale, e.halvings()),
    ensures
        2 * e.column(first, scale) == e->Binary_1.column(first, scale) + e->Binary_2.column(
            first + e->Binary_1.leaf_count(),
            scale,
        ),
{
    let h = e.halvings();
    let top = (h - 1) as nat;
    let left = *e->Binary_1;
    let right = *e->Binary_2;
    let mid = first + left.leaf_count();
    let rest = halved(scale, h);
    lemma_column_is_exact(e, first, scale);
    lemma_halved_less(scale, top, h);
    lemma_halved_less(scale, left.halvings(), top);
    lemma_halved_less(scale, right.halvings(), top);
    lemma_column_is_exact(left, first, scale);
    lemma_column_is_exact(right, mid, scale);
    assert(two_to(1) == 2) by {
        reveal_with_fuel(two_to, 2);
    }
    let fl = left.fine_column(first);
    let fr = right.fine_column(mid);
    let pl = two_to((top - left.halvings()) as nat);
    let pr = two_to((top - right.halvings()) as nat);
    assert(fl * (pl * (2 * rest)) + fr * (pr * (2 * rest)) == 2 * ((fl * pl + fr * pr) * rest))
        by (nonlinear_arith);
}

/// The column of a tree lies between those of its first and its last
/// literal.
pub proof fn lemma_column_bounds(e: Expr, first: int, scale: int)
    requires
        scale >= 1,
    ensures
        first * scale <= e.column(first, scale) <= (first + e.leaf_count() - 1) * scale,
        e.leaf_count() >= 1,
    decreases e,
{
    match e {
        Expr::Literal(_) => {},
        Expr::Unary(_, inner) => {
            lemma_column_bounds(*inner, first, scale);
        },
        Expr::Binary(_, left, right) => {
            let mid = first + left.leaf_count();
            lemma_column_bounds(*left, first, scale);
            lemma_column_bounds(*right, mid, scale);
            lemma_scaled_order(first + left.leaf_count() - 1, first + e.leaf_count() - 1, scale);
            lemma_scaled_order(first, mid, scale);
        },
    }
}

/// Which nodes are marked.
pub enum Marking {
    /// None.
    Nothing,
    /// The node at the path and every node below it.
    Below(Seq<PathStep>),
    /// The node at the path and no other.
    Only(Seq<PathStep>),
}

impl Marking {
    /// Whether the node at `path` is marked.
    pub open spec fn marks(self, path: Seq<PathStep>) -> bool {
        match self {
            Marking::Nothing => false,
            Marking::Below(top) => top.is_prefix_of(path),
            Marking::Only(node) => node == path,
        }
    }
}

/// The nodes of the tree `e`, operands before their operator and the left
/// operand before the right one. The root of `e` stands in row `depth` at
/// the end of `path`, its first literal in column `first`, and its first
/// node at place `index` of the list that the nodes become part of.
pub open spec fn tree_nodes(
    e: Expr,
    depth: nat,
    path: Seq<PathStep>,
    marking: Marking,
    first: int,
    scale: int,
    index: nat,
) -> Seq<NodeView>
    decreases e,
{
    let root = NodeView {
        label: e.label(),
        depth,
        x: e.column(first, scale),
        highlight: marking.marks(path),
        children: Seq::empty(),
        path,
    };
    match e {
        Expr::Literal(_) => seq![root],
        Expr::Unary(_, inner) => {
            let below = tree_nodes(
                *inner,
                depth + 1,
                path.push(PathStep::Unary),
                marking,
                first,
                scale,
                index,
            );
            below.push(
                NodeView { children: seq![(index + inner.node_count() - 1) as usize], ..root },
            )
        },
        Expr::Binary(_, left, right) => {
            let lefts = tree_nodes(
                *left,
                depth + 1,
                path.push(PathStep::Left),
                marking,
                first,
                scale,
                index,
            );
            let rights = tree_nodes(
                *right,
                depth + 1,
                path.push(PathStep::Right),
                marking,
                first + left.leaf_count(),
                scale,
                index + left.node_count(),
            );
            (lefts + rights).push(
                NodeView {
                    children: seq![
                        (index + left.node_count() - 1) as usize,
                        (index + left.node_count() + right.node_count() - 1) as usize,
                    ],
                    ..root
                },
            )
        },
    }
}

/// The list holds one node for each node of the tree, the root last.
pub proof fn lemma_tree_nodes(
    e: Expr,
    depth: nat,
    path: Seq<PathStep>,
    marking: Marking,
    first: int,
    scale: int,
    index: nat,
)
    ensures
        tree_nodes(e, depth, path, marking, first, scale, index).len() == e.node_count(),
        e.node_count() >= 1,
        e.leaf_count() >= 1,
        tree_nodes(e, depth, path, marking, first, scale, index).last().x == e.column(first, scale),
    decreases e,
{
    match e {
        Expr::Literal(_) => {},
        Expr::Unary(_, inner) => {
            lemma_tree_nodes(*inner, depth + 1, path.push(PathStep::Unary), marking, first, scale, index);
        },
        Expr::Binary(_, left, right) => {
            lemma_tree_nodes(*left, depth + 1, path.push(PathStep::Left), marking, first, scale, index);
            lemma_tree_nodes(
                *right,
                depth + 1,
                path.push(PathStep::Right),
                marking,
                first + left.leaf_count(),
                scale,
                index + left.node_count(),
            );
        },
    }
}

/// The place in the list of nodes of the node that `q` leads to from the
/// root of `e`: the root comes last, after the nodes of its operands.
pub open spec fn place_of(e: Expr, q: Seq<PathStep>) -> int
    decreases q.len(),
{
    if q.len() == 0 {
        e.node_count() - 1
    } else {
        match (q[0], e) {
            (PathStep::Unary, Expr::Unary(_, inner)) => place_of(*inner, q.drop_first()),
            (PathStep::Left, Expr::Binary(_, left, _)) => place_of(*left, q.drop_first()),
            (PathStep::Right, Expr::Binary(_, left, right)) => left.node_count() + place_of(
                *right,
                q.drop_first(),
            ),
            _ => -1,
        }
    }
}

/// The path from the root of `e` to the node at place `i` of its list of
/// nodes.
pub open spec fn path_to(e: Expr, i: int) -> Seq<PathStep>
    decreases e,
{
    match e {
        Expr::Literal(_) => Seq::empty(),
        Expr::Unary(_, inner) => if i >= inner.node_count() {
            Seq::empty()
        } else {
            seq![PathStep::Unary] + path_to(*inner, i)
        },
        Expr::Binary(_, left, right) => if i >= left.node_count() + right.node_count() {
            Seq::empty()
        } else if i < left.node_count() {
            seq![PathStep::Left] + path_to(*left, i)
        } else {
            seq![PathStep::Right] + path_to(*right, i - left.node_count())
        },
    }
}

/// The node at place `i` of the list of a tree, for a place below the
/// root: a node of the operand that holds the place.
pub open spec fn node_below(
    e: Expr,
    depth: nat,
    path: Seq<PathStep>,
    marking: Marking,
    first: int,
    scale: int,
    index: nat,
    i: int,
) -> NodeView {
    match e {
        Expr::Literal(_) => arbitrary(),
        Expr::Unary(_, inner) => tree_nodes(
            *inner,
            depth + 1,
            path.push(PathStep::Unary),
            marking,
            first,
            scale,
            index,
        )[i],
        Expr::Binary(_, left, right) => if i < left.node_count() {
            tree_nodes(*left, depth + 1, path.push(PathStep::Left), marking, first, scale, index)[i]
        } else {
            tree_nodes(
                *right,
                depth + 1,
                path.push(PathStep::Right),
                marking,
                first + left.leaf_count(),
                scale,
                index + left.node_count(),
            )[i - left.node_count()]
        },
    }
}

/// The list of a tree is made of the lists of its operands and its root.
pub proof fn lemma_list_parts(
    e: Expr,
    depth: nat,
    path: Seq<PathStep>,
    marking: Marking,
    first: int,
    scale: int,
    index: nat,
    i: int,
)
    requires
        0 <= i < e.node_count(),
    ensures
        i < e.node_count() - 1 ==> tree_nodes(e, depth, path, marking, first, scale, index)[i]
            == node_below(e, depth, path, marking, first, scale, index, i),
        i == e.node_count() - 1 ==> ({
            let root = tree_nodes(e, depth, path, marking, first, scale, index)[i];
            &&& root.path == path
            &&& root.label == e.label()
            &&& root.depth == depth
            &&& root.highlight == marking.marks(path)
            &&& root.x == e.column(first, scale)
        }),
{
    lemma_tree_nodes(e, depth, path, marking, first, scale, index);
    match e {
        Expr::Literal(_) => {},
        Expr::Unary(_, inner) => {
            lemma_tree_nodes(*inner, depth + 1, path.push(PathStep::Unary), marking, first, scale, index);
        },
        Expr::Binary(_, left, right) => {
            lemma_tree_nodes(*left, depth + 1, path.push(PathStep::Left), marking, first, scale, index);
            lemma_tree_nodes(
                *right,
                depth + 1,
                path.push(PathStep::Right),
                marking,
                first + left.leaf_count(),
                scale,
                index + left.node_count(),
            );
        },
    }
}

/// A path that fits the tree has a place in its list of nodes.
pub proof fn lemma_place_of(e: Expr, q: Seq<PathStep>)
    requires
        subtree_at(e, q).is_some(),
    ensures
        0 <= place_of(e, q) < e.node_count(),
        q.len() > 0 ==> place_of(e, q) < e.node_count() - 1,
    decreases q.len(),
{
    lemma_height_bounds_size(e);
    if q.len() > 0 {
        let rest = q.drop_first();
        match (q[0], e) {
            (PathStep::Unary, Expr::Unary(_, inner)) => {
                lemma_place_of(*inner, rest);
            },
            (PathStep::Left, Expr::Binary(_, left, right)) => {
                lemma_place_of(*left, rest);
                lemma_height_bounds_size(*right);
            },
            (PathStep::Right, Expr::Binary(_, left, right)) => {
                lemma_place_of(*right, rest);
                lemma_height_bounds_size(*left);
            },
            _ => {},
        }
    }
}

/// The path to the place of a path is that path.
pub proof fn lemma_path_to_place(e: Expr, q: Seq<PathStep>)
    requires
        subtree_at(e, q).is_some(),
    ensures
        path_to(e, place_of(e, q)) == q,
    decreases q.len(),
{
    lemma_place_of(e, q);
    lemma_height_bounds_size(e);
    if q.len() == 0 {
        match e {
            Expr::Literal(_) => {},
            Expr::Unary(_, inner) => {
                assert(place_of(e, q) >= inner.node_count());
            },
            Expr::Binary(_, left, right) => {
                assert(place_of(e, q) >= left.node_count() + right.node_count());
            },
        }
        assert(path_to(e, place_of(e, q)) =~= q);
    } else {
        let rest = q.drop_first();
        match (q[0], e) {
            (PathStep::Unary, Expr::Unary(_, inner)) => {
                lemma_path_to_place(*inner, rest);
                lemma_place_of(*inner, rest);
                assert(seq![PathStep::Unary] + rest =~= q);
            },
            (PathStep::Left, Expr::Binary(_, left, right)) => {
                lemma_path_to_place(*left, rest);
                lemma_place_of(*left, rest);
                assert(seq![PathStep::Left] + rest =~= q);
            },
            (PathStep::Right, Expr::Binary(_, left, right)) => {
                lemma_path_to_place(*right, rest);
                lemma_place_of(*right, rest);
                assert(seq![PathStep::Right] + rest =~= q);
            },
            _ => {},
        }
    }
}

/// Every node of the tree is drawn once, where its path says: the node
/// that a path leads to is drawn at the place of that path, with that path,
/// its label, its row, and its mark.
pub proof fn law_node_is_drawn_at_its_place(
    e: Expr,
    depth: nat,
    path: Seq<PathStep>,
    marking: Marking,
    first: int,
    scale: int,
    index: nat,
    q: Seq<PathStep>,
)
    requires
        subtree_at(e, q).is_some(),
    ensures
        0 <= place_of(e, q) < e.node_count(),
        path_to(e, place_of(e, q)) == q,
        ({
            let node = tree_nodes(e, depth, path, marking, first, scale, index)[place_of(e, q)];
            &&& node.path == path + q
            &&& node.label == subtree_at(e, q).unwrap().label()
            &&& node.depth == depth + q.len()
            &&& node.highlight == marking.marks(path + q)
        }),
    decreases q.len(),
{
    lemma_place_of(e, q);
    lemma_path_to_place(e, q);
    lemma_list_parts(e, depth, path, marking, first, scale, index, place_of(e, q));
    if q.len() == 0 {
        assert(path + q =~= path);
    } else {
        let rest = q.drop_first();
        match (q[0], e) {
            (PathStep::Unary, Expr::Unary(_, inner)) => {
                let down = path.push(PathStep::Unary);
                law_node_is_drawn_at_its_place(*inner, depth + 1, down, marking, first, scale, index, rest);
                assert(down + rest =~= path + q);
            },
            (PathStep::Left, Expr::Binary(_, left, right)) => {
                let down = path.push(PathStep::Left);
                law_node_is_drawn_at_its_place(*left, depth + 1, down, marking, first, scale, index, rest);
                assert(down + rest =~= path + q);
            },
            (PathStep::Right, Expr::Binary(_, left, right)) => {
                let down = path.push(PathStep::Right);
                law_node_is_drawn_at_its_place(
                    *right,
                    depth + 1,
                    down,
                    marking,
                    first + left.leaf_count(),
                    scale,
                    index + left.node_count(),
                    rest,
                );
                lemma_place_of(*right, rest);
                assert(down + rest =~= path + q);
            },
            _ => {},
        }
    }
}

/// Every drawn node is a node of the tree: the node at a place of the
/// list carries a path that fits the tree, and that path has this place.
pub proof fn law_drawn_node_is_in_the_tree(
    e: Expr,
    depth: nat,
    path: Seq<PathStep>,
    marking: Marking,
    first: int,
    scale: int,
    index: nat,
    i: int,
)
    requires
        0 <= i < e.node_count(),
    ensures
        subtree_at(e, path_to(e, i)).is_some(),
        place_of(e, path_to(e, i)) == i,
        tree_nodes(e, depth, path, marking, first, scale, index)[i].path == path + path_to(e, i),
    decreases e,
{
    lemma_tree_nodes(e, depth, path, marking, first, scale, index);
    match e {
        Expr::Literal(_) => {
            assert(path + path_to(e, i) =~= path);
        },
        Expr::Unary(_, inner) => {
            let down = path.push(PathStep::Unary);
            lemma_tree_nodes(*inner, depth + 1, down, marking, first, scale, index);
            if i < inner.node_count() {
                law_drawn_node_is_in_the_tree(*inner, depth + 1, down, marking, first, scale, index, i);
                let q = path_to(e, i);
                assert(q.drop_first() =~= path_to(*inner, i));
                assert(down + path_to(*inner, i) =~= path + q);
            } else {
                assert(path + path_to(e, i) =~= path);
            }
        },
        Expr::Binary(_, left, right) => {
            let go_left = path.push(PathStep::Left);
            let go_right = path.push(PathStep::Right);
            lemma_tree_nodes(*left, depth + 1, go_left, marking, first, scale, index);
            lemma_tree_nodes(
                *right,
                depth + 1,
                go_right,
                marking,
                first + left.leaf_count(),
                scale,
                index + left.node_count(),
            );
            let q = path_to(e, i);
            if i >= left.node_count() + right.node_count() {
                assert(path + q =~= path);
            } else if i < left.node_count() {
                law_drawn_node_is_in_the_tree(*left, depth + 1, go_left, marking, first, scale, index, i);
                assert(q.drop_first() =~= path_to(*left, i));
                assert(go_left + path_to(*left, i) =~= path + q);
            } else {
                let k = i - left.node_count();
                law_drawn_node_is_in_the_tree(
                    *right,
                    depth + 1,
                    go_right,
                    marking,
                    first + left.leaf_count(),
                    scale,
                    index + left.node_count(),
                    k,
                );
                assert(q.drop_first() =~= path_to(*right, k));
                assert(go_right + path_to(*right, k) =~= path + q);
            }
        },
    }
}

/// The nodes of a tree fill its grid: the columns run from that of its
/// first literal to that of its last, and the rows from that of its root to
/// its height below it. Each of these bounds is reached by a node.
pub proof fn law_nodes_fill_the_grid(
    e: Expr,
    depth: nat,
    path: Seq<PathStep>,
    marking: Marking,
    first: int,
    scale: int,
    index: nat,
)
    requires
        scale >= 1,
    ensures
        ({
            let list = tree_nodes(e, depth, path, marking, first, scale, index);
            &&& forall|i: int|
                0 <= i < list.len() ==> first * scale <= (#[trigger] list[i]).x <= (first
                    + e.leaf_count() - 1) * scale && depth <= list[i].depth <= depth + e.height()
            &&& exists|i: int| 0 <= i < list.len() && (#[trigger] list[i]).x == first * scale
            &&& exists|i: int|
                0 <= i < list.len() && (#[trigger] list[i]).x == (first + e.leaf_count() - 1)
                    * scale
            &&& exists|i: int| 0 <= i < list.len() && (#[trigger] list[i]).depth == depth
            &&& exists|i: int|
                0 <= i < list.len() && (#[trigger] list[i]).depth == depth + e.height()
        }),
    decreases e,
{
    lemma_tree_nodes(e, depth, path, marking, first, scale, index);
    let list = tree_nodes(e, depth, path, marking, first, scale, index);
    let last = list.len() - 1;
    assert(list[last].depth == depth);
    lemma_column_bounds(e, first, scale);
    match e {
        Expr::Literal(_) => {
            assert(list[0].x == first * scale);
        },
        Expr::Unary(_, inner) => {
            let down = path.push(PathStep::Unary);
            let below = tree_nodes(*inner, depth + 1, down, marking, first, scale, index);
            law_nodes_fill_the_grid(*inner, depth + 1, down, marking, first, scale, index);
            lemma_tree_nodes(*inner, depth + 1, down, marking, first, scale, index);
            let a = choose|i: int| 0 <= i < below.len() && (#[trigger] below[i]).x == first * scale;
            let b = choose|i: int|
                0 <= i < below.len() && (#[trigger] below[i]).x == (first + inner.leaf_count() - 1)
                    * scale;
            let c = choose|i: int|
                0 <= i < below.len() && (#[trigger] below[i]).depth == depth + 1 + inner.height();
            assert(list[a] == below[a]);
            assert(list[b] == below[b]);
            assert(list[c] == below[c]);
            assert forall|i: int| 0 <= i < list.len() implies first * scale <= (
            #[trigger] list[i]).x <= (first + e.leaf_count() - 1) * scale && depth
                <= list[i].depth <= depth + e.height() by {
                if i < below.len() {
                    assert(list[i] == below[i]);
                }
            }
        },
        Expr::Binary(_, left, right) => {
            let go_left = path.push(PathStep::Left);
            let go_right = path.push(PathStep::Right);
            let mid = first + left.leaf_count();
            let lefts = tree_nodes(*left, depth + 1, go_left, marking, first, scale, index);
            let rights = tree_nodes(
                *right,
                depth + 1,
                go_right,
                marking,
                mid,
                scale,
                index + left.node_count(),
            );
            law_nodes_fill_the_grid(*left, depth + 1, go_left, marking, first, scale, index);
            law_nodes_fill_the_grid(
                *right,
                depth + 1,
                go_right,
                marking,
                mid,
                scale,
                index + left.node_count(),
            );
            lemma_tree_nodes(*left, depth + 1, go_left, marking, first, scale, index);
            lemma_tree_nodes(*right, depth + 1, go_right, marking, mid, scale, index + left.node_count());
            let a = choose|i: int| 0 <= i < lefts.len() && (#[trigger] lefts[i]).x == first * scale;
            let b = choose|i: int|
                0 <= i < rights.len() && (#[trigger] rights[i]).x == (mid + right.leaf_count() - 1)
                    * scale;
            lemma_column_bounds(*left, first, scale);
            lemma_column_bounds(*right, mid, scale);
            lemma_scaled_order(first + left.leaf_count() - 1, first + e.leaf_count() - 1, scale);
            lemma_scaled_order(first, mid, scale);
            assert(list[a] == lefts[a]);
            assert(list[lefts.len() + b] == rights[b]);
            if left.height() >= right.height() {
                let c = choose|i: int|
                    0 <= i < lefts.len() && (#[trigger] lefts[i]).depth == depth + 1
                        + left.height();
                assert(list[c] == lefts[c]);
            } else {
                let c = choose|i: int|
                    0 <= i < rights.len() && (#[trigger] rights[i]).depth == depth + 1
                        + right.height();
                assert(list[lefts.len() + c] == rights[c]);
            }
            assert forall|i: int| 0 <= i < list.len() implies first * scale <= (
            #[trigger] list[i]).x <= (first + e.leaf_count() - 1) * scale && depth
                <= list[i].depth <= depth + e.height() by {
                if i < lefts.len() {
                    assert(list[i] == lefts[i]);
                } else if i < lefts.len() + rights.len() {
                    assert(list[i] == rights[i - lefts.len()]);
                }
            }
        },
    }
}

/// In a list of nodes whose places are counted from 0, the node at place
/// `i` stands above its operand if it has one, and exactly midway between
/// its operands if it has two.
pub open spec fn node_stands_midway(nodes: Seq<NodeView>, i: int) -> bool {
    let node = nodes[i];
    &&& node.children.len() == 1 ==> node.x == nodes[node.children[0] as int].x
    &&& node.children.len() == 2 ==> 2 * node.x == nodes[node.children[0] as int].x
        + nodes[node.children[1] as int].x
}

/// Every node of the list stands above its one operand, or exactly midway
/// between its two.
pub open spec fn stands_midway(nodes: Seq<NodeView>) -> bool {
    forall|i: int| 0 <= i < nodes.len() ==> node_stands_midway(nodes, i)
}

/// The same, for a list whose first node has place `index` in a longer
/// list, which the children are counted in.
pub open spec fn part_stands_midway(list: Seq<NodeView>, index: nat, i: int) -> bool {
    let node = list[i];
    &&& node.children.len() <= 2
    &&& forall|k: int|
        0 <= k < node.children.len() ==> index <= (#[trigger] node.children[k]) < index + i
    &&& node.children.len() == 1 ==> node.x == list[node.children[0] - index].x
    &&& node.children.len() == 2 ==> 2 * node.x == list[node.children[0] - index].x
        + list[node.children[1] - index].x
}

/// A node that stands midway in a part of a list stands midway in the
/// list.
pub proof fn lemma_part_embeds(
    list: Seq<NodeView>,
    part: Seq<NodeView>,
    offset: int,
    index: nat,
    j: int,
)
    requires
        0 <= offset,
        offset + part.len() <= list.len(),
        0 <= j < part.len(),
        forall|t: int| 0 <= t < part.len() ==> list[offset + t] == #[trigger] part[t],
        part_stands_midway(part, (index + offset) as nat, j),
    ensures
        part_stands_midway(list, index, offset + j),
{
    let node = part[j];
    assert(list[offset + j] == node);
    assert forall|k: int| 0 <= k < node.children.len() implies list[node.children[k] - index]
        == part[node.children[k] - index - offset] by {
        let t = node.children[k] - index - offset;
        assert(list[offset + t] == part[t]);
    }
}

/// The root of a list of nodes stands midway if its children are the roots
/// of the parts before it and its column lies as they say.
pub proof fn lemma_root_stands_midway(list: Seq<NodeView>, index: nat, children: Seq<usize>)
    requires
        list.len() >= 1,
        list.last().children == children,
        children.len() <= 2,
        forall|k: int|
            0 <= k < children.len() ==> index <= (#[trigger] children[k]) < index + list.len() - 1,
        children.len() == 1 ==> list.last().x == list[children[0] - index].x,
        children.len() == 2 ==> 2 * list.last().x == list[children[0] - index].x
            + list[children[1] - index].x,
    ensures
        part_stands_midway(list, index, list.len() - 1),
{
}

/// Every operator of a laid-out tree stands exactly midway between its
/// operands, and every unary operator above its operand, where the scale
/// can be halved as often as the tree asks.
pub proof fn law_operators_stand_midway(
    e: Expr,
    depth: nat,
    path: Seq<PathStep>,
    marking: Marking,
    first: int,
    scale: int,
    index: nat,
    i: int,
)
    requires
        halvable(scale, e.halvings()),
        index + e.node_count() <= usize::MAX,
        0 <= i < e.node_count(),
    ensures
        part_stands_midway(tree_nodes(e, depth, path, marking, first, scale, index), index, i),
    decreases e, 1nat,
{
    let list = tree_nodes(e, depth, path, marking, first, scale, index);
    lemma_tree_nodes(e, depth, path, marking, first, scale, index);
    lemma_height_bounds_size(e);
    match e {
        Expr::Literal(_) => {},
        Expr::Unary(_, inner) => {
            let down = path.push(PathStep::Unary);
            let below = tree_nodes(*inner, depth + 1, down, marking, first, scale, index);
            lemma_tree_nodes(*inner, depth + 1, down, marking, first, scale, index);
            lemma_halvable_less(scale, inner.halvings(), e.halvings());
            if i < inner.node_count() {
                law_operators_stand_midway(*inner, depth + 1, down, marking, first, scale, index, i);
                lemma_part_embeds(list, below, 0, index, i);
            } else {
                let children = seq![(index + inner.node_count() - 1) as usize];
                assert(list.last().children == children);
                assert(list[i - 1] == below.last());
                lemma_root_stands_midway(list, index, children);
            }
        },
        Expr::Binary(_, left, right) => {
            lemma_midway_in_binary(e, depth, path, marking, first, scale, index, i);
        },
    }
}

/// The list of a binary operator is the list of its left operand, the list
/// of its right operand, and its root with the roots of both as children.
proof fn lemma_binary_list(
    e: Expr,
    depth: nat,
    path: Seq<PathStep>,
    marking: Marking,
    first: int,
    scale: int,
    index: nat,
)
    requires
        e is Binary,
    ensures
        ({
            let left = *e->Binary_1;
            let right = *e->Binary_2;
            let list = tree_nodes(e, depth, path, marking, first, scale, index);
            let lefts = tree_nodes(
                left,
                depth + 1,
                path.push(PathStep::Left),
                marking,
                first,
                scale,
                index,
            );
            let rights = tree_nodes(
                right,
                depth + 1,
                path.push(PathStep::Right),
                marking,
                first + left.leaf_count(),
                scale,
                index + left.node_count(),
            );
            &&& lefts.len() == left.node_count()
            &&& rights.len() == right.node_count()
            &&& list.len() == lefts.len() + rights.len() + 1
            &&& forall|t: int| 0 <= t < lefts.len() ==> list[0 + t] == #[trigger] lefts[t]
            &&& forall|t: int| 0 <= t < rights.len() ==> list[lefts.len() + t] == #[trigger] rights[t]
            &&& list.last().x == e.column(first, scale)
            &&& lefts.last().x == left.column(first, scale)
            &&& rights.last().x == right.column(first + left.leaf_count(), scale)
            &&& list.last().children == seq![
                (index + left.node_count() - 1) as usize,
                (index + left.node_count() + right.node_count() - 1) as usize,
            ]
        }),
{
    let left = *e->Binary_1;
    let right = *e->Binary_2;
    lemma_tree_nodes(e, depth, path, marking, first, scale, index);
    lemma_tree_nodes(left, depth + 1, path.push(PathStep::Left), marking, first, scale, index);
    lemma_tree_nodes(
        right,
        depth + 1,
        path.push(PathStep::Right),
        marking,
        first + left.leaf_count(),
        scale,
        index + left.node_count(),
    );
}

/// A node of the left operand that stands midway there stands midway in
/// the list of the operator.
proof fn lemma_midway_on_the_left(
    e: Expr,
    depth: nat,
    path: Seq<PathStep>,
    marking: Marking,
    first: int,
    scale: int,
    index: nat,
    i: int,
)
    requires
        e is Binary,
        0 <= i < e->Binary_1.node_count(),
        part_stands_midway(
            tree_nodes(
                *e->Binary_1,
                depth + 1,
                path.push(PathStep::Left),
                marking,
                first,
                scale,
                index,
            ),
            index,
            i,
        ),
    ensures
        part_stands_midway(tree_nodes(e, depth, path, marking, first, scale, index), index, i),
{
    let list = tree_nodes(e, depth, path, marking, first, scale, index);
    let lefts = tree_nodes(
        *e->Binary_1,
        depth + 1,
        path.push(PathStep::Left),
        marking,
        first,
        scale,
        index,
    );
    lemma_binary_list(e, depth, path, marking, first, scale, index);
    lemma_part_embeds(list, lefts, 0, index, i);
}

/// A node of the right operand that stands midway there stands midway in
/// the list of the operator.
proof fn lemma_midway_on_the_right(
    e: Expr,
    depth: nat,
    path: Seq<PathStep>,
    marking: Marking,
    first: int,
    scale: int,
    index: nat,
    j: int,
)
    requires
        e is Binary,
        0 <= j < e->Binary_2.node_count(),
        part_stands_midway(
            tree_nodes(
                *e->Binary_2,
                depth + 1,
                path.push(PathStep::Right),
                marking,
                first + e->Binary_1.leaf_count(),
                scale,
                index + e->Binary_1.node_count(),
            ),
            index + e->Binary_1.node_count(),
            j,
        ),
    ensures
        part_stands_midway(
            tree_nodes(e, depth, path, marking, first, scale, index),
            index,
            e->Binary_1.node_count() + j,
        ),
{
    let list = tree_nodes(e, depth, path, marking, first, scale, index);
    let rights = tree_nodes(
        *e->Binary_2,
        depth + 1,
        path.push(PathStep::Right),
        marking,
        first + e->Binary_1.leaf_count(),
        scale,
        index + e->Binary_1.node_count(),
    );
    lemma_binary_list(e, depth, path, marking, first, scale, index);
    lemma_part_embeds(list, rights, e->Binary_1.node_count() as int, index, j);
}

/// In the list of a binary operator the roots of the operands stand before
/// the ends of their parts, and the root of the operator last, with those
/// two as its children.
proof fn lemma_binary_roots(
    e: Expr,
    depth: nat,
    path: Seq<PathStep>,
    marking: Marking,
    first: int,
    scale: int,
    index: nat,
)
    requires
        e is Binary,
    ensures
        ({
            let left = *e->Binary_1;
            let right = *e->Binary_2;
            let list = tree_nodes(e, depth, path, marking, first, scale, index);
            let l = left.node_count() - 1;
            let r = left.node_count() + right.node_count() - 1;
            &&& 0 <= l < r < list.len() - 1
            &&& list.len() == e.node_count()
            &&& list[l].x == left.column(first, scale)
            &&& list[r].x == right.column(first + left.leaf_count(), scale)
            &&& list[r + 1].x == e.column(first, scale)
            &&& list[r + 1].children.len() == 2
            &&& list[r + 1].children[0] == (index + l) as usize
            &&& list[r + 1].children[1] == (index + r) as usize
        }),
{
    let left = *e->Binary_1;
    let right = *e->Binary_2;
    let list = tree_nodes(e, depth, path, marking, first, scale, index);
    let lefts = tree_nodes(left, depth + 1, path.push(PathStep::Left), marking, first, scale, index);
    let rights = tree_nodes(
        right,
        depth + 1,
        path.push(PathStep::Right),
        marking,
        first + left.leaf_count(),
        scale,
        index + left.node_count(),
    );
    lemma_binary_list(e, depth, path, marking, first, scale, index);
    lemma_height_bounds_size(left);
    lemma_height_bounds_size(right);
    let l = left.node_count() - 1;
    assert(list[0 + l] == lefts[l]);
    assert(list[lefts.len() + (rights.len() - 1)] == rights[rights.len() - 1]);
}

/// The root of a binary operator stands midway between the roots of its
/// operands.
proof fn lemma_midway_at_the_root(
    e: Expr,
    depth: nat,
    path: Seq<PathStep>,
    marking: Marking,
    first: int,
    scale: int,
    index: nat,
)
    requires
        e is Binary,
        halvable(scale, e.halvings()),
        index + e.node_count() <= usize::MAX,
    ensures
        part_stands_midway(
            tree_nodes(e, depth, path, marking, first, scale, index),
            index,
            e.node_count() - 1,
        ),
{
    lemma_binary_roots(e, depth, path, marking, first, scale, index);
    law_operator_stands_midway(e, first, scale);
}

/// The step of `law_operators_stand_midway` for a binary operator.
proof fn lemma_midway_in_binary(
    e: Expr,
    depth: nat,
    path: Seq<PathStep>,
    marking: Marking,
    first: int,
    scale: int,
    index: nat,
    i: int,
)
    requires
        e is Binary,
        halvable(scale, e.halvings()),
        index + e.node_count() <= usize::MAX,
        0 <= i < e.node_count(),
    ensures
        part_stands_midway(tree_nodes(e, depth, path, marking, first, scale, index), index, i),
    decreases e, 0nat,
{
    let left = *e->Binary_1;
    let right = *e->Binary_2;
    lemma_height_bounds_size(left);
    lemma_height_bounds_size(right);
    if i < left.node_count() {
        lemma_halvable_less(scale, left.halvings(), e.halvings());
        law_operators_stand_midway(
            left,
            depth + 1,
            path.push(PathStep::Left),
            marking,
            first,
            scale,
            index,
            i,
        );
        lemma_midway_on_the_left(e, depth, path, marking, first, scale, index, i);
    } else if i < left.node_count() + right.node_count() {
        let j = i - left.node_count();
        lemma_halvable_less(scale, right.halvings(), e.halvings());
        law_operators_stand_midway(
            right,
            depth + 1,
            path.push(PathStep::Right),
            marking,
            first + left.leaf_count(),
            scale,
            index + left.node_count(),
            j,
        );
        lemma_midway_on_the_right(e, depth, path, marking, first, scale, index, j);
    } else {
        lemma_midway_at_the_root(e, depth, path, marking, first, scale, index);
    }
}

/// Which nodes to mark, with the path as a slice.
pub enum Highlight<'a> {
    /// None.
    Nothing,
    /// The node at the path and every node below it.
    Below(&'a [PathStep]),
    /// The node at the path and no other.
    Only(&'a [PathStep]),
}

impl<'a> View for Highlight<'a> {
    type V = Marking;

    open spec fn view(&self) -> Marking {
        match self {
            Highlight::Nothing => Marking::Nothing,
            Highlight::Below(top) => Marking::Below(top@),
            Highlight::Only(node) => Marking::Only(node@),
        }
    }
}

impl<'a> Highlight<'a> {
    /// Whether the node at `path` is marked.
    pub fn marks(&self, path: &[PathStep]) -> (r: bool)
        ensures
            r == self@.marks(path@),
    {
        match self {
            Highlight::Nothing => false,
            Highlight::Below(top) => path_in_subtree(path, top),
            Highlight::Only(node) => paths_equal(node, path),
        }
    }
}

/// The marking that a highlighted path stands for: the node at the path
/// and every node below it.
pub open spec fn marking_of(highlight_path: Option<&[PathStep]>) -> Marking {
    match highlight_path {
        Some(top) => Marking::Below(top@),
        None => Marking::Nothing,
    }
}

/// The text of a literal.
fn value_label(v: Value) -> (label: String)
    ensures
        label@ == v.text(),
{
    match v {
        Value::Bool(true) => String::from_str("true"),
        Value::Bool(false) => String::from_str("false"),
        Value::Num(n) => {
            let mut label = String::new();
            push_signed(&mut label, n);
            assert(label@ =~= signed_decimal(n as int));
            label
        },
    }
}

/// The symbol of a unary operator.
fn unary_label(op: UnaryOp) -> (label: String)
    ensures
        label@ == op.symbol(),
{
    match op {
        UnaryOp::Not => String::from_str("not"),
        UnaryOp::Neg => String::from_str("-"),
    }
}

/// The symbol of a binary operator.
fn binary_label(op: BinaryOp) -> (label: String)
    ensures
        label@ == op.symbol(),
{
    match op {
        BinaryOp::And => String::from_str("and"),
        BinaryOp::Or => String::from_str("or"),
        BinaryOp::Add => String::from_str("+"),
        BinaryOp::Sub => String::from_str("-"),
        BinaryOp::Mul => String::from_str("*"),
    }
}

/// What `build_nodes` requires of the tree: the scale can be halved once
/// for every binary operator on the longest way down, so that every mean is
/// exact, and the rows, the columns and the distances between columns fit
/// their integer types.
pub open spec fn fits_from(e: Expr, depth: int, first: int, scale: int) -> bool {
    &&& depth + e.height() <= usize::MAX
    &&& halvable(scale, e.halvings())
    &&& i32::MIN <= first
    &&& first + e.leaf_count() <= i32::MAX
    &&& i64::MIN <= first * scale
    &&& (first + e.leaf_count() - 1) * scale <= i64::MAX
    &&& (e.leaf_count() - 1) * scale <= i64::MAX
}

/// What fits for a tree fits for its operands.
pub proof fn lemma_fits_below(e: Expr, depth: int, first: int, scale: int)
    requires
        fits_from(e, depth, first, scale),
    ensures
        e matches Expr::Unary(_, inner) ==> fits_from(*inner, depth + 1, first, scale),
        e matches Expr::Binary(_, left, right) ==> fits_from(*left, depth + 1, first, scale)
            && fits_from(*right, depth + 1, first + left.leaf_count(), scale),
        i64::MIN <= e.column(first, scale) <= i64::MAX,
{
    lemma_column_bounds(e, first, scale);
    lemma_scaled_order(first, first + e.leaf_count() - 1, scale);
    match e {
        Expr::Literal(_) => {},
        Expr::Unary(_, inner) => {
            lemma_halved_less(scale, inner.halvings(), e.halvings());
        },
        Expr::Binary(_, left, right) => {
            lemma_halved_less(scale, left.halvings(), e.halvings());
            lemma_halved_less(scale, right.halvings(), e.halvings());
            lemma_column_bounds(*left, first, scale);
            lemma_column_bounds(*right, first + left.leaf_count(), scale);
            let n = e.leaf_count() as int;
            let ll = left.leaf_count() as int;
            let lr = right.leaf_count() as int;
            lemma_scaled_order(first + ll - 1, first + n - 1, scale);
            lemma_scaled_order(ll - 1, n - 1, scale);
            lemma_scaled_order(lr - 1, n - 1, scale);
            lemma_scaled_order(first, first + ll, scale);
        },
    }
}

/// What `build_nodes` leaves behind: the nodes of the tree after those that
/// were in the list, the column counter moved past the literals, and the
/// path as it was.
pub open spec fn built(
    e: Expr,
    depth: usize,
    marking: Marking,
    path_before: Seq<PathStep>,
    path_after: Seq<PathStep>,
    nodes_before: Seq<NodeDraw>,
    nodes_after: Seq<NodeDraw>,
    x_before: i32,
    x_after: i32,
    scale: int,
    index: usize,
) -> bool {
    &&& path_after == path_before
    &&& drawn(nodes_after) == drawn(nodes_before) + tree_nodes(
        e,
        depth as nat,
        path_before,
        marking,
        x_before as int,
        scale,
        nodes_before.len(),
    )
    &&& x_after == x_before + e.leaf_count()
    &&& index == nodes_after.len() - 1
    &&& nodes_after.len() == nodes_before.len() + e.node_count()
    &&& nodes_after[index as int].x == e.column(x_before as int, scale)
}

/// Appends one node to the list.
fn push_node(
    nodes: &mut Vec<NodeDraw>,
    label: String,
    depth: usize,
    x: i64,
    children: Vec<usize>,
    path: &Vec<PathStep>,
    mark: &Highlight,
) -> (index: usize)
    ensures
        index == old(nodes)@.len(),
        final(nodes)@.len() == old(nodes)@.len() + 1,
        final(nodes)@[index as int].x == x,
        drawn(final(nodes)@) == drawn(old(nodes)@).push(
            NodeView {
                label: label@,
                depth: depth as nat,
                x: x as int,
                highlight: mark@.marks(path@),
                children: children@,
                path: path@,
            },
        ),
{
    let highlight = mark.marks(path.as_slice());
    let index: usize = nodes.len();
    let own_path = slice_to_vec(path.as_slice());
    nodes.push(NodeDraw { label, depth, x, highlight, children, path: own_path });
    assert(drawn(nodes@) =~= drawn(old(nodes)@).push(nodes@[index as int]@));
    index
}

/// Appends the nodes of `expr` to `nodes` and returns the place of its
/// root.
fn build_part(
    expr: &Expr,
    depth: usize,
    path: &mut Vec<PathStep>,
    mark: &Highlight,
    nodes: &mut Vec<NodeDraw>,
    next_leaf_x: &mut i32,
    scale: i64,
) -> (index: usize)
    requires
        fits_from(*expr, depth as int, *old(next_leaf_x) as int, scale as int),
    ensures
        built(
            *expr,
            depth,
            mark@,
            old(path)@,
            final(path)@,
            old(nodes)@,
            final(nodes)@,
            *old(next_leaf_x),
            *final(next_leaf_x),
            scale as int,
            index,
        ),
    decreases *expr, 1nat,
{
    proof {
        lemma_fits_below(*expr, depth as int, *old(next_leaf_x) as int, scale as int);
    }
    match expr {
        Expr::Literal(v) => {
            let x: i64 = (*next_leaf_x as i64) * scale;
            *next_leaf_x += 1;
            let children: Vec<usize> = Vec::new();
            let index = push_node(nodes, value_label(*v), depth, x, children, path, mark);
            proof {
                assert(children@ =~= Seq::<usize>::empty());
                assert(drawn(nodes@) =~= drawn(old(nodes)@) + tree_nodes(
                    *expr,
                    depth as nat,
                    old(path)@,
                    mark@,
                    *old(next_leaf_x) as int,
                    scale as int,
                    old(nodes)@.len(),
                ));
            }
            index
        },
        Expr::Unary(op, inner) => build_unary(
            *op,
            inner,
            depth,
            path,
            mark,
            nodes,
            next_leaf_x,
            scale,
        ),
        Expr::Binary(op, left, right) => build_binary(
            *op,
            left,
            right,
            depth,
            path,
            mark,
            nodes,
            next_leaf_x,
            scale,
        ),
    }
}

/// Appends the nodes of a unary operator and its operand.
fn build_unary(
    op: UnaryOp,
    inner: &Expr,
    depth: usize,
    path: &mut Vec<PathStep>,
    mark: &Highlight,
    nodes: &mut Vec<NodeDraw>,
    next_leaf_x: &mut i32,
    scale: i64,
) -> (index: usize)
    requires
        fits_from(Expr::Unary(op, Box::new(*inner)), depth as int, *old(next_leaf_x) as int, scale as int),
    ensures
        built(
            Expr::Unary(op, Box::new(*inner)),
            depth,
            mark@,
            old(path)@,
            final(path)@,
            old(nodes)@,
            final(nodes)@,
            *old(next_leaf_x),
            *final(next_leaf_x),
            scale as int,
            index,
        ),
    decreases Expr::Unary(op, Box::new(*inner)), 0nat,
{
    let ghost e = Expr::Unary(op, Box::new(*inner));
    proof {
        lemma_fits_below(e, depth as int, *old(next_leaf_x) as int, scale as int);
    }
    let ghost here = path@;
    let ghost marking = mark@;
    let ghost first = *next_leaf_x as int;
    let ghost base = nodes@.len();
    path.push(PathStep::Unary);
    let child = build_part(inner, depth + 1, path, mark, nodes, next_leaf_x, scale);
    path.pop();
    assert(path@ =~= here);
    let ghost below = tree_nodes(
        *inner,
        (depth + 1) as nat,
        here.push(PathStep::Unary),
        marking,
        first,
        scale as int,
        base,
    );
    let ghost mid = drawn(nodes@);
    let x: i64 = nodes[child].x;
    let mut children: Vec<usize> = Vec::new();
    children.push(child);
    let index = push_node(nodes, unary_label(op), depth, x, children, path, mark);
    proof {
        assert(children@ =~= seq![(base + inner.node_count() - 1) as usize]);
        assert(drawn(nodes@) =~= drawn(old(nodes)@) + tree_nodes(
            e,
            depth as nat,
            here,
            marking,
            first,
            scale as int,
            base,
        ));
    }
    index
}

/// Appends the nodes of a binary operator and its operands.
#[verifier::rlimit(40)]
fn build_binary(
    op: BinaryOp,
    left: &Expr,
    right: &Expr,
    depth: usize,
    path: &mut Vec<PathStep>,
    mark: &Highlight,
    nodes: &mut Vec<NodeDraw>,
    next_leaf_x: &mut i32,
    scale: i64,
) -> (index: usize)
    requires
        fits_from(
            Expr::Binary(op, Box::new(*left), Box::new(*right)),
            depth as int,
            *old(next_leaf_x) as int,
            scale as int,
        ),
    ensures
        built(
            Expr::Binary(op, Box::new(*left), Box::new(*right)),
            depth,
            mark@,
            old(path)@,
            final(path)@,
            old(nodes)@,
            final(nodes)@,
            *old(next_leaf_x),
            *final(next_leaf_x),
            scale as int,
            index,
        ),
    decreases Expr::Binary(op, Box::new(*left), Box::new(*right)), 0nat,
{
    let ghost e = Expr::Binary(op, Box::new(*left), Box::new(*right));
    proof {
        lemma_fits_below(e, depth as int, *old(next_leaf_x) as int, scale as int);
    }
    let ghost here = path@;
    let ghost marking = mark@;
    let ghost first = *next_leaf_x as int;
    let ghost base = nodes@.len();
    let ghost lefts = tree_nodes(
        *left,
        (depth + 1) as nat,
        here.push(PathStep::Left),
        marking,
        first,
        scale as int,
        base,
    );
    let ghost rights = tree_nodes(
        *right,
        (depth + 1) as nat,
        here.push(PathStep::Right),
        marking,
        first + left.leaf_count(),
        scale as int,
        base + left.node_count(),
    );
    proof {
        lemma_tree_nodes(*left, (depth + 1) as nat, here.push(PathStep::Left), marking, first, scale as int, base);
        lemma_tree_nodes(
            *right,
            (depth + 1) as nat,
            here.push(PathStep::Right),
            marking,
            first + left.leaf_count(),
            scale as int,
            base + left.node_count(),
        );
    }
    path.push(PathStep::Left);
    let left_idx = build_part(left, depth + 1, path, mark, nodes, next_leaf_x, scale);
    path.pop();
    assert(path@ =~= here);
    let left_x: i64 = nodes[left_idx].x;
    let ghost after_left = drawn(nodes@);
    assert(after_left == drawn(old(nodes)@) + lefts);
    path.push(PathStep::Right);
    let right_idx = build_part(right, depth + 1, path, mark, nodes, next_leaf_x, scale);
    path.pop();
    assert(path@ =~= here);
    let right_x: i64 = nodes[right_idx].x;
    let ghost after_right = drawn(nodes@);
    assert(after_right == after_left + rights);
    proof {
        law_operator_stands_midway(e, first, scale as int);
        lemma_column_bounds(*left, first, scale as int);
        lemma_column_bounds(*right, first + left.leaf_count(), scale as int);
        lemma_scaled_order(first + left.leaf_count() - 1, first + left.leaf_count(), scale as int);
        lemma_scaled_order(
            first + left.leaf_count() + right.leaf_count() - 1,
            first + e.leaf_count() - 1,
            scale as int,
        );
        assert((first + e.leaf_count() - 1) * scale - first * scale == (e.leaf_count() - 1)
            * scale) by (nonlinear_arith);
    }
    let x: i64 = left_x + (right_x - left_x) / 2;
    assert(x == e.column(first, scale as int));
    let mut children: Vec<usize> = Vec::new();
    children.push(left_idx);
    children.push(right_idx);
    assert(children@ =~= seq![
        (base + left.node_count() - 1) as usize,
        (base + left.node_count() + right.node_count() - 1) as usize,
    ]);
    let index = push_node(nodes, binary_label(op), depth, x, children, path, mark);
    proof {
        let root = NodeView {
            label: e.label(),
            depth: depth as nat,
            x: e.column(first, scale as int),
            highlight: marking.marks(here),
            children: children@,
            path: here,
        };
        assert(drawn(nodes@) == after_right.push(root));
        assert(tree_nodes(e, depth as nat, here, marking, first, scale as int, base) == (lefts + rights).push(
            root,
        ));
        assert(after_right.push(root) =~= drawn(old(nodes)@) + (lefts + rights).push(root));
    }
    index
}

/// Every node of the list from place `from` on stands above its one
/// operand, or exactly midway between its two.
pub open spec fn stands_midway_from(nodes: Seq<NodeView>, from: int) -> bool {
    forall|i: int| from <= i < nodes.len() ==> node_stands_midway(nodes, i)
}

/// A node that stands midway in the part that was added to a list stands
/// midway in the list.
pub proof fn lemma_part_in_whole(
    whole: Seq<NodeView>,
    before: Seq<NodeView>,
    part: Seq<NodeView>,
    j: int,
)
    requires
        whole == before + part,
        0 <= j < part.len(),
        part_stands_midway(part, before.len(), j),
    ensures
        node_stands_midway(whole, before.len() + j),
{
    let node = part[j];
    assert(whole[before.len() + j] == node);
    assert forall|k: int| 0 <= k < node.children.len() implies whole[node.children[k] as int]
        == part[node.children[k] - before.len()] by {
        let t = node.children[k] - before.len();
        assert(whole[before.len() + t] == part[t]);
    }
}

/// Appends the nodes of `expr` to `nodes`, operands before their operator,
/// and returns the place of the root of `expr` in the list. The root stands
/// in row `depth` at the end of `path`; the literals take the whole columns
/// from `next_leaf_x` on, which is moved past them. `path` is used on the
/// way down and is the same again at the end. `mark` says which nodes are
/// marked. A column is counted in steps of which `scale` make one whole
/// column, and every operator stands exactly midway between its operands.
pub fn build_marked(
    expr: &Expr,
    depth: usize,
    path: &mut Vec<PathStep>,
    mark: &Highlight,
    nodes: &mut Vec<NodeDraw>,
    next_leaf_x: &mut i32,
    scale: i64,
) -> (index: usize)
    requires
        fits_from(*expr, depth as int, *old(next_leaf_x) as int, scale as int),
    ensures
        built(
            *expr,
            depth,
            mark@,
            old(path)@,
            final(path)@,
            old(nodes)@,
            final(nodes)@,
            *old(next_leaf_x),
            *final(next_leaf_x),
            scale as int,
            index,
        ),
        stands_midway_from(drawn(final(nodes)@), old(nodes)@.len() as int),
{
    let index = build_part(expr, depth, path, mark, nodes, next_leaf_x, scale);
    let count: usize = nodes.len();
    proof {
        let before = drawn(old(nodes)@);
        let part = tree_nodes(
            *expr,
            depth as nat,
            old(path)@,
            mark@,
            *old(next_leaf_x) as int,
            scale as int,
            old(nodes)@.len(),
        );
        let whole = drawn(nodes@);
        assert(before.len() == old(nodes)@.len());
        assert(whole.len() == count);
        assert forall|i: int| before.len() <= i < whole.len() implies node_stands_midway(
            whole,
            i,
        ) by {
            law_operators_stand_midway(
                *expr,
                depth as nat,
                old(path)@,
                mark@,
                *old(next_leaf_x) as int,
                scale as int,
                old(nodes)@.len(),
                i - before.len(),
            );
            lemma_part_in_whole(whole, before, part, i - before.len());
        }
    }
    index
}

/// Appends the nodes of `expr` to `nodes` as `build_marked` does, with the
/// node at `highlight_path` and every node below it marked. A whole column
/// is `scale` steps wide.
pub fn build_nodes(
    expr: &Expr,
    depth: usize,
    path: &mut Vec<PathStep>,
    highlight_path: Option<&[PathStep]>,
    nodes: &mut Vec<NodeDraw>,
    next_leaf_x: &mut i32,
    scale: i64,
) -> (index: usize)
    requires
        fits_from(*expr, depth as int, *old(next_leaf_x) as int, scale as int),
    ensures
        built(
            *expr,
            depth,
            marking_of(highlight_path),
            old(path)@,
            final(path)@,
            old(nodes)@,
            final(nodes)@,
            *old(next_leaf_x),
            *final(next_leaf_x),
            scale as int,
            index,
        ),
        stands_midway_from(drawn(final(nodes)@), old(nodes)@.len() as int),
{
    match highlight_path {
        Some(top) => build_marked(
            expr,
            depth,
            path,
            &Highlight::Below(top),
            nodes,
            next_leaf_x,
            scale,
        ),
        None => build_marked(expr, depth, path, &Highlight::Nothing, nodes, next_leaf_x, scale),
    }
}

/// The number of literals of the tree, if it is at most `limit`.
pub fn leaves_within(expr: &Expr, limit: usize) -> (r: Option<usize>)
    ensures
        r == if expr.leaf_count() <= limit {
            Some(expr.leaf_count() as usize)
        } else {
            None::<usize>
        },
    decreases *expr,
{
    match expr {
        Expr::Literal(_) => if limit >= 1 {
            Some(1)
        } else {
            None
        },
        Expr::Unary(_, inner) => leaves_within(inner, limit),
        Expr::Binary(_, left, right) => {
            proof {
                lemma_height_bounds_size(**right);
                lemma_height_bounds_size(**left);
            }
            match leaves_within(left, limit) {
                None => None,
                Some(l) => match leaves_within(right, limit - l) {
                    None => None,
                    Some(r) => Some(l + r),
                },
            }
        },
    }
}

/// The height of the tree, if it is at most `limit`.
pub fn height_within(expr: &Expr, limit: usize) -> (r: Option<usize>)
    ensures
        r == if expr.height() <= limit {
            Some(expr.height() as usize)
        } else {
            None::<usize>
        },
    decreases *expr,
{
    match expr {
        Expr::Literal(_) => Some(0),
        Expr::Unary(_, inner) => {
            if limit == 0 {
                return None;
            }
            match height_within(inner, limit - 1) {
                Some(h) => Some(h + 1),
                None => None,
            }
        },
        Expr::Binary(_, left, right) => {
            if limit == 0 {
                return None;
            }
            match height_within(left, limit - 1) {
                None => None,
                Some(l) => match height_within(right, limit - 1) {
                    None => None,
                    Some(r) => if l >= r {
                        Some(l + 1)
                    } else {
                        Some(r + 1)
                    },
                },
            }
        },
    }
}

/// The halvings of a tree are no more than its height.
pub proof fn lemma_halvings_at_most_height(e: Expr)
    ensures
        e.halvings() <= e.height(),
    decreases e,
{
    match e {
        Expr::Literal(_) => {},
        Expr::Unary(_, inner) => {
            lemma_halvings_at_most_height(*inner);
        },
        Expr::Binary(_, left, right) => {
            lemma_halvings_at_most_height(*left);
            lemma_halvings_at_most_height(*right);
        },
    }
}

/// The halvings of the tree, if they are at most `limit`.
pub fn halvings_within(expr: &Expr, limit: usize) -> (r: Option<usize>)
    ensures
        r == if expr.halvings() <= limit {
            Some(expr.halvings() as usize)
        } else {
            None::<usize>
        },
    decreases *expr,
{
    match expr {
        Expr::Literal(_) => Some(0),
        Expr::Unary(_, inner) => halvings_within(inner, limit),
        Expr::Binary(_, left, right) => {
            if limit == 0 {
                return None;
            }
            match halvings_within(left, limit - 1) {
                None => None,
                Some(l) => match halvings_within(right, limit - 1) {
                    None => None,
                    Some(r) => if l >= r {
                        Some(l + 1)
                    } else {
                        Some(r + 1)
                    },
                },
            }
        },
    }
}

/// Whether the tree can be laid out from the first column on with the
/// least scale that it asks for.
pub open spec fn fits(e: Expr) -> bool {
    two_to(e.halvings()) <= i64::MAX && fits_from(e, 0, 0, two_to(e.halvings()))
}

/// The least scale for the tree, two to the power of its halvings, if the
/// tree can be laid out with it.
pub fn layout_scale(expr: &Expr) -> (r: Option<i64>)
    ensures
        r == if fits(*expr) {
            Some(two_to(expr.halvings()) as i64)
        } else {
            None::<i64>
        },
{
    proof {
        lemma_two_to(expr.halvings(), 0);
        lemma_height_bounds_size(*expr);
        lemma_halvings_at_most_height(*expr);
    }
    if height_within(expr, usize::MAX).is_none() {
        return None;
    }
    let halvings = match halvings_within(expr, usize::MAX) {
        Some(h) => h,
        None => {
            return None;
        },
    };
    let leaves = match leaves_within(expr, 0x7fff_ffff) {
        Some(n) => n,
        None => {
            return None;
        },
    };
    let mut scale: i64 = 1;
    let mut k: usize = 0;
    while k < halvings
        invariant
            k <= halvings,
            halvings == expr.halvings(),
            scale == two_to(k as nat),
            scale >= 1,
        decreases halvings - k,
    {
        if scale > i64::MAX / 2 {
            proof {
                lemma_two_to((k + 1) as nat, (halvings - k - 1) as nat);
                lemma_two_to((halvings - k - 1) as nat, 0);
                lemma_scaled_order(1, two_to((halvings - k - 1) as nat), two_to((k + 1) as nat));
            }
            return None;
        }
        scale = scale * 2;
        k += 1;
    }
    assert(0 * scale == 0) by (nonlinear_arith);
    match ((leaves - 1) as i64).checked_mul(scale) {
        Some(_) => Some(scale),
        None => None,
    }
}

/// Whether the tree can be laid out: whether its rows, its columns and the
/// scale that its binary operators ask for fit their integer types.
pub fn layout_fits(expr: &Expr) -> (b: bool)
    ensures
        b == fits(*expr),
{
    layout_scale(expr).is_some()
}

/// A tree laid out on the grid, with the extent of the grid.
#[derive(Debug)]
pub struct TreeLayout {
    /// The nodes, operands before their operator.
    pub nodes: Vec<NodeDraw>,
    /// The number of steps that make one whole column: a power of two, so
    /// that every operator stands exactly midway between its operands.
    pub scale: i64,
    /// The least column of a node, in steps.
    pub min_x: i64,
    /// The greatest column of a node, in steps.
    pub max_x: i64,
    /// The greatest row of a node.
    pub max_depth: usize,
    /// The length in characters of the longest label.
    pub max_label_len: usize,
}

impl TreeLayout {
    /// The extent is that of the nodes: each bound is reached by a node and
    /// passed by none.
    pub open spec fn extent_is_tight(&self) -> bool {
        let nodes = drawn(self.nodes@);
        &&& forall|i: int|
            0 <= i < nodes.len() ==> self.min_x <= (#[trigger] nodes[i]).x <= self.max_x
                && nodes[i].depth <= self.max_depth && nodes[i].label.len() <= self.max_label_len
        &&& exists|i: int| 0 <= i < nodes.len() && (#[trigger] nodes[i]).x == self.min_x
        &&& exists|i: int| 0 <= i < nodes.len() && (#[trigger] nodes[i]).x == self.max_x
        &&& exists|i: int| 0 <= i < nodes.len() && (#[trigger] nodes[i]).depth == self.max_depth
        &&& exists|i: int|
            0 <= i < nodes.len() && (#[trigger] nodes[i]).label.len() == self.max_label_len
    }
}

/// The extent of a laid-out tree: its columns are those of its literals,
/// from 0 on, and its rows go down to its height.
pub proof fn law_extent_of_a_tree(layout: TreeLayout, e: Expr, marking: Marking)
    requires
        layout.scale >= 1,
        drawn(layout.nodes@) == tree_nodes(
            e,
            0,
            Seq::empty(),
            marking,
            0,
            layout.scale as int,
            0,
        ),
        layout.extent_is_tight(),
    ensures
        layout.nodes@.len() == e.node_count(),
        layout.min_x == 0,
        layout.max_x == (e.leaf_count() - 1) * layout.scale,
        layout.max_depth == e.height(),
{
    let scale = layout.scale as int;
    law_nodes_fill_the_grid(e, 0, Seq::empty(), marking, 0, scale, 0);
    lemma_tree_nodes(e, 0, Seq::empty(), marking, 0, scale, 0);
    assert(drawn(layout.nodes@).len() == layout.nodes@.len());
    assert(0 * scale == 0) by (nonlinear_arith);
}

/// Measures the extent of a list of nodes that is not empty.
fn measure(nodes: Vec<NodeDraw>, scale: i64) -> (layout: TreeLayout)
    requires
        nodes@.len() >= 1,
    ensures
        layout.nodes == nodes,
        layout.scale == scale,
        layout.extent_is_tight(),
{
    let mut min_x: i64 = nodes[0].x;
    let mut max_x: i64 = nodes[0].x;
    let mut max_depth: usize = nodes[0].depth;
    let mut max_label_len: usize = nodes[0].label.as_str().unicode_len();
    let ghost views = drawn(nodes@);
    let ghost mut at_min: int = 0;
    let ghost mut at_max: int = 0;
    let ghost mut at_depth: int = 0;
    let ghost mut at_label: int = 0;
    let mut i: usize = 1;
    while i < nodes.len()
        invariant
            1 <= i <= nodes.len(),
            views == drawn(nodes@),
            forall|k: int|
                0 <= k < i ==> min_x <= (#[trigger] views[k]).x <= max_x && views[k].depth
                    <= max_depth && views[k].label.len() <= max_label_len,
            0 <= at_min < i && views[at_min].x == min_x,
            0 <= at_max < i && views[at_max].x == max_x,
            0 <= at_depth < i && views[at_depth].depth == max_depth,
            0 <= at_label < i && views[at_label].label.len() == max_label_len,
        decreases nodes.len() - i,
    {
        let node = &nodes[i];
        assert(views[i as int] == node@);
        if node.x < min_x {
            min_x = node.x;
            proof {
                at_min = i as int;
            }
        }
        if node.x > max_x {
            max_x = node.x;
            proof {
                at_max = i as int;
            }
        }
        if node.depth > max_depth {
            max_depth = node.depth;
            proof {
                at_depth = i as int;
            }
        }
        let len: usize = node.label.as_str().unicode_len();
        if len > max_label_len {
            max_label_len = len;
            proof {
                at_label = i as int;
            }
        }
        i += 1;
    }
    let layout = TreeLayout { nodes, scale, min_x, max_x, max_depth, max_label_len };
    proof {
        assert(drawn(layout.nodes@) == views);
        assert(views[at_min].x == layout.min_x);
        assert(views[at_max].x == layout.max_x);
        assert(views[at_depth].depth == layout.max_depth);
        assert(views[at_label].label.len() == layout.max_label_len);
    }
    layout
}

/// What a layout of the tree `e` with the given marks is: one node for
/// each node of the tree, operands before their operator, the root in row 0
/// and the literals in the whole columns 0, 1, 2, … from left to right. The
/// scale is two to the power of the halvings of the tree, every operator
/// stands exactly midway between its operands, and the extent is that of
/// the tree.
pub open spec fn lays_out(layout: TreeLayout, e: Expr, marking: Marking) -> bool {
    &&& layout.scale == two_to(e.halvings())
    &&& drawn(layout.nodes@) == tree_nodes(
        e,
        0,
        Seq::empty(),
        marking,
        0,
        layout.scale as int,
        0,
    )
    &&& stands_midway(drawn(layout.nodes@))
    &&& layout.extent_is_tight()
    &&& layout.nodes@.len() == e.node_count()
    &&& layout.min_x == 0
    &&& layout.max_x == (e.leaf_count() - 1) * layout.scale
    &&& layout.max_depth == e.height()
}

/// Lays out the tree with the given marks.
fn lay_out(expr: &Expr, mark: &Highlight) -> (layout: TreeLayout)
    requires
        fits(*expr),
    ensures
        lays_out(layout, *expr, mark@),
{
    let scale: i64 = match layout_scale(expr) {
        Some(scale) => scale,
        None => 1,
    };
    proof {
        lemma_two_to(expr.halvings(), 0);
    }
    let mut nodes: Vec<NodeDraw> = Vec::new();
    let mut next_leaf_x: i32 = 0;
    let mut path: Vec<PathStep> = Vec::new();
    let _root = build_marked(expr, 0, &mut path, mark, &mut nodes, &mut next_leaf_x, scale);
    let count: usize = nodes.len();
    proof {
        lemma_tree_nodes(*expr, 0, Seq::empty(), mark@, 0, scale as int, 0);
        assert(drawn(nodes@) =~= tree_nodes(*expr, 0, Seq::empty(), mark@, 0, scale as int, 0));
        lemma_height_bounds_size(*expr);
        assert(count == expr.node_count());
        assert(stands_midway(drawn(nodes@)));
    }
    let layout = measure(nodes, scale);
    proof {
        law_extent_of_a_tree(layout, *expr, mark@);
    }
    layout
}

/// Lays out the tree: one node for each node of the tree, operands before
/// their operator, the root in row 0 and the literals in the whole columns
/// 0, 1, 2, … from left to right, with every operator exactly midway
/// between its operands. With a highlighted path, the node at the path and
/// every node below it are marked; without one, no node is.
pub fn build_tree_layout(expr: &Expr, highlight_path: Option<&[PathStep]>) -> (layout: TreeLayout)
    requires
        fits(*expr),
    ensures
        lays_out(layout, *expr, marking_of(highlight_path)),
{
    match highlight_path {
        Some(top) => lay_out(expr, &Highlight::Below(top)),
        None => lay_out(expr, &Highlight::Nothing),
    }
}

/// Lays out the tree as `build_tree_layout` does, but marks only the node
/// whose path is `next_path`, and no node if there is none.
pub fn build_interactive_layout(expr: &Expr, next_path: Option<&[PathStep]>) -> (layout:
    TreeLayout)
    requires
        fits(*expr),
    ensures
        lays_out(
            layout,
            *expr,
            match next_path {
                Some(node) => Marking::Only(node@),
                None => Marking::Nothing,
            },
        ),
{
    match next_path {
        Some(node) => lay_out(expr, &Highlight::Only(node)),
        None => lay_out(expr, &Highlight::Nothing),
    }
}

} // verus!
