use crate::board::{
    lemma_drop_row_props, lemma_move_undo_roundtrip, Board, BoardModel, GameStatus, TokenColor,
};
use crate::value::{all_wf, mean_den, mean_fits, mean_num, mean_value, Value, ValueError};
use vstd::prelude::*;

verus! {

/// One ply of the search tree: which color moved, which column was
/// played, the resulting status, the value once computed, and one
/// child per legal next column, in column order. A node without
/// children is a leaf: the game ended there, or the depth bound was
/// reached.
#[derive(Debug)]
pub struct Node {
    pub color: TokenColor,
    pub column: usize,
    pub value: Option<Value>,
    pub children: Vec<Node>,
    pub status: GameStatus,
}

/// The mathematical shape of a search-tree node.
#[verifier::ext_equal]
pub ghost struct NodeModel {
    pub color: TokenColor,
    pub column: int,
    pub value: Option<Value>,
    pub children: Seq<NodeModel>,
    pub status: GameStatus,
}

pub open spec fn node_model(n: Node) -> NodeModel
    decreases n,
{
    proof {
        assert(decreases_to!(n => n.children));
        assert(decreases_to!(n.children => n.children@));
    }
    NodeModel {
        color: n.color,
        column: n.column as int,
        value: n.value,
        children: children_models(n.children@),
        status: n.status,
    }
}

pub open spec fn children_models(s: Seq<Node>) -> Seq<NodeModel>
    decreases s,
{
    if s.len() == 0 {
        Seq::empty()
    } else {
        children_models(s.subrange(0, s.len() - 1)).push(node_model(s[s.len() - 1]))
    }
}

/// The models of a sequence of nodes, element by element.
pub broadcast proof fn lemma_children_models(s: Seq<Node>)
    ensures
        (#[trigger] children_models(s)).len() == s.len(),
        forall|i: int| 0 <= i < s.len() ==> children_models(s)[i] == node_model(s[i]),
    decreases s.len(),
{
    if s.len() > 0 {
        lemma_children_models(s.subrange(0, s.len() - 1));
    }
}

impl View for Node {
    type V = NodeModel;

    open spec fn view(&self) -> NodeModel {
        node_model(*self)
    }
}

/// Every value stored anywhere in the tree is a well-formed rational.
pub open spec fn values_wf(m: NodeModel) -> bool
    decreases m,
{
    &&& (m.value matches Some(v) ==> v.wf())
    &&& forall|i: int| 0 <= i < m.children.len() ==> values_wf(#[trigger] m.children[i])
}

impl Node {
    /// A fresh leaf node with no children and no value yet.
    pub fn new(color: TokenColor, column: usize, status: GameStatus) -> (n: Node)
        ensures
            n@ == (NodeModel {
                color,
                column: column as int,
                value: None::<Value>,
                children: Seq::<NodeModel>::empty(),
                status,
            }),
    {
        let n = Node { color, column, status, value: None, children: Vec::new() };
        proof {
            assert(n@ =~~= NodeModel {
                color,
                column: column as int,
                value: None::<Value>,
                children: Seq::<NodeModel>::empty(),
                status,
            });
        }
        n
    }

    /// Appends one child.
    pub fn add_child(self: &mut Self, node: Node)
        ensures
            final(self)@ == (NodeModel {
                children: old(self)@.children.push(node@),
                ..old(self)@
            }),
    {
        self.children.push(node);
        proof {
            assert(self.children@.subrange(0, self.children@.len() - 1) =~= old(self).children@);
            assert(self@ =~~= NodeModel { children: old(self)@.children.push(node@), ..old(self)@ });
        }
    }

    /// Whether every value stored in the tree is a well-formed
    /// rational. A tree that did not come from this module's own
    /// functions — say, one decoded from a message — must pass this
    /// test before it is valued.
    pub fn values_well_formed(&self) -> (r: bool)
        ensures
            r == values_wf(self@),
        decreases *self,
    {
        match self.value {
            Some(v) => {
                if !(1 <= v.den && -v.den <= v.num && v.num <= v.den) {
                    return false;
                }
            },
            None => {},
        }
        let mut i: usize = 0;
        while i < self.children.len()
            invariant
                i <= self.children@.len(),
                self@.value matches Some(v) ==> v.wf(),
                forall|k: int| 0 <= k < i ==> values_wf(#[trigger] self@.children[k]),
            decreases self.children@.len() - i,
        {
            proof {
                lemma_children_models(self.children@);
            }
            let ok = self.children[i].values_well_formed();
            if !ok {
                proof {
                    assert(!values_wf(self@.children[i as int]));
                    assert(!values_wf(self@));
                }
                return false;
            }
            i = i + 1;
        }
        proof {
            lemma_children_models(self.children@);
            assert(values_wf(self@));
        }
        true
    }
}

/// The children that expanding a node of mover-color `color` on board
/// `b` grows, for the columns from `col` rightward: one child per legal
/// column, played by the opposing color. A child that finishes the
/// game is a terminal leaf and is never expanded further; a child that
/// leaves the game open is expanded one ply deeper while the depth
/// budget lasts.
pub open spec fn expansion_from(
    b: BoardModel,
    color: TokenColor,
    max_depth: int,
    curr_depth: int,
    col: int,
) -> Seq<NodeModel>
    decreases max_depth + 1 - curr_depth, b.columns - col,
{
    if curr_depth > max_depth || col < 0 || col >= b.columns {
        Seq::empty()
    } else {
        let rest = expansion_from(b, color, max_depth, curr_depth, col + 1);
        if !b.legal(col) {
            rest
        } else {
            let b2 = b.after_move(col, color.spec_invert());
            let st = b2.status();
            let child = if st is Finished {
                NodeModel {
                    color: color.spec_invert(),
                    column: col,
                    value: None,
                    children: Seq::empty(),
                    status: st,
                }
            } else {
                NodeModel {
                    color: color.spec_invert(),
                    column: col,
                    value: None,
                    children: expansion_from(b2, color.spec_invert(), max_depth, curr_depth + 1, 0),
                    status: st,
                }
            };
            seq![child] + rest
        }
    }
}

/// The full row of children that one expansion step grows.
pub open spec fn expansion(b: BoardModel, color: TokenColor, max_depth: int, curr_depth: int) -> Seq<
    NodeModel,
> {
    expansion_from(b, color, max_depth, curr_depth, 0)
}

/// What holds of every child an expansion step grows: it was moved by
/// the opposing color into a legal column, records the status its move
/// produced, carries no value yet, is a leaf exactly when its move
/// finished the game, and otherwise holds the next ply's expansion.
pub proof fn lemma_expansion_props(
    b: BoardModel,
    color: TokenColor,
    max_depth: int,
    curr_depth: int,
    col: int,
)
    ensures
        forall|k: int|
            0 <= k < expansion_from(b, color, max_depth, curr_depth, col).len() ==> {
                let c = #[trigger] expansion_from(b, color, max_depth, curr_depth, col)[k];
                &&& c.color == color.spec_invert()
                &&& col <= c.column < b.columns
                &&& b.legal(c.column)
                &&& c.value is None
                &&& c.status == b.after_move(c.column, color.spec_invert()).status()
                &&& (c.status is Finished ==> c.children == Seq::<NodeModel>::empty())
                &&& (c.status is InProgress ==> c.children == expansion(
                    b.after_move(c.column, color.spec_invert()),
                    color.spec_invert(),
                    max_depth,
                    curr_depth + 1,
                ))
                &&& values_wf(c)
            },
    decreases max_depth + 1 - curr_depth, b.columns - col,
{
    if curr_depth > max_depth || col < 0 || col >= b.columns {
    } else {
        lemma_expansion_props(b, color, max_depth, curr_depth, col + 1);
        if b.legal(col) {
            let b2 = b.after_move(col, color.spec_invert());
            let e = expansion_from(b, color, max_depth, curr_depth, col);
            let c0 = e[0];
            if b2.status() is Finished {
                assert(values_wf(c0));
            } else {
                lemma_expansion_props(b2, color.spec_invert(), max_depth, curr_depth + 1, 0);
                assert(values_wf(c0)) by {
                    assert(forall|i: int|
                        0 <= i < c0.children.len() ==> values_wf(#[trigger] c0.children[i]));
                }
            }
        }
    }
}

impl Node {
    /// Grows the tree under this node: for every legal column, in
    /// column order, the opposing color's reply is applied to the
    /// shared board, the resulting child recorded, and the move undone
    /// again, so the board leaves exactly as it came. Recursion stops
    /// at terminal children and when `curr_depth` passes `max_depth`.
    pub fn build_tree(self: &mut Self, board: &mut Board, max_depth: usize, curr_depth: usize)
        requires
            old(board)@.wf(),
            old(board)@.rows >= 1,
        ensures
            final(board)@ == old(board)@,
            final(self)@ == (NodeModel {
                children: old(self)@.children + expansion(
                    old(board)@,
                    old(self)@.color,
                    max_depth as int,
                    curr_depth as int,
                ),
                ..old(self)@
            }),
        decreases max_depth + 1 - curr_depth,
    {
        let ghost b0 = board@;
        let ghost m0 = self@;
        if curr_depth > max_depth {
            proof {
                assert(self@ =~~= NodeModel {
                    children: m0.children + expansion(
                        b0,
                        m0.color,
                        max_depth as int,
                        curr_depth as int,
                    ),
                    ..m0
                });
            }
            return;
        }
        let columns = board.columns();
        let mut i: usize = 0;
        while i < columns
            invariant
                board@ == b0,
                b0 == old(board)@,
                b0.wf(),
                b0.rows >= 1,
                columns == b0.columns,
                i <= columns,
                curr_depth <= max_depth,
                m0 == old(self)@,
                self@.color == m0.color,
                self@.column == m0.column,
                self@.value == m0.value,
                self@.status == m0.status,
                m0.children + expansion_from(
                    b0,
                    m0.color,
                    max_depth as int,
                    curr_depth as int,
                    0,
                ) == self@.children + expansion_from(
                    b0,
                    m0.color,
                    max_depth as int,
                    curr_depth as int,
                    i as int,
                ),
            decreases columns - i,
        {
            let ghost exp_here = expansion_from(
                b0,
                m0.color,
                max_depth as int,
                curr_depth as int,
                i as int,
            );
            let ghost exp_next = expansion_from(
                b0,
                m0.color,
                max_depth as int,
                curr_depth as int,
                i as int + 1,
            );
            if board.is_move_legal(i) {
                let mover = self.color.invert();
                let ghost b2 = b0.after_move(i as int, mover);
                let res = board.make_move(i, mover);
                proof {
                    assert(res is Ok);
                    lemma_drop_row_props(b0, i as int);
                    assert(!b2.column_empty(i as int)) by {
                        assert(b2.cells[b0.drop_row(i as int)][i as int] is Token);
                    }
                }
                let st = board.get_status();
                match st {
                    GameStatus::Finished(winner) => {
                        let res2 = board.undo_move(i);
                        proof {
                            assert(res2 is Ok);
                            lemma_move_undo_roundtrip(b0, i as int, mover);
                            assert(board@ == b0);
                        }
                        self.add_child(Node::new(mover, i, GameStatus::Finished(winner)));
                        proof {
                            let cm = exp_here[0];
                            assert(exp_here == seq![cm] + exp_next);
                            assert(m0.children + expansion_from(
                                b0,
                                m0.color,
                                max_depth as int,
                                curr_depth as int,
                                0,
                            ) =~= self@.children + exp_next);
                        }
                    },
                    GameStatus::InProgress => {
                        let mut child = Node::new(mover, i, GameStatus::InProgress);
                        if curr_depth < max_depth {
                            child.build_tree(board, max_depth, curr_depth + 1);
                        } else {
                            // The depth budget is spent: the child keeps no
                            // children, exactly what a deeper call would leave.
                            proof {
                                assert(expansion_from(
                                    b2,
                                    mover,
                                    max_depth as int,
                                    curr_depth as int + 1,
                                    0,
                                ) =~= Seq::<NodeModel>::empty());
                                assert(child@.children =~= Seq::<NodeModel>::empty());
                            }
                        }
                        let res2 = board.undo_move(i);
                        proof {
                            assert(res2 is Ok);
                            lemma_move_undo_roundtrip(b0, i as int, mover);
                            assert(board@ == b0);
                        }
                        proof {
                            let cm = exp_here[0];
                            assert(child@.children =~= expansion_from(
                                b2,
                                mover,
                                max_depth as int,
                                curr_depth as int + 1,
                                0,
                            ));
                            assert(child@ =~~= cm);
                        }
                        self.add_child(child);
                        proof {
                            let cm = exp_here[0];
                            assert(exp_here == seq![cm] + exp_next);
                            assert(m0.children + expansion_from(
                                b0,
                                m0.color,
                                max_depth as int,
                                curr_depth as int,
                                0,
                            ) =~= self@.children + exp_next);
                        }
                    },
                }
            } else {
                proof {
                    assert(exp_here == exp_next);
                }
            }
            i = i + 1;
        }
        proof {
            assert(expansion_from(
                b0,
                m0.color,
                max_depth as int,
                curr_depth as int,
                columns as int,
            ) =~= Seq::<NodeModel>::empty());
            assert(self@.children =~= m0.children + expansion(
                b0,
                m0.color,
                max_depth as int,
                curr_depth as int,
            ));
            assert(self@ =~~= NodeModel {
                children: m0.children + expansion(
                    b0,
                    m0.color,
                    max_depth as int,
                    curr_depth as int,
                ),
                ..m0
            });
        }
    }
}

/// The value of a leaf: +1 for a game the cpu color won, -1 for one
/// the other color won, 0 for a depth-limit leaf with the game open.
pub open spec fn leaf_value(status: GameStatus, cpu_color: TokenColor) -> Value {
    match status {
        GameStatus::Finished(c) => if c == cpu_color {
            Value { num: 1, den: 1 }
        } else {
            Value { num: -1i64, den: 1i64 }
        },
        GameStatus::InProgress => Value { num: 0, den: 1 },
    }
}

/// The value a child contributes to its parent: the value it already
/// carries, or the one the rules would compute for it.
pub open spec fn resolved_value(m: NodeModel, cpu_color: TokenColor, player_color: TokenColor) -> Option<
    Value,
>
    decreases m, 1int,
{
    match m.value {
        Some(v) => Some(v),
        None => combined_value(m, cpu_color, player_color),
    }
}

/// The contributed values of a row of children, in order.
pub open spec fn resolved_values(
    s: Seq<NodeModel>,
    cpu_color: TokenColor,
    player_color: TokenColor,
) -> Seq<Option<Value>>
    decreases s, 0int,
{
    if s.len() == 0 {
        Seq::empty()
    } else {
        resolved_values(s.subrange(0, s.len() - 1), cpu_color, player_color).push(
            resolved_value(s[s.len() - 1], cpu_color, player_color),
        )
    }
}

/// The contributed values, element by element.
pub proof fn lemma_resolved_values(s: Seq<NodeModel>, cpu_color: TokenColor, player_color: TokenColor)
    ensures
        resolved_values(s, cpu_color, player_color).len() == s.len(),
        forall|i: int|
            0 <= i < s.len() ==> resolved_values(s, cpu_color, player_color)[i] == resolved_value(
                #[trigger] s[i],
                cpu_color,
                player_color,
            ),
    decreases s.len(),
{
    if s.len() > 0 {
        lemma_resolved_values(s.subrange(0, s.len() - 1), cpu_color, player_color);
        assert forall|i: int|
            0 <= i < s.len() implies resolved_values(s, cpu_color, player_color)[i]
            == resolved_value(#[trigger] s[i], cpu_color, player_color) by {
            if i < s.len() - 1 {
                assert(s.subrange(0, s.len() - 1)[i] == s[i]);
            }
        }
    }
}

pub open spec fn all_some(rvs: Seq<Option<Value>>) -> bool {
    forall|i: int| 0 <= i < rvs.len() ==> (#[trigger] rvs[i]) is Some
}

pub open spec fn unwrap_values(rvs: Seq<Option<Value>>) -> Seq<Value> {
    Seq::new(rvs.len(), |i: int| rvs[i]->0)
}

/// Rule 1: some child is a certain win and was moved by the cpu color.
pub open spec fn rule_win_exists(children: Seq<NodeModel>, vs: Seq<Value>, cpu_color: TokenColor) -> bool {
    exists|i: int|
        0 <= i < children.len() && (#[trigger] vs[i]).is_win() && children[i].color == cpu_color
}

/// Rule 2: some child is a certain loss and was moved by the player
/// color.
pub open spec fn rule_loss_exists(
    children: Seq<NodeModel>,
    vs: Seq<Value>,
    player_color: TokenColor,
) -> bool {
    exists|i: int|
        0 <= i < children.len() && (#[trigger] vs[i]).is_loss() && children[i].color
            == player_color
}

/// Rule 3's condition: every child is a certain win.
pub open spec fn all_wins(vs: Seq<Value>) -> bool {
    forall|i: int| 0 <= i < vs.len() ==> (#[trigger] vs[i]).is_win()
}

/// Rule 4's condition: every child is a certain loss.
pub open spec fn all_losses(vs: Seq<Value>) -> bool {
    forall|i: int| 0 <= i < vs.len() ==> (#[trigger] vs[i]).is_loss()
}

/// The fixed precedence that combines a row of child values: a
/// qualifying single-child win, else a qualifying single-child loss,
/// else all-win, else all-loss, else the arithmetic mean. `None` when
/// the mean's exact fraction does not fit the representation.
pub open spec fn combine_rules(
    children: Seq<NodeModel>,
    vs: Seq<Value>,
    cpu_color: TokenColor,
    player_color: TokenColor,
) -> Option<Value> {
    if rule_win_exists(children, vs, cpu_color) {
        Some(Value { num: 1, den: 1 })
    } else if rule_loss_exists(children, vs, player_color) {
        Some(Value { num: -1i64, den: 1i64 })
    } else if all_wins(vs) {
        Some(Value { num: 1, den: 1 })
    } else if all_losses(vs) {
        Some(Value { num: -1i64, den: 1i64 })
    } else if mean_fits(vs) {
        Some(Value { num: mean_num(vs) as i64, den: mean_den(vs) as i64 })
    } else {
        None
    }
}

/// The value the rules assign to a node: the leaf value when it has no
/// children, else the combination of its children's contributed
/// values. `None` exactly when some needed exact fraction does not fit
/// the representation.
pub open spec fn combined_value(m: NodeModel, cpu_color: TokenColor, player_color: TokenColor) -> Option<
    Value,
>
    decreases m, 0int,
{
    if m.children.len() == 0 {
        Some(leaf_value(m.status, cpu_color))
    } else {
        let rvs = resolved_values(m.children, cpu_color, player_color);
        if !all_some(rvs) {
            None
        } else {
            combine_rules(m.children, unwrap_values(rvs), cpu_color, player_color)
        }
    }
}

/// The tree after one valuation pass: the node carries its combined
/// value, and every child that had no value yet is valued the same
/// way; children that already carried a value keep it untouched.
pub open spec fn filled(m: NodeModel, cpu_color: TokenColor, player_color: TokenColor) -> NodeModel
    decreases m, 1int,
{
    NodeModel {
        value: combined_value(m, cpu_color, player_color),
        children: filled_children(m.children, cpu_color, player_color),
        ..m
    }
}

pub open spec fn filled_children(
    s: Seq<NodeModel>,
    cpu_color: TokenColor,
    player_color: TokenColor,
) -> Seq<NodeModel>
    decreases s, 0int,
{
    if s.len() == 0 {
        Seq::empty()
    } else {
        filled_children(s.subrange(0, s.len() - 1), cpu_color, player_color).push(
            if s[s.len() - 1].value is Some {
                s[s.len() - 1]
            } else {
                filled(s[s.len() - 1], cpu_color, player_color)
            },
        )
    }
}

/// The valued children, element by element.
pub proof fn lemma_filled_children(s: Seq<NodeModel>, cpu_color: TokenColor, player_color: TokenColor)
    ensures
        filled_children(s, cpu_color, player_color).len() == s.len(),
        forall|i: int|
            0 <= i < s.len() ==> filled_children(s, cpu_color, player_color)[i] == (if (
            #[trigger] s[i]).value is Some {
                s[i]
            } else {
                filled(s[i], cpu_color, player_color)
            }),
    decreases s.len(),
{
    if s.len() > 0 {
        lemma_filled_children(s.subrange(0, s.len() - 1), cpu_color, player_color);
        assert forall|i: int|
            0 <= i < s.len() implies filled_children(s, cpu_color, player_color)[i] == (if (
        #[trigger] s[i]).value is Some {
            s[i]
        } else {
            filled(s[i], cpu_color, player_color)
        }) by {
            if i < s.len() - 1 {
                assert(s.subrange(0, s.len() - 1)[i] == s[i]);
            }
        }
    }
}

impl Node {
    /// Builds a fully valued copy of the subtree: leaves get their
    /// leaf value, children that already carry a value keep it, and
    /// every other node gets the rules' combination of its children.
    pub(crate) fn valued_tree(n: &Node, cpu_color: TokenColor, player_color: TokenColor) -> (r:
        Result<Node, ValueError>)
        requires
            values_wf(n@),
        ensures
            r matches Ok(t) ==> t@ == filled(n@, cpu_color, player_color) && values_wf(t@),
            r is Ok <==> combined_value(n@, cpu_color, player_color) is Some,
        decreases *n,
    {
        if n.children.len() == 0 {
            let v = match n.status {
                GameStatus::Finished(c) => if c == cpu_color {
                    Value::win()
                } else {
                    Value::loss()
                },
                GameStatus::InProgress => Value::neutral(),
            };
            let t = Node {
                color: n.color,
                column: n.column,
                value: Some(v),
                children: Vec::new(),
                status: n.status,
            };
            proof {
                lemma_children_models(n.children@);
                lemma_children_models(t.children@);
                lemma_filled_children(n@.children, cpu_color, player_color);
                assert(v == leaf_value(n@.status, cpu_color));
                assert(t@.children =~= filled_children(n@.children, cpu_color, player_color));
                assert(t@ =~~= filled(n@, cpu_color, player_color));
            }
            return Ok(t);
        }
        proof {
            lemma_children_models(n.children@);
            lemma_resolved_values(n@.children, cpu_color, player_color);
        }
        let ghost children = n@.children;
        let ghost rvs = resolved_values(children, cpu_color, player_color);
        let mut new_children: Vec<Node> = Vec::new();
        let mut vs: Vec<Value> = Vec::new();
        let mut i: usize = 0;
        while i < n.children.len()
            invariant
                values_wf(n@),
                children == n@.children,
                rvs == resolved_values(children, cpu_color, player_color),
                rvs.len() == children.len(),
                forall|k: int|
                    0 <= k < children.len() ==> rvs[k] == resolved_value(
                        #[trigger] children[k],
                        cpu_color,
                        player_color,
                    ),
                children.len() == n.children@.len(),
                children.len() > 0,
                i <= children.len(),
                new_children@.len() == i,
                vs@.len() == i,
                forall|k: int|
                    0 <= k < i ==> (#[trigger] new_children@[k])@ == (if children[k].value
                        is Some {
                        children[k]
                    } else {
                        filled(children[k], cpu_color, player_color)
                    }),
                forall|k: int| 0 <= k < i ==> values_wf((#[trigger] new_children@[k])@),
                forall|k: int| 0 <= k < i ==> (#[trigger] rvs[k]) is Some,
                forall|k: int| 0 <= k < i ==> vs@[k] == (#[trigger] rvs[k])->0,
                forall|k: int| 0 <= k < i ==> (#[trigger] vs@[k]).wf(),
            decreases children.len() - i,
        {
            proof {
                lemma_children_models(n.children@);
                assert(values_wf(children[i as int]));
            }
            let child = &n.children[i];
            match child.value {
                Some(v) => {
                    let cloned = child.clone();
                    proof {
                        assert(rvs[i as int] == Some(v));
                        assert(v.wf());
                    }
                    vs.push(v);
                    new_children.push(cloned);
                },
                None => {
                    match Self::valued_tree(child, cpu_color, player_color) {
                        Ok(t) => {
                            proof {
                                assert(rvs[i as int] == combined_value(
                                    children[i as int],
                                    cpu_color,
                                    player_color,
                                ));
                                assert(t@.value == rvs[i as int]);
                            }
                            let vv = match t.value {
                                Some(x) => x,
                                None => {
                                    proof {
                                        assert(false);
                                    }
                                    Value::neutral()
                                },
                            };
                            vs.push(vv);
                            new_children.push(t);
                        },
                        Err(e) => {
                            proof {
                                assert(rvs[i as int] is None);
                                assert(!all_some(rvs));
                                assert(combined_value(n@, cpu_color, player_color) is None);
                            }
                            return Err(e);
                        },
                    }
                },
            }
            i = i + 1;
        }
        proof {
            assert(all_some(rvs));
            assert(vs@ =~= unwrap_values(rvs));
            assert(all_wf(vs@));
        }

        // Evaluate the rules' conditions over the children's values.
        let mut any_win = false;
        let mut any_loss = false;
        let mut all_w = true;
        let mut all_l = true;
        let mut k: usize = 0;
        while k < vs.len()
            invariant
                children == n@.children,
                children.len() == n.children@.len(),
                vs@.len() == children.len(),
                forall|j: int| 0 <= j < vs@.len() ==> (#[trigger] vs@[j]).wf(),
                k <= vs@.len(),
                any_win == (exists|j: int|
                    0 <= j < k && (#[trigger] vs@[j]).is_win() && children[j].color == cpu_color),
                any_loss == (exists|j: int|
                    0 <= j < k && (#[trigger] vs@[j]).is_loss() && children[j].color
                        == player_color),
                all_w == (forall|j: int| 0 <= j < k ==> (#[trigger] vs@[j]).is_win()),
                all_l == (forall|j: int| 0 <= j < k ==> (#[trigger] vs@[j]).is_loss()),
            decreases vs@.len() - k,
        {
            proof {
                lemma_children_models(n.children@);
            }
            let v = vs[k];
            let child_color = n.children[k].color;
            proof {
                assert(child_color == children[k as int].color);
            }
            let cw = v.equals_win();
            let cl = v.equals_loss();
            if cw && child_color == cpu_color {
                any_win = true;
            }
            if cl && child_color == player_color {
                any_loss = true;
            }
            if !cw {
                all_w = false;
            }
            if !cl {
                all_l = false;
            }
            k = k + 1;
        }
        proof {
            assert(any_win == rule_win_exists(children, vs@, cpu_color));
            assert(any_loss == rule_loss_exists(children, vs@, player_color));
            assert(all_w == all_wins(vs@));
            assert(all_l == all_losses(vs@));
        }

        // Apply the rules in their fixed precedence.
        let value: Value;
        if any_win {
            value = Value::win();
        } else if any_loss {
            value = Value::loss();
        } else if all_w {
            value = Value::win();
        } else if all_l {
            value = Value::loss();
        } else {
            match mean_value(&vs) {
                Ok(v) => {
                    value = v;
                },
                Err(e) => {
                    proof {
                        assert(combine_rules(children, vs@, cpu_color, player_color) is None);
                        assert(combined_value(n@, cpu_color, player_color) is None);
                    }
                    return Err(e);
                },
            }
        }
        let t = Node {
            color: n.color,
            column: n.column,
            value: Some(value),
            children: new_children,
            status: n.status,
        };
        proof {
            lemma_children_models(t.children@);
            lemma_children_models(n.children@);
            lemma_filled_children(children, cpu_color, player_color);
            assert(t@.children =~= filled_children(children, cpu_color, player_color));
            assert(combined_value(n@, cpu_color, player_color) == Some(value));
            assert(t@ =~~= filled(n@, cpu_color, player_color));
            assert(values_wf(t@));
        }
        Ok(t)
    }

    /// Values the whole subtree bottom-up by the fixed combination
    /// rule. On success the tree holds its combined value and every
    /// child that lacked one is valued too; when some exact fraction
    /// does not fit the representation, an error is returned and the
    /// tree is left untouched.
    pub fn calculate_value(
        self: &mut Self,
        cpu_color: TokenColor,
        player_color: TokenColor,
    ) -> (r: Result<(), ValueError>)
        requires
            values_wf(old(self)@),
        ensures
            r is Ok <==> combined_value(old(self)@, cpu_color, player_color) is Some,
            r is Ok ==> final(self)@ == filled(old(self)@, cpu_color, player_color) && values_wf(
                final(self)@,
            ),
            r is Err ==> final(self)@ == old(self)@,
    {
        match Self::valued_tree(self, cpu_color, player_color) {
            Ok(t) => {
                *self = t;
                Ok(())
            },
            Err(e) => Err(e),
        }
    }
}

/// Value propagation is deterministic and stable: once a tree has been
/// valued, valuing it again computes exactly the same tree — same
/// values at the root and at every child, with no hidden state.
#[verifier::rlimit(50)]
pub proof fn lemma_revaluation_stable(m: NodeModel, cpu_color: TokenColor, player_color: TokenColor)
    requires
        combined_value(m, cpu_color, player_color) is Some,
    ensures
        filled(filled(m, cpu_color, player_color), cpu_color, player_color) == filled(
            m,
            cpu_color,
            player_color,
        ),
{
    let f = filled(m, cpu_color, player_color);
    lemma_filled_children(m.children, cpu_color, player_color);
    lemma_resolved_values(m.children, cpu_color, player_color);
    lemma_filled_children(f.children, cpu_color, player_color);
    lemma_resolved_values(f.children, cpu_color, player_color);
    if m.children.len() == 0 {
        assert(f.children =~= m.children);
        assert(filled(f, cpu_color, player_color) =~~= f);
    } else {
        let rvs = resolved_values(m.children, cpu_color, player_color);
        assert(all_some(rvs));
        // Every child of the valued tree carries a value, and it is the
        // value the child contributed the first time.
        assert forall|i: int| 0 <= i < f.children.len() implies (#[trigger] f.children[i]).value
            == rvs[i] && f.children[i].color == m.children[i].color by {
            if m.children[i].value is Some {
                assert(f.children[i] == m.children[i]);
            } else {
                assert(f.children[i] == filled(m.children[i], cpu_color, player_color));
            }
        }
        let rvs2 = resolved_values(f.children, cpu_color, player_color);
        assert forall|i: int| 0 <= i < rvs2.len() implies rvs2[i] == rvs[i] by {
            assert(f.children[i].value == rvs[i]);
            assert(rvs[i] is Some);
        }
        assert(rvs2 =~= rvs);
        let vs = unwrap_values(rvs);
        assert(unwrap_values(rvs2) =~= vs);
        // The rules read only the children's values and colors, and
        // both are unchanged.
        assert(rule_win_exists(f.children, vs, cpu_color) == rule_win_exists(
            m.children,
            vs,
            cpu_color,
        )) by {
            if rule_win_exists(f.children, vs, cpu_color) {
                let i = choose|i: int|
                    0 <= i < f.children.len() && (#[trigger] vs[i]).is_win() && f.children[i].color
                        == cpu_color;
                assert(0 <= i < m.children.len() && vs[i].is_win() && m.children[i].color
                    == cpu_color);
            }
            if rule_win_exists(m.children, vs, cpu_color) {
                let i = choose|i: int|
                    0 <= i < m.children.len() && (#[trigger] vs[i]).is_win() && m.children[i].color
                        == cpu_color;
                assert(0 <= i < f.children.len() && vs[i].is_win() && f.children[i].color
                    == cpu_color);
            }
        }
        assert(rule_loss_exists(f.children, vs, player_color) == rule_loss_exists(
            m.children,
            vs,
            player_color,
        )) by {
            if rule_loss_exists(f.children, vs, player_color) {
                let i = choose|i: int|
                    0 <= i < f.children.len() && (#[trigger] vs[i]).is_loss() && f.children[i].color
                        == player_color;
                assert(0 <= i < m.children.len() && vs[i].is_loss() && m.children[i].color
                    == player_color);
            }
            if rule_loss_exists(m.children, vs, player_color) {
                let i = choose|i: int|
                    0 <= i < m.children.len() && (#[trigger] vs[i]).is_loss() && m.children[i].color
                        == player_color;
                assert(0 <= i < f.children.len() && vs[i].is_loss() && f.children[i].color
                    == player_color);
            }
        }
        assert(combined_value(f, cpu_color, player_color) == combined_value(
            m,
            cpu_color,
            player_color,
        ));
        // Every child of the valued tree already carries a value, so a
        // second pass leaves the children untouched.
        assert(filled_children(f.children, cpu_color, player_color) =~= f.children);
        assert(filled(f, cpu_color, player_color) =~~= f);
    }
}

/// Rule 3 stands on its own: a node all of whose children hold the
/// value +1 combines to +1 even when no child's mover-color equals the
/// cpu color.
pub proof fn lemma_all_win_children(m: NodeModel, cpu_color: TokenColor, player_color: TokenColor)
    requires
        values_wf(m),
        m.children.len() > 0,
        forall|i: int|
            0 <= i < m.children.len() ==> ((#[trigger] m.children[i]).value matches Some(v)
                && v.is_win()),
    ensures
        combined_value(m, cpu_color, player_color) == Some(Value { num: 1i64, den: 1i64 }),
{
    lemma_resolved_values(m.children, cpu_color, player_color);
    let rvs = resolved_values(m.children, cpu_color, player_color);
    assert forall|i: int| 0 <= i < rvs.len() implies (#[trigger] rvs[i]) is Some by {
        assert(m.children[i].value is Some);
    }
    let vs = unwrap_values(rvs);
    assert forall|i: int| 0 <= i < vs.len() implies (#[trigger] vs[i]).is_win() by {
        assert((m.children[i].value matches Some(v) && v.is_win()));
    }
    // A well-formed value cannot be +1 and -1 at once, so rule 2 never
    // fires on these children.
    assert(!rule_loss_exists(m.children, vs, player_color)) by {
        if rule_loss_exists(m.children, vs, player_color) {
            let i = choose|i: int|
                0 <= i < m.children.len() && (#[trigger] vs[i]).is_loss() && m.children[i].color
                    == player_color;
            assert(values_wf(m.children[i]));
            assert(vs[i].wf());
            assert(vs[i].is_win() && vs[i].is_loss());
            assert(false);
        }
    }
    if rule_win_exists(m.children, vs, cpu_color) {
        assert(combined_value(m, cpu_color, player_color) == Some(Value { num: 1i64, den: 1i64 }));
    } else {
        assert(all_wins(vs));
    }
}

impl Clone for Node {
    /// A deep copy of the whole subtree.
    fn clone(&self) -> (n: Node)
        ensures
            n@ == self@,
        decreases *self,
    {
        let mut children: Vec<Node> = Vec::new();
        let mut i: usize = 0;
        while i < self.children.len()
            invariant
                children@.len() == i,
                i <= self.children@.len(),
                forall|k: int| 0 <= k < i ==> (#[trigger] children@[k])@ == self@.children[k],
            decreases self.children@.len() - i,
        {
            proof {
                lemma_children_models(self.children@);
            }
            children.push(self.children[i].clone());
            i = i + 1;
        }
        let n = Node {
            color: self.color,
            column: self.column,
            value: self.value,
            children,
            status: self.status,
        };
        proof {
            lemma_children_models(n.children@);
            lemma_children_models(self.children@);
            assert(n@.children =~= self@.children);
            assert(n@ =~~= self@);
        }
        n
    }
}

} // verus!
