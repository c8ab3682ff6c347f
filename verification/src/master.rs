use crate::board::{Board, BoardModel, GameStatus, MoveError, TokenColor};
use crate::node::{
    combined_value, expansion, filled, lemma_children_models, lemma_expansion_props, values_wf,
    Node, NodeModel,
};
use crate::value::ValueError;
use crate::task::Assignment;
use crate::value::Value;
use vstd::prelude::*;
use vstd::seq_lib::group_seq_properties;

verus! {

/// The coordinator's game state: its live board and the two fixed
/// colors — the coordinator plays red, the human plays yellow.
pub struct Master {
    board: Board,
    cpu_color: TokenColor,
    player_color: TokenColor,
}

impl Master {
    pub closed spec fn board_model(self) -> BoardModel {
        self.board@
    }

    pub closed spec fn spec_cpu(self) -> TokenColor {
        self.cpu_color
    }

    pub closed spec fn spec_player(self) -> TokenColor {
        self.player_color
    }

    /// The coordinator's invariant: a well-formed board with at least
    /// one row, the coordinator on red and the human on yellow.
    pub open spec fn wf(self) -> bool {
        &&& self.board_model().wf()
        &&& self.board_model().rows >= 1
        &&& self.spec_cpu() == TokenColor::Red
        &&& self.spec_player() == TokenColor::Yellow
    }

    pub fn new(board: Board) -> (m: Master)
        requires
            board@.wf(),
            board@.rows >= 1,
        ensures
            m.board_model() == board@,
            m.spec_cpu() == TokenColor::Red,
            m.spec_player() == TokenColor::Yellow,
            m.wf(),
    {
        Master { board, cpu_color: TokenColor::Red, player_color: TokenColor::Yellow }
    }

    /// The live board, for display.
    pub fn board(&self) -> (b: &Board)
        ensures
            b@ == self.board_model(),
    {
        &self.board
    }

    /// Applies the human's validated move to the live board.
    pub fn player_move(&mut self, column: usize) -> (r: Result<(), MoveError>)
        requires
            old(self).wf(),
        ensures
            final(self).wf(),
            final(self).spec_cpu() == old(self).spec_cpu(),
            final(self).spec_player() == old(self).spec_player(),
            r is Ok <==> old(self).board_model().legal(column as int),
            r is Ok ==> final(self).board_model() == old(self).board_model().after_move(
                column as int,
                old(self).spec_player(),
            ),
            r is Err ==> final(self).board_model() == old(self).board_model(),
    {
        self.board.make_move(column, self.player_color)
    }

    /// Applies the coordinator's own chosen move to the live board.
    pub fn cpu_move(&mut self, column: usize) -> (r: Result<(), MoveError>)
        requires
            old(self).wf(),
        ensures
            final(self).wf(),
            final(self).spec_cpu() == old(self).spec_cpu(),
            final(self).spec_player() == old(self).spec_player(),
            r is Ok <==> old(self).board_model().legal(column as int),
            r is Ok ==> final(self).board_model() == old(self).board_model().after_move(
                column as int,
                old(self).spec_cpu(),
            ),
            r is Err ==> final(self).board_model() == old(self).board_model(),
    {
        self.board.make_move(column, self.cpu_color)
    }

    /// The live board's derived status.
    pub fn game_status(&self) -> (s: GameStatus)
        requires
            self.wf(),
        ensures
            s == self.board_model().status(),
    {
        self.board.get_status()
    }
}

/// A ply-1/ply-2 pair of the shallow tree that yields a task: both
/// indexes in bounds, and the second-ply continuation still open.
pub open spec fn qualifying(children: Seq<NodeModel>, i: int, j: int) -> bool {
    &&& 0 <= i < children.len()
    &&& 0 <= j < children[i].children.len()
    &&& children[i].children[j].status is InProgress
}

/// The pair `p` comes lexicographically before `(i, j)`.
pub open spec fn pair_before(p: (usize, usize), i: int, j: int) -> bool {
    p.0 < i || (p.0 == i && p.1 < j)
}

impl Master {
    /// One turn's planning: builds the two-ply shallow tree rooted at
    /// the human move just played — ply 1 the coordinator's replies,
    /// ply 2 the human's replies to each — and one task per legal,
    /// non-terminal ply-2 continuation, each carrying a board cloned
    /// forward through both plies and its merge coordinates. Every
    /// qualifying pair yields exactly one task. The live board leaves
    /// exactly as it came.
    pub fn plan(&mut self, column: usize) -> (r: (Node, Vec<Assignment>))
        requires
            old(self).wf(),
        ensures
            final(self).wf(),
            final(self).board_model() == old(self).board_model(),
            final(self).spec_cpu() == old(self).spec_cpu(),
            final(self).spec_player() == old(self).spec_player(),
            r.0@ == (NodeModel {
                color: old(self).spec_player(),
                column: column as int,
                value: None::<Value>,
                children: expansion(old(self).board_model(), old(self).spec_player(), 1, 0),
                status: GameStatus::InProgress,
            }),
            ({
                let b0 = old(self).board_model();
                let children = expansion(b0, old(self).spec_player(), 1, 0);
                &&& forall|k: int|
                    0 <= k < r.1@.len() ==> {
                        let a = #[trigger] r.1@[k];
                        &&& qualifying(children, a.indexes.0 as int, a.indexes.1 as int)
                        &&& a.node@ == children[a.indexes.0 as int].children[a.indexes.1 as int]
                        &&& a.board@ == b0.after_move(
                            children[a.indexes.0 as int].column,
                            old(self).spec_cpu(),
                        ).after_move(
                            children[a.indexes.0 as int].children[a.indexes.1 as int].column,
                            old(self).spec_player(),
                        )
                        &&& a.board@.wf()
                        &&& a.board@.rows >= 1
                        &&& values_wf(a.node@)
                    }
                &&& forall|i: int, j: int|
                    qualifying(children, i, j) ==> exists|k: int|
                        0 <= k < r.1@.len() && (#[trigger] r.1@[k]).indexes.0 == i
                            && r.1@[k].indexes.1 == j
                &&& forall|k1: int, k2: int|
                    0 <= k1 < k2 < r.1@.len() ==> (#[trigger] r.1@[k1]).indexes != (
                    #[trigger] r.1@[k2]).indexes
            }),
    {
        let ghost b0 = self.board@;
        let ghost cpu = self.cpu_color;
        let ghost player = self.player_color;
        let mut root = Node::new(self.player_color, column, GameStatus::InProgress);
        root.build_tree(&mut self.board, 1, 0);
        let ghost children = expansion(b0, player, 1, 0);
        proof {
            assert(root@.children =~= children);
            lemma_children_models(root.children@);
            lemma_expansion_props(b0, player, 1, 0, 0);
            assert(player.spec_invert() == cpu);
        }
        let mut tasks: Vec<Assignment> = Vec::new();
        let mut i: usize = 0;
        while i < root.children.len()
            invariant
                self.board@ == b0,
                self.cpu_color == cpu,
                self.player_color == player,
                b0.wf(),
                b0.rows >= 1,
                cpu == TokenColor::Red,
                player == TokenColor::Yellow,
                player.spec_invert() == cpu,
                root@.children == children,
                children == expansion(b0, player, 1, 0),
                root.children@.len() == children.len(),
                i <= children.len(),
                forall|k: int|
                    0 <= k < tasks@.len() ==> {
                        let a = #[trigger] tasks@[k];
                        &&& qualifying(children, a.indexes.0 as int, a.indexes.1 as int)
                        &&& a.node@ == children[a.indexes.0 as int].children[a.indexes.1 as int]
                        &&& a.board@ == b0.after_move(
                            children[a.indexes.0 as int].column,
                            cpu,
                        ).after_move(
                            children[a.indexes.0 as int].children[a.indexes.1 as int].column,
                            player,
                        )
                        &&& a.board@.wf()
                        &&& a.board@.rows >= 1
                        &&& values_wf(a.node@)
                        &&& pair_before(a.indexes, i as int, 0)
                    },
                forall|a: int, b: int|
                    qualifying(children, a, b) && a < i ==> exists|k: int|
                        0 <= k < tasks@.len() && (#[trigger] tasks@[k]).indexes.0 == a
                            && tasks@[k].indexes.1 == b,
                forall|k1: int, k2: int|
                    0 <= k1 < k2 < tasks@.len() ==> (#[trigger] tasks@[k1]).indexes != (
                    #[trigger] tasks@[k2]).indexes,
            decreases children.len() - i,
        {
            proof {
                lemma_children_models(root.children@);
                lemma_expansion_props(b0, player, 1, 0, 0);
            }
            let ghost child1 = children[i as int];
            let ghost b1 = b0.after_move(child1.column, cpu);
            let inner_len = root.children[i].children.len();
            proof {
                lemma_children_models(root.children[i as int].children@);
                assert(root@.children[i as int] == child1);
                assert(child1.children.len() == inner_len);
                if inner_len > 0 {
                    assert(child1.status is InProgress);
                    assert(child1.children == expansion(
                        b0.after_move(child1.column, player.spec_invert()),
                        player.spec_invert(),
                        1,
                        1,
                    ));
                    lemma_expansion_props(b1, cpu, 1, 1, 0);
                }
            }
            let mut j: usize = 0;
            while j < inner_len
                invariant
                    self.board@ == b0,
                    self.cpu_color == cpu,
                    self.player_color == player,
                    b0.wf(),
                    b0.rows >= 1,
                    cpu == TokenColor::Red,
                    player == TokenColor::Yellow,
                    player.spec_invert() == cpu,
                    root@.children == children,
                    children == expansion(b0, player, 1, 0),
                    root.children@.len() == children.len(),
                    i < children.len(),
                    child1 == children[i as int],
                    root@.children[i as int] == child1,
                    b1 == b0.after_move(child1.column, cpu),
                    inner_len == child1.children.len(),
                    j <= inner_len,
                    inner_len > 0 ==> child1.children == expansion(b1, cpu, 1, 1),
                    b0.legal(child1.column),
                    forall|k: int|
                        0 <= k < tasks@.len() ==> {
                            let a = #[trigger] tasks@[k];
                            &&& qualifying(children, a.indexes.0 as int, a.indexes.1 as int)
                            &&& a.node@ == children[a.indexes.0 as int].children[a.indexes.1 as int]
                            &&& a.board@ == b0.after_move(
                                children[a.indexes.0 as int].column,
                                cpu,
                            ).after_move(
                                children[a.indexes.0 as int].children[a.indexes.1 as int].column,
                                player,
                            )
                            &&& a.board@.wf()
                            &&& a.board@.rows >= 1
                            &&& values_wf(a.node@)
                            &&& pair_before(a.indexes, i as int, j as int)
                        },
                    forall|a: int, b: int|
                        qualifying(children, a, b) && a < i ==> exists|k: int|
                            0 <= k < tasks@.len() && (#[trigger] tasks@[k]).indexes.0 == a
                                && tasks@[k].indexes.1 == b,
                    forall|b: int|
                        qualifying(children, i as int, b) && b < j ==> exists|k: int|
                            0 <= k < tasks@.len() && (#[trigger] tasks@[k]).indexes.0 == i
                                && tasks@[k].indexes.1 == b,
                    forall|k1: int, k2: int|
                        0 <= k1 < k2 < tasks@.len() ==> (#[trigger] tasks@[k1]).indexes != (
                        #[trigger] tasks@[k2]).indexes,
                decreases inner_len - j,
            {
                proof {
                    lemma_children_models(root.children@);
                    lemma_children_models(root.children[i as int].children@);
                    assert(root@.children[i as int].children[j as int] == child1.children[j as int]);
                    lemma_expansion_props(b1, cpu, 1, 1, 0);
                }
                let ghost child2 = child1.children[j as int];
                let is_open = matches!(root.children[i].children[j].status, GameStatus::InProgress);
                if is_open {
                    let mut board_clone = self.board.clone();
                    let res1 = board_clone.make_move(root.children[i].column, self.cpu_color);
                    proof {
                        assert(res1 is Ok);
                        assert(board_clone@ == b1);
                        assert(b1.legal(child2.column));
                    }
                    let res2 = board_clone.make_move(
                        root.children[i].children[j].column,
                        self.player_color,
                    );
                    proof {
                        assert(res2 is Ok);
                        assert(board_clone@ == b1.after_move(child2.column, player));
                    }
                    let node_clone = root.children[i].children[j].clone();
                    proof {
                        assert(node_clone@ == child2);
                        assert(values_wf(child2));
                    }
                    let a = Assignment::new(node_clone, board_clone, (i, j));
                    let ghost av = a;
                    let ghost tasks_pre = tasks@;
                    tasks.push(a);
                    proof {
                        assert(tasks@ == tasks_pre.push(av));
                        assert forall|k: int| 0 <= k < tasks_pre.len() implies tasks@[k]
                            == tasks_pre[k] by {}
                        assert(tasks@[tasks_pre.len() as int] == av);
                        assert(av.indexes.0 == i && av.indexes.1 == j);
                        assert(av.node@ == child2);
                        assert(av.board@ == b0.after_move(child1.column, cpu).after_move(
                            child2.column,
                            player,
                        ));
                        assert(av.board@.rows == b0.rows);
                        assert forall|a2: int, b2: int|
                            qualifying(children, a2, b2) && a2 < i implies exists|k: int|
                            0 <= k < tasks@.len() && (#[trigger] tasks@[k]).indexes.0 == a2
                                && tasks@[k].indexes.1 == b2 by {
                            let k0 = choose|k0: int|
                                0 <= k0 < tasks_pre.len() && (#[trigger] tasks_pre[k0]).indexes.0
                                    == a2 && tasks_pre[k0].indexes.1 == b2;
                            assert(tasks@[k0].indexes.0 == a2 && tasks@[k0].indexes.1 == b2);
                        }
                        assert forall|b2: int|
                            qualifying(children, i as int, b2) && b2 < j + 1 implies exists|k: int|
                            0 <= k < tasks@.len() && (#[trigger] tasks@[k]).indexes.0 == i
                                && tasks@[k].indexes.1 == b2 by {
                            if b2 < j {
                                let k0 = choose|k0: int|
                                    0 <= k0 < tasks_pre.len() && (#[trigger] tasks_pre[k0]).indexes.0
                                        == i && tasks_pre[k0].indexes.1 == b2;
                                assert(tasks@[k0].indexes.0 == i && tasks@[k0].indexes.1 == b2);
                            } else {
                                assert(tasks@[tasks_pre.len() as int].indexes.0 == i
                                    && tasks@[tasks_pre.len() as int].indexes.1 == b2);
                            }
                        }
                    }
                } else {
                    proof {
                        assert(!qualifying(children, i as int, j as int));
                    }
                }
                j = j + 1;
            }
            proof {
                // Every qualifying pair of column `i` lies below `inner_len`.
                assert forall|b: int| qualifying(children, i as int, b) && b < inner_len implies b
                    < j by {}
            }
            i = i + 1;
        }
        proof {
            assert(root@ =~~= NodeModel {
                color: player,
                column: column as int,
                value: None::<Value>,
                children,
                status: GameStatus::InProgress,
            });
        }
        (root, tasks)
    }
}

/// `m` with `child` put into the `(i, j)` slot of its two-level
/// children array.
pub open spec fn merge_step(m: NodeModel, i: int, j: int, child: NodeModel) -> NodeModel {
    NodeModel {
        children: m.children.update(
            i,
            NodeModel { children: m.children[i].children.update(j, child), ..m.children[i] },
        ),
        ..m
    }
}

/// The response's merge coordinates point into a real slot of `m`.
pub open spec fn response_in_bounds(m: NodeModel, a: Assignment) -> bool {
    &&& (a.indexes.0 as int) < m.children.len()
    &&& (a.indexes.1 as int) < m.children[a.indexes.0 as int].children.len()
}

/// `m` after merging the first `k` responses, in order, each into its
/// own `(i, j)` slot.
pub open spec fn merged(m: NodeModel, rs: Seq<Assignment>, k: int) -> NodeModel
    decreases k,
{
    if k <= 0 {
        m
    } else {
        let prev = merged(m, rs, k - 1);
        merge_step(prev, rs[k - 1].indexes.0 as int, rs[k - 1].indexes.1 as int, rs[k - 1].node@)
    }
}

/// Merging never changes the shape of the two-level children array,
/// only the subtrees in its slots.
proof fn lemma_merged_shape(m: NodeModel, rs: Seq<Assignment>, k: int)
    requires
        k <= rs.len(),
        forall|t: int| 0 <= t < rs.len() ==> response_in_bounds(m, #[trigger] rs[t]),
    ensures
        merged(m, rs, k).children.len() == m.children.len(),
        forall|i: int|
            0 <= i < m.children.len() ==> (#[trigger] merged(m, rs, k).children[i]).children.len()
                == m.children[i].children.len(),
    decreases k,
{
    if k > 0 {
        lemma_merged_shape(m, rs, k - 1);
    }
}

/// Places every returned subtree back into its own `(i, j)` slot of
/// the shallow tree, overwriting the depth-limited stub there; merge
/// order is the responses' order, so out-of-order completion across
/// workers is safe.
pub fn merge_responses(root: &mut Node, responses: &Vec<Assignment>)
    requires
        forall|k: int|
            0 <= k < responses@.len() ==> response_in_bounds(old(root)@, #[trigger] responses@[k]),
    ensures
        final(root)@ == merged(old(root)@, responses@, responses@.len() as int),
{
    let ghost m0 = root@;
    proof {
        lemma_children_models(root.children@);
    }
    let mut k: usize = 0;
    while k < responses.len()
        invariant
            m0 == old(root)@,
            forall|t: int|
                0 <= t < responses@.len() ==> response_in_bounds(m0, #[trigger] responses@[t]),
            k <= responses@.len(),
            root@ == merged(m0, responses@, k as int),
            root.children@.len() == m0.children.len(),
        decreases responses@.len() - k,
    {
        let ghost prev = root@;
        proof {
            lemma_merged_shape(m0, responses@, k as int);
            lemma_children_models(root.children@);
        }
        let a = &responses[k];
        let ii = a.indexes.0;
        let jj = a.indexes.1;
        let node_clone = a.node.clone();
        let mut child = root.children[ii].clone();
        proof {
            assert(child@ == prev.children[ii as int]);
            lemma_children_models(child.children@);
        }
        let ghost child_pre = child@;
        child.children.set(jj, node_clone);
        proof {
            lemma_children_models(child.children@);
            assert(child@.children =~= child_pre.children.update(jj as int, node_clone@));
            assert(child@ =~~= NodeModel {
                children: child_pre.children.update(jj as int, node_clone@),
                ..child_pre
            });
        }
        let ghost child_m = child@;
        root.children.set(ii, child);
        proof {
            lemma_children_models(root.children@);
            assert(root@.children =~= prev.children.update(ii as int, child_m));
            assert(root@ =~~= merge_step(
                prev,
                ii as int,
                jj as int,
                responses@[k as int].node@,
            ));
        }
        k = k + 1;
    }
}

/// The values the ply-1 children combine to.
pub open spec fn child_values(
    children: Seq<NodeModel>,
    cpu_color: TokenColor,
    player_color: TokenColor,
) -> Seq<Value> {
    Seq::new(children.len(), |i: int| combined_value(children[i], cpu_color, player_color)->0)
}

/// The ply-1 children after the per-child valuation pass.
pub open spec fn filled_row(
    children: Seq<NodeModel>,
    cpu_color: TokenColor,
    player_color: TokenColor,
) -> Seq<NodeModel> {
    Seq::new(children.len(), |i: int| filled(children[i], cpu_color, player_color))
}

/// The index of the child with the strictly greatest value; among
/// equally valued children the first seen wins.
pub open spec fn best_index(vals: Seq<Value>) -> int
    decreases vals.len(),
{
    if vals.len() <= 1 {
        0
    } else {
        let b = best_index(vals.drop_last());
        if vals[b].spec_lt(vals.last()) {
            vals.len() - 1
        } else {
            b
        }
    }
}

proof fn lemma_best_index_bounds(vals: Seq<Value>)
    requires
        vals.len() > 0,
    ensures
        0 <= best_index(vals) < vals.len(),
    decreases vals.len(),
{
    if vals.len() > 1 {
        lemma_best_index_bounds(vals.drop_last());
    }
}

impl Master {
    /// Values every ply-1 child of the merged shallow tree by the
    /// fixed combination rule and selects the column of the child with
    /// the strictly greatest value, first seen winning ties. On an
    /// error — some exact fraction did not fit — the tree is left
    /// untouched.
    pub fn calculate_best_move(&self, root: &mut Node) -> (r: Result<usize, ValueError>)
        requires
            self.wf(),
            values_wf(old(root)@),
            old(root)@.children.len() > 0,
        ensures
            r is Ok <==> (forall|i: int|
                0 <= i < old(root)@.children.len() ==> combined_value(
                    #[trigger] old(root)@.children[i],
                    self.spec_cpu(),
                    self.spec_player(),
                ) is Some),
            r matches Ok(col) ==> ({
                let vals = child_values(
                    old(root)@.children,
                    self.spec_cpu(),
                    self.spec_player(),
                );
                &&& final(root)@ == (NodeModel {
                    children: filled_row(
                        old(root)@.children,
                        self.spec_cpu(),
                        self.spec_player(),
                    ),
                    ..old(root)@
                })
                &&& col == old(root)@.children[best_index(vals)].column
            }),
            r is Err ==> final(root)@ == old(root)@,
    {
        let ghost m0 = root@;
        let ghost cpu = self.cpu_color;
        let ghost player = self.player_color;
        proof {
            lemma_children_models(root.children@);
        }
        let mut new_children: Vec<Node> = Vec::new();
        let mut i: usize = 0;
        while i < root.children.len()
            invariant
                m0 == old(root)@,
                cpu == self.spec_cpu(),
                player == self.spec_player(),
                root@ == m0,
                values_wf(m0),
                root.children@.len() == m0.children.len(),
                m0.children.len() > 0,
                i <= m0.children.len(),
                new_children@.len() == i,
                forall|k: int|
                    0 <= k < i ==> combined_value(#[trigger] m0.children[k], cpu, player) is Some,
                forall|k: int|
                    0 <= k < i ==> (#[trigger] new_children@[k])@ == filled(
                        m0.children[k],
                        cpu,
                        player,
                    ),
                forall|k: int| 0 <= k < i ==> values_wf((#[trigger] new_children@[k])@),
            decreases m0.children.len() - i,
        {
            proof {
                lemma_children_models(root.children@);
                assert(values_wf(m0.children[i as int]));
            }
            match Node::valued_tree(&root.children[i], self.cpu_color, self.player_color) {
                Ok(t) => {
                    new_children.push(t);
                },
                Err(e) => {
                    proof {
                        assert(combined_value(m0.children[i as int], cpu, player) is None);
                    }
                    return Err(e);
                },
            }
            i = i + 1;
        }
        let ghost vals = child_values(m0.children, cpu, player);
        proof {
            assert(vals.len() == m0.children.len());
            assert forall|t: int| 0 <= t < vals.len() implies (#[trigger] new_children@[t])@.value
                == Some(vals[t]) && vals[t].wf() by {
                assert(new_children@[t]@ == filled(m0.children[t], cpu, player));
                assert(values_wf(new_children@[t]@));
            }
        }
        let mut best: usize = 0;
        let mut k: usize = 1;
        proof {
            assert(best == best_index(vals.take(1)));
        }
        while k < new_children.len()
            invariant
                new_children@.len() == vals.len(),
                vals.len() >= 1,
                1 <= k <= vals.len(),
                0 <= best < k,
                forall|t: int|
                    0 <= t < vals.len() ==> (#[trigger] new_children@[t])@.value == Some(vals[t])
                        && vals[t].wf(),
                best == best_index(vals.take(k as int)),
            decreases vals.len() - k,
        {
            let vb = match new_children[best].value {
                Some(v) => v,
                None => {
                    proof {
                        assert(false);
                    }
                    Value::neutral()
                },
            };
            let vk = match new_children[k].value {
                Some(v) => v,
                None => {
                    proof {
                        assert(false);
                    }
                    Value::neutral()
                },
            };
            proof {
                assert(vals.take(k as int + 1).drop_last() =~= vals.take(k as int));
                assert(vals.take(k as int + 1).last() == vals[k as int]);
                lemma_best_index_bounds(vals.take(k as int + 1));
            }
            if vb.lt(&vk) {
                best = k;
            }
            k = k + 1;
        }
        proof {
            assert(vals.take(vals.len() as int) =~= vals);
            lemma_best_index_bounds(vals);
        }
        let col = new_children[best].column;
        proof {
            assert(new_children@[best as int]@ == filled(m0.children[best as int], cpu, player));
            assert(col == m0.children[best_index(vals)].column);
        }
        root.children = new_children;
        proof {
            lemma_children_models(root.children@);
            assert(root@.children =~= filled_row(m0.children, cpu, player));
            assert(root@ =~~= NodeModel { children: filled_row(m0.children, cpu, player), ..m0 });
        }
        Ok(col)
    }
}

/// The outstanding tasks of the ranks below `i`, summed.
pub open spec fn outstanding_to(s: Seq<usize>, i: int) -> int
    decreases i,
{
    if i <= 0 {
        0
    } else {
        outstanding_to(s, i - 1) + s[i - 1]
    }
}

/// The sum is nonnegative and bounds every one of its summands.
proof fn lemma_outstanding_element(s: Seq<usize>, j: int, i: int)
    requires
        0 <= i,
    ensures
        outstanding_to(s, i) >= 0,
        0 <= j < i ==> s[j] <= outstanding_to(s, i),
    decreases i,
{
    if i > 0 {
        lemma_outstanding_element(s, j, i - 1);
    }
}

/// How an update below `i` moves the sum.
proof fn lemma_outstanding_update(s: Seq<usize>, r: int, v: usize, i: int)
    requires
        0 <= r < s.len(),
        i <= s.len(),
    ensures
        outstanding_to(s.update(r, v), i) == if r < i {
            outstanding_to(s, i) - s[r] + v
        } else {
            outstanding_to(s, i)
        },
    decreases i,
{
    if i > 0 {
        lemma_outstanding_update(s, r, v, i - 1);
    }
}

/// A positive sum has a positive summand.
proof fn lemma_outstanding_pos(s: Seq<usize>, i: int)
    requires
        outstanding_to(s, i) > 0,
    ensures
        exists|j: int| 0 <= j < i && (#[trigger] s[j]) > 0,
    decreases i,
{
    if i > 0 && s[i - 1] == 0 {
        lemma_outstanding_pos(s, i - 1);
    }
}

/// The coordinator's dispatch state for one turn: the pending
/// assignments, the results returned so far, the count the result
/// barrier waits for, and — per rank of the process group — how many
/// handed-out tasks that rank still owes a result for.
///
/// The discipline that keeps workers fed and the coordinator
/// non-blocking: while tasks are pending, the ranks are polled
/// round-robin and every work request is answered with a task; once
/// the queue has drained, `next_source` names only ranks that still
/// owe a result, so a work request is never consumed without being
/// answered. A worker whose request goes unserved keeps it queued at
/// the transport, where the next turn's tasks or the end-of-game
/// shutdown answer it.
pub struct Dispatcher {
    tasks: Vec<Assignment>,
    results: Vec<Assignment>,
    task_count: usize,
    outstanding: Vec<usize>,
    my_rank: i32,
    size: i32,
    initial: Ghost<Seq<Assignment>>,
    handed: Ghost<Seq<Assignment>>,
}

impl Dispatcher {
    pub closed spec fn pending(self) -> Seq<Assignment> {
        self.tasks@
    }

    pub closed spec fn stored_results(self) -> Seq<Assignment> {
        self.results@
    }

    pub closed spec fn expected(self) -> nat {
        self.task_count as nat
    }

    pub closed spec fn dispatched(self) -> Seq<Assignment> {
        self.handed@
    }

    pub closed spec fn initial_tasks(self) -> Seq<Assignment> {
        self.initial@
    }

    pub closed spec fn outstanding_seq(self) -> Seq<usize> {
        self.outstanding@
    }

    pub closed spec fn spec_my_rank(self) -> int {
        self.my_rank as int
    }

    pub closed spec fn spec_size(self) -> int {
        self.size as int
    }

    /// The dispatch invariant: what is still pending plus what was
    /// handed out — newest first — is exactly the initial task list;
    /// the barrier expects one result per initial task; and every
    /// task is pending, outstanding at some worker rank, or returned:
    /// results + outstanding + pending always account for the whole
    /// turn.
    pub open spec fn inv(self) -> bool {
        &&& self.initial_tasks() == self.pending() + self.dispatched().reverse()
        &&& self.expected() == self.initial_tasks().len()
        &&& self.outstanding_seq().len() == self.spec_size()
        &&& 0 <= self.spec_my_rank() < self.spec_size()
        &&& self.spec_size() >= 2
        &&& self.outstanding_seq()[self.spec_my_rank()] == 0
        &&& self.stored_results().len() + outstanding_to(self.outstanding_seq(), self.spec_size())
            + self.pending().len() == self.expected()
    }

    pub fn new(tasks: Vec<Assignment>, my_rank: i32, size: i32) -> (d: Dispatcher)
        requires
            0 <= my_rank < size,
            size >= 2,
        ensures
            d.pending() == tasks@,
            d.stored_results() == Seq::<Assignment>::empty(),
            d.expected() == tasks@.len(),
            d.dispatched() == Seq::<Assignment>::empty(),
            d.initial_tasks() == tasks@,
            d.spec_my_rank() == my_rank,
            d.spec_size() == size,
            forall|r: int| 0 <= r < size ==> d.outstanding_seq()[r] == 0,
            d.inv(),
    {
        let task_count = tasks.len();
        let mut outstanding: Vec<usize> = Vec::new();
        let mut r: i32 = 0;
        while r < size
            invariant
                0 <= r <= size,
                outstanding@.len() == r,
                forall|q: int| 0 <= q < r ==> outstanding@[q] == 0,
                outstanding_to(outstanding@, r as int) == 0,
            decreases size - r,
        {
            let ghost pre = outstanding@;
            outstanding.push(0);
            proof {
                assert(outstanding_to(outstanding@, r as int + 1) == outstanding_to(pre, r as int))
                    by {
                    assert(outstanding@[r as int] == 0);
                    assert(forall|q: int| 0 <= q < r ==> outstanding@[q] == pre[q]);
                    lemma_outstanding_prefix_eq(pre, outstanding@, r as int);
                }
            }
            r = r + 1;
        }
        let d = Dispatcher {
            initial: Ghost(tasks@),
            handed: Ghost(Seq::empty()),
            tasks,
            results: Vec::new(),
            task_count,
            outstanding,
            my_rank,
            size,
        };
        proof {
            assert(d.initial_tasks() =~= d.pending() + d.dispatched().reverse());
        }
        d
    }

    /// How many handed-out tasks the given rank still owes a result
    /// for.
    pub fn outstanding_at(&self, rank: i32) -> (r: usize)
        requires
            self.inv(),
            0 <= rank < self.spec_size(),
        ensures
            r == self.outstanding_seq()[rank as int],
    {
        self.outstanding[rank as usize]
    }

    /// The rank the coordinator's next blocking receive must name.
    /// While tasks are pending, the round-robin step from `after`;
    /// once the queue has drained, the lowest rank still owing a
    /// result — resuming the sweep at the first worker rank and
    /// visiting only ranks that owe, until the barrier fills. A rank
    /// this names either gets a task for its request or owes a
    /// result, so its message can always be handled.
    pub fn next_source(&self, after: i32) -> (r: i32)
        requires
            self.inv(),
            self.stored_results().len() < self.expected(),
            0 <= after < self.spec_size(),
        ensures
            0 <= r < self.spec_size(),
            r != self.spec_my_rank(),
            self.pending().len() > 0 ==> r == spec_next_rank(
                after as int,
                self.spec_my_rank(),
                self.spec_size(),
            ),
            self.pending().len() == 0 ==> self.outstanding_seq()[r as int] > 0 && (forall|q: int|
                0 <= q < r ==> self.outstanding_seq()[q] == 0),
    {
        if self.tasks.len() > 0 {
            return next_rank(after, self.my_rank, self.size);
        }
        proof {
            assert(outstanding_to(self.outstanding_seq(), self.spec_size()) > 0) by {
                lemma_outstanding_element(self.outstanding_seq(), 0, self.spec_size());
            }
            lemma_outstanding_pos(self.outstanding_seq(), self.spec_size());
        }
        let mut r: i32 = 0;
        while r < self.size
            invariant
                self.inv(),
                self.pending().len() == 0,
                0 <= r <= self.spec_size(),
                forall|q: int| 0 <= q < r ==> self.outstanding_seq()[q] == 0,
                exists|j: int|
                    0 <= j < self.spec_size() && (#[trigger] self.outstanding_seq()[j]) > 0,
            decreases self.spec_size() - r,
        {
            if self.outstanding[r as usize] > 0 {
                return r;
            }
            r = r + 1;
        }
        // Unreachable: some rank owes a result while the barrier is
        // not yet full.
        proof {
            assert(false);
        }
        0
    }

    /// The named rank asked for work: hand it one pending task and
    /// record the debt. `None` only when the queue has drained — under
    /// this discipline the receive loop then never named the rank for
    /// a request, so a well-behaved peer cannot reach that answer.
    pub fn handle_request(&mut self, rank: i32) -> (r: Option<Assignment>)
        requires
            old(self).inv(),
            0 <= rank < old(self).spec_size(),
            rank != old(self).spec_my_rank(),
        ensures
            final(self).inv(),
            final(self).initial_tasks() == old(self).initial_tasks(),
            final(self).expected() == old(self).expected(),
            final(self).spec_my_rank() == old(self).spec_my_rank(),
            final(self).spec_size() == old(self).spec_size(),
            final(self).stored_results() == old(self).stored_results(),
            old(self).pending().len() == 0 ==> r is None
                && final(self).pending() == old(self).pending()
                && final(self).dispatched() == old(self).dispatched()
                && final(self).outstanding_seq() == old(self).outstanding_seq(),
            old(self).pending().len() > 0 ==> r == Some(old(self).pending().last())
                && final(self).pending() == old(self).pending().drop_last()
                && final(self).dispatched() == old(self).dispatched().push(old(self).pending().last())
                && final(self).outstanding_seq() == old(self).outstanding_seq().update(
                rank as int,
                (old(self).outstanding_seq()[rank as int] + 1) as usize,
            ),
    {
        let r = self.tasks.pop();
        match r {
            Some(task) => {
                let ghost pre = self.outstanding@;
                proof {
                    lemma_outstanding_element(pre, rank as int, self.spec_size());
                }
                let cur = self.outstanding[rank as usize];
                assert(cur < self.task_count);
                self.outstanding.set(rank as usize, cur + 1);
                proof {
                    self.handed@ = self.handed@.push(task);
                    lemma_outstanding_update(pre, rank as int, (cur + 1) as usize, self.spec_size());
                    assert(self.initial_tasks() =~= self.pending() + self.dispatched().reverse())
                        by {
                        broadcast use group_seq_properties;

                    }
                }
                Some(task)
            },
            None => None,
        }
    }

    /// The named rank returned a completed assignment: store it for
    /// the merge and clear the debt. Callers must have seen the rank
    /// owe a result; anything else is a corrupt or misbehaving peer.
    pub fn handle_result(&mut self, rank: i32, a: Assignment)
        requires
            old(self).inv(),
            0 <= rank < old(self).spec_size(),
            old(self).outstanding_seq()[rank as int] >= 1,
        ensures
            final(self).inv(),
            final(self).initial_tasks() == old(self).initial_tasks(),
            final(self).expected() == old(self).expected(),
            final(self).spec_my_rank() == old(self).spec_my_rank(),
            final(self).spec_size() == old(self).spec_size(),
            final(self).pending() == old(self).pending(),
            final(self).dispatched() == old(self).dispatched(),
            final(self).stored_results() == old(self).stored_results().push(a),
            final(self).outstanding_seq() == old(self).outstanding_seq().update(
                rank as int,
                (old(self).outstanding_seq()[rank as int] - 1) as usize,
            ),
    {
        let ghost pre = self.outstanding@;
        let cur = self.outstanding[rank as usize];
        self.outstanding.set(rank as usize, cur - 1);
        self.results.push(a);
        proof {
            lemma_outstanding_update(pre, rank as int, (cur - 1) as usize, self.spec_size());
            lemma_outstanding_element(pre, rank as int, self.spec_size());
        }
    }

    /// The result barrier: one result has come back for every task of
    /// the turn.
    pub fn is_complete(&self) -> (r: bool)
        ensures
            r == (self.stored_results().len() == self.expected()),
    {
        self.results.len() == self.task_count
    }

    /// Hands the stored results over for the merge.
    pub fn into_results(self) -> (r: Vec<Assignment>)
        ensures
            r@ == self.stored_results(),
    {
        self.results
    }

    /// Every task is dispatched exactly once, and the barrier really
    /// is a barrier: when one result per task has come back, nothing
    /// is pending and nothing is outstanding, and what was handed out
    /// is — as a multiset — exactly the initial task list, nothing
    /// dropped and nothing duplicated.
    pub proof fn lemma_dispatched_exactly_once(self)
        requires
            self.inv(),
            self.stored_results().len() == self.expected(),
        ensures
            self.pending().len() == 0,
            outstanding_to(self.outstanding_seq(), self.spec_size()) == 0,
            self.dispatched().to_multiset() == self.initial_tasks().to_multiset(),
    {
        lemma_outstanding_element(self.outstanding_seq(), 0, self.spec_size());
        assert(self.initial_tasks() =~= self.dispatched().reverse());
        self.dispatched().lemma_reverse_to_multiset();
    }
}

/// Sums agree on a shared prefix.
proof fn lemma_outstanding_prefix_eq(s1: Seq<usize>, s2: Seq<usize>, i: int)
    requires
        forall|q: int| 0 <= q < i ==> s1[q] == s2[q],
    ensures
        outstanding_to(s1, i) == outstanding_to(s2, i),
    decreases i,
{
    if i > 0 {
        lemma_outstanding_prefix_eq(s1, s2, i - 1);
    }
}

/// The next worker rank the round-robin dispatch polls: one step
/// around the ring of `size` ranks, never stopping on the
/// coordinator's own rank.
pub open spec fn spec_next_rank(rank: int, my_rank: int, size: int) -> int {
    let n = if rank + 1 >= size {
        0int
    } else {
        rank + 1
    };
    if n == my_rank {
        if n + 1 >= size {
            0int
        } else {
            n + 1
        }
    } else {
        n
    }
}

pub fn next_rank(rank: i32, my_rank: i32, size: i32) -> (r: i32)
    requires
        0 <= rank < size,
        0 <= my_rank < size,
        size >= 2,
    ensures
        r == spec_next_rank(rank as int, my_rank as int, size as int),
        0 <= r < size,
        r != my_rank,
{
    let mut n = if rank + 1 >= size {
        0
    } else {
        rank + 1
    };
    if n == my_rank {
        n = if n + 1 >= size {
            0
        } else {
            n + 1
        };
    }
    n
}

} // verus!
