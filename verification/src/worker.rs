use crate::board::TokenColor;
use crate::node::{combined_value, expansion, filled, values_wf, NodeModel};
use crate::tag::Tag;
use crate::task::Assignment;
use crate::value::ValueError;
use vstd::prelude::*;

verus! {

/// What a worker does with a reply from the coordinator: deep-expand a
/// delivered assignment, stop on the shutdown tag, or ignore anything
/// else and ask for work again.
#[derive(Clone, Copy, PartialEq, Eq, Structural, Debug)]
pub enum WorkerAction {
    Process,
    Stop,
    Ignore,
}

/// The worker's reply dispatch: the shutdown tag ends the loop, an
/// assignment-tagged reply is processed, and any other tag is ignored.
/// The shutdown may arrive in place of an ordinary assignment at any
/// point in the worker's loop.
pub fn reply_action(tag: Tag) -> (a: WorkerAction)
    ensures
        a == (match tag {
            Tag::Finished => WorkerAction::Stop,
            Tag::Response => WorkerAction::Process,
            _ => WorkerAction::Ignore,
        }),
{
    match tag {
        Tag::Finished => WorkerAction::Stop,
        Tag::Response => WorkerAction::Process,
        _ => WorkerAction::Ignore,
    }
}

/// The model of an assignment's node after the worker's deep
/// expansion, before valuation.
pub open spec fn deep_expanded(a: Assignment, depth: int) -> NodeModel {
    NodeModel {
        children: a.node@.children + expansion(a.board@, a.node@.color, depth, 0),
        ..a.node@
    }
}

/// One unit of worker work: deep-expand the assignment's node `depth`
/// plies past where the coordinator stopped, over the assignment's own
/// board snapshot, then value the expanded subtree by the fixed
/// combination rule. The envelope keeps its merge coordinates, and the
/// board snapshot leaves as it came.
pub fn process_assignment(
    a: &mut Assignment,
    depth: usize,
    cpu_color: TokenColor,
    player_color: TokenColor,
) -> (r: Result<(), ValueError>)
    requires
        old(a).board@.wf(),
        old(a).board@.rows >= 1,
        values_wf(old(a).node@),
    ensures
        final(a).board@ == old(a).board@,
        final(a).indexes == old(a).indexes,
        r is Ok <==> combined_value(deep_expanded(*old(a), depth as int), cpu_color, player_color)
            is Some,
        r is Ok ==> final(a).node@ == filled(
            deep_expanded(*old(a), depth as int),
            cpu_color,
            player_color,
        ),
        r is Err ==> final(a).node@ == deep_expanded(*old(a), depth as int),
{
    a.node.build_tree(&mut a.board, depth, 0);
    proof {
        let built = a.node@;
        assert(built == deep_expanded(*old(a), depth as int));
        assert(values_wf(built)) by {
            crate::node::lemma_expansion_props(old(a).board@, old(a).node@.color, depth as int, 0, 0);
            assert forall|i: int| 0 <= i < built.children.len() implies values_wf(
                #[trigger] built.children[i],
            ) by {
                if i >= old(a).node@.children.len() {
                    assert(built.children[i] == expansion(
                        old(a).board@,
                        old(a).node@.color,
                        depth as int,
                        0,
                    )[i - old(a).node@.children.len()]);
                }
            }
        }
    }
    a.node.calculate_value(cpu_color, player_color)
}

} // verus!
