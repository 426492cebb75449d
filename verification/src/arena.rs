//! What holds of the arena of a search, and how the steps of a playout
//! keep it.

use crate::game::{standing, Outcome, Rules};
use crate::node::{conserved, credit, linked, on_path, visits_below, NodeView};
use crate::node::{lemma_path_comes_from_child, lemma_path_holds_one_child};
use crate::node::{lemma_path_holds_parent, lemma_path_reaches_root};
use crate::node::lemma_visits_below_of_same;
use crate::policy::{is_first_maximum, TreePolicy, Ucb};
use vstd::prelude::*;

verus! {

/// The moves that led to the children of node `i`, in the children's order.
pub open spec fn child_actions<P, A>(nodes: Seq<NodeView<P, A>>, i: int) -> Seq<A> {
    Seq::new(
        nodes[i].children.len(),
        |k: int| nodes[nodes[i].children[k] as int].action_taken->0,
    )
}

/// Whether the positions and moves of an arena are those that the rules
/// give: every position is valid, every child's position follows from its
/// parent's by the move that led to it, and the legal moves of a node are
/// those that led to its children together with those left to try.
pub open spec fn ruled<G: Rules>(game: &G, nodes: Seq<NodeView<G::Position, G::Action>>) -> bool {
    &&& forall|i: int| 0 <= i < nodes.len() ==> game.valid(&(#[trigger] nodes[i]).position)
    &&& forall|i: int|
        1 <= i < nodes.len() ==> game.follows(
            &nodes[nodes[i].parent->0 as int].position,
            nodes[i].action_taken->0,
            &(#[trigger] nodes[i]).position,
        )
    &&& forall|i: int|
        0 <= i < nodes.len() ==> (#[trigger] nodes[i]).untried_actions.to_multiset().add(
            child_actions(nodes, i).to_multiset(),
        ) =~= game.legal(&nodes[i].position).to_multiset()
}

/// Whether the visit counts and value sums of an arena are those of
/// `playouts` playouts: the root has seen them all, no node has seen more
/// than its parent, a value sum stays within two half points per visit, and
/// every node below `settled` but the root has been visited.
pub open spec fn counted<P, A>(nodes: Seq<NodeView<P, A>>, playouts: int, settled: int) -> bool {
    &&& nodes[0].visit_count == playouts
    &&& forall|i: int|
        0 <= i < nodes.len() ==> {
            &&& (#[trigger] nodes[i]).visit_count <= playouts
            &&& -2 * nodes[i].visit_count <= nodes[i].value_sum <= 2 * nodes[i].visit_count
        }
    &&& forall|i: int|
        1 <= i < nodes.len() ==> (#[trigger] nodes[i]).visit_count
            <= nodes[nodes[i].parent->0 as int].visit_count
    &&& forall|i: int| 1 <= i < settled && i < nodes.len() ==> (#[trigger] nodes[i]).visit_count >= 1
}

/// What the visits to a node at which the game has ended with `outcome`
/// add up to: what the ending is worth to the side to move there, once
/// for every visit.
pub open spec fn worth_of_visits(outcome: Outcome, visits: int) -> int {
    match outcome {
        Outcome::Ongoing => 0,
        Outcome::Drawn => -visits,
        Outcome::Decisive => -2 * visits,
    }
}

/// Whether the value sum of every node at which the game has ended is
/// exact: each visit has added what the ending is worth to the side to
/// move there.
pub open spec fn exact_at_ends<G: Rules>(
    game: &G,
    nodes: Seq<NodeView<G::Position, G::Action>>,
) -> bool {
    forall|i: int|
        0 <= i < nodes.len() && game.outcome(&nodes[i].position).is_terminal() ==> (
        #[trigger] nodes[i]).value_sum == worth_of_visits(
            game.outcome(&nodes[i].position),
            nodes[i].visit_count as int,
        )
}

/// The visit counts of the children of node `i`, in the children's order.
pub open spec fn child_visits<P, A>(nodes: Seq<NodeView<P, A>>, i: int) -> Seq<int> {
    Seq::new(
        nodes[i].children.len(),
        |k: int| nodes[nodes[i].children[k] as int].visit_count as int,
    )
}

/// The scores that a policy gives to the children of node `i`, in the
/// children's order.
pub open spec fn child_scores<T: TreePolicy, P, A>(
    policy: &T,
    exploration: u32,
    nodes: Seq<NodeView<P, A>>,
    i: int,
) -> Seq<int> {
    Seq::new(
        nodes[i].children.len(),
        |k: int|
            policy.scored(
                exploration,
                nodes[i].visit_count as u32,
                nodes[nodes[i].children[k] as int].visit_count as u32,
                nodes[nodes[i].children[k] as int].value_sum as i64,
            ) as int,
    )
}

/// Whether the walk from the root to node `leaf` leaves node `i` by the
/// child that the policy scores highest, the first of several that it
/// scores alike.
pub open spec fn leaves_by_best<T: TreePolicy, P, A>(
    policy: &T,
    exploration: u32,
    nodes: Seq<NodeView<P, A>>,
    leaf: int,
    i: int,
) -> bool {
    exists|k: int|
        #![trigger nodes[i].children[k]]
        {
            &&& is_first_maximum(child_scores(policy, exploration, nodes, i), k)
            &&& on_path(nodes, leaf, nodes[i].children[k] as int)
        }
}

/// Whether `best` is the move that the search reports for an arena: the
/// move that led to the root's most visited child, or to the first of
/// several that were visited alike; none if the root has no child.
pub open spec fn is_most_visited<P, A>(nodes: Seq<NodeView<P, A>>, best: Option<&A>) -> bool {
    if nodes[0].children.len() == 0 {
        best is None
    } else {
        exists|k: int|
            #![trigger nodes[0].children[k]]
            {
                &&& is_first_maximum(child_visits(nodes, 0), k)
                &&& best is Some
                &&& nodes[nodes[0].children[k] as int].action_taken == Some(*best->0)
            }
    }
}

/// The arena after the move at place `pick` among the untried moves of
/// node `parent` has been made into a child with position `next`.
pub open spec fn expanded<G: Rules>(
    game: &G,
    nodes: Seq<NodeView<G::Position, G::Action>>,
    parent: int,
    pick: int,
    next: G::Position,
) -> Seq<NodeView<G::Position, G::Action>> {
    nodes.update(
        parent,
        NodeView {
            untried_actions: nodes[parent].untried_actions.remove(pick),
            children: nodes[parent].children.push(nodes.len() as usize),
            ..nodes[parent]
        },
    ).push(
        NodeView {
            position: next,
            action_taken: Some(nodes[parent].untried_actions[pick]),
            untried_actions: game.legal(&next),
            parent: Some(parent as usize),
            children: Seq::empty(),
            visit_count: 0,
            value_sum: 0,
        },
    )
}

/// The arena after a playout that ended at node `from` with `value` has been
/// carried up to the root: every node on the way has one visit more, and
/// its value sum has grown by the value as its own side sees it.
pub open spec fn backed_up<P, A>(nodes: Seq<NodeView<P, A>>, from: int, value: int) -> Seq<
    NodeView<P, A>,
> {
    Seq::new(
        nodes.len(),
        |i: int|
            if on_path(nodes, from, i) {
                NodeView {
                    visit_count: nodes[i].visit_count + 1,
                    value_sum: nodes[i].value_sum + credit(nodes, from, i, value),
                    ..nodes[i]
                }
            } else {
                nodes[i]
            },
    )
}

/// Whether an arena has come from an earlier one by playouts alone: the
/// earlier nodes are still in their places with their positions and links,
/// their children have only been added to, and their untried moves and
/// visits have only gone one way.
pub open spec fn grown_from<P, A>(new: Seq<NodeView<P, A>>, old: Seq<NodeView<P, A>>) -> bool {
    &&& old.len() <= new.len()
    &&& forall|i: int|
        0 <= i < old.len() ==> {
            &&& (#[trigger] new[i]).position == old[i].position
            &&& new[i].action_taken == old[i].action_taken
            &&& new[i].parent == old[i].parent
            &&& old[i].children.is_prefix_of(new[i].children)
            &&& new[i].untried_actions.to_multiset().subset_of(
                old[i].untried_actions.to_multiset(),
            )
            &&& new[i].visit_count >= old[i].visit_count
        }
}

/// Where all children of a node have been visited equally often, the
/// child by which a walk under the upper confidence bound leaves the node
/// is the one with the highest average worth to the node, which is the
/// one with the smallest value sum of its own, and the first of several
/// such.
pub proof fn lemma_equal_visits_best_average<P, A>(
    policy: &Ucb,
    exploration: u32,
    nodes: Seq<NodeView<P, A>>,
    i: int,
    k: int,
)
    requires
        0 <= i < nodes.len(),
        forall|j: int|
            0 <= j < nodes[i].children.len() ==> {
                &&& 0 <= #[trigger] nodes[i].children[j] < nodes.len()
                &&& 1 <= nodes[nodes[i].children[j] as int].visit_count <= u32::MAX
                &&& nodes[nodes[i].children[j] as int].visit_count
                    == nodes[nodes[i].children[0] as int].visit_count
                &&& -2 * nodes[nodes[i].children[j] as int].visit_count
                    <= nodes[nodes[i].children[j] as int].value_sum
                &&& nodes[nodes[i].children[j] as int].value_sum <= 2
                    * nodes[nodes[i].children[j] as int].visit_count
            },
        is_first_maximum(child_scores(policy, exploration, nodes, i), k),
    ensures
        forall|j: int|
            0 <= j < nodes[i].children.len() ==> nodes[nodes[i].children[k] as int].value_sum
                <= nodes[#[trigger] nodes[i].children[j] as int].value_sum,
        forall|j: int|
            0 <= j < k ==> nodes[nodes[i].children[k] as int].value_sum
                < nodes[#[trigger] nodes[i].children[j] as int].value_sum,
{
    let scores = child_scores(policy, exploration, nodes, i);
    let parent_visits = nodes[i].visit_count as u32;
    let visits = nodes[nodes[i].children[0] as int].visit_count as u32;
    let best = nodes[nodes[i].children[k] as int].value_sum as i64;
    assert(nodes[i].children[k] < nodes.len());
    assert forall|j: int| 0 <= j < nodes[i].children.len() implies best
        <= nodes[#[trigger] nodes[i].children[j] as int].value_sum && (j < k ==> best
        < nodes[nodes[i].children[j] as int].value_sum) by {
        let other = nodes[nodes[i].children[j] as int].value_sum as i64;
        assert(scores[j] == policy.scored(exploration, parent_visits, visits, other));
        assert(scores[k] == policy.scored(exploration, parent_visits, visits, best));
        assert(scores[j] <= scores[k]);
        if other < best {
            policy.lemma_better_average_scores_higher(
                exploration,
                parent_visits,
                visits,
                other,
                best,
            );
        }
        if j < k {
            assert(scores[j] < scores[k]);
        }
    }
}

/// An untried move is a legal one.
pub(crate) proof fn lemma_untried_is_legal<G: Rules>(
    game: &G,
    nodes: Seq<NodeView<G::Position, G::Action>>,
    i: int,
    k: int,
)
    requires
        ruled(game, nodes),
        0 <= i < nodes.len(),
        0 <= k < nodes[i].untried_actions.len(),
    ensures
        game.legal(&nodes[i].position).contains(nodes[i].untried_actions[k]),
{
    broadcast use vstd::seq_lib::group_to_multiset_ensures;

    let action = nodes[i].untried_actions[k];
    assert(game.legal(&nodes[i].position).to_multiset().count(action) > 0);
}

/// The move that led to a child is a legal one.
pub(crate) proof fn lemma_child_move_is_legal<G: Rules>(
    game: &G,
    nodes: Seq<NodeView<G::Position, G::Action>>,
    i: int,
    k: int,
)
    requires
        ruled(game, nodes),
        0 <= i < nodes.len(),
        0 <= k < nodes[i].children.len(),
    ensures
        game.legal(&nodes[i].position).contains(
            nodes[nodes[i].children[k] as int].action_taken->0,
        ),
{
    broadcast use vstd::seq_lib::group_to_multiset_ensures;

    let action = child_actions(nodes, i)[k];
    assert(game.legal(&nodes[i].position).to_multiset().count(action) > 0);
}

/// A node that has neither a child nor a move left to try is one whose
/// game has ended.
pub(crate) proof fn lemma_bare_node_is_terminal<G: Rules>(
    game: &G,
    nodes: Seq<NodeView<G::Position, G::Action>>,
    i: int,
)
    requires
        ruled(game, nodes),
        0 <= i < nodes.len(),
    ensures
        nodes[i].untried_actions.len() + nodes[i].children.len() == game.legal(
            &nodes[i].position,
        ).len(),
        game.outcome(&nodes[i].position).is_terminal() <==> nodes[i].untried_actions.len()
            == 0 && nodes[i].children.len() == 0,
{
    broadcast use vstd::seq_lib::group_to_multiset_ensures;

    game.lemma_moves_until_terminal(&nodes[i].position);
    assert(game.legal(&nodes[i].position).to_multiset().len() == game.legal(
        &nodes[i].position,
    ).len());
}

/// In a search that has run a playout from a root at which the game
/// has not ended, the root has a child.
pub(crate) proof fn lemma_root_has_child<G: Rules>(
    game: &G,
    nodes: Seq<NodeView<G::Position, G::Action>>,
    playouts: int,
)
    requires
        linked(nodes),
        ruled(game, nodes),
        counted(nodes, playouts, nodes.len() as int),
        conserved(nodes, nodes.len() as int),
        playouts >= 1,
        !game.outcome(&nodes[0].position).is_terminal(),
    ensures
        nodes[0].children.len() >= 1,
{
    lemma_bare_node_is_terminal(game, nodes, 0);
    assert(nodes[0].visit_count == visits_below(nodes, 0, nodes[0].children.len() as int));
}

/// `grown_from` holds of an arena and itself.
pub(crate) proof fn lemma_grown_from_itself<P, A>(nodes: Seq<NodeView<P, A>>)
    ensures
        grown_from(nodes, nodes),
{
}

/// `grown_from` carries over two steps.
pub(crate) proof fn lemma_grown_in_steps<P, A>(
    new: Seq<NodeView<P, A>>,
    mid: Seq<NodeView<P, A>>,
    old: Seq<NodeView<P, A>>,
)
    requires
        grown_from(new, mid),
        grown_from(mid, old),
    ensures
        grown_from(new, old),
{
}

/// Expansion keeps the arena a tree.
pub(crate) proof fn lemma_expanded_linked<G: Rules>(
    game: &G,
    nodes: Seq<NodeView<G::Position, G::Action>>,
    parent: int,
    pick: int,
    next: G::Position,
)
    requires
        linked(nodes),
        ruled(game, nodes),
        0 <= parent < nodes.len(),
        0 <= pick < nodes[parent].untried_actions.len(),
        nodes.len() < usize::MAX,
        game.valid(&next),
        game.follows(&nodes[parent].position, nodes[parent].untried_actions[pick], &next),
    ensures
        linked(expanded(game, nodes, parent, pick, next)),
{
    let after = expanded(game, nodes, parent, pick, next);
    let child = nodes.len() as int;
    assert forall|i: int| 0 <= i < child && i != parent implies after[i] == nodes[i] by {}
    assert forall|i: int| 1 <= i < after.len() implies {
        &&& (#[trigger] after[i]).action_taken is Some
        &&& after[i].parent is Some
        &&& after[i].parent->0 < i
        &&& after[after[i].parent->0 as int].children.contains(i as usize)
    } by {
        if i < child {
            let p = nodes[i].parent->0 as int;
            let k = choose|k: int|
                0 <= k < nodes[p].children.len() && nodes[p].children[k] == i as usize;
            assert(after[p].children[k] == i as usize);
        } else {
            assert(after[parent].children[nodes[parent].children.len() as int] == i as usize);
        }
    }
}

/// Expansion keeps the arena one that the rules describe.
pub(crate) proof fn lemma_expanded_ruled<G: Rules>(
    game: &G,
    nodes: Seq<NodeView<G::Position, G::Action>>,
    parent: int,
    pick: int,
    next: G::Position,
)
    requires
        linked(nodes),
        ruled(game, nodes),
        0 <= parent < nodes.len(),
        0 <= pick < nodes[parent].untried_actions.len(),
        nodes.len() < usize::MAX,
        game.valid(&next),
        game.follows(&nodes[parent].position, nodes[parent].untried_actions[pick], &next),
    ensures
        ruled(game, expanded(game, nodes, parent, pick, next)),
{
    broadcast use vstd::seq_lib::group_to_multiset_ensures;

    let after = expanded(game, nodes, parent, pick, next);
    let child = nodes.len() as int;
    let action = nodes[parent].untried_actions[pick];
    assert forall|i: int| 0 <= i < child && i != parent implies after[i] == nodes[i] by {}
    assert forall|i: int| 0 <= i < after.len() implies (
    #[trigger] after[i]).untried_actions.to_multiset().add(
        child_actions(after, i).to_multiset(),
    ) =~= game.legal(&after[i].position).to_multiset() by {
        if i == parent {
            let led = child_actions(nodes, i);
            assert(child_actions(after, i) =~= led.push(action));
            vstd::seq_lib::to_multiset_remove(nodes[i].untried_actions, pick);
            vstd::seq_lib::to_multiset_build(led, action);
        } else if i != child {
            assert(child_actions(after, i) =~= child_actions(nodes, i));
        }
    }
}

/// Expansion leaves only the new node without a visit, and moves no
/// earlier node.
pub(crate) proof fn lemma_expanded_counted<G: Rules>(
    game: &G,
    nodes: Seq<NodeView<G::Position, G::Action>>,
    parent: int,
    pick: int,
    next: G::Position,
    playouts: int,
)
    requires
        linked(nodes),
        ruled(game, nodes),
        0 <= parent < nodes.len(),
        0 <= pick < nodes[parent].untried_actions.len(),
        nodes.len() < usize::MAX,
        game.valid(&next),
        game.follows(&nodes[parent].position, nodes[parent].untried_actions[pick], &next),
        counted(nodes, playouts, nodes.len() as int),
    ensures
        counted(expanded(game, nodes, parent, pick, next), playouts, nodes.len() as int),
        grown_from(expanded(game, nodes, parent, pick, next), nodes),
{
    let after = expanded(game, nodes, parent, pick, next);
    let child = nodes.len() as int;
    assert forall|i: int| 0 <= i < child && i != parent implies after[i] == nodes[i] by {}
    assert forall|i: int| 0 <= i < nodes.len() implies {
        &&& (#[trigger] after[i]).position == nodes[i].position
        &&& after[i].action_taken == nodes[i].action_taken
        &&& after[i].parent == nodes[i].parent
        &&& nodes[i].children.is_prefix_of(after[i].children)
        &&& after[i].untried_actions.to_multiset().subset_of(
            nodes[i].untried_actions.to_multiset(),
        )
        &&& after[i].visit_count >= nodes[i].visit_count
    } by {
        if i == parent {
            vstd::seq_lib::to_multiset_remove(nodes[i].untried_actions, pick);
        }
    }
}

/// Expansion adds no visit, so the visits stay accounted for.
pub(crate) proof fn lemma_expanded_conserved<G: Rules>(
    game: &G,
    nodes: Seq<NodeView<G::Position, G::Action>>,
    parent: int,
    pick: int,
    next: G::Position,
)
    requires
        linked(nodes),
        conserved(nodes, nodes.len() as int),
        0 <= parent < nodes.len(),
        0 <= pick < nodes[parent].untried_actions.len(),
        nodes.len() < usize::MAX,
    ensures
        conserved(expanded(game, nodes, parent, pick, next), nodes.len() as int),
{
    let after = expanded(game, nodes, parent, pick, next);
    let child = nodes.len() as int;
    assert forall|i: int| 0 <= i < child && i != parent implies after[i] == nodes[i] by {}
    assert forall|i: int|
        0 <= i < child && (after[i].untried_actions.len() > 0 || after[i].children.len()
            > 0) implies after[i].visit_count == (if i == 0 {
        0int
    } else {
        1int
    }) + #[trigger] visits_below(after, i, after[i].children.len() as int) by {
        let had = nodes[i].children.len() as int;
        assert forall|k: int| 0 <= k < had implies {
            &&& #[trigger] after[i].children[k] == nodes[i].children[k]
            &&& 0 <= nodes[i].children[k] < nodes.len()
            &&& after[after[i].children[k] as int].visit_count
                == nodes[nodes[i].children[k] as int].visit_count
        } by {}
        lemma_visits_below_of_same(nodes, after, i, i, had);
    }
}

/// Expansion leaves the nodes at which the game has ended as they are.
pub(crate) proof fn lemma_expanded_exact<G: Rules>(
    game: &G,
    nodes: Seq<NodeView<G::Position, G::Action>>,
    parent: int,
    pick: int,
    next: G::Position,
)
    requires
        exact_at_ends(game, nodes),
        0 <= parent < nodes.len(),
        0 <= pick < nodes[parent].untried_actions.len(),
    ensures
        exact_at_ends(game, expanded(game, nodes, parent, pick, next)),
{
    let after = expanded(game, nodes, parent, pick, next);
    assert forall|i: int| 0 <= i < nodes.len() && i != parent implies after[i] == nodes[i] by {}
}

/// Expansion keeps all that holds of an arena between playouts, but
/// for the new node, which has no visit yet.
pub(crate) proof fn lemma_expanded_keeps<G: Rules>(
    game: &G,
    nodes: Seq<NodeView<G::Position, G::Action>>,
    parent: int,
    pick: int,
    next: G::Position,
    playouts: int,
)
    requires
        linked(nodes),
        ruled(game, nodes),
        counted(nodes, playouts, nodes.len() as int),
        conserved(nodes, nodes.len() as int),
        exact_at_ends(game, nodes),
        0 <= parent < nodes.len(),
        0 <= pick < nodes[parent].untried_actions.len(),
        nodes.len() < usize::MAX,
        game.valid(&next),
        game.follows(&nodes[parent].position, nodes[parent].untried_actions[pick], &next),
    ensures
        linked(expanded(game, nodes, parent, pick, next)),
        ruled(game, expanded(game, nodes, parent, pick, next)),
        counted(expanded(game, nodes, parent, pick, next), playouts, nodes.len() as int),
        conserved(expanded(game, nodes, parent, pick, next), nodes.len() as int),
        exact_at_ends(game, expanded(game, nodes, parent, pick, next)),
        grown_from(expanded(game, nodes, parent, pick, next), nodes),
{
    lemma_expanded_exact(game, nodes, parent, pick, next);
    lemma_expanded_linked(game, nodes, parent, pick, next);
    lemma_expanded_ruled(game, nodes, parent, pick, next);
    lemma_expanded_counted(game, nodes, parent, pick, next, playouts);
    lemma_expanded_conserved(game, nodes, parent, pick, next);
}

/// A value that is carried up the tree stays within its bounds.
pub(crate) proof fn lemma_credit_bounded<P, A>(
    nodes: Seq<NodeView<P, A>>,
    from: int,
    i: int,
    value: int,
)
    requires
        -2 <= value <= 2,
    ensures
        -2 <= credit(nodes, from, i, value) <= 2,
    decreases from,
{
    if from != i && 0 < from < nodes.len() && nodes[from].parent is Some
        && nodes[from].parent->0 < from {
        lemma_credit_bounded(nodes, nodes[from].parent->0 as int, i, -value);
    }
}

/// Carrying a value up the tree leaves the tree as it is.
pub(crate) proof fn lemma_backed_up_linked<G: Rules>(
    game: &G,
    nodes: Seq<NodeView<G::Position, G::Action>>,
    from: int,
    value: int,
)
    requires
        linked(nodes),
    ensures
        linked(backed_up(nodes, from, value)),
        grown_from(backed_up(nodes, from, value), nodes),
{
    let after = backed_up(nodes, from, value);
    assert forall|i: int| 0 <= i < nodes.len() implies {
        &&& (#[trigger] after[i]).position == nodes[i].position
        &&& after[i].action_taken == nodes[i].action_taken
        &&& after[i].parent == nodes[i].parent
        &&& after[i].children == nodes[i].children
        &&& after[i].untried_actions == nodes[i].untried_actions
    } by {}
    assert forall|i: int| 1 <= i < after.len() implies {
        &&& (#[trigger] after[i]).action_taken is Some
        &&& after[i].parent is Some
        &&& after[i].parent->0 < i
        &&& after[after[i].parent->0 as int].children.contains(i as usize)
    } by {}
}

/// Carrying a value up the tree leaves the positions and moves as
/// they are.
pub(crate) proof fn lemma_backed_up_ruled<G: Rules>(
    game: &G,
    nodes: Seq<NodeView<G::Position, G::Action>>,
    from: int,
    value: int,
)
    requires
        linked(nodes),
        ruled(game, nodes),
    ensures
        ruled(game, backed_up(nodes, from, value)),
{
    let after = backed_up(nodes, from, value);
    assert forall|i: int| 0 <= i < nodes.len() implies {
        &&& (#[trigger] after[i]).position == nodes[i].position
        &&& after[i].action_taken == nodes[i].action_taken
        &&& after[i].parent == nodes[i].parent
        &&& after[i].children == nodes[i].children
        &&& after[i].untried_actions == nodes[i].untried_actions
    } by {}
    assert forall|i: int| 0 <= i < after.len() implies (
    #[trigger] after[i]).untried_actions.to_multiset().add(
        child_actions(after, i).to_multiset(),
    ) =~= game.legal(&after[i].position).to_multiset() by {
        assert(child_actions(after, i) =~= child_actions(nodes, i));
    }
}

/// Carrying a value up the tree counts one playout more, and leaves no
/// node but the root without a visit if only the start of the way was
/// without one.
pub(crate) proof fn lemma_backed_up_counted<P, A>(
    nodes: Seq<NodeView<P, A>>,
    from: int,
    value: int,
    playouts: int,
    settled: int,
)
    requires
        linked(nodes),
        counted(nodes, playouts, settled),
        0 <= from < nodes.len(),
        -2 <= value <= 2,
        settled >= nodes.len() || (settled == nodes.len() - 1 && from == settled),
    ensures
        counted(backed_up(nodes, from, value), playouts + 1, nodes.len() as int),
{
    let after = backed_up(nodes, from, value);
    assert forall|i: int| 0 <= i < nodes.len() implies {
        &&& (#[trigger] after[i]).parent == nodes[i].parent
        &&& after[i].visit_count == nodes[i].visit_count + if on_path(nodes, from, i) {
            1int
        } else {
            0int
        }
        &&& on_path(nodes, from, i) ==> nodes[i].value_sum - 2 <= after[i].value_sum
            <= nodes[i].value_sum + 2
        &&& !on_path(nodes, from, i) ==> after[i].value_sum == nodes[i].value_sum
    } by {
        lemma_credit_bounded(nodes, from, i, value);
    }
    lemma_path_reaches_root(nodes, from);
    assert forall|i: int| 1 <= i < after.len() implies (#[trigger] after[i]).visit_count
        <= after[after[i].parent->0 as int].visit_count by {
        if on_path(nodes, from, i) {
            lemma_path_holds_parent(nodes, from, i);
        }
    }
}

/// What carrying a value up from node `from` adds to the visits of
/// the first `upto` children of node `i`: one where the way comes
/// through one of them, nothing otherwise.
pub(crate) proof fn lemma_backed_up_below<P, A>(
    nodes: Seq<NodeView<P, A>>,
    from: int,
    value: int,
    i: int,
    upto: int,
)
    requires
        linked(nodes),
        0 <= from < nodes.len(),
        0 <= i < nodes.len(),
        0 <= upto <= nodes[i].children.len(),
    ensures
        visits_below(backed_up(nodes, from, value), i, upto) == visits_below(nodes, i, upto)
            + if exists|k: int|
            0 <= k < upto && on_path(nodes, from, #[trigger] nodes[i].children[k] as int) {
            1int
        } else {
            0int
        },
    decreases upto,
{
    if upto > 0 {
        lemma_backed_up_below(nodes, from, value, i, upto - 1);
        let c = nodes[i].children[upto - 1] as int;
        if on_path(nodes, from, c) {
            if exists|k: int|
                0 <= k < upto - 1 && on_path(nodes, from, #[trigger] nodes[i].children[k] as int) {
                let k = choose|k: int|
                    0 <= k < upto - 1 && on_path(
                        nodes,
                        from,
                        #[trigger] nodes[i].children[k] as int,
                    );
                lemma_path_holds_one_child(nodes, from, i, k, upto - 1);
            }
        }
    }
}

/// Carrying a value up the tree keeps the visits accounted for, and
/// accounts for the first visit of a new node at the start of the way.
pub(crate) proof fn lemma_backed_up_conserved<P, A>(
    nodes: Seq<NodeView<P, A>>,
    from: int,
    value: int,
    settled: int,
)
    requires
        linked(nodes),
        conserved(nodes, settled),
        0 <= from < nodes.len(),
        nodes[from].children.len() == 0,
        settled >= nodes.len() ==> nodes[from].untried_actions.len() == 0,
        settled < nodes.len() ==> settled == nodes.len() - 1 && from == settled && 1 <= from
            && nodes[from].visit_count == 0,
    ensures
        conserved(backed_up(nodes, from, value), nodes.len() as int),
{
    let after = backed_up(nodes, from, value);
    assert forall|i: int|
        0 <= i < nodes.len() && (after[i].untried_actions.len() > 0 || after[i].children.len()
            > 0) implies after[i].visit_count == (if i == 0 {
        0int
    } else {
        1int
    }) + #[trigger] visits_below(after, i, after[i].children.len() as int) by {
        let had = nodes[i].children.len() as int;
        lemma_backed_up_below(nodes, from, value, i, had);
        let through = exists|k: int|
            0 <= k < had && on_path(nodes, from, #[trigger] nodes[i].children[k] as int);
        if i != from && on_path(nodes, from, i) {
            let c = lemma_path_comes_from_child(nodes, from, i);
            assert(nodes[i].children.contains(c as usize));
        } else if through {
            let k = choose|k: int|
                0 <= k < had && on_path(nodes, from, #[trigger] nodes[i].children[k] as int);
            lemma_path_holds_parent(nodes, from, nodes[i].children[k] as int);
        }
    }
}

/// Carrying up what an ending is worth keeps the value sums of the nodes
/// at which the game has ended exact: the way passes through such a node
/// only where it starts.
pub(crate) proof fn lemma_backed_up_exact<G: Rules>(
    game: &G,
    nodes: Seq<NodeView<G::Position, G::Action>>,
    from: int,
    value: int,
)
    requires
        linked(nodes),
        ruled(game, nodes),
        exact_at_ends(game, nodes),
        0 <= from < nodes.len(),
        game.outcome(&nodes[from].position).is_terminal() ==> value == standing(
            game.outcome(&nodes[from].position),
        ),
    ensures
        exact_at_ends(game, backed_up(nodes, from, value)),
{
    let after = backed_up(nodes, from, value);
    assert forall|i: int|
        0 <= i < after.len() && game.outcome(&after[i].position).is_terminal() implies (
    #[trigger] after[i]).value_sum == worth_of_visits(
        game.outcome(&after[i].position),
        after[i].visit_count as int,
    ) by {
        let outcome = game.outcome(&nodes[i].position);
        assert(after[i].position == nodes[i].position);
        assert(nodes[i].value_sum == worth_of_visits(outcome, nodes[i].visit_count as int));
        if on_path(nodes, from, i) {
            if i != from {
                lemma_bare_node_is_terminal(game, nodes, i);
                let c = lemma_path_comes_from_child(nodes, from, i);
                assert(nodes[i].children.contains(c as usize));
                assert(nodes[i].children.len() > 0);
            }
            assert(credit(nodes, from, i, value) == value);
            assert(after[i].visit_count == nodes[i].visit_count + 1);
            assert(after[i].value_sum == nodes[i].value_sum + standing(outcome));
            assert(standing(outcome) == match outcome {
                Outcome::Ongoing => 0int,
                Outcome::Drawn => -1int,
                Outcome::Decisive => -2int,
            });
        } else {
            assert(after[i] == nodes[i]);
        }
    }
}

/// Carrying the value of a playout up the tree keeps all that holds of
/// an arena between playouts, and counts the playout. The way starts at a
/// node without children: one at which the game has ended, or the new node
/// of the playout, which is the one node that may be without a visit.
pub(crate) proof fn lemma_backed_up_keeps<G: Rules>(
    game: &G,
    nodes: Seq<NodeView<G::Position, G::Action>>,
    from: int,
    value: int,
    playouts: int,
    settled: int,
)
    requires
        linked(nodes),
        ruled(game, nodes),
        counted(nodes, playouts, settled),
        conserved(nodes, settled),
        exact_at_ends(game, nodes),
        0 <= from < nodes.len(),
        -2 <= value <= 2,
        game.outcome(&nodes[from].position).is_terminal() ==> value == standing(
            game.outcome(&nodes[from].position),
        ),
        nodes[from].children.len() == 0,
        settled >= nodes.len() ==> nodes[from].untried_actions.len() == 0,
        settled < nodes.len() ==> settled == nodes.len() - 1 && from == settled && 1 <= from
            && nodes[from].visit_count == 0,
    ensures
        linked(backed_up(nodes, from, value)),
        ruled(game, backed_up(nodes, from, value)),
        counted(backed_up(nodes, from, value), playouts + 1, nodes.len() as int),
        conserved(backed_up(nodes, from, value), nodes.len() as int),
        exact_at_ends(game, backed_up(nodes, from, value)),
        grown_from(backed_up(nodes, from, value), nodes),
{
    lemma_backed_up_linked(game, nodes, from, value);
    lemma_backed_up_ruled(game, nodes, from, value);
    lemma_backed_up_counted(nodes, from, value, playouts, settled);
    lemma_backed_up_conserved(nodes, from, value, settled);
    lemma_backed_up_exact(game, nodes, from, value);
}

} // verus!
