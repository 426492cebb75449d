//! The search: an arena of nodes that grows by one node per playout.

use crate::arena::{backed_up, child_scores, child_visits, counted, exact_at_ends, expanded};
use crate::arena::{grown_from, leaves_by_best};
use crate::arena::{is_most_visited, ruled};
use crate::arena::{lemma_backed_up_keeps, lemma_bare_node_is_terminal, lemma_child_move_is_legal};
use crate::arena::{lemma_expanded_keeps, lemma_grown_from_itself, lemma_grown_in_steps};
use crate::arena::{lemma_root_has_child, lemma_untried_is_legal};
use crate::game::{line_value, seen_from, standing, Rules};
use crate::node::{conserved, credit, linked, on_path, views, Node, NodeView};
use crate::node::lemma_path_goes_down;
use crate::policy::{first_maximum, ints, is_first_maximum, TreePolicy};
use crate::random::random_below;
use vstd::prelude::*;

verus! {

/// Why a search could not be set up.
#[derive(Clone, Copy, Debug, PartialEq, Eq, Structural)]
pub enum ConfigError {
    /// The budget allows no playout.
    ZeroBudget,
    /// The exploration constant is not positive.
    ZeroExploration,
}

impl ConfigError {
    /// What is wrong with the configuration, in words.
    pub open spec fn message_of(self) -> Seq<char> {
        match self {
            ConfigError::ZeroBudget => "the search budget must allow at least one playout"@,
            ConfigError::ZeroExploration => "the exploration constant must be positive"@,
        }
    }

    /// Tells in words what is wrong with the configuration.
    pub fn message(&self) -> (text: &'static str)
        ensures
            text@ == self.message_of(),
    {
        match self {
            ConfigError::ZeroBudget => "the search budget must allow at least one playout",
            ConfigError::ZeroExploration => "the exploration constant must be positive",
        }
    }
}

/// A search from one root position with a fixed budget of playouts.
pub struct Mcts<'a, G: Rules, P: TreePolicy> {
    game: &'a G,
    policy: &'a P,
    budget: u32,
    exploration: u32,
    completed: u32,
    tree: Vec<Node<G::Position, G::Action>>,
}

impl<'a, G: Rules, P: TreePolicy> Mcts<'a, G, P> {
    /// The arena, as plain values; the root is at index 0.
    pub closed spec fn nodes(&self) -> Seq<NodeView<G::Position, G::Action>> {
        views(self.tree@)
    }

    /// The rules that the search plays by.
    pub closed spec fn game(&self) -> &G {
        self.game
    }

    /// The policy by which the search chooses among children.
    pub closed spec fn policy(&self) -> &P {
        self.policy
    }

    /// The number of playouts that the search is to run.
    pub closed spec fn budget(&self) -> u32 {
        self.budget
    }

    /// The exploration constant in millionths.
    pub closed spec fn exploration(&self) -> u32 {
        self.exploration
    }

    /// The number of playouts that have been run.
    pub closed spec fn completed(&self) -> u32 {
        self.completed
    }

    /// Whether the configuration is one that `new` accepts.
    pub open spec fn configured(&self) -> bool {
        &&& self.budget() >= 1
        &&& self.exploration() >= 1
        &&& self.completed() <= self.budget()
    }

    /// The invariant of a search between playouts; `lemma_invariant` tells
    /// what it holds.
    pub closed spec fn wf(&self) -> bool {
        &&& self.configured()
        &&& linked(self.nodes())
        &&& ruled(self.game(), self.nodes())
        &&& counted(self.nodes(), self.completed() as int, self.nodes().len() as int)
        &&& conserved(self.nodes(), self.nodes().len() as int)
        &&& exact_at_ends(self.game(), self.nodes())
        &&& self.nodes().len() <= self.completed() + 1
    }

    /// Sets up a search from `root` with a budget of `budget` playouts and
    /// an exploration constant of `exploration` millionths.
    pub fn new(
        game: &'a G,
        policy: &'a P,
        root: G::Position,
        budget: u32,
        exploration: u32,
    ) -> (made: Result<Self, ConfigError>)
        requires
            game.valid(&root),
        ensures
            budget == 0 <==> made == Err::<Self, ConfigError>(ConfigError::ZeroBudget),
            budget != 0 && exploration == 0 <==> made == Err::<Self, ConfigError>(
                ConfigError::ZeroExploration,
            ),
            budget != 0 && exploration != 0 <==> made is Ok,
            made matches Ok(search) ==> {
                &&& search.wf()
                &&& search.game() == game
                &&& search.policy() == policy
                &&& search.budget() == budget
                &&& search.exploration() == exploration
                &&& search.completed() == 0
                &&& search.nodes() == seq![
                    NodeView {
                        position: root,
                        action_taken: None,
                        untried_actions: game.legal(&root),
                        parent: None,
                        children: Seq::empty(),
                        visit_count: 0,
                        value_sum: 0,
                    },
                ]
            },
    {
        if budget == 0 {
            return Err(ConfigError::ZeroBudget);
        }
        if exploration == 0 {
            return Err(ConfigError::ZeroExploration);
        }
        let untried = game.legal_actions(&root);
        let node = Node::new(root, untried, None, None);
        let mut tree = Vec::new();
        tree.push(node);
        let search = Mcts { game, policy, budget, exploration, completed: 0, tree };
        proof {
            broadcast use vstd::seq_lib::group_to_multiset_ensures;
        }
        Ok(search)
    }

    /// The number of nodes in the arena.
    pub fn node_count(&self) -> (count: usize)
        ensures
            count == self.nodes().len(),
    {
        self.tree.len()
    }

    /// The node at index `index`.
    pub fn node(&self, index: usize) -> (node: &Node<G::Position, G::Action>)
        requires
            index < self.nodes().len(),
        ensures
            node@ == self.nodes()[index as int],
    {
        &self.tree[index]
    }

    /// The number of playouts that have been run.
    pub fn playouts(&self) -> (count: u32)
        ensures
            count == self.completed(),
    {
        self.completed
    }

    /// The scores that the policy gives to the children of node `index`.
    pub fn child_scores(&self, index: usize) -> (scores: Vec<i64>)
        requires
            self.wf(),
            index < self.nodes().len(),
        ensures
            ints(scores@) == child_scores(
                self.policy(),
                self.exploration(),
                self.nodes(),
                index as int,
            ),
    {
        let node = &self.tree[index];
        let mut scores: Vec<i64> = Vec::new();
        let mut k: usize = 0;
        while k < node.children.len()
            invariant
                self.wf(),
                index < self.nodes().len(),
                node == &self.tree@[index as int],
                k <= node.children.len(),
                scores.len() == k,
                forall|j: int|
                    0 <= j < k ==> #[trigger] scores@[j] == child_scores(
                        self.policy,
                        self.exploration,
                        self.nodes(),
                        index as int,
                    )[j],
            decreases node.children.len() - k,
        {
            let child_index = node.children[k];
            assert(self.nodes()[index as int].children[k as int] == child_index);
            let child = &self.tree[child_index];
            assert(child@ == self.nodes()[child_index as int]);
            assert(node@ == self.nodes()[index as int]);
            scores.push(
                self.policy.score(
                    self.exploration,
                    node.visit_count,
                    child.visit_count,
                    child.value_sum,
                ),
            );
            k += 1;
        }
        assert(ints(scores@) =~= child_scores(
            self.policy,
            self.exploration,
            self.nodes(),
            index as int,
        ));
        scores
    }

    /// Walks down from the root, through every node that is fully
    /// expanded and has a child, to the first node that is not such a one:
    /// a node with a move left to try, or one at which the game has ended.
    /// At each step the walk takes the child that the policy scores
    /// highest, and the first of several that it scores alike.
    pub fn select(&self) -> (leaf: usize)
        requires
            self.wf(),
        ensures
            leaf < self.nodes().len(),
            !self.nodes()[leaf as int].is_inner(),
            forall|i: int|
                on_path(self.nodes(), leaf as int, i) && i != leaf ==> (
                #[trigger] self.nodes()[i]).is_inner(),
            forall|i: int|
                on_path(self.nodes(), leaf as int, i) && i != leaf ==> #[trigger] leaves_by_best(
                    self.policy(),
                    self.exploration(),
                    self.nodes(),
                    leaf as int,
                    i,
                ),
    {
        let mut index: usize = 0;
        while self.tree[index].is_inner()
            invariant
                self.wf(),
                index < self.nodes().len(),
                forall|i: int|
                    on_path(self.nodes(), index as int, i) && i != index ==> (
                    #[trigger] self.nodes()[i]).is_inner(),
                forall|i: int|
                    on_path(self.nodes(), index as int, i) && i != index
                        ==> #[trigger] leaves_by_best(
                        self.policy,
                        self.exploration,
                        self.nodes(),
                        index as int,
                        i,
                    ),
            decreases self.nodes().len() - index,
        {
            let scores = self.child_scores(index);
            assert(ints(scores@).len() == scores.len());
            let best = first_maximum(&scores);
            let child = self.tree[index].children[best];
            proof {
                let nodes = self.nodes();
                assert(nodes[index as int].children[best as int] == child);
                assert(on_path(nodes, child as int, child as int));
                assert forall|i: int|
                    on_path(nodes, child as int, i) && i != child implies #[trigger] leaves_by_best(
                    self.policy,
                    self.exploration,
                    nodes,
                    child as int,
                    i,
                ) by {
                    assert(on_path(nodes, index as int, i));
                    if i == index {
                        assert(on_path(nodes, child as int, nodes[i].children[best as int] as int));
                    } else {
                        assert(leaves_by_best(
                            self.policy,
                            self.exploration,
                            nodes,
                            index as int,
                            i,
                        ));
                        let k = choose|k: int|
                            #![trigger nodes[i].children[k]]
                            {
                                &&& is_first_maximum(
                                    child_scores(self.policy, self.exploration, nodes, i),
                                    k,
                                )
                                &&& on_path(nodes, index as int, nodes[i].children[k] as int)
                            };
                        assert(on_path(nodes, child as int, nodes[i].children[k] as int));
                    }
                }
            }
            index = child;
        }
        index
    }

    /// Between playouts the arena is a tree that the rules describe, the
    /// visits of its nodes are accounted for, and it holds at most one node
    /// for each playout besides the root, which has been visited once by
    /// every playout.
    pub proof fn lemma_invariant(&self)
        requires
            self.wf(),
        ensures
            self.configured(),
            linked(self.nodes()),
            ruled(self.game(), self.nodes()),
            counted(self.nodes(), self.completed() as int, self.nodes().len() as int),
            conserved(self.nodes(), self.nodes().len() as int),
            exact_at_ends(self.game(), self.nodes()),
            self.nodes().len() <= self.completed() + 1,
            self.nodes()[0].visit_count == self.completed(),
    {
    }

    /// The invariant of a search in the middle of a playout, when the
    /// youngest node may not have been visited yet.
    spec fn wf_pending(&self) -> bool {
        &&& self.configured()
        &&& linked(self.nodes())
        &&& ruled(self.game(), self.nodes())
        &&& counted(self.nodes(), self.completed() as int, self.nodes().len() - 1)
        &&& conserved(self.nodes(), self.nodes().len() - 1)
        &&& exact_at_ends(self.game(), self.nodes())
        &&& self.nodes().len() <= self.completed() + 2
    }

    /// Whether `other` is the same search but for its arena and the number
    /// of playouts run.
    pub open spec fn same_setup(&self, other: &Self) -> bool {
        &&& self.game() == other.game()
        &&& self.policy() == other.policy()
        &&& self.budget() == other.budget()
        &&& self.exploration() == other.exploration()
    }

    /// Makes the untried move at place `pick` of node `parent` into a new
    /// child, which becomes the youngest node of the arena.
    fn expand_at(&mut self, parent: usize, pick: usize) -> (child: usize)
        requires
            old(self).wf(),
            parent < old(self).nodes().len(),
            pick < old(self).nodes()[parent as int].untried_actions.len(),
        ensures
            child == old(self).nodes().len(),
            final(self).nodes().len() == child + 1,
            final(self).nodes() == expanded(
                final(self).game(),
                old(self).nodes(),
                parent as int,
                pick as int,
                final(self).nodes()[child as int].position,
            ),
            final(self).game().follows(
                &old(self).nodes()[parent as int].position,
                old(self).nodes()[parent as int].untried_actions[pick as int],
                &final(self).nodes()[child as int].position,
            ),
            final(self).same_setup(old(self)),
            final(self).completed() == old(self).completed(),
            final(self).wf_pending(),
            grown_from(final(self).nodes(), old(self).nodes()),
    {
        let ghost before = self.nodes();
        let child = self.tree.len();
        let action = self.tree[parent].untried_actions.remove(pick);
        proof {
            self.game.lemma_moves_until_terminal(&before[parent as int].position);
            lemma_untried_is_legal(self.game, before, parent as int, pick as int);
        }
        let next = self.game.apply(&self.tree[parent].position, &action);
        proof {
            self.game.lemma_successor(&before[parent as int].position, action, &next);
        }
        let untried = self.game.legal_actions(&next);
        let node = Node::new(next, untried, Some(action), Some(parent));
        self.tree[parent].children.push(child);
        self.tree.push(node);
        proof {
            let after = self.nodes();
            assert(after.len() == self.tree.len());
            assert(after =~= expanded(self.game, before, parent as int, pick as int, next));
            lemma_expanded_keeps(
                self.game,
                before,
                parent as int,
                pick as int,
                next,
                self.completed as int,
            );
        }
        child
    }

    /// Makes one of the untried moves of node `parent`, drawn at random,
    /// into a new child.
    fn expand(&mut self, parent: usize) -> (child: usize)
        requires
            old(self).wf(),
            parent < old(self).nodes().len(),
            old(self).nodes()[parent as int].untried_actions.len() > 0,
        ensures
            child == old(self).nodes().len(),
            exists|pick: int|
                {
                    &&& 0 <= pick < old(self).nodes()[parent as int].untried_actions.len()
                    &&& final(self).nodes() == #[trigger] expanded(
                        final(self).game(),
                        old(self).nodes(),
                        parent as int,
                        pick,
                        final(self).nodes()[child as int].position,
                    )
                },
            final(self).nodes().len() == child + 1,
            final(self).nodes()[child as int].visit_count == 0,
            final(self).nodes()[child as int].children.len() == 0,
            final(self).same_setup(old(self)),
            final(self).completed() == old(self).completed(),
            final(self).wf_pending(),
            grown_from(final(self).nodes(), old(self).nodes()),
    {
        let pick = random_below(self.tree[parent].untried_actions.len());
        self.expand_at(parent, pick)
    }

    /// Plays the game out from node `index` by moves drawn at random and
    /// tells what the ending is worth to the side to move at the node; for a
    /// node whose game has ended, that is what the rules say of it.
    fn simulate(&self, index: usize) -> (value: i64)
        requires
            linked(self.nodes()),
            ruled(self.game(), self.nodes()),
            index < self.nodes().len(),
        ensures
            line_value(self.game(), self.nodes()[index as int].position, value as int),
            -2 <= value <= 2,
            self.game().outcome(&self.nodes()[index as int].position).is_terminal() ==> value
                == standing(self.game().outcome(&self.nodes()[index as int].position)),
    {
        let start = &self.tree[index].position;
        let outcome = self.game.evaluate(start);
        if outcome.is_terminal() {
            return seen_from(outcome, false);
        }
        proof {
            self.game.lemma_moves_until_terminal(start);
        }
        let moves = self.game.legal_actions(start);
        let action = &moves[random_below(moves.len())];
        let mut current = self.game.apply(start, action);
        let mut odd = true;
        proof {
            self.game.lemma_successor(start, *action, &current);
        }
        loop
            invariant
                index < self.nodes().len(),
                *start == self.nodes()[index as int].position,
                !self.game.outcome(start).is_terminal(),
                self.game.valid(&current),
                forall|v: int| #[trigger]
                    line_value(self.game, current, v) ==> line_value(
                        self.game,
                        *start,
                        if odd {
                            -v
                        } else {
                            v
                        },
                    ),
            decreases self.game.horizon(&current),
        {
            let outcome = self.game.evaluate(&current);
            if outcome.is_terminal() {
                assert(line_value(self.game, current, standing(outcome)));
                return seen_from(outcome, odd);
            }
            proof {
                self.game.lemma_moves_until_terminal(&current);
            }
            let moves = self.game.legal_actions(&current);
            let action = &moves[random_below(moves.len())];
            let next = self.game.apply(&current, action);
            proof {
                self.game.lemma_successor(&current, *action, &next);
                assert forall|v: int| #[trigger] line_value(self.game, next, v) implies line_value(
                    self.game,
                    *start,
                    if !odd {
                        -v
                    } else {
                        v
                    },
                ) by {
                    assert(line_value(self.game, current, -v));
                }
            }
            current = next;
            odd = !odd;
        }
    }

    /// Carries the value of a playout from node `index` up to the root:
    /// every node on the way gets one visit more and the value as its own
    /// side sees it, which is the opposite of what its child got.
    fn backpropagate(&mut self, index: usize, value: i64)
        requires
            linked(old(self).nodes()),
            counted(old(self).nodes(), old(self).completed() as int, 0),
            old(self).completed() < old(self).budget(),
            index < old(self).nodes().len(),
            -2 <= value <= 2,
        ensures
            final(self).nodes() == backed_up(old(self).nodes(), index as int, value as int),
            final(self).same_setup(old(self)),
            final(self).completed() == old(self).completed(),
    {
        let ghost before = self.nodes();
        let mut current = index;
        let mut carried = value;
        proof {
            assert forall|i: int| index < i < before.len() implies !on_path(
                before,
                index as int,
                i,
            ) by {
                if on_path(before, index as int, i) {
                    lemma_path_goes_down(before, index as int, i);
                }
            }
        }
        loop
            invariant_except_break
                forall|i: int| 0 <= i <= current ==> self.nodes()[i] == before[i],
                forall|i: int|
                    current < i < before.len() ==> self.nodes()[i] == backed_up(
                        before,
                        index as int,
                        value as int,
                    )[i],
                on_path(before, index as int, current as int),
                credit(before, index as int, current as int, value as int) == carried,
                forall|i: int|
                    0 <= i < current ==> on_path(before, index as int, i) == #[trigger] on_path(
                        before,
                        current as int,
                        i,
                    ) && credit(before, index as int, i, value as int) == credit(
                        before,
                        current as int,
                        i,
                        carried as int,
                    ),
            invariant
                before == old(self).nodes(),
                linked(before),
                counted(before, self.completed as int, 0),
                self.completed < self.budget,
                self.nodes().len() == before.len(),
                current < before.len(),
                -2 <= carried <= 2,
                self.same_setup(old(self)),
                self.completed() == old(self).completed(),
            ensures
                self.nodes() =~= backed_up(before, index as int, value as int),
            decreases current,
        {
            let ghost here = self.nodes();
            self.tree[current].visit_count += 1;
            self.tree[current].value_sum += carried;
            proof {
                let now = self.nodes();
                assert forall|i: int| 0 <= i < before.len() && i != current implies now[i]
                    == here[i] by {}
                assert(now[current as int] == backed_up(before, index as int, value as int)[current as int]);
            }
            match self.tree[current].parent {
                Some(parent) => {
                    proof {
                        assert(before[current as int].parent == Some(parent));
                        assert(current >= 1);
                        assert(parent < current);
                        assert forall|i: int| parent < i < current implies !on_path(
                            before,
                            index as int,
                            i,
                        ) by {
                            assert(on_path(before, index as int, i) == on_path(
                                before,
                                current as int,
                                i,
                            ));
                            assert(on_path(before, current as int, i) == on_path(
                                before,
                                parent as int,
                                i,
                            ));
                            if on_path(before, parent as int, i) {
                                lemma_path_goes_down(before, parent as int, i);
                            }
                        }
                        assert(on_path(before, parent as int, parent as int));
                        assert(on_path(before, current as int, parent as int));
                        assert(credit(before, parent as int, parent as int, -carried as int)
                            == -carried);
                        assert(credit(before, current as int, parent as int, carried as int)
                            == -carried);
                        assert forall|i: int| 0 <= i < parent implies on_path(
                            before,
                            index as int,
                            i,
                        ) == #[trigger] on_path(before, parent as int, i) && credit(
                            before,
                            index as int,
                            i,
                            value as int,
                        ) == credit(before, parent as int, i, -carried as int) by {
                            assert(on_path(before, current as int, i) == on_path(
                                before,
                                parent as int,
                                i,
                            ));
                            assert(credit(before, current as int, i, carried as int) == credit(
                                before,
                                parent as int,
                                i,
                                -carried as int,
                            ));
                        }
                    }
                    current = parent;
                    carried = -carried;
                },
                None => {
                    assert(current == 0);
                    break ;
                },
            }
        }
    }

    /// A node is fully expanded exactly when it has a child and no move
    /// left to try, or the game has ended at it.
    pub proof fn lemma_fully_expanded(&self, i: int)
        requires
            self.wf(),
            0 <= i < self.nodes().len(),
        ensures
            self.nodes()[i].is_fully_expanded() <==> self.nodes()[i].is_inner()
                || self.game().outcome(&self.nodes()[i].position).is_terminal(),
    {
        lemma_bare_node_is_terminal(self.game, self.nodes(), i);
    }

    /// Carries the value of a playout up from the node that it has reached
    /// and counts the playout. The node is one at which the game has ended,
    /// or the new node of the playout, which alone may be without a visit;
    /// `settled` is the number of nodes that have been visited.
    fn settle(&mut self, index: usize, value: i64, Ghost(settled): Ghost<int>)
        requires
            old(self).configured(),
            old(self).completed() < old(self).budget(),
            linked(old(self).nodes()),
            ruled(old(self).game(), old(self).nodes()),
            counted(old(self).nodes(), old(self).completed() as int, settled),
            conserved(old(self).nodes(), settled),
            exact_at_ends(old(self).game(), old(self).nodes()),
            index < old(self).nodes().len(),
            -2 <= value <= 2,
            old(self).game().outcome(&old(self).nodes()[index as int].position).is_terminal()
                ==> value == standing(
                old(self).game().outcome(&old(self).nodes()[index as int].position),
            ),
            old(self).nodes()[index as int].children.len() == 0,
            settled >= old(self).nodes().len() ==> {
                &&& old(self).nodes()[index as int].untried_actions.len() == 0
                &&& old(self).nodes().len() <= old(self).completed() + 1
            },
            settled < old(self).nodes().len() ==> {
                &&& settled == old(self).nodes().len() - 1
                &&& index == settled
                &&& 1 <= index
                &&& old(self).nodes()[index as int].visit_count == 0
                &&& old(self).nodes().len() <= old(self).completed() + 2
            },
        ensures
            final(self).wf(),
            final(self).same_setup(old(self)),
            final(self).completed() == old(self).completed() + 1,
            final(self).nodes() == backed_up(old(self).nodes(), index as int, value as int),
            grown_from(final(self).nodes(), old(self).nodes()),
    {
        let ghost before = self.nodes();
        self.backpropagate(index, value);
        proof {
            lemma_backed_up_keeps(
                self.game,
                before,
                index as int,
                value as int,
                self.completed as int,
                settled,
            );
        }
        self.completed += 1;
    }

    /// Runs one playout: walks down to a node, adds a child to it unless
    /// its game has ended, values the node that was reached and carries
    /// the value up to the root.
    fn playout(&mut self)
        requires
            old(self).wf(),
            old(self).completed() < old(self).budget(),
        ensures
            final(self).wf(),
            final(self).same_setup(old(self)),
            final(self).completed() == old(self).completed() + 1,
            final(self).nodes().len() <= old(self).nodes().len() + 1,
            grown_from(final(self).nodes(), old(self).nodes()),
    {
        let ghost before = self.nodes();
        let leaf = self.select();
        let outcome = self.game.evaluate(&self.tree[leaf].position);
        proof {
            lemma_bare_node_is_terminal(self.game, before, leaf as int);
        }
        if outcome.is_terminal() {
            self.settle(leaf, seen_from(outcome, false), Ghost(before.len() as int));
        } else {
            let child = self.expand(leaf);
            let ghost grown = self.nodes();
            let value = self.simulate(child);
            self.settle(child, value, Ghost(grown.len() - 1));
            proof {
                lemma_grown_in_steps(self.nodes(), grown, before);
            }
        }
    }

    /// Tells the move that led to the root's most visited child, or to the
    /// first of several that were visited alike; none if the root has no
    /// child.
    pub fn get_best_action(&self) -> (best: Option<&G::Action>)
        requires
            self.wf(),
        ensures
            is_most_visited(self.nodes(), best),
            best matches Some(action) ==> self.game().legal(&self.nodes()[0].position).contains(
                *action,
            ),
    {
        let root = &self.tree[0];
        if root.children.len() == 0 {
            return None;
        }
        let mut visits: Vec<i64> = Vec::new();
        let mut k: usize = 0;
        while k < root.children.len()
            invariant
                self.wf(),
                root == &self.tree@[0],
                k <= root.children.len(),
                visits.len() == k,
                forall|j: int|
                    0 <= j < k ==> #[trigger] visits@[j] == child_visits(self.nodes(), 0)[j],
            decreases root.children.len() - k,
        {
            let child = root.children[k];
            assert(self.nodes()[0].children[k as int] == child);
            assert(self.nodes()[child as int].visit_count == self.tree@[child as int].visit_count);
            visits.push(self.tree[child].visit_count as i64);
            k += 1;
        }
        assert(ints(visits@) =~= child_visits(self.nodes(), 0));
        let best = first_maximum(&visits);
        let child = root.children[best];
        proof {
            lemma_child_move_is_legal(self.game, self.nodes(), 0, best as int);
        }
        self.tree[child].action_taken.as_ref()
    }

    /// Runs the playouts that the budget still allows and tells the move
    /// to make at the root. Where the game has ended at the root, there is
    /// no move to make and no playout is run.
    pub fn search(&mut self) -> (best: Option<&G::Action>)
        requires
            old(self).wf(),
        ensures
            final(self).wf(),
            final(self).same_setup(old(self)),
            grown_from(final(self).nodes(), old(self).nodes()),
            best is None <==> old(self).game().outcome(&old(self).nodes()[0].position).is_terminal(),
            best is None ==> final(self).nodes() == old(self).nodes() && final(self).completed()
                == old(self).completed(),
            final(self).nodes()[0].visit_count == final(self).completed(),
            final(self).nodes().len() <= 1 + final(self).completed(),
            best is Some ==> {
                &&& final(self).completed() == final(self).budget()
                &&& final(self).nodes().len() <= old(self).nodes().len() + (final(self).budget()
                    - old(self).completed())
                &&& is_most_visited(final(self).nodes(), best)
                &&& final(self).game().legal(&final(self).nodes()[0].position).contains(*best->0)
            },
    {
        let ghost before = self.nodes();
        proof {
            lemma_grown_from_itself(before);
        }
        if self.game.evaluate(&self.tree[0].position).is_terminal() {
            return None;
        }
        while self.completed < self.budget
            invariant
                self.wf(),
                self.same_setup(old(self)),
                before == old(self).nodes(),
                grown_from(self.nodes(), before),
                old(self).completed() <= self.completed(),
                self.nodes().len() - self.completed() <= before.len() - old(self).completed(),
            decreases self.budget - self.completed,
        {
            let ghost mid = self.nodes();
            self.playout();
            proof {
                lemma_grown_in_steps(self.nodes(), mid, before);
            }
        }
        proof {
            lemma_root_has_child(self.game, self.nodes(), self.completed as int);
        }
        self.get_best_action()
    }
}

} // verus!
