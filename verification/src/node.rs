//! The nodes of a search tree and the shape of the arena that holds them.

use vstd::prelude::*;

verus! {

/// One position of the search tree.
///
/// A node lives in an arena and is known by its index there; `parent` and
/// `children` are such indices.
///
/// A node by itself does not know the rules of the game. So it calls
/// itself fully expanded when no move is left for it to try. In the arena
/// of a search such a node has a child or stands at the end of the game,
/// which is what `Mcts::lemma_fully_expanded` states; of a node made by
/// hand nothing of the kind is known.
pub struct Node<P, A> {
    /// The position that the node stands for.
    pub position: P,
    /// The move that led here from the parent; the root has none.
    pub action_taken: Option<A>,
    /// The legal moves that have no child yet.
    pub untried_actions: Vec<A>,
    /// The parent's index; the root has none.
    pub parent: Option<usize>,
    /// The children's indices, in the order in which they were made.
    pub children: Vec<usize>,
    /// The number of playouts that have passed through the node.
    pub visit_count: u32,
    /// The sum, in half points, of what those playouts were worth to the
    /// side to move at the node.
    pub value_sum: i64,
}

/// What a node holds, as plain values.
pub ghost struct NodeView<P, A> {
    pub position: P,
    pub action_taken: Option<A>,
    pub untried_actions: Seq<A>,
    pub parent: Option<usize>,
    pub children: Seq<usize>,
    pub visit_count: nat,
    pub value_sum: int,
}

impl<P, A> View for Node<P, A> {
    type V = NodeView<P, A>;

    open spec fn view(&self) -> NodeView<P, A> {
        NodeView {
            position: self.position,
            action_taken: self.action_taken,
            untried_actions: self.untried_actions@,
            parent: self.parent,
            children: self.children@,
            visit_count: self.visit_count as nat,
            value_sum: self.value_sum as int,
        }
    }
}

impl<P, A> NodeView<P, A> {
    /// Whether no move is left to try. In the arena of a search such a node
    /// has a child, unless the game has ended at it; a node made by hand
    /// may have neither.
    pub open spec fn is_fully_expanded(self) -> bool {
        self.untried_actions.len() == 0
    }

    /// Whether no move is left to try while some child exists: the search
    /// passes through such a node and goes on below it.
    pub open spec fn is_inner(self) -> bool {
        self.is_fully_expanded() && self.children.len() > 0
    }
}

impl<P, A> Node<P, A> {
    /// A node that no playout has visited and that has no child.
    pub fn new(
        position: P,
        untried_actions: Vec<A>,
        action_taken: Option<A>,
        parent: Option<usize>,
    ) -> (node: Self)
        ensures
            node@ == (NodeView {
                position,
                action_taken,
                untried_actions: untried_actions@,
                parent,
                children: Seq::<usize>::empty(),
                visit_count: 0,
                value_sum: 0,
            }),
    {
        Node {
            position,
            action_taken,
            untried_actions,
            parent,
            children: Vec::new(),
            visit_count: 0,
            value_sum: 0,
        }
    }

    /// Whether no move is left to try. Whether the node has a child, or
    /// the game has ended at it, is not asked.
    pub fn is_fully_expanded(&self) -> (full: bool)
        ensures
            full == self@.is_fully_expanded(),
    {
        self.untried_actions.len() == 0
    }

    /// Whether no move is left to try while some child exists.
    pub fn is_inner(&self) -> (inner: bool)
        ensures
            inner == self@.is_inner(),
    {
        self.is_fully_expanded() && self.children.len() > 0
    }
}

/// The arena as plain values.
pub open spec fn views<P, A>(tree: Seq<Node<P, A>>) -> Seq<NodeView<P, A>> {
    Seq::new(tree.len(), |i: int| tree[i]@)
}

/// Whether the parent and child indices of an arena describe a tree that
/// is rooted at index 0 and in which every node was made after its parent.
/// The indices of an arena fit a `usize`.
pub open spec fn linked<P, A>(nodes: Seq<NodeView<P, A>>) -> bool {
    &&& 1 <= nodes.len() <= usize::MAX
    &&& nodes[0].parent is None
    &&& nodes[0].action_taken is None
    &&& forall|i: int|
        1 <= i < nodes.len() ==> {
            &&& (#[trigger] nodes[i]).action_taken is Some
            &&& nodes[i].parent is Some
            &&& nodes[i].parent->0 < i
            &&& nodes[nodes[i].parent->0 as int].children.contains(i as usize)
        }
    &&& forall|p: int, k: int|
        0 <= p < nodes.len() && 0 <= k < nodes[p].children.len() ==> {
            &&& p < (#[trigger] nodes[p].children[k]) < nodes.len()
            &&& nodes[nodes[p].children[k] as int].parent == Some(p as usize)
        }
    &&& forall|p: int, j: int, k: int|
        0 <= p < nodes.len() && 0 <= j < k < nodes[p].children.len() ==> (
        #[trigger] nodes[p].children[j]) < (#[trigger] nodes[p].children[k])
}

/// Whether a walk from node `from` up to the root passes through node `i`.
pub open spec fn on_path<P, A>(nodes: Seq<NodeView<P, A>>, from: int, i: int) -> bool
    decreases from,
{
    if from == i {
        true
    } else if 0 < from < nodes.len() && nodes[from].parent is Some && nodes[from].parent->0
        < from {
        on_path(nodes, nodes[from].parent->0 as int, i)
    } else {
        false
    }
}

/// What a walk from node `from` up to the root, which starts with `value`
/// and turns it into its opposite at every step, hands to node `i`; zero
/// where the walk does not pass.
pub open spec fn credit<P, A>(nodes: Seq<NodeView<P, A>>, from: int, i: int, value: int) -> int
    decreases from,
{
    if from == i {
        value
    } else if 0 < from < nodes.len() && nodes[from].parent is Some && nodes[from].parent->0
        < from {
        credit(nodes, nodes[from].parent->0 as int, i, -value)
    } else {
        0
    }
}

/// The number of steps from node `i` up to the root.
pub open spec fn depth<P, A>(nodes: Seq<NodeView<P, A>>, i: int) -> nat
    decreases i,
{
    if 0 < i < nodes.len() && nodes[i].parent is Some && nodes[i].parent->0 < i {
        1 + depth(nodes, nodes[i].parent->0 as int)
    } else {
        0
    }
}

/// A value changes its sign once for every step that it is carried up:
/// a node gets the value itself if it lies an even number of steps above
/// the start of the walk, and the opposite if the number is odd.
pub proof fn lemma_credit_alternates<P, A>(
    nodes: Seq<NodeView<P, A>>,
    from: int,
    i: int,
    value: int,
)
    requires
        on_path(nodes, from, i),
    ensures
        depth(nodes, i) <= depth(nodes, from),
        credit(nodes, from, i, value) == if (depth(nodes, from) - depth(nodes, i)) % 2 == 0 {
            value
        } else {
            -value
        },
    decreases from,
{
    if from != i {
        lemma_credit_alternates(nodes, nodes[from].parent->0 as int, i, -value);
    }
}

/// Every walk up the tree ends at the root.
pub proof fn lemma_path_reaches_root<P, A>(nodes: Seq<NodeView<P, A>>, from: int)
    requires
        linked(nodes),
        0 <= from < nodes.len(),
    ensures
        on_path(nodes, from, 0),
    decreases from,
{
    if from != 0 {
        lemma_path_reaches_root(nodes, nodes[from].parent->0 as int);
    }
}

/// A walk that passes through a node passes through its parent.
pub(crate) proof fn lemma_path_holds_parent<P, A>(nodes: Seq<NodeView<P, A>>, from: int, i: int)
    requires
        linked(nodes),
        0 <= from < nodes.len(),
        1 <= i < nodes.len(),
        on_path(nodes, from, i),
    ensures
        on_path(nodes, from, nodes[i].parent->0 as int),
    decreases from,
{
    if from != i {
        lemma_path_holds_parent(nodes, nodes[from].parent->0 as int, i);
    } else {
        let p = nodes[i].parent->0 as int;
        assert(on_path(nodes, p, p));
    }
}

/// A walk passes only through nodes that are no younger than its start.
pub(crate) proof fn lemma_path_goes_down<P, A>(nodes: Seq<NodeView<P, A>>, from: int, i: int)
    requires
        on_path(nodes, from, i),
    ensures
        i <= from,
    decreases from,
{
    if from != i {
        lemma_path_goes_down(nodes, nodes[from].parent->0 as int, i);
    }
}

/// A walk that passes through two nodes passes through the older one on
/// its way up from the younger one.
pub(crate) proof fn lemma_path_is_a_chain<P, A>(nodes: Seq<NodeView<P, A>>, from: int, a: int, b: int)
    requires
        on_path(nodes, from, a),
        on_path(nodes, from, b),
        b <= a,
    ensures
        on_path(nodes, a, b),
    decreases from,
{
    if from != a {
        let p = nodes[from].parent->0 as int;
        lemma_path_goes_down(nodes, p, a);
        lemma_path_is_a_chain(nodes, p, a, b);
    }
}

/// A walk that passes through a node other than its start comes to it
/// from one of its children.
pub(crate) proof fn lemma_path_comes_from_child<P, A>(nodes: Seq<NodeView<P, A>>, from: int, i: int) -> (c:
    int)
    requires
        linked(nodes),
        0 <= from < nodes.len(),
        on_path(nodes, from, i),
        i != from,
    ensures
        i < c < nodes.len(),
        nodes[c].parent == Some(i as usize),
        on_path(nodes, from, c),
    decreases from,
{
    let p = nodes[from].parent->0 as int;
    if p == i {
        from
    } else {
        lemma_path_comes_from_child(nodes, p, i)
    }
}

/// A walk passes through at most one child of a node.
pub(crate) proof fn lemma_path_holds_one_child<P, A>(
    nodes: Seq<NodeView<P, A>>,
    from: int,
    i: int,
    j: int,
    k: int,
)
    requires
        linked(nodes),
        0 <= from < nodes.len(),
        0 <= i < nodes.len(),
        0 <= j < nodes[i].children.len(),
        0 <= k < nodes[i].children.len(),
        on_path(nodes, from, nodes[i].children[j] as int),
        on_path(nodes, from, nodes[i].children[k] as int),
    ensures
        j == k,
{
    let a = nodes[i].children[j] as int;
    let b = nodes[i].children[k] as int;
    if j < k {
        lemma_path_is_a_chain(nodes, from, b, a);
        lemma_path_goes_down(nodes, i, a);
    } else if k < j {
        lemma_path_is_a_chain(nodes, from, a, b);
        lemma_path_goes_down(nodes, i, b);
    }
}

/// The visits of the first `upto` children of node `i`, added up.
pub open spec fn visits_below<P, A>(nodes: Seq<NodeView<P, A>>, i: int, upto: int) -> int
    decreases upto,
{
    if upto <= 0 {
        0
    } else {
        visits_below(nodes, i, upto - 1) + nodes[nodes[i].children[upto - 1] as int].visit_count
    }
}

/// Whether the visits of every node below `settled` are accounted for: a
/// node that has a child or a move left to try has been visited once for
/// itself, unless it is the root, and once for each visit to a child.
pub open spec fn conserved<P, A>(nodes: Seq<NodeView<P, A>>, settled: int) -> bool {
    forall|i: int|
        0 <= i < settled && i < nodes.len() && (nodes[i].untried_actions.len() > 0
            || nodes[i].children.len() > 0) ==> nodes[i].visit_count == (if i == 0 {
            0int
        } else {
            1int
        }) + #[trigger] visits_below(nodes, i, nodes[i].children.len() as int)
}

/// The visits below a node are those of its children only.
pub(crate) proof fn lemma_visits_below_of_same<P, A>(
    old: Seq<NodeView<P, A>>,
    new: Seq<NodeView<P, A>>,
    i: int,
    j: int,
    upto: int,
)
    requires
        0 <= i < old.len(),
        0 <= j < new.len(),
        0 <= upto <= old[i].children.len(),
        upto <= new[j].children.len(),
        forall|k: int|
            0 <= k < upto ==> {
                &&& #[trigger] new[j].children[k] == old[i].children[k]
                &&& 0 <= old[i].children[k] < old.len()
                &&& old[i].children[k] < new.len()
                &&& new[new[j].children[k] as int].visit_count
                    == old[old[i].children[k] as int].visit_count
            },
    ensures
        visits_below(new, j, upto) == visits_below(old, i, upto),
    decreases upto,
{
    if upto > 0 {
        lemma_visits_below_of_same(old, new, i, j, upto - 1);
    }
}

} // verus!
