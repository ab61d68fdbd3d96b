use vstd::prelude::*;

verus! {

/// One state that a search took in, with the place of the state it was reached from.
pub struct Node<T> {
    pub state: T,
    pub parent: Option<usize>,
    pub depth: usize,
}

/// Whether node `i` has a parent that was added before it and lies one step nearer to the
/// root.
pub open spec fn is_child<T>(nodes: Seq<Node<T>>, i: int) -> bool {
    match nodes[i].parent {
        Some(p) => p < i && nodes[i].depth == nodes[p as int].depth + 1,
        None => false,
    }
}

/// Whether the nodes form a tree that grew from its first node: every other node is the
/// child of a node that was added before it.
pub open spec fn is_tree<T>(nodes: Seq<Node<T>>) -> bool {
    &&& nodes.len() >= 1
    &&& nodes[0].parent is None
    &&& nodes[0].depth == 0
    &&& forall|i: int| 1 <= i < nodes.len() ==> #[trigger] is_child(nodes, i)
}

/// The states on the way from the root to node `i`, the root first.
pub open spec fn branch<T>(nodes: Seq<Node<T>>, i: int) -> Seq<T>
    decreases i,
{
    if 0 < i < nodes.len() {
        match nodes[i].parent {
            Some(p) => if p < i {
                branch(nodes, p as int).push(nodes[i].state)
            } else {
                seq![nodes[i].state]
            },
            None => seq![nodes[i].state],
        }
    } else if i == 0 && nodes.len() > 0 {
        seq![nodes[0].state]
    } else {
        Seq::empty()
    }
}

/// A node lies as many steps from the root as its depth says, and no deeper than its
/// place in the tree.
pub proof fn lemma_branch_length<T>(nodes: Seq<Node<T>>, i: int)
    requires
        is_tree(nodes),
        0 <= i < nodes.len(),
    ensures
        branch(nodes, i).len() == nodes[i].depth + 1,
        branch(nodes, i)[0] == nodes[0].state,
        branch(nodes, i).last() == nodes[i].state,
        nodes[i].depth <= i,
    decreases i,
{
    if i > 0 {
        assert(is_child(nodes, i));
        lemma_branch_length(nodes, nodes[i].parent->0 as int);
    }
}

/// Produces the path that leads to a place in a search.
pub trait TracePath<T> {
    fn trace_path(self) -> Vec<T>;
}

/// The states that a search took in, in the order in which it took them in, each with
/// the place of its parent.
pub struct SearchTree<T> {
    nodes: Vec<Node<T>>,
}

impl<T> View for SearchTree<T> {
    type V = Seq<Node<T>>;

    closed spec fn view(&self) -> Seq<Node<T>> {
        self.nodes@
    }
}

impl<T> SearchTree<T> {
    #[verifier::type_invariant]
    closed spec fn grown_from_root(self) -> bool {
        is_tree(self.nodes@)
    }

    /// Creates the tree that holds the root alone.
    pub fn with_root(state: T) -> (r: Self)
        ensures
            r@ == seq![Node { state, parent: None, depth: 0 }],
    {
        let mut nodes = Vec::new();
        nodes.push(Node { state, parent: None, depth: 0 });
        assert(nodes@ =~= seq![Node { state, parent: None, depth: 0 }]);
        Self { nodes }
    }

    /// Returns the number of nodes, which is never zero.
    pub fn len(&self) -> (n: usize)
        ensures
            n == self@.len(),
            n >= 1,
            is_tree(self@),
    {
        proof {
            use_type_invariant(self);
        }
        self.nodes.len()
    }

    /// Returns the state of node `index`.
    pub fn state(&self, index: usize) -> (r: &T)
        requires
            index < self@.len(),
        ensures
            *r == self@[index as int].state,
    {
        &self.nodes[index].state
    }

    /// Returns the number of steps between the root and node `index`.
    pub fn depth(&self, index: usize) -> (r: usize)
        requires
            index < self@.len(),
        ensures
            r == self@[index as int].depth,
            r <= index,
    {
        proof {
            use_type_invariant(self);
            lemma_branch_length(self.nodes@, index as int);
        }
        self.nodes[index].depth
    }

    /// Returns the tree with one more node, added last: a child of node `parent` that
    /// holds `state`.
    pub fn add_child(self, parent: usize, state: T) -> (r: Self)
        requires
            parent < self@.len(),
        ensures
            r@ == self@.push(
                Node {
                    state,
                    parent: Some(parent),
                    depth: (self@[parent as int].depth + 1) as usize,
                },
            ),
            self@[parent as int].depth + 1 <= usize::MAX,
    {
        proof {
            use_type_invariant(&self);
            lemma_branch_length(self.nodes@, parent as int);
        }
        let ghost before = self.nodes@;
        let mut nodes = self.nodes;
        assert(nodes@[parent as int].depth <= parent < nodes.len());
        let depth = nodes[parent].depth + 1;
        nodes.push(Node { state, parent: Some(parent), depth });
        proof {
            assert forall|i: int| 1 <= i < nodes@.len() implies #[trigger] is_child(nodes@, i) by {
                if i < before.len() {
                    assert(is_child(before, i));
                    assert(nodes@[i] == before[i]);
                    assert(nodes@[before[i].parent->0 as int] == before[before[i].parent->0 as int]);
                } else {
                    assert(nodes@[parent as int] == before[parent as int]);
                }
            }
        }
        Self { nodes }
    }
}

impl<T> TracePath<T> for SearchTree<T> {
    /// Returns the states on the way from the root to the node that was added last, the
    /// root first.
    fn trace_path(self) -> (path: Vec<T>)
        ensures
            path@ == branch(self@, self@.len() - 1),
    {
        proof {
            use_type_invariant(&self);
        }
        let ghost tree = self.nodes@;
        let mut nodes = self.nodes;
        let mut wanted: Option<usize> = Some(nodes.len() - 1);
        let mut backwards: Vec<T> = Vec::new();
        while nodes.len() > 0
            invariant
                is_tree(tree),
                nodes@ == tree.subrange(0, nodes@.len() as int),
                nodes@.len() <= tree.len(),
                match wanted {
                    Some(w) => w < nodes@.len() && branch(tree, tree.len() - 1) == branch(
                        tree,
                        w as int,
                    ) + backwards@.reverse(),
                    None => branch(tree, tree.len() - 1) == backwards@.reverse(),
                },
                nodes@.len() == 0 ==> wanted is None,
            decreases nodes@.len(),
        {
            let ghost i = nodes@.len() - 1;
            let ghost before = backwards@;
            let node = nodes.pop().unwrap();
            assert(node == tree[i]);
            assert(i > 0 ==> is_child(tree, i));
            if wanted == Some(nodes.len()) {
                backwards.push(node.state);
                wanted = node.parent;
                proof {
                    assert(backwards@.reverse() =~= seq![node.state] + before.reverse());
                    match node.parent {
                        Some(p) => {
                            assert(branch(tree, i) == branch(tree, p as int).push(node.state));
                            assert(branch(tree, p as int).push(node.state) + before.reverse()
                                =~= branch(tree, p as int) + backwards@.reverse());
                        },
                        None => {
                            assert(i == 0);
                            assert(branch(tree, i) =~= seq![node.state]);
                            assert(seq![node.state] + before.reverse() =~= backwards@.reverse());
                        },
                    }
                }
            }
            assert(nodes@ =~= tree.subrange(0, nodes@.len() as int));
        }
        let mut path: Vec<T> = Vec::new();
        let ghost all = backwards@;
        while backwards.len() > 0
            invariant
                backwards@.len() <= all.len(),
                backwards@ == all.subrange(0, backwards@.len() as int),
                path@ == all.subrange(backwards@.len() as int, all.len() as int).reverse(),
            decreases backwards@.len(),
        {
            let ghost n = backwards@.len();
            let state = backwards.pop().unwrap();
            path.push(state);
            assert(backwards@ =~= all.subrange(0, n - 1));
            assert(path@ =~= all.subrange(n - 1, all.len() as int).reverse());
        }
        assert(path@ =~= all.reverse());
        path
    }
}

} // verus!
