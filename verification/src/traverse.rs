//! Lazy depth-first traversal over a parsed tree: an explicit-state,
//! resumable iterator that yields every node of the tree exactly once, in
//! pre-order, without recursing on the call stack while it runs.

use vstd::prelude::*;

verus! {

use crate::node::Node;
use crate::node::NodeView;
use crate::node::lemma_nodes_view_index;
use crate::node::lemma_nodes_view_len;
use crate::node::node_view;
use crate::node::nodes_view;

/// The pre-order sequence of a tree: the node itself, then each child's
/// full pre-order sequence, in child order.
pub open spec fn dfs(n: NodeView) -> Seq<NodeView>
    decreases n,
{
    match n {
        NodeView::Directive { children, .. } => seq![n] + dfs_all(children),
        _ => seq![n],
    }
}

/// The concatenation of the pre-order sequences of a sequence of trees.
pub open spec fn dfs_all(ns: Seq<NodeView>) -> Seq<NodeView>
    decreases ns,
{
    if ns.len() == 0 {
        Seq::empty()
    } else {
        dfs(ns[0]) + dfs_all(ns.drop_first())
    }
}

/// What a traversal with the given pending stack has yet to yield: the
/// pre-order sequence of the top entry, then of the one below it, and so
/// on to the bottom.
pub open spec fn stack_remaining(st: Seq<&Node>) -> Seq<NodeView>
    decreases st.len(),
{
    if st.len() == 0 {
        Seq::empty()
    } else {
        dfs(node_view(*st.last())) + stack_remaining(st.drop_last())
    }
}

proof fn lemma_dfs_all_skip(vs: Seq<NodeView>, i: int)
    requires
        0 <= i < vs.len(),
    ensures
        dfs_all(vs.skip(i)) == dfs(vs[i]) + dfs_all(vs.skip(i + 1)),
{
    assert(vs.skip(i).drop_first() =~= vs.skip(i + 1));
    assert(vs.skip(i)[0] == vs[i]);
}

/// A suspended depth-first traversal: the stack holds, top first, the
/// subtrees that have not been yielded yet.
pub struct DepthFirstIterator<'a> {
    stack: Vec<&'a Node>,
}

impl<'a> DepthFirstIterator<'a> {
    /// The nodes this traversal has yet to yield, in order.
    pub closed spec fn remaining(self) -> Seq<NodeView> {
        stack_remaining(self.stack@)
    }

    /// Yields the next node of the traversal in pre-order, or `None` once
    /// every node of the tree has been yielded exactly once.
    #[verifier::loop_isolation(false)]
    pub fn next(&mut self) -> (r: Option<&'a Node>)
        ensures
            old(self).remaining().len() == 0 ==> r is None && final(self).remaining()
                == old(self).remaining(),
            old(self).remaining().len() > 0 ==> (r matches Some(n) && node_view(*n)
                == old(self).remaining()[0] && final(self).remaining() == old(
                self,
            ).remaining().drop_first()),
    {
        let ghost st_old = self.stack@;
        match self.stack.pop() {
            None => {
                proof {
                    assert(st_old.len() == 0);
                }
                None
            },
            Some(n) => {
                let ghost nv = node_view(*n);
                let ghost st0 = self.stack@;
                proof {
                    assert(st_old.last() == n);
                    assert(st_old.drop_last() == st0);
                    assert(stack_remaining(st_old) == dfs(nv) + stack_remaining(st0));
                }
                match n {
                    Node::Directive { children, .. } => {
                        let ghost cs = nodes_view(children@);
                        proof {
                            lemma_nodes_view_len(children@);
                            assert(nv.children() == cs);
                            assert(cs.skip(cs.len() as int) =~= Seq::<NodeView>::empty());
                            assert(Seq::<NodeView>::empty() + stack_remaining(st0)
                                =~= stack_remaining(st0));
                        }
                        let mut i = children.len();
                        while i > 0
                            invariant
                                i <= children@.len(),
                                stack_remaining(self.stack@) == dfs_all(cs.skip(i as int))
                                    + stack_remaining(st0),
                            decreases i,
                        {
                            i = i - 1;
                            let ghost st_before = self.stack@;
                            self.stack.push(&children[i]);
                            proof {
                                lemma_nodes_view_index(children@, i as int);
                                lemma_dfs_all_skip(cs, i as int);
                                assert(self.stack@.drop_last() =~= st_before);
                                assert(self.stack@.last() == &children[i as int]);
                                assert(stack_remaining(self.stack@) == dfs(cs[i as int])
                                    + stack_remaining(st_before));
                                assert(dfs(cs[i as int]) + (dfs_all(cs.skip(i + 1))
                                    + stack_remaining(st0)) =~= dfs_all(cs.skip(i as int))
                                    + stack_remaining(st0));
                            }
                        }
                        proof {
                            assert(cs.skip(0) =~= cs);
                            assert(stack_remaining(self.stack@) == dfs_all(cs) + stack_remaining(
                                st0,
                            ));
                            assert((seq![nv] + dfs_all(cs)) + stack_remaining(st0) =~= seq![nv] + (
                            dfs_all(cs) + stack_remaining(st0)));
                            assert((dfs(nv) + stack_remaining(st0)).drop_first() =~= dfs_all(cs)
                                + stack_remaining(st0));
                        }
                    },
                    _ => {
                        proof {
                            assert(dfs(nv) == seq![nv]);
                            assert((seq![nv] + stack_remaining(st0)).drop_first()
                                =~= stack_remaining(st0));
                        }
                    },
                }
                proof {
                    assert(stack_remaining(st_old)[0] == nv);
                }
                Some(n)
            },
        }
    }
}

impl Node {
    /// Starts a lazy depth-first traversal of this node's tree. Pulling
    /// the iterator yields the whole pre-order sequence: the node itself
    /// first, then every descendant, each exactly once.
    pub fn depth_first(&self) -> (it: DepthFirstIterator<'_>)
        ensures
            it.remaining() == dfs(self@),
    {
        let mut stack: Vec<&Node> = Vec::new();
        stack.push(self);
        proof {
            assert(stack@.drop_last() =~= Seq::<&Node>::empty());
            assert(stack@.last() == self);
            assert(stack_remaining(Seq::<&Node>::empty()) == Seq::<NodeView>::empty());
            assert(stack_remaining(stack@) == dfs(node_view(*self)) + Seq::<NodeView>::empty());
            assert(dfs(node_view(*self)) + Seq::<NodeView>::empty() =~= dfs(node_view(*self)));
        }
        DepthFirstIterator { stack }
    }
}

} // verus!
