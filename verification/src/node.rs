//! The tree produced by the parser: directives with named arguments and
//! ordered children, free text lines, and raw comment blocks.

use vstd::prelude::*;

verus! {

broadcast use vstd::std_specs::vec::group_vec_axioms;

/// The mathematical shape of a parsed tree node: names and texts are
/// character sequences, arguments are a map from argument name to value,
/// and children are an ordered sequence.
#[verifier::ext_equal]
pub enum NodeView {
    Directive { name: Seq<char>, args: Map<Seq<char>, Seq<char>>, children: Seq<NodeView> },
    Text { line: Seq<char> },
    Comment { text: Seq<char> },
}

impl NodeView {
    /// The node's direct children; non-directives have none.
    pub open spec fn children(self) -> Seq<NodeView> {
        match self {
            NodeView::Directive { children, .. } => children,
            _ => Seq::empty(),
        }
    }
}

/// The arguments of one directive: a mapping from argument name to argument
/// value in which each name occurs at most once and a repeated insertion
/// silently overwrites the older value.
#[derive(Debug, PartialEq)]
pub struct Args {
    pairs: Vec<(String, String)>,
}

/// The mapping that a sequence of key-value pairs denotes: pairs are folded
/// in order, so of two pairs with the same key the later one wins.
pub open spec fn map_of_pairs(ps: Seq<(String, String)>) -> Map<Seq<char>, Seq<char>>
    decreases ps.len(),
{
    if ps.len() == 0 {
        Map::empty()
    } else {
        map_of_pairs(ps.drop_last()).insert(ps.last().0@, ps.last().1@)
    }
}

/// No two stored pairs share a key.
pub open spec fn unique_keys(ps: Seq<(String, String)>) -> bool {
    forall|i: int, j: int| 0 <= i < j < ps.len() ==> ps[i].0@ != ps[j].0@
}

proof fn lemma_map_of_pairs_contains(ps: Seq<(String, String)>, x: Seq<char>)
    ensures
        map_of_pairs(ps).contains_key(x) <==> exists|i: int| 0 <= i < ps.len() && ps[i].0@ == x,
    decreases ps.len(),
{
    if ps.len() > 0 {
        lemma_map_of_pairs_contains(ps.drop_last(), x);
        if map_of_pairs(ps).contains_key(x) {
            if ps.last().0@ == x {
                assert(ps[ps.len() - 1].0@ == x);
            } else {
                let i = choose|i: int| 0 <= i < ps.drop_last().len() && ps.drop_last()[i].0@ == x;
                assert(ps[i].0@ == x);
            }
        }
        if exists|i: int| 0 <= i < ps.len() && ps[i].0@ == x {
            let i = choose|i: int| 0 <= i < ps.len() && ps[i].0@ == x;
            if i < ps.len() - 1 {
                assert(ps.drop_last()[i].0@ == x);
            }
        }
    }
}

proof fn lemma_map_of_pairs_lookup(ps: Seq<(String, String)>, i: int)
    requires
        unique_keys(ps),
        0 <= i < ps.len(),
    ensures
        map_of_pairs(ps).contains_key(ps[i].0@),
        map_of_pairs(ps)[ps[i].0@] == ps[i].1@,
    decreases ps.len(),
{
    if i == ps.len() - 1 {
    } else {
        assert(ps.drop_last()[i] == ps[i]);
        lemma_map_of_pairs_lookup(ps.drop_last(), i);
        assert(ps[i].0@ != ps.last().0@);
    }
}

proof fn lemma_map_of_pairs_update(ps: Seq<(String, String)>, i: int, key: String, value: String)
    requires
        unique_keys(ps),
        0 <= i < ps.len(),
        ps[i].0@ == key@,
    ensures
        map_of_pairs(ps.update(i, (key, value))) =~= map_of_pairs(ps).insert(key@, value@),
    decreases ps.len(),
{
    let upd = ps.update(i, (key, value));
    if i == ps.len() - 1 {
        assert(upd.drop_last() =~= ps.drop_last());
        assert(map_of_pairs(upd) =~= map_of_pairs(ps).insert(key@, value@));
    } else {
        assert(upd.drop_last() =~= ps.drop_last().update(i, (key, value)));
        assert(ps.drop_last()[i] == ps[i]);
        lemma_map_of_pairs_update(ps.drop_last(), i, key, value);
        assert(ps[i].0@ != ps.last().0@);
        assert(map_of_pairs(upd) =~= map_of_pairs(ps).insert(key@, value@));
    }
}

impl Args {
    #[verifier::type_invariant]
    spec fn wf(self) -> bool {
        unique_keys(self.pairs@)
    }

    /// An empty argument mapping.
    pub fn new() -> (r: Args)
        ensures
            r@ == Map::<Seq<char>, Seq<char>>::empty(),
    {
        Args { pairs: Vec::new() }
    }

    /// Binds `key` to `value`, silently overwriting any value the key was
    /// bound to before.
    pub fn insert(&mut self, key: String, value: String)
        ensures
            final(self)@ == old(self)@.insert(key@, value@),
    {
        proof {
            use_type_invariant(&*self);
        }
        let ghost old_pairs = old(self).pairs@;
        let mut pairs: Vec<(String, String)> = Vec::new();
        core::mem::swap(&mut self.pairs, &mut pairs);
        let n = pairs.len();
        let mut i: usize = 0;
        let mut found = false;
        while i < n && !found
            invariant
                n == pairs@.len(),
                i <= n,
                pairs@ == old_pairs,
                !found ==> forall|j: int| 0 <= j < i ==> pairs@[j].0@ != key@,
                found ==> i < n && old_pairs[i as int].0@ == key@,
                unique_keys(old_pairs),
            decreases n - i, (if found {
                0int
            } else {
                1int
            }),
        {
            if pairs[i].0 == key {
                found = true;
            } else {
                i = i + 1;
            }
        }
        if found {
            pairs.remove(i);
            pairs.insert(i, (key, value));
            proof {
                assert(pairs@ =~= old_pairs.update(i as int, (key, value)));
                lemma_map_of_pairs_update(old_pairs, i as int, key, value);
                assert forall|a: int, b: int| 0 <= a < b < pairs@.len() implies pairs@[a].0@
                    != pairs@[b].0@ by {
                    assert(pairs@[a].0@ == old_pairs[a].0@);
                    assert(pairs@[b].0@ == old_pairs[b].0@);
                }
            }
        } else {
            pairs.push((key, value));
            proof {
                assert(pairs@.drop_last() =~= old_pairs);
                assert forall|a: int, b: int| 0 <= a < b < pairs@.len() implies pairs@[a].0@
                    != pairs@[b].0@ by {
                    if b < old_pairs.len() {
                        assert(pairs@[a] == old_pairs[a]);
                        assert(pairs@[b] == old_pairs[b]);
                    } else {
                        assert(pairs@[a] == old_pairs[a]);
                        assert(pairs@[b].0@ == key@);
                    }
                }
            }
        }
        core::mem::swap(&mut self.pairs, &mut pairs);
    }

    /// Looks up the value bound to `key`, if any.
    pub fn get(&self, key: &str) -> (r: Option<&String>)
        ensures
            match r {
                Some(v) => self@.contains_key(key@) && v@ == self@[key@],
                None => !self@.contains_key(key@),
            },
    {
        proof {
            use_type_invariant(self);
        }
        let k = key.to_owned();
        let n = self.pairs.len();
        let mut i: usize = 0;
        while i < n
            invariant
                n == self.pairs@.len(),
                i <= n,
                k@ == key@,
                forall|j: int| 0 <= j < i ==> self.pairs@[j].0@ != key@,
                unique_keys(self.pairs@),
            decreases n - i,
        {
            if self.pairs[i].0 == k {
                proof {
                    lemma_map_of_pairs_lookup(self.pairs@, i as int);
                }
                return Some(&self.pairs[i].1);
            }
            i = i + 1;
        }
        proof {
            lemma_map_of_pairs_contains(self.pairs@, key@);
        }
        None
    }
}

impl View for Args {
    type V = Map<Seq<char>, Seq<char>>;

    closed spec fn view(&self) -> Map<Seq<char>, Seq<char>> {
        map_of_pairs(self.pairs@)
    }
}

/// One node of a parsed document tree.
#[derive(Debug, PartialEq)]
pub enum Node {
    Directive { name: String, args: Args, children: Vec<Node> },
    Text(String),
    Comment(String),
}

/// The mathematical value of a node.
pub open spec fn node_view(n: Node) -> NodeView
    decreases n,
{
    match n {
        Node::Directive { name, args, children } => NodeView::Directive {
            name: name@,
            args: args@,
            children: nodes_view(children@),
        },
        Node::Text(s) => NodeView::Text { line: s@ },
        Node::Comment(s) => NodeView::Comment { text: s@ },
    }
}

/// The mathematical values of a sequence of nodes, in order.
pub open spec fn nodes_view(ns: Seq<Node>) -> Seq<NodeView>
    decreases ns,
{
    if ns.len() == 0 {
        Seq::empty()
    } else {
        seq![node_view(ns[0])] + nodes_view(ns.drop_first())
    }
}

pub broadcast proof fn lemma_nodes_view_len(ns: Seq<Node>)
    ensures
        (#[trigger] nodes_view(ns)).len() == ns.len(),
    decreases ns.len(),
{
    if ns.len() > 0 {
        lemma_nodes_view_len(ns.drop_first());
    }
}

pub broadcast proof fn lemma_nodes_view_index(ns: Seq<Node>, i: int)
    requires
        0 <= i < ns.len(),
    ensures
        #[trigger] nodes_view(ns)[i] == ns[i]@,
    decreases ns.len(),
{
    lemma_nodes_view_len(ns);
    if i > 0 {
        lemma_nodes_view_index(ns.drop_first(), i - 1);
    }
}

pub broadcast proof fn lemma_nodes_view_push(ns: Seq<Node>, n: Node)
    ensures
        #[trigger] nodes_view(ns.push(n)) =~= nodes_view(ns) + seq![node_view(n)],
    decreases ns.len(),
{
    if ns.len() == 0 {
        assert(ns.push(n).drop_first() =~= Seq::<Node>::empty());
        assert(ns.push(n)[0] == n);
        assert(nodes_view(Seq::<Node>::empty()) == Seq::<NodeView>::empty());
        assert(nodes_view(ns.push(n)) == seq![node_view(n)] + nodes_view(ns.push(n).drop_first()));
        assert(seq![node_view(n)] + Seq::<NodeView>::empty() =~= seq![node_view(n)]);
        assert(nodes_view(ns) + seq![node_view(n)] =~= seq![node_view(n)]);
    } else {
        assert(ns.push(n).drop_first() =~= ns.drop_first().push(n));
        lemma_nodes_view_push(ns.drop_first(), n);
    }
}

impl View for Node {
    type V = NodeView;

    open spec fn view(&self) -> NodeView {
        node_view(*self)
    }
}

impl Node {
    /// Whether this node is a directive with exactly the given name.
    pub fn is_directive(&self, name: &str) -> (r: bool)
        ensures
            r == (self@ matches NodeView::Directive { name: dn, .. } && dn == name@),
    {
        match self {
            Node::Directive { name: self_name, .. } => *self_name == name.to_owned(),
            _ => false,
        }
    }

    /// The node's direct children; an empty slice for non-directives.
    pub fn children(&self) -> (r: &[Node])
        ensures
            nodes_view(r@) == self@.children(),
    {
        proof {
            assert(nodes_view(Seq::<Node>::empty()) == Seq::<NodeView>::empty());
        }
        match self {
            Node::Directive { children, .. } => children.as_slice(),
            _ => &[],
        }
    }
}

} // verus!
