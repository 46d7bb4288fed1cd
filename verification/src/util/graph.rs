use std::collections::VecDeque;
use vstd::prelude::*;

verus! {

/// A named node of a [`Graph`], carrying user data.
pub struct Node<T> {
    pub name: String,
    pub data: T,
}

/// A directed edge between two node indices, carrying user data.
pub struct Edge<U: Copy> {
    pub src: usize,
    pub dst: usize,
    pub info: U,
}

/// A mutable directed graph whose nodes are looked up by name.
///
/// Adding a node under a name that is already present makes the new node the
/// one that the name refers to; edges always connect the nodes that their
/// end names referred to when the edge was added.
pub struct Graph<T, U: Copy> {
    nodes: Vec<Node<T>>,
    edges: Vec<Edge<U>>,
    /// For each node index: (destination node index, edge index) of the edges leaving it.
    src_edge_refs: Vec<Vec<(usize, usize)>>,
    /// For each node index: (source node index, edge index) of the edges entering it.
    dst_edge_refs: Vec<Vec<(usize, usize)>>,
}

/// Index of the last node in `nodes` named `name`, or -1 when there is none.
pub open spec fn last_named<T>(nodes: Seq<Node<T>>, name: Seq<char>) -> int
    decreases nodes.len(),
{
    if nodes.len() == 0 {
        -1
    } else if nodes.last().name@ == name {
        nodes.len() - 1
    } else {
        last_named(nodes.drop_last(), name)
    }
}

/// The (destination, edge index) pairs of the edges in `edges` leaving node `i`, in order.
pub open spec fn outgoing<U: Copy>(edges: Seq<Edge<U>>, i: int) -> Seq<(usize, usize)>
    decreases edges.len(),
{
    if edges.len() == 0 {
        Seq::empty()
    } else {
        let rest = outgoing(edges.drop_last(), i);
        if edges.last().src == i {
            rest.push((edges.last().dst, (edges.len() - 1) as usize))
        } else {
            rest
        }
    }
}

/// The (source, edge index) pairs of the edges in `edges` entering node `i`, in order.
pub open spec fn incoming<U: Copy>(edges: Seq<Edge<U>>, i: int) -> Seq<(usize, usize)>
    decreases edges.len(),
{
    if edges.len() == 0 {
        Seq::empty()
    } else {
        let rest = incoming(edges.drop_last(), i);
        if edges.last().dst == i {
            rest.push((edges.last().src, (edges.len() - 1) as usize))
        } else {
            rest
        }
    }
}


/// `queue` followed by the elements of `extra`, in order, each appended only
/// when it is not already in the queue built so far.
pub open spec fn append_unique(queue: Seq<usize>, extra: Seq<usize>) -> Seq<usize>
    decreases extra.len(),
{
    if extra.len() == 0 {
        queue
    } else {
        let q = append_unique(queue, extra.drop_last());
        if q.contains(extra.last()) {
            q
        } else {
            q.push(extra.last())
        }
    }
}

/// The bound on the number of queue entries that a breadth-first walk takes.
pub open spec fn walk_limit() -> nat {
    1000
}

proof fn lemma_last_named_found<T>(nodes: Seq<Node<T>>, name: Seq<char>, j: int)
    requires
        0 <= j < nodes.len(),
        nodes[j].name@ == name,
        forall|k: int| j < k < nodes.len() ==> nodes[k].name@ != name,
    ensures
        last_named(nodes, name) == j,
    decreases nodes.len(),
{
    if j < nodes.len() - 1 {
        lemma_last_named_found(nodes.drop_last(), name, j);
    }
}


proof fn lemma_last_named_at_least<T>(nodes: Seq<Node<T>>, j: int)
    requires
        0 <= j < nodes.len(),
    ensures
        last_named(nodes, nodes[j].name@) >= j,
    decreases nodes.len(),
{
    if j < nodes.len() - 1 {
        assert(nodes.drop_last()[j] == nodes[j]);
        lemma_last_named_at_least(nodes.drop_last(), j);
    }
}

proof fn lemma_last_named_absent<T>(nodes: Seq<Node<T>>, name: Seq<char>)
    requires
        forall|k: int| 0 <= k < nodes.len() ==> nodes[k].name@ != name,
    ensures
        last_named(nodes, name) == -1,
    decreases nodes.len(),
{
    if nodes.len() > 0 {
        lemma_last_named_absent(nodes.drop_last(), name);
    }
}

proof fn lemma_last_named_bounds<T>(nodes: Seq<Node<T>>, name: Seq<char>)
    ensures
        -1 <= last_named(nodes, name) < nodes.len(),
        last_named(nodes, name) >= 0 ==> nodes[last_named(nodes, name)].name@ == name,
    decreases nodes.len(),
{
    if nodes.len() > 0 {
        lemma_last_named_bounds(nodes.drop_last(), name);
    }
}


proof fn lemma_adjacency_of_fresh_node<U: Copy>(edges: Seq<Edge<U>>, n: int)
    requires
        forall|k: int| 0 <= k < edges.len() ==> #[trigger] edges[k].src < n && edges[k].dst < n,
    ensures
        outgoing(edges, n) == Seq::<(usize, usize)>::empty(),
        incoming(edges, n) == Seq::<(usize, usize)>::empty(),
    decreases edges.len(),
{
    if edges.len() > 0 {
        let e = edges.drop_last();
        assert forall|k: int| 0 <= k < e.len() implies #[trigger] e[k].src < n && e[k].dst < n by {
            assert(e[k] == edges[k]);
        }
        lemma_adjacency_of_fresh_node(e, n);
    }
}


proof fn lemma_adjacency_in_range<U: Copy>(edges: Seq<Edge<U>>, i: int, n: int)
    requires
        forall|k: int| 0 <= k < edges.len() ==> #[trigger] edges[k].src < n && edges[k].dst < n,
    ensures
        forall|k: int| 0 <= k < outgoing(edges, i).len() ==> #[trigger] outgoing(edges, i)[k].0 < n
            && outgoing(edges, i)[k].1 < edges.len(),
        forall|k: int| 0 <= k < incoming(edges, i).len() ==> #[trigger] incoming(edges, i)[k].0 < n
            && incoming(edges, i)[k].1 < edges.len(),
    decreases edges.len(),
{
    if edges.len() > 0 {
        let e = edges.drop_last();
        assert forall|k: int| 0 <= k < e.len() implies #[trigger] e[k].src < n && e[k].dst < n by {
            assert(e[k] == edges[k]);
        }
        lemma_adjacency_in_range(e, i, n);
        let last = edges.len() - 1;
        assert(edges.last() == edges[last]);
        let o = outgoing(edges, i);
        let ro = outgoing(e, i);
        assert forall|k: int| 0 <= k < o.len() implies #[trigger] o[k].0 < n && o[k].1 < edges.len() by {
            if k < ro.len() {
                assert(o[k] == ro[k]);
            }
        }
        let c = incoming(edges, i);
        let rc = incoming(e, i);
        assert forall|k: int| 0 <= k < c.len() implies #[trigger] c[k].0 < n && c[k].1 < edges.len() by {
            if k < rc.len() {
                assert(c[k] == rc[k]);
            }
        }
    }
}

proof fn lemma_adjacency_push<U: Copy>(edges: Seq<Edge<U>>, e: Edge<U>, i: int)
    ensures
        outgoing(edges.push(e), i) == if e.src == i {
            outgoing(edges, i).push((e.dst, edges.len() as usize))
        } else {
            outgoing(edges, i)
        },
        incoming(edges.push(e), i) == if e.dst == i {
            incoming(edges, i).push((e.src, edges.len() as usize))
        } else {
            incoming(edges, i)
        },
{
    assert(edges.push(e).drop_last() =~= edges);
}

proof fn lemma_last_named_push<T>(nodes: Seq<Node<T>>, n: Node<T>, name: Seq<char>)
    ensures
        last_named(nodes.push(n), name) == if n.name@ == name {
            nodes.len() as int
        } else {
            last_named(nodes, name)
        },
{
    assert(nodes.push(n).drop_last() =~= nodes);
}


fn vec_contains(v: &Vec<usize>, x: usize) -> (b: bool)
    ensures
        b == v@.contains(x),
{
    let mut i: usize = 0;
    while i < v.len()
        invariant
            i <= v@.len(),
            forall|k: int| 0 <= k < i ==> v@[k] != x,
        decreases v@.len() - i,
    {
        if v[i] == x {
            assert(v@[i as int] == x);
            return true;
        }
        i = i + 1;
    }
    false
}

fn deque_contains(v: &VecDeque<usize>, x: usize) -> (b: bool)
    ensures
        b == v@.contains(x),
{
    let mut i: usize = 0;
    while i < v.len()
        invariant
            i <= v@.len(),
            forall|k: int| 0 <= k < i ==> v@[k] != x,
        decreases v@.len() - i,
    {
        if v[i] == x {
            assert(v@[i as int] == x);
            return true;
        }
        i = i + 1;
    }
    false
}

impl<T, U: Copy> Graph<T, U> {
    /// The nodes, in the order they were added.
    pub closed spec fn node_seq(&self) -> Seq<Node<T>> {
        self.nodes@
    }

    /// The edges, in the order they were added.
    pub closed spec fn edge_seq(&self) -> Seq<Edge<U>> {
        self.edges@
    }

    /// The index of the node that `name` refers to, or -1.
    pub open spec fn node_index(&self, name: Seq<char>) -> int {
        last_named(self.node_seq(), name)
    }


    /// The node indices one step away from node index `r`: the far ends of the
    /// edges leaving (`forwards`) or entering (`!forwards`) the node that the
    /// name of node `r` refers to, in edge order.
    pub open spec fn step_refs(&self, forwards: bool, r: int) -> Seq<usize> {
        let i = self.node_index(self.node_seq()[r].name@);
        if forwards {
            outgoing(self.edge_seq(), i).map_values(|p: (usize, usize)| p.0)
        } else {
            incoming(self.edge_seq(), i).map_values(|p: (usize, usize)| p.0)
        }
    }

    /// The walk from state (`tree`, `queue`) with `fuel` queue entries left to
    /// take: each step takes the front of the queue, appends it to `tree` unless
    /// it is there already, and appends its step neighbours that are not in the
    /// queue to the queue. Returns the final (`tree`, `queue`).
    pub open spec fn walk(&self, forwards: bool, tree: Seq<usize>, queue: Seq<usize>, fuel: nat) -> (Seq<usize>, Seq<usize>)
        decreases fuel,
    {
        if fuel == 0 || queue.len() == 0 {
            (tree, queue)
        } else {
            let r = queue[0];
            let tree2 = if tree.contains(r) { tree } else { tree.push(r) };
            let queue2 = append_unique(queue.drop_first(), self.step_refs(forwards, r as int));
            self.walk(forwards, tree2, queue2, (fuel - 1) as nat)
        }
    }

    /// The final state of the breadth-first walk from the node `root` refers to.
    pub open spec fn walk_from(&self, forwards: bool, root: Seq<char>) -> (Seq<usize>, Seq<usize>) {
        let r = self.node_index(root);
        self.walk(forwards, seq![r as usize], self.step_refs(forwards, r), walk_limit())
    }

    /// The node indices that the breadth-first walk from `root` visits, in order.
    pub open spec fn walk_order(&self, forwards: bool, root: Seq<char>) -> Seq<usize> {
        self.walk_from(forwards, root).0
    }

    pub open spec fn has_node(&self, name: Seq<char>) -> bool {
        self.node_index(name) >= 0
    }

    /// Internal consistency: every edge connects existing nodes, and the
    /// per-node adjacency lists are exactly the edges leaving / entering it.
    pub closed spec fn wf(&self) -> bool {
        &&& self.src_edge_refs@.len() == self.nodes@.len()
        &&& self.dst_edge_refs@.len() == self.nodes@.len()
        &&& forall|k: int| 0 <= k < self.edges@.len() ==> #[trigger] self.edges@[k].src < self.nodes@.len()
            && self.edges@[k].dst < self.nodes@.len()
        &&& forall|i: int| 0 <= i < self.nodes@.len() ==> #[trigger] self.src_edge_refs@[i]@ == outgoing(self.edges@, i)
        &&& forall|i: int| 0 <= i < self.nodes@.len() ==> #[trigger] self.dst_edge_refs@[i]@ == incoming(self.edges@, i)
    }

    pub fn new() -> (g: Graph<T, U>)
        ensures
            g.wf(),
            g.node_seq() == Seq::<Node<T>>::empty(),
            g.edge_seq() == Seq::<Edge<U>>::empty(),
    {
        Graph { nodes: Vec::new(), edges: Vec::new(), src_edge_refs: Vec::new(), dst_edge_refs: Vec::new() }
    }

    /// Finds the index of the node that `name` refers to.
    fn find_node_ref(&self, name: &str) -> (r: Option<usize>)
        ensures
            match r {
                Some(i) => i == self.node_index(name@),
                None => self.node_index(name@) == -1,
            },
    {
        let key = name.to_owned();
        let mut i = self.nodes.len();
        while i > 0
            invariant
                i <= self.nodes@.len(),
                key@ == name@,
                forall|k: int| i <= k < self.nodes@.len() ==> self.nodes@[k].name@ != name@,
            decreases i,
        {
            i = i - 1;
            if self.nodes[i].name == key {
                proof { lemma_last_named_found(self.nodes@, name@, i as int); }
                return Some(i);
            }
        }
        proof { lemma_last_named_absent(self.nodes@, name@); }
        None
    }

    /// Adds a node named `name`; the name refers to this node from now on.
    pub fn add_node(&mut self, name: &str, data: T)
        requires
            old(self).wf(),
        ensures
            final(self).wf(),
            final(self).node_seq().len() == old(self).node_seq().len() + 1,
            final(self).node_seq().drop_last() == old(self).node_seq(),
            final(self).node_seq().last().name@ == name@,
            final(self).node_seq().last().data == data,
            final(self).edge_seq() == old(self).edge_seq(),
    {
        let ghost n = self.nodes@.len();
        proof { lemma_adjacency_of_fresh_node(self.edges@, n as int); }
        self.nodes.push(Node { name: name.to_owned(), data });
        self.src_edge_refs.push(Vec::new());
        self.dst_edge_refs.push(Vec::new());
        assert(self.nodes@.drop_last() =~= old(self).nodes@);
        assert forall|i: int| 0 <= i < self.nodes@.len() implies #[trigger] self.src_edge_refs@[i]@
            == outgoing(self.edges@, i) by {
            if i < n {
                assert(self.src_edge_refs@[i] == old(self).src_edge_refs@[i]);
            }
        }
        assert forall|i: int| 0 <= i < self.nodes@.len() implies #[trigger] self.dst_edge_refs@[i]@
            == incoming(self.edges@, i) by {
            if i < n {
                assert(self.dst_edge_refs@[i] == old(self).dst_edge_refs@[i]);
            }
        }
    }

    /// Adds an edge from the node `src` refers to, to the node `dst` refers to.
    pub fn add_edge(&mut self, src: &str, dst: &str, info: U)
        requires
            old(self).wf(),
            old(self).has_node(src@),
            old(self).has_node(dst@),
        ensures
            final(self).wf(),
            final(self).node_seq() == old(self).node_seq(),
            final(self).edge_seq() == old(self).edge_seq().push(
                Edge { src: old(self).node_index(src@) as usize, dst: old(self).node_index(dst@) as usize, info },
            ),
    {
        proof {
            lemma_last_named_bounds(self.nodes@, src@);
            lemma_last_named_bounds(self.nodes@, dst@);
        }
        let s = self.get_node_ref(src);
        let d = self.get_node_ref(dst);
        let k = self.edges.len();
        let ghost old_edges = self.edges@;
        let e = Edge { src: s, dst: d, info };
        self.edges.push(e);
        self.src_edge_refs[s].push((d, k));
        self.dst_edge_refs[d].push((s, k));
        assert forall|j: int| 0 <= j < self.edges@.len() implies #[trigger] self.edges@[j].src
            < self.nodes@.len() && self.edges@[j].dst < self.nodes@.len() by {
            if j < k {
                assert(self.edges@[j] == old_edges[j]);
            }
        }
        assert forall|i: int| 0 <= i < self.nodes@.len() implies #[trigger] self.src_edge_refs@[i]@
            == outgoing(self.edges@, i) by {
            lemma_adjacency_push(old_edges, e, i);
        }
        assert forall|i: int| 0 <= i < self.nodes@.len() implies #[trigger] self.dst_edge_refs@[i]@
            == incoming(self.edges@, i) by {
            lemma_adjacency_push(old_edges, e, i);
        }
    }

    /// The node that `name` refers to.
    pub fn get_node(&self, name: &str) -> (n: &Node<T>)
        requires
            self.wf(),
            self.has_node(name@),
        ensures
            *n == self.node_seq()[self.node_index(name@)],
    {
        proof { lemma_last_named_bounds(self.nodes@, name@); }
        let i = self.get_node_ref(name);
        &self.nodes[i]
    }

    /// The node an edge starts at.
    pub fn get_src_node(&self, edge: &Edge<U>) -> (n: &Node<T>)
        requires
            edge.src < self.node_seq().len(),
        ensures
            *n == self.node_seq()[edge.src as int],
    {
        &self.nodes[edge.src]
    }

    /// The node an edge ends at.
    pub fn get_dst_node(&self, edge: &Edge<U>) -> (n: &Node<T>)
        requires
            edge.dst < self.node_seq().len(),
        ensures
            *n == self.node_seq()[edge.dst as int],
    {
        &self.nodes[edge.dst]
    }

    /// The node at index `r`.
    pub(crate) fn node_at(&self, r: usize) -> (n: &Node<T>)
        requires
            r < self.node_seq().len(),
        ensures
            *n == self.node_seq()[r as int],
    {
        &self.nodes[r]
    }

    pub(crate) fn get_node_ref(&self, name: &str) -> (r: usize)
        requires
            self.has_node(name@),
        ensures
            r == self.node_index(name@),
    {
        match self.find_node_ref(name) {
            Some(i) => i,
            None => {
                proof { lemma_last_named_bounds(self.nodes@, name@); }
                0
            }
        }
    }


    /// The nodes at the start of the edges entering the node `dst` refers to, in edge order.
    pub fn get_prev_nodes(&self, dst: &str) -> (r: Vec<&Node<T>>)
        requires
            self.wf(),
            self.has_node(dst@),
        ensures
            r@.len() == incoming(self.edge_seq(), self.node_index(dst@)).len(),
            forall|k: int| 0 <= k < r@.len() ==> *#[trigger] r@[k] == self.node_seq()[
                incoming(self.edge_seq(), self.node_index(dst@))[k].0 as int],
    {
        proof { lemma_last_named_bounds(self.nodes@, dst@); }
        let i = self.get_node_ref(dst);
        let refs = &self.dst_edge_refs[i];
        let ghost inc = incoming(self.edges@, i as int);
        proof { lemma_adjacency_in_range(self.edges@, i as int, self.nodes@.len() as int); }
        let mut prev_nodes: Vec<&Node<T>> = Vec::with_capacity(refs.len());
        let mut j: usize = 0;
        while j < refs.len()
            invariant
                refs@ == inc,
                j <= refs@.len(),
                forall|k: int| #![trigger inc[k]] 0 <= k < inc.len() ==> inc[k].0 < self.nodes@.len()
                    && inc[k].1 < self.edges@.len(),
                prev_nodes@.len() == j,
                forall|k: int| 0 <= k < j ==> *#[trigger] prev_nodes@[k] == self.nodes@[inc[k].0 as int],
            decreases refs@.len() - j,
        {
            prev_nodes.push(&self.nodes[refs[j].0]);
            j = j + 1;
        }
        prev_nodes
    }

    /// The edges entering the node `dst` refers to, in the order they were added.
    pub fn get_prev_edges(&self, dst: &str) -> (r: Vec<&Edge<U>>)
        requires
            self.wf(),
            self.has_node(dst@),
        ensures
            r@.len() == incoming(self.edge_seq(), self.node_index(dst@)).len(),
            forall|k: int| 0 <= k < r@.len() ==> *#[trigger] r@[k] == self.edge_seq()[
                incoming(self.edge_seq(), self.node_index(dst@))[k].1 as int],
    {
        proof { lemma_last_named_bounds(self.nodes@, dst@); }
        let i = self.get_node_ref(dst);
        let refs = &self.dst_edge_refs[i];
        let ghost inc = incoming(self.edges@, i as int);
        proof { lemma_adjacency_in_range(self.edges@, i as int, self.nodes@.len() as int); }
        let mut prev_edges: Vec<&Edge<U>> = Vec::with_capacity(refs.len());
        let mut j: usize = 0;
        while j < refs.len()
            invariant
                refs@ == inc,
                j <= refs@.len(),
                forall|k: int| #![trigger inc[k]] 0 <= k < inc.len() ==> inc[k].0 < self.nodes@.len()
                    && inc[k].1 < self.edges@.len(),
                prev_edges@.len() == j,
                forall|k: int| 0 <= k < j ==> *#[trigger] prev_edges@[k] == self.edges@[inc[k].1 as int],
            decreases refs@.len() - j,
        {
            prev_edges.push(&self.edges[refs[j].1]);
            j = j + 1;
        }
        prev_edges
    }

    /// The nodes at the end of the edges leaving the node `src` refers to, in edge order.
    pub fn get_next_nodes(&self, src: &str) -> (r: Vec<&Node<T>>)
        requires
            self.wf(),
            self.has_node(src@),
        ensures
            r@.len() == outgoing(self.edge_seq(), self.node_index(src@)).len(),
            forall|k: int| 0 <= k < r@.len() ==> *#[trigger] r@[k] == self.node_seq()[
                outgoing(self.edge_seq(), self.node_index(src@))[k].0 as int],
    {
        proof { lemma_last_named_bounds(self.nodes@, src@); }
        let i = self.get_node_ref(src);
        let refs = &self.src_edge_refs[i];
        let ghost out = outgoing(self.edges@, i as int);
        proof { lemma_adjacency_in_range(self.edges@, i as int, self.nodes@.len() as int); }
        let mut next_nodes: Vec<&Node<T>> = Vec::with_capacity(refs.len());
        let mut j: usize = 0;
        while j < refs.len()
            invariant
                refs@ == out,
                j <= refs@.len(),
                forall|k: int| #![trigger out[k]] 0 <= k < out.len() ==> out[k].0 < self.nodes@.len()
                    && out[k].1 < self.edges@.len(),
                next_nodes@.len() == j,
                forall|k: int| 0 <= k < j ==> *#[trigger] next_nodes@[k] == self.nodes@[out[k].0 as int],
            decreases refs@.len() - j,
        {
            next_nodes.push(&self.nodes[refs[j].0]);
            j = j + 1;
        }
        next_nodes
    }

    /// The edges leaving the node `src` refers to, in the order they were added.
    pub fn get_next_edges(&self, src: &str) -> (r: Vec<&Edge<U>>)
        requires
            self.wf(),
            self.has_node(src@),
        ensures
            r@.len() == outgoing(self.edge_seq(), self.node_index(src@)).len(),
            forall|k: int| 0 <= k < r@.len() ==> *#[trigger] r@[k] == self.edge_seq()[
                outgoing(self.edge_seq(), self.node_index(src@))[k].1 as int],
    {
        proof { lemma_last_named_bounds(self.nodes@, src@); }
        let i = self.get_node_ref(src);
        let refs = &self.src_edge_refs[i];
        let ghost out = outgoing(self.edges@, i as int);
        proof { lemma_adjacency_in_range(self.edges@, i as int, self.nodes@.len() as int); }
        let mut next_edges: Vec<&Edge<U>> = Vec::with_capacity(refs.len());
        let mut j: usize = 0;
        while j < refs.len()
            invariant
                refs@ == out,
                j <= refs@.len(),
                forall|k: int| #![trigger out[k]] 0 <= k < out.len() ==> out[k].0 < self.nodes@.len()
                    && out[k].1 < self.edges@.len(),
                next_edges@.len() == j,
                forall|k: int| 0 <= k < j ==> *#[trigger] next_edges@[k] == self.edges@[out[k].1 as int],
            decreases refs@.len() - j,
        {
            next_edges.push(&self.edges[refs[j].1]);
            j = j + 1;
        }
        next_edges
    }


    /// The indices of the nodes at the start of the edges entering the node `dst` refers to.
    fn get_prev_node_refs(&self, dst: &str) -> (v: Vec<usize>)
        requires
            self.wf(),
            self.has_node(dst@),
        ensures
            v@ == incoming(self.edge_seq(), self.node_index(dst@)).map_values(|p: (usize, usize)| p.0),
            forall|k: int| 0 <= k < v@.len() ==> #[trigger] v@[k] < self.node_seq().len(),
    {
        proof { lemma_last_named_bounds(self.nodes@, dst@); }
        let i = self.get_node_ref(dst);
        self.adjacent_refs(i, false)
    }

    /// The indices of the nodes at the end of the edges leaving the node `src` refers to.
    fn get_next_node_refs(&self, src: &str) -> (v: Vec<usize>)
        requires
            self.wf(),
            self.has_node(src@),
        ensures
            v@ == outgoing(self.edge_seq(), self.node_index(src@)).map_values(|p: (usize, usize)| p.0),
            forall|k: int| 0 <= k < v@.len() ==> #[trigger] v@[k] < self.node_seq().len(),
    {
        proof { lemma_last_named_bounds(self.nodes@, src@); }
        let i = self.get_node_ref(src);
        self.adjacent_refs(i, true)
    }

    fn adjacent_refs(&self, i: usize, forwards: bool) -> (v: Vec<usize>)
        requires
            self.wf(),
            i < self.node_seq().len(),
        ensures
            v@ == (if forwards { outgoing(self.edge_seq(), i as int) } else { incoming(self.edge_seq(), i as int) })
                .map_values(|p: (usize, usize)| p.0),
            forall|k: int| 0 <= k < v@.len() ==> #[trigger] v@[k] < self.node_seq().len(),
    {
        let refs = if forwards { &self.src_edge_refs[i] } else { &self.dst_edge_refs[i] };
        let ghost adj = if forwards { outgoing(self.edges@, i as int) } else { incoming(self.edges@, i as int) };
        proof { lemma_adjacency_in_range(self.edges@, i as int, self.nodes@.len() as int); }
        let mut v: Vec<usize> = Vec::with_capacity(refs.len());
        let mut j: usize = 0;
        while j < refs.len()
            invariant
                refs@ == adj,
                j <= refs@.len(),
                forall|k: int| #![trigger adj[k]] 0 <= k < adj.len() ==> adj[k].0 < self.nodes@.len(),
                v@ == adj.take(j as int).map_values(|p: (usize, usize)| p.0),
            decreases refs@.len() - j,
        {
            v.push(refs[j].0);
            j = j + 1;
            assert(adj.take(j as int).drop_last() =~= adj.take(j - 1));
        }
        assert(adj.take(j as int) =~= adj);
        v
    }

    /// The node indices one step from node index `r` (see `step_refs`).
    pub(crate) fn step_node_refs(&self, r: usize, forwards: bool) -> (v: Vec<usize>)
        requires
            self.wf(),
            r < self.node_seq().len(),
        ensures
            v@ == self.step_refs(forwards, r as int),
            forall|k: int| 0 <= k < v@.len() ==> #[trigger] v@[k] < self.node_seq().len(),
    {
        proof {
            lemma_last_named_bounds(self.nodes@, self.nodes@[r as int].name@);
            lemma_last_named_at_least(self.nodes@, r as int);
        }
        let name = self.nodes[r].name.as_str();
        if forwards {
            self.get_next_node_refs(name)
        } else {
            self.get_prev_node_refs(name)
        }
    }

    /// The node indices of the breadth-first walk from `root` (see `walk_order`).
    fn walk_refs(&self, root: &str, forwards: bool) -> (v: Vec<usize>)
        requires
            self.wf(),
            self.has_node(root@),
        ensures
            v@ == self.walk_order(forwards, root@),
            forall|k: int| 0 <= k < v@.len() ==> #[trigger] v@[k] < self.node_seq().len(),
    {
        proof { lemma_last_named_bounds(self.nodes@, root@); }
        let r0 = self.get_node_ref(root);
        let mut tree_refs: Vec<usize> = Vec::new();
        tree_refs.push(r0);
        let first = self.step_node_refs(r0, forwards);
        let mut queue: VecDeque<usize> = VecDeque::new();
        let mut j: usize = 0;
        while j < first.len()
            invariant
                j <= first@.len(),
                queue@ == first@.take(j as int),
            decreases first@.len() - j,
        {
            queue.push_back(first[j]);
            j = j + 1;
            assert(first@.take(j as int) =~= first@.take(j - 1).push(first@[j - 1]));
        }
        assert(first@.take(j as int) =~= first@);
        assert(tree_refs@ =~= seq![r0]);
        let ghost target = self.walk_from(forwards, root@);
        let mut iterations: u32 = 0;
        while queue.len() > 0 && iterations < 1000
            invariant
                self.wf(),
                iterations <= 1000,
                self.walk(forwards, tree_refs@, queue@, (walk_limit() - iterations) as nat) == target,
                forall|k: int| 0 <= k < tree_refs@.len() ==> #[trigger] tree_refs@[k] < self.nodes@.len(),
                forall|k: int| 0 <= k < queue@.len() ==> #[trigger] queue@[k] < self.nodes@.len(),
            decreases 1000 - iterations,
        {
            iterations = iterations + 1;
            let ghost tree0 = tree_refs@;
            let ghost queue0 = queue@;
            let new_ref = match queue.pop_front() {
                Some(x) => x,
                None => 0,
            };
            if !vec_contains(&tree_refs, new_ref) {
                tree_refs.push(new_ref);
            }
            let next = self.step_node_refs(new_ref, forwards);
            let ghost popped = queue@;
            let mut k: usize = 0;
            while k < next.len()
                invariant
                    k <= next@.len(),
                    queue@ == append_unique(popped, next@.take(k as int)),
                    forall|m: int| 0 <= m < next@.len() ==> #[trigger] next@[m] < self.nodes@.len(),
                    forall|m: int| 0 <= m < queue@.len() ==> #[trigger] queue@[m] < self.nodes@.len(),
                decreases next@.len() - k,
            {
                let x = next[k];
                assert(next@.take(k + 1).drop_last() =~= next@.take(k as int));
                if !deque_contains(&queue, x) {
                    queue.push_back(x);
                }
                k = k + 1;
            }
            assert(next@.take(k as int) =~= next@);
            assert(popped =~= queue0.drop_first());
        }
        tree_refs
    }


    /// The nodes reached by a breadth-first walk along edge direction from the
    /// node `root` refers to: the root first, then each node the first time it
    /// leaves the queue. The walk takes at most 1000 queue entries.
    pub fn breadth_first_forwards(&self, root: &str) -> (r: Vec<&Node<T>>)
        requires
            self.wf(),
            self.has_node(root@),
        ensures
            r@.len() == self.walk_order(true, root@).len(),
            forall|k: int| 0 <= k < r@.len() ==> *#[trigger] r@[k] == self.node_seq()[
                self.walk_order(true, root@)[k] as int],
    {
        let refs = self.walk_refs(root, true);
        self.nodes_at(&refs)
    }

    /// As `breadth_first_forwards`, walking against edge direction.
    pub fn breadth_first_backwards(&self, root: &str) -> (r: Vec<&Node<T>>)
        requires
            self.wf(),
            self.has_node(root@),
        ensures
            r@.len() == self.walk_order(false, root@).len(),
            forall|k: int| 0 <= k < r@.len() ==> *#[trigger] r@[k] == self.node_seq()[
                self.walk_order(false, root@)[k] as int],
    {
        let refs = self.walk_refs(root, false);
        self.nodes_at(&refs)
    }

    fn nodes_at(&self, refs: &Vec<usize>) -> (r: Vec<&Node<T>>)
        requires
            forall|k: int| 0 <= k < refs@.len() ==> #[trigger] refs@[k] < self.node_seq().len(),
        ensures
            r@.len() == refs@.len(),
            forall|k: int| 0 <= k < r@.len() ==> *#[trigger] r@[k] == self.node_seq()[refs@[k] as int],
    {
        let mut r: Vec<&Node<T>> = Vec::with_capacity(refs.len());
        let mut j: usize = 0;
        while j < refs.len()
            invariant
                j <= refs@.len(),
                forall|k: int| 0 <= k < refs@.len() ==> #[trigger] refs@[k] < self.nodes@.len(),
                r@.len() == j,
                forall|k: int| 0 <= k < j ==> *#[trigger] r@[k] == self.nodes@[refs@[k] as int],
            decreases refs@.len() - j,
        {
            r.push(&self.nodes[refs[j]]);
            j = j + 1;
        }
        r
    }

    pub fn node_count(&self) -> (n: usize)
        ensures
            n == self.node_seq().len(),
    {
        self.nodes.len()
    }

    pub fn edge_count(&self) -> (n: usize)
        ensures
            n == self.edge_seq().len(),
    {
        self.edges.len()
    }
}

proof fn lemma_append_unique_contains(queue: Seq<usize>, extra: Seq<usize>)
    ensures
        forall|x: usize| #[trigger] append_unique(queue, extra).contains(x) <==> queue.contains(x) || extra.contains(x),
    decreases extra.len(),
{
    if extra.len() > 0 {
        let rest = extra.drop_last();
        lemma_append_unique_contains(queue, rest);
        let q = append_unique(queue, rest);
        assert forall|x: usize| #[trigger] append_unique(queue, extra).contains(x) <==> queue.contains(x)
            || extra.contains(x) by {
            if extra.contains(x) && !rest.contains(x) {
                let k = choose|k: int| 0 <= k < extra.len() && extra[k] == x;
                if k < extra.len() - 1 {
                    assert(rest[k] == x);
                }
                if !q.contains(extra.last()) {
                    assert(q.push(extra.last())[q.len() as int] == x);
                }
            }
            if rest.contains(x) {
                let k = choose|k: int| 0 <= k < rest.len() && rest[k] == x;
                assert(extra[k] == x);
            }
            if q.contains(x) && !q.contains(extra.last()) {
                let k = choose|k: int| 0 <= k < q.len() && q[k] == x;
                assert(q.push(extra.last())[k] == x);
            }
            if !q.contains(extra.last()) && q.push(extra.last()).contains(x) {
                let k = choose|k: int| 0 <= k < q.len() + 1 && q.push(extra.last())[k] == x;
                if k < q.len() {
                    assert(q[k] == x);
                } else {
                    assert(extra[extra.len() - 1] == x);
                }
            }
        }
    }
}

impl<T, U: Copy> Graph<T, U> {
    /// `p` is a non-empty sequence of node indices, each one step (see
    /// `step_refs`) from the one before.
    pub open spec fn is_path(&self, forwards: bool, p: Seq<usize>) -> bool {
        &&& p.len() >= 1
        &&& forall|i: int| 0 <= i < p.len() - 1 ==> #[trigger] self.step_refs(forwards, p[i] as int).contains(p[i + 1])
    }

    /// Node `to` can be reached from node `from` in steps (see `step_refs`).
    pub open spec fn reachable(&self, forwards: bool, from: usize, to: usize) -> bool {
        exists|p: Seq<usize>| #[trigger] self.is_path(forwards, p) && p[0] == from && p.last() == to
    }

    /// Every entry of `tree` has all its step neighbours in `tree` or `queue`.
    pub open spec fn closed_under_steps(&self, forwards: bool, tree: Seq<usize>, queue: Seq<usize>) -> bool {
        forall|p: usize, x: usize|
            tree.contains(p) && #[trigger] self.step_refs(forwards, p as int).contains(x) ==> tree.contains(x)
                || queue.contains(x)
    }

    pub(crate) proof fn lemma_reach_step(&self, forwards: bool, a: usize, b: usize, c: usize)
        requires
            self.reachable(forwards, a, b),
            self.step_refs(forwards, b as int).contains(c),
        ensures
            self.reachable(forwards, a, c),
    {
        let p = choose|p: Seq<usize>| #[trigger] self.is_path(forwards, p) && p[0] == a && p.last() == b;
        let p2 = p.push(c);
        assert forall|i: int| 0 <= i < p2.len() - 1 implies #[trigger] self.step_refs(forwards, p2[i] as int).contains(
            p2[i + 1]) by {
            if i < p.len() - 1 {
                assert(p2[i] == p[i] && p2[i + 1] == p[i + 1]);
            } else {
                assert(p2[i] == b);
            }
        }
        assert(self.is_path(forwards, p2));
    }

    proof fn lemma_walk_sound(&self, forwards: bool, root: usize, tree: Seq<usize>, queue: Seq<usize>, fuel: nat)
        requires
            forall|x: usize| tree.contains(x) ==> self.reachable(forwards, root, x),
            forall|x: usize| queue.contains(x) ==> self.reachable(forwards, root, x),
        ensures
            forall|x: usize| self.walk(forwards, tree, queue, fuel).0.contains(x) ==> self.reachable(forwards, root, x),
        decreases fuel,
    {
        if fuel > 0 && queue.len() > 0 {
            let r = queue[0];
            assert(queue.contains(r));
            let tree2 = if tree.contains(r) { tree } else { tree.push(r) };
            let rest = queue.drop_first();
            let steps = self.step_refs(forwards, r as int);
            let queue2 = append_unique(rest, steps);
            lemma_append_unique_contains(rest, steps);
            assert(self.reachable(forwards, root, r));
            assert forall|x: usize| tree2.contains(x) implies self.reachable(forwards, root, x) by {
                if x != r {
                    if !tree.contains(r) {
                        let k = choose|k: int| 0 <= k < tree2.len() && tree2[k] == x;
                        assert(tree[k] == x);
                    }
                    assert(tree.contains(x));
                }
            }
            assert forall|x: usize| queue2.contains(x) implies self.reachable(forwards, root, x) by {
                if rest.contains(x) {
                    let k = choose|k: int| 0 <= k < rest.len() && rest[k] == x;
                    assert(queue[k + 1] == x);
                    assert(queue.contains(x));
                } else {
                    self.lemma_reach_step(forwards, root, r, x);
                }
            }
            self.lemma_walk_sound(forwards, root, tree2, queue2, (fuel - 1) as nat);
        }
    }

    proof fn lemma_walk_keeps_prefix(&self, forwards: bool, tree: Seq<usize>, queue: Seq<usize>, fuel: nat)
        ensures
            self.walk(forwards, tree, queue, fuel).0.len() >= tree.len(),
            forall|k: int| 0 <= k < tree.len() ==> #[trigger] self.walk(forwards, tree, queue, fuel).0[k] == tree[k],
            tree.no_duplicates() ==> self.walk(forwards, tree, queue, fuel).0.no_duplicates(),
        decreases fuel,
    {
        if fuel > 0 && queue.len() > 0 {
            let r = queue[0];
            let tree2 = if tree.contains(r) { tree } else { tree.push(r) };
            let queue2 = append_unique(queue.drop_first(), self.step_refs(forwards, r as int));
            self.lemma_walk_keeps_prefix(forwards, tree2, queue2, (fuel - 1) as nat);
            assert forall|k: int| 0 <= k < tree.len() implies tree2[k] == tree[k] by {}
            if tree.no_duplicates() && !tree.contains(r) {
                assert forall|i: int, j: int| 0 <= i < j < tree2.len() implies tree2[i] != tree2[j] by {
                    if j == tree.len() {
                        assert(tree[i] == tree2[i]);
                    }
                }
            }
        }
    }

    proof fn lemma_walk_closed(&self, forwards: bool, tree: Seq<usize>, queue: Seq<usize>, fuel: nat)
        requires
            self.closed_under_steps(forwards, tree, queue),
        ensures
            self.closed_under_steps(
                forwards,
                self.walk(forwards, tree, queue, fuel).0,
                self.walk(forwards, tree, queue, fuel).1,
            ),
        decreases fuel,
    {
        if fuel > 0 && queue.len() > 0 {
            let r = queue[0];
            let tree2 = if tree.contains(r) { tree } else { tree.push(r) };
            let rest = queue.drop_first();
            let steps = self.step_refs(forwards, r as int);
            let queue2 = append_unique(rest, steps);
            lemma_append_unique_contains(rest, steps);
            assert forall|x: usize| tree.contains(x) implies tree2.contains(x) by {
                if !tree.contains(r) {
                    let k = choose|k: int| 0 <= k < tree.len() && tree[k] == x;
                    assert(tree2[k] == x);
                }
            }
            assert(tree2.contains(r)) by {
                if !tree.contains(r) {
                    assert(tree2[tree.len() as int] == r);
                }
            }
            assert forall|p: usize, x: usize|
                tree2.contains(p) && #[trigger] self.step_refs(forwards, p as int).contains(x) implies tree2.contains(x)
                || queue2.contains(x) by {
                if p == r {
                    assert(steps.contains(x));
                } else {
                    if !tree.contains(r) {
                        let k = choose|k: int| 0 <= k < tree2.len() && tree2[k] == p;
                        assert(tree[k] == p);
                    }
                    assert(tree.contains(x) || queue.contains(x));
                    if queue.contains(x) && x != r {
                        let k = choose|k: int| 0 <= k < queue.len() && queue[k] == x;
                        assert(rest[k - 1] == x);
                    }
                }
            }
            self.lemma_walk_closed(forwards, tree2, queue2, (fuel - 1) as nat);
        }
    }

    pub(crate) proof fn lemma_closed_covers_paths(&self, forwards: bool, tree: Seq<usize>, p: Seq<usize>, i: int)
        requires
            self.closed_under_steps(forwards, tree, Seq::empty()),
            self.is_path(forwards, p),
            tree.contains(p[0]),
            0 <= i < p.len(),
        ensures
            tree.contains(p[i]),
        decreases i,
    {
        if i > 0 {
            self.lemma_closed_covers_paths(forwards, tree, p, i - 1);
            assert(self.step_refs(forwards, p[i - 1] as int).contains(p[(i - 1) + 1]));
            assert(!Seq::<usize>::empty().contains(p[i]));
        }
    }

    /// The name of every node refers to a node with that name.
    pub proof fn lemma_node_named_at(&self, r: int)
        requires
            0 <= r < self.node_seq().len(),
        ensures
            self.has_node(self.node_seq()[r].name@),
            self.node_index(self.node_seq()[r].name@) >= r,
            self.node_index(self.node_seq()[r].name@) < self.node_seq().len(),
    {
        lemma_last_named_at_least(self.nodes@, r);
        lemma_last_named_bounds(self.nodes@, self.nodes@[r].name@);
    }

    /// In a consistent graph every edge connects node indices.
    pub proof fn lemma_edges_in_range(&self)
        requires
            self.wf(),
        ensures
            forall|m: int| 0 <= m < self.edge_seq().len() ==> #[trigger] self.edge_seq()[m].src < self.node_seq().len()
                && self.edge_seq()[m].dst < self.node_seq().len(),
            self.edge_seq().len() <= usize::MAX,
    {
        assert(self.edges.len() == self.edges@.len());
    }

    /// In a consistent graph a breadth-first walk lists node indices.
    pub proof fn lemma_walk_in_range(&self, forwards: bool, root: Seq<char>)
        requires
            self.wf(),
            self.has_node(root),
        ensures
            forall|k: int| 0 <= k < self.walk_order(forwards, root).len() ==> #[trigger] self.walk_order(forwards, root)[k]
                < self.node_seq().len(),
    {
        self.lemma_node_index_fits(root);
        let r = self.node_index(root);
        self.lemma_steps_in_range(forwards, r);
        self.lemma_walk_bounded(forwards, seq![r as usize], self.step_refs(forwards, r), walk_limit());
    }

    proof fn lemma_walk_bounded(&self, forwards: bool, tree: Seq<usize>, queue: Seq<usize>, fuel: nat)
        requires
            self.wf(),
            forall|k: int| 0 <= k < tree.len() ==> #[trigger] tree[k] < self.node_seq().len(),
            forall|k: int| 0 <= k < queue.len() ==> #[trigger] queue[k] < self.node_seq().len(),
        ensures
            forall|k: int| 0 <= k < self.walk(forwards, tree, queue, fuel).0.len() ==> #[trigger] self.walk(
                forwards,
                tree,
                queue,
                fuel,
            ).0[k] < self.node_seq().len(),
        decreases fuel,
    {
        if fuel > 0 && queue.len() > 0 {
            let r = queue[0];
            let tree2 = if tree.contains(r) { tree } else { tree.push(r) };
            let rest = queue.drop_first();
            let steps = self.step_refs(forwards, r as int);
            let queue2 = append_unique(rest, steps);
            lemma_append_unique_contains(rest, steps);
            self.lemma_steps_in_range(forwards, r as int);
            assert forall|k: int| 0 <= k < tree2.len() implies #[trigger] tree2[k] < self.node_seq().len() by {
                if k < tree.len() {
                    assert(tree2[k] == tree[k]);
                }
            }
            assert forall|k: int| 0 <= k < queue2.len() implies #[trigger] queue2[k] < self.node_seq().len() by {
                assert(queue2.contains(queue2[k]));
                if rest.contains(queue2[k]) {
                    let m = choose|m: int| 0 <= m < rest.len() && rest[m] == queue2[k];
                    assert(queue[m + 1] == queue2[k]);
                } else {
                    let m = choose|m: int| 0 <= m < steps.len() && steps[m] == queue2[k];
                }
            }
            self.lemma_walk_bounded(forwards, tree2, queue2, (fuel - 1) as nat);
            assert(self.walk(forwards, tree, queue, fuel) == self.walk(forwards, tree2, queue2, (fuel - 1) as nat));
        }
    }

    pub(crate) proof fn lemma_steps_in_range(&self, forwards: bool, r: int)
        requires
            self.wf(),
            0 <= r < self.node_seq().len(),
        ensures
            forall|k: int| 0 <= k < self.step_refs(forwards, r).len() ==> #[trigger] self.step_refs(forwards, r)[k]
                < self.node_seq().len(),
    {
        self.lemma_node_named_at(r);
        let i = self.node_index(self.node_seq()[r].name@);
        lemma_adjacency_in_range(self.edges@, i, self.nodes@.len() as int);
    }

    /// Whether `name` refers to a node.
    pub fn contains_node(&self, name: &str) -> (b: bool)
        ensures
            b == self.has_node(name@),
    {
        self.find_node_ref(name).is_some()
    }

    /// The index a present name refers to is a node index.
    pub proof fn lemma_node_in_range(&self, name: Seq<char>)
        requires
            self.has_node(name),
        ensures
            0 <= self.node_index(name) < self.node_seq().len(),
            self.node_seq()[self.node_index(name)].name@ == name,
    {
        lemma_last_named_bounds(self.nodes@, name);
    }

    pub(crate) proof fn lemma_node_index_fits(&self, name: Seq<char>)
        ensures
            -1 <= self.node_index(name) < self.node_seq().len(),
            self.node_seq().len() <= usize::MAX,
    {
        lemma_last_named_bounds(self.nodes@, name);
        assert(self.nodes.len() == self.nodes@.len());
    }

    /// Law: a breadth-first walk begins with the node that the root name refers to.
    pub proof fn walk_starts_at_root(&self, forwards: bool, root: Seq<char>)
        requires
            self.has_node(root),
        ensures
            self.walk_order(forwards, root).len() >= 1,
            self.walk_order(forwards, root)[0] == self.node_index(root),
    {
        self.lemma_node_index_fits(root);
        let r = self.node_index(root);
        self.lemma_walk_keeps_prefix(forwards, seq![r as usize], self.step_refs(forwards, r), walk_limit());
        assert(seq![r as usize][0] == r as usize);
    }

    /// Law: a breadth-first walk never lists a node twice.
    pub proof fn walk_has_no_repeats(&self, forwards: bool, root: Seq<char>)
        ensures
            self.walk_order(forwards, root).no_duplicates(),
    {
        self.lemma_node_index_fits(root);
        let r = self.node_index(root);
        assert(seq![r as usize].no_duplicates());
        self.lemma_walk_keeps_prefix(forwards, seq![r as usize], self.step_refs(forwards, r), walk_limit());
    }

    /// Law: every node a breadth-first walk lists is reachable from the root.
    pub proof fn walk_visits_only_reachable(&self, forwards: bool, root: Seq<char>)
        requires
            self.has_node(root),
        ensures
            forall|k: int| 0 <= k < self.walk_order(forwards, root).len() ==> self.reachable(
                forwards,
                self.node_index(root) as usize,
                #[trigger] self.walk_order(forwards, root)[k],
            ),
    {
        self.lemma_node_index_fits(root);
        let r = self.node_index(root) as usize;
        let tree = seq![r];
        let queue = self.step_refs(forwards, r as int);
        assert(self.is_path(forwards, seq![r]));
        assert forall|x: usize| tree.contains(x) implies self.reachable(forwards, r, x) by {
            assert(tree[0] == r);
            assert(seq![r][0] == r && seq![r].last() == r);
        }
        assert forall|x: usize| queue.contains(x) implies self.reachable(forwards, r, x) by {
            assert(seq![r][0] == r && seq![r].last() == r);
            self.lemma_reach_step(forwards, r, r, x);
        }
        self.lemma_walk_sound(forwards, r, tree, queue, walk_limit());
        let w = self.walk_order(forwards, root);
        assert forall|k: int| 0 <= k < w.len() implies self.reachable(forwards, r, #[trigger] w[k]) by {
            assert(w.contains(w[k]));
        }
        assert(r as int == self.node_index(root));
    }

    /// Each entry of `tree` after the first is a step neighbour of an entry before it.
    pub open spec fn reached_from_earlier(&self, forwards: bool, tree: Seq<usize>) -> bool {
        forall|k: int| 0 < k < tree.len() ==> self.one_step_from(forwards, tree.take(k), #[trigger] tree[k])
    }

    /// Node `x` is one step from an entry of `tree`.
    pub open spec fn one_step_from(&self, forwards: bool, tree: Seq<usize>, x: usize) -> bool {
        exists|j: int| 0 <= j < tree.len() && #[trigger] self.step_refs(forwards, tree[j] as int).contains(x)
    }

    proof fn lemma_walk_reached_from_earlier(&self, forwards: bool, tree: Seq<usize>, queue: Seq<usize>, fuel: nat)
        requires
            tree.len() >= 1,
            self.reached_from_earlier(forwards, tree),
            forall|m: int| 0 <= m < queue.len() ==> self.one_step_from(forwards, tree, #[trigger] queue[m]),
        ensures
            self.reached_from_earlier(forwards, self.walk(forwards, tree, queue, fuel).0),
        decreases fuel,
    {
        if fuel > 0 && queue.len() > 0 {
            let r = queue[0];
            let tree2 = if tree.contains(r) { tree } else { tree.push(r) };
            let rest = queue.drop_first();
            let steps = self.step_refs(forwards, r as int);
            let queue2 = append_unique(rest, steps);
            lemma_append_unique_contains(rest, steps);
            let jr = if tree.contains(r) { choose|j: int| 0 <= j < tree.len() && tree[j] == r } else { tree.len() as int };
            assert(tree2[jr] == r);
            assert forall|k: int| 0 < k < tree2.len() implies self.one_step_from(forwards, tree2.take(k), #[trigger] tree2[k]) by {
                if k < tree.len() {
                    assert(tree2[k] == tree[k]);
                    assert(self.one_step_from(forwards, tree.take(k), tree[k]));
                    let j = choose|j: int|
                        0 <= j < tree.take(k).len() && #[trigger] self.step_refs(forwards, tree.take(k)[j] as int).contains(tree[k]);
                    assert(tree2.take(k)[j] == tree.take(k)[j]);
                    assert(self.step_refs(forwards, tree2.take(k)[j] as int).contains(tree2[k]));
                } else {
                    assert(tree2[k] == queue[0]);
                    assert(self.one_step_from(forwards, tree, queue[0]));
                    let j = choose|j: int|
                        0 <= j < tree.len() && #[trigger] self.step_refs(forwards, tree[j] as int).contains(queue[0]);
                    assert(tree2.take(k)[j] == tree[j]);
                    assert(self.step_refs(forwards, tree2.take(k)[j] as int).contains(tree2[k]));
                }
            }
            assert forall|m: int| 0 <= m < queue2.len() implies self.one_step_from(forwards, tree2, #[trigger] queue2[m]) by {
                assert(queue2.contains(queue2[m]));
                if rest.contains(queue2[m]) {
                    let i = choose|i: int| 0 <= i < rest.len() && rest[i] == queue2[m];
                    assert(queue[i + 1] == queue2[m]);
                    assert(self.one_step_from(forwards, tree, queue[i + 1]));
                    let j = choose|j: int|
                        0 <= j < tree.len() && #[trigger] self.step_refs(forwards, tree[j] as int).contains(queue[i + 1]);
                    assert(tree2[j] == tree[j]);
                    assert(self.step_refs(forwards, tree2[j] as int).contains(queue2[m]));
                } else {
                    assert(steps.contains(queue2[m]));
                    assert(self.step_refs(forwards, tree2[jr] as int).contains(queue2[m]));
                }
            }
            assert(self.reached_from_earlier(forwards, tree2));
            self.lemma_walk_reached_from_earlier(forwards, tree2, queue2, (fuel - 1) as nat);
            assert(self.walk(forwards, tree, queue, fuel) == self.walk(forwards, tree2, queue2, (fuel - 1) as nat));
        }
    }

    /// Law: a breadth-first walk lists each node after the root only once
    /// it has listed a node that the new one is one step away from.
    pub proof fn walk_lists_each_node_after_a_neighbour(&self, forwards: bool, root: Seq<char>)
        requires
            self.has_node(root),
        ensures
            self.reached_from_earlier(forwards, self.walk_order(forwards, root)),
    {
        self.lemma_node_index_fits(root);
        let ri = self.node_index(root);
        let tree = seq![ri as usize];
        let queue = self.step_refs(forwards, ri);
        assert forall|m: int| 0 <= m < queue.len() implies self.one_step_from(forwards, tree, #[trigger] queue[m]) by {
            assert(tree[0] == ri as usize);
            assert(self.step_refs(forwards, tree[0] as int).contains(queue[m]));
        }
        self.lemma_walk_reached_from_earlier(forwards, tree, queue, walk_limit());
    }

    /// Law: when a breadth-first walk ends because its queue ran empty (rather
    /// than at the bound on queue entries), it lists every node reachable from
    /// the root.
    pub proof fn walk_lists_all_reachable(&self, forwards: bool, root: Seq<char>, x: usize)
        requires
            self.has_node(root),
            self.walk_from(forwards, root).1.len() == 0,
            self.reachable(forwards, self.node_index(root) as usize, x),
        ensures
            self.walk_order(forwards, root).contains(x),
    {
        self.lemma_node_index_fits(root);
        let r = self.node_index(root) as usize;
        let tree = seq![r];
        let queue = self.step_refs(forwards, r as int);
        assert forall|p: usize, y: usize|
            tree.contains(p) && #[trigger] self.step_refs(forwards, p as int).contains(y) implies tree.contains(y)
            || queue.contains(y) by {
            assert(tree[0] == r);
        }
        self.lemma_walk_closed(forwards, tree, queue, walk_limit());
        self.lemma_walk_keeps_prefix(forwards, tree, queue, walk_limit());
        let fin = self.walk_from(forwards, root);
        assert(fin.1 =~= Seq::<usize>::empty());
        assert(tree[0] == r);
        assert(fin.0[0] == r);
        assert(fin.0.contains(r));
        let p = choose|p: Seq<usize>| #[trigger] self.is_path(forwards, p) && p[0] == r && p.last() == x;
        self.lemma_closed_covers_paths(forwards, fin.0, p, p.len() - 1);
    }
}

proof fn lemma_adjacency_short<U: Copy>(edges: Seq<Edge<U>>, i: int)
    ensures
        outgoing(edges, i).len() <= edges.len(),
        incoming(edges, i).len() <= edges.len(),
    decreases edges.len(),
{
    if edges.len() > 0 {
        lemma_adjacency_short(edges.drop_last(), i);
    }
}

/// Appending keeps the queue as a prefix and adds no entry twice: when the
/// queue has no repeats from index `k` on, neither has the result.
proof fn lemma_append_unique_shape(queue: Seq<usize>, extra: Seq<usize>, k: int)
    requires
        0 <= k <= queue.len(),
        queue.skip(k).no_duplicates(),
    ensures
        append_unique(queue, extra).len() >= queue.len(),
        forall|j: int| 0 <= j < queue.len() ==> #[trigger] append_unique(queue, extra)[j] == queue[j],
        append_unique(queue, extra).skip(k).no_duplicates(),
    decreases extra.len(),
{
    if extra.len() > 0 {
        let rest = extra.drop_last();
        lemma_append_unique_shape(queue, rest, k);
        let q = append_unique(queue, rest);
        if !q.contains(extra.last()) {
            let q2 = q.push(extra.last());
            assert forall|a: int, b: int| 0 <= a < b < q2.skip(k).len() implies q2.skip(k)[a] != q2.skip(k)[b] by {
                if b + k < q.len() {
                    assert(q2.skip(k)[a] == q.skip(k)[a] && q2.skip(k)[b] == q.skip(k)[b]);
                } else {
                    assert(q2.skip(k)[a] == q[a + k]);
                }
            }
            assert forall|j: int| 0 <= j < queue.len() implies #[trigger] q2[j] == queue[j] by {
                assert(q2[j] == q[j]);
            }
        }
    }
}

impl<T, U: Copy> Graph<T, U> {
    /// Every node of a path from a node index is a node index.
    proof fn lemma_path_in_range(&self, forwards: bool, p: Seq<usize>, i: int)
        requires
            self.wf(),
            self.is_path(forwards, p),
            p[0] < self.node_seq().len(),
            0 <= i < p.len(),
        ensures
            p[i] < self.node_seq().len(),
        decreases i,
    {
        if i > 0 {
            self.lemma_path_in_range(forwards, p, i - 1);
            assert(self.step_refs(forwards, p[i - 1] as int).contains(p[(i - 1) + 1]));
            self.lemma_steps_in_range(forwards, p[i - 1] as int);
        }
    }

    /// A path with the same ends and no node twice.
    proof fn lemma_path_without_repeats(&self, forwards: bool, p: Seq<usize>) -> (q: Seq<usize>)
        requires
            self.is_path(forwards, p),
        ensures
            self.is_path(forwards, q),
            q[0] == p[0],
            q.last() == p.last(),
            q.no_duplicates(),
        decreases p.len(),
    {
        if p.no_duplicates() {
            p
        } else {
            let (i, j) = choose|i: int, j: int| 0 <= i < p.len() && 0 <= j < p.len() && i != j && p[i] == p[j];
            let (a, b) = if i < j { (i, j) } else { (j, i) };
            let p2 = p.take(a) + p.skip(b);
            assert(p2.len() == p.len() - (b - a));
            assert forall|m: int| 0 <= m < p2.len() - 1 implies #[trigger] self.step_refs(forwards, p2[m] as int).contains(
                p2[m + 1]) by {
                if m + 1 < a {
                    assert(p2[m] == p[m] && p2[m + 1] == p[m + 1]);
                } else if m + 1 == a {
                    assert(p2[m] == p[m] && p2[m + 1] == p[b] && p[b] == p[a]);
                } else {
                    assert(p2[m] == p[m + b - a] && p2[m + 1] == p[m + 1 + b - a]);
                    assert(self.step_refs(forwards, p[m + b - a] as int).contains(p[(m + b - a) + 1]));
                }
            }
            assert(p2[0] == p[0]) by {
                if a == 0 {
                    assert(p2[0] == p[b]);
                }
            }
            assert(p2.last() == p.last());
            self.lemma_path_without_repeats(forwards, p2)
        }
    }

    /// A walk state with node `p[i]` of a path at queue position `q` lists
    /// the path's last node when enough queue entries are left: `q + 1` to
    /// reach `p[i]`, and `bound` for each later node of the path, where
    /// `bound` exceeds every queue length the walk can reach.
    proof fn lemma_walk_follows_path(
        &self,
        forwards: bool,
        tree: Seq<usize>,
        queue: Seq<usize>,
        fuel: nat,
        k: int,
        bound: nat,
        p: Seq<usize>,
        i: int,
        q: int,
    )
        requires
            self.wf(),
            self.is_path(forwards, p),
            0 <= i < p.len(),
            0 <= q < queue.len(),
            queue[q] == p[i],
            0 <= k <= queue.len(),
            queue.skip(k).no_duplicates(),
            forall|m: int| 0 <= m < queue.len() ==> #[trigger] queue[m] < self.node_seq().len(),
            k + self.node_seq().len() <= bound,
            fuel >= q + 1 + (p.len() - 1 - i) * bound,
        ensures
            self.walk(forwards, tree, queue, fuel).0.contains(p.last()),
        decreases p.len() - i, q,
    {
        let n = self.node_seq().len();
        let r = queue[0];
        let tree2 = if tree.contains(r) { tree } else { tree.push(r) };
        let rest = queue.drop_first();
        let steps = self.step_refs(forwards, r as int);
        let queue2 = append_unique(rest, steps);
        assert(self.walk(forwards, tree, queue, fuel) == self.walk(forwards, tree2, queue2, (fuel - 1) as nat));
        let k2 = if k > 0 { k - 1 } else { 0 };
        assert(rest.skip(k2) =~= if k > 0 { queue.skip(k) } else { queue.skip(1) });
        assert(rest.skip(k2).no_duplicates()) by {
            if k == 0 {
                assert forall|a: int, b: int| 0 <= a < b < rest.len() implies rest[a] != rest[b] by {
                    assert(rest[a] == queue.skip(0)[a + 1] && rest[b] == queue.skip(0)[b + 1]);
                }
            }
        }
        lemma_append_unique_shape(rest, steps, k2);
        lemma_append_unique_contains(rest, steps);
        self.lemma_steps_in_range(forwards, r as int);
        assert forall|m: int| 0 <= m < queue2.len() implies #[trigger] queue2[m] < n by {
            assert(queue2.contains(queue2[m]));
            if rest.contains(queue2[m]) {
                let j = choose|j: int| 0 <= j < rest.len() && rest[j] == queue2[m];
                assert(queue[j + 1] == queue2[m]);
            } else {
                let j = choose|j: int| 0 <= j < steps.len() && steps[j] == queue2[m];
            }
        }
        assert(queue2.len() <= bound) by {
            let tail = queue2.skip(k2);
            assert forall|m: int| 0 <= m < tail.len() implies #[trigger] tail[m] < n by {
                assert(tail[m] == queue2[m + k2]);
            }
            self.lemma_node_index_fits(Seq::empty());
            lemma_distinct_below(tail, n as usize);
        }
        if q > 0 {
            assert(queue2[q - 1] == rest[q - 1]);
            assert((p.len() - 1 - i) * bound >= 0) by (nonlinear_arith)
                requires
                    p.len() - 1 - i >= 0,
            ;
            self.lemma_walk_follows_path(forwards, tree2, queue2, (fuel - 1) as nat, k2, bound, p, i, q - 1);
        } else if i == p.len() - 1 {
            assert(tree2.contains(r)) by {
                if !tree.contains(r) {
                    assert(tree2[tree.len() as int] == r);
                }
            }
            let t = choose|t: int| 0 <= t < tree2.len() && tree2[t] == r;
            self.lemma_walk_keeps_prefix(forwards, tree2, queue2, (fuel - 1) as nat);
            assert(self.walk(forwards, tree2, queue2, (fuel - 1) as nat).0[t] == r);
        } else {
            assert(steps.contains(p[i + 1])) by {
                assert(self.step_refs(forwards, p[i] as int).contains(p[i + 1]));
            }
            assert(queue2.contains(p[i + 1]));
            let q2 = choose|q2: int| 0 <= q2 < queue2.len() && queue2[q2] == p[i + 1];
            assert((p.len() - 1 - i) * bound == bound + (p.len() - 1 - (i + 1)) * bound) by (nonlinear_arith);
            assert((p.len() - 1 - (i + 1)) * bound >= 0) by (nonlinear_arith)
                requires
                    p.len() - 1 - (i + 1) >= 0,
            ;
            self.lemma_walk_follows_path(forwards, tree2, queue2, (fuel - 1) as nat, k2, bound, p, i + 1, q2);
        }
    }

    /// Law: a breadth-first walk takes queue entries until its queue runs
    /// empty or it has taken 1000 of them; it lists at most 1001 nodes.
    pub proof fn walk_takes_up_to_a_thousand_entries(&self, forwards: bool, root: Seq<char>)
        ensures
            self.walk_from(forwards, root) == self.walk(
                forwards,
                seq![self.node_index(root) as usize],
                self.step_refs(forwards, self.node_index(root)),
                1000,
            ),
            self.walk_order(forwards, root).len() <= 1001,
    {
        let r = self.node_index(root);
        self.lemma_walk_grows_by_one(forwards, seq![r as usize], self.step_refs(forwards, r), 1000);
    }

    proof fn lemma_walk_grows_by_one(&self, forwards: bool, tree: Seq<usize>, queue: Seq<usize>, fuel: nat)
        ensures
            self.walk(forwards, tree, queue, fuel).0.len() <= tree.len() + fuel,
        decreases fuel,
    {
        if fuel > 0 && queue.len() > 0 {
            let r = queue[0];
            let tree2 = if tree.contains(r) { tree } else { tree.push(r) };
            let queue2 = append_unique(queue.drop_first(), self.step_refs(forwards, r as int));
            self.lemma_walk_grows_by_one(forwards, tree2, queue2, (fuel - 1) as nat);
        }
    }

    /// Law: in a graph whose node count times the sum of its node and edge
    /// counts is at most 1000, a breadth-first walk lists every node reachable
    /// from the root, cycles or not (a chain of ten nodes, for instance, is
    /// walked to its end).
    pub proof fn walk_lists_all_reachable_in_small_graphs(&self, forwards: bool, root: Seq<char>, x: usize)
        requires
            self.wf(),
            self.has_node(root),
            self.node_seq().len() * (self.node_seq().len() + self.edge_seq().len()) <= 1000,
            self.reachable(forwards, self.node_index(root) as usize, x),
        ensures
            self.walk_order(forwards, root).contains(x),
    {
        let n = self.node_seq().len();
        let e = self.edge_seq().len();
        self.lemma_node_index_fits(root);
        let r = self.node_index(root) as usize;
        let p0 = choose|p: Seq<usize>| #[trigger] self.is_path(forwards, p) && p[0] == r && p.last() == x;
        let p = self.lemma_path_without_repeats(forwards, p0);
        assert forall|m: int| 0 <= m < p.len() implies #[trigger] p[m] < n by {
            self.lemma_path_in_range(forwards, p, m);
        }
        lemma_distinct_below(p, n as usize);
        if p.len() == 1 {
            self.walk_starts_at_root(forwards, root);
            assert(self.walk_order(forwards, root)[0] == x);
        } else {
            let tree = seq![r];
            let queue = self.step_refs(forwards, r as int);
            let i = self.node_index(self.node_seq()[r as int].name@);
            lemma_adjacency_short(self.edges@, i);
            self.lemma_steps_in_range(forwards, r as int);
            assert(queue.len() <= e);
            assert(self.step_refs(forwards, p[0] as int).contains(p[0int + 1]));
            let q = choose|q: int| 0 <= q < queue.len() && queue[q] == p[1];
            let bound = queue.len() + n;
            assert(queue.skip(queue.len() as int).len() == 0);
            assert((p.len() - 2) * bound + bound <= n * (n + e)) by (nonlinear_arith)
                requires
                    2 <= p.len() <= n,
                    bound <= n + e,
            ;
            self.lemma_walk_follows_path(forwards, tree, queue, walk_limit(), queue.len() as int, bound, p, 1, q);
        }
    }
}

/// A sequence of distinct indices below `n` has at most `n` entries.
pub(crate) proof fn lemma_distinct_below(s: Seq<usize>, n: usize)
    requires
        s.no_duplicates(),
        forall|k: int| 0 <= k < s.len() ==> #[trigger] s[k] < n,
    ensures
        s.len() <= n,
{
    s.unique_seq_to_set();
    vstd::set_lib::range_set_properties::<usize>(0, n);
    let full = Set::<usize>::range(0, n);
    assert forall|x: usize| s.to_set().contains(x) implies full.contains(x) by {
        let k = choose|k: int| 0 <= k < s.len() && s[k] == x;
    }
    vstd::set_lib::lemma_len_subset(s.to_set(), full);
}

/// Law: the pairs `outgoing(edges, i)` lists are exactly the edges whose
/// source is `i`, each with its destination, in the order the edges were added.
pub proof fn outgoing_lists_exactly_the_leaving_edges<U: Copy>(edges: Seq<Edge<U>>, i: int)
    requires
        edges.len() <= usize::MAX,
    ensures
        forall|k: int| 0 <= k < outgoing(edges, i).len() ==> {
            let e = #[trigger] outgoing(edges, i)[k];
            &&& e.1 < edges.len()
            &&& edges[e.1 as int].src == i
            &&& edges[e.1 as int].dst == e.0
        },
        forall|k1: int, k2: int| 0 <= k1 < k2 < outgoing(edges, i).len() ==> #[trigger] outgoing(edges, i)[k1].1
            < #[trigger] outgoing(edges, i)[k2].1,
        forall|j: int| 0 <= j < edges.len() && #[trigger] edges[j].src == i ==> exists|k: int|
            0 <= k < outgoing(edges, i).len() && #[trigger] outgoing(edges, i)[k].1 == j,
    decreases edges.len(),
{
    if edges.len() > 0 {
        let rest = edges.drop_last();
        outgoing_lists_exactly_the_leaving_edges(rest, i);
        let o = outgoing(edges, i);
        let ro = outgoing(rest, i);
        let last = edges.len() - 1;
        assert(edges.last() == edges[last]);
        assert forall|k: int| 0 <= k < ro.len() implies o[k] == ro[k] by {}
        assert forall|k: int| 0 <= k < ro.len() implies edges[ro[k].1 as int] == rest[ro[k].1 as int] by {}
        assert forall|j: int| 0 <= j < edges.len() && #[trigger] edges[j].src == i implies exists|k: int|
            0 <= k < o.len() && #[trigger] o[k].1 == j by {
            if j < last {
                assert(rest[j] == edges[j]);
                let k = choose|k: int| 0 <= k < ro.len() && #[trigger] ro[k].1 == j;
                assert(o[k] == ro[k]);
            } else {
                assert(o[ro.len() as int].1 == j);
            }
        }
    }
}

/// Law: the pairs `incoming(edges, i)` lists are exactly the edges whose
/// destination is `i`, each with its source, in the order the edges were added.
pub proof fn incoming_lists_exactly_the_entering_edges<U: Copy>(edges: Seq<Edge<U>>, i: int)
    requires
        edges.len() <= usize::MAX,
    ensures
        forall|k: int| 0 <= k < incoming(edges, i).len() ==> {
            let e = #[trigger] incoming(edges, i)[k];
            &&& e.1 < edges.len()
            &&& edges[e.1 as int].dst == i
            &&& edges[e.1 as int].src == e.0
        },
        forall|k1: int, k2: int| 0 <= k1 < k2 < incoming(edges, i).len() ==> #[trigger] incoming(edges, i)[k1].1
            < #[trigger] incoming(edges, i)[k2].1,
        forall|j: int| 0 <= j < edges.len() && #[trigger] edges[j].dst == i ==> exists|k: int|
            0 <= k < incoming(edges, i).len() && #[trigger] incoming(edges, i)[k].1 == j,
    decreases edges.len(),
{
    if edges.len() > 0 {
        let rest = edges.drop_last();
        incoming_lists_exactly_the_entering_edges(rest, i);
        let o = incoming(edges, i);
        let ro = incoming(rest, i);
        let last = edges.len() - 1;
        assert(edges.last() == edges[last]);
        assert forall|k: int| 0 <= k < ro.len() implies o[k] == ro[k] by {}
        assert forall|k: int| 0 <= k < ro.len() implies edges[ro[k].1 as int] == rest[ro[k].1 as int] by {}
        assert forall|j: int| 0 <= j < edges.len() && #[trigger] edges[j].dst == i implies exists|k: int|
            0 <= k < o.len() && #[trigger] o[k].1 == j by {
            if j < last {
                assert(rest[j] == edges[j]);
                let k = choose|k: int| 0 <= k < ro.len() && #[trigger] ro[k].1 == j;
                assert(o[k] == ro[k]);
            } else {
                assert(o[ro.len() as int].1 == j);
            }
        }
    }
}

impl<T, U: Copy> Graph<T, U> {
    /// Law: after a node is added, its name refers to the new node and every
    /// other name refers to the node it referred to before.
    pub proof fn add_node_then_lookup(before: &Graph<T, U>, after: &Graph<T, U>, name: Seq<char>)
        requires
            after.node_seq().len() == before.node_seq().len() + 1,
            after.node_seq().drop_last() == before.node_seq(),
        ensures
            after.node_index(name) == if after.node_seq().last().name@ == name {
                before.node_seq().len() as int
            } else {
                before.node_index(name)
            },
    {
        let n = after.node_seq().last();
        assert(after.node_seq() =~= before.node_seq().push(n));
        lemma_last_named_push(before.node_seq(), n, name);
    }

    /// Law: after an edge is added, it is last among the edges leaving its
    /// source and last among the edges entering its destination; the lists of
    /// all other nodes are unchanged.
    pub proof fn add_edge_then_adjacency(before: &Graph<T, U>, after: &Graph<T, U>, i: int)
        requires
            after.edge_seq().len() == before.edge_seq().len() + 1,
            after.edge_seq().drop_last() == before.edge_seq(),
        ensures
            outgoing(after.edge_seq(), i) == if after.edge_seq().last().src == i {
                outgoing(before.edge_seq(), i).push((after.edge_seq().last().dst, before.edge_seq().len() as usize))
            } else {
                outgoing(before.edge_seq(), i)
            },
            incoming(after.edge_seq(), i) == if after.edge_seq().last().dst == i {
                incoming(before.edge_seq(), i).push((after.edge_seq().last().src, before.edge_seq().len() as usize))
            } else {
                incoming(before.edge_seq(), i)
            },
    {
        let e = after.edge_seq().last();
        assert(after.edge_seq() =~= before.edge_seq().push(e));
        lemma_adjacency_push(before.edge_seq(), e, i);
    }
}

/// `edges` with every edge turned around, in the same order.
pub open spec fn reversed_edges<U: Copy>(edges: Seq<Edge<U>>) -> Seq<Edge<U>> {
    edges.map_values(|e: Edge<U>| Edge { src: e.dst, dst: e.src, info: e.info })
}

/// The total length of the lists of edges leaving the nodes `0..n`.
pub open spec fn total_outgoing<U: Copy>(edges: Seq<Edge<U>>, n: nat) -> nat
    decreases n,
{
    if n == 0 {
        0
    } else {
        total_outgoing(edges, (n - 1) as nat) + outgoing(edges, n - 1).len()
    }
}

/// The total length of the lists of edges entering the nodes `0..n`.
pub open spec fn total_incoming<U: Copy>(edges: Seq<Edge<U>>, n: nat) -> nat
    decreases n,
{
    if n == 0 {
        0
    } else {
        total_incoming(edges, (n - 1) as nat) + incoming(edges, n - 1).len()
    }
}

proof fn lemma_reversed_adjacency<U: Copy>(edges: Seq<Edge<U>>, i: int)
    ensures
        incoming(edges, i) == outgoing(reversed_edges(edges), i),
    decreases edges.len(),
{
    if edges.len() > 0 {
        let r = reversed_edges(edges);
        assert(r.drop_last() =~= reversed_edges(edges.drop_last()));
        lemma_reversed_adjacency(edges.drop_last(), i);
        assert(r.last() == r[r.len() - 1]);
    }
}

proof fn lemma_totals_after_push<U: Copy>(edges: Seq<Edge<U>>, e: Edge<U>, n: nat)
    ensures
        total_outgoing(edges.push(e), n) == total_outgoing(edges, n) + if e.src < n { 1nat } else { 0nat },
        total_incoming(edges.push(e), n) == total_incoming(edges, n) + if e.dst < n { 1nat } else { 0nat },
    decreases n,
{
    if n > 0 {
        lemma_totals_after_push(edges, e, (n - 1) as nat);
        lemma_adjacency_push(edges, e, n - 1);
    }
}

proof fn lemma_totals_count_edges<U: Copy>(edges: Seq<Edge<U>>, n: nat)
    requires
        forall|k: int| 0 <= k < edges.len() ==> #[trigger] edges[k].src < n && edges[k].dst < n,
    ensures
        total_outgoing(edges, n) == edges.len(),
        total_incoming(edges, n) == edges.len(),
    decreases edges.len(),
{
    if edges.len() == 0 {
        lemma_totals_empty(edges, n);
    } else {
        let rest = edges.drop_last();
        assert forall|k: int| 0 <= k < rest.len() implies #[trigger] rest[k].src < n && rest[k].dst < n by {
            assert(rest[k] == edges[k]);
        }
        lemma_totals_count_edges(rest, n);
        let e = edges.last();
        assert(edges[edges.len() - 1] == e);
        assert(rest.push(e) =~= edges);
        lemma_totals_after_push(rest, e, n);
    }
}

proof fn lemma_totals_empty<U: Copy>(edges: Seq<Edge<U>>, n: nat)
    requires
        edges.len() == 0,
    ensures
        total_outgoing(edges, n) == 0,
        total_incoming(edges, n) == 0,
    decreases n,
{
    if n > 0 {
        lemma_totals_empty(edges, (n - 1) as nat);
    }
}

impl<T, U: Copy> Graph<T, U> {
    /// Law: the number of edges equals the total length of the lists of
    /// edges leaving the nodes, and the total length of the lists of edges
    /// entering them.
    pub proof fn edge_count_is_sum_of_lists(&self)
        requires
            self.wf(),
        ensures
            self.edge_seq().len() == total_outgoing(self.edge_seq(), self.node_seq().len()),
            self.edge_seq().len() == total_incoming(self.edge_seq(), self.node_seq().len()),
    {
        lemma_totals_count_edges(self.edges@, self.nodes@.len());
    }

    proof fn lemma_walks_agree(
        &self,
        other: &Graph<T, U>,
        tree: Seq<usize>,
        queue: Seq<usize>,
        fuel: nat,
    )
        requires
            other.node_seq() == self.node_seq(),
            other.edge_seq() == reversed_edges(self.edge_seq()),
        ensures
            self.walk(false, tree, queue, fuel) == other.walk(true, tree, queue, fuel),
        decreases fuel,
    {
        if fuel > 0 && queue.len() > 0 {
            let r = queue[0] as int;
            let i = self.node_index(self.node_seq()[r].name@);
            lemma_reversed_adjacency(self.edge_seq(), i);
            assert(self.step_refs(false, r) == other.step_refs(true, r));
            let tree2 = if tree.contains(queue[0]) { tree } else { tree.push(queue[0]) };
            let queue2 = append_unique(queue.drop_first(), self.step_refs(false, r));
            self.lemma_walks_agree(other, tree2, queue2, (fuel - 1) as nat);
        }
    }

    /// Law: walking against edge direction gives the same node order as
    /// walking along edge direction in the graph with the same nodes and every
    /// edge turned around.
    pub proof fn backward_walk_is_forward_walk_of_reversed(&self, other: &Graph<T, U>, root: Seq<char>)
        requires
            other.node_seq() == self.node_seq(),
            other.edge_seq() == reversed_edges(self.edge_seq()),
        ensures
            self.walk_order(false, root) == other.walk_order(true, root),
    {
        let r = self.node_index(root);
        let i = self.node_index(self.node_seq()[r].name@);
        lemma_reversed_adjacency(self.edge_seq(), i);
        assert(self.step_refs(false, r) == other.step_refs(true, r));
        self.lemma_walks_agree(other, seq![r as usize], self.step_refs(false, r), walk_limit());
    }
}

} // verus!
