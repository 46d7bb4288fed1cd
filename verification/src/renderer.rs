use crate::util::graph::{incoming, lemma_distinct_below, Graph};
use vstd::prelude::*;

verus! {

/// Why no submission plan could be made for a frame.
#[derive(Debug, PartialEq, Eq, Structural)]
pub enum PlanError {
    /// No root layer has been set.
    NoRootLayer,
    /// The root layer name does not name a layer.
    UnknownRootLayer,
    /// The dependencies among the frame's layers run in a cycle, so no layer
    /// of the cycle can be submitted after all the layers it depends on.
    DependencyCycle,
    /// More than one layer of the frame is marked as presenting.
    MultiplePresentLayers,
}

/// One queue submission of a frame: the graph node it comes from, the layer
/// whose commands are submitted, the layers whose completion it waits on
/// (each with the dependency's information, such as the pipeline stage), and
/// whether it is the layer that presents (which also waits on the acquired
/// image and signals the frame's fence and the presentation).
pub struct LayerSubmission<D> {
    pub node: usize,
    pub layer: usize,
    pub waits: Vec<(usize, D)>,
    pub present: bool,
}

/// The bookkeeping of a render graph: layers registered under names, the
/// dependencies between them, the root layer, and the frame counters.
pub struct Renderer<L, D: Copy> {
    pub layers: Vec<L>,
    pub layer_present: Vec<bool>,
    pub layer_graph: Graph<usize, D>,
    pub root_layer: String,
    pub frames_in_flight: usize,
    pub current_frame: usize,
    pub present_index: usize,
}

/// `n` unset marks.
fn unmarked(n: usize) -> (v: Vec<bool>)
    ensures
        v@.len() == n,
        forall|k: int| 0 <= k < n ==> !#[trigger] v@[k],
{
    let mut v: Vec<bool> = Vec::with_capacity(n);
    let mut i: usize = 0;
    while i < n
        invariant
            i <= n,
            v@.len() == i,
            forall|k: int| 0 <= k < i ==> !#[trigger] v@[k],
        decreases n - i,
    {
        v.push(false);
        i = i + 1;
    }
    v
}

/// Whether the mark of every entry of `items` is set.
fn all_marked(marks: &Vec<bool>, items: &Vec<usize>) -> (b: bool)
    requires
        forall|k: int| 0 <= k < items@.len() ==> #[trigger] items@[k] < marks@.len(),
    ensures
        b <==> forall|k: int| 0 <= k < items@.len() ==> marks@[#[trigger] items@[k] as int],
{
    let mut i: usize = 0;
    while i < items.len()
        invariant
            i <= items@.len(),
            forall|k: int| 0 <= k < items@.len() ==> #[trigger] items@[k] < marks@.len(),
            forall|k: int| 0 <= k < i ==> marks@[#[trigger] items@[k] as int],
        decreases items@.len() - i,
    {
        if !marks[items[i]] {
            return false;
        }
        i = i + 1;
    }
    true
}

impl<L, D: Copy> Renderer<L, D> {
    /// The layers are consistent with the graph: every node refers to a
    /// registered layer, and every layer has its presentation flag.
    pub open spec fn wf(&self) -> bool {
        &&& self.layer_graph.wf()
        &&& self.layer_present@.len() == self.layers@.len()
        &&& forall|i: int| 0 <= i < self.layer_graph.node_seq().len() ==> #[trigger] self.layer_graph.node_seq()[i].data
            < self.layers@.len()
    }

    /// The layer index that the name of node `r` refers to.
    pub open spec fn layer_of_node(&self, r: int) -> usize {
        let g = self.layer_graph;
        g.node_seq()[g.node_index(g.node_seq()[r].name@)].data
    }

    /// The layer index that `name` refers to.
    pub open spec fn layer_index(&self, name: Seq<char>) -> usize {
        self.layer_graph.node_seq()[self.layer_graph.node_index(name)].data
    }

    /// The waits of the submission of node `r`: for each dependency entering
    /// it, the layer it comes from and its information.
    pub open spec fn waits_of_node(&self, r: int) -> Seq<(usize, D)> {
        let g = self.layer_graph;
        incoming(g.edge_seq(), g.node_index(g.node_seq()[r].name@)).map_values(
            |p: (usize, usize)| (self.layer_of_node(p.0 as int), g.edge_seq()[p.1 as int].info),
        )
    }

    /// The node index of the root layer.
    pub open spec fn root_node(&self) -> int {
        self.layer_graph.node_index(self.root_layer@)
    }

    /// The nodes that node `r` depends on directly: the sources of the
    /// dependencies entering it, in the order they were added.
    pub open spec fn dependencies(&self, r: int) -> Seq<usize> {
        self.layer_graph.step_refs(false, r)
    }

    /// Node `x` belongs to the frame: it is the root layer's node, or one that
    /// the root layer depends on, directly or not.
    pub open spec fn in_frame(&self, x: usize) -> bool {
        self.layer_graph.reachable(false, self.root_node() as usize, x)
    }

    /// Node `x` refers to a presenting layer.
    pub open spec fn presents(&self, x: usize) -> bool {
        self.layer_present@[self.layer_of_node(x as int) as int]
    }

    /// `s` is a non-empty set of frame nodes each of which depends directly on
    /// a node of `s`: the frame's dependencies run in a cycle through `s`.
    pub open spec fn is_cyclic_set(&self, s: Set<usize>) -> bool {
        &&& exists|x: usize| s.contains(x)
        &&& forall|x: usize|
            #![trigger self.in_frame(x)]
            s.contains(x) ==> self.in_frame(x) && exists|y: usize| s.contains(y) && #[trigger] self.dependencies(
                x as int,
            ).contains(y)
    }

    /// The frame's dependencies run in a cycle.
    pub open spec fn has_dependency_cycle(&self) -> bool {
        exists|s: Set<usize>| self.is_cyclic_set(s)
    }

    /// Two distinct frame nodes refer to presenting layers.
    pub open spec fn has_two_presenting(&self) -> bool {
        exists|x: usize, y: usize|
            x != y && self.in_frame(x) && self.in_frame(y) && #[trigger] self.presents(x) && #[trigger] self.presents(y)
    }

    /// `order` lists every frame node exactly once, each after all the nodes
    /// it depends on: for each dependency between two listed nodes, the
    /// source comes before the destination.
    pub open spec fn is_submission_order(&self, order: Seq<usize>) -> bool {
        &&& order.no_duplicates()
        &&& forall|k: int| 0 <= k < order.len() ==> #[trigger] self.in_frame(order[k])
        &&& forall|x: usize| #[trigger] self.in_frame(x) ==> order.contains(x)
        &&& forall|j: int, k: int|
            0 <= j < order.len() && 0 <= k < order.len() && #[trigger] self.dependencies(order[k] as int).contains(
                order[j],
            ) ==> j < k
    }

    pub fn new(frames_in_flight: usize) -> (r: Self)
        ensures
            r.wf(),
            r.layers@.len() == 0,
            r.layer_graph.node_seq().len() == 0,
            r.layer_graph.edge_seq().len() == 0,
            r.root_layer@ == Seq::<char>::empty(),
            r.frames_in_flight == frames_in_flight,
            r.current_frame == 0,
            r.present_index == 0,
    {
        Renderer {
            layers: Vec::new(),
            layer_present: Vec::new(),
            layer_graph: Graph::new(),
            root_layer: String::new(),
            frames_in_flight,
            current_frame: 0,
            present_index: 0,
        }
    }

    /// Registers `layer` under `name`; the name refers to it from now on.
    pub fn add_layer(&mut self, name: &str, present: bool, layer: L)
        requires
            old(self).wf(),
        ensures
            final(self).wf(),
            final(self).layers@ == old(self).layers@.push(layer),
            final(self).layer_present@ == old(self).layer_present@.push(present),
            final(self).layer_graph.node_seq().drop_last() == old(self).layer_graph.node_seq(),
            final(self).layer_graph.node_seq().len() == old(self).layer_graph.node_seq().len() + 1,
            final(self).layer_graph.node_seq().last().name@ == name@,
            final(self).layer_graph.node_seq().last().data == old(self).layers@.len(),
            final(self).layer_graph.edge_seq() == old(self).layer_graph.edge_seq(),
            final(self).root_layer == old(self).root_layer,
            final(self).frames_in_flight == old(self).frames_in_flight,
            final(self).current_frame == old(self).current_frame,
            final(self).present_index == old(self).present_index,
    {
        self.layers.push(layer);
        self.layer_present.push(present);
        let index = self.layers.len() - 1;
        self.layer_graph.add_node(name, index);
        assert forall|i: int| 0 <= i < self.layer_graph.node_seq().len() implies #[trigger] self.layer_graph.node_seq()[i].data
            < self.layers@.len() by {
            if i < self.layer_graph.node_seq().len() - 1 {
                assert(self.layer_graph.node_seq()[i] == old(self).layer_graph.node_seq()[i]);
            }
        }
    }

    /// Makes `name` the root layer, the one whose dependencies a frame runs.
    pub fn set_root_layer(&mut self, name: &str)
        ensures
            final(self).root_layer@ == name@,
            final(self).layers == old(self).layers,
            final(self).layer_present == old(self).layer_present,
            final(self).layer_graph == old(self).layer_graph,
            final(self).frames_in_flight == old(self).frames_in_flight,
            final(self).current_frame == old(self).current_frame,
            final(self).present_index == old(self).present_index,
    {
        self.root_layer = name.to_owned();
    }

    /// Makes the layer `dst` refers to depend on the layer `src` refers to.
    pub fn add_layer_dependency(&mut self, src: &str, dst: &str, info: D)
        requires
            old(self).wf(),
            old(self).layer_graph.has_node(src@),
            old(self).layer_graph.has_node(dst@),
        ensures
            final(self).wf(),
            final(self).layer_graph.node_seq() == old(self).layer_graph.node_seq(),
            final(self).layer_graph.edge_seq() == old(self).layer_graph.edge_seq().push(
                crate::util::graph::Edge {
                    src: old(self).layer_graph.node_index(src@) as usize,
                    dst: old(self).layer_graph.node_index(dst@) as usize,
                    info,
                },
            ),
            final(self).layers == old(self).layers,
            final(self).layer_present == old(self).layer_present,
            final(self).root_layer == old(self).root_layer,
            final(self).frames_in_flight == old(self).frames_in_flight,
            final(self).current_frame == old(self).current_frame,
            final(self).present_index == old(self).present_index,
    {
        self.layer_graph.add_edge(src, dst, info);
    }


    /// Moves on to the next frame in flight, wrapping around.
    pub fn advance_frame(&mut self)
        requires
            old(self).frames_in_flight > 0,
            old(self).current_frame < usize::MAX,
        ensures
            final(self).current_frame == (old(self).current_frame + 1) % (old(self).frames_in_flight as int),
            final(self).layers == old(self).layers,
            final(self).layer_present == old(self).layer_present,
            final(self).layer_graph == old(self).layer_graph,
            final(self).root_layer == old(self).root_layer,
            final(self).frames_in_flight == old(self).frames_in_flight,
            final(self).present_index == old(self).present_index,
    {
        self.current_frame = (self.current_frame + 1) % self.frames_in_flight;
    }

    /// The submissions of a frame, in order: one per layer node of the frame
    /// (the root layer's and those it depends on, directly or not), each after
    /// the submissions of all the layers it depends on.
    pub fn submission_plan(&self) -> (r: Result<Vec<LayerSubmission<D>>, PlanError>)
        requires
            self.wf(),
        ensures
            self.root_layer@.len() == 0 ==> r == Err::<Vec<LayerSubmission<D>>, PlanError>(PlanError::NoRootLayer),
            self.root_layer@.len() > 0 && !self.layer_graph.has_node(self.root_layer@) ==> r == Err::<
                Vec<LayerSubmission<D>>,
                PlanError,
            >(PlanError::UnknownRootLayer),
            self.root_layer@.len() > 0 && self.layer_graph.has_node(self.root_layer@) ==> {
                if self.has_dependency_cycle() {
                    r == Err::<Vec<LayerSubmission<D>>, PlanError>(PlanError::DependencyCycle)
                } else if self.has_two_presenting() {
                    r == Err::<Vec<LayerSubmission<D>>, PlanError>(PlanError::MultiplePresentLayers)
                } else {
                    &&& r is Ok
                    &&& self.is_submission_order(r->Ok_0@.map_values(|s: LayerSubmission<D>| s.node))
                    &&& forall|k: int| 0 <= k < r->Ok_0@.len() ==> {
                        let s = #[trigger] r->Ok_0@[k];
                        &&& s.layer == self.layer_of_node(s.node as int)
                        &&& s.waits@ == self.waits_of_node(s.node as int)
                        &&& s.present == self.presents(s.node)
                    }
                }
            },
    {
        if self.root_layer.as_str().is_empty() {
            return Err(PlanError::NoRootLayer);
        }
        if !self.layer_graph.contains_node(self.root_layer.as_str()) {
            return Err(PlanError::UnknownRootLayer);
        }
        let g = &self.layer_graph;
        let reach = self.frame_nodes();
        let order = match self.dependency_first_order(&reach) {
            Some(o) => o,
            None => {
                return Err(PlanError::DependencyCycle);
            },
        };
        proof {
            assert forall|s: Set<usize>| !self.is_cyclic_set(s) by {
                self.cyclic_dependencies_admit_no_order(order@, s);
            }
        }
        let mut plan: Vec<LayerSubmission<D>> = Vec::with_capacity(order.len());
        let mut presenter: Option<usize> = None;
        let mut k: usize = 0;
        while k < order.len()
            invariant
                self.wf(),
                g == &self.layer_graph,
                self.root_layer@.len() > 0,
                self.layer_graph.has_node(self.root_layer@),
                self.is_submission_order(order@),
                !self.has_dependency_cycle(),
                forall|m: int| 0 <= m < order@.len() ==> #[trigger] order@[m] < g.node_seq().len(),
                k <= order@.len(),
                plan@.len() == k,
                forall|m: int| 0 <= m < k ==> {
                    let s = #[trigger] plan@[m];
                    &&& s.node == order@[m]
                    &&& s.layer == self.layer_of_node(s.node as int)
                    &&& s.waits@ == self.waits_of_node(s.node as int)
                    &&& s.present == self.presents(s.node)
                },
                match presenter {
                    None => forall|m: int| 0 <= m < k ==> !self.presents(#[trigger] order@[m]),
                    Some(p) => p < k && self.presents(order@[p as int]) && forall|m: int|
                        0 <= m < k && self.presents(#[trigger] order@[m]) ==> m == p,
                },
            decreases order@.len() - k,
        {
            let x = order[k];
            let node = g.node_at(x);
            let name = node.name.as_str();
            proof {
                g.lemma_node_named_at(x as int);
                g.lemma_node_in_range(node.name@);
            }
            let layer = g.get_node(name).data;
            let waits = self.dependency_waits(name);
            let present = self.layer_present[layer];
            assert(layer == self.layer_of_node(x as int));
            assert(waits@ == self.waits_of_node(x as int));
            if present {
                match presenter {
                    Some(p) => {
                        proof {
                            let y = order@[p as int];
                            assert(self.in_frame(x) && self.in_frame(y));
                            assert(y != x);
                            assert(self.presents(x) && self.presents(y));
                        }
                        return Err(PlanError::MultiplePresentLayers);
                    },
                    None => {
                        presenter = Some(k);
                    },
                }
            }
            let ghost before = plan@;
            plan.push(LayerSubmission { node: x, layer, waits, present });
            assert forall|m: int| 0 <= m < plan@.len() implies {
                let s = #[trigger] plan@[m];
                &&& s.node == order@[m]
                &&& s.layer == self.layer_of_node(s.node as int)
                &&& s.waits@ == self.waits_of_node(s.node as int)
                &&& s.present == self.presents(s.node)
            } by {
                if m < before.len() {
                    assert(plan@[m] == before[m]);
                }
            }
            k = k + 1;
        }
        proof {
            assert(plan@.map_values(|s: LayerSubmission<D>| s.node) =~= order@);
            assert forall|x: usize, y: usize|
                x != y && self.in_frame(x) && self.in_frame(y) && #[trigger] self.presents(x) && #[trigger] self.presents(
                    y,
                ) implies false by {
                let i = choose|i: int| 0 <= i < order@.len() && order@[i] == x;
                let j = choose|j: int| 0 <= j < order@.len() && order@[j] == y;
                assert(self.presents(order@[i]) && self.presents(order@[j]));
            }
        }
        Ok(plan)
    }

    /// Which nodes belong to the frame: entry `i` tells whether node `i` is
    /// the root layer's node or one it depends on, directly or not.
    fn frame_nodes(&self) -> (reach: Vec<bool>)
        requires
            self.wf(),
            self.layer_graph.has_node(self.root_layer@),
        ensures
            reach@.len() == self.layer_graph.node_seq().len(),
            forall|i: int| 0 <= i < reach@.len() ==> (reach@[i] <==> self.in_frame(i as usize)),
            forall|x: usize| self.in_frame(x) ==> x < reach@.len(),
    {
        let g = &self.layer_graph;
        let n = g.node_count();
        proof { g.lemma_node_in_range(self.root_layer@); }
        let root = g.get_node_ref(self.root_layer.as_str());
        let mut reach = unmarked(n);
        reach.set(root, true);
        let mut stack: Vec<usize> = Vec::new();
        stack.push(root);
        let ghost mut members: Seq<usize> = seq![root];
        proof {
            let p = seq![root];
            assert(p[0] == root && p.last() == root);
            assert(g.is_path(false, p));
            assert(self.in_frame(root));
            assert(members[0] == root);
            assert forall|i: int| 0 <= i < n implies (#[trigger] reach@[i] <==> members.contains(i as usize)) by {
                if i == root {
                    assert(members[0] == root);
                }
            }
        }
        while stack.len() > 0
            invariant
                self.wf(),
                g == &self.layer_graph,
                n == g.node_seq().len(),
                root as int == self.root_node(),
                reach@.len() == n,
                members.no_duplicates(),
                forall|k: int| 0 <= k < members.len() ==> #[trigger] members[k] < n && self.in_frame(members[k]),
                forall|i: int| 0 <= i < n ==> (#[trigger] reach@[i] <==> members.contains(i as usize)),
                forall|k: int| 0 <= k < stack@.len() ==> #[trigger] members.contains(stack@[k]),
                members.len() > 0 && members[0] == root,
                forall|x: usize, y: usize|
                    members.contains(x) && !stack@.contains(x) && #[trigger] g.step_refs(false, x as int).contains(y)
                        ==> members.contains(y),
            decreases n - members.len(), stack@.len(),
        {
            let ghost members0 = members;
            let ghost stack_before = stack@;
            let x = match stack.pop() {
                Some(x) => x,
                None => 0,
            };
            let ghost stack0 = stack@;
            assert(stack_before == stack0.push(x));
            assert(stack_before[stack_before.len() - 1] == x);
            assert(members.contains(x));
            proof {
                let xi = choose|k: int| 0 <= k < members.len() && members[k] == x;
                assert(members[xi] < n);
            }
            assert(x < n && self.in_frame(x));
            let deps = g.step_node_refs(x, false);
            let mut j: usize = 0;
            while j < deps.len()
                invariant
                    self.wf(),
                    g == &self.layer_graph,
                    n == g.node_seq().len(),
                    root as int == self.root_node(),
                    reach@.len() == n,
                    x < n,
                    self.in_frame(x),
                    deps@ == g.step_refs(false, x as int),
                    forall|m: int| 0 <= m < deps@.len() ==> #[trigger] deps@[m] < n,
                    j <= deps@.len(),
                    members.no_duplicates(),
                    forall|k: int| 0 <= k < members.len() ==> #[trigger] members[k] < n && self.in_frame(members[k]),
                    forall|i: int| 0 <= i < n ==> (#[trigger] reach@[i] <==> members.contains(i as usize)),
                    forall|y: usize| members0.contains(y) ==> #[trigger] members.contains(y),
                    forall|y: usize| #[trigger] members.contains(y) && !members0.contains(y) ==> stack@.contains(y),
                    forall|y: usize| stack0.contains(y) ==> #[trigger] stack@.contains(y),
                    forall|k: int| 0 <= k < stack@.len() ==> #[trigger] members.contains(stack@[k]),
                    members.len() >= members0.len(),
                    members.len() > 0 && members[0] == root,
                    members.len() == members0.len() ==> stack@ == stack0,
                    forall|m: int| 0 <= m < j ==> members.contains(#[trigger] deps@[m]),
                decreases deps@.len() - j,
            {
                let d = deps[j];
                if !reach[d] {
                    let ghost m_before = members;
                    let ghost s_before = stack@;
                    reach.set(d, true);
                    stack.push(d);
                    proof {
                        g.lemma_reach_step(false, root, x, d);
                        assert(!m_before.contains(d));
                        members = members.push(d);
                        assert(members.last() == d);
                        assert(stack@.last() == d);
                        assert forall|y: usize| m_before.contains(y) implies #[trigger] members.contains(y) by {
                            let k = choose|k: int| 0 <= k < m_before.len() && m_before[k] == y;
                            assert(members[k] == y);
                        }
                        assert forall|y: usize| s_before.contains(y) implies #[trigger] stack@.contains(y) by {
                            let k = choose|k: int| 0 <= k < s_before.len() && s_before[k] == y;
                            assert(stack@[k] == y);
                        }
                        assert forall|i: int| 0 <= i < n implies (#[trigger] reach@[i] <==> members.contains(
                            i as usize,
                        )) by {
                            if i != d {
                                if members.contains(i as usize) {
                                    let k = choose|k: int| 0 <= k < members.len() && members[k] == i as usize;
                                    if k < m_before.len() {
                                        assert(m_before[k] == i as usize);
                                    }
                                }
                            }
                        }
                        assert forall|y: usize| #[trigger] members.contains(y) && !members0.contains(y) implies stack@.contains(y) by {
                            if y != d {
                                let k = choose|k: int| 0 <= k < members.len() && members[k] == y;
                                assert(m_before[k] == y);
                                assert(m_before.contains(y));
                                assert(s_before.contains(y));
                            }
                        }
                        assert forall|k: int| 0 <= k < stack@.len() implies #[trigger] members.contains(stack@[k]) by {
                            if k < s_before.len() {
                                assert(stack@[k] == s_before[k]);
                            }
                        }
                        assert forall|m: int| 0 <= m <= j implies members.contains(#[trigger] deps@[m]) by {}
                        assert(members.no_duplicates());
                    }
                }
                j = j + 1;
            }
            proof {
                lemma_distinct_below(members, n);
                assert forall|a: usize, b: usize|
                    members.contains(a) && !stack@.contains(a) && #[trigger] g.step_refs(false, a as int).contains(b)
                        implies members.contains(b) by {
                    if a == x {
                        let m = choose|m: int| 0 <= m < deps@.len() && deps@[m] == b;
                        assert(members.contains(deps@[m]));
                    } else if members0.contains(a) {
                        assert(!stack0.contains(a));
                        assert(!stack_before.contains(a)) by {
                            if stack_before.contains(a) {
                                let k = choose|k: int| 0 <= k < stack_before.len() && stack_before[k] == a;
                                assert(stack0[k] == a);
                            }
                        }
                        assert(members0.contains(b));
                    }
                }
            }
        }
        proof {
            assert(g.closed_under_steps(false, members, Seq::empty()));
            assert(self.root_node() as usize == root);
            assert forall|x: usize| #[trigger] self.in_frame(x) implies x < n && members.contains(x) by {
                let p = choose|p: Seq<usize>| #[trigger] g.is_path(false, p) && p[0] == root && p.last() == x;
                assert(members[0] == root);
                g.lemma_closed_covers_paths(false, members, p, p.len() - 1);
                let k = choose|k: int| 0 <= k < members.len() && members[k] == x;
                assert(members[k] < n);
            }
            assert(reach@.len() == n);
        }
        reach
    }

    /// A dependency-first order of the frame's nodes, or `None` when the
    /// frame's dependencies run in a cycle. Each pass over the nodes places
    /// every frame node whose dependencies are all placed, in index order.
    fn dependency_first_order(&self, reach: &Vec<bool>) -> (r: Option<Vec<usize>>)
        requires
            self.wf(),
            self.layer_graph.has_node(self.root_layer@),
            reach@.len() == self.layer_graph.node_seq().len(),
            forall|i: int| 0 <= i < reach@.len() ==> (reach@[i] <==> self.in_frame(i as usize)),
            forall|x: usize| self.in_frame(x) ==> x < reach@.len(),
        ensures
            match r {
                Some(order) => self.is_submission_order(order@) && forall|k: int|
                    0 <= k < order@.len() ==> #[trigger] order@[k] < self.layer_graph.node_seq().len(),
                None => self.has_dependency_cycle(),
            },
    {
        let g = &self.layer_graph;
        let n = reach.len();
        let mut placed = unmarked(n);
        let mut order: Vec<usize> = Vec::new();
        loop
            invariant
                self.wf(),
                g == &self.layer_graph,
                self.layer_graph.has_node(self.root_layer@),
                n == reach@.len(),
                n == g.node_seq().len(),
                forall|i: int| 0 <= i < reach@.len() ==> (reach@[i] <==> self.in_frame(i as usize)),
                forall|x: usize| self.in_frame(x) ==> x < reach@.len(),
                placed@.len() == n,
                forall|i: int| 0 <= i < n ==> (#[trigger] placed@[i] <==> order@.contains(i as usize)),
                order@.no_duplicates(),
                forall|k: int| 0 <= k < order@.len() ==> #[trigger] order@[k] < n && reach@[order@[k] as int],
                forall|k: int, y: usize|
                    0 <= k < order@.len() && #[trigger] g.step_refs(false, order@[k] as int).contains(y)
                        ==> order@.take(k).contains(y),
            ensures
                forall|i: int| 0 <= i < n && reach@[i] ==> placed@[i],
            decreases n - order@.len(),
        {
            let ghost start = order@;
            let mut progress = false;
            let mut pending = false;
            let ghost mut stuck: usize = 0;
            let mut i: usize = 0;
            while i < n
                invariant
                    self.wf(),
                    g == &self.layer_graph,
                    n == reach@.len(),
                    n == g.node_seq().len(),
                    forall|i: int| 0 <= i < reach@.len() ==> (reach@[i] <==> self.in_frame(i as usize)),
                    placed@.len() == n,
                    forall|i: int| 0 <= i < n ==> (#[trigger] placed@[i] <==> order@.contains(i as usize)),
                    order@.no_duplicates(),
                    forall|k: int| 0 <= k < order@.len() ==> #[trigger] order@[k] < n && reach@[order@[k] as int],
                    forall|k: int, y: usize|
                        0 <= k < order@.len() && #[trigger] g.step_refs(false, order@[k] as int).contains(y)
                            ==> order@.take(k).contains(y),
                    i <= n,
                    progress <==> order@.len() > start.len(),
                    !progress ==> order@ == start,
                    !progress ==> forall|j: int|
                        0 <= j < i && reach@[j] && !placed@[j] ==> exists|d: usize|
                            #[trigger] g.step_refs(false, j).contains(d) && d < n && !placed@[d as int],
                    !pending ==> forall|j: int| 0 <= j < i && reach@[j] ==> placed@[j],
                    pending && !progress ==> stuck < n && reach@[stuck as int] && !placed@[stuck as int],
                decreases n - i,
            {
                if reach[i] && !placed[i] {
                    let deps = g.step_node_refs(i, false);
                    if all_marked(&placed, &deps) {
                        let ghost before = order@;
                        let ghost placed_before = placed@;
                        placed.set(i, true);
                        order.push(i);
                        progress = true;
                        proof {
                            assert(order@.take(before.len() as int) =~= before);
                            assert(order@[before.len() as int] == i);
                            assert(!before.contains(i));
                            assert forall|a: int, b: int| 0 <= a < b < order@.len() implies order@[a] != order@[b] by {
                                if b < before.len() {
                                    assert(order@[a] == before[a] && order@[b] == before[b]);
                                } else {
                                    assert(order@[a] == before[a]);
                                }
                            }
                            assert forall|j: int| 0 <= j < n implies (#[trigger] placed@[j] <==> order@.contains(
                                j as usize,
                            )) by {
                                if j != i {
                                    if order@.contains(j as usize) {
                                        let k = choose|k: int| 0 <= k < order@.len() && order@[k] == j as usize;
                                        assert(before[k] == j as usize);
                                    }
                                    if before.contains(j as usize) {
                                        let k = choose|k: int| 0 <= k < before.len() && before[k] == j as usize;
                                        assert(order@[k] == j as usize);
                                    }
                                }
                            }
                            assert forall|k: int| 0 <= k < order@.len() implies #[trigger] order@[k] < n
                                && reach@[order@[k] as int] by {
                                if k < before.len() {
                                    assert(order@[k] == before[k]);
                                }
                            }
                            assert forall|k: int, y: usize|
                                0 <= k < order@.len() && #[trigger] g.step_refs(false, order@[k] as int).contains(y)
                                    implies order@.take(k).contains(y) by {
                                if k < before.len() {
                                    assert(order@[k] == before[k]);
                                    assert(order@.take(k) =~= before.take(k));
                                } else {
                                    let m = choose|m: int| 0 <= m < deps@.len() && deps@[m] == y;
                                    assert(placed_before[deps@[m] as int]);
                                }
                            }
                            if !pending {
                                assert forall|j: int| 0 <= j <= i && reach@[j] implies placed@[j] by {
                                    if j < i {
                                        assert(placed_before[j]);
                                    }
                                }
                            }
                        }
                    } else {
                        proof {
                            let m = choose|m: int| 0 <= m < deps@.len() && !placed@[deps@[m] as int];
                            assert(g.step_refs(false, i as int).contains(deps@[m]));
                            if !progress {
                                stuck = i;
                            }
                        }
                        pending = true;
                    }
                }
                i = i + 1;
            }
            if !pending {
                break;
            }
            if !progress {
                proof {
                    self.lemma_stuck_nodes_form_cycle(reach@, placed@, stuck);
                }
                return None;
            }
            proof {
                lemma_distinct_below(order@, n);
            }
        }
        proof {
            assert forall|j: int, k: int|
                0 <= j < order@.len() && 0 <= k < order@.len() && #[trigger] self.dependencies(
                    order@[k] as int,
                ).contains(order@[j]) implies j < k by {
                assert(order@.take(k).contains(order@[j]));
                let m = choose|m: int| 0 <= m < k && order@.take(k)[m] == order@[j];
                assert(order@[m] == order@[j]);
            }
            assert forall|x: usize| #[trigger] self.in_frame(x) implies order@.contains(x) by {
                assert(placed@[x as int]);
            }
            assert forall|k: int| 0 <= k < order@.len() implies #[trigger] self.in_frame(order@[k]) by {
                assert(reach@[order@[k] as int]);
            }
        }
        Some(order)
    }

    /// When some frame node is unplaced and every unplaced frame node depends
    /// directly on an unplaced node, the unplaced frame nodes form a cycle.
    proof fn lemma_stuck_nodes_form_cycle(&self, reach: Seq<bool>, placed: Seq<bool>, stuck: usize)
        requires
            self.wf(),
            self.layer_graph.has_node(self.root_layer@),
            reach.len() == self.layer_graph.node_seq().len(),
            placed.len() == reach.len(),
            forall|i: int| 0 <= i < reach.len() ==> (reach[i] <==> self.in_frame(i as usize)),
            stuck < reach.len(),
            reach[stuck as int],
            !placed[stuck as int],
            forall|j: int|
                0 <= j < reach.len() && reach[j] && !placed[j] ==> exists|d: usize|
                    #[trigger] self.layer_graph.step_refs(false, j).contains(d) && d < reach.len() && !placed[d as int],
        ensures
            self.has_dependency_cycle(),
    {
        let g = self.layer_graph;
        let n = reach.len();
        let root = self.root_node() as usize;
        let s = Set::new(|x: usize| x < n && reach[x as int] && !placed[x as int]);
        assert(s.contains(stuck));
        assert forall|x: usize|
            #![trigger self.in_frame(x)]
            s.contains(x) implies self.in_frame(x) && exists|y: usize|
                s.contains(y) && #[trigger] self.dependencies(x as int).contains(y) by {
            assert(reach[x as int] && !placed[x as int]);
            assert(self.in_frame(x));
            let d = choose|d: usize| #[trigger] g.step_refs(false, x as int).contains(d) && d < n && !placed[d as int];
            g.lemma_reach_step(false, root, x, d);
            assert(self.in_frame(d));
            assert(reach[d as int]);
            assert(s.contains(d));
            assert(self.dependencies(x as int).contains(d));
        }
        assert(self.is_cyclic_set(s));
    }

    /// The waits of the submission of the layer node named `name`.
    fn dependency_waits(&self, name: &str) -> (v: Vec<(usize, D)>)
        requires
            self.wf(),
            self.layer_graph.has_node(name@),
        ensures
            v@ == self.waits_of_node(self.layer_graph.node_index(name@)),
    {
        let g = &self.layer_graph;
        proof {
            g.lemma_node_in_range(name@);
            g.lemma_edges_in_range();
            crate::util::graph::incoming_lists_exactly_the_entering_edges(g.edge_seq(), g.node_index(name@));
            g.lemma_edges_in_range();
        }
        let deps = g.get_prev_edges(name);
        let ghost i = g.node_index(name@);
        let ghost inc = incoming(g.edge_seq(), i);
        assert(g.node_index(g.node_seq()[i].name@) == i);
        let mut v: Vec<(usize, D)> = Vec::with_capacity(deps.len());
        let mut j: usize = 0;
        while j < deps.len()
            invariant
                self.wf(),
                g == &self.layer_graph,
                deps@.len() == inc.len(),
                forall|m: int| 0 <= m < deps@.len() ==> *#[trigger] deps@[m] == g.edge_seq()[inc[m].1 as int],
                forall|m: int| 0 <= m < inc.len() ==> {
                    let e = #[trigger] inc[m];
                    &&& e.1 < g.edge_seq().len()
                    &&& g.edge_seq()[e.1 as int].src == e.0
                },
                forall|m: int| 0 <= m < g.edge_seq().len() ==> #[trigger] g.edge_seq()[m].src < g.node_seq().len(),
                j <= deps@.len(),
                v@.len() == j,
                forall|m: int| 0 <= m < j ==> #[trigger] v@[m] == (self.layer_of_node(inc[m].0 as int), g.edge_seq()[inc[m].1 as int].info),
            decreases deps@.len() - j,
        {
            let dep = deps[j];
            let ghost e = inc[j as int];
            let src_node = g.get_src_node(dep);
            proof { g.lemma_node_named_at(e.0 as int); }
            let layer = g.get_node(src_node.name.as_str()).data;
            v.push((layer, dep.info));
            j = j + 1;
        }
        assert(v@ =~= self.waits_of_node(i));
        v
    }

    /// The layer that `name` refers to.
    pub fn get_layer(&self, name: &str) -> (l: &L)
        requires
            self.wf(),
            self.layer_graph.has_node(name@),
        ensures
            *l == self.layers@[self.layer_index(name@) as int],
    {
        proof { self.layer_graph.lemma_node_in_range(name@); }
        let layer_ref = self.layer_graph.get_node(name).data;
        &self.layers[layer_ref]
    }

    /// The layer that `name` refers to, for changing it.
    pub fn get_layer_mut(&mut self, name: &str) -> (l: &mut L)
        requires
            old(self).wf(),
            old(self).layer_graph.has_node(name@),
        ensures
            *l == old(self).layers@[old(self).layer_index(name@) as int],
            final(self).layers@ == old(self).layers@.update(old(self).layer_index(name@) as int, *final(l)),
            final(self).layer_present == old(self).layer_present,
            final(self).layer_graph == old(self).layer_graph,
            final(self).root_layer == old(self).root_layer,
            final(self).frames_in_flight == old(self).frames_in_flight,
            final(self).current_frame == old(self).current_frame,
            final(self).present_index == old(self).present_index,
    {
        proof { self.layer_graph.lemma_node_in_range(name@); }
        let layer_ref = self.layer_graph.get_node(name).data;
        &mut self.layers[layer_ref]
    }
}

impl<L, D: Copy> Renderer<L, D> {
    /// Law: a cycle among the frame's dependencies and a submission order
    /// exclude each other; when the dependencies run in a cycle, no order of
    /// the frame's layers puts every layer after all those it depends on.
    pub proof fn cyclic_dependencies_admit_no_order(&self, order: Seq<usize>, s: Set<usize>)
        ensures
            !(self.is_submission_order(order) && self.is_cyclic_set(s)),
    {
        if self.is_submission_order(order) && self.is_cyclic_set(s) {
            self.lemma_prefix_outside_cycle(order, s, order.len() - 1);
            let x = choose|x: usize| s.contains(x);
            assert(self.in_frame(x));
            assert(order.contains(x));
            let j = choose|j: int| 0 <= j < order.len() && order[j] == x;
            assert(!s.contains(order[j]));
        }
    }

    proof fn lemma_prefix_outside_cycle(&self, order: Seq<usize>, s: Set<usize>, k: int)
        requires
            self.is_submission_order(order),
            self.is_cyclic_set(s),
            -1 <= k < order.len(),
        ensures
            forall|j: int| 0 <= j <= k ==> !s.contains(#[trigger] order[j]),
        decreases k + 1,
    {
        if k >= 0 {
            self.lemma_prefix_outside_cycle(order, s, k - 1);
            if s.contains(order[k]) {
                assert(self.in_frame(order[k]));
                let y = choose|y: usize| s.contains(y) && #[trigger] self.dependencies(order[k] as int).contains(y);
                assert(self.in_frame(y));
                assert(order.contains(y));
                let m = choose|m: int| 0 <= m < order.len() && order[m] == y;
                assert(self.dependencies(order[k] as int).contains(order[m]));
                assert(m < k);
            }
        }
    }

    /// Law: in every submission order the root layer's node comes last, after
    /// every layer it depends on.
    pub proof fn root_is_submitted_last(&self, order: Seq<usize>)
        requires
            self.layer_graph.has_node(self.root_layer@),
            self.is_submission_order(order),
        ensures
            order.len() >= 1,
            order.last() == self.root_node(),
    {
        let g = self.layer_graph;
        g.lemma_node_in_range(self.root_layer@);
        g.lemma_node_index_fits(self.root_layer@);
        let root = self.root_node() as usize;
        assert(root as int == self.root_node());
        let p0 = seq![root];
        assert(p0[0] == root && p0.last() == root);
        assert(g.is_path(false, p0));
        assert(self.in_frame(root));
        assert(order.contains(root));
        let k0 = choose|k: int| 0 <= k < order.len() && order[k] == root;
        let last = order.last();
        assert(self.in_frame(order[order.len() - 1]));
        if last != root {
            let p = choose|p: Seq<usize>| #[trigger] g.is_path(false, p) && p[0] == root && p.last() == last;
            self.lemma_path_moves_earlier(order, p, k0, p.len() - 1);
            let m = choose|m: int| 0 <= m <= k0 - (p.len() - 1) && order[m] == p[p.len() - 1];
            assert(order[m] == order[order.len() - 1]);
            assert(m == order.len() - 1);
        }
    }

    /// Along a dependency path from the root layer's node, each node stands
    /// strictly earlier in a submission order than the one before it.
    proof fn lemma_path_moves_earlier(&self, order: Seq<usize>, p: Seq<usize>, k0: int, i: int)
        requires
            self.is_submission_order(order),
            self.layer_graph.is_path(false, p),
            p[0] == self.root_node() as usize,
            0 <= k0 < order.len(),
            order[k0] == p[0],
            0 <= i < p.len(),
        ensures
            self.in_frame(p[i]),
            exists|m: int| 0 <= m <= k0 - i && order[m] == p[i],
        decreases i,
    {
        let g = self.layer_graph;
        let root = self.root_node() as usize;
        if i == 0 {
            let p0 = seq![root];
            assert(p0[0] == root && p0.last() == root);
            assert(g.is_path(false, p0));
        } else {
            self.lemma_path_moves_earlier(order, p, k0, i - 1);
            let m1 = choose|m: int| 0 <= m <= k0 - (i - 1) && order[m] == p[i - 1];
            assert(g.step_refs(false, p[i - 1] as int).contains(p[(i - 1) + 1]));
            g.lemma_reach_step(false, root, p[i - 1], p[i]);
            assert(self.in_frame(p[i]));
            assert(order.contains(p[i]));
            let m = choose|m: int| 0 <= m < order.len() && order[m] == p[i];
            assert(self.dependencies(order[m1] as int).contains(order[m]));
        }
    }

    /// Law: the waits of a layer node's submission hold one entry per
    /// dependency entering the layer node its name refers to, in the order the
    /// dependencies were added, each with the layer the dependency comes from
    /// and the dependency's information; no entering dependency is left out.
    pub proof fn waits_are_the_entering_dependencies(&self, r: int)
        requires
            self.wf(),
            0 <= r < self.layer_graph.node_seq().len(),
        ensures
            ({
                let g = self.layer_graph;
                let i = g.node_index(g.node_seq()[r].name@);
                let w = self.waits_of_node(r);
                exists|ks: Seq<int>|
                    {
                        &&& ks.len() == w.len()
                        &&& forall|m: int|
                            0 <= m < ks.len() ==> {
                                &&& 0 <= #[trigger] ks[m] < g.edge_seq().len()
                                &&& g.edge_seq()[ks[m]].dst == i
                                &&& w[m] == (self.layer_of_node(g.edge_seq()[ks[m]].src as int), g.edge_seq()[ks[m]].info)
                            }
                        &&& forall|a: int, b: int| 0 <= a < b < ks.len() ==> #[trigger] ks[a] < #[trigger] ks[b]
                        &&& forall|j: int|
                            0 <= j < g.edge_seq().len() && #[trigger] g.edge_seq()[j].dst == i ==> exists|m: int|
                                0 <= m < ks.len() && #[trigger] ks[m] == j
                    }
            }),
    {
        let g = self.layer_graph;
        let i = g.node_index(g.node_seq()[r].name@);
        let inc = incoming(g.edge_seq(), i);
        let w = self.waits_of_node(r);
        g.lemma_edges_in_range();
        crate::util::graph::incoming_lists_exactly_the_entering_edges(g.edge_seq(), i);
        let ks = inc.map_values(|p: (usize, usize)| p.1 as int);
        assert(ks.len() == w.len());
        assert forall|m: int| 0 <= m < ks.len() implies {
            &&& 0 <= #[trigger] ks[m] < g.edge_seq().len()
            &&& g.edge_seq()[ks[m]].dst == i
            &&& w[m] == (self.layer_of_node(g.edge_seq()[ks[m]].src as int), g.edge_seq()[ks[m]].info)
        } by {
            let e = inc[m];
            assert(e.1 < g.edge_seq().len());
        }
        assert forall|a: int, b: int| 0 <= a < b < ks.len() implies #[trigger] ks[a] < #[trigger] ks[b] by {
            assert(inc[a].1 < inc[b].1);
        }
        assert forall|j: int| 0 <= j < g.edge_seq().len() && #[trigger] g.edge_seq()[j].dst == i implies exists|m: int|
            0 <= m < ks.len() && #[trigger] ks[m] == j by {
            let m = choose|m: int| 0 <= m < inc.len() && #[trigger] inc[m].1 == j;
            assert(ks[m] == j);
        }
    }

    /// Law: after a layer is added under `name`, `name` refers to that layer
    /// and every other name refers to the layer it referred to before.
    pub proof fn add_layer_then_lookup(before: &Self, after: &Self, name: Seq<char>)
        requires
            before.wf(),
            after.layers@.len() == before.layers@.len() + 1,
            after.layers@.drop_last() == before.layers@,
            after.layer_graph.node_seq().len() == before.layer_graph.node_seq().len() + 1,
            after.layer_graph.node_seq().drop_last() == before.layer_graph.node_seq(),
            after.layer_graph.node_seq().last().data == before.layers@.len(),
        ensures
            after.layer_graph.node_seq().last().name@ == name ==> after.layer_graph.has_node(name)
                && after.layers@[after.layer_index(name) as int] == after.layers@.last(),
            after.layer_graph.node_seq().last().name@ != name && before.layer_graph.has_node(name) ==> after.layer_graph.has_node(name)
                && after.layers@[after.layer_index(name) as int] == before.layers@[before.layer_index(name) as int],
    {
        Graph::<usize, D>::add_node_then_lookup(&before.layer_graph, &after.layer_graph, name);
        let g = before.layer_graph;
        if after.layer_graph.node_seq().last().name@ != name && g.has_node(name) {
            g.lemma_node_in_range(name);
            let i = g.node_index(name);
            assert(after.layer_graph.node_seq()[i] == after.layer_graph.node_seq().drop_last()[i]);
            assert(g.node_seq()[i].data < before.layers@.len());
            assert(after.layers@[g.node_seq()[i].data as int] == after.layers@.drop_last()[g.node_seq()[i].data as int]);
        }
    }
}

} // verus!
