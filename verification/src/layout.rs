//! The layout: its settings, nodes and edges, the ways to build and to
//! change a graph, and the step of the simulation.
//!
//! A step is five phases in order: every node comes to rest and remembers
//! its speed, the edges attract, the nodes repel, gravity pulls, and every
//! node moves by the speed that the forces gave it. [`Layout::step`] says
//! what a step makes of the nodes.

use crate::forces::attraction::{attract, attraction_pass};
use crate::forces::gravity::{apply_gravity, apply_gravity_sg, gravity_pass};
use crate::forces::repulsion::{repulse, repulsion_by, InverseDistance, NoOverlap, NodeBodyN};
use crate::forces::{Attraction, Gravity, Repulsion};
use crate::trees::Tree;
use crate::util::{drain_filter_swap, swap_filter, Coord, CoordSeq, Edge, VecN};
use vstd::prelude::*;

verus! {

/// Settings for the graph layout
#[derive(Debug, PartialEq)]
pub struct Settings<T> {
    /// Precision setting for Barnes-Hut computation
    ///
    /// Must be in `[0, 1]`. `0` is accurate and slow, `1` is unaccurate and fast.
    /// Default is one half.
    pub theta: T,
    /// Attraction coefficient
    pub ka: T,
    /// Gravity coefficient
    pub kg: T,
    /// Repulsion coefficient
    pub kr: T,
    /// Logarithmic attraction
    pub lin_log: bool,
    /// Divide the attraction that pulls the first node of an edge by that
    /// node's mass, so that hubs are dragged less by their many neighbours
    pub dissuade_hubs: bool,
    /// Prevent node overlapping for a prettier graph.
    ///
    /// Value is `kr_prime`, the constant push between two nodes that touch.
    pub prevent_overlapping: Option<T>,
    /// Speed factor
    pub speed: T,
    /// Gravity pulls with the same strength at every distance, resulting in a
    /// more compact graph.
    pub strong_gravity: bool,
}

impl<T: Copy> Clone for Settings<T> {
    fn clone(&self) -> (r: Self)
        ensures
            r == *self,
    {
        *self
    }
}

impl<T: Copy> Copy for Settings<T> {

}

impl<T: Coord> Settings<T> {
    /// One hundred, counted up from one
    pub open spec fn hundred_spec() -> T {
        let two = T::one_spec().plus_spec(T::one_spec());
        let four = two.plus_spec(two);
        let five = four.plus_spec(T::one_spec());
        let ten = five.plus_spec(five);
        ten.times_spec(ten)
    }

    /// The default settings: `theta` one half, all coefficients one, the
    /// speed factor one hundredth, every switch off
    pub open spec fn default_spec() -> Self {
        Settings {
            theta: T::one_spec().over_spec(T::one_spec().plus_spec(T::one_spec())),
            ka: T::one_spec(),
            kg: T::one_spec(),
            kr: T::one_spec(),
            lin_log: false,
            dissuade_hubs: false,
            prevent_overlapping: None,
            speed: T::one_spec().over_spec(Self::hundred_spec()),
            strong_gravity: false,
        }
    }

    /// Settings are valid when `0 <= theta <= 1`
    pub open spec fn check_spec(&self) -> bool {
        T::zero_spec().at_most_spec(self.theta) && self.theta.at_most_spec(T::one_spec())
    }

    /// Check whether the settings are valid
    pub fn check(&self) -> (valid: bool)
        ensures
            valid == self.check_spec(),
    {
        T::zero().at_most(self.theta) && self.theta.at_most(T::one())
    }
}

impl<T: Coord> Default for Settings<T> {
    fn default() -> (s: Self)
        ensures
            s == Self::default_spec(),
    {
        let one = T::one();
        let two = one.plus(one);
        let four = two.plus(two);
        let five = four.plus(one);
        let ten = five.plus(five);
        Settings {
            theta: one.over(two),
            ka: one,
            kg: one,
            kr: one,
            lin_log: false,
            dissuade_hubs: false,
            prevent_overlapping: None,
            speed: one.over(ten.times(ten)),
            strong_gravity: false,
        }
    }
}

/// Graph vertex positioned in the layout
#[derive(Debug, PartialEq)]
pub struct Node<T, const N: usize> {
    /// Position
    pub pos: VecN<T, N>,
    /// Current speed
    pub speed: VecN<T, N>,
    /// Speed at previous iteration
    pub old_speed: VecN<T, N>,
    /// Radius
    pub size: T,
    /// Mass
    pub mass: T,
}

impl<T: Copy, const N: usize> Clone for Node<T, N> {
    fn clone(&self) -> (r: Self)
        ensures
            r == *self,
    {
        *self
    }
}

impl<T: Copy, const N: usize> Copy for Node<T, N> {

}

/// What a [`Node`] holds, its vectors as sequences of coordinates
pub struct NodeView<T> {
    /// Position
    pub pos: Seq<T>,
    /// Current speed
    pub speed: Seq<T>,
    /// Speed at previous iteration
    pub old_speed: Seq<T>,
    /// Radius
    pub size: T,
    /// Mass
    pub mass: T,
}

impl<T, const N: usize> View for Node<T, N> {
    type V = NodeView<T>;

    open spec fn view(&self) -> NodeView<T> {
        NodeView {
            pos: self.pos@,
            speed: self.speed@,
            old_speed: self.old_speed@,
            size: self.size,
            mass: self.mass,
        }
    }
}

impl<T: Coord, const N: usize> Default for Node<T, N> {
    /// A node at the origin, at rest, of size one and mass one
    fn default() -> (n: Self)
        ensures
            n@ == (NodeView {
                pos: Seq::<T>::zeros(N as nat),
                speed: Seq::<T>::zeros(N as nat),
                old_speed: Seq::<T>::zeros(N as nat),
                size: T::one_spec(),
                mass: T::one_spec(),
            }),
    {
        Node {
            pos: VecN::zero(),
            speed: VecN::zero(),
            old_speed: VecN::zero(),
            size: T::one(),
            mass: T::one(),
        }
    }
}

/// Graph spatialization layout
pub struct Layout<T, const N: usize> {
    /// Graph vertices positioned in space
    pub nodes: Vec<Node<T, N>>,
    /// Graph edges (undirected), each with its weight; the first end of an
    /// edge is the lower index
    pub edges: Vec<(Edge, T)>,
    /// The settings. Change them with `set_settings`, which keeps the three
    /// choices below in step.
    pub settings: Settings<T>,
    /// The attraction in use
    pub fn_attraction: Attraction,
    /// The gravity in use
    pub fn_gravity: Gravity,
    /// The repulsion in use
    pub fn_repulsion: Repulsion,
    /// The arena in which the repulsion builds its tree, anew at every
    /// step. It holds no tree between two steps.
    pub tree: Tree<T, NodeBodyN<T, T, N>, N>,
}

/// Whether both ends of every edge are among `n` nodes, the lower index
/// first. An edge may join a node to itself.
pub open spec fn edges_ok<T>(edges: Seq<(Edge, T)>, n: nat) -> bool {
    forall|i: int| 0 <= i < edges.len() ==> (#[trigger] edges[i]).0.0 <= edges[i].0.1 < n
}

/// Nodes as contracts see them
pub open spec fn views_of<T, const N: usize>(nodes: Seq<Node<T, N>>) -> Seq<NodeView<T>> {
    Seq::new(nodes.len(), |i: int| nodes[i]@)
}

impl<T: Coord, const N: usize> Layout<T, N> {
    /// The nodes as contracts see them
    pub open spec fn views(self) -> Seq<NodeView<T>> {
        views_of(self.nodes@)
    }

    /// Whether the three forces in use are those that the settings ask for
    pub open spec fn dispatch_ok(self) -> bool {
        &&& self.fn_attraction == Attraction::chosen(self.settings)
        &&& self.fn_gravity == Gravity::chosen(self.settings)
        &&& self.fn_repulsion == Repulsion::chosen(self.settings)
    }

    /// A layout is well formed when its settings are valid, its forces are
    /// those that the settings ask for, every edge joins two nodes
    /// of the layout, a tree can be built over its dimension, and its arena
    /// holds no tree.
    pub open spec fn wf(self) -> bool {
        &&& 0 < N < 32
        &&& self.settings.check_spec()
        &&& self.dispatch_ok()
        &&& edges_ok(self.edges@, self.nodes@.len())
        &&& self.tree.nodes@.len() == 0
    }

    /// Whether `self` has the edges, the settings and the forces of `other`
    pub open spec fn same_graph(self, other: Self) -> bool {
        &&& self.edges == other.edges
        &&& self.settings == other.settings
        &&& self.fn_attraction == other.fn_attraction
        &&& self.fn_gravity == other.fn_gravity
        &&& self.fn_repulsion == other.fn_repulsion
    }
}

impl<T: Coord> NodeView<T> {
    /// The node at the start of a step: its speed becomes its old speed,
    /// and its speed is zero
    pub open spec fn reset(self) -> Self {
        NodeView { old_speed: self.speed, speed: Seq::<T>::zeros(self.speed.len()), ..self }
    }

    /// How much the force on the node changed since the last step:
    /// `|speed - old_speed|`
    pub open spec fn swinging(self) -> T {
        self.speed.vec_minus(self.old_speed).norm_squared().sqrt_spec()
    }

    /// How much of the force on the node is kept up: `|speed + old_speed|`
    pub open spec fn traction(self) -> T {
        self.speed.vec_plus(self.old_speed).norm_squared().sqrt_spec()
    }

    /// The factor by which the node follows its speed:
    /// `ln(1 + traction) / (sqrt(swinging) + 1) * global_speed`
    pub open spec fn pace(self, global_speed: T) -> T {
        self.traction().ln_1p_spec().over_spec(
            self.swinging().sqrt_spec().plus_spec(T::one_spec()),
        ).times_spec(global_speed)
    }

    /// The node at the end of a step: moved by its speed times its pace
    pub open spec fn moved(self, global_speed: T) -> Self {
        NodeView { pos: self.pos.vec_plus(self.speed.scaled(self.pace(global_speed))), ..self }
    }
}

impl<T: Coord, const N: usize> Node<T, N> {
    /// A node at `pos`, at rest
    pub fn at(pos: VecN<T, N>, size: T, mass: T) -> (n: Self)
        ensures
            n@ == (NodeView {
                pos: pos@,
                speed: Seq::<T>::zeros(N as nat),
                old_speed: Seq::<T>::zeros(N as nat),
                size,
                mass,
            }),
    {
        Node { pos, speed: VecN::zero(), old_speed: VecN::zero(), size, mass }
    }

    /// Start a step: remember the speed and set it to zero
    pub fn reset(&mut self)
        ensures
            final(self)@ == old(self)@.reset(),
    {
        self.old_speed = self.speed;
        self.speed = VecN::zero();
    }

    /// End a step: move by the speed, the faster the steadier the force
    pub fn advance(&mut self, global_speed: T)
        ensures
            final(self)@ == old(self)@.moved(global_speed),
    {
        let swinging = self.speed.minus(self.old_speed).norm_squared().sqrt();
        let traction = self.speed.plus(self.old_speed).norm_squared().sqrt();
        let f = traction.ln_1p().over(swinging.sqrt().plus(T::one())).times(global_speed);
        self.pos = self.pos.plus(self.speed.times(f));
    }
}

/// Whether both ends of an edge are among `n` nodes. An edge may join a
/// node to itself.
pub open spec fn edge_valid<T>(edge: (Edge, T), n: nat) -> bool {
    edge.0.0 < n && edge.0.1 < n
}

/// Whether both ends of every edge are among `n` nodes
pub open spec fn edges_valid<T>(edges: Seq<(Edge, T)>, n: nat) -> bool {
    forall|i: int| 0 <= i < edges.len() ==> edge_valid(#[trigger] edges[i], n)
}

/// The edge with its lower end first
pub open spec fn canonical<T>(edge: (Edge, T)) -> (Edge, T) {
    if edge.0.0 > edge.0.1 {
        ((edge.0.1, edge.0.0), edge.1)
    } else {
        edge
    }
}

/// The edges, each with its lower end first
pub open spec fn canonical_all<T>(edges: Seq<(Edge, T)>) -> Seq<(Edge, T)> {
    Seq::new(edges.len(), |i: int| canonical(edges[i]))
}

/// How many ends of the first `n` edges are at `node`
pub open spec fn degree<T>(edges: Seq<(Edge, T)>, node: int, n: nat) -> nat
    decreases n,
{
    if n == 0 {
        0
    } else {
        degree(edges, node, (n - 1) as nat) + (if edges[n - 1].0.0 == node {
            1nat
        } else {
            0nat
        }) + (if edges[n - 1].0.1 == node {
            1nat
        } else {
            0nat
        })
    }
}

/// The scalar reached from zero by adding one `k` times
pub open spec fn counted<T: Coord>(k: nat) -> T
    decreases k,
{
    if k == 0 {
        T::zero_spec()
    } else {
        counted::<T>((k - 1) as nat).plus_spec(T::one_spec())
    }
}

/// Whether an edge has an end at `node`
pub open spec fn incident<T>(edge: (Edge, T), node: usize) -> bool {
    edge.0.0 == node || edge.0.1 == node
}

/// The edge as it is named once `node` is gone: every index above `node`
/// is one less
pub open spec fn renumbered<T>(edge: (Edge, T), node: usize) -> (Edge, T) {
    (
        (
            if edge.0.0 > node {
                (edge.0.0 - 1) as usize
            } else {
                edge.0.0
            },
            if edge.0.1 > node {
                (edge.0.1 - 1) as usize
            } else {
                edge.0.1
            },
        ),
        edge.1,
    )
}

/// The edges that are left when `node` goes, as they are then named and in
/// the order in which they are left
pub open spec fn without_node<T>(edges: Seq<(Edge, T)>, node: usize) -> Seq<(Edge, T)> {
    let left = swap_filter(edges, |e: (Edge, T)| !incident(e, node));
    Seq::new(left.len(), |i: int| renumbered(left[i], node))
}

/// Check whether both ends of every edge are among `n` nodes
pub fn edges_are_valid<T: Copy>(edges: &[(Edge, T)], n: usize) -> (ok: bool)
    ensures
        ok == edges_valid(edges@, n as nat),
{
    let mut i: usize = 0;
    while i < edges.len()
        invariant
            i <= edges@.len(),
            forall|j: int| 0 <= j < i ==> edge_valid(#[trigger] edges@[j], n as nat),
        decreases edges@.len() - i,
    {
        let edge = edges[i];
        if edge.0.0 >= n || edge.0.1 >= n {
            assert(!edge_valid(edges@[i as int], n as nat));
            return false;
        }
        i += 1;
    }
    true
}

/// Puts the lower end of each edge first
pub fn canonical_edges<T: Copy>(edges: Vec<(Edge, T)>) -> (placed: Vec<(Edge, T)>)
    ensures
        placed@ == canonical_all(edges@),
        forall|n: nat| edges_valid(edges@, n) ==> #[trigger] edges_ok(placed@, n),
{
    let ghost given = edges@;
    let mut out = edges;
    let mut i: usize = 0;
    while i < out.len()
        invariant
            i <= out@.len(),
            out@.len() == given.len(),
            forall|j: int| 0 <= j < i ==> #[trigger] out@[j] == canonical(given[j]),
            forall|j: int| i <= j < out@.len() ==> out@[j] == given[j],
        decreases out@.len() - i,
    {
        let edge = out[i];
        if edge.0.0 > edge.0.1 {
            out[i] = ((edge.0.1, edge.0.0), edge.1);
        }
        i += 1;
    }
    assert(out@ =~= canonical_all(given));
    assert forall|n: nat| edges_valid(given, n) implies #[trigger] edges_ok(out@, n) by {
        assert forall|j: int| 0 <= j < out@.len() implies (#[trigger] out@[j]).0.0
            <= out@[j].0.1 < n by {
            assert(edge_valid(given[j], n));
            assert(out@[j] == canonical(given[j]));
        }
    }
    out
}

impl<T: Coord, const N: usize> Layout<T, N> {
    /// `self` with other settings, and the forces that these ask for
    pub open spec fn with_settings(self, settings: Settings<T>) -> Self {
        Layout {
            settings,
            fn_attraction: Attraction::chosen(settings),
            fn_gravity: Gravity::chosen(settings),
            fn_repulsion: Repulsion::chosen(settings),
            ..self
        }
    }

    /// A layout of the given nodes and edges under the given settings
    fn assemble(nodes: Vec<Node<T, N>>, edges: Vec<(Edge, T)>, settings: Settings<T>) -> (l: Self)
        ensures
            l.nodes == nodes,
            l.edges == edges,
            l.settings == settings,
            l.dispatch_ok(),
            l.tree.nodes@.len() == 0,
    {
        Layout {
            nodes,
            edges,
            fn_attraction: Self::choose_attraction(&settings),
            fn_gravity: Self::choose_gravity(&settings),
            fn_repulsion: Self::choose_repulsion(&settings),
            settings,
            tree: Tree::new(),
        }
    }

    /// Create an empty layout
    ///
    /// The settings must be valid.
    pub fn empty(settings: Settings<T>) -> (layout: Self)
        requires
            0 < N < 32,
            settings.check_spec(),
        ensures
            layout.wf(),
            layout.settings == settings,
            layout.nodes@.len() == 0,
            layout.edges@.len() == 0,
    {
        Self::assemble(Vec::new(), Vec::new(), settings)
    }

    /// Create a layout from an undirected graph, using degree as mass
    ///
    /// As many nodes are created as there are elements in `sizes`; node `i`
    /// starts at rest at `positions[i]`, and its mass is one for each end
    /// of an edge at it.
    ///
    /// The settings must be valid, there must be as many positions as
    /// sizes, and both ends of every edge must be among the nodes.
    pub fn from_graph_with_degree_mass(
        edges: Vec<(Edge, T)>,
        sizes: Vec<T>,
        positions: Vec<VecN<T, N>>,
        settings: Settings<T>,
    ) -> (layout: Self)
        requires
            0 < N < 32,
            settings.check_spec(),
            positions@.len() == sizes@.len(),
            edges_valid(edges@, sizes@.len()),
        ensures
            layout.wf(),
            layout.settings == settings,
            layout.edges@ == canonical_all(edges@),
            layout.nodes@.len() == sizes@.len(),
            forall|i: int|
                0 <= i < sizes@.len() ==> (#[trigger] layout.nodes@[i])@ == (NodeView {
                    pos: positions@[i]@,
                    speed: Seq::<T>::zeros(N as nat),
                    old_speed: Seq::<T>::zeros(N as nat),
                    size: sizes@[i],
                    mass: counted::<T>(degree(edges@, i, edges@.len())),
                }),
    {
        let ghost given = edges@;
        let edges = canonical_edges(edges);
        assert(edges_ok(edges@, sizes@.len()));
        let mut nodes: Vec<Node<T, N>> = Vec::with_capacity(sizes.len());
        let mut i: usize = 0;
        while i < sizes.len()
            invariant
                i <= sizes@.len(),
                positions@.len() == sizes@.len(),
                nodes@.len() == i,
                forall|j: int|
                    0 <= j < i ==> (#[trigger] nodes@[j])@ == (NodeView {
                        pos: positions@[j]@,
                        speed: Seq::<T>::zeros(N as nat),
                        old_speed: Seq::<T>::zeros(N as nat),
                        size: sizes@[j],
                        mass: T::zero_spec(),
                    }),
            decreases sizes@.len() - i,
        {
            nodes.push(Node::at(positions[i], sizes[i], T::zero()));
            i += 1;
        }
        let mut k: usize = 0;
        while k < edges.len()
            invariant
                k <= edges@.len(),
                edges@ == canonical_all(given),
                edges_ok(edges@, nodes@.len()),
                nodes@.len() == sizes@.len(),
                positions@.len() == sizes@.len(),
                forall|j: int|
                    0 <= j < nodes@.len() ==> (#[trigger] nodes@[j])@ == (NodeView {
                        pos: positions@[j]@,
                        speed: Seq::<T>::zeros(N as nat),
                        old_speed: Seq::<T>::zeros(N as nat),
                        size: sizes@[j],
                        mass: counted::<T>(degree(given, j, k as nat)),
                    }),
            decreases edges@.len() - k,
        {
            let edge = edges[k];
            let n1 = edge.0.0;
            let n2 = edge.0.1;
            assert(edge == canonical(given[k as int]));
            let one = T::one();
            let m1 = nodes[n1].mass.plus(one);
            nodes[n1].mass = m1;
            let m2 = nodes[n2].mass.plus(one);
            nodes[n2].mass = m2;
            proof {
                let d1 = degree(given, n1 as int, k as nat);
                assert(counted::<T>(d1 + 1) == counted::<T>(d1).plus_spec(T::one_spec()));
                assert(counted::<T>(d1 + 2) == counted::<T>(d1 + 1).plus_spec(T::one_spec()));
            }
            k += 1;
        }
        Self::assemble(nodes, edges, settings)
    }

    /// Create a layout from an undirected graph
    ///
    /// `masses_sizes`'s elements are `(mass, size)`. As many nodes are
    /// created as it has elements; node `i` starts at rest at
    /// `positions[i]`.
    ///
    /// The settings must be valid, there must be as many positions as
    /// nodes, and both ends of every edge must be among the nodes.
    pub fn from_graph_with_masses(
        edges: Vec<(Edge, T)>,
        masses_sizes: Vec<(T, T)>,
        positions: Vec<VecN<T, N>>,
        settings: Settings<T>,
    ) -> (layout: Self)
        requires
            0 < N < 32,
            settings.check_spec(),
            positions@.len() == masses_sizes@.len(),
            edges_valid(edges@, masses_sizes@.len()),
        ensures
            layout.wf(),
            layout.settings == settings,
            layout.edges@ == canonical_all(edges@),
            layout.nodes@.len() == masses_sizes@.len(),
            forall|i: int|
                0 <= i < masses_sizes@.len() ==> (#[trigger] layout.nodes@[i])@ == (NodeView {
                    pos: positions@[i]@,
                    speed: Seq::<T>::zeros(N as nat),
                    old_speed: Seq::<T>::zeros(N as nat),
                    size: masses_sizes@[i].1,
                    mass: masses_sizes@[i].0,
                }),
    {
        let edges = canonical_edges(edges);
        assert(edges_ok(edges@, masses_sizes@.len()));
        let mut nodes: Vec<Node<T, N>> = Vec::with_capacity(masses_sizes.len());
        let mut i: usize = 0;
        while i < masses_sizes.len()
            invariant
                i <= masses_sizes@.len(),
                positions@.len() == masses_sizes@.len(),
                nodes@.len() == i,
                forall|j: int|
                    0 <= j < i ==> (#[trigger] nodes@[j])@ == (NodeView {
                        pos: positions@[j]@,
                        speed: Seq::<T>::zeros(N as nat),
                        old_speed: Seq::<T>::zeros(N as nat),
                        size: masses_sizes@[j].1,
                        mass: masses_sizes@[j].0,
                    }),
            decreases masses_sizes@.len() - i,
        {
            nodes.push(Node::at(positions[i], masses_sizes[i].1, masses_sizes[i].0));
            i += 1;
        }
        Self::assemble(nodes, edges, settings)
    }

    /// Create a layout from an undirected graph, with initial positions
    ///
    /// The settings must be valid, and both ends of every edge must be
    /// among the nodes.
    pub fn from_position_graph(
        edges: Vec<(Edge, T)>,
        nodes: Vec<Node<T, N>>,
        settings: Settings<T>,
    ) -> (layout: Self)
        requires
            0 < N < 32,
            settings.check_spec(),
            edges_valid(edges@, nodes@.len()),
        ensures
            layout.wf(),
            layout.settings == settings,
            layout.edges@ == canonical_all(edges@),
            layout.nodes == nodes,
    {
        let edges = canonical_edges(edges);
        assert(edges_ok(edges@, nodes@.len()));
        Self::assemble(nodes, edges, settings)
    }

    /// Check whether the layout is well formed
    pub fn is_well_formed(&self) -> (ok: bool)
        ensures
            ok == self.wf(),
    {
        if N == 0 || N >= 32 || !self.settings.check() || self.tree.nodes.len() != 0 {
            return false;
        }
        if self.fn_attraction != Self::choose_attraction(&self.settings) || self.fn_gravity
            != Self::choose_gravity(&self.settings) || self.fn_repulsion != Self::choose_repulsion(
            &self.settings,
        ) {
            return false;
        }
        let mut i: usize = 0;
        while i < self.edges.len()
            invariant
                i <= self.edges@.len(),
                forall|j: int|
                    0 <= j < i ==> (#[trigger] self.edges@[j]).0.0 <= self.edges@[j].0.1
                        < self.nodes@.len(),
            decreases self.edges@.len() - i,
        {
            let edge = self.edges[i].0;
            if edge.0 > edge.1 || edge.1 >= self.nodes.len() {
                return false;
            }
            i += 1;
        }
        true
    }

    /// Get layout's settings
    pub fn get_settings(&self) -> (settings: &Settings<T>)
        ensures
            *settings == self.settings,
    {
        &self.settings
    }

    /// Change layout settings
    ///
    /// The settings must be valid. The three forces in use change with
    /// them.
    pub fn set_settings(&mut self, settings: Settings<T>)
        requires
            settings.check_spec(),
        ensures
            *final(self) == old(self).with_settings(settings),
            old(self).wf() ==> final(self).wf(),
    {
        self.fn_attraction = Self::choose_attraction(&settings);
        self.fn_gravity = Self::choose_gravity(&settings);
        self.fn_repulsion = Self::choose_repulsion(&settings);
        self.settings = settings;
    }
}

/// The nodes at the start of a step
pub open spec fn reset_pass<T: Coord>(nodes: Seq<NodeView<T>>) -> Seq<NodeView<T>> {
    Seq::new(nodes.len(), |i: int| nodes[i].reset())
}

/// The nodes at the end of a step
pub open spec fn integration_pass<T: Coord>(nodes: Seq<NodeView<T>>, global_speed: T) -> Seq<
    NodeView<T>,
> {
    Seq::new(nodes.len(), |i: int| nodes[i].moved(global_speed))
}

impl<T: Coord, const N: usize> Layout<T, N> {
    /// The nodes after one step: reset, attraction, repulsion, gravity,
    /// integration, in this order
    pub open spec fn step(self) -> Seq<NodeView<T>> {
        let reset = reset_pass(self.views());
        let attracted = attraction_pass(reset, self.edges@, self.fn_attraction, self.settings.ka);
        let repelled = repulsion_by::<T, N>(attracted, self.fn_repulsion, self.settings);
        let pulled = gravity_pass(repelled, self.fn_gravity, self.settings.kg);
        integration_pass(pulled, self.settings.speed)
    }

    /// Add nodes to the graph
    ///
    /// New node indices in edges start at the current number of nodes. An
    /// edge may join any two nodes of the graph as it is after the nodes
    /// were added; both of its ends must be among these.
    pub fn add_nodes(&mut self, edges: &[(Edge, T)], nodes: &[Node<T, N>])
        requires
            old(self).nodes@.len() + nodes@.len() <= usize::MAX,
            edges_valid(edges@, (old(self).nodes@.len() + nodes@.len()) as nat),
        ensures
            final(self).nodes@ == old(self).nodes@ + nodes@,
            final(self).edges@ == old(self).edges@ + canonical_all(edges@),
            final(self).settings == old(self).settings,
            final(self).fn_attraction == old(self).fn_attraction,
            final(self).fn_gravity == old(self).fn_gravity,
            final(self).fn_repulsion == old(self).fn_repulsion,
            final(self).tree == old(self).tree,
            old(self).wf() ==> final(self).wf(),
    {
        let ghost total = old(self).nodes@.len() + nodes@.len();
        let mut k: usize = 0;
        while k < nodes.len()
            invariant
                k <= nodes@.len(),
                self.same_graph(*old(self)),
                self.tree == old(self).tree,
                self.nodes@ == old(self).nodes@ + nodes@.subrange(0, k as int),
            decreases nodes@.len() - k,
        {
            self.nodes.push(nodes[k]);
            assert(nodes@.subrange(0, k + 1) =~= nodes@.subrange(0, k as int).push(nodes@[k as int]));
            k += 1;
        }
        assert(nodes@.subrange(0, k as int) =~= nodes@);
        let mut i: usize = 0;
        while i < edges.len()
            invariant
                i <= edges@.len(),
                self.nodes@ == old(self).nodes@ + nodes@,
                self.settings == old(self).settings,
                self.fn_attraction == old(self).fn_attraction,
                self.fn_gravity == old(self).fn_gravity,
                self.fn_repulsion == old(self).fn_repulsion,
                self.tree == old(self).tree,
                self.edges@ == old(self).edges@ + canonical_all(edges@).subrange(0, i as int),
            decreases edges@.len() - i,
        {
            let edge = edges[i];
            let placed = if edge.0.0 > edge.0.1 {
                ((edge.0.1, edge.0.0), edge.1)
            } else {
                edge
            };
            self.edges.push(placed);
            assert(canonical_all(edges@).subrange(0, i + 1) =~= canonical_all(edges@).subrange(
                0,
                i as int,
            ).push(canonical(edges@[i as int])));
            i += 1;
        }
        assert(canonical_all(edges@).subrange(0, i as int) =~= canonical_all(edges@));
        proof {
            if old(self).wf() {
                assert forall|j: int| 0 <= j < self.edges@.len() implies (
                #[trigger] self.edges@[j]).0.0 <= self.edges@[j].0.1 < self.nodes@.len() by {
                    if j < old(self).edges@.len() {
                        assert(self.edges@[j] == old(self).edges@[j]);
                    } else {
                        let m = j - old(self).edges@.len();
                        assert(edge_valid(edges@[m], total as nat));
                        assert(self.edges@[j] == canonical(edges@[m]));
                    }
                }
            }
        }
    }

    /// Remove an edge by index
    pub fn remove_edge(&mut self, edge: usize)
        requires
            edge < old(self).edges@.len(),
        ensures
            final(self).edges@ == old(self).edges@.remove(edge as int),
            final(self).nodes == old(self).nodes,
            final(self).settings == old(self).settings,
            final(self).fn_attraction == old(self).fn_attraction,
            final(self).fn_gravity == old(self).fn_gravity,
            final(self).fn_repulsion == old(self).fn_repulsion,
            final(self).tree == old(self).tree,
            old(self).wf() ==> final(self).wf(),
    {
        self.edges.remove(edge);
        proof {
            if old(self).wf() {
                assert forall|j: int| 0 <= j < self.edges@.len() implies (
                #[trigger] self.edges@[j]).0.0 <= self.edges@[j].0.1 < self.nodes@.len() by {
                    if j < edge {
                        assert(self.edges@[j] == old(self).edges@[j]);
                    } else {
                        assert(self.edges@[j] == old(self).edges@[j + 1]);
                    }
                }
            }
        }
    }

    /// Remove a node by index
    ///
    /// The edges stay as they are: the node should have none, and no edge
    /// should name the last node, whose index goes. `remove_incident_edges`
    /// arranges both.
    pub fn remove_node(&mut self, node: usize)
        requires
            node < old(self).nodes@.len(),
        ensures
            final(self).nodes@ == old(self).nodes@.remove(node as int),
            final(self).same_graph(*old(self)),
            final(self).tree == old(self).tree,
            old(self).wf() && edges_ok(old(self).edges@, (old(self).nodes@.len() - 1) as nat)
                ==> final(self).wf(),
    {
        self.nodes.remove(node);
    }

    /// Remove a node's incident edges
    ///
    /// The edges that are left are named as if the node were gone: every
    /// index above `node` is one less.
    pub fn remove_incident_edges(&mut self, node: usize)
        ensures
            final(self).edges@ == without_node(old(self).edges@, node),
            final(self).nodes == old(self).nodes,
            final(self).settings == old(self).settings,
            final(self).fn_attraction == old(self).fn_attraction,
            final(self).fn_gravity == old(self).fn_gravity,
            final(self).fn_repulsion == old(self).fn_repulsion,
            final(self).tree == old(self).tree,
            old(self).wf() && node < old(self).nodes@.len() ==> edges_ok(
                final(self).edges@,
                (old(self).nodes@.len() - 1) as nat,
            ),
    {
        let ghost keep = |e: (Edge, T)| !incident(e, node);
        let filter = |e: &(Edge, T)| -> (kept: bool)
            ensures
                kept == !incident(*e, node),
            { !(e.0.0 == node || e.0.1 == node) };
        assert(crate::util::answers(filter, keep));
        drain_filter_swap(&mut self.edges, filter);
        let ghost left = self.edges@;
        assert(left == swap_filter(old(self).edges@, keep));
        let mut i: usize = 0;
        while i < self.edges.len()
            invariant
                i <= self.edges@.len(),
                self.edges@.len() == left.len(),
                self.nodes == old(self).nodes,
                self.settings == old(self).settings,
                self.fn_attraction == old(self).fn_attraction,
                self.fn_gravity == old(self).fn_gravity,
                self.fn_repulsion == old(self).fn_repulsion,
                self.tree == old(self).tree,
                forall|j: int| 0 <= j < i ==> #[trigger] self.edges@[j] == renumbered(left[j], node),
                forall|j: int| i <= j < left.len() ==> self.edges@[j] == left[j],
            decreases self.edges@.len() - i,
        {
            let edge = self.edges[i];
            let n1 = if edge.0.0 > node {
                edge.0.0 - 1
            } else {
                edge.0.0
            };
            let n2 = if edge.0.1 > node {
                edge.0.1 - 1
            } else {
                edge.0.1
            };
            self.edges[i] = ((n1, n2), edge.1);
            i += 1;
        }
        assert(self.edges@ =~= without_node(old(self).edges@, node));
        proof {
            if old(self).wf() && node < old(self).nodes@.len() {
                lemma_without_node_ok(old(self).edges@, node, old(self).nodes@.len());
            }
        }
    }

    /// Remove a node by index, automatically removing all its incident edges
    pub fn remove_node_with_edges(&mut self, node: usize)
        requires
            node < old(self).nodes@.len(),
        ensures
            final(self).nodes@ == old(self).nodes@.remove(node as int),
            final(self).edges@ == without_node(old(self).edges@, node),
            final(self).settings == old(self).settings,
            final(self).fn_attraction == old(self).fn_attraction,
            final(self).fn_gravity == old(self).fn_gravity,
            final(self).fn_repulsion == old(self).fn_repulsion,
            final(self).tree == old(self).tree,
            old(self).wf() ==> final(self).wf(),
    {
        self.remove_incident_edges(node);
        self.remove_node(node);
    }

    /// Start a step: every node remembers its speed and comes to rest
    pub fn init_iteration(&mut self)
        ensures
            final(self).same_graph(*old(self)),
            final(self).tree == old(self).tree,
            final(self).nodes@.len() == old(self).nodes@.len(),
            final(self).views() == reset_pass(old(self).views()),
    {
        let mut i: usize = 0;
        while i < self.nodes.len()
            invariant
                i <= self.nodes@.len(),
                self.same_graph(*old(self)),
                self.tree == old(self).tree,
                self.nodes@.len() == old(self).nodes@.len(),
                forall|j: int|
                    0 <= j < i ==> (#[trigger] self.nodes@[j])@ == old(self).nodes@[j]@.reset(),
                forall|j: int| i <= j < self.nodes@.len() ==> self.nodes@[j] == old(self).nodes@[j],
            decreases self.nodes@.len() - i,
        {
            self.nodes[i].reset();
            i += 1;
        }
        assert(self.views() =~= reset_pass(old(self).views()));
    }

    /// The attraction in use, along every edge
    pub fn apply_attraction(&mut self)
        requires
            edges_ok(old(self).edges@, old(self).nodes@.len()),
        ensures
            final(self).same_graph(*old(self)),
            final(self).tree == old(self).tree,
            final(self).nodes@.len() == old(self).nodes@.len(),
            final(self).views() == attraction_pass(
                old(self).views(),
                old(self).edges@,
                old(self).fn_attraction,
                old(self).settings.ka,
            ),
    {
        let kind = self.fn_attraction;
        attract(self, kind)
    }

    /// The gravity in use, on every node
    pub fn apply_gravity(&mut self)
        ensures
            final(self).same_graph(*old(self)),
            final(self).tree == old(self).tree,
            final(self).nodes@.len() == old(self).nodes@.len(),
            final(self).views() == gravity_pass(
                old(self).views(),
                old(self).fn_gravity,
                old(self).settings.kg,
            ),
    {
        match self.fn_gravity {
            Gravity::Off => {
                assert(self.views() =~= old(self).views());
            },
            Gravity::Weak => apply_gravity(self),
            Gravity::Strong => apply_gravity_sg(self),
        }
    }

    /// The repulsion in use, on every node
    pub fn apply_repulsion(&mut self)
        requires
            0 < N < 32,
            old(self).fn_repulsion == Repulsion::NoOverlap
                ==> old(self).settings.prevent_overlapping.is_some(),
        ensures
            final(self).same_graph(*old(self)),
            final(self).tree.nodes@.len() == 0,
            final(self).nodes@.len() == old(self).nodes@.len(),
            final(self).views() == repulsion_by::<T, N>(
                old(self).views(),
                old(self).fn_repulsion,
                old(self).settings,
            ),
    {
        match self.fn_repulsion {
            Repulsion::Plain => repulse(self, &InverseDistance),
            Repulsion::NoOverlap => {
                let kr_prime = self.settings.prevent_overlapping.unwrap().over(self.settings.kr);
                repulse(self, &NoOverlap { kr_prime })
            },
        }
        assert(self.views() =~= repulsion_by::<T, N>(
            old(self).views(),
            old(self).fn_repulsion,
            old(self).settings,
        ));
    }

    /// End a step: every node moves by its speed
    pub fn apply_forces(&mut self)
        ensures
            final(self).same_graph(*old(self)),
            final(self).tree == old(self).tree,
            final(self).nodes@.len() == old(self).nodes@.len(),
            final(self).views() == integration_pass(old(self).views(), old(self).settings.speed),
    {
        let speed = self.settings.speed;
        let mut i: usize = 0;
        while i < self.nodes.len()
            invariant
                i <= self.nodes@.len(),
                self.same_graph(*old(self)),
                self.tree == old(self).tree,
                speed == old(self).settings.speed,
                self.nodes@.len() == old(self).nodes@.len(),
                forall|j: int|
                    0 <= j < i ==> (#[trigger] self.nodes@[j])@ == old(self).nodes@[j]@.moved(speed),
                forall|j: int| i <= j < self.nodes@.len() ==> self.nodes@[j] == old(self).nodes@[j],
            decreases self.nodes@.len() - i,
        {
            self.nodes[i].advance(speed);
            i += 1;
        }
        assert(self.views() =~= integration_pass(old(self).views(), speed));
    }

    /// Compute an iteration of ForceAtlas2
    pub fn iteration(&mut self)
        requires
            old(self).wf(),
        ensures
            final(self).same_graph(*old(self)),
            final(self).tree.nodes@.len() == 0,
            final(self).nodes@.len() == old(self).nodes@.len(),
            final(self).views() == old(self).step(),
            final(self).wf(),
    {
        self.init_iteration();
        self.apply_attraction();
        self.apply_repulsion();
        self.apply_gravity();
        self.apply_forces();
    }
}

/// Once the edges at `node` are gone and the others renamed, every edge
/// joins two nodes among one fewer.
pub proof fn lemma_without_node_ok<T>(edges: Seq<(Edge, T)>, node: usize, n: nat)
    requires
        edges_ok(edges, n),
        node < n,
    ensures
        edges_ok(without_node(edges, node), (n - 1) as nat),
{
    let keep = |e: (Edge, T)| !incident(e, node);
    let left = swap_filter(edges, keep);
    crate::util::lemma_swap_filter_keeps(edges, keep);
    assert forall|i: int| 0 <= i < without_node(edges, node).len() implies (
    #[trigger] without_node(edges, node)[i]).0.0 <= without_node(edges, node)[i].0.1 < n - 1 by {
        let e = left[i];
        assert(left.to_multiset().count(e) > 0) by {
            left.to_multiset_ensures();
            assert(left.contains(e));
        }
        assert(edges.to_multiset().filter(keep).count(e) > 0);
        assert(keep(e) && edges.to_multiset().count(e) > 0);
        edges.to_multiset_ensures();
        assert(edges.contains(e));
        let j = choose|j: int| 0 <= j < edges.len() && edges[j] == e;
        assert(edges[j].0.0 <= edges[j].0.1 < n);
    }
}

/// Settings round trip: a layout that was given settings has these
/// settings, and the forces that they ask for. Valid settings keep a
/// well-formed layout well formed.
pub proof fn lemma_settings_round_trip<T: Coord, const N: usize>(
    layout: Layout<T, N>,
    settings: Settings<T>,
)
    ensures
        layout.with_settings(settings).settings == settings,
        layout.with_settings(settings).dispatch_ok(),
        layout.with_settings(settings).nodes == layout.nodes,
        layout.with_settings(settings).edges == layout.edges,
        layout.wf() && settings.check_spec() ==> layout.with_settings(settings).wf(),
{
}

/// Idempotent reset: after one reset every speed is zero, and after a
/// second reset in a row every speed is zero still, and every old speed
/// with it.
pub proof fn lemma_reset_twice<T: Coord>(nodes: Seq<NodeView<T>>)
    ensures
        reset_pass(nodes).len() == nodes.len(),
        reset_pass(reset_pass(nodes)).len() == nodes.len(),
        forall|i: int|
            0 <= i < nodes.len() ==> (#[trigger] reset_pass(nodes)[i]).speed == Seq::<T>::zeros(
                nodes[i].speed.len(),
            ),
        forall|i: int|
            0 <= i < nodes.len() ==> {
                &&& (#[trigger] reset_pass(reset_pass(nodes))[i]).speed == Seq::<T>::zeros(
                    nodes[i].speed.len(),
                )
                &&& reset_pass(reset_pass(nodes))[i].old_speed == Seq::<T>::zeros(
                    nodes[i].speed.len(),
                )
                &&& reset_pass(reset_pass(nodes))[i].pos == nodes[i].pos
                &&& reset_pass(reset_pass(nodes))[i].size == nodes[i].size
                &&& reset_pass(reset_pass(nodes))[i].mass == nodes[i].mass
            },
{
    assert forall|i: int| 0 <= i < nodes.len() implies {
        &&& (#[trigger] reset_pass(reset_pass(nodes))[i]).speed == Seq::<T>::zeros(
            nodes[i].speed.len(),
        )
        &&& reset_pass(reset_pass(nodes))[i].old_speed == Seq::<T>::zeros(nodes[i].speed.len())
    } by {
        assert(reset_pass(nodes)[i].speed.len() == nodes[i].speed.len());
        assert(reset_pass(reset_pass(nodes))[i] == reset_pass(nodes)[i].reset());
    }
}

/// Whether `edge` is an edge of `edges` that is not at `node`, named as it
/// is once `node` is gone
pub open spec fn renamed_from<T>(edges: Seq<(Edge, T)>, node: usize, edge: (Edge, T)) -> bool {
    exists|j: int|
        0 <= j < edges.len() && !incident(edges[j], node) && edge == renumbered(
            #[trigger] edges[j],
            node,
        )
}

/// What is left of the edges when a node goes with its edges: exactly the
/// edges that were not at the node, each once for each time it occurred,
/// and each named anew, so that no index stands for the node that went
/// and every index that was above it is one less.
pub proof fn lemma_without_node<T>(edges: Seq<(Edge, T)>, node: usize)
    ensures
        without_node(edges, node).len() == edges.to_multiset().filter(
            |e: (Edge, T)| !incident(e, node),
        ).len(),
        forall|k: int|
            0 <= k < without_node(edges, node).len() ==> renamed_from(
                edges,
                node,
                #[trigger] without_node(edges, node)[k],
            ),
        forall|j: int|
            0 <= j < edges.len() && !incident(#[trigger] edges[j], node) ==> without_node(
                edges,
                node,
            ).contains(renumbered(edges[j], node)),
{
    let keep = |e: (Edge, T)| !incident(e, node);
    let left = swap_filter(edges, keep);
    let renamed = without_node(edges, node);
    crate::util::lemma_swap_filter_keeps(edges, keep);
    left.to_multiset_ensures();
    edges.to_multiset_ensures();
    assert forall|k: int| 0 <= k < renamed.len() implies renamed_from(
        edges,
        node,
        #[trigger] renamed[k],
    ) by {
        let e = left[k];
        assert(left.contains(e));
        assert(left.to_multiset().count(e) > 0);
        assert(edges.to_multiset().filter(keep).count(e) > 0);
        assert(keep(e) && edges.to_multiset().count(e) > 0);
        assert(edges.contains(e));
        let j = choose|j: int| 0 <= j < edges.len() && edges[j] == e;
        assert(0 <= j < edges.len() && !incident(edges[j], node) && renamed[k] == renumbered(
            edges[j],
            node,
        ));
    }
    assert forall|j: int|
        0 <= j < edges.len() && !incident(#[trigger] edges[j], node) implies renamed.contains(
        renumbered(edges[j], node),
    ) by {
        let e = edges[j];
        assert(edges.contains(e));
        assert(edges.to_multiset().count(e) > 0);
        assert(keep(e));
        assert(edges.to_multiset().filter(keep).count(e) > 0);
        assert(left.to_multiset().count(e) > 0);
        assert(left.contains(e));
        let k = choose|k: int| 0 <= k < left.len() && left[k] == e;
        assert(renamed[k] == renumbered(e, node));
    }
}

} // verus!
